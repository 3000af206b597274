use todo_list::TodoList;

fn titles(l: &TodoList) -> Vec<String> {
    l.items().iter().map(|t| t.title.clone()).collect()
}

fn ids(l: &TodoList) -> Vec<i32> {
    l.items().iter().map(|t| t.id).collect()
}

#[test]
fn new_list_is_empty() {
    let l = TodoList::new();
    assert_eq!(l.len(), 0);
    assert_eq!(l.print_list(true), "<ul></ul>");
    assert_eq!(l.print_list(false), "<ul></ul>");
}

#[test]
fn add_numbers_from_one_in_order() {
    let mut l = TodoList::new();
    for t in ["a", "b", "c", "a"] {
        l.add_item(t.to_string());
    }
    assert_eq!(ids(&l), vec![1, 2, 3, 4]);
    assert_eq!(titles(&l), vec!["a", "b", "c", "a"]);
    assert!(l.items().iter().all(|t| !t.completed));
}

#[test]
fn complete_marks_first_match_only() {
    let mut l = TodoList::new();
    l.load_from_str("5|x|false\n5|y|false\n");
    l.complete_item(5);
    assert!(l.items()[0].completed);
    assert!(!l.items()[1].completed);
    l.complete_item(5);
    assert!(l.items()[0].completed);
    assert!(!l.items()[1].completed);
}

#[test]
fn complete_missing_id_changes_nothing() {
    let mut l = TodoList::new();
    l.add_item("a".to_string());
    l.add_item("b".to_string());
    let before = l.save_to_string();
    l.complete_item(9);
    l.complete_item(0);
    l.complete_item(-1);
    assert_eq!(l.save_to_string(), before);
}

#[test]
fn delete_missing_id_changes_nothing() {
    let mut l = TodoList::new();
    l.add_item("a".to_string());
    l.add_item("b".to_string());
    let before = l.save_to_string();
    l.delete_item(3);
    assert_eq!(l.len(), 2);
    assert_eq!(l.save_to_string(), before);
}

#[test]
fn delete_removes_all_matches_keeping_order() {
    let mut l = TodoList::new();
    l.load_from_str("1|a|false\n2|b|true\n1|c|false\n3|d|false\n");
    l.delete_item(1);
    assert_eq!(ids(&l), vec![2, 3]);
    assert_eq!(titles(&l), vec!["b", "d"]);
    assert!(l.items()[0].completed);
}

#[test]
fn delete_then_add_can_reuse_an_id() {
    let mut l = TodoList::new();
    l.add_item("a".to_string());
    l.add_item("b".to_string());
    l.delete_item(1);
    l.add_item("c".to_string());
    assert_eq!(ids(&l), vec![2, 2]);
}

#[test]
fn edit_title_changes_first_match() {
    let mut l = TodoList::new();
    l.load_from_str("4|x|true\n4|y|false\n");
    l.edit_title(4, "z".to_string());
    assert_eq!(titles(&l), vec!["z", "y"]);
    assert!(l.items()[0].completed);
    l.edit_title(8, "w".to_string());
    assert_eq!(titles(&l), vec!["z", "y"]);
}

#[test]
fn clear_empties_the_list() {
    let mut l = TodoList::new();
    l.add_item("a".to_string());
    l.complete_item(1);
    l.clear_all_items();
    assert_eq!(l.len(), 0);
    assert_eq!(l.print_list(true), "<ul></ul>");
    l.add_item("b".to_string());
    assert_eq!(ids(&l), vec![1]);
}

#[test]
fn scenario_add_complete_render() {
    let mut l = TodoList::new();
    l.add_item("buy milk".to_string());
    l.add_item("walk dog".to_string());
    l.complete_item(1);
    assert_eq!(l.print_list(false), "<ul><li>2. walk dog - Incomplete</li></ul>");
    assert_eq!(
        l.print_list(true),
        "<ul><li>1. buy milk - Completed</li><li>2. walk dog - Incomplete</li></ul>"
    );
}

#[test]
fn render_hides_every_completed_task() {
    let mut l = TodoList::new();
    l.load_from_str("1|a|true\n2|b|false\n3|c|true\n-4|d|false\n");
    assert_eq!(l.print_list(false), "<ul><li>2. b - Incomplete</li><li>-4. d - Incomplete</li></ul>");
    assert_eq!(
        l.print_list(true),
        "<ul><li>1. a - Completed</li><li>2. b - Incomplete</li><li>3. c - Completed</li><li>-4. d - Incomplete</li></ul>"
    );
}

#[test]
fn render_does_not_escape_titles() {
    let mut l = TodoList::new();
    l.add_item("<b>x</b> & y".to_string());
    assert_eq!(l.print_list(false), "<ul><li>1. <b>x</b> & y - Incomplete</li></ul>");
}
