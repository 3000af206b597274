use todo_list::TodoList;

fn fields(l: &TodoList) -> Vec<(i32, String, bool)> {
    l.items().iter().map(|t| (t.id, t.title.clone(), t.completed)).collect()
}

#[test]
fn scenario_save_one_task() {
    let mut l = TodoList::new();
    l.add_item("a".to_string());
    let text = l.save_to_string();
    assert_eq!(text, "1|a|false\n");
    let mut back = TodoList::new();
    back.load_from_str(&text);
    assert_eq!(fields(&back), vec![(1, "a".to_string(), false)]);
}

#[test]
fn save_empty_list_is_empty_text() {
    assert_eq!(TodoList::new().save_to_string(), "");
}

#[test]
fn save_writes_each_field() {
    let mut l = TodoList::new();
    l.add_item("first one".to_string());
    l.add_item("".to_string());
    l.complete_item(2);
    assert_eq!(l.save_to_string(), "1|first one|false\n2||true\n");
}

#[test]
fn save_load_round_trip() {
    let mut l = TodoList::new();
    l.load_from_str("-2147483648|low|true\n2147483647|high|false\n0||true\n12|tea, milk|false\n");
    let text = l.save_to_string();
    assert_eq!(text, "-2147483648|low|true\n2147483647|high|false\n0||true\n12|tea, milk|false\n");
    let mut back = TodoList::new();
    back.load_from_str(&text);
    assert_eq!(fields(&back), fields(&l));
}

#[test]
fn load_appends_after_existing_tasks() {
    let mut l = TodoList::new();
    l.add_item("x".to_string());
    l.add_item("y".to_string());
    l.load_from_str("7|z|true\nbad line\n8|w|false\n");
    assert_eq!(
        fields(&l),
        vec![
            (1, "x".to_string(), false),
            (2, "y".to_string(), false),
            (7, "z".to_string(), true),
            (8, "w".to_string(), false),
        ]
    );
}

#[test]
fn load_skips_lines_without_three_fields() {
    let mut l = TodoList::new();
    l.load_from_str("1|a\n2|b|true\n3|c|true|extra\n\n|||\n4|d|false\n");
    assert_eq!(
        fields(&l),
        vec![(2, "b".to_string(), true), (4, "d".to_string(), false)]
    );
}

#[test]
fn load_uses_zero_for_bad_ids() {
    let mut l = TodoList::new();
    l.load_from_str("x|a|true\n|b|true\n2147483648|c|true\n- 1|d|true\n+5|e|true\n-|f|true\n007|g|true\n");
    assert_eq!(
        fields(&l),
        vec![
            (0, "a".to_string(), true),
            (0, "b".to_string(), true),
            (0, "c".to_string(), true),
            (0, "d".to_string(), true),
            (5, "e".to_string(), true),
            (0, "f".to_string(), true),
            (7, "g".to_string(), true),
        ]
    );
}

#[test]
fn load_uses_false_for_bad_flags() {
    let mut l = TodoList::new();
    l.load_from_str("1|a|TRUE\n2|b|yes\n3|c|\n4|d|true \n5|e|true\n6|f|false\n");
    let flags: Vec<bool> = l.items().iter().map(|t| t.completed).collect();
    assert_eq!(flags, vec![false, false, false, false, true, false]);
}

#[test]
fn load_handles_line_endings() {
    let mut l = TodoList::new();
    l.load_from_str("1|a|true\r\n2|b|false\n3|c|true");
    assert_eq!(
        fields(&l),
        vec![
            (1, "a".to_string(), true),
            (2, "b".to_string(), false),
            (3, "c".to_string(), true),
        ]
    );
}

#[test]
fn load_empty_text_adds_nothing() {
    let mut l = TodoList::new();
    l.add_item("a".to_string());
    l.load_from_str("");
    l.load_from_str("\n\n");
    assert_eq!(fields(&l), vec![(1, "a".to_string(), false)]);
}

#[test]
fn load_keeps_unicode_titles() {
    let mut l = TodoList::new();
    l.load_from_str("1|café ☕|false\n");
    assert_eq!(fields(&l), vec![(1, "café ☕".to_string(), false)]);
    assert_eq!(l.save_to_string(), "1|café ☕|false\n");
}
