//! The task list: an ordered sequence of tasks with point mutations.
use crate::format::{file_text, lines_of, parse_file, parse_record, record_of_line, record_text, strip_cr};
use crate::text::{chars_of, int_text, push_char, push_flag, push_int, split_chars, split_on};
use vstd::prelude::*;
use vstd::string::StringExecFns;

verus! {

/// A task as a mathematical value.
pub ghost struct TaskView {
    pub id: int,
    pub title: Seq<char>,
    pub completed: bool,
}

/// One to-do entry.
pub struct TodoItem {
    pub id: i32,
    pub title: String,
    pub completed: bool,
}

impl View for TodoItem {
    type V = TaskView;

    open spec fn view(&self) -> TaskView {
        TaskView { id: self.id as int, title: self.title@, completed: self.completed }
    }
}

/// The ordered collection of tasks.
pub struct TodoList {
    items: Vec<TodoItem>,
}

impl View for TodoList {
    type V = Seq<TaskView>;

    closed spec fn view(&self) -> Seq<TaskView> {
        self.items@.map_values(|t: TodoItem| t@)
    }
}

/// `s` after appending a fresh incomplete task titled `title`, numbered one past the length.
pub open spec fn with_added(s: Seq<TaskView>, title: Seq<char>) -> Seq<TaskView> {
    s.push(TaskView { id: (s.len() + 1) as int, title, completed: false })
}

/// Whether some task of `s` has id `id`.
pub open spec fn has_id(s: Seq<TaskView>, id: int) -> bool {
    exists|j: int| 0 <= j < s.len() && #[trigger] s[j].id == id
}

/// The first position of `s` holding id `id`, or `s.len()` when there is none.
pub open spec fn first_with_id(s: Seq<TaskView>, id: int) -> int
    decreases s.len(),
{
    if s.len() == 0 {
        0
    } else if s[0].id == id {
        0
    } else {
        1 + first_with_id(s.drop_first(), id)
    }
}

/// `s` with the first task of id `id` marked completed; `s` itself when there is none.
pub open spec fn with_completed(s: Seq<TaskView>, id: int) -> Seq<TaskView> {
    let j = first_with_id(s, id);
    if j < s.len() {
        s.update(j, TaskView { completed: true, ..s[j] })
    } else {
        s
    }
}

/// `s` with the first task of id `id` retitled; `s` itself when there is none.
pub open spec fn with_title(s: Seq<TaskView>, id: int, title: Seq<char>) -> Seq<TaskView> {
    let j = first_with_id(s, id);
    if j < s.len() {
        s.update(j, TaskView { title, ..s[j] })
    } else {
        s
    }
}

/// `s` without any task of id `id`, the others in their order.
pub open spec fn without_id(s: Seq<TaskView>, id: int) -> Seq<TaskView> {
    s.filter(|t: TaskView| t.id != id)
}

/// The status word shown for a task.
pub open spec fn status_text(completed: bool) -> Seq<char> {
    if completed {
        "Completed"@
    } else {
        "Incomplete"@
    }
}

/// One list item: `<li>{id}. {title} - {status}</li>`, the title as it is.
pub open spec fn item_html(t: TaskView) -> Seq<char> {
    "<li>"@ + int_text(t.id) + ". "@ + t.title + " - "@ + status_text(t.completed) + "</li>"@
}

/// The list items of `s`, in order.
pub open spec fn items_html(s: Seq<TaskView>) -> Seq<char>
    decreases s.len(),
{
    if s.len() == 0 {
        Seq::empty()
    } else {
        items_html(s.drop_last()) + item_html(s.last())
    }
}

/// The tasks that a view shows: all of them, or only those not completed.
pub open spec fn shown(s: Seq<TaskView>, show_completed: bool) -> Seq<TaskView> {
    s.filter(shows(show_completed))
}

/// Whether a view shows a task.
pub open spec fn shows(show_completed: bool) -> spec_fn(TaskView) -> bool {
    |t: TaskView| show_completed || !t.completed
}

/// The HTML list of the tasks that a view shows.
pub open spec fn render(s: Seq<TaskView>, show_completed: bool) -> Seq<char> {
    "<ul>"@ + items_html(shown(s, show_completed)) + "</ul>"@
}

/// The first position holding `id` is the one before which no task holds it, and at which
/// one does or the sequence ends.
pub proof fn lemma_first_with_id(s: Seq<TaskView>, id: int, i: int)
    requires
        0 <= i <= s.len(),
        forall|k: int| 0 <= k < i ==> #[trigger] s[k].id != id,
        i == s.len() || s[i].id == id,
    ensures
        first_with_id(s, id) == i,
    decreases i,
{
    if i > 0 {
        assert(s[0].id != id);
        let t = s.drop_first();
        assert forall|k: int| 0 <= k < i - 1 implies #[trigger] t[k].id != id by {
            assert(t[k] == s[k + 1]);
        }
        if i < s.len() {
            assert(t[i - 1] == s[i]);
        }
        lemma_first_with_id(t, id, i - 1);
    }
}

impl TodoList {
    /// An empty list.
    pub fn new() -> (r: TodoList)
        ensures
            r@ == Seq::<TaskView>::empty(),
    {
        let r = TodoList { items: Vec::new() };
        assert(r@ =~= Seq::<TaskView>::empty());
        r
    }

    /// The number of tasks.
    pub fn len(&self) -> (r: usize)
        ensures
            r == self@.len(),
    {
        self.items.len()
    }

    /// The tasks in order.
    pub fn items(&self) -> (r: &Vec<TodoItem>)
        ensures
            r@.map_values(|t: TodoItem| t@) == self@,
    {
        &self.items
    }

    /// Appends a task titled `title`, not completed, whose id is the new length.
    pub fn add_item(&mut self, title: String)
        requires
            old(self)@.len() < i32::MAX,
        ensures
            final(self)@ == with_added(old(self)@, title@),
    {
        let id = (self.items.len() + 1) as i32;
        let ghost t = title@;
        self.items.push(TodoItem { id, title, completed: false });
        assert(self@ =~= with_added(old(self)@, t));
    }

    /// Marks the first task of id `id` completed; does nothing when there is none.
    pub fn complete_item(&mut self, id: i32)
        ensures
            final(self)@ == with_completed(old(self)@, id as int),
    {
        let ghost s = self@;
        let mut i: usize = 0;
        while i < self.items.len()
            invariant
                i <= self.items@.len(),
                self@ == s,
                s == old(self)@,
                forall|k: int| 0 <= k < i ==> #[trigger] s[k].id != id,
            decreases self.items@.len() - i,
        {
            if self.items[i].id == id {
                proof {
                    lemma_first_with_id(s, id as int, i as int);
                }
                self.items[i].completed = true;
                assert(self@ =~= with_completed(s, id as int));
                return;
            }
            i = i + 1;
        }
        proof {
            lemma_first_with_id(s, id as int, s.len() as int);
        }
    }

    /// Gives the first task of id `id` the title `new_title`; does nothing when there is none.
    pub fn edit_title(&mut self, id: i32, new_title: String)
        ensures
            final(self)@ == with_title(old(self)@, id as int, new_title@),
    {
        let ghost s = self@;
        let mut i: usize = 0;
        while i < self.items.len()
            invariant
                i <= self.items@.len(),
                self@ == s,
                s == old(self)@,
                forall|k: int| 0 <= k < i ==> #[trigger] s[k].id != id,
            decreases self.items@.len() - i,
        {
            if self.items[i].id == id {
                proof {
                    lemma_first_with_id(s, id as int, i as int);
                }
                let ghost t = new_title@;
                self.items[i].title = new_title;
                assert(self@ =~= with_title(s, id as int, t));
                return;
            }
            i = i + 1;
        }
        proof {
            lemma_first_with_id(s, id as int, s.len() as int);
        }
    }

    /// Removes every task.
    pub fn clear_all_items(&mut self)
        ensures
            final(self)@ == Seq::<TaskView>::empty(),
    {
        self.items.clear();
        assert(self@ =~= Seq::<TaskView>::empty());
    }

    /// The HTML list of all tasks (`show_completed`) or of those not completed, in order.
    pub fn print_list(&self, show_completed: bool) -> (r: String)
        ensures
            r@ == render(self@, show_completed),
    {
        let ghost s = self@;
        let ghost pick = shows(show_completed);
        let mut result = String::new();
        result.append("<ul>");
        let mut i: usize = 0;
        while i < self.items.len()
            invariant
                i <= s.len(),
                s == self@,
                pick == shows(show_completed),
                result@ == "<ul>"@ + items_html(s.subrange(0, i as int).filter(pick)),
            decreases s.len() - i,
        {
            let item = &self.items[i];
            let ghost pre = s.subrange(0, i as int);
            assert(s.subrange(0, i + 1) =~= pre.push(item@));
            assert(pre.push(item@).drop_last() =~= pre);
            reveal(Seq::filter);
            if show_completed || !item.completed {
                let ghost f = pre.filter(pick);
                assert(f.push(item@).drop_last() =~= f);
                result.append("<li>");
                push_int(&mut result, item.id);
                result.append(". ");
                result.append(item.title.as_str());
                result.append(" - ");
                if item.completed {
                    result.append("Completed");
                } else {
                    result.append("Incomplete");
                }
                result.append("</li>");
                assert(result@ =~= "<ul>"@ + items_html(f) + item_html(item@));
            }
            i = i + 1;
        }
        assert(s.subrange(0, i as int) =~= s);
        result.append("</ul>");
        result
    }

    /// The file content that stores every task, one line each, in order.
    pub fn save_to_string(&self) -> (r: String)
        ensures
            r@ == file_text(self@),
    {
        let ghost s = self@;
        let mut result = String::new();
        let mut i: usize = 0;
        while i < self.items.len()
            invariant
                i <= s.len(),
                s == self@,
                result@ == file_text(s.subrange(0, i as int)),
            decreases s.len() - i,
        {
            let item = &self.items[i];
            let ghost pre = s.subrange(0, i as int);
            assert(s.subrange(0, i + 1) =~= pre.push(item@));
            assert(pre.push(item@).drop_last() =~= pre);
            push_int(&mut result, item.id);
            push_char(&mut result, '|');
            result.append(item.title.as_str());
            push_char(&mut result, '|');
            push_flag(&mut result, item.completed);
            push_char(&mut result, '\n');
            assert(result@ =~= file_text(pre) + record_text(item@));
            i = i + 1;
        }
        assert(s.subrange(0, i as int) =~= s);
        result
    }

    /// Appends the tasks read from file content after the present ones.
    pub fn load_from_str(&mut self, content: &str)
        ensures
            final(self)@ == old(self)@ + parse_file(content@),
    {
        let chars = chars_of(content);
        let mut lines = split_chars(&chars, '\n');
        let ghost parts = split_on(content@, '\n');
        let ghost kept = if parts.last().len() == 0 { parts.drop_last() } else { parts };
        let n = lines.len();
        if n > 0 && lines[n - 1].len() == 0 {
            lines.pop();
        }
        assert(lines.deep_view() =~= kept);
        let ghost f = |l: Seq<char>| parse_record(l);
        let ghost stripped = kept.map_values(|l: Seq<char>| strip_cr(l));
        assert(stripped == lines_of(content@));
        let ghost start = self@;
        let ghost orig = lines@;
        for line in it: lines
            invariant
                it.seq() == orig,
                orig.len() == stripped.len(),
                forall|j: int| 0 <= j < orig.len() ==> strip_cr(#[trigger] orig[j]@) == stripped[j],
                f == (|l: Seq<char>| parse_record(l)),
                self@ == start + stripped.subrange(0, it.index() as int).filter_map(f),
        {
            let ghost k = it.index() as int;
            let ghost pre = stripped.subrange(0, k);
            assert(stripped.subrange(0, k + 1) =~= pre.push(stripped[k]));
            assert(pre.push(stripped[k]).drop_last() =~= pre);
            assert(orig[k] == line);
            let mut l = line;
            let len = l.len();
            if len > 0 && l[len - 1] == '\r' {
                l.pop();
            }
            assert(l@ =~= stripped[k]);
            let ghost before = self@;
            match record_of_line(&l) {
                Some(t) => {
                    self.items.push(t);
                    assert(self@ =~= before.push(t@));
                    assert(self@ =~= start + pre.push(stripped[k]).filter_map(f));
                },
                None => {
                    assert(self@ =~= start + pre.push(stripped[k]).filter_map(f));
                },
            }
        }
        assert(stripped.subrange(0, stripped.len() as int) =~= stripped);
    }

    /// Removes every task of id `id`, keeping the others in their order.
    pub fn delete_item(&mut self, id: i32)
        ensures
            final(self)@ == without_id(old(self)@, id as int),
    {
        let ghost s = self@;
        let ghost keep = |t: TaskView| t.id != id as int;
        let mut rest: Vec<TodoItem> = Vec::new();
        std::mem::swap(&mut self.items, &mut rest);
        let ghost orig = rest@;
        assert(orig.map_values(|t: TodoItem| t@) == s);
        for t in it: rest
            invariant
                it.seq() == orig,
                s == it.seq().map_values(|t: TodoItem| t@),
                keep == (|t: TaskView| t.id != id as int),
                self@ == it.seq().subrange(0, it.index() as int).map_values(|t: TodoItem| t@).filter(
                    keep,
                ),
        {
            let ghost before = self@;
            let ghost done = it.seq().subrange(0, it.index() as int);
            let ghost next = done.push(t);
            assert(next.map_values(|t: TodoItem| t@) =~= done.map_values(|t: TodoItem| t@).push(t@));
            assert(next.map_values(|t: TodoItem| t@).drop_last() =~= done.map_values(|t: TodoItem| t@));
            reveal(Seq::filter);
            if t.id != id {
                self.items.push(t);
                assert(self@ =~= before.push(t@));
            }
            assert(next =~= it.seq().subrange(0, it.index() + 1));
        }
        assert(orig.subrange(0, orig.len() as int) =~= orig);
    }
}

} // verus!
