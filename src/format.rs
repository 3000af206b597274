//! The persistence format: one task per line, `id|title|completed`, each line ending in a newline.
use crate::store::{TaskView, TodoItem};
use crate::text::{
    flag_text, int_text, parse_flag, parse_flag_text, parse_i32, parse_i32_text, split_chars,
    split_on, string_of,
};
use vstd::prelude::*;

verus! {

/// The separator between the fields of a record.
pub const FIELD_SEP: char = '|';

/// The line written for one task.
pub open spec fn record_text(t: TaskView) -> Seq<char> {
    int_text(t.id) + seq!['|'] + t.title + seq!['|'] + flag_text(t.completed) + seq!['\n']
}

/// The whole file written for a sequence of tasks.
pub open spec fn file_text(s: Seq<TaskView>) -> Seq<char>
    decreases s.len(),
{
    if s.len() == 0 {
        Seq::empty()
    } else {
        file_text(s.drop_last()) + record_text(s.last())
    }
}

/// A line without the carriage return that may end it.
pub open spec fn strip_cr(l: Seq<char>) -> Seq<char> {
    if l.len() > 0 && l.last() == '\r' {
        l.drop_last()
    } else {
        l
    }
}

/// The lines of `text`: split at each newline, a final empty piece dropped, and a carriage
/// return before a newline removed.
pub open spec fn lines_of(text: Seq<char>) -> Seq<Seq<char>> {
    let parts = split_on(text, '\n');
    let kept = if parts.last().len() == 0 {
        parts.drop_last()
    } else {
        parts
    };
    kept.map_values(|l: Seq<char>| strip_cr(l))
}

/// The id read from a field: its integer value, or zero when it is not one.
pub open spec fn id_field(f: Seq<char>) -> int {
    match parse_i32_text(f) {
        Some(v) => v,
        None => 0,
    }
}

/// The flag read from a field: `true` only for the text `true`.
pub open spec fn flag_field(f: Seq<char>) -> bool {
    match parse_flag_text(f) {
        Some(b) => b,
        None => false,
    }
}

/// The task that one line holds: `None` unless it has exactly three fields.
pub open spec fn parse_record(line: Seq<char>) -> Option<TaskView> {
    let f = split_on(line, '|');
    if f.len() == 3 {
        Some(TaskView { id: id_field(f[0]), title: f[1], completed: flag_field(f[2]) })
    } else {
        None
    }
}

/// The tasks read from a sequence of lines, in order; lines that are not records are skipped.
pub open spec fn parse_lines(lines: Seq<Seq<char>>) -> Seq<TaskView> {
    lines.filter_map(|l: Seq<char>| parse_record(l))
}

/// The tasks read from a whole file.
pub open spec fn parse_file(text: Seq<char>) -> Seq<TaskView> {
    parse_lines(lines_of(text))
}

/// Reads the task on one line (already without its line ending).
pub fn record_of_line(line: &Vec<char>) -> (r: Option<TodoItem>)
    ensures
        match r {
            Some(t) => parse_record(line@) == Some(t@),
            None => parse_record(line@) is None,
        },
{
    let fields = split_chars(line, FIELD_SEP);
    let ghost f = split_on(line@, '|');
    assert(fields.deep_view() == f);
    if fields.len() != 3 {
        return None;
    }
    assert(fields@[0]@ =~= f[0]);
    assert(fields@[1]@ =~= f[1]);
    assert(fields@[2]@ =~= f[2]);
    let id = match parse_i32(&fields[0], 0, fields[0].len()) {
        Some(v) => v,
        None => 0,
    };
    let completed = match parse_flag(&fields[2], 0, fields[2].len()) {
        Some(b) => b,
        None => false,
    };
    assert(fields@[0]@.subrange(0, fields@[0]@.len() as int) =~= f[0]);
    assert(fields@[2]@.subrange(0, fields@[2]@.len() as int) =~= f[2]);
    let title = string_of(&fields[1]);
    let t = TodoItem { id, title, completed };
    assert(t@ == TaskView { id: id_field(f[0]), title: f[1], completed: flag_field(f[2]) });
    Some(t)
}

} // verus!
