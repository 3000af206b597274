//! Laws that relate the operations of the task list, stated over its model.
use crate::format::{file_text, lines_of, parse_file, parse_lines, parse_record, record_text, strip_cr};
use crate::store::{has_id, lemma_first_with_id, shown, shows, with_added, with_completed, with_title, without_id, TaskView};
use crate::text::{
    flag_text, in_i32, int_text, lemma_concat_lacks, lemma_flag_text,
    lemma_int_text_lacks, lemma_parse_int_text, lemma_scan_extend, lemma_scan_sep,
    lemma_split_pieces, split_on, split_scan,
};
use vstd::prelude::*;

verus! {

/// The list after adding each of `titles` to `s`, in turn.
pub open spec fn added_all(s: Seq<TaskView>, titles: Seq<Seq<char>>) -> Seq<TaskView>
    decreases titles.len(),
{
    if titles.len() == 0 {
        s
    } else {
        with_added(added_all(s, titles.drop_last()), titles.last())
    }
}

/// Adding titles to an empty list gives ids `1..=n` in the order of adding, each task with
/// its title and not completed.
pub proof fn lemma_add_numbers_in_order(titles: Seq<Seq<char>>)
    ensures
        added_all(Seq::empty(), titles).len() == titles.len(),
        forall|i: int|
            0 <= i < titles.len() ==> #[trigger] added_all(Seq::empty(), titles)[i] == (TaskView {
                id: i + 1,
                title: titles[i],
                completed: false,
            }),
    decreases titles.len(),
{
    if titles.len() > 0 {
        lemma_add_numbers_in_order(titles.drop_last());
    }
}

/// The view of incomplete tasks holds no completed task and every incomplete one; the view
/// of all tasks holds every task once, in stored order.
pub proof fn lemma_render_selection(s: Seq<TaskView>)
    ensures
        shown(s, true) == s,
        forall|i: int|
            0 <= i < shown(s, false).len() ==> !(#[trigger] shown(s, false)[i]).completed,
        forall|i: int|
            0 <= i < s.len() && !s[i].completed ==> shown(s, false).contains(#[trigger] s[i]),
    decreases s.len(),
{
    let pick = shows(false);
    assert forall|i: int| 0 <= i < shown(s, false).len() implies !(#[trigger] shown(
        s,
        false,
    )[i]).completed by {
        s.lemma_filter_pred(pick, i);
    }
    assert forall|i: int| 0 <= i < s.len() && !s[i].completed implies shown(s, false).contains(
        #[trigger] s[i],
    ) by {
        s.lemma_filter_contains(pick, i);
    }
    reveal(Seq::filter);
    if s.len() > 0 {
        lemma_render_selection(s.drop_last());
        assert(s.drop_last().push(s.last()) =~= s);
    }
}

/// Whether every task of `s` can be written and read back: its id fits an `i32` and its
/// title holds neither the field separator nor a newline.
pub open spec fn storable(s: Seq<TaskView>) -> bool {
    forall|i: int|
        0 <= i < s.len() ==> {
            &&& in_i32(#[trigger] s[i].id)
            &&& !s[i].title.contains('|')
            &&& !s[i].title.contains('\n')
        }
}

/// The line written for `t`, without its newline.
pub open spec fn record_body(t: TaskView) -> Seq<char> {
    int_text(t.id) + seq!['|'] + t.title + seq!['|'] + flag_text(t.completed)
}

proof fn lemma_record_body(t: TaskView)
    requires
        in_i32(t.id),
        !t.title.contains('|'),
        !t.title.contains('\n'),
    ensures
        record_text(t) == record_body(t).push('\n'),
        !record_body(t).contains('\n'),
        strip_cr(record_body(t)) == record_body(t),
        parse_record(record_body(t)) == Some(t),
{
    assert(record_text(t) =~= record_body(t).push('\n'));
    lemma_flag_text(t.completed);
    lemma_int_text_lacks(t.id, '|');
    lemma_int_text_lacks(t.id, '\n');
    let bar = seq!['|'];
    assert(!bar.contains('\n')) by {
        if bar.contains('\n') {
            let i = choose|i: int| 0 <= i < bar.len() && bar[i] == '\n';
        }
    }
    lemma_concat_lacks(int_text(t.id), bar, '\n');
    lemma_concat_lacks(int_text(t.id) + bar, t.title, '\n');
    lemma_concat_lacks(int_text(t.id) + bar + t.title, bar, '\n');
    lemma_concat_lacks(int_text(t.id) + bar + t.title + bar, flag_text(t.completed), '\n');
    assert(record_body(t).last() == flag_text(t.completed).last());
    lemma_split_pieces(int_text(t.id), t.title, flag_text(t.completed), '|');
    lemma_parse_int_text(t.id);
}

proof fn lemma_storable_split(s: Seq<TaskView>)
    requires
        storable(s),
        s.len() > 0,
    ensures
        storable(s.drop_last()),
        in_i32(s.last().id),
        !s.last().title.contains('|'),
        !s.last().title.contains('\n'),
{
    let p = s.drop_last();
    assert forall|i: int| 0 <= i < p.len() implies {
        &&& in_i32(#[trigger] p[i].id)
        &&& !p[i].title.contains('|')
        &&& !p[i].title.contains('\n')
    } by {
        assert(p[i] == s[i]);
        assert(in_i32(s[i].id));
    }
    assert(in_i32(s[s.len() - 1].id));
}

proof fn lemma_file_scan(s: Seq<TaskView>)
    requires
        storable(s),
    ensures
        split_scan(file_text(s), '\n') == (
            s.map_values(|t: TaskView| record_body(t)),
            Seq::<char>::empty(),
        ),
    decreases s.len(),
{
    if s.len() > 0 {
        let p = s.drop_last();
        let t = s.last();
        lemma_storable_split(s);
        lemma_file_scan(p);
        lemma_record_body(t);
        lemma_scan_extend(file_text(p), record_body(t), '\n');
        lemma_scan_sep(file_text(p) + record_body(t), '\n');
        assert(file_text(s) =~= (file_text(p) + record_body(t)).push('\n'));
        assert(Seq::<char>::empty() + record_body(t) =~= record_body(t));
        assert(s.map_values(|t: TaskView| record_body(t)) =~= p.map_values(
            |t: TaskView| record_body(t),
        ).push(record_body(t)));
    }
}

proof fn lemma_parse_bodies(s: Seq<TaskView>)
    requires
        storable(s),
    ensures
        parse_lines(s.map_values(|t: TaskView| record_body(t))) == s,
    decreases s.len(),
{
    if s.len() > 0 {
        let p = s.drop_last();
        let t = s.last();
        lemma_storable_split(s);
        lemma_parse_bodies(p);
        lemma_record_body(t);
        let m = s.map_values(|t: TaskView| record_body(t));
        assert(m.drop_last() =~= p.map_values(|t: TaskView| record_body(t)));
        assert(p.push(t) =~= s);
    }
}

/// Saving tasks whose titles hold no separator or newline, then loading the text into an
/// empty list, gives back the same tasks in the same order.
pub proof fn lemma_save_load_round_trip(s: Seq<TaskView>)
    requires
        storable(s),
    ensures
        Seq::<TaskView>::empty() + parse_file(file_text(s)) == s,
{
    let bodies = s.map_values(|t: TaskView| record_body(t));
    lemma_file_scan(s);
    assert(split_on(file_text(s), '\n') == bodies.push(Seq::<char>::empty()));
    assert(bodies.push(Seq::<char>::empty()).drop_last() =~= bodies);
    assert(bodies.map_values(|l: Seq<char>| strip_cr(l)) =~= bodies) by {
        assert forall|i: int| 0 <= i < bodies.len() implies strip_cr(#[trigger] bodies[i])
            == bodies[i] by {
            assert(in_i32(s[i].id));
            lemma_record_body(s[i]);
        }
    }
    assert(lines_of(file_text(s)) == bodies);
    lemma_parse_bodies(s);
    assert(Seq::<TaskView>::empty() + s =~= s);
}

/// How many of `lines` are records.
pub open spec fn record_count(lines: Seq<Seq<char>>) -> nat {
    lines.filter(|l: Seq<char>| parse_record(l) is Some).len()
}

proof fn lemma_parse_lines_len(lines: Seq<Seq<char>>)
    ensures
        parse_lines(lines).len() == record_count(lines),
    decreases lines.len(),
{
    reveal(Seq::filter);
    if lines.len() > 0 {
        lemma_parse_lines_len(lines.drop_last());
    }
}

/// Loading appends: the tasks held before stay first and unchanged, the tasks of the file
/// follow, and the length grows by the number of record lines.
pub proof fn lemma_load_appends(s: Seq<TaskView>, text: Seq<char>)
    ensures
        (s + parse_file(text)).len() == s.len() + record_count(lines_of(text)),
        (s + parse_file(text)).subrange(0, s.len() as int) == s,
        (s + parse_file(text)).subrange(s.len() as int, (s + parse_file(text)).len() as int)
            == parse_file(text),
{
    lemma_parse_lines_len(lines_of(text));
    let r = s + parse_file(text);
    assert(r.subrange(0, s.len() as int) =~= s);
    assert(r.subrange(s.len() as int, r.len() as int) =~= parse_file(text));
}

/// Reading lines one after another: the tasks of `a + b` are those of `a`, then those of `b`.
pub proof fn lemma_parse_lines_concat(a: Seq<Seq<char>>, b: Seq<Seq<char>>)
    ensures
        parse_lines(a + b) == parse_lines(a) + parse_lines(b),
    decreases b.len(),
{
    if b.len() == 0 {
        assert(a + b =~= a);
        assert(parse_lines(a) + parse_lines(b) =~= parse_lines(a));
    } else {
        lemma_parse_lines_concat(a, b.drop_last());
        assert((a + b).drop_last() =~= a + b.drop_last());
        assert((a + b).last() == b.last());
        match parse_record(b.last()) {
            Some(t) => {
                assert(parse_lines(a) + parse_lines(b) =~= parse_lines(a) + parse_lines(
                    b.drop_last(),
                ) + seq![t]);
            },
            None => {},
        }
    }
}

/// A line whose field count is not three is skipped, and the lines after it read as if it
/// were not there.
pub proof fn lemma_bad_line_skipped(before: Seq<Seq<char>>, line: Seq<char>, after: Seq<Seq<char>>)
    requires
        split_on(line, '|').len() != 3,
    ensures
        parse_lines(before.push(line) + after) == parse_lines(before) + parse_lines(after),
{
    lemma_parse_lines_concat(before.push(line), after);
    assert(before.push(line).drop_last() =~= before);
}

/// Completing, retitling or deleting an id that no task holds leaves the list as it was.
pub proof fn lemma_absent_id_unchanged(s: Seq<TaskView>, id: int, title: Seq<char>)
    requires
        !has_id(s, id),
    ensures
        with_completed(s, id) == s,
        with_title(s, id, title) == s,
        without_id(s, id) == s,
    decreases s.len(),
{
    reveal(Seq::filter);
    assert forall|k: int| 0 <= k < s.len() implies #[trigger] s[k].id != id by {
        if s[k].id == id {
            assert(has_id(s, id));
        }
    }
    lemma_first_with_id(s, id, s.len() as int);
    if s.len() > 0 {
        let p = s.drop_last();
        assert(!has_id(p, id)) by {
            if has_id(p, id) {
                let j = choose|j: int| 0 <= j < p.len() && #[trigger] p[j].id == id;
                assert(s[j].id == id);
            }
        }
        lemma_absent_id_unchanged(p, id, title);
        assert(s[s.len() - 1].id != id);
        assert(p.push(s.last()) =~= s);
    }
}

} // verus!
