//! What is written can be read again: the tasks that the codec gives back
//! as they were, one record at a time and in a whole rendered store.

use crate::joining::{
    cut_free, joined, lemma_joined_around, lemma_occurs_in_prefix, lemma_split_joined,
};
use crate::lines::{
    crlf, lemma_crlf_occurs, lemma_first_line, lemma_unlines_lines, lines, newline, split,
    unlines,
};
use crate::store::{records, render, tasks_of};
use crate::task::{
    completed_marker, description_marker, flag_text, missing_name, name_marker, parse_flag,
    parse_task, record_body, separator, TaskView,
};
use crate::text::{
    all_whitespace, contains, is_whitespace, lemma_index_of, lemma_index_of_is,
    lemma_no_start_before, lemma_occurs_in_tail, lemma_trim_end_cut, lemma_trim_start_cut,
    lemma_trimmed_ends, occurs_at, remove_first, trim,
};
use vstd::prelude::*;

verus! {

/// The tasks that a record keeps as they are: the name is one line and does
/// not end with a carriage return; the description is not empty, has no
/// white space at either end, and no carriage return before a line feed.
pub open spec fn storable(task: TaskView) -> bool {
    &&& forall|i: int| 0 <= i < task.name.len() ==> task.name[i] != '\n'
    &&& task.name.len() > 0 ==> task.name.last() != '\r'
    &&& task.description.len() > 0
    &&& trim(task.description) == task.description
    &&& !contains(task.description, crlf())
}

/// A text that starts with a marker loses exactly the marker.
proof fn lemma_remove_marker(marker: Seq<char>, value: Seq<char>)
    ensures
        remove_first(marker + value, marker) == value,
{
    let whole = marker + value;
    assert(whole.subrange(0, marker.len() as int) =~= marker);
    lemma_index_of_is(whole, marker, 0);
    assert(whole.subrange(0, 0) + Seq::<char>::empty() + whole.subrange(
        marker.len() as int,
        whole.len() as int,
    ) =~= value);
}

/// The two flag texts read as the flags they stand for, and hold no line
/// break.
proof fn lemma_flag_text_reads(flag: bool)
    ensures
        parse_flag(flag_text(flag)) == Some(flag),
        flag_text(flag).len() > 0,
        forall|i: int| 0 <= i < flag_text(flag).len() ==> flag_text(flag)[i] != '\n',
        flag_text(flag).last() != '\r',
{
    reveal_strlit("true");
    reveal_strlit("false");
    assert("true"@.len() == 4);
    assert("false"@.len() == 5);
}

/// The markers hold no line break and end with a blank.
proof fn lemma_marker_shapes()
    ensures
        name_marker().len() == 6,
        completed_marker().len() == 11,
        description_marker().len() == 13,
        name_marker()[0] == 'N',
        forall|i: int| 0 <= i < name_marker().len() ==> name_marker()[i] != '\n',
        forall|i: int| 0 <= i < completed_marker().len() ==> completed_marker()[i] != '\n',
        forall|i: int|
            0 <= i < description_marker().len() ==> description_marker()[i] != '\n'
                && description_marker()[i] != '\r',
        name_marker().last() == ' ',
        completed_marker().last() == ' ',
        description_marker().last() == ' ',
{
    reveal_strlit("NAME: ");
    reveal_strlit("COMPLETED: ");
    reveal_strlit("DESCRIPTION: ");
}

/// The trimmed body of a record: the three marked fields on their lines,
/// without the line feeds around them.
spec fn trimmed_body(task: TaskView) -> Seq<char> {
    name_marker() + task.name + newline() + (completed_marker() + flag_text(task.completed)
        + newline() + (description_marker() + task.description))
}

/// Trimming the body of a storable task takes off the line feed in front
/// and the one at the end.
proof fn lemma_trim_body(task: TaskView)
    requires
        storable(task),
    ensures
        trim(record_body(task)) == trimmed_body(task),
{
    lemma_marker_shapes();
    lemma_trimmed_ends(task.description);
    let body = record_body(task);
    let inner = trimmed_body(task);
    assert(body =~= newline() + inner + newline());
    assert(body[0] == '\n');
    assert(body[1] == name_marker()[0]);
    assert(all_whitespace(body.subrange(0, 1)));
    lemma_trim_start_cut(body, 1);
    let tail = inner + newline();
    assert(body.subrange(1, body.len() as int) =~= tail);
    assert(tail.subrange(inner.len() as int, tail.len() as int) =~= newline());
    assert(all_whitespace(newline()));
    assert(tail[inner.len() - 1] == task.description.last());
    lemma_trim_end_cut(tail, inner.len() as int);
    assert(tail.subrange(0, inner.len() as int) =~= inner);
}

/// The lines of a storable task's trimmed body: the marked name, the
/// marked flag, and the lines of the marked description.
proof fn lemma_lines_of_body(task: TaskView)
    requires
        storable(task),
    ensures
        lines(trimmed_body(task)) == seq![
            name_marker() + task.name,
            completed_marker() + flag_text(task.completed),
        ] + lines(description_marker() + task.description),
{
    lemma_marker_shapes();
    lemma_flag_text_reads(task.completed);
    let flag = flag_text(task.completed);
    let name_line = name_marker() + task.name;
    let flag_line = completed_marker() + flag;
    let body_text = description_marker() + task.description;
    let below = flag_line + newline() + body_text;
    lemma_first_line(name_line, below);
    lemma_first_line(flag_line, body_text);
    assert(name_line.last() != '\r');
    assert(flag_line.last() == flag.last());
    assert(lines(trimmed_body(task)) =~= seq![name_line, flag_line] + lines(body_text));
}

/// A description that is storable, written behind its marker, cut into
/// lines and read as the parser reads it, is the description.
proof fn lemma_description_read(description: Seq<char>)
    requires
        description.len() > 0,
        trim(description) == description,
        !contains(description, crlf()),
    ensures
        trim(remove_first(unlines(lines(description_marker() + description)), description_marker()))
            == description,
        lines(description_marker() + description).len() > 0,
{
    lemma_marker_shapes();
    lemma_trimmed_ends(description);
    let marker = description_marker();
    let body_text = marker + description;
    assert forall|j: int| !occurs_at(body_text, crlf(), j) by {
        lemma_crlf_occurs(body_text, j);
        lemma_crlf_occurs(description, j - marker.len());
        if occurs_at(body_text, crlf(), j) {
            if j < marker.len() {
                assert(body_text[j] == marker[j]);
            }
            assert(occurs_at(description, crlf(), j - marker.len()));
        }
    }
    lemma_unlines_lines(body_text);
    assert(body_text.last() == description.last());
    if lines(body_text).len() == 0 {
        assert(unlines(lines(body_text)) =~= Seq::<char>::empty());
    }
    let closed = description + newline();
    assert(body_text + newline() =~= marker + closed);
    lemma_remove_marker(marker, closed);
    assert(closed[0] == description[0]);
    assert(all_whitespace(closed.subrange(0, 0)));
    lemma_trim_start_cut(closed, 0);
    assert(closed.subrange(0, closed.len() as int) =~= closed);
    assert(closed.subrange(description.len() as int, closed.len() as int) =~= newline());
    assert(all_whitespace(newline()));
    assert(closed[description.len() - 1] == description.last());
    lemma_trim_end_cut(closed, description.len() as int);
    assert(closed.subrange(0, description.len() as int) =~= description);
}

/// A storable task, written as a record's body and read again from the
/// trimmed body, is the task that was written.
pub proof fn theorem_round_trip(task: TaskView)
    requires
        storable(task),
    ensures
        parse_task(trim(record_body(task))) == task,
{
    lemma_trim_body(task);
    lemma_lines_of_body(task);
    lemma_flag_text_reads(task.completed);
    lemma_description_read(task.description);
    let flag = flag_text(task.completed);
    let ls = lines(trimmed_body(task));
    let body_lines = lines(description_marker() + task.description);
    assert(ls[0] == name_marker() + task.name);
    assert(ls[1] == completed_marker() + flag);
    assert(ls.subrange(2, ls.len() as int) =~= body_lines);
    lemma_remove_marker(name_marker(), task.name);
    lemma_remove_marker(completed_marker(), flag);
}

/// Neither the name nor the description holds the separator.
pub open spec fn free_of_separator(task: TaskView) -> bool {
    &&& !contains(task.name, separator())
    &&& !contains(task.description, separator())
}

/// The bodies of the records of a sequence of tasks.
pub open spec fn bodies(tasks: Seq<TaskView>) -> Seq<Seq<char>> {
    Seq::new(tasks.len(), |i: int| record_body(tasks[i]))
}

/// The separator starts with a dash, holds no line feed, and ends with a
/// character that is no white space.
pub proof fn lemma_separator_shape()
    ensures
        separator().len() == 10,
        separator()[0] == '-',
        forall|i: int| 0 <= i < separator().len() ==> separator()[i] != '\n',
        !is_whitespace(separator().last()),
{
    reveal_strlit("---TASK---");
}

/// Neither the markers nor the flag texts hold a dash.
proof fn lemma_no_dashes(flag: bool)
    ensures
        forall|i: int| 0 <= i < name_marker().len() ==> name_marker()[i] != '-',
        forall|i: int| 0 <= i < completed_marker().len() ==> completed_marker()[i] != '-',
        forall|i: int| 0 <= i < description_marker().len() ==> description_marker()[i] != '-',
        forall|i: int| 0 <= i < flag_text(flag).len() ==> flag_text(flag)[i] != '-',
{
    reveal_strlit("NAME: ");
    reveal_strlit("COMPLETED: ");
    reveal_strlit("DESCRIPTION: ");
    reveal_strlit("true");
    reveal_strlit("false");
}

/// In the body of a record whose fields hold no separator, followed by
/// whatever text, no separator starts inside the body.
proof fn lemma_body_holds_no_start(task: TaskView, rest: Seq<char>, j: int)
    requires
        free_of_separator(task),
        occurs_at(record_body(task) + rest, separator(), j),
    ensures
        j >= record_body(task).len(),
{
    lemma_separator_shape();
    lemma_no_dashes(task.completed);
    let sep = separator();
    let opening = newline() + name_marker();
    let middle = newline() + completed_marker() + flag_text(task.completed) + newline()
        + description_marker();
    let closing = newline();
    let behind_name = task.description + closing + rest;
    let behind_open = task.name + middle + behind_name;
    let whole = record_body(task) + rest;
    let nothing = Seq::<char>::empty();
    assert(whole =~= nothing + opening + behind_open);
    assert(!contains(nothing, sep)) by {
        assert forall|i: int| !occurs_at(nothing, sep, i) by {}
    }
    lemma_no_start_before(nothing, opening, behind_open, sep, j);
    let j1 = j - opening.len();
    lemma_occurs_in_tail(whole, sep, opening.len() as int, j1);
    assert(whole.subrange(opening.len() as int, whole.len() as int) =~= behind_open);
    lemma_no_start_before(task.name, middle, behind_name, sep, j1);
    let skipped = (task.name.len() + middle.len()) as int;
    let j2 = j1 - skipped;
    lemma_occurs_in_tail(behind_open, sep, skipped, j2);
    assert(behind_open.subrange(skipped, behind_open.len() as int) =~= behind_name);
    lemma_no_start_before(task.description, closing, rest, sep, j2);
    assert(record_body(task).len() == opening.len() + task.name.len() + middle.len()
        + task.description.len() + closing.len());
}

/// The body of a record whose fields hold no separator holds none, and
/// with a separator behind it shows none before that one.
pub proof fn lemma_body_well_cut(task: TaskView)
    requires
        free_of_separator(task),
    ensures
        cut_free(record_body(task), separator()),
        !contains(record_body(task), separator()),
{
    let body = record_body(task);
    let sep = separator();
    lemma_separator_shape();
    assert forall|j: int| 0 <= j < body.len() implies !occurs_at(body + sep, sep, j) by {
        if occurs_at(body + sep, sep, j) {
            lemma_body_holds_no_start(task, sep, j);
        }
    }
    assert forall|j: int| !occurs_at(body, sep, j) by {
        if occurs_at(body, sep, j) {
            lemma_occurs_in_prefix(body, sep, sep, j);
            lemma_body_holds_no_start(task, sep, j);
        }
    }
}

/// A rendered store is its records' bodies joined by separators, with
/// nothing in front of the first.
pub proof fn lemma_render_joined(tasks: Seq<TaskView>)
    ensures
        render(tasks) == joined(seq![Seq::<char>::empty()] + bodies(tasks), separator()),
    decreases tasks.len(),
{
    let sep = separator();
    let nothing = Seq::<char>::empty();
    let pieces = seq![nothing] + bodies(tasks);
    if tasks.len() == 0 {
        assert(pieces =~= seq![nothing]);
        assert(joined(pieces, sep) =~= render(tasks));
    } else {
        let front = tasks.drop_last();
        lemma_render_joined(front);
        let last = pieces.len() - 1;
        let body = record_body(tasks.last());
        assert(pieces[last] == body);
        lemma_joined_around(pieces, sep, last, body);
        assert(pieces.update(last, body) =~= pieces);
        assert(pieces.take(last) =~= seq![nothing] + bodies(front));
        assert(render(tasks) =~= joined(pieces, sep));
    }
}

/// A rendered store splits into an empty piece in front and the bodies of
/// its tasks, where no field holds the separator.
pub proof fn lemma_pieces_of_render(tasks: Seq<TaskView>)
    requires
        forall|i: int| 0 <= i < tasks.len() ==> free_of_separator(#[trigger] tasks[i]),
    ensures
        split(render(tasks), separator()) == seq![Seq::<char>::empty()] + bodies(tasks),
{
    let sep = separator();
    let nothing = Seq::<char>::empty();
    let pieces = seq![nothing] + bodies(tasks);
    lemma_separator_shape();
    lemma_render_joined(tasks);
    assert forall|k: int| 0 <= k < pieces.len() - 1 implies cut_free(#[trigger] pieces[k], sep) by {
        if k > 0 {
            assert(free_of_separator(tasks[k - 1]));
            lemma_body_well_cut(tasks[k - 1]);
        }
    }
    assert(!contains(pieces.last(), sep)) by {
        if tasks.len() > 0 {
            assert(free_of_separator(tasks[tasks.len() - 1]));
            lemma_body_well_cut(tasks[tasks.len() - 1]);
        } else {
            assert forall|i: int| !occurs_at(nothing, sep, i) by {}
        }
    }
    lemma_split_joined(pieces, sep);
}

/// The records of a rendered store are the bodies of its tasks, one for
/// each task and in their order, where no field holds the separator.
pub proof fn theorem_records_of_render(tasks: Seq<TaskView>)
    requires
        forall|i: int| 0 <= i < tasks.len() ==> free_of_separator(#[trigger] tasks[i]),
    ensures
        records(render(tasks)) == bodies(tasks),
        records(render(tasks)).len() == tasks.len(),
{
    lemma_pieces_of_render(tasks);
    assert((seq![Seq::<char>::empty()] + bodies(tasks)).drop_first() =~= bodies(tasks));
}

/// A store rendered from storable tasks whose fields hold no separator
/// reads as exactly those tasks, in their order.
pub proof fn theorem_tasks_of_render(tasks: Seq<TaskView>)
    requires
        forall|i: int| 0 <= i < tasks.len() ==> free_of_separator(#[trigger] tasks[i]),
        forall|i: int| 0 <= i < tasks.len() ==> storable(#[trigger] tasks[i]),
    ensures
        records(render(tasks)).len() == tasks.len(),
        forall|i: int|
            0 <= i < tasks.len() ==> parse_task(trim(#[trigger] records(render(tasks))[i]))
                == tasks[i],
        tasks_of(render(tasks)) == tasks,
{
    theorem_records_of_render(tasks);
    assert forall|i: int| 0 <= i < tasks.len() implies parse_task(
        trim(#[trigger] records(render(tasks))[i]),
    ) == tasks[i] by {
        assert(storable(tasks[i]));
        theorem_round_trip(tasks[i]);
    }
    assert(tasks_of(render(tasks)) =~= tasks);
}

/// An empty record reads as the task of the defaults: the fallback name,
/// not completed, no description.
pub proof fn theorem_empty_record()
    ensures
        parse_task(Seq::empty()) == (TaskView {
            name: missing_name(),
            completed: false,
            description: Seq::empty(),
        }),
{
    reveal_strlit("NO NAME FOUND");
    reveal_strlit("NAME: ");
    reveal_strlit("COMPLETED: ");
    reveal_strlit("DESCRIPTION: ");
    reveal_strlit("true");
    reveal_strlit("false");
    let nothing = Seq::<char>::empty();
    assert(lines(nothing) =~= Seq::<Seq<char>>::empty());
    assert forall|j: int| !occurs_at(missing_name(), name_marker(), j) by {
        if occurs_at(missing_name(), name_marker(), j) {
            assert(missing_name().subrange(j, j + 6)[4] == missing_name()[j + 4]);
        }
    }
    lemma_index_of(missing_name(), name_marker());
    lemma_index_of(flag_text(false), completed_marker());
    lemma_index_of(nothing, description_marker());
    assert(unlines(Seq::<Seq<char>>::empty()) =~= nothing);
    assert("false"@.len() == 5);
    assert("true"@.len() == 4);
}

} // verus!
