//! What an edit leaves alone: the records at the other positions.

use crate::joining::{
    cut_free, joined, lemma_joined_around, lemma_joined_split, lemma_occurs_in_prefix,
    lemma_split_joined, lemma_trim_end_joined, well_cut,
};
use crate::lines::split;
use crate::round_trip::{
    bodies, free_of_separator, lemma_body_well_cut, lemma_pieces_of_render, lemma_render_joined,
    lemma_separator_shape,
    storable, theorem_records_of_render, theorem_round_trip, theorem_tasks_of_render,
};
use crate::store::{
    edit_at, lemma_record_occurs, record_start, records, render, replaced, tasks_of,
};
use crate::task::{edited, record_body, separator, serialize, Field, TaskView};
use crate::text::{
    contains, index_of, lemma_index_of, lemma_index_of_is, lemma_occurs_in_tail,
    lemma_trim_of_trim_end, occurs_at, replace_first, trim_end,
};
use vstd::prelude::*;

verus! {

/// A record that does not stand in the store cannot be replaced, and the
/// text in which it was sought is the store as it was.
pub proof fn theorem_replace_miss(blob: Seq<char>, record: Seq<char>, new_text: Seq<char>)
    requires
        !contains(blob, separator() + record),
    ensures
        replaced(blob, record, new_text) is None,
        replace_first(blob, separator() + record, new_text) == blob,
{
    lemma_index_of(blob, separator() + record);
}

/// The pieces of a store after an edit at piece `k`: the piece replaced by
/// the body of the new record, and the last piece trimmed at its end.
spec fn pieces_after(pieces: Seq<Seq<char>>, k: int, body: Seq<char>) -> Seq<Seq<char>> {
    let changed = pieces.update(k, body);
    changed.update(changed.len() - 1, trim_end(changed.last()))
}

/// An edit of the record at piece `k`, found where it starts, changes that
/// piece and trims the last; the text it makes splits into the pieces so
/// changed.
proof fn lemma_edit_pieces(blob: Seq<char>, k: int, task: TaskView)
    requires
        1 <= k < split(blob, separator()).len(),
        free_of_separator(task),
        index_of(blob, separator() + split(blob, separator())[k]) == Some(
            record_start(blob, k - 1),
        ),
    ensures
        split(
            trim_end(
                replace_first(blob, separator() + split(blob, separator())[k], serialize(task)),
            ),
            separator(),
        ) == pieces_after(split(blob, separator()), k, record_body(task)),
{
    lemma_separator_shape();
    let sep = separator();
    let pieces = split(blob, sep);
    let record = pieces[k];
    let body = record_body(task);
    lemma_joined_split(blob, sep);
    lemma_joined_around(pieces, sep, k, record);
    lemma_joined_around(pieces, sep, k, body);
    assert(pieces.update(k, record) =~= pieces);
    let front = joined(pieces.take(k), sep);
    let behind = if k + 1 < pieces.len() {
        sep + joined(pieces.skip(k + 1), sep)
    } else {
        Seq::empty()
    };
    assert(blob == front + sep + record + behind);
    let n = front.len() as int;
    let target = sep + record;
    let written = replace_first(blob, target, serialize(task));
    assert(blob.subrange(0, n) =~= front);
    assert(blob.subrange(n + target.len(), blob.len() as int) =~= behind);
    assert(written =~= front + sep + body + behind);
    let changed = pieces.update(k, body);
    assert(written == joined(changed, sep));
    lemma_body_well_cut(task);
    assert forall|i: int| 0 <= i < changed.len() - 1 implies cut_free(
        #[trigger] changed[i],
        sep,
    ) by {
        if i != k {
            assert(changed[i] == pieces[i]);
        }
    }
    assert(well_cut(changed, sep));
    lemma_trim_end_joined(changed, sep);
    lemma_split_joined(pieces_after(pieces, k, body), sep);
}

/// An edit that finds its record where the record starts leaves every
/// other record as it was. The number of records stays; each record at
/// another position keeps its text, but for the last of the store, which
/// loses the white space at its end; each reads as the task it was; the
/// record at the position is the body of the new task; and what stood in
/// front of the first separator still stands there. The new task's name and
/// description must not hold the separator.
pub proof fn theorem_edit_keeps_other_records(
    blob: Seq<char>,
    position: int,
    field: Field,
    value: Seq<char>,
)
    requires
        1 <= position <= records(blob).len(),
        edited(tasks_of(blob)[position - 1], field, value) is Some,
        free_of_separator(edited(tasks_of(blob)[position - 1], field, value).unwrap()),
        index_of(blob, separator() + records(blob)[position - 1]) == Some(
            record_start(blob, position - 1),
        ),
    ensures
        edit_at(blob, position, field, value) is Ok,
        ({
            let out = edit_at(blob, position, field, value).unwrap();
            let count = records(blob).len();
            &&& records(out).len() == count
            &&& split(out, separator())[0] == split(blob, separator())[0]
            &&& forall|j: int|
                0 <= j < count - 1 && j != position - 1 ==> #[trigger] records(out)[j] == records(
                    blob,
                )[j]
            &&& position != count ==> records(out)[count - 1] == trim_end(
                records(blob)[count - 1],
            )
            &&& records(out)[position - 1] == if position == count {
                trim_end(record_body(edited(tasks_of(blob)[position - 1], field, value).unwrap()))
            } else {
                record_body(edited(tasks_of(blob)[position - 1], field, value).unwrap())
            }
            &&& forall|j: int|
                0 <= j < count && j != position - 1 ==> #[trigger] tasks_of(out)[j] == tasks_of(
                    blob,
                )[j]
        }),
{
    let sep = separator();
    let pieces = split(blob, sep);
    let task = edited(tasks_of(blob)[position - 1], field, value).unwrap();
    let out = edit_at(blob, position, field, value).unwrap();
    let count = records(blob).len();
    lemma_edit_pieces(blob, position, task);
    let after = pieces_after(pieces, position, record_body(task));
    assert(split(out, sep) == after);
    assert(records(out).len() == count);
    assert forall|j: int| 0 <= j < count && j != position - 1 implies #[trigger] tasks_of(out)[j]
        == tasks_of(blob)[j] by {
        assert(records(out)[j] == after[j + 1]);
        assert(records(blob)[j] == pieces[j + 1]);
        if j == count - 1 {
            lemma_trim_of_trim_end(pieces[j + 1]);
        }
    }
}

/// Where a text of two parts occurs, each part occurs.
proof fn lemma_occurs_parts(hay: Seq<char>, a: Seq<char>, b: Seq<char>, j: int)
    requires
        occurs_at(hay, a + b, j),
    ensures
        occurs_at(hay, a, j),
        occurs_at(hay, b, j + a.len()),
{
    let found = hay.subrange(j, j + (a + b).len());
    assert(found.subrange(0, a.len() as int) =~= hay.subrange(j, j + a.len()));
    assert(found.subrange(a.len() as int, found.len() as int) =~= hay.subrange(
        j + a.len(),
        j + a.len() + b.len(),
    ));
    assert((a + b).subrange(0, a.len() as int) =~= a);
    assert((a + b).subrange(a.len() as int, (a + b).len() as int) =~= b);
}

/// The body of a record starts and ends with a line feed.
proof fn lemma_body_ends(task: TaskView)
    ensures
        record_body(task).len() > 0,
        record_body(task)[0] == '\n',
        record_body(task).last() == '\n',
{
}

/// A rendered store that is not empty ends with a line feed.
proof fn lemma_render_ends(tasks: Seq<TaskView>)
    requires
        tasks.len() > 0,
    ensures
        render(tasks).len() > 0,
        render(tasks).last() == '\n',
{
    lemma_body_ends(tasks.last());
    assert(render(tasks).last() == record_body(tasks.last()).last());
}

/// The length of what is rendered grows with each task.
proof fn lemma_render_grows(tasks: Seq<TaskView>, i: int, k: int)
    requires
        0 <= i <= k <= tasks.len(),
    ensures
        render(tasks.take(i)).len() <= render(tasks.take(k)).len(),
        i < k ==> render(tasks.take(i)).len() < render(tasks.take(k)).len(),
    decreases k - i,
{
    if i < k {
        lemma_render_grows(tasks, i, k - 1);
        assert(tasks.take(k).drop_last() =~= tasks.take(k - 1));
        lemma_separator_shape();
    }
}

/// Behind a separator and a record's body, a separator followed by `b`
/// occurs at the very start only, and the body then begins with `b`.
proof fn lemma_occurrence_at_record(sep: Seq<char>, body: Seq<char>, b: Seq<char>, j: int)
    requires
        sep.len() > 0,
        forall|x: int| 0 <= x < sep.len() ==> sep[x] != '\n',
        body.len() > 0,
        body[0] == '\n',
        !contains(body, sep),
        occurs_at(sep + body, sep + b, j),
    ensures
        j == 0,
        b.is_prefix_of(body),
{
    let tail = sep + body;
    lemma_occurs_parts(tail, sep, b, j);
    if j > 0 {
        let found = tail.subrange(j, j + sep.len());
        if j >= sep.len() {
            lemma_occurs_in_tail(tail, sep, sep.len() as int, j - sep.len());
            assert(tail.subrange(sep.len() as int, tail.len() as int) =~= body);
            assert(occurs_at(body, sep, j - sep.len()));
        } else {
            assert(found[sep.len() - j] == tail[sep.len() as int]);
            assert(tail[sep.len() as int] == body[0]);
        }
        assert(false);
    }
    assert(tail.subrange(sep.len() as int, (sep.len() + b.len()) as int) =~= body.subrange(
        0,
        b.len() as int,
    ));
}

/// A separator followed by `b` does not reach from one record over its
/// closing line feed into the separator of the next.
proof fn lemma_no_occurrence_across(
    head: Seq<char>,
    sep: Seq<char>,
    rest: Seq<char>,
    b: Seq<char>,
    j: int,
)
    requires
        sep.len() > 0,
        forall|x: int| 0 <= x < sep.len() ==> sep[x] != '\n',
        head.len() > 0,
        head.last() == '\n',
        b.len() > 0,
        b.last() == '\n',
        !contains(b, sep),
        j < head.len(),
        occurs_at(head + (sep + rest), sep + b, j),
    ensures
        j + (sep + b).len() <= head.len(),
{
    let needle = sep + b;
    if j + needle.len() > head.len() {
        lemma_reaches_across(head, sep, rest, b, j);
    }
}

/// The case that `lemma_no_occurrence_across` rules out: such an occurrence
/// would put a line feed into a separator, or a separator into `b`.
proof fn lemma_reaches_across(
    head: Seq<char>,
    sep: Seq<char>,
    rest: Seq<char>,
    b: Seq<char>,
    j: int,
)
    requires
        sep.len() > 0,
        forall|x: int| 0 <= x < sep.len() ==> sep[x] != '\n',
        head.len() > 0,
        head.last() == '\n',
        b.len() > 0,
        b.last() == '\n',
        j < head.len() < j + (sep + b).len(),
        occurs_at(head + (sep + rest), sep + b, j),
    ensures
        contains(b, sep),
{
    let needle = sep + b;
    let blob = head + (sep + rest);
    let n = head.len() as int;
    let found = blob.subrange(j, j + needle.len());
    let d = n - 1 - j;
    assert(found[d] == blob[n - 1]);
    assert(blob[n - 1] == head.last());
    assert(d >= sep.len()) by {
        if d < sep.len() {
            assert(needle[d] == sep[d]);
        }
    }
    let left = needle.len() - (d + 1);
    let at = d + 1 - sep.len();
    if left >= sep.len() {
        assert forall|x: int| 0 <= x < sep.len() implies b.subrange(at, at + sep.len())[x]
            == sep[x] by {
            assert(found[d + 1 + x] == blob[n + x]);
            assert(needle[d + 1 + x] == b[at + x]);
            assert(blob[n + x] == sep[x]);
        }
        assert(b.subrange(at, at + sep.len()) =~= sep);
        assert(occurs_at(b, sep, at));
    } else {
        assert(found[needle.len() - 1] == blob[n + left - 1]);
        assert(blob[n + left - 1] == sep[left - 1]);
        assert(needle[needle.len() - 1] == b.last());
    }
}

/// In a store rendered from tasks whose fields hold no separator, a
/// separator followed by a text `b` that ends with a line feed and holds no
/// separator occurs only where a record starts, and that record's body
/// begins with `b`.
proof fn lemma_occurrence_in_render(tasks: Seq<TaskView>, b: Seq<char>, j: int) -> (i: int)
    requires
        forall|t: int| 0 <= t < tasks.len() ==> free_of_separator(#[trigger] tasks[t]),
        b.len() > 0,
        b.last() == '\n',
        !contains(b, separator()),
        occurs_at(render(tasks), separator() + b, j),
    ensures
        0 <= i < tasks.len(),
        j == render(tasks.take(i)).len(),
        b.is_prefix_of(record_body(tasks[i])),
    decreases tasks.len(),
{
    lemma_separator_shape();
    let sep = separator();
    let needle = sep + b;
    if tasks.len() == 0 {
        return 0;
    }
    let front = tasks.drop_last();
    let head = render(front);
    let body = record_body(tasks.last());
    let tail = sep + body;
    let blob = render(tasks);
    let n = head.len() as int;
    assert(blob =~= head + tail);
    assert(free_of_separator(tasks[tasks.len() - 1]));
    lemma_body_well_cut(tasks.last());
    lemma_body_ends(tasks.last());
    if j + needle.len() <= n {
        lemma_occurs_in_prefix(head, tail, needle, j);
        assert forall|t: int| 0 <= t < front.len() implies free_of_separator(
            #[trigger] front[t],
        ) by {
            assert(front[t] == tasks[t]);
        }
        let i = lemma_occurrence_in_render(front, b, j);
        assert(front.take(i) =~= tasks.take(i));
        assert(front[i] == tasks[i]);
        i
    } else if j >= n {
        lemma_occurs_in_tail(blob, needle, n, j - n);
        assert(blob.subrange(n, blob.len() as int) =~= tail);
        lemma_occurrence_at_record(sep, body, b, j - n);
        assert(tasks.take(tasks.len() - 1) =~= front);
        tasks.len() - 1
    } else {
        lemma_render_ends(front);
        lemma_no_occurrence_across(head, sep, body, b, j);
        0
    }
}

/// In a store rendered from storable tasks whose fields hold no separator,
/// an edit changes the task at its position and no other, provided that no
/// record before that position begins with the text of the record to edit,
/// and that the new task is storable and holds no separator either.
pub proof fn theorem_edit_in_rendered_store(
    tasks: Seq<TaskView>,
    position: int,
    field: Field,
    value: Seq<char>,
)
    requires
        forall|i: int| 0 <= i < tasks.len() ==> free_of_separator(#[trigger] tasks[i]),
        forall|i: int| 0 <= i < tasks.len() ==> storable(#[trigger] tasks[i]),
        1 <= position <= tasks.len(),
        edited(tasks[position - 1], field, value) is Some,
        free_of_separator(edited(tasks[position - 1], field, value).unwrap()),
        storable(edited(tasks[position - 1], field, value).unwrap()),
        forall|i: int|
            0 <= i < position - 1 ==> !record_body(tasks[position - 1]).is_prefix_of(
                #[trigger] record_body(tasks[i]),
            ),
    ensures
        edit_at(render(tasks), position, field, value) is Ok,
        tasks_of(edit_at(render(tasks), position, field, value).unwrap()) == tasks.update(
            position - 1,
            edited(tasks[position - 1], field, value).unwrap(),
        ),
{
    lemma_separator_shape();
    let sep = separator();
    let blob = render(tasks);
    let k = position - 1;
    let body = record_body(tasks[k]);
    let task = edited(tasks[k], field, value).unwrap();
    theorem_tasks_of_render(tasks);
    theorem_records_of_render(tasks);
    assert(records(blob)[k] == body);
    assert(tasks_of(blob)[k] == tasks[k]);
    // The record is found where it starts.
    lemma_record_occurs(blob, k);
    let start = record_start(blob, k);
    lemma_pieces_of_render(tasks);
    lemma_render_joined(tasks.take(k));
    assert(split(blob, sep).take(k + 1) =~= seq![Seq::<char>::empty()] + bodies(tasks.take(k)));
    assert(start == render(tasks.take(k)).len());
    assert(free_of_separator(tasks[k]));
    lemma_body_well_cut(tasks[k]);
    assert(body.last() == '\n');
    assert forall|j: int| 0 <= j < start implies !occurs_at(blob, sep + body, j) by {
        if occurs_at(blob, sep + body, j) {
            let i = lemma_occurrence_in_render(tasks, body, j);
            if i >= k {
                lemma_render_grows(tasks, k, i);
            }
            assert(!body.is_prefix_of(record_body(tasks[i])));
        }
    }
    lemma_index_of_is(blob, sep + body, start);
    theorem_edit_keeps_other_records(blob, position, field, value);
    let out = edit_at(blob, position, field, value).unwrap();
    theorem_round_trip(task);
    lemma_trim_of_trim_end(record_body(task));
    assert(tasks_of(out) =~= tasks.update(k, task));
}

} // verus!
