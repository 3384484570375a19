//! The store: a whole file of records held as one text, cut into records,
//! rendered from tasks, and rewritten one record at a time.

use crate::joining::{joined, lemma_joined_around, lemma_joined_split};
use crate::lines::{lemma_split_nonempty, split, split_on, views};
use crate::task::{
    edited, parse_chars, parse_task, separator, serialize, serialize_chars, Field, Task,
    TaskError, TaskView, TASK_IDENTIFIER,
};
use crate::text::{
    chars_of, contains, extend, find, lemma_index_of, occurs_at, replace_first, splice,
    string_of, trim, trim_end, trim_end_of, trim_of,
};
use vstd::prelude::*;

verus! {

/// The raw texts of the records of a store, in file order: what stands
/// between the separators, untrimmed. What stands in front of the first
/// separator is no record.
pub open spec fn records(blob: Seq<char>) -> Seq<Seq<char>> {
    split(blob, separator()).drop_first()
}

/// The tasks of a store, in file order: each record's text, trimmed and read.
pub open spec fn tasks_of(blob: Seq<char>) -> Seq<TaskView> {
    Seq::new(records(blob).len(), |i: int| parse_task(trim(records(blob)[i])))
}

/// The canonical text of a sequence of tasks: their canonical texts, one
/// after another.
pub open spec fn render(tasks: Seq<TaskView>) -> Seq<char>
    decreases tasks.len(),
{
    if tasks.len() == 0 {
        Seq::empty()
    } else {
        render(tasks.drop_last()) + serialize(tasks.last())
    }
}

/// The texts that a vector of strings holds.
pub open spec fn texts(v: Seq<String>) -> Seq<Seq<char>> {
    Seq::new(v.len(), |i: int| v[i]@)
}

/// What a vector of tasks holds.
pub open spec fn task_views(v: Seq<Task>) -> Seq<TaskView> {
    Seq::new(v.len(), |i: int| v[i]@)
}

/// The store with its first occurrence of a record, separator included,
/// replaced by `new_text`, and trailing white space cut off. `None` where
/// the record does not occur.
pub open spec fn replaced(blob: Seq<char>, record: Seq<char>, new_text: Seq<char>) -> Option<
    Seq<char>,
> {
    if contains(blob, separator() + record) {
        Some(trim_end(replace_first(blob, separator() + record, new_text)))
    } else {
        None
    }
}

/// The pieces of a store, the text in front of the first separator included.
fn pieces_of(text: &[char]) -> (out: Vec<Vec<char>>)
    ensures
        views(out@) == split(text@, separator()),
        out.len() >= 1,
{
    let sep = chars_of(TASK_IDENTIFIER);
    proof {
        lemma_split_nonempty(text@, separator());
    }
    split_on(text, sep.as_slice())
}

/// Cuts a store into the raw texts of its records. Each is the exact text
/// between two separators, so that it can be found again in the store.
pub fn split_records(blob: &str) -> (out: Vec<String>)
    ensures
        texts(out@) == records(blob@),
{
    let text = chars_of(blob);
    let pieces = pieces_of(text.as_slice());
    let mut out: Vec<String> = Vec::new();
    let mut i: usize = 1;
    while i < pieces.len()
        invariant
            1 <= i <= pieces.len(),
            views(pieces@) == split(blob@, separator()),
            texts(out@) == records(blob@).subrange(0, i - 1),
        decreases pieces.len() - i,
    {
        let ghost before = texts(out@);
        out.push(string_of(pieces[i].as_slice()));
        proof {
            assert(views(pieces@)[i as int] == pieces@[i as int]@);
            assert(texts(out@) =~= before + seq![pieces@[i as int]@]);
            assert(texts(out@) =~= records(blob@).subrange(0, i as int));
        }
        i += 1;
    }
    proof {
        assert(records(blob@).subrange(0, i - 1) =~= records(blob@));
    }
    out
}

/// Reads every task of a store, in file order.
pub fn list_tasks(blob: &str) -> (out: Vec<Task>)
    ensures
        task_views(out@) == tasks_of(blob@),
{
    let text = chars_of(blob);
    let pieces = pieces_of(text.as_slice());
    let mut out: Vec<Task> = Vec::new();
    let mut i: usize = 1;
    while i < pieces.len()
        invariant
            1 <= i <= pieces.len(),
            views(pieces@) == split(blob@, separator()),
            task_views(out@) == tasks_of(blob@).subrange(0, i - 1),
        decreases pieces.len() - i,
    {
        let ghost before = task_views(out@);
        let task = parse_chars(trim_of(pieces[i].as_slice()).as_slice());
        out.push(task);
        proof {
            assert(views(pieces@)[i as int] == pieces@[i as int]@);
            assert(task_views(out@) =~= before + seq![task@]);
            assert(task_views(out@) =~= tasks_of(blob@).subrange(0, i as int));
        }
        i += 1;
    }
    proof {
        assert(tasks_of(blob@).subrange(0, i - 1) =~= tasks_of(blob@));
    }
    out
}

/// Reads the task at a position, counted from 1 in file order.
pub fn get_task(blob: &str, position: usize) -> (found: Result<Task, TaskError>)
    ensures
        match found {
            Ok(task) => 1 <= position <= records(blob@).len() && task@ == tasks_of(
                blob@,
            )[position - 1],
            Err(e) => e == TaskError::SelectionOutOfRange && !(1 <= position <= records(
                blob@,
            ).len()),
        },
{
    let text = chars_of(blob);
    let pieces = pieces_of(text.as_slice());
    if position == 0 || position >= pieces.len() {
        return Err(TaskError::SelectionOutOfRange);
    }
    proof {
        assert(views(pieces@)[position as int] == pieces@[position as int]@);
    }
    Ok(parse_chars(trim_of(pieces[position].as_slice()).as_slice()))
}

/// The canonical text of a whole store that holds `tasks` in this order.
pub fn render_all(tasks: &[Task]) -> (out: String)
    ensures
        out@ == render(task_views(tasks@)),
{
    let mut out: Vec<char> = Vec::new();
    let ghost all = task_views(tasks@);
    let mut i: usize = 0;
    while i < tasks.len()
        invariant
            i <= tasks.len(),
            all == task_views(tasks@),
            out@ == render(all.subrange(0, i as int)),
        decreases tasks.len() - i,
    {
        extend(&mut out, serialize_chars(&tasks[i]).as_slice());
        proof {
            let next = all.subrange(0, i + 1);
            assert(next.drop_last() =~= all.subrange(0, i as int));
            assert(next.last() == tasks@[i as int]@);
        }
        i += 1;
    }
    proof {
        assert(all.subrange(0, tasks.len() as int) =~= all);
    }
    string_of(out.as_slice())
}

/// The store with the canonical text of one more task at its end.
pub fn add_task(blob: &str, task: &Task) -> (out: String)
    ensures
        out@ == blob@ + serialize(task@),
{
    let mut out = chars_of(blob);
    extend(&mut out, serialize_chars(task).as_slice());
    string_of(out.as_slice())
}

/// `replace_one_record` on characters.
fn replace_chars(text: &[char], record: &[char], new_text: &[char]) -> (out: Result<
    Vec<char>,
    TaskError,
>)
    ensures
        match replaced(text@, record@, new_text@) {
            Some(blob) => out is Ok && out->Ok_0@ == blob,
            None => out == Err::<Vec<char>, TaskError>(TaskError::ReplaceMismatch),
        },
{
    let mut target = chars_of(TASK_IDENTIFIER);
    extend(&mut target, record);
    proof {
        lemma_index_of(text@, target@);
    }
    match find(text, target.as_slice()) {
        Some(at) => {
            let whole = splice(text, at, target.len(), new_text);
            Ok(trim_end_of(whole.as_slice()))
        },
        None => Err(TaskError::ReplaceMismatch),
    }
}

/// Replaces one record of a store. The record is given by its raw text, as
/// `split_records` returned it; its first occurrence, separator included,
/// gives way to `new_text`, and the rest of the store stays as it was but
/// for trailing white space, which is cut off. A record that does not occur
/// in the store, character for character, is refused.
pub fn replace_one_record(blob: &str, record: &str, new_text: &str) -> (out: Result<
    String,
    TaskError,
>)
    ensures
        match replaced(blob@, record@, new_text@) {
            Some(text) => out is Ok && out->Ok_0@ == text,
            None => out == Err::<String, TaskError>(TaskError::ReplaceMismatch),
        },
{
    let text = chars_of(blob);
    let old_text = chars_of(record);
    let new_chars = chars_of(new_text);
    match replace_chars(text.as_slice(), old_text.as_slice(), new_chars.as_slice()) {
        Ok(whole) => Ok(string_of(whole.as_slice())),
        Err(e) => Err(e),
    }
}

/// The offset in the store of the separator that opens record `k`, counted
/// from 0: the length of all that stands in front of it.
pub open spec fn record_start(blob: Seq<char>, k: int) -> int {
    joined(split(blob, separator()).take(k + 1), separator()).len() as int
}

/// Every record of a store stands in it behind a separator, at its start.
pub proof fn lemma_record_occurs(blob: Seq<char>, k: int)
    requires
        0 <= k < records(blob).len(),
    ensures
        occurs_at(blob, separator() + records(blob)[k], record_start(blob, k)),
{
    reveal_strlit("---TASK---");
    let sep = separator();
    let pieces = split(blob, sep);
    let record = pieces[k + 1];
    lemma_joined_split(blob, sep);
    lemma_joined_around(pieces, sep, k + 1, record);
    assert(pieces.update(k + 1, record) =~= pieces);
    let front = joined(pieces.take(k + 1), sep);
    let behind = if k + 2 < pieces.len() {
        sep + joined(pieces.skip(k + 2), sep)
    } else {
        Seq::empty()
    };
    assert(blob == front + sep + record + behind);
    let n = front.len() as int;
    assert(blob.subrange(n, n + (sep + record).len()) =~= sep + record);
}

/// What an edit makes of a store: the record at `position`, counted from 1,
/// is read, the field is set, and the record's first occurrence gives way to
/// the canonical text of the task so changed. A position without a record
/// is refused, and so is a flag that does not read as one.
pub open spec fn edit_at(blob: Seq<char>, position: int, field: Field, value: Seq<char>) -> Result<
    Seq<char>,
    TaskError,
> {
    if !(1 <= position <= records(blob).len()) {
        Err(TaskError::SelectionOutOfRange)
    } else {
        match edited(tasks_of(blob)[position - 1], field, value) {
            Some(task) => Ok(
                trim_end(
                    replace_first(
                        blob,
                        separator() + records(blob)[position - 1],
                        serialize(task),
                    ),
                ),
            ),
            None => Err(TaskError::MalformedInput),
        }
    }
}

/// Sets one field of the task at a position, counted from 1, and returns
/// the store so changed. The value is trimmed first. On a refusal there is
/// no new store, and the old one is as it was.
pub fn apply_edit(blob: &str, position: usize, field: Field, value: &str) -> (out: Result<
    String,
    TaskError,
>)
    ensures
        match edit_at(blob@, position as int, field, value@) {
            Ok(text) => out is Ok && out->Ok_0@ == text,
            Err(e) => out == Err::<String, TaskError>(e),
        },
{
    let text = chars_of(blob);
    let pieces = pieces_of(text.as_slice());
    if position == 0 || position >= pieces.len() {
        return Err(TaskError::SelectionOutOfRange);
    }
    proof {
        assert(views(pieces@)[position as int] == pieces@[position as int]@);
        lemma_record_occurs(blob@, position - 1);
    }
    let record = pieces[position].as_slice();
    let mut task = parse_chars(trim_of(record).as_slice());
    match task.edit(field, value) {
        Ok(()) => {},
        Err(e) => {
            return Err(e);
        },
    }
    let new_text = serialize_chars(&task);
    match replace_chars(text.as_slice(), record, new_text.as_slice()) {
        Ok(whole) => Ok(string_of(whole.as_slice())),
        Err(e) => Err(e),
    }
}

} // verus!
