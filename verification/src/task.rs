//! The task record and its codec: the canonical text of a task, and the
//! lenient reading of a record's text.

use crate::lines::{lines, lines_of, newline, unlines, views};
use crate::text::{
    chars_of, extend, remove_first, remove_first_in, same_text, string_of, trim, trim_of,
};
use vstd::prelude::*;

verus! {

/// The marker that opens every record.
pub const TASK_IDENTIFIER: &'static str = "---TASK---";

/// The marker in front of a task's name.
pub const NAME_IDENTIFIER: &'static str = "NAME: ";

/// The marker in front of a task's completion flag.
pub const COMPLETED_IDENTIFIER: &'static str = "COMPLETED: ";

/// The marker in front of a task's description.
pub const DESCRIPTION_IDENTIFIER: &'static str = "DESCRIPTION: ";

/// The name given to a task whose record has no first line.
pub const MISSING_NAME: &'static str = "NO NAME FOUND";

/// The record separator, as a text.
pub open spec fn separator() -> Seq<char> {
    TASK_IDENTIFIER@
}

/// The name marker, as a text.
pub open spec fn name_marker() -> Seq<char> {
    NAME_IDENTIFIER@
}

/// The completion marker, as a text.
pub open spec fn completed_marker() -> Seq<char> {
    COMPLETED_IDENTIFIER@
}

/// The description marker, as a text.
pub open spec fn description_marker() -> Seq<char> {
    DESCRIPTION_IDENTIFIER@
}

/// The fallback name, as a text.
pub open spec fn missing_name() -> Seq<char> {
    MISSING_NAME@
}

/// The canonical text of a completion flag.
pub open spec fn flag_text(flag: bool) -> Seq<char> {
    if flag {
        "true"@
    } else {
        "false"@
    }
}

/// The flag that a text stands for: only the two canonical texts stand for one.
pub open spec fn parse_flag(text: Seq<char>) -> Option<bool> {
    if text == "true"@ {
        Some(true)
    } else if text == "false"@ {
        Some(false)
    } else {
        None
    }
}

/// Why an operation on a task or on a store was refused.
#[derive(Debug, Clone, Copy, PartialEq, Eq, Structural)]
pub enum TaskError {
    /// A text that should be a completion flag is neither `true` nor `false`.
    MalformedInput,
    /// The store has no record at the position asked for.
    SelectionOutOfRange,
    /// The record to replace does not stand in the store as it was captured.
    ReplaceMismatch,
}

/// The fields of a task that an edit can set.
#[derive(Debug, Clone, Copy, PartialEq, Eq, Structural)]
pub enum Field {
    Name,
    Completed,
    Description,
}

/// A task: a name of one line, a completion flag, and a description that
/// may span several lines.
#[derive(Debug, PartialEq, Eq)]
pub struct Task {
    pub name: String,
    pub completed: bool,
    pub description: String,
}

/// What a task holds, as mathematical values.
pub ghost struct TaskView {
    pub name: Seq<char>,
    pub completed: bool,
    pub description: Seq<char>,
}

impl View for Task {
    type V = TaskView;

    open spec fn view(&self) -> TaskView {
        TaskView { name: self.name@, completed: self.completed, description: self.description@ }
    }
}

impl Clone for Task {
    fn clone(&self) -> (copy: Task)
        ensures
            copy@ == self@,
    {
        Task {
            name: self.name.clone(),
            completed: self.completed,
            description: self.description.clone(),
        }
    }
}

/// The text of a record behind its separator: the three fields, each on a
/// line of its own behind its marker, the description last.
pub open spec fn record_body(task: TaskView) -> Seq<char> {
    newline() + name_marker() + task.name + newline() + completed_marker() + flag_text(
        task.completed,
    ) + newline() + description_marker() + task.description + newline()
}

/// The canonical text of a task: the separator, then the record's body.
pub open spec fn serialize(task: TaskView) -> Seq<char> {
    separator() + record_body(task)
}

/// The task that a record's text stands for. The first line gives the name,
/// the second the flag, the remaining lines the description; each loses the
/// first occurrence of its marker, wherever in the text it stands. A missing
/// first line gives the fallback name; a missing or unreadable flag is
/// `false`.
pub open spec fn parse_task(text: Seq<char>) -> TaskView {
    let ls = lines(text);
    let name_line = if ls.len() > 0 {
        ls[0]
    } else {
        missing_name()
    };
    let completed_line = if ls.len() > 1 {
        ls[1]
    } else {
        flag_text(false)
    };
    let rest = if ls.len() > 2 {
        ls.subrange(2, ls.len() as int)
    } else {
        Seq::empty()
    };
    TaskView {
        name: remove_first(name_line, name_marker()),
        completed: parse_flag(remove_first(completed_line, completed_marker())) == Some(true),
        description: trim(remove_first(unlines(rest), description_marker())),
    }
}

/// Reads a completion flag: `true` and `false`, in exactly this spelling,
/// are the only texts that stand for one.
pub fn parse_bool(text: &str) -> (flag: Option<bool>)
    ensures
        flag == parse_flag(text@),
{
    let cs = chars_of(text);
    flag_of(cs.as_slice())
}

/// `parse_bool` on characters.
pub(crate) fn flag_of(cs: &[char]) -> (flag: Option<bool>)
    ensures
        flag == parse_flag(cs@),
{
    let yes = chars_of("true");
    let no = chars_of("false");
    if same_text(cs, yes.as_slice()) {
        Some(true)
    } else if same_text(cs, no.as_slice()) {
        Some(false)
    } else {
        None
    }
}

/// The canonical text of `task`, as characters.
pub(crate) fn serialize_chars(task: &Task) -> (out: Vec<char>)
    ensures
        out@ == serialize(task@),
{
    let feed: Vec<char> = vec!['\n'];
    proof {
        assert(feed@ =~= newline());
    }
    let mut out = chars_of(TASK_IDENTIFIER);
    extend(&mut out, feed.as_slice());
    extend(&mut out, chars_of(NAME_IDENTIFIER).as_slice());
    extend(&mut out, chars_of(task.name.as_str()).as_slice());
    extend(&mut out, feed.as_slice());
    extend(&mut out, chars_of(COMPLETED_IDENTIFIER).as_slice());
    if task.completed {
        extend(&mut out, chars_of("true").as_slice());
    } else {
        extend(&mut out, chars_of("false").as_slice());
    }
    extend(&mut out, feed.as_slice());
    extend(&mut out, chars_of(DESCRIPTION_IDENTIFIER).as_slice());
    extend(&mut out, chars_of(task.description.as_str()).as_slice());
    extend(&mut out, feed.as_slice());
    proof {
        assert(out@ =~= serialize(task@));
    }
    out
}

impl Task {
    /// The canonical text of the task: the separator on a line of its own,
    /// then name, flag and description, each behind its marker and followed
    /// by a line feed.
    pub fn to_string(&self) -> (out: String)
        ensures
            out@ == serialize(self@),
    {
        string_of(serialize_chars(self).as_slice())
    }
}

/// The texts of `ls` from index `from` on, each followed by a line feed.
fn unlines_from(ls: &Vec<Vec<char>>, from: usize) -> (out: Vec<char>)
    ensures
        out@ == unlines(
            if ls.len() > from {
                views(ls@).subrange(from as int, ls.len() as int)
            } else {
                Seq::empty()
            },
        ),
{
    let mut out: Vec<char> = Vec::new();
    if ls.len() <= from {
        return out;
    }
    let ghost all = views(ls@);
    let mut i: usize = from;
    while i < ls.len()
        invariant
            from <= i <= ls.len(),
            all == views(ls@),
            out@ == unlines(all.subrange(from as int, i as int)),
        decreases ls.len() - i,
    {
        extend(&mut out, ls[i].as_slice());
        out.push('\n');
        proof {
            let next = all.subrange(from as int, i + 1);
            assert(next.drop_last() =~= all.subrange(from as int, i as int));
            assert(next.last() == ls@[i as int]@);
            assert(out@ =~= unlines(next.drop_last()) + next.last() + newline());
        }
        i += 1;
    }
    out
}

/// Reads a task from the text of its record, the separator already taken
/// off. Nothing is refused: what is missing gets its default. A marker is
/// taken out where it first stands in its part of the text, also in the
/// middle of a value, so a name that itself holds `NAME: ` loses it; this
/// leniency is deliberate. Flags are read in their exact spelling.
pub fn parse_task_string(s: &str) -> (task: Task)
    ensures
        task@ == parse_task(s@),
{
    let text = chars_of(s);
    parse_chars(text.as_slice())
}

/// `parse_task_string` on characters.
pub(crate) fn parse_chars(text: &[char]) -> (task: Task)
    ensures
        task@ == parse_task(text@),
{
    let ls = lines_of(text);
    let missing = chars_of(MISSING_NAME);
    let unset = chars_of("false");
    let name_line: &[char] = if ls.len() > 0 {
        ls[0].as_slice()
    } else {
        missing.as_slice()
    };
    let completed_line: &[char] = if ls.len() > 1 {
        ls[1].as_slice()
    } else {
        unset.as_slice()
    };
    let name = remove_first_in(name_line, chars_of(NAME_IDENTIFIER).as_slice());
    let flag = remove_first_in(completed_line, chars_of(COMPLETED_IDENTIFIER).as_slice());
    let completed = match flag_of(flag.as_slice()) {
        Some(b) => b,
        None => false,
    };
    let body = unlines_from(&ls, 2);
    let stripped = remove_first_in(body.as_slice(), chars_of(DESCRIPTION_IDENTIFIER).as_slice());
    let description = trim_of(stripped.as_slice());
    Task {
        name: string_of(name.as_slice()),
        completed,
        description: string_of(description.as_slice()),
    }
}

/// The task that an edit makes of `task`: the field set to the trimmed
/// value. A flag must read as one, in its exact spelling; otherwise there is
/// no such task.
pub open spec fn edited(task: TaskView, field: Field, value: Seq<char>) -> Option<TaskView> {
    match field {
        Field::Name => Some(TaskView { name: trim(value), ..task }),
        Field::Completed => match parse_flag(trim(value)) {
            Some(flag) => Some(TaskView { completed: flag, ..task }),
            None => None,
        },
        Field::Description => Some(TaskView { description: trim(value), ..task }),
    }
}

/// The lower-case form of a text.
pub uninterp spec fn lowercase(text: Seq<char>) -> Seq<char>;

/// `str::to_lowercase` of the standard library: the result is the
/// lower-case form of the text, which depends on the text alone.
#[verifier::external_body]
fn to_lowercase(text: &str) -> (out: String)
    ensures
        out@ == lowercase(text@),
{
    text.to_lowercase()
}

/// The task that three texts typed by a person describe: name and
/// description trimmed, the flag trimmed and read without regard to case.
/// Where the flag does not read as one there is no such task.
pub open spec fn typed_task(
    name: Seq<char>,
    completed: Seq<char>,
    description: Seq<char>,
) -> Option<TaskView> {
    match parse_flag(lowercase(trim(completed))) {
        Some(flag) => Some(
            TaskView { name: trim(name), completed: flag, description: trim(description) },
        ),
        None => None,
    }
}

impl Task {
    /// Sets one field from a typed value. The value is trimmed; a flag that
    /// is then neither `true` nor `false` is refused and the task stays as
    /// it was.
    pub fn edit(&mut self, field: Field, value: &str) -> (done: Result<(), TaskError>)
        ensures
            match edited(old(self)@, field, value@) {
                Some(task) => done is Ok && final(self)@ == task,
                None => done == Err::<(), TaskError>(TaskError::MalformedInput) && final(self)@
                    == old(self)@,
            },
    {
        let typed = chars_of(value);
        let trimmed = trim_of(typed.as_slice());
        match field {
            Field::Name => {
                self.name = string_of(trimmed.as_slice());
                Ok(())
            },
            Field::Completed => match flag_of(trimmed.as_slice()) {
                Some(flag) => {
                    self.completed = flag;
                    Ok(())
                },
                None => Err(TaskError::MalformedInput),
            },
            Field::Description => {
                self.description = string_of(trimmed.as_slice());
                Ok(())
            },
        }
    }

    /// Makes a task of three typed texts. Name and description are trimmed;
    /// the flag is trimmed and put in lower case before it is read, and a
    /// text that is then neither `true` nor `false` is refused.
    pub fn from_input(name: &str, completed: &str, description: &str) -> (made: Result<
        Task,
        TaskError,
    >)
        ensures
            match typed_task(name@, completed@, description@) {
                Some(task) => made is Ok && made->Ok_0@ == task,
                None => made == Err::<Task, TaskError>(TaskError::MalformedInput),
            },
    {
        let flag_typed = string_of(trim_of(chars_of(completed).as_slice()).as_slice());
        let lowered = to_lowercase(flag_typed.as_str());
        match parse_bool(lowered.as_str()) {
            Some(flag) => Ok(
                Task {
                    name: string_of(trim_of(chars_of(name).as_slice()).as_slice()),
                    completed: flag,
                    description: string_of(trim_of(chars_of(description).as_slice()).as_slice()),
                },
            ),
            None => Err(TaskError::MalformedInput),
        }
    }
}

} // verus!
