use task_store::task::{
    parse_bool, parse_task_string, Field, Task, TaskError, COMPLETED_IDENTIFIER,
    DESCRIPTION_IDENTIFIER, MISSING_NAME, NAME_IDENTIFIER, TASK_IDENTIFIER,
};
use task_store::text::trim_of;

fn task(name: &str, completed: bool, description: &str) -> Task {
    Task { name: String::from(name), completed, description: String::from(description) }
}

fn trimmed(s: &str) -> String {
    let cs: Vec<char> = s.chars().collect();
    trim_of(&cs).iter().collect()
}

fn body_of(t: &Task) -> String {
    String::from(&t.to_string()[TASK_IDENTIFIER.len()..])
}

#[test]
fn the_literals_are_the_documented_ones() {
    assert_eq!(TASK_IDENTIFIER, "---TASK---");
    assert_eq!(NAME_IDENTIFIER, "NAME: ");
    assert_eq!(COMPLETED_IDENTIFIER, "COMPLETED: ");
    assert_eq!(DESCRIPTION_IDENTIFIER, "DESCRIPTION: ");
    assert_eq!(MISSING_NAME, "NO NAME FOUND");
}

#[test]
fn empty_record_gives_the_defaults() {
    assert_eq!(parse_task_string(""), task("NO NAME FOUND", false, ""));
}

#[test]
fn canonical_text_has_separator_and_three_lines() {
    assert_eq!(
        task("Buy milk", false, "2% please").to_string(),
        "---TASK---\nNAME: Buy milk\nCOMPLETED: false\nDESCRIPTION: 2% please\n"
    );
    assert_eq!(
        task("Walk dog", true, "").to_string(),
        "---TASK---\nNAME: Walk dog\nCOMPLETED: true\nDESCRIPTION: \n"
    );
}

#[test]
fn canonical_text_keeps_a_description_of_several_lines() {
    assert_eq!(
        task("n", true, "first\n\nthird").to_string(),
        "---TASK---\nNAME: n\nCOMPLETED: true\nDESCRIPTION: first\n\nthird\n"
    );
}

#[test]
fn a_record_reads_back_as_the_task_that_was_written() {
    let cases = [
        task("Buy milk", false, "2% please"),
        task("Walk dog", true, "twice\n\naround the block"),
        task("", false, "x"),
        task("  padded name  ", true, "d"),
        task("NAME: COMPLETED: DESCRIPTION: ", true, "DESCRIPTION: NAME: true"),
        task("carriage\rinside", false, "tab\tinside\rand a bare return"),
        task("ünïcödé ✓", true, "— ✓ —"),
    ];
    for t in cases {
        assert_eq!(parse_task_string(&trimmed(&body_of(&t))), t);
    }
}

#[test]
fn an_empty_description_does_not_read_back() {
    let t = task("Walk dog", true, "");
    assert_eq!(parse_task_string(&trimmed(&body_of(&t))), task("Walk dog", true, "DESCRIPTION:"));
}

#[test]
fn a_description_with_white_space_at_an_end_reads_back_trimmed() {
    let t = task("n", false, "  inner  ");
    assert_eq!(parse_task_string(&trimmed(&body_of(&t))), task("n", false, "inner"));
}

#[test]
fn a_name_of_two_lines_does_not_read_back() {
    let t = task("two\nlines", true, "d");
    let read = parse_task_string(&trimmed(&body_of(&t)));
    assert_eq!(read.name, "two");
    assert!(!read.completed);
}

#[test]
fn a_name_that_ends_with_a_carriage_return_loses_it() {
    let t = task("name\r", true, "d");
    assert_eq!(parse_task_string(&trimmed(&body_of(&t))), task("name", true, "d"));
}

#[test]
fn a_carriage_return_before_a_line_feed_in_a_description_is_lost() {
    let t = task("n", true, "a\r\nb");
    assert_eq!(parse_task_string(&trimmed(&body_of(&t))), task("n", true, "a\nb"));
}

#[test]
fn markers_are_removed_wherever_they_first_stand() {
    let t = parse_task_string("my NAME: x\nis COMPLETED: true\nsome DESCRIPTION: text");
    assert_eq!(t, task("my x", false, "some text"));
    let t = parse_task_string("NAME: NAME: x\nCOMPLETED: true\nDESCRIPTION: DESCRIPTION: y");
    assert_eq!(t, task("NAME: x", true, "DESCRIPTION: y"));
}

#[test]
fn markers_may_be_missing() {
    assert_eq!(parse_task_string("Buy milk\ntrue\n2% please"), task("Buy milk", true, "2% please"));
}

#[test]
fn a_missing_or_unreadable_flag_is_false() {
    assert_eq!(parse_task_string("NAME: only a name"), task("only a name", false, ""));
    assert_eq!(parse_task_string("NAME: n\nCOMPLETED: yes\nDESCRIPTION: d"), task("n", false, "d"));
    assert_eq!(parse_task_string("NAME: n\nCOMPLETED: TRUE\nDESCRIPTION: d"), task("n", false, "d"));
    assert_eq!(
        parse_task_string("NAME: n\nCOMPLETED: true \nDESCRIPTION: d"),
        task("n", false, "d")
    );
    assert_eq!(parse_task_string("NAME: n\nCOMPLETED: true\nDESCRIPTION: d"), task("n", true, "d"));
}

#[test]
fn the_description_is_every_remaining_line_trimmed_as_a_whole() {
    let t = parse_task_string("NAME: n\nCOMPLETED: false\nDESCRIPTION:   first  \n\n  third  \n\n");
    assert_eq!(t.description, "first  \n\n  third");
}

#[test]
fn line_endings_with_carriage_returns_are_read() {
    let t = parse_task_string("NAME: n\r\nCOMPLETED: true\r\nDESCRIPTION: a\r\nb\r\n");
    assert_eq!(t, task("n", true, "a\nb"));
}

#[test]
fn flags_are_case_sensitive() {
    assert_eq!(parse_bool("true"), Some(true));
    assert_eq!(parse_bool("false"), Some(false));
    assert_eq!(parse_bool("True"), None);
    assert_eq!(parse_bool(" true"), None);
    assert_eq!(parse_bool("truefalse"), None);
    assert_eq!(parse_bool(""), None);
}

#[test]
fn typed_input_is_trimmed_and_its_flag_read_in_any_case() {
    assert_eq!(
        Task::from_input("  Buy milk \n", " TRUE\n", "\t2% please\n"),
        Ok(task("Buy milk", true, "2% please"))
    );
    assert_eq!(Task::from_input("n", "False", "d"), Ok(task("n", false, "d")));
    assert_eq!(Task::from_input("n", "false", ""), Ok(task("n", false, "")));
}

#[test]
fn typed_input_with_an_unreadable_flag_is_refused() {
    assert_eq!(Task::from_input("n", "yes", "d"), Err(TaskError::MalformedInput));
    assert_eq!(Task::from_input("n", "", "d"), Err(TaskError::MalformedInput));
    assert_eq!(Task::from_input("n", "tr ue", "d"), Err(TaskError::MalformedInput));
}

#[test]
fn an_edit_sets_one_field_to_the_trimmed_value() {
    let mut t = task("Buy milk", false, "2% please");
    assert_eq!(t.edit(Field::Name, "  Buy oat milk\n"), Ok(()));
    assert_eq!(t, task("Buy oat milk", false, "2% please"));
    assert_eq!(t.edit(Field::Completed, " true\n"), Ok(()));
    assert_eq!(t, task("Buy oat milk", true, "2% please"));
    assert_eq!(t.edit(Field::Description, "\tbarista\n"), Ok(()));
    assert_eq!(t, task("Buy oat milk", true, "barista"));
    assert_eq!(t.edit(Field::Completed, "false"), Ok(()));
    assert!(!t.completed);
}

#[test]
fn an_edit_with_an_unreadable_flag_is_refused_and_changes_nothing() {
    let mut t = task("Buy milk", true, "2% please");
    assert_eq!(t.edit(Field::Completed, "TRUE"), Err(TaskError::MalformedInput));
    assert_eq!(t.edit(Field::Completed, "done"), Err(TaskError::MalformedInput));
    assert_eq!(t, task("Buy milk", true, "2% please"));
}

#[test]
fn a_clone_holds_the_same_fields() {
    let t = task("a", true, "b\nc");
    assert_eq!(t.clone(), t);
}
