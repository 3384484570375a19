use task_store::store::{
    add_task, apply_edit, get_task, list_tasks, render_all, replace_one_record, split_records,
};
use task_store::task::{parse_task_string, Field, Task, TaskError};

const TWO_TASKS: &str = "---TASK---\nNAME: Buy milk\nCOMPLETED: false\nDESCRIPTION: 2% please\n---TASK---\nNAME: Walk dog\nCOMPLETED: true\nDESCRIPTION: \n";

fn task(name: &str, completed: bool, description: &str) -> Task {
    Task { name: String::from(name), completed, description: String::from(description) }
}

fn three_tasks() -> Vec<Task> {
    vec![
        task("Buy milk", false, "2% please"),
        task("Walk dog", true, "twice\n\naround the block"),
        task("Write", false, "the report"),
    ]
}

#[test]
fn a_store_of_two_records_is_split_read_and_edited() {
    let records = split_records(TWO_TASKS);
    assert_eq!(
        records,
        vec![
            "\nNAME: Buy milk\nCOMPLETED: false\nDESCRIPTION: 2% please\n",
            "\nNAME: Walk dog\nCOMPLETED: true\nDESCRIPTION: \n",
        ]
    );
    let mut first = parse_task_string(records[0].trim());
    assert_eq!(first, task("Buy milk", false, "2% please"));
    first.completed = true;
    let out = replace_one_record(TWO_TASKS, &records[0], &first.to_string()).unwrap();
    assert_eq!(
        out,
        "---TASK---\nNAME: Buy milk\nCOMPLETED: true\nDESCRIPTION: 2% please\n---TASK---\nNAME: Walk dog\nCOMPLETED: true\nDESCRIPTION:"
    );
    let after = split_records(&out);
    assert_eq!(after.len(), 2);
    assert_eq!(after[0], "\nNAME: Buy milk\nCOMPLETED: true\nDESCRIPTION: 2% please\n");
    assert_eq!(after[1].trim(), records[1].trim());
    assert_eq!(apply_edit(TWO_TASKS, 1, Field::Completed, "true"), Ok(out));
}

#[test]
fn records_are_the_raw_texts_between_separators() {
    assert_eq!(split_records(""), Vec::<String>::new());
    assert_eq!(split_records("no separator at all"), Vec::<String>::new());
    assert_eq!(split_records("preamble---TASK---"), vec![""]);
    assert_eq!(split_records("x---TASK--- a ---TASK---\tb\n"), vec![" a ", "\tb\n"]);
    assert_eq!(split_records("---TASK------TASK---"), vec!["", ""]);
}

#[test]
fn a_rendered_store_splits_into_its_tasks() {
    let tasks = three_tasks();
    let blob = render_all(&tasks);
    assert_eq!(split_records(&blob).len(), 3);
    assert_eq!(list_tasks(&blob), tasks);
    for (i, record) in split_records(&blob).iter().enumerate() {
        assert_eq!(parse_task_string(record.trim()), tasks[i]);
        assert_eq!(format!("---TASK---{}", record), tasks[i].to_string());
    }
}

#[test]
fn rendering_puts_the_canonical_texts_one_after_another() {
    assert_eq!(render_all(&[]), "");
    let tasks = three_tasks();
    let expected = format!("{}{}{}", tasks[0].to_string(), tasks[1].to_string(), tasks[2].to_string());
    assert_eq!(render_all(&tasks), expected);
}

#[test]
fn adding_appends_one_canonical_record() {
    let tasks = three_tasks();
    let mut blob = String::new();
    for t in &tasks {
        blob = add_task(&blob, t);
    }
    assert_eq!(blob, render_all(&tasks));
    assert_eq!(
        add_task("preamble\n", &task("n", true, "d")),
        "preamble\n---TASK---\nNAME: n\nCOMPLETED: true\nDESCRIPTION: d\n"
    );
}

#[test]
fn listing_reads_each_record_trimmed() {
    assert_eq!(
        list_tasks(TWO_TASKS),
        vec![task("Buy milk", false, "2% please"), task("Walk dog", true, "DESCRIPTION:")]
    );
    assert_eq!(list_tasks("junk"), Vec::<Task>::new());
    assert_eq!(list_tasks("---TASK---"), vec![task("NO NAME FOUND", false, "")]);
    assert_eq!(
        list_tasks("---TASK---  \n NAME: a\nCOMPLETED: true\n\n"),
        vec![task("a", true, "")]
    );
}

#[test]
fn positions_count_from_one() {
    assert_eq!(get_task(TWO_TASKS, 1), Ok(task("Buy milk", false, "2% please")));
    assert_eq!(get_task(TWO_TASKS, 2), Ok(task("Walk dog", true, "DESCRIPTION:")));
}

#[test]
fn a_position_without_a_record_is_refused() {
    assert_eq!(get_task(TWO_TASKS, 0), Err(TaskError::SelectionOutOfRange));
    assert_eq!(get_task(TWO_TASKS, 3), Err(TaskError::SelectionOutOfRange));
    assert_eq!(get_task("", 1), Err(TaskError::SelectionOutOfRange));
    assert_eq!(get_task(TWO_TASKS, usize::MAX), Err(TaskError::SelectionOutOfRange));
    assert_eq!(apply_edit(TWO_TASKS, 0, Field::Name, "x"), Err(TaskError::SelectionOutOfRange));
    assert_eq!(apply_edit(TWO_TASKS, 3, Field::Name, "x"), Err(TaskError::SelectionOutOfRange));
    assert_eq!(
        apply_edit(TWO_TASKS, 3, Field::Completed, "nonsense"),
        Err(TaskError::SelectionOutOfRange)
    );
}

#[test]
fn an_unreadable_flag_is_a_refused_edit() {
    assert_eq!(apply_edit(TWO_TASKS, 1, Field::Completed, "TRUE"), Err(TaskError::MalformedInput));
    assert_eq!(apply_edit(TWO_TASKS, 2, Field::Completed, ""), Err(TaskError::MalformedInput));
}

#[test]
fn a_record_that_is_not_in_the_store_is_not_replaced() {
    let trimmed = "NAME: Buy milk\nCOMPLETED: false\nDESCRIPTION: 2% please";
    assert_eq!(
        replace_one_record(TWO_TASKS, trimmed, "---TASK---\nNAME: x\n"),
        Err(TaskError::ReplaceMismatch)
    );
    assert_eq!(replace_one_record("", "", "x"), Err(TaskError::ReplaceMismatch));
    assert_eq!(replace_one_record(TWO_TASKS, "\nNAME: Nobody", "x"), Err(TaskError::ReplaceMismatch));
}

#[test]
fn replacing_changes_the_first_occurrence_and_trims_the_end() {
    assert_eq!(
        replace_one_record("a---TASK---x---TASK---x  \n", "x", "<new>"),
        Ok(String::from("a<new>---TASK---x"))
    );
    assert_eq!(replace_one_record("---TASK---x", "x", "y \n "), Ok(String::from("y")));
    assert_eq!(replace_one_record("  ---TASK---", "", ""), Ok(String::new()));
}

#[test]
fn an_edit_leaves_the_other_records_as_they_were() {
    let tasks = three_tasks();
    let blob = render_all(&tasks);
    let before = split_records(&blob);
    for position in 1..=3usize {
        let out = apply_edit(&blob, position, Field::Name, "  renamed \n").unwrap();
        let after = split_records(&out);
        assert_eq!(after.len(), 3);
        for j in 0..3usize {
            if j + 1 == position {
                assert_eq!(parse_task_string(after[j].trim()).name, "renamed");
            } else if j == 2 {
                assert_eq!(after[j], before[j].trim_end());
            } else {
                assert_eq!(after[j], before[j]);
            }
        }
        let mut expected = three_tasks();
        expected[position - 1].name = String::from("renamed");
        assert_eq!(list_tasks(&out), expected);
    }
}

#[test]
fn an_edit_writes_the_exact_new_text() {
    let blob = render_all(&three_tasks());
    assert_eq!(
        apply_edit(&blob, 2, Field::Description, " once \n"),
        Ok(String::from(
            "---TASK---\nNAME: Buy milk\nCOMPLETED: false\nDESCRIPTION: 2% please\n---TASK---\nNAME: Walk dog\nCOMPLETED: true\nDESCRIPTION: once\n---TASK---\nNAME: Write\nCOMPLETED: false\nDESCRIPTION: the report"
        ))
    );
}

#[test]
fn an_edit_keeps_what_stands_in_front_of_the_first_record() {
    let blob = format!("my tasks\n{}", render_all(&three_tasks()));
    let out = apply_edit(&blob, 3, Field::Completed, "true").unwrap();
    assert!(out.starts_with("my tasks\n---TASK---\nNAME: Buy milk\n"));
    assert!(out.ends_with("---TASK---\nNAME: Write\nCOMPLETED: true\nDESCRIPTION: the report"));
}

#[test]
fn an_edit_of_a_repeated_record_changes_its_first_occurrence() {
    let same = task("twin", false, "d");
    let blob = render_all(&[same.clone(), same.clone()]);
    let out = apply_edit(&blob, 2, Field::Completed, "true").unwrap();
    assert_eq!(list_tasks(&out), vec![task("twin", true, "d"), task("twin", false, "d")]);
}
