use toro::commands::{
    commit_message, parse_field_value_on, priority_from_char, set_field_on, single_project, update_commit_message,
    DoneCommand, FieldValue, ProjectArgs, SetCommand,
};
use toro::config::Config;
use toro::date::Date;
use toro::error::ToroError;
use toro::filter::Filter;
use toro::interaction::FieldSelection;
use toro::projects::Project;
use toro::todotxt::file::TodoTxtFile;
use toro::todotxt::DateRecord;

fn day(y: i32, m: u32, d: u32) -> Date {
    Date::from_ymd(y, m, d).unwrap()
}

fn today() -> Date {
    day(2024, 5, 10)
}

fn any_filter() -> Filter {
    Filter::new(false, true, true, vec![])
}

#[test]
fn set_commands_get_their_field() {
    let cmd = SetCommand { field: None, value: "tomorrow".to_string(), filter: any_filter(), config: Config::default() };
    let cmd = cmd.with_field(FieldSelection::Due);
    assert_eq!(cmd.field, Some(FieldSelection::Due));
    assert_eq!(cmd.value, "tomorrow");
}

#[test]
fn field_values_are_read() {
    let t = today();
    assert!(matches!(parse_field_value_on(FieldSelection::Completed, "true", t), Ok(FieldValue::Completed(true))));
    assert!(matches!(parse_field_value_on(FieldSelection::Completed, "false", t), Ok(FieldValue::Completed(false))));
    assert!(matches!(parse_field_value_on(FieldSelection::Priority, "none", t), Ok(FieldValue::Priority(None))));
    assert!(matches!(parse_field_value_on(FieldSelection::Priority, "Q", t), Ok(FieldValue::Priority(Some('Q')))));
    match parse_field_value_on(FieldSelection::Due, "tomorrow", t) {
        Ok(FieldValue::Due(Some(d))) => assert_eq!(d, day(2024, 5, 11)),
        _ => panic!("tomorrow is a due date"),
    }
    assert!(matches!(parse_field_value_on(FieldSelection::Scheduled, "none", t), Ok(FieldValue::Scheduled(None))));
    match parse_field_value_on(FieldSelection::CreationDate, "2024-01-02", t) {
        Ok(FieldValue::CreationDate(Some(d))) => assert_eq!(d, day(2024, 1, 2)),
        _ => panic!("a creation date"),
    }
    match parse_field_value_on(FieldSelection::Description, "New text", t) {
        Ok(FieldValue::Description(s)) => assert_eq!(s, "New text"),
        _ => panic!("a description"),
    }
}

#[test]
fn invalid_field_values_are_refused() {
    let t = today();
    let cases = [
        (FieldSelection::Completed, "yes"),
        (FieldSelection::Completed, "True"),
        (FieldSelection::Priority, "a"),
        (FieldSelection::Priority, "AB"),
        (FieldSelection::Priority, ""),
        (FieldSelection::Due, "someday"),
        (FieldSelection::CompletionDate, "2024-02-30"),
        (FieldSelection::Description, "two\nlines"),
    ];
    for (field, value) in cases {
        match parse_field_value_on(field, value, t) {
            Err(e) => assert_eq!(e, ToroError::InvalidValue(value.to_string(), field)),
            Ok(_) => panic!("{} should be refused", value),
        }
    }
}

#[test]
fn values_are_set_on_the_selected_tasks_only() {
    let mut f = TodoTxtFile::from_content_on("f", "One\n2024-01-01 Two\nThree", today()).unwrap();
    set_field_on(&mut f, &[0, 2], &FieldValue::Priority(Some('B')), today());
    assert_eq!(f.to_content(), "(B)  One\n2024-01-01  Two\n(B)  Three");
    set_field_on(&mut f, &[1], &FieldValue::Completed(true), today());
    assert_eq!(f.task(1).dates(), DateRecord::CompletedCreated(today(), day(2024, 1, 1)));
    set_field_on(&mut f, &[1, 0], &FieldValue::Due(Some(day(2024, 6, 1))), today());
    assert_eq!(f.task(0).description(), "One due:2024-06-01");
    assert_eq!(f.task(2).description(), "Three");
    set_field_on(&mut f, &[2], &FieldValue::Description("Drei +p".to_string()), today());
    assert_eq!(f.task(2).description(), "Drei +p");
    set_field_on(&mut f, &[2], &FieldValue::Description("bad\nline".to_string()), today());
    assert_eq!(f.task(2).description(), "Drei +p");
}

#[test]
fn marking_done_and_undoing() {
    let mut f = TodoTxtFile::from_content_on("f", "2024-05-01 Task", today()).unwrap();
    let done = DoneCommand { multiple: false, undo: false, filter: any_filter(), config: Config::default() };
    set_field_on(&mut f, &[0], &done.value(), today());
    assert!(f.task(0).completed());
    assert_eq!(done.prompt(), "Select tasks to mark as completed");
    assert_eq!(done.commit_message(1), "Marked 1 tasks as \"completed\"");
    let undo = DoneCommand { multiple: false, undo: true, filter: any_filter(), config: Config::default() };
    set_field_on(&mut f, &[0], &undo.value(), today());
    assert_eq!(f.to_content(), "2024-05-01  Task");
    assert_eq!(undo.prompt(), "Select tasks to mark as pending");
    assert_eq!(undo.commit_message(12), "Marked 12 tasks as \"pending\"");
}

#[test]
fn priorities_from_the_command_line() {
    assert_eq!(priority_from_char('C'), Ok(Some('C')));
    assert_eq!(priority_from_char('-'), Ok(None));
    assert_eq!(priority_from_char('c'), Err(ToroError::InvalidPriorityError('A')));
}

#[test]
fn commit_messages() {
    assert_eq!(commit_message("Rewrite todo.txt file"), "[toro] Rewrite todo.txt file");
    assert_eq!(update_commit_message(FieldSelection::Due, 3), "Updated due in 3 task(s)");
}

#[test]
fn notes_need_exactly_one_project() {
    let f = TodoTxtFile::from_content_on("f", "A +x\nB +x @c\nC +y\nD", today()).unwrap();
    assert_eq!(single_project(&f, &[0, 1, 3]).map(|p| p.name().clone()), Some("x".to_string()));
    assert_eq!(single_project(&f, &[0, 2]).map(|p| p.name().clone()), None);
    assert_eq!(single_project(&f, &[3]).map(|p| p.name().clone()), None);
}

#[test]
fn projects_are_named_without_plus() {
    assert_eq!(Project::new("+home").name(), "home");
    assert_eq!(Project::new("work").name(), "work");
    assert_eq!(Project::new("++x").name(), "+x");
    assert_eq!(Project::of_note_file("garden.md").name(), "garden");
    assert_eq!(Project::of_note_file("+garden.md").name(), "garden");
    assert_eq!(Project::of_note_file("notes.txt").name(), "notes.txt");
    assert_eq!(Project::new("home").note_file_name(), "home.md");
}

#[test]
fn all_projects_are_listed_once_in_order() {
    let f = TodoTxtFile::from_content_on("f", "A +work\nB +home\nC +work @x\nD", today()).unwrap();
    let notes = vec!["garden.md".to_string(), "home.md".to_string(), "+Alpha.md".to_string()];
    let names: Vec<String> = Project::all(&f, &notes).iter().map(|p| p.name().clone()).collect();
    assert_eq!(names, vec!["Alpha", "garden", "home", "work"]);
}

#[test]
fn a_projects_tasks() {
    let f = TodoTxtFile::from_content_on("f", "(B) A +work\nB +home\n(A) C +work\nx D +work", today()).unwrap();
    let work = Project::new("work");
    let pending = Filter::new(false, false, true, vec![]);
    assert_eq!(work.tasks_on(&f, Some(&pending), &[toro::config::SortBy::Priority], today()), vec![2, 0]);
    assert_eq!(work.tasks_on(&f, None, &[], today()), vec![0, 2, 3]);
}

#[test]
fn the_project_asked_for() {
    let by_name = ProjectArgs { project: Some("+home".to_string()), task: None, list: false };
    assert_eq!(by_name.chosen_project_on(today()).unwrap().map(|p| p.name().clone()), Some("home".to_string()));
    let by_task = ProjectArgs { project: None, task: Some("Fix +bike @garage".to_string()), list: false };
    assert_eq!(by_task.chosen_project_on(today()).unwrap().map(|p| p.name().clone()), Some("bike".to_string()));
    let no_project = ProjectArgs { project: None, task: Some("Fix it".to_string()), list: false };
    assert!(matches!(no_project.chosen_project_on(today()), Err(ToroError::ProjectNotFound)));
    let neither = ProjectArgs { project: None, task: None, list: true };
    assert!(matches!(neither.chosen_project_on(today()), Ok(None)));
}
