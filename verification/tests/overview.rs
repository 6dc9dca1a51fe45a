use toro::commands::{field_value_text_on, set_field_on, shorten_summary, FieldValue};
use toro::date::Date;
use toro::interaction::FieldSelection;
use toro::projects::{overview_order_on, Project};
use toro::todotxt::file::TodoTxtFile;

fn day(y: i32, m: u32, d: u32) -> Date {
    Date::from_ymd(y, m, d).unwrap()
}

fn today() -> Date {
    day(2024, 5, 10)
}

#[test]
fn the_overview_puts_later_schedules_first() {
    let f = TodoTxtFile::from_content_on(
        "f",
        "A +a scheduled:2024-05-01\nB +b scheduled:2024-06-01\nC +c\n(A) D +d\n(B) E +e\nF +f\nG +f",
        today(),
    )
    .unwrap();
    let projects = Project::all(&f, &vec![]);
    let names: Vec<String> = projects.iter().map(|p| p.name().clone()).collect();
    assert_eq!(names, vec!["a", "b", "c", "d", "e", "f"]);
    let lists: Vec<Vec<usize>> = projects.iter().map(|p| p.tasks_on(&f, None, &[], today())).collect();
    let order = overview_order_on(&f, &lists, today());
    let shown: Vec<String> = order.iter().map(|i| names[*i].clone()).collect();
    assert_eq!(shown, vec!["c", "f", "e", "d", "b", "a"]);
}

#[test]
fn the_overview_of_nothing_is_empty() {
    let f = TodoTxtFile::new("f");
    assert_eq!(overview_order_on(&f, &vec![], today()), Vec::<usize>::new());
    let empty_lists = vec![vec![], vec![]];
    assert_eq!(overview_order_on(&f, &empty_lists, today()), vec![0, 1]);
}

#[test]
fn field_values_as_the_update_command_shows_them() {
    let f = TodoTxtFile::from_content_on("f", "x (C) 2024-05-02 2024-05-01 Text due:2024-05-20 scheduled:whenever", today()).unwrap();
    let t = f.task(0);
    let d = today();
    assert_eq!(field_value_text_on(t, FieldSelection::Completed, d), "true");
    assert_eq!(field_value_text_on(t, FieldSelection::Priority, d), "C");
    assert_eq!(field_value_text_on(t, FieldSelection::CompletionDate, d), "2024-05-02");
    assert_eq!(field_value_text_on(t, FieldSelection::CreationDate, d), "2024-05-01");
    assert_eq!(field_value_text_on(t, FieldSelection::Description, d), "Text due:2024-05-20 scheduled:whenever");
    assert_eq!(field_value_text_on(t, FieldSelection::Due, d), "2024-05-20");
    assert_eq!(field_value_text_on(t, FieldSelection::Scheduled, d), "none");
    let g = TodoTxtFile::from_content_on("g", "Plain", today()).unwrap();
    assert_eq!(field_value_text_on(g.task(0), FieldSelection::Priority, d), "none");
    assert_eq!(field_value_text_on(g.task(0), FieldSelection::CompletionDate, d), "none");
    assert_eq!(field_value_text_on(g.task(0), FieldSelection::Completed, d), "false");
}

#[test]
fn long_summaries_are_shortened() {
    assert_eq!(shorten_summary("short"), "short");
    let exact = "x".repeat(68);
    assert_eq!(shorten_summary(&exact), exact);
    let long = "y".repeat(69);
    assert_eq!(shorten_summary(&long), format!("{}...", "y".repeat(65)));
    let wide = format!("{}{}", "é".repeat(30), "z".repeat(20));
    assert_eq!(shorten_summary(&wide), format!("{}...", &wide[..65]));
}

#[test]
fn setting_a_value_twice_is_setting_it_once() {
    let mut once = TodoTxtFile::from_content_on("f", "2024-05-01 Task", today()).unwrap();
    let mut twice = TodoTxtFile::from_content_on("f", "2024-05-01 Task", today()).unwrap();
    let value = FieldValue::CreationDate(None);
    set_field_on(&mut once, &[0], &value, today());
    set_field_on(&mut twice, &[0], &value, today());
    set_field_on(&mut twice, &[0], &value, today());
    assert_eq!(once.to_content(), twice.to_content());
    let due = FieldValue::Due(Some(day(2024, 7, 1)));
    set_field_on(&mut once, &[0], &due, today());
    set_field_on(&mut twice, &[0], &due, today());
    set_field_on(&mut twice, &[0], &due, today());
    assert_eq!(once.to_content(), twice.to_content());
    assert_eq!(once.to_content(), " Task due:2024-07-01");
    let done = FieldValue::Completed(true);
    set_field_on(&mut once, &[0], &done, today());
    set_field_on(&mut twice, &[0], &done, today());
    set_field_on(&mut twice, &[0], &done, today());
    assert_eq!(once.to_content(), twice.to_content());
}
