use toro::date::Date;
use toro::error::ToroError;
use toro::todotxt::{DateRecord, DescriptionToken, TodoTxtTask};

fn day(y: i32, m: u32, d: u32) -> Date {
    Date::from_ymd(y, m, d).unwrap()
}

fn today() -> Date {
    day(2024, 5, 10)
}

#[test]
fn a_full_line_is_read() {
    let t = TodoTxtTask::parse_on("x (A) 2024-05-02 2024-05-01 Buy milk +shop @home due:2024-05-05", today()).unwrap();
    assert!(t.completed());
    assert_eq!(t.priority(), Some('A'));
    assert_eq!(t.when_completed(), Some(day(2024, 5, 2)));
    assert_eq!(t.when_created(), Some(day(2024, 5, 1)));
    assert_eq!(t.description(), "Buy milk +shop @home due:2024-05-05");
    assert_eq!(t.project(), Some("shop".to_string()));
    assert_eq!(t.meta("due"), Some("2024-05-05".to_string()));
    assert_eq!(t.when_due_on(today()), Ok(Some(day(2024, 5, 5))));
    assert_eq!(t.when_scheduled_on(today()), Ok(None));
}

#[test]
fn a_plain_line_is_a_pending_task() {
    let t = TodoTxtTask::parse_on("Call mum", today()).unwrap();
    assert!(!t.completed());
    assert_eq!(t.priority(), None);
    assert_eq!(t.dates(), DateRecord::NoDate);
    assert_eq!(t.description(), "Call mum");
    assert_eq!(t.project(), None);
    assert_eq!(t.to_string(), " Call mum");
}

#[test]
fn a_task_is_written_as_a_line() {
    let t = TodoTxtTask::parse_on("(B) 2024-01-01 Pay rent +home", today()).unwrap();
    assert_eq!(t.to_string(), "(B) 2024-01-01  Pay rent +home");
    let again = TodoTxtTask::parse_on(&t.to_string(), today()).unwrap();
    assert_eq!(again.to_string(), t.to_string());
    assert_eq!(again.description(), "Pay rent +home");
}

#[test]
fn blanks_inside_the_description_stay() {
    let t = TodoTxtTask::parse_on("a  b\tc", today()).unwrap();
    assert_eq!(t.description(), "a  b\tc");
}

#[test]
fn relative_due_dates_are_stored_as_dates() {
    let t = TodoTxtTask::parse_on("Water plants due:tomorrow scheduled:3d", today()).unwrap();
    assert_eq!(t.meta("due"), Some("2024-05-11".to_string()));
    assert_eq!(t.meta("scheduled"), Some("2024-05-13".to_string()));
    let t2 = TodoTxtTask::parse_on("Water plants due:someday", today()).unwrap();
    assert_eq!(t2.meta("due"), Some("someday".to_string()));
    assert_eq!(t2.when_due_on(today()), Err(ToroError::DateInputError("someday".to_string())));
}

#[test]
fn line_breaks_are_refused() {
    assert_eq!(
        TodoTxtTask::parse_on("one\ntwo", today()).map(|t| t.to_string()),
        Err(ToroError::SyntaxError("one\ntwo".to_string()))
    );
}

#[test]
fn impossible_header_dates_are_refused() {
    assert_eq!(
        TodoTxtTask::parse_on("2024-13-01 Something", today()).map(|t| t.to_string()),
        Err(ToroError::DateInputError("2024-13-01".to_string()))
    );
}

#[test]
fn tokens_are_classified() {
    let t = TodoTxtTask::parse_on("+p @c k:v a:b:c :x y: w", today()).unwrap();
    let tokens: Vec<String> = ["+p", "@c", "k:v"].iter().map(|s| s.to_string()).collect();
    assert_eq!(t.description(), "+p @c k:v a:b:c :x y: w");
    assert_eq!(DescriptionToken::Project("p".to_string()).to_string(), tokens[0]);
    assert_eq!(DescriptionToken::Context("c".to_string()).to_string(), tokens[1]);
    assert_eq!(DescriptionToken::Meta("k".to_string(), "v".to_string()).to_string(), tokens[2]);
    assert_eq!(t.meta("k"), Some("v".to_string()));
    assert_eq!(t.meta("a"), None);
    assert_eq!(t.meta("y"), None);
}

#[test]
fn due_dates_are_set_and_removed() {
    let mut t = TodoTxtTask::parse_on("Report due:2024-01-01", today()).unwrap();
    t.set_due(Some(day(2024, 6, 1)));
    assert_eq!(t.when_due_on(today()), Ok(Some(day(2024, 6, 1))));
    assert_eq!(t.description(), "Report due:2024-06-01");
    t.set_due(None);
    assert_eq!(t.when_due_on(today()), Ok(None));
    t.set_scheduled(Some(day(2024, 7, 2)));
    assert_eq!(t.when_scheduled_on(today()), Ok(Some(day(2024, 7, 2))));
    assert_eq!(t.meta("scheduled"), Some("2024-07-02".to_string()));
}

#[test]
fn completing_and_reopening() {
    let mut t = TodoTxtTask::parse_on("2024-05-01 Write", today()).unwrap();
    t.complete_on(today());
    assert!(t.completed());
    assert_eq!(t.when_completed(), Some(today()));
    assert_eq!(t.to_string(), "x 2024-05-10 2024-05-01  Write");
    t.uncomplete();
    assert!(!t.completed());
    assert_eq!(t.when_completed(), None);
    assert_eq!(t.when_created(), Some(day(2024, 5, 1)));
    let mut u = TodoTxtTask::parse_on("Undated", today()).unwrap();
    u.set_completed_on(true, today());
    assert_eq!(u.dates(), DateRecord::CompletedCreated(today(), today()));
}

#[test]
fn dates_are_set_one_by_one() {
    let mut t = TodoTxtTask::parse_on("x 2024-05-02 2024-05-01 Done", today()).unwrap();
    t.set_creation_date(None);
    assert_eq!(t.dates(), DateRecord::CompletedCreated(day(2024, 5, 2), day(2024, 5, 2)));
    t.set_completion_date(None);
    assert_eq!(t.dates(), DateRecord::Created(day(2024, 5, 2)));
    t.set_creation_date(None);
    assert_eq!(t.dates(), DateRecord::NoDate);
    t.set_creation_date(Some(day(2023, 1, 1)));
    assert_eq!(t.dates(), DateRecord::Created(day(2023, 1, 1)));
    t.set_priority(Some('C'));
    assert_eq!(t.priority(), Some('C'));
}

#[test]
fn descriptions_are_replaced() {
    let mut t = TodoTxtTask::parse_on("Old text", today()).unwrap();
    assert_eq!(t.set_description_on("New +proj due:today", today()), Ok(()));
    assert_eq!(t.description(), "New +proj due:2024-05-10");
    assert_eq!(
        t.set_description_on("bad\r", today()),
        Err(ToroError::SyntaxError("bad\r".to_string()))
    );
    assert_eq!(t.description(), "New +proj due:2024-05-10");
}

#[test]
fn date_records_change() {
    let r = DateRecord::Created(day(2024, 1, 1));
    assert_eq!(r.created(), Some(day(2024, 1, 1)));
    assert_eq!(r.completed(), None);
    let c = r.with_completed(day(2024, 2, 2));
    assert_eq!(c, DateRecord::CompletedCreated(day(2024, 2, 2), day(2024, 1, 1)));
    assert_eq!(c.to_string(), "2024-02-02 2024-01-01 ");
    assert_eq!(c.without_completed(), r);
    assert_eq!(DateRecord::NoDate.with_created(day(2020, 3, 3)), DateRecord::Created(day(2020, 3, 3)));
}
