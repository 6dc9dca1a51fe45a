use toro::config::SortBy;
use toro::date::{format_date_on, parse_date, parse_date_on, Date};
use toro::error::ToroError;
use toro::filter::Filter;
use toro::todotxt::file::TodoTxtFile;
use toro::todotxt::TodoTxtTask;

fn day(y: i32, m: u32, d: u32) -> Date {
    Date::from_ymd(y, m, d).unwrap()
}

#[test]
fn relative_forms_agree_on_one_day() {
    let t = day(2024, 2, 27);
    assert_eq!(parse_date_on("today", t), Ok(t));
    assert_eq!(parse_date_on("0d", t), parse_date_on("today", t));
    assert_eq!(parse_date_on("1d", t), parse_date_on("tomorrow", t));
    assert_eq!(parse_date_on("tomorrow", t), Ok(day(2024, 2, 28)));
    assert_eq!(parse_date_on("yesterday", t), Ok(day(2024, 2, 26)));
    assert_eq!(parse_date_on("2w", t), parse_date_on("14d", t));
    assert_eq!(parse_date_on("2w", t), Ok(day(2024, 3, 12)));
    assert_eq!(parse_date_on("3d", t), Ok(day(2024, 3, 1)));
}

#[test]
fn nice_dates_read_back_for_the_next_two_weeks() {
    let t = day(2024, 12, 25);
    for (k, d) in [(0, 25), (1, 26), (2, 27), (6, 31)] {
        let date = day(2024, 12, d);
        let text = format_date_on(date, true, t);
        assert_eq!(parse_date_on(&text, t), Ok(date), "{} days on", k);
    }
    let later = day(2025, 1, 7);
    assert_eq!(format_date_on(later, true, t), "13d");
    assert_eq!(parse_date_on("13d", t), Ok(later));
    let before = day(2024, 12, 22);
    assert_eq!(format_date_on(before, true, t), "-3d");
    assert_eq!(parse_date_on("-3d", t), Err(ToroError::DateInputError("-3d".to_string())));
}

#[test]
fn restricting_a_filter_admits_no_more() {
    let t = day(2024, 5, 10);
    let tasks = ["Buy milk", "Buy bread due:2024-05-09", "x Buy milk", "Call mum"];
    let wide = Filter::new(false, true, true, vec!["buy".to_string()]);
    let narrow = Filter::new(true, false, true, vec!["buy".to_string(), "BREAD".to_string()]);
    let mut passed_wide = 0;
    let mut passed_narrow = 0;
    for line in tasks {
        let task = TodoTxtTask::parse_on(line, t).unwrap();
        let w = wide.approves_on(&task, t);
        let n = narrow.approves_on(&task, t);
        assert!(!n || w, "{}", line);
        passed_wide += w as usize;
        passed_narrow += n as usize;
    }
    assert_eq!((passed_wide, passed_narrow), (3, 1));
}

#[test]
fn no_flags_pass_exactly_the_pending_tasks() {
    let t = day(2024, 5, 10);
    let no_flags = Filter::new(false, false, true, vec![]);
    assert!(no_flags.approves_on(&TodoTxtTask::parse_on("(A) Pending +p", t).unwrap(), t));
    assert!(!no_flags.approves_on(&TodoTxtTask::parse_on("x Done", t).unwrap(), t));
}

#[test]
fn the_tasks_to_change_are_the_tasks_shown() {
    let mut f = TodoTxtFile::from_content(
        "f",
        "(B) One\nx Two\n(A) Three\nFour",
    )
    .unwrap();
    let pending = Filter::new(false, false, true, vec![]);
    let shown = f.filtered_sorted(Some(&pending), &[SortBy::Priority]).unwrap();
    let to_change = f.filtered_sorted_mut(Some(&pending), &[SortBy::Priority]).unwrap();
    assert_eq!(shown, to_change);
    assert_eq!(shown, vec![2, 0, 3]);
}

#[test]
fn a_task_reads_back_on_a_later_day() {
    let t1 = day(2024, 5, 10);
    let t2 = day(2024, 8, 1);
    let task = TodoTxtTask::parse_on("(A) 2024-05-01 Plan due:tomorrow scheduled:3d +home", t1).unwrap();
    let line = task.to_string();
    assert_eq!(line, "(A) 2024-05-01  Plan due:2024-05-11 scheduled:2024-05-13 +home");
    let again = TodoTxtTask::parse_on(&line, t2).unwrap();
    assert_eq!(again.to_string(), line);
    assert_eq!(again.when_due_on(t2), Ok(Some(day(2024, 5, 11))));
}

#[test]
fn rewriting_twice_is_rewriting_once() {
    let t1 = day(2024, 5, 10);
    let t2 = day(2025, 1, 1);
    let content = "x 2024-05-09 2024-05-01 Done\n(B) Next due:1w\nPlain words scheduled:today";
    let once = TodoTxtFile::from_content_on("f", content, t1).unwrap().to_content();
    let twice = TodoTxtFile::from_content_on("f", &once, t2).unwrap().to_content();
    assert_eq!(once, twice);
    assert_eq!(
        once,
        "x 2024-05-09 2024-05-01  Done\n(B)  Next due:2024-05-17\n Plain words scheduled:2024-05-10"
    );
}

#[test]
fn absolute_input_needs_no_day() {
    assert_eq!(parse_date("2024-02-29"), Ok(day(2024, 2, 29)));
    assert_eq!(parse_date("2023-02-29"), Err(ToroError::DateInputError("2023-02-29".to_string())));
    let task = TodoTxtTask::parse("x 2024-05-02 2024-05-01 Done due:2024-05-05").unwrap();
    assert_eq!(task.when_due(), Ok(Some(day(2024, 5, 5))));
    assert_eq!(task.when_scheduled(), Ok(None));
    let f = TodoTxtFile::from_content("f", "B +p\nA due:2024-01-01").unwrap();
    assert_eq!(f.filtered_sorted(None, &[SortBy::Description]).unwrap(), vec![1, 0]);
    assert!(Filter::new(false, true, true, vec![]).approves(&task).unwrap());
}
