use toro::config::{SortBy, ViewConfig};
use toro::date::Date;
use toro::error::ToroError;
use toro::filter::Filter;
use toro::todotxt::file::{split_lines, TodoTxtFile};

fn day(y: i32, m: u32, d: u32) -> Date {
    Date::from_ymd(y, m, d).unwrap()
}

fn today() -> Date {
    day(2024, 5, 10)
}

fn chars(s: &str) -> Vec<char> {
    s.chars().collect()
}

fn descriptions(file: &TodoTxtFile, order: &[usize]) -> Vec<String> {
    order.iter().map(|i| file.task(*i).description()).collect()
}

#[test]
fn lines_split_as_str_lines_does() {
    let text = "a\nb\r\n\nc\r";
    let got: Vec<String> = split_lines(&chars(text)).iter().map(|l| l.iter().collect()).collect();
    let want: Vec<String> = text.lines().map(|l| l.to_string()).collect();
    assert_eq!(got, want);
    assert_eq!(split_lines(&chars("x\n")).len(), 1);
    assert_eq!(split_lines(&chars("")).len(), 0);
    assert_eq!(split_lines(&chars("\n\n")).len(), 2);
}

#[test]
fn a_file_is_read_line_by_line() {
    let f = TodoTxtFile::from_content_on("/tmp/todo.txt", "(A) First\nx Second\nThird +p", today()).unwrap();
    assert_eq!(f.len(), 3);
    assert_eq!(f.location(), "/tmp/todo.txt");
    assert_eq!(f.task(0).priority(), Some('A'));
    assert!(f.task(1).completed());
    assert_eq!(f.task(2).project(), Some("p".to_string()));
}

#[test]
fn the_first_bad_line_decides_the_error() {
    let r = TodoTxtFile::from_content_on("f", "ok\n2024-02-30 bad\n2024-13-13 worse", today());
    assert_eq!(r.map(|f| f.len()), Err(ToroError::DateInputError("2024-02-30".to_string())));
}

#[test]
fn a_written_file_reads_back() {
    let f = TodoTxtFile::from_content_on("f", "x (A) 2024-05-02 2024-05-01 One +a\nTwo  spaced due:2024-06-01\n(C) Three", today()).unwrap();
    let content = f.to_content();
    assert_eq!(content, "x (A) 2024-05-02 2024-05-01  One +a\n Two  spaced due:2024-06-01\n(C)  Three");
    let g = TodoTxtFile::from_content_on("f", &content, today()).unwrap();
    assert_eq!(g.len(), f.len());
    assert_eq!(g.to_content(), content);
}

#[test]
fn an_empty_file_has_no_tasks() {
    let f = TodoTxtFile::new("somewhere");
    assert_eq!(f.len(), 0);
    assert_eq!(f.to_content(), "");
    let g = TodoTxtFile::from_content_on("somewhere", "", today()).unwrap();
    assert_eq!(g.len(), 0);
}

#[test]
fn tasks_are_added_and_replaced() {
    let mut f = TodoTxtFile::new("f");
    f.push(toro::todotxt::TodoTxtTask::parse_on("One", today()).unwrap());
    f.push(toro::todotxt::TodoTxtTask::parse_on("Two", today()).unwrap());
    f.set_task(0, toro::todotxt::TodoTxtTask::parse_on("Uno", today()).unwrap());
    assert_eq!(f.to_content(), " Uno\n Two");
    let t = f.take_task(1);
    assert_eq!(t.description(), "Two");
    f.put_task(0, t);
    assert_eq!(f.to_content(), " Two\n Uno");
}

fn sample() -> TodoTxtFile {
    TodoTxtFile::from_content_on(
        "f",
        "(B) Banana due:2024-05-12\nx 2024-05-01 2024-04-01 apple\n(A) Cherry due:2024-05-09\nDate scheduled:2024-05-10\n(B) Apricot",
        today(),
    )
    .unwrap()
}

#[test]
fn without_keys_tasks_keep_their_order() {
    let f = sample();
    assert_eq!(f.filtered_sorted_on(None, &[], today()), vec![0, 1, 2, 3, 4]);
}

#[test]
fn tasks_are_ordered_by_priority_then_by_line() {
    let f = sample();
    let order = f.filtered_sorted_on(None, &[SortBy::Priority], today());
    assert_eq!(order, vec![2, 0, 4, 1, 3]);
}

#[test]
fn the_last_key_orders_first() {
    let f = sample();
    let order = f.filtered_sorted_on(None, &[SortBy::Description, SortBy::Priority], today());
    assert_eq!(descriptions(&f, &order), vec!["Cherry due:2024-05-09", "Apricot", "Banana due:2024-05-12", "Date scheduled:2024-05-10", "apple"]);
    let by_desc = f.filtered_sorted_on(None, &[SortBy::Description], today());
    assert_eq!(by_desc, vec![4, 0, 2, 3, 1]);
}

#[test]
fn tasks_are_ordered_by_due_date_undated_last() {
    let f = sample();
    assert_eq!(f.filtered_sorted_on(None, &[SortBy::Due], today()), vec![2, 0, 1, 3, 4]);
    assert_eq!(f.filtered_sorted_on(None, &[SortBy::Scheduled], today()), vec![3, 0, 1, 2, 4]);
    assert_eq!(f.filtered_sorted_on(None, &[SortBy::Completed], today()), vec![0, 2, 3, 4, 1]);
    assert_eq!(f.filtered_sorted_on(None, &[SortBy::Created], today()), vec![1, 0, 2, 3, 4]);
    assert_eq!(f.filtered_sorted_on(None, &[SortBy::Nop], today()), vec![0, 1, 2, 3, 4]);
}

#[test]
fn the_filter_picks_the_tasks() {
    let f = sample();
    let pending = Filter::new(false, false, true, vec![]);
    assert_eq!(f.filtered_sorted_on(Some(&pending), &[], today()), vec![0, 2, 3, 4]);
    let due = Filter::new(true, true, true, vec![]);
    assert_eq!(f.filtered_sorted_on(Some(&due), &[], today()), vec![2, 3]);
    let words = Filter::new(false, true, true, vec!["AP".to_string()]);
    assert_eq!(f.filtered_sorted_on(Some(&words), &[], today()), vec![1, 4]);
}

#[test]
fn listings_number_tasks_by_their_place() {
    let f = sample();
    let mut view = ViewConfig::default();
    view.sort = vec![SortBy::Priority];
    let entries = f.list_on(true, false, &view, None, today());
    assert_eq!(entries, vec![(2, Some(0)), (0, Some(1)), (4, Some(2)), (1, Some(3)), (3, Some(4))]);
    let reversed = f.list_on(true, true, &view, None, today());
    assert_eq!(reversed, vec![(3, Some(4)), (1, Some(3)), (4, Some(2)), (0, Some(1)), (2, Some(0))]);
    let plain = f.list_on(false, true, &view, None, today());
    assert_eq!(plain, vec![(3, None), (1, None), (4, None), (0, None), (2, None)]);
}
