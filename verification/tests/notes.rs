use toro::commands::{field_value_text_on, parse_field_value_on, update_step, FieldValue, UpdateAction, UpdateEvent};
use toro::config::{ColumnSelector, ViewConfig};
use toro::date::{today, Date};
use toro::error::ToroError;
use toro::interaction::{fzf_input, markdown, markdown_line, parse_fzf_output, style_spans, FieldSelection};
use toro::todotxt::file::TodoTxtFile;
use toro::todotxt::TodoTxtTask;

fn day() -> Date {
    Date::from_ymd(2024, 5, 10).unwrap()
}

fn styles_on() {
    colored::control::set_override(true);
}

#[test]
fn bold_spans_are_bold() {
    styles_on();
    assert_eq!(markdown_line("a **b** c"), "a \u{1b}[1m**b**\u{1b}[0m c");
    assert_eq!(markdown_line("**x** and **y**"), "\u{1b}[1m**x**\u{1b}[0m and \u{1b}[1m**y**\u{1b}[0m");
    assert_eq!(markdown_line("open **only"), "open **only");
}

#[test]
fn italic_spans_are_italic() {
    styles_on();
    assert_eq!(markdown_line("x _y_ z"), "x \u{1b}[3m_y_\u{1b}[0m z");
    assert_eq!(
        markdown_line("_a **b** c_"),
        "\u{1b}[3m_a \u{1b}[1m**b**\u{1b}[0m\u{1b}[3m c_\u{1b}[0m"
    );
}

#[test]
fn headings_are_bold_yellow() {
    styles_on();
    assert_eq!(markdown_line("# Title"), "\u{1b}[1;33m# Title\u{1b}[0m");
    assert_eq!(
        markdown_line("## **B**"),
        "\u{1b}[1;33m## \u{1b}[1m**B**\u{1b}[0m\u{1b}[1;33m\u{1b}[0m"
    );
    assert_eq!(markdown_line("plain text"), "plain text");
}

#[test]
fn notes_are_shown_line_by_line() {
    styles_on();
    assert_eq!(
        markdown("# T\r\nsome _word_\n"),
        vec!["\u{1b}[1;33m# T\u{1b}[0m".to_string(), "some \u{1b}[3m_word_\u{1b}[0m".to_string()]
    );
    assert!(markdown("").is_empty());
}

#[test]
fn spans_count_bytes() {
    styles_on();
    assert_eq!(style_spans("añb", &[(1, 3)], false), "a\u{1b}[1mñ\u{1b}[0mb");
    assert_eq!(style_spans("añb", &[(0, 1), (3, 4)], true), "\u{1b}[3ma\u{1b}[0mñ\u{1b}[3mb\u{1b}[0m");
    assert_eq!(style_spans("añb", &[], true), "añb");
}

#[test]
fn update_rounds_follow_the_events() {
    assert!(matches!(update_step(UpdateEvent::Eof, day()), UpdateAction::Stop));
    assert!(matches!(update_step(UpdateEvent::Selected(0), day()), UpdateAction::SelectTasks));
    assert!(matches!(update_step(UpdateEvent::Selected(2), day()), UpdateAction::AskField));
    assert!(matches!(update_step(UpdateEvent::Stored(true), day()), UpdateAction::Stop));
    assert!(matches!(update_step(UpdateEvent::Stored(false), day()), UpdateAction::SelectTasks));
    assert!(matches!(
        update_step(UpdateEvent::Answer(FieldSelection::Priority, "A".to_string()), day()),
        UpdateAction::Apply(FieldValue::Priority(Some('A')))
    ));
    match update_step(UpdateEvent::Answer(FieldSelection::Priority, "7".to_string()), day()) {
        UpdateAction::AskAgain(ToroError::InvalidValue(v, f)) => {
            assert_eq!(v, "7");
            assert_eq!(f, FieldSelection::Priority);
        },
        _ => panic!("an invalid priority is asked again"),
    }
}

#[test]
fn fuzzy_finder_lists_places_and_lines() {
    let f = TodoTxtFile::from_content_on("f", "First\n(B) Second +p", day()).unwrap();
    let input = fzf_input(&f, &[1, 0]);
    assert_eq!(input, "0:(B)  Second +p\n1: First");
    assert_eq!(parse_fzf_output("1: First\n", 2), Ok(vec![1]));
    assert_eq!(fzf_input(&f, &[]), "");
}

#[test]
fn listing_lines_take_the_task_style() {
    styles_on();
    let mut none = ColumnSelector::default();
    none.completed = false;
    none.priority = false;
    none.completion_date = false;
    none.creation_date = false;
    let view = ViewConfig::default();
    let done = TodoTxtTask::parse_on("x Done +p", day()).unwrap();
    assert_eq!(
        done.to_string_fancy_on(none, &view, day()),
        "\u{1b}[9mDone \u{1b}[1m+p\u{1b}[0m\u{1b}[9m\u{1b}[0m"
    );
    let a = TodoTxtTask::parse_on("(A) Call", day()).unwrap();
    assert_eq!(a.to_string_fancy_on(none, &view, day()), "\u{1b}[95mCall\u{1b}[0m");
    let b = TodoTxtTask::parse_on("(B) Call @home", day()).unwrap();
    assert_eq!(
        b.to_string_fancy_on(none, &view, day()),
        "\u{1b}[93mCall \u{1b}[3m@home\u{1b}[0m\u{1b}[93m\u{1b}[0m"
    );
    let c = TodoTxtTask::parse_on("(C) Call k:v", day()).unwrap();
    assert_eq!(c.to_string_fancy_on(none, &view, day()), "Call \u{1b}[2mk:v\u{1b}[0m");
}

#[test]
fn the_clock_gives_a_date() {
    let t = today().expect("the clock reads a date");
    assert!(t.day_number() > 0);
    let task = TodoTxtTask::parse("Call due:today").unwrap();
    assert!(matches!(task.when_due(), Ok(Some(_))));
    assert!(TodoTxtTask::parse("one\ntwo").is_err());
    let view = ViewConfig::default();
    let shown = task.to_string_fancy(ColumnSelector::default(), &view).unwrap();
    assert!(shown.contains("Call"));
    let f = TodoTxtFile::from_content("f", "Call
x Done").unwrap();
    assert_eq!(f.list(false, false, &view, None).unwrap(), vec![(0, None), (1, None)]);
}

/// The text without its style sequences (`ESC [ digits-or-; m`).
fn strip(s: &str) -> String {
    let cs: Vec<char> = s.chars().collect();
    let mut out = String::new();
    let mut i = 0;
    while i < cs.len() {
        if cs[i] == '\u{1b}' && i + 1 < cs.len() && cs[i + 1] == '[' {
            let mut e = i + 2;
            while e < cs.len() && (cs[e].is_ascii_digit() || cs[e] == ';') {
                e += 1;
            }
            if e < cs.len() && cs[e] == 'm' {
                i = e + 1;
                continue;
            }
        }
        out.push(cs[i]);
        i += 1;
    }
    out
}

#[test]
fn listing_lines_are_the_columns_then_the_description() {
    styles_on();
    let view = ViewConfig::default();
    let all = ColumnSelector::default();
    let t = TodoTxtTask::parse_on("(A) 2024-05-01 Say \u{1b}[31mred\u{1b}[0m +p k:v", day()).unwrap();
    let line = t.to_string_fancy_on(all, &view, day());
    let desc = t.description_fancy_on(&view, day());
    assert_eq!(strip(&line), format!("  (A) {}2024-05-01 {}", " ".repeat(11), strip(&desc)));
    assert_eq!(strip(&desc), "Say red +p k:v");
    let mut u = TodoTxtTask::parse_on("x Done due:2024-05-11 +q", day()).unwrap();
    u.set_due(None);
    let desc = u.description_fancy_on(&view, day());
    assert_eq!(strip(&desc), "Done  +q");
    assert_eq!(strip(&u.to_string_fancy_on(all, &view, day())), format!("x     {}{}Done  +q", " ".repeat(11), " ".repeat(11)));
}

#[test]
fn the_tasks_to_change_on_a_day_are_the_tasks_shown_that_day() {
    let mut f = TodoTxtFile::from_content_on("f", "(B) One due:2024-05-12\nx Two\n(A) Three\nFour due:2024-05-11", day()).unwrap();
    let keys = [toro::config::SortBy::Due];
    let shown = f.filtered_sorted_on(None, &keys, day());
    let to_change = f.filtered_sorted_mut_on(None, &keys, day());
    assert_eq!(shown, to_change);
    assert_eq!(f.to_content(), "(B)  One due:2024-05-12\nx  Two\n(A)  Three\n Four due:2024-05-11");
}

#[test]
fn the_offered_value_reads_back_as_the_value() {
    let t = TodoTxtTask::parse_on("(B) 2024-05-01 Plan due:tomorrow +p", day()).unwrap();
    let back = |f: FieldSelection| parse_field_value_on(f, &field_value_text_on(&t, f, day()), day()).unwrap();
    assert!(matches!(back(FieldSelection::Completed), FieldValue::Completed(false)));
    assert!(matches!(back(FieldSelection::Priority), FieldValue::Priority(Some('B'))));
    assert!(matches!(back(FieldSelection::CompletionDate), FieldValue::CompletionDate(None)));
    match back(FieldSelection::CreationDate) {
        FieldValue::CreationDate(Some(d)) => assert_eq!(d, Date::from_ymd(2024, 5, 1).unwrap()),
        _ => panic!("the creation date reads back"),
    }
    match back(FieldSelection::Due) {
        FieldValue::Due(Some(d)) => assert_eq!(d, Date::from_ymd(2024, 5, 11).unwrap()),
        _ => panic!("the due date reads back"),
    }
    assert!(matches!(back(FieldSelection::Scheduled), FieldValue::Scheduled(None)));
    match back(FieldSelection::Description) {
        FieldValue::Description(s) => assert_eq!(s, "Plan due:2024-05-11 +p"),
        _ => panic!("the description reads back"),
    }
}
