use toro::config::{ColumnSelector, ViewConfig};
use toro::date::Date;
use toro::filter::Filter;
use toro::interaction::FieldSelection;
use toro::todotxt::{DescriptionToken, TodoTxtTask};

fn today() -> Date {
    Date::from_ymd(2024, 5, 10).unwrap()
}

/// The text without its style sequences.
fn plain(s: &str) -> String {
    let mut out = String::new();
    let mut chars = s.chars().peekable();
    while let Some(c) = chars.next() {
        if c == '\u{1b}' && chars.peek() == Some(&'[') {
            chars.next();
            while let Some(&d) = chars.peek() {
                chars.next();
                if d == 'm' {
                    break;
                }
            }
        } else {
            out.push(c);
        }
    }
    out
}

#[test]
fn fancy_field_names_show_the_name() {
    let s = FieldSelection::Priority.to_string_fancy();
    assert_eq!(plain(&s), "priority");
    assert!(s == "priority" || s == "\u{1b}[95mpriority\u{1b}[0m");
}

#[test]
fn tokens_keep_their_text_when_styled() {
    let p = DescriptionToken::Project("home".to_string());
    let s = p.to_string_colored();
    assert!(s == "+home" || s == "\u{1b}[1m+home\u{1b}[0m");
    let c = DescriptionToken::Context("phone".to_string()).to_string_colored();
    assert!(c == "@phone" || c == "\u{1b}[3m@phone\u{1b}[0m");
    let m = DescriptionToken::Meta("k".to_string(), "v".to_string()).colored("k:v");
    assert!(m == "k:v" || m == "\u{1b}[2mk:v\u{1b}[0m");
    assert_eq!(DescriptionToken::Other("word".to_string()).to_string_colored(), "word");
}

#[test]
fn fancy_descriptions_write_dates_as_the_view_asks() {
    let t = TodoTxtTask::parse_on("Call +bob due:2024-05-11", today()).unwrap();
    let mut view = ViewConfig::default();
    assert_eq!(plain(&t.description_fancy_on(&view, today())), "Call +bob due:2024-05-11");
    view.pretty_dates = true;
    assert_eq!(plain(&t.description_fancy_on(&view, today())), "Call +bob due:tomorrow");
}

#[test]
fn fancy_lines_show_the_columns() {
    let t = TodoTxtTask::parse_on("x (A) 2024-05-09 2024-05-01 Done thing", today()).unwrap();
    let view = ViewConfig::default();
    let all = ColumnSelector::default();
    assert_eq!(plain(&t.to_string_fancy_on(all, &view, today())), "x (A) 2024-05-09 2024-05-01 Done thing");
    let u = TodoTxtTask::parse_on("Open thing", today()).unwrap();
    assert_eq!(plain(&u.to_string_fancy_on(all, &view, today())), format!("{}Open thing", " ".repeat(28)));
    let mut none = all;
    none.completed = false;
    none.priority = false;
    none.completion_date = false;
    none.creation_date = false;
    assert_eq!(plain(&u.to_string_fancy_on(none, &view, today())), "Open thing");
    let mut pretty = ViewConfig::default();
    pretty.pretty_dates = true;
    assert_eq!(plain(&t.to_string_fancy_on(all, &pretty, today())), "x (A) yesterday  -9d        Done thing");
}

#[test]
fn filters_ignore_case() {
    let t = TodoTxtTask::parse_on("Buy MILK", today()).unwrap();
    assert!(Filter::new(false, true, true, vec!["milk".to_string()]).approves_on(&t, today()));
    assert!(Filter::new(false, true, true, vec!["bUY".to_string(), "Mil".to_string()]).approves_on(&t, today()));
    assert!(!Filter::new(false, true, true, vec!["bread".to_string()]).approves_on(&t, today()));
    assert!(!Filter::new(false, false, false, vec![]).approves_on(&t, today()));
    assert!(!Filter::new(true, true, true, vec![]).approves_on(&t, today()));
}
