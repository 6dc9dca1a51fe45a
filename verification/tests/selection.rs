use toro::config::ViewConfig;
use toro::error::ToroError;
use toro::interaction::{
    header_line, inc_markdown_headers, match_field, number_label, parse_fzf_output, parse_selection, selection_mode, FieldMatch,
    FieldSelection, SelectionError, SelectionMode,
};

#[test]
fn fields_are_named() {
    assert_eq!(FieldSelection::Completed.to_string(), "completed");
    assert_eq!(FieldSelection::CompletionDate.to_string(), "completion-date");
    assert_eq!(FieldSelection::CreationDate.to_string(), "creation-date");
    assert_eq!(FieldSelection::Description.to_string(), "description");
    assert_eq!(FieldSelection::Due.to_string(), "due");
    assert_eq!(FieldSelection::Priority.to_string(), "priority");
    assert_eq!(FieldSelection::Scheduled.to_string(), "scheduled");
}

#[test]
fn a_unique_prefix_names_a_field() {
    assert_eq!(match_field("p"), FieldMatch::Unique(FieldSelection::Priority));
    assert_eq!(match_field("completi"), FieldMatch::Unique(FieldSelection::CompletionDate));
    assert_eq!(match_field("cr"), FieldMatch::Unique(FieldSelection::CreationDate));
    assert_eq!(match_field("due"), FieldMatch::Unique(FieldSelection::Due));
    assert_eq!(match_field("scheduled"), FieldMatch::Unique(FieldSelection::Scheduled));
}

#[test]
fn a_shared_prefix_is_ambiguous() {
    assert_eq!(match_field("c"), FieldMatch::Ambiguous);
    assert_eq!(match_field("d"), FieldMatch::Ambiguous);
    assert_eq!(match_field(""), FieldMatch::Ambiguous);
}

#[test]
fn an_unknown_field_is_invalid() {
    assert_eq!(match_field("x"), FieldMatch::Invalid);
    assert_eq!(match_field("dues"), FieldMatch::Invalid);
    assert_eq!(match_field("Due"), FieldMatch::Invalid);
}

#[test]
fn numbers_and_ranges_select_items() {
    assert_eq!(parse_selection("1 3-4", 5), Ok(vec![0, 2, 3]));
    assert_eq!(parse_selection("4 1  1", 5), Ok(vec![0, 3]));
    assert_eq!(parse_selection("", 5), Ok(vec![]));
    assert_eq!(parse_selection("3-2", 5), Ok(vec![]));
    assert_eq!(parse_selection("+2", 5), Ok(vec![1]));
    assert_eq!(parse_selection("1-5", 5), Ok(vec![0, 1, 2, 3, 4]));
}

#[test]
fn words_that_are_not_numbers_are_invalid() {
    assert_eq!(parse_selection("a", 5), Err(SelectionError::InvalidInput));
    assert_eq!(parse_selection("1 2-x", 5), Err(SelectionError::InvalidInput));
    assert_eq!(parse_selection("1-2-3", 5), Err(SelectionError::InvalidInput));
    assert_eq!(parse_selection("-3", 5), Err(SelectionError::InvalidInput));
    assert_eq!(parse_selection("1\t2", 5), Err(SelectionError::InvalidInput));
    assert_eq!(parse_selection("9 x", 5), Err(SelectionError::InvalidInput));
}

#[test]
fn numbers_past_the_end_are_out_of_range() {
    assert_eq!(parse_selection("2 7", 5), Err(SelectionError::OutOfRange(6)));
    assert_eq!(parse_selection("4-9 8", 5), Err(SelectionError::OutOfRange(5)));
    assert_eq!(parse_selection("7-9", 5), Err(SelectionError::OutOfRange(6)));
    assert_eq!(parse_selection("0", 5), Err(SelectionError::OutOfRange(usize::MAX)));
    assert_eq!(parse_selection("1", 0), Err(SelectionError::OutOfRange(0)));
}

#[test]
fn the_fuzzy_finder_answer_selects_items() {
    assert_eq!(parse_fzf_output("2:Task two\n0:Task zero\n", 3), Ok(vec![0, 2]));
    assert_eq!(parse_fzf_output("1", 3), Ok(vec![1]));
    assert_eq!(parse_fzf_output("7:gone", 3), Err(ToroError::EofError));
    assert_eq!(parse_fzf_output("", 3), Err(ToroError::EofError));
    assert_eq!(parse_fzf_output("x:bad", 3), Err(ToroError::InvalidFzfResponse));
}

#[test]
fn listing_labels_are_aligned() {
    assert_eq!(number_label(0, 10), " 1:");
    assert_eq!(number_label(9, 10), "10:");
    assert_eq!(number_label(4, 5), "5:");
    assert_eq!(number_label(0, 100), "  1:");
}

#[test]
fn headings_start_with_hashes() {
    assert_eq!(header_line("Tasks", 2), "## Tasks");
    assert_eq!(header_line("Selected tasks:", 1), "# Selected tasks:");
    assert_eq!(header_line("x", 0), " x");
}

#[test]
fn selection_modes() {
    let mut view = ViewConfig::default();
    assert_eq!(selection_mode(&view, 1), SelectionMode::Numbered);
    view.auto_select = true;
    assert_eq!(selection_mode(&view, 1), SelectionMode::Auto);
    assert_eq!(selection_mode(&view, 2), SelectionMode::Numbered);
    view.fzf = true;
    assert_eq!(selection_mode(&view, 2), SelectionMode::Fuzzy);
    assert_eq!(selection_mode(&view, 1), SelectionMode::Auto);
}

#[test]
fn note_headings_go_one_level_deeper() {
    assert_eq!(inc_markdown_headers("# Title\ntext\n## Sub\n"), "## Title\ntext\n### Sub");
    assert_eq!(inc_markdown_headers(""), "");
    assert_eq!(inc_markdown_headers("plain"), "plain");
}
