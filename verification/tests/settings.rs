use toro::config::{ColumnSelector, Config, GitConfig, UpdatableConfig, ViewConfig};

fn cmdline_columns() -> ColumnSelector {
    ColumnSelector {
        completed: false,
        no_completed: false,
        priority: false,
        no_priority: false,
        completion_date: false,
        no_completion_date: false,
        creation_date: false,
        no_creation_date: false,
    }
}

#[test]
fn columns_are_all_shown_by_default() {
    let c = ColumnSelector::default();
    assert!(c.completed && c.priority && c.completion_date && c.creation_date);
}

#[test]
fn flags_not_given_leave_columns_alone() {
    let mut c = ColumnSelector::default();
    c.update_with_cmdline(&cmdline_columns());
    assert_eq!(c, ColumnSelector::default());
}

#[test]
fn given_flags_override_columns() {
    let mut c = ColumnSelector::default();
    let mut other = cmdline_columns();
    other.no_priority = true;
    other.no_creation_date = true;
    c.update_with_cmdline(&other);
    assert!(c.completed);
    assert!(!c.priority);
    assert!(c.completion_date);
    assert!(!c.creation_date);
    let mut again = cmdline_columns();
    again.priority = true;
    c.update_with_cmdline(&again);
    assert!(c.priority);
}

#[test]
fn git_settings_follow_the_command_line() {
    let mut g = GitConfig::default();
    assert!(!g.auto_commit && !g.auto_sync);
    let other = GitConfig { auto_commit: true, no_auto_commit: false, auto_sync: false, no_auto_sync: false };
    g.update_with_cmdline(&other);
    assert!(g.auto_commit);
    assert!(!g.auto_sync);
    let off = GitConfig { auto_commit: false, no_auto_commit: true, auto_sync: false, no_auto_sync: false };
    g.update_with_cmdline(&off);
    assert!(!g.auto_commit);
}

#[test]
fn a_default_git_config_as_command_line_turns_commits_off() {
    let mut g = GitConfig { auto_commit: true, no_auto_commit: false, auto_sync: true, no_auto_sync: false };
    g.update_with_cmdline(&GitConfig::default());
    assert!(!g.auto_commit);
    assert!(!g.auto_sync);
}

#[test]
fn only_the_calendar_command_comes_from_the_command_line() {
    let mut v = ViewConfig::default();
    v.pretty_dates = true;
    let mut other = ViewConfig::default();
    other.cal_command = Some("cal".to_string());
    other.fzf = true;
    v.update_with_cmdline(&other);
    assert_eq!(v.cal_command, Some("cal".to_string()));
    assert!(v.pretty_dates);
    assert!(!v.fzf);
    v.update_with_cmdline(&ViewConfig::default());
    assert_eq!(v.cal_command, Some("cal".to_string()));
}

#[test]
fn whole_configurations_are_updated() {
    let mut c = Config::default();
    let mut other = Config::default();
    other.columns = cmdline_columns();
    other.columns.no_completed = true;
    other.git = GitConfig { auto_commit: false, no_auto_commit: false, auto_sync: true, no_auto_sync: false };
    c.update_with_cmdline(&other);
    assert!(!c.columns.completed);
    assert!(c.columns.priority);
    assert!(!c.git.auto_commit);
    assert!(c.git.auto_sync);
    assert_eq!(c.view.cal_command, None);
}
