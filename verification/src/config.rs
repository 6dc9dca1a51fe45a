//! Settings: which columns a task list shows, what happens in git after a
//! change, and how tasks are viewed. Settings from the configuration file are
//! overridden by those given on the command line.
use vstd::prelude::*;

verus! {

/// A key by which tasks are ordered.
#[derive(Clone, Copy, Debug, PartialEq, Eq, Structural)]
pub enum SortBy {
    Description,
    Created,
    Completed,
    Priority,
    Nop,
    Due,
    Scheduled,
}

/// All settings.
#[derive(Debug)]
pub struct Config {
    pub columns: ColumnSelector,
    pub git: GitConfig,
    pub view: ViewConfig,
}

/// Which columns a task list shows. Each column has a flag that shows it and
/// one that hides it; only the first is read, the second tells whether the
/// command line said anything about the column.
#[derive(Clone, Copy, Debug, PartialEq, Eq, Structural)]
pub struct ColumnSelector {
    pub completed: bool,
    pub no_completed: bool,
    pub priority: bool,
    pub no_priority: bool,
    pub completion_date: bool,
    pub no_completion_date: bool,
    pub creation_date: bool,
    pub no_creation_date: bool,
}

/// What happens in the git repository after a change.
#[derive(Clone, Copy, Debug, PartialEq, Eq, Structural)]
pub struct GitConfig {
    pub auto_commit: bool,
    pub no_auto_commit: bool,
    pub auto_sync: bool,
    pub no_auto_sync: bool,
}

/// How tasks are viewed and selected.
#[derive(Debug, Clone)]
pub struct ViewConfig {
    /// A shell command run before tasks are shown.
    pub cal_command: Option<String>,
    /// The keys by which tasks are ordered, the last one first.
    pub sort: Vec<SortBy>,
    /// Write dates relative to today.
    pub pretty_dates: bool,
    /// Select tasks with the fuzzy finder.
    pub fzf: bool,
    /// Select a lone candidate without asking.
    pub auto_select: bool,
}

/// A setting after the command line had its say: the command line's value if
/// it gave the flag or its negation, else the value before.
pub open spec fn overridden(before: bool, on: bool, off: bool) -> bool {
    if on || off { on } else { before }
}

/// Settings that the command line can override.
pub trait UpdatableConfig: Sized {
    fn update_with_cmdline(&mut self, other: &Self);
}

impl UpdatableConfig for ColumnSelector {
    fn update_with_cmdline(&mut self, other: &Self)
        ensures
            *final(self) == (ColumnSelector {
                completed: overridden(old(self).completed, other.completed, other.no_completed),
                priority: overridden(old(self).priority, other.priority, other.no_priority),
                completion_date: overridden(
                    old(self).completion_date,
                    other.completion_date,
                    other.no_completion_date,
                ),
                creation_date: overridden(
                    old(self).creation_date,
                    other.creation_date,
                    other.no_creation_date,
                ),
                ..*old(self)
            }),
    {
        if other.completed || other.no_completed {
            self.completed = other.completed;
        }
        if other.priority || other.no_priority {
            self.priority = other.priority;
        }
        if other.completion_date || other.no_completion_date {
            self.completion_date = other.completion_date;
        }
        if other.creation_date || other.no_creation_date {
            self.creation_date = other.creation_date;
        }
    }
}

impl GitConfig {
    pub fn update_with_cmdline(&mut self, other: &Self)
        ensures
            *final(self) == (GitConfig {
                auto_commit: overridden(old(self).auto_commit, other.auto_commit, other.no_auto_commit),
                auto_sync: overridden(old(self).auto_sync, other.auto_sync, other.no_auto_sync),
                ..*old(self)
            }),
    {
        if other.auto_commit || other.no_auto_commit {
            self.auto_commit = other.auto_commit;
        }
        if other.auto_sync || other.no_auto_sync {
            self.auto_sync = other.auto_sync;
        }
    }
}

/// The calendar command after the command line had its say.
pub open spec fn cal_command_after(before: Option<String>, cmdline: Option<String>) -> Option<Seq<char>> {
    match cmdline {
        Some(c) => Some(c@),
        None => match before {
            Some(c) => Some(c@),
            None => None,
        },
    }
}

pub open spec fn opt_view(o: Option<String>) -> Option<Seq<char>> {
    match o {
        Some(c) => Some(c@),
        None => None,
    }
}

impl ViewConfig {
    /// Only the calendar command is taken from the command line.
    pub fn update_with_cmdline(&mut self, other: &Self)
        ensures
            opt_view(final(self).cal_command) == cal_command_after(old(self).cal_command, other.cal_command),
            final(self).sort@ == old(self).sort@,
            final(self).pretty_dates == old(self).pretty_dates,
            final(self).fzf == old(self).fzf,
            final(self).auto_select == old(self).auto_select,
    {
        match &other.cal_command {
            Some(other_cmd) => {
                self.cal_command = Some(other_cmd.clone());
            },
            None => {},
        }
    }
}

impl UpdatableConfig for Config {
    fn update_with_cmdline(&mut self, other: &Self)
        ensures
            final(self).columns == (ColumnSelector {
                completed: overridden(old(self).columns.completed, other.columns.completed, other.columns.no_completed),
                priority: overridden(old(self).columns.priority, other.columns.priority, other.columns.no_priority),
                completion_date: overridden(
                    old(self).columns.completion_date,
                    other.columns.completion_date,
                    other.columns.no_completion_date,
                ),
                creation_date: overridden(
                    old(self).columns.creation_date,
                    other.columns.creation_date,
                    other.columns.no_creation_date,
                ),
                ..old(self).columns
            }),
            final(self).git == (GitConfig {
                auto_commit: overridden(old(self).git.auto_commit, other.git.auto_commit, other.git.no_auto_commit),
                auto_sync: overridden(old(self).git.auto_sync, other.git.auto_sync, other.git.no_auto_sync),
                ..old(self).git
            }),
            opt_view(final(self).view.cal_command) == cal_command_after(
                old(self).view.cal_command,
                other.view.cal_command,
            ),
            final(self).view.sort@ == old(self).view.sort@,
            final(self).view.pretty_dates == old(self).view.pretty_dates,
            final(self).view.fzf == old(self).view.fzf,
            final(self).view.auto_select == old(self).view.auto_select,
    {
        self.columns.update_with_cmdline(&other.columns);
        self.git.update_with_cmdline(&other.git);
        self.view.update_with_cmdline(&other.view);
    }
}

impl Default for ColumnSelector {
    /// Every column shown.
    fn default() -> (r: Self)
        ensures
            r == (ColumnSelector {
                completed: true,
                no_completed: false,
                priority: true,
                no_priority: false,
                completion_date: true,
                no_completion_date: false,
                creation_date: true,
                no_creation_date: false,
            }),
    {
        ColumnSelector {
            completed: true,
            no_completed: false,
            priority: true,
            no_priority: false,
            completion_date: true,
            no_completion_date: false,
            creation_date: true,
            no_creation_date: false,
        }
    }
}

impl Default for GitConfig {
    /// No automatic commit or sync.
    fn default() -> (r: Self)
        ensures
            r == (GitConfig { auto_commit: false, no_auto_commit: true, auto_sync: false, no_auto_sync: true }),
    {
        GitConfig { auto_commit: false, no_auto_commit: true, auto_sync: false, no_auto_sync: true }
    }
}

impl Default for ViewConfig {
    /// No calendar command, no ordering, plain dates, the built-in selection.
    fn default() -> (r: Self)
        ensures
            r.cal_command is None,
            r.sort@.len() == 0,
            !r.pretty_dates,
            !r.fzf,
            !r.auto_select,
    {
        ViewConfig { cal_command: None, sort: Vec::new(), pretty_dates: false, fzf: false, auto_select: false }
    }
}

impl Default for Config {
    fn default() -> (r: Self)
        ensures
            r.columns == (ColumnSelector {
                completed: true,
                no_completed: false,
                priority: true,
                no_priority: false,
                completion_date: true,
                no_completion_date: false,
                creation_date: true,
                no_creation_date: false,
            }),
            r.git == (GitConfig { auto_commit: false, no_auto_commit: true, auto_sync: false, no_auto_sync: true }),
            r.view.cal_command is None,
            r.view.sort@.len() == 0,
            !r.view.pretty_dates,
            !r.view.fzf,
            !r.view.auto_select,
    {
        Config { columns: ColumnSelector::default(), git: GitConfig::default(), view: ViewConfig::default() }
    }
}

} // verus!
