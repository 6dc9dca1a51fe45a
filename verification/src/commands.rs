//! The commands: what each is given on the command line, and the decisions
//! they make about tasks. Reading input, running programs and writing files
//! is left to the program that runs them.
use vstd::prelude::*;

use crate::config::Config;
use crate::date::{chrono_date, date_outcome, lemma_plain_reads_back, parse_date_on, spec_ymd, ymd_chars, Date, DateOutcome};
use crate::error::ToroError;
use crate::filter::Filter;
use crate::interaction::{field_name, FieldSelection};
use crate::projects::{task_project, Project};
use crate::text::{append_chars, chars_eq_str, chars_of, nat_digits, string_from_chars, string_from_str, u64_chars};
use crate::todotxt::file::TodoTxtFile;
use crate::todotxt::{
    completed_of, created_of, meta_day, render, creation_cleared, description_tokens, due_key, has_line_break, is_upper, is_upper_char, plain_date,
    remove_meta_tokens, scheduled_key, set_meta_tokens, with_completed_view, with_created_view,
    without_completed_view, first_project, lemma_remove_meta_twice, lemma_set_meta_twice, task_outcome, task_result_matches, TaskFailure, TaskView, TodoTxtTask,
};

verus! {

// ---------------------------------------------------------------------------
// What the commands are given
// ---------------------------------------------------------------------------

/// The command line: one subcommand.
pub struct Args {
    pub subcommand: Subcommand,
}

/// The subcommands.
pub enum Subcommand {
    /// Open the todo.txt file in an editor.
    Edit(EditCommand),
    /// Show the configuration.
    Config(ConfigCommand),
    /// Write shell completions.
    Completions(CompletionsCommand),
    /// Mark tasks as completed (or, undone, as pending).
    Done(DoneCommand),
    /// Set the due date.
    Due(SetCommand),
    /// Run git in the data directory.
    Git(GitCommand),
    /// Set up the data directory.
    Init(InitCommand),
    /// Add a task.
    New(NewCommand),
    /// Edit a project's notes.
    Notes(NotesCommand),
    /// Show projects.
    Project(ProjectCommand),
    /// Set the priority.
    Prioritize(SetCommand),
    /// Read the file and write it back.
    Rewrite(RewriteCommand),
    /// Set the scheduled date.
    Schedule(SetCommand),
    /// Pull, rebase and push the git repository.
    Sync(SyncCommand),
    /// Change a field of tasks.
    Update(UpdateCommand),
    /// List tasks.
    View(ViewCommand),
}

pub struct CompletionsCommand {
    /// Where the completion scripts go.
    pub directory: String,
}

pub struct ConfigCommand {
    pub config: Config,
}

pub struct DoneCommand {
    pub multiple: bool,
    /// Mark as pending instead.
    pub undo: bool,
    pub filter: Filter,
    pub config: Config,
}

pub struct EditCommand {}

pub struct GitCommand {
    pub args: Vec<String>,
    pub config: Config,
}

pub struct InitCommand {
    /// A repository to clone the data directory from.
    pub git: Option<String>,
    /// A directory the data directory is to link to.
    pub symlink: Option<String>,
    pub config: Config,
}

pub struct ListCommand {}

pub struct NewCommand {
    /// The task, as a todo.txt line.
    pub text: String,
    pub config: Config,
}

pub struct NotesCommand {
    /// The project whose notes to edit.
    pub project: Option<String>,
    pub filter: Filter,
    pub config: Config,
}

pub struct PrioritizeCommand {
    /// A capital letter, or `-` for none.
    pub prio: char,
    pub filter: Filter,
    pub config: Config,
}

pub struct ProjectCommand {
    pub args: ProjectArgs,
    pub filter: Filter,
    pub config: Config,
}

/// Which projects to show: one by name, the one of a task, or a list of all.
pub struct ProjectArgs {
    pub project: Option<String>,
    pub task: Option<String>,
    pub list: bool,
}

pub struct RewriteCommand {
    pub config: Config,
}

pub struct SetCommand {
    /// The field to set; given by the subcommand.
    pub field: Option<FieldSelection>,
    /// The value to set, as typed.
    pub value: String,
    pub filter: Filter,
    pub config: Config,
}

pub struct SyncCommand {
    pub config: Config,
}

pub struct UpdateCommand {
    pub filter: Filter,
    pub config: Config,
}

pub struct ViewCommand {
    /// Number every entry.
    pub numbered: bool,
    /// Show the first task at the top.
    pub top_to_bottom: bool,
    pub filter: Filter,
    pub config: Config,
}

impl SetCommand {
    /// The command for the given field.
    pub fn with_field(self, field: FieldSelection) -> (r: Self)
        ensures
            r == (SetCommand { field: Some(field), ..self }),
    {
        let mut s = self;
        s.field = Some(field);
        s
    }
}

// ---------------------------------------------------------------------------
// Values of fields
// ---------------------------------------------------------------------------

/// A value for a field of a task.
pub enum FieldValue {
    Completed(bool),
    Priority(Option<char>),
    CompletionDate(Option<Date>),
    CreationDate(Option<Date>),
    Description(String),
    Due(Option<Date>),
    Scheduled(Option<Date>),
}

/// A value for a field, as plain values.
pub enum FieldValueView {
    Completed(bool),
    Priority(Option<char>),
    CompletionDate(Option<int>),
    CreationDate(Option<int>),
    Description(Seq<char>),
    Due(Option<int>),
    Scheduled(Option<int>),
}

pub open spec fn opt_day(d: Option<Date>) -> Option<int> {
    match d {
        Some(x) => Some(x@),
        None => None,
    }
}

impl View for FieldValue {
    type V = FieldValueView;

    open spec fn view(&self) -> FieldValueView {
        match self {
            FieldValue::Completed(b) => FieldValueView::Completed(*b),
            FieldValue::Priority(p) => FieldValueView::Priority(*p),
            FieldValue::CompletionDate(d) => FieldValueView::CompletionDate(opt_day(*d)),
            FieldValue::CreationDate(d) => FieldValueView::CreationDate(opt_day(*d)),
            FieldValue::Description(s) => FieldValueView::Description(s@),
            FieldValue::Due(d) => FieldValueView::Due(opt_day(*d)),
            FieldValue::Scheduled(d) => FieldValueView::Scheduled(opt_day(*d)),
        }
    }
}

/// A date as typed for a field: `none` for no date, else a date as
/// `parse_date` reads it on day `t`.
pub open spec fn date_value(v: Seq<char>, t: int) -> Option<Option<int>> {
    if v == "none"@ {
        Some(None)
    } else {
        match date_outcome(v, t) {
            DateOutcome::Day(n) => Some(Some(n)),
            _ => None,
        }
    }
}

/// The value that the text `v` gives the field `f` on day `t`, if it is one:
/// `true` or `false` for completion; `none` or a capital letter for the
/// priority; `none` or a date for dates; any text without a line break for
/// the description.
pub open spec fn field_value_of(f: FieldSelection, v: Seq<char>, t: int) -> Option<FieldValueView> {
    match f {
        FieldSelection::Completed => if v == "true"@ {
            Some(FieldValueView::Completed(true))
        } else if v == "false"@ {
            Some(FieldValueView::Completed(false))
        } else {
            None
        },
        FieldSelection::Priority => if v == "none"@ {
            Some(FieldValueView::Priority(None))
        } else if v.len() == 1 && is_upper(v[0]) {
            Some(FieldValueView::Priority(Some(v[0])))
        } else {
            None
        },
        FieldSelection::CompletionDate => match date_value(v, t) {
            Some(d) => Some(FieldValueView::CompletionDate(d)),
            None => None,
        },
        FieldSelection::CreationDate => match date_value(v, t) {
            Some(d) => Some(FieldValueView::CreationDate(d)),
            None => None,
        },
        FieldSelection::Description => if has_line_break(v) {
            None
        } else {
            Some(FieldValueView::Description(v))
        },
        FieldSelection::Due => match date_value(v, t) {
            Some(d) => Some(FieldValueView::Due(d)),
            None => None,
        },
        FieldSelection::Scheduled => match date_value(v, t) {
            Some(d) => Some(FieldValueView::Scheduled(d)),
            None => None,
        },
    }
}

fn read_date_value(value: &str, today: Date) -> (r: Option<Option<Date>>)
    ensures
        match date_value(value@, today@) {
            Some(d) => r matches Some(x) && opt_day(x) == d,
            None => r is None,
        },
{
    let vc = chars_of(value);
    if chars_eq_str(vc.as_slice(), "none") {
        Some(None)
    } else {
        match parse_date_on(value, today) {
            Ok(d) => Some(Some(d)),
            Err(_) => None,
        }
    }
}

/// The value that `value` gives the field, with today being `today`; an
/// invalid value is refused with the text and the field.
pub fn parse_field_value_on(field: FieldSelection, value: &str, today: Date) -> (r: Result<FieldValue, ToroError>)
    ensures
        match field_value_of(field, value@, today@) {
            Some(fv) => r matches Ok(x) && x@ == fv,
            None => r matches Err(ToroError::InvalidValue(m, f)) && m@ == value@ && f == field,
        },
{
    let vc = chars_of(value);
    let invalid = ToroError::InvalidValue(string_from_str(value), field);
    match field {
        FieldSelection::Completed => {
            if chars_eq_str(vc.as_slice(), "true") {
                Ok(FieldValue::Completed(true))
            } else if chars_eq_str(vc.as_slice(), "false") {
                Ok(FieldValue::Completed(false))
            } else {
                Err(invalid)
            }
        },
        FieldSelection::Priority => {
            if chars_eq_str(vc.as_slice(), "none") {
                Ok(FieldValue::Priority(None))
            } else if vc.len() == 1 && is_upper_char(vc[0]) {
                Ok(FieldValue::Priority(Some(vc[0])))
            } else {
                Err(invalid)
            }
        },
        FieldSelection::CompletionDate => match read_date_value(value, today) {
            Some(d) => Ok(FieldValue::CompletionDate(d)),
            None => Err(invalid),
        },
        FieldSelection::CreationDate => match read_date_value(value, today) {
            Some(d) => Ok(FieldValue::CreationDate(d)),
            None => Err(invalid),
        },
        FieldSelection::Description => {
            if has_line_break_chars(vc.as_slice()) {
                Err(invalid)
            } else {
                Ok(FieldValue::Description(string_from_str(value)))
            }
        },
        FieldSelection::Due => match read_date_value(value, today) {
            Some(d) => Ok(FieldValue::Due(d)),
            None => Err(invalid),
        },
        FieldSelection::Scheduled => match read_date_value(value, today) {
            Some(d) => Ok(FieldValue::Scheduled(d)),
            None => Err(invalid),
        },
    }
}

fn has_line_break_chars(s: &[char]) -> (r: bool)
    ensures
        r == has_line_break(s@),
{
    let mut i: usize = 0;
    while i < s.len()
        invariant
            i <= s.len(),
            forall|j: int| 0 <= j < i ==> !crate::todotxt::is_line_break(#[trigger] s@[j]),
        decreases s.len() - i,
    {
        if s[i] == '\n' || s[i] == '\r' {
            assert(crate::todotxt::is_line_break(s@[i as int]));
            return true;
        }
        i = i + 1;
    }
    false
}

/// The task after setting a field to a value on day `t`. A description with a
/// line break is not set.
pub open spec fn applied(tv: TaskView, fv: FieldValueView, t: int) -> TaskView {
    match fv {
        FieldValueView::Completed(b) => if b {
            TaskView { completed: true, dates: with_completed_view(tv.dates, t), ..tv }
        } else {
            TaskView { completed: false, dates: without_completed_view(tv.dates), ..tv }
        },
        FieldValueView::Priority(p) => TaskView { priority: p, ..tv },
        FieldValueView::CompletionDate(d) => TaskView {
            dates: match d {
                Some(n) => with_completed_view(tv.dates, n),
                None => without_completed_view(tv.dates),
            },
            ..tv
        },
        FieldValueView::CreationDate(d) => TaskView {
            dates: match d {
                Some(n) => with_created_view(tv.dates, n),
                None => creation_cleared(tv.dates),
            },
            ..tv
        },
        FieldValueView::Description(s) => if has_line_break(s) {
            tv
        } else {
            TaskView { description: description_tokens(s, t), ..tv }
        },
        FieldValueView::Due(d) => TaskView {
            description: match d {
                Some(n) => set_meta_tokens(tv.description, due_key(), plain_date(n)),
                None => remove_meta_tokens(tv.description, due_key()),
            },
            ..tv
        },
        FieldValueView::Scheduled(d) => TaskView {
            description: match d {
                Some(n) => set_meta_tokens(tv.description, scheduled_key(), plain_date(n)),
                None => remove_meta_tokens(tv.description, scheduled_key()),
            },
            ..tv
        },
    }
}

/// Sets a field of the task to a value, with today being `today`.
pub fn apply_field_value_on(task: &mut TodoTxtTask, value: &FieldValue, today: Date)
    ensures
        final(task)@ == applied(old(task)@, value@, today@),
{
    match value {
        FieldValue::Completed(b) => task.set_completed_on(*b, today),
        FieldValue::Priority(p) => task.set_priority(*p),
        FieldValue::CompletionDate(d) => task.set_completion_date(*d),
        FieldValue::CreationDate(d) => task.set_creation_date(*d),
        FieldValue::Description(s) => {
            let _ = task.set_description_on(s.as_str(), today);
        },
        FieldValue::Due(d) => task.set_due(*d),
        FieldValue::Scheduled(d) => task.set_scheduled(*d),
    }
}

/// No index occurs twice.
pub open spec fn distinct(s: Seq<usize>) -> bool {
    forall|a: int, b: int| 0 <= a < b < s.len() ==> #[trigger] s[a] != #[trigger] s[b]
}

/// Sets a field of the tasks on the given lines to a value, with today being
/// `today`; the other tasks stay as they are.
pub fn set_field_on(file: &mut TodoTxtFile, indices: &[usize], value: &FieldValue, today: Date)
    requires
        forall|k: int| 0 <= k < indices@.len() ==> (#[trigger] indices@[k]) < old(file)@.tasks.len(),
        distinct(indices@),
    ensures
        final(file)@.location == old(file)@.location,
        final(file)@.tasks.len() == old(file)@.tasks.len(),
        forall|i: int|
            0 <= i < old(file)@.tasks.len() ==> (#[trigger] final(file)@.tasks[i]) == (if indices@.contains(
                i as usize,
            ) {
                applied(old(file)@.tasks[i], value@, today@)
            } else {
                old(file)@.tasks[i]
            }),
{
    let ghost start = file@;
    let n = file.len();
    let mut k: usize = 0;
    while k < indices.len()
        invariant
            k <= indices@.len(),
            n == start.tasks.len(),
            forall|j: int| 0 <= j < indices@.len() ==> (#[trigger] indices@[j]) < start.tasks.len(),
            distinct(indices@),
            file@.location == start.location,
            file@.tasks.len() == start.tasks.len(),
            forall|i: int|
                0 <= i < start.tasks.len() ==> (#[trigger] file@.tasks[i]) == (if indices@.take(k as int).contains(
                    i as usize,
                ) {
                    applied(start.tasks[i], value@, today@)
                } else {
                    start.tasks[i]
                }),
        decreases indices@.len() - k,
    {
        let i = indices[k];
        let ghost before = file@.tasks;
        let mut task = file.take_task(i);
        apply_field_value_on(&mut task, value, today);
        file.put_task(i, task);
        proof {
            assert(file@.tasks =~= before.update(i as int, applied(before[i as int], value@, today@)));
            assert(!indices@.take(k as int).contains(i)) by {
                if indices@.take(k as int).contains(i) {
                    let w = choose|w: int| 0 <= w < k && #[trigger] indices@.take(k as int)[w] == i;
                    assert(indices@[w] == indices@[k as int]);
                }
            }
            assert(indices@.take(k + 1) =~= indices@.take(k as int).push(i));
            assert forall|j: int| 0 <= j < start.tasks.len() implies (#[trigger] file@.tasks[j]) == (if indices@.take(
                k + 1,
            ).contains(j as usize) {
                applied(start.tasks[j], value@, today@)
            } else {
                start.tasks[j]
            }) by {
                let x = j as usize;
                assert(indices@.take(k + 1).contains(x) <==> (indices@.take(k as int).contains(x) || x == i)) by {
                    if indices@.take(k + 1).contains(x) {
                        let w = choose|w: int| 0 <= w < k + 1 && #[trigger] indices@.take(k + 1)[w] == x;
                        if w < k {
                            assert(indices@.take(k as int)[w] == x);
                        }
                    }
                    if indices@.take(k as int).contains(x) {
                        let w = choose|w: int| 0 <= w < k && #[trigger] indices@.take(k as int)[w] == x;
                        assert(indices@.take(k + 1)[w] == x);
                    }
                    if x == i {
                        assert(indices@.take(k + 1)[k as int] == x);
                    }
                }
                if j == i as int {
                    assert(before[j] == start.tasks[j]);
                }
            }
        }
        k = k + 1;
    }
    assert(indices@.take(indices@.len() as int) =~= indices@);
}

// ---------------------------------------------------------------------------
// Decisions of single commands
// ---------------------------------------------------------------------------

/// The priority a `prioritize` argument stands for: a capital letter for
/// itself, `-` for none; anything else is refused.
pub fn priority_from_char(prio: char) -> (r: Result<Option<char>, ToroError>)
    ensures
        is_upper(prio) ==> r == Ok::<Option<char>, ToroError>(Some(prio)),
        !is_upper(prio) && prio == '-' ==> r == Ok::<Option<char>, ToroError>(None),
        !is_upper(prio) && prio != '-' ==> r == Err::<Option<char>, ToroError>(ToroError::InvalidPriorityError('A')),
{
    if is_upper_char(prio) {
        Ok(Some(prio))
    } else if prio == '-' {
        Ok(None)
    } else {
        Err(ToroError::InvalidPriorityError('A'))
    }
}

impl DoneCommand {
    /// The value that marking sets: completed, or pending when undoing.
    pub fn value(&self) -> (r: FieldValue)
        ensures
            r@ == FieldValueView::Completed(!self.undo),
    {
        FieldValue::Completed(!self.undo)
    }

    /// The prompt for selecting the tasks.
    pub fn prompt(&self) -> (r: &'static str)
        ensures
            r@ == (if self.undo { "Select tasks to mark as pending"@ } else { "Select tasks to mark as completed"@ }),
    {
        if self.undo {
            "Select tasks to mark as pending"
        } else {
            "Select tasks to mark as completed"
        }
    }

    /// The commit message after marking `n` tasks.
    pub fn commit_message(&self, n: usize) -> (r: String)
        ensures
            r@ == "Marked "@ + nat_digits(n as nat) + " tasks as \""@ + (if self.undo {
                "pending"@
            } else {
                "completed"@
            }) + "\""@,
    {
        let mut v = chars_of("Marked ");
        let d = u64_chars(n as u64);
        append_chars(&mut v, d.as_slice());
        let m = chars_of(" tasks as \"");
        append_chars(&mut v, m.as_slice());
        let st = if self.undo { chars_of("pending") } else { chars_of("completed") };
        append_chars(&mut v, st.as_slice());
        let q = chars_of("\"");
        append_chars(&mut v, q.as_slice());
        string_from_chars(v.as_slice())
    }
}

/// The commit message after updating a field in `n` tasks.
pub fn update_commit_message(field: FieldSelection, n: usize) -> (r: String)
    ensures
        r@ == "Updated "@ + field_name(field) + " in "@ + nat_digits(n as nat) + " task(s)"@,
{
    let mut v = chars_of("Updated ");
    let f = field.to_string();
    let fc = chars_of(f.as_str());
    append_chars(&mut v, fc.as_slice());
    let m = chars_of(" in ");
    append_chars(&mut v, m.as_slice());
    let d = u64_chars(n as u64);
    append_chars(&mut v, d.as_slice());
    let e = chars_of(" task(s)");
    append_chars(&mut v, e.as_slice());
    string_from_chars(v.as_slice())
}

/// The message git records for a change: the text after `[toro] `.
pub fn commit_message(msg: &str) -> (r: String)
    ensures
        r@ == "[toro] "@ + msg@,
{
    let mut v = chars_of("[toro] ");
    let m = chars_of(msg);
    append_chars(&mut v, m.as_slice());
    string_from_chars(v.as_slice())
}

/// The first projects of the tasks on the given lines.
pub open spec fn selected_projects(tasks: Seq<TaskView>, indices: Seq<usize>) -> Seq<Option<Seq<char>>> {
    indices.map_values(|i: usize| task_project(tasks[i as int]))
}

/// `n` is the one project named: some entry names it and no entry names another.
pub open spec fn only_project(ps: Seq<Option<Seq<char>>>, n: Seq<char>) -> bool {
    &&& exists|k: int| 0 <= k < ps.len() && #[trigger] ps[k] == Some(n)
    &&& forall|k: int| 0 <= k < ps.len() ==> (#[trigger] ps[k] matches Some(m) ==> m == n)
}

/// The project whose notes to open for the selected tasks: the one project
/// they name, if they name exactly one (each task by its first project).
pub fn single_project(file: &TodoTxtFile, indices: &[usize]) -> (r: Option<Project>)
    requires
        forall|k: int| 0 <= k < indices@.len() ==> (#[trigger] indices@[k]) < file@.tasks.len(),
    ensures
        match r {
            Some(p) => only_project(selected_projects(file@.tasks, indices@), p@),
            None => forall|n: Seq<char>| !#[trigger] only_project(selected_projects(file@.tasks, indices@), n),
        },
{
    let ghost ps = selected_projects(file@.tasks, indices@);
    let mut found: Option<String> = None;
    let mut k: usize = 0;
    while k < indices.len()
        invariant
            k <= indices@.len(),
            ps == selected_projects(file@.tasks, indices@),
            ps.len() == indices@.len(),
            forall|j: int| 0 <= j < indices@.len() ==> (#[trigger] indices@[j]) < file@.tasks.len(),
            match found {
                Some(s) => (exists|j: int| 0 <= j < k && #[trigger] ps[j] == Some(s@)) && (forall|j: int|
                    0 <= j < k ==> (#[trigger] ps[j] matches Some(m) ==> m == s@)),
                None => forall|j: int| 0 <= j < k ==> (#[trigger] ps[j]) is None,
            },
        decreases indices@.len() - k,
    {
        let idx = indices[k];
        assert(ps[k as int] == task_project(file@.tasks[idx as int]));
        match file.task(idx).project() {
            Some(p) => {
                match &found {
                    Some(s) => {
                        let a = chars_of(s.as_str());
                        let b = chars_of(p.as_str());
                        if !crate::text::chars_eq(a.as_slice(), b.as_slice()) {
                            proof {
                                assert forall|n: Seq<char>| !#[trigger] only_project(ps, n) by {
                                    if only_project(ps, n) {
                                        let w = choose|w: int| 0 <= w < k && #[trigger] ps[w] == Some(s@);
                                        assert(ps[w] matches Some(m) ==> m == n);
                                        assert(ps[k as int] matches Some(m) ==> m == n);
                                    }
                                }
                            }
                            return None;
                        }
                    },
                    None => {
                        found = Some(p);
                    },
                }
            },
            None => {},
        }
        k = k + 1;
    }
    match found {
        Some(s) => {
            Some(Project::from_name(s))
        },
        None => {
            proof {
                assert forall|n: Seq<char>| !#[trigger] only_project(ps, n) by {
                    if only_project(ps, n) {
                        let w = choose|w: int| 0 <= w < ps.len() && #[trigger] ps[w] == Some(n);
                    }
                }
            }
            None
        },
    }
}

impl ProjectArgs {
    /// The project asked for, with today being `today`: the one named, or the
    /// first project of the task given as a todo.txt line; none where neither
    /// is given.
    pub fn chosen_project_on(&self, today: Date) -> (r: Result<Option<Project>, ToroError>)
        ensures
            self.project matches Some(p) ==> r matches Ok(Some(q)) && q@ == crate::projects::project_name(p@),
            self.project is None && self.task is None ==> r matches Ok(None),
            self.project is None && self.task is Some ==> match task_outcome(self.task->0@, today@) {
                Ok(tv) => match first_project(tv.description) {
                    Some(n) => r matches Ok(Some(q)) && q@ == n,
                    None => r matches Err(ToroError::ProjectNotFound),
                },
                Err(f) => r matches Err(e) && task_result_matches(
                    Err(e),
                    Err::<TaskView, TaskFailure>(f),
                    self.task->0@,
                ),
            },
    {
        match &self.project {
            Some(p) => Ok(Some(Project::new(p.as_str()))),
            None => match &self.task {
                Some(t) => {
                    let task = match TodoTxtTask::parse_on(t.as_str(), today) {
                        Ok(task) => task,
                        Err(e) => return Err(e),
                    };
                    match task.project() {
                        Some(name) => Ok(Some(Project::from_name(name))),
                        None => Err(ToroError::ProjectNotFound),
                    }
                },
                None => Ok(None),
            },
        }
    }
}


// ---------------------------------------------------------------------------
// What the update command shows of the tasks before changing them
// ---------------------------------------------------------------------------

/// The value of a field of a task as the update command shows it, with today
/// being `t`: dates as `year-month-day`, and `none` where there is none (a due
/// or scheduled value that is not a date counts as none).
pub open spec fn field_value_text(tv: TaskView, f: FieldSelection, t: int) -> Seq<char> {
    match f {
        FieldSelection::Completed => if tv.completed { "true"@ } else { "false"@ },
        FieldSelection::Priority => match tv.priority {
            Some(p) => seq![p],
            None => "none"@,
        },
        FieldSelection::CompletionDate => match completed_of(tv.dates) {
            Some(n) => plain_date(n),
            None => "none"@,
        },
        FieldSelection::CreationDate => match created_of(tv.dates) {
            Some(n) => plain_date(n),
            None => "none"@,
        },
        FieldSelection::Description => render(tv.description),
        FieldSelection::Due => match meta_day(tv, due_key(), t) {
            Some(n) => plain_date(n),
            None => "none"@,
        },
        FieldSelection::Scheduled => match meta_day(tv, scheduled_key(), t) {
            Some(n) => plain_date(n),
            None => "none"@,
        },
    }
}

fn date_or_none(d: Option<Date>) -> (r: String)
    ensures
        r@ == (match d {
            Some(x) => plain_date(x@),
            None => "none"@,
        }),
{
    match d {
        Some(x) => {
            let v = ymd_chars(x);
            string_from_chars(v.as_slice())
        },
        None => string_from_str("none"),
    }
}

/// The value of a field of the task as the update command shows it, with
/// today being `today`.
pub fn field_value_text_on(task: &TodoTxtTask, field: FieldSelection, today: Date) -> (r: String)
    ensures
        r@ == field_value_text(task@, field, today@),
{
    match field {
        FieldSelection::Completed => {
            if task.completed() {
                string_from_str("true")
            } else {
                string_from_str("false")
            }
        },
        FieldSelection::Priority => match task.priority() {
            Some(p) => {
                let mut v: Vec<char> = Vec::new();
                v.push(p);
                string_from_chars(v.as_slice())
            },
            None => string_from_str("none"),
        },
        FieldSelection::CompletionDate => date_or_none(task.when_completed()),
        FieldSelection::CreationDate => date_or_none(task.when_created()),
        FieldSelection::Description => task.description(),
        FieldSelection::Due => date_or_none(task.due_day_on(today)),
        FieldSelection::Scheduled => date_or_none(task.scheduled_day_on(today)),
    }
}

/// How many bytes UTF-8 takes for a character.
pub open spec fn char_width(c: char) -> int {
    let v = c as u32;
    if v < 0x80 {
        1
    } else if v < 0x800 {
        2
    } else if v < 0x10000 {
        3
    } else {
        4
    }
}

/// How many bytes UTF-8 takes for a text (`str::len`).
pub open spec fn utf8_len(s: Seq<char>) -> int
    decreases s.len(),
{
    if s.len() == 0 {
        0
    } else {
        utf8_len(s.drop_last()) + char_width(s.last())
    }
}

/// Byte `b` of the text starts a character (`str::is_char_boundary`).
pub open spec fn char_boundary(s: Seq<char>, b: int) -> bool {
    exists|k: int| 0 <= k <= s.len() && #[trigger] utf8_len(s.take(k)) == b
}

pub(crate) fn char_width_exec(c: char) -> (r: usize)
    ensures
        r == char_width(c),
{
    let v = c as u32;
    if v < 0x80 {
        1
    } else if v < 0x800 {
        2
    } else if v < 0x10000 {
        3
    } else {
        4
    }
}

pub(crate) proof fn lemma_utf8_len_take(s: Seq<char>, k: int)
    requires
        0 <= k < s.len(),
    ensures
        utf8_len(s.take(k + 1)) == utf8_len(s.take(k)) + char_width(s[k]),
        utf8_len(s.take(k + 1)) > utf8_len(s.take(k)),
{
    assert(s.take(k + 1).drop_last() =~= s.take(k));
}

pub(crate) proof fn lemma_utf8_len_mono(s: Seq<char>, j: int, k: int)
    requires
        0 <= j <= k <= s.len(),
    ensures
        utf8_len(s.take(j)) <= utf8_len(s.take(k)),
        j < k ==> utf8_len(s.take(j)) < utf8_len(s.take(k)),
    decreases k - j,
{
    if j < k {
        lemma_utf8_len_mono(s, j, k - 1);
        lemma_utf8_len_take(s, k - 1);
    }
}

/// A summary as the update command shows it: one longer than 68 bytes is
/// cut after its first 65 bytes, and `...` is added.
pub fn shorten_summary(s: &str) -> (r: String)
    requires
        utf8_len(s@) > 68 ==> char_boundary(s@, 65),
    ensures
        utf8_len(s@) <= 68 ==> r@ == s@,
        utf8_len(s@) > 68 ==> exists|k: int|
            0 <= k <= s@.len() && utf8_len(s@.take(k)) == 65 && r@ == s@.take(k) + "..."@,
{
    let cs = chars_of(s);
    let mut acc: usize = 0;
    let mut i: usize = 0;
    assert(cs@.take(0) =~= Seq::<char>::empty());
    while i < cs.len() && acc <= 68
        invariant
            i <= cs@.len(),
            cs@ == s@,
            acc == utf8_len(cs@.take(i as int)),
            acc <= 72,
        decreases cs@.len() - i,
    {
        proof {
            lemma_utf8_len_take(cs@, i as int);
        }
        acc = acc + char_width_exec(cs[i]);
        i = i + 1;
    }
    if acc <= 68 {
        assert(i == cs@.len());
        assert(cs@.take(i as int) =~= cs@);
        return string_from_str(s);
    }
    proof {
        lemma_utf8_len_mono(cs@, i as int, cs@.len() as int);
        assert(cs@.take(cs@.len() as int) =~= cs@);
    }
    let ghost k0 = choose|k: int| 0 <= k <= s@.len() && #[trigger] utf8_len(s@.take(k)) == 65;
    let mut j: usize = 0;
    let mut b: usize = 0;
    while b < 65
        invariant
            j <= cs@.len(),
            cs@ == s@,
            0 <= k0 <= s@.len(),
            utf8_len(s@.take(k0)) == 65,
            b == utf8_len(cs@.take(j as int)),
            b <= 65,
            j <= k0,
        decreases k0 - j,
    {
        proof {
            if j == k0 {
                assert(false);
            }
            lemma_utf8_len_take(cs@, j as int);
            lemma_utf8_len_mono(cs@, j + 1, k0);
        }
        b = b + char_width_exec(cs[j]);
        j = j + 1;
    }
    let mut v = crate::text::slice_range(cs.as_slice(), 0, j);
    let dots = chars_of("...");
    append_chars(&mut v, dots.as_slice());
    assert(cs@.subrange(0, j as int) =~= cs@.take(j as int));
    string_from_chars(v.as_slice())
}

/// Marking a pending task that has a creation date as done, and then as
/// pending again, gives the task back.
pub proof fn lemma_done_then_undone(tv: TaskView, t: int)
    requires
        !tv.completed,
        tv.dates is Created,
    ensures
        applied(applied(tv, FieldValueView::Completed(true), t), FieldValueView::Completed(false), t) == tv,
{
}

/// Setting a field to a value twice is setting it once.
pub proof fn lemma_set_twice_is_once(tv: TaskView, fv: FieldValueView, t: int)
    ensures
        applied(applied(tv, fv, t), fv, t) == applied(tv, fv, t),
{
    match fv {
        FieldValueView::Due(Some(n)) => lemma_set_meta_twice(tv.description, due_key(), plain_date(n)),
        FieldValueView::Due(None) => lemma_remove_meta_twice(tv.description, due_key()),
        FieldValueView::Scheduled(Some(n)) => lemma_set_meta_twice(tv.description, scheduled_key(), plain_date(n)),
        FieldValueView::Scheduled(None) => lemma_remove_meta_twice(tv.description, scheduled_key()),
        _ => {},
    }
}

/// What happened in a round of the update command.
pub enum UpdateEvent {
    /// This many tasks were selected.
    Selected(usize),
    /// An answer for the new value of the field.
    Answer(FieldSelection, String),
    /// The selected tasks were changed and stored; whether the lone candidate
    /// had been taken without asking.
    Stored(bool),
    /// Input ended (when selecting, choosing the field or answering).
    Eof,
}

/// What the update command does next.
pub enum UpdateAction {
    /// End the command.
    Stop,
    /// Begin a round: select tasks.
    SelectTasks,
    /// Go on with the selected tasks: choose a field and ask for its value.
    AskField,
    /// Report the error and ask for the value again.
    AskAgain(ToroError),
    /// Set the field of the selected tasks to the value and store the file.
    Apply(FieldValue),
}

/// The update command's next step after `event`, with today being `today`:
/// the end of input stops it; no selected task starts a new round; an answer
/// that is no value of the field is reported and asked again; a round whose
/// task was taken without asking is the last.
pub fn update_step(event: UpdateEvent, today: Date) -> (r: UpdateAction)
    ensures
        event is Eof ==> r is Stop,
        event matches UpdateEvent::Selected(n) ==> (if n == 0 { r is SelectTasks } else { r is AskField }),
        event matches UpdateEvent::Stored(auto) ==> (if auto { r is Stop } else { r is SelectTasks }),
        event matches UpdateEvent::Answer(field, a) ==> match field_value_of(field, a@, today@) {
            Some(fv) => r matches UpdateAction::Apply(x) && x@ == fv,
            None => r matches UpdateAction::AskAgain(ToroError::InvalidValue(m, f)) && m@ == a@ && f == field,
        },
{
    match event {
        UpdateEvent::Selected(n) => if n == 0 {
            UpdateAction::SelectTasks
        } else {
            UpdateAction::AskField
        },
        UpdateEvent::Answer(field, a) => match parse_field_value_on(field, a.as_str(), today) {
            Ok(v) => UpdateAction::Apply(v),
            Err(e) => UpdateAction::AskAgain(e),
        },
        UpdateEvent::Stored(auto) => if auto {
            UpdateAction::Stop
        } else {
            UpdateAction::SelectTasks
        },
        UpdateEvent::Eof => UpdateAction::Stop,
    }
}

/// The value a field of a task has.
pub open spec fn current_value(tv: TaskView, f: FieldSelection, t: int) -> FieldValueView {
    match f {
        FieldSelection::Completed => FieldValueView::Completed(tv.completed),
        FieldSelection::Priority => FieldValueView::Priority(tv.priority),
        FieldSelection::CompletionDate => FieldValueView::CompletionDate(completed_of(tv.dates)),
        FieldSelection::CreationDate => FieldValueView::CreationDate(created_of(tv.dates)),
        FieldSelection::Description => FieldValueView::Description(render(tv.description)),
        FieldSelection::Due => FieldValueView::Due(meta_day(tv, due_key(), t)),
        FieldSelection::Scheduled => FieldValueView::Scheduled(meta_day(tv, scheduled_key(), t)),
    }
}

/// The day a date field of a task holds, if it holds one.
pub open spec fn field_day(tv: TaskView, f: FieldSelection, t: int) -> Option<int> {
    match f {
        FieldSelection::CompletionDate => completed_of(tv.dates),
        FieldSelection::CreationDate => created_of(tv.dates),
        FieldSelection::Due => meta_day(tv, due_key(), t),
        FieldSelection::Scheduled => meta_day(tv, scheduled_key(), t),
        _ => None,
    }
}

/// The update command offers a field's value as the answer to edit: taken as
/// it is, that answer gives the field the value it has. This holds for a
/// priority that is a capital letter, a description without line breaks and
/// dates from year 0 on.
pub proof fn lemma_offered_value_reads_back(tv: TaskView, f: FieldSelection, t: int)
    requires
        tv.priority matches Some(p) ==> is_upper(p),
        f == FieldSelection::Description ==> !has_line_break(render(tv.description)),
        field_day(tv, f, t) matches Some(n) ==> chrono_date(n) && spec_ymd(n).0 >= 0,
    ensures
        field_value_of(f, field_value_text(tv, f, t), t) == Some(current_value(tv, f, t)),
{
    reveal_strlit("true");
    reveal_strlit("false");
    reveal_strlit("none");
    let text = field_value_text(tv, f, t);
    match field_day(tv, f, t) {
        Some(n) => {
            lemma_plain_reads_back(n, t);
            assert(plain_date(n).len() >= 10);
            assert(plain_date(n) != "none"@);
        },
        None => {},
    }
    match f {
        FieldSelection::Priority => {
            if tv.priority is Some {
                assert(text.len() == 1);
                assert(text != "none"@);
            }
        },
        _ => {},
    }
}

/// Updating one date field of a task leaves the other: a new creation date
/// keeps the completion date, a new completion date keeps the creation date
/// of a dated task, and the completion mark and the rest stay as they are.
pub proof fn lemma_update_one_date(tv: TaskView, n: int, t: int)
    ensures
        created_of(applied(tv, FieldValueView::CreationDate(Some(n)), t).dates) == Some(n),
        completed_of(applied(tv, FieldValueView::CreationDate(Some(n)), t).dates) == completed_of(tv.dates),
        applied(tv, FieldValueView::CreationDate(Some(n)), t).completed == tv.completed,
        applied(tv, FieldValueView::CreationDate(Some(n)), t).description == tv.description,
        completed_of(applied(tv, FieldValueView::CompletionDate(Some(n)), t).dates) == Some(n),
        created_of(tv.dates) is Some ==> created_of(applied(tv, FieldValueView::CompletionDate(Some(n)), t).dates)
            == created_of(tv.dates),
        applied(tv, FieldValueView::CompletionDate(Some(n)), t).completed == tv.completed,
{
    crate::todotxt::lemma_date_fields_apart(tv.dates, n);
}

} // verus!
