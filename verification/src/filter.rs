//! Which tasks a command looks at.
use vstd::prelude::*;

use crate::date::{chrono_default, in_range, today, Date};
use crate::error::ToroError;
use crate::text::{chars_of, contains_chars, contains_seq, lowercase, spec_lowercase};
use crate::todotxt::{due_key, meta_day, render, scheduled_key, TaskView, TodoTxtTask};

verus! {

/// A filter on tasks: by completion, by being due or scheduled by today, and
/// by words that the description must contain, whatever their case.
#[derive(Debug, Clone)]
pub struct Filter {
    /// Only tasks due or scheduled today or earlier.
    pub today: bool,
    /// Completed tasks pass.
    pub include_completed: bool,
    /// Pending tasks pass.
    pub include_pending: bool,
    /// Texts that the description must contain.
    pub patterns: Vec<String>,
}

/// A filter as plain values.
pub struct FilterView {
    pub today: bool,
    pub include_completed: bool,
    pub include_pending: bool,
    pub patterns: Seq<Seq<char>>,
}

impl View for Filter {
    type V = FilterView;

    open spec fn view(&self) -> FilterView {
        FilterView {
            today: self.today,
            include_completed: self.include_completed,
            include_pending: self.include_pending,
            patterns: self.patterns@.map_values(|p: String| p@),
        }
    }
}

/// Whether a task with these due and scheduled days counts as due on day `t`:
/// it has one of them, and one it has is not after `t`.
pub open spec fn due_by(due: Option<int>, scheduled: Option<int>, t: int) -> bool {
    match (due, scheduled) {
        (None, None) => false,
        (None, Some(d)) => d <= t,
        (Some(d), None) => d <= t,
        (Some(d0), Some(d1)) => d0 <= t || d1 <= t,
    }
}

/// Whether the filter lets the task pass on day `t`.
pub open spec fn filter_approves(f: FilterView, tv: TaskView, t: int) -> bool {
    &&& (f.include_completed || !tv.completed)
    &&& (f.include_pending || tv.completed)
    &&& (f.today ==> due_by(meta_day(tv, due_key(), t), meta_day(tv, scheduled_key(), t), t))
    &&& forall|i: int|
        0 <= i < f.patterns.len() ==> contains_seq(
            spec_lowercase(render(tv.description)),
            #[trigger] spec_lowercase(f.patterns[i]),
        )
}

impl Filter {
    pub fn new(today: bool, include_completed: bool, include_pending: bool, patterns: Vec<String>) -> (r: Filter)
        ensures
            r.today == today,
            r.include_completed == include_completed,
            r.include_pending == include_pending,
            r.patterns@ == patterns@,
    {
        Filter { today, include_completed, include_pending, patterns }
    }

    /// Whether the task passes, with today being `today`.
    pub fn approves_on(&self, task: &TodoTxtTask, today: Date) -> (r: bool)
        ensures
            r == filter_approves(self@, task@, today@),
    {
        if !self.include_completed && task.completed() {
            return false;
        }
        if !self.include_pending && !task.completed() {
            return false;
        }
        if self.today {
            let due = task.due_day_on(today);
            let scheduled = task.scheduled_day_on(today);
            match (due, scheduled) {
                (None, None) => {
                    return false;
                },
                (None, Some(date)) => {
                    if date.is_after(&today) {
                        return false;
                    }
                },
                (Some(date), None) => {
                    if date.is_after(&today) {
                        return false;
                    }
                },
                (Some(date0), Some(date1)) => {
                    if date0.is_after(&today) && date1.is_after(&today) {
                        return false;
                    }
                },
            }
        }
        let description = task.description();
        let lower = lowercase(description.as_str());
        let hay = chars_of(lower.as_str());
        let mut i: usize = 0;
        while i < self.patterns.len()
            invariant
                i <= self.patterns.len(),
                hay@ == spec_lowercase(render(task@.description)),
                forall|j: int|
                    0 <= j < i ==> contains_seq(
                        spec_lowercase(render(task@.description)),
                        #[trigger] spec_lowercase(self@.patterns[j]),
                    ),
            decreases self.patterns.len() - i,
        {
            let p = lowercase(self.patterns[i].as_str());
            let needle = chars_of(p.as_str());
            assert(self@.patterns[i as int] == self.patterns@[i as int]@);
            if !contains_chars(hay.as_slice(), needle.as_slice()) {
                return false;
            }
            i = i + 1;
        }
        true
    }

    /// Whether the task passes. Only a filter on `today` reads today's date
    /// from the clock; then `ClockError` when the clock gives no date.
    pub fn approves(&self, task: &TodoTxtTask) -> (r: Result<bool, ToroError>)
        ensures
            !self.today ==> forall|t: int| r == Ok::<bool, ToroError>(#[trigger] filter_approves(self@, task@, t)),
            self.today ==> r == Err::<bool, ToroError>(ToroError::ClockError) || exists|t: int|
                in_range(t) && r == Ok::<bool, ToroError>(filter_approves(self@, task@, t)),
    {
        if !self.today {
            let d0 = chrono_default();
            return Ok(self.approves_on(task, d0));
        }
        match today() {
            Some(t) => {
                let r = self.approves_on(task, t);
                assert(in_range(t@));
                Ok(r)
            },
            None => Err(ToroError::ClockError),
        }
    }
}

/// Patterns match whatever their case: filters whose patterns have the same
/// lower-case forms let the same tasks pass.
pub proof fn lemma_patterns_ignore_case(f: FilterView, g: FilterView, tv: TaskView, t: int)
    requires
        f.today == g.today,
        f.include_completed == g.include_completed,
        f.include_pending == g.include_pending,
        f.patterns.len() == g.patterns.len(),
        forall|i: int| 0 <= i < f.patterns.len() ==> spec_lowercase(#[trigger] f.patterns[i]) == spec_lowercase(g.patterns[i]),
    ensures
        filter_approves(f, tv, t) == filter_approves(g, tv, t),
{
    if filter_approves(f, tv, t) {
        assert forall|i: int| 0 <= i < g.patterns.len() implies contains_seq(
            spec_lowercase(render(tv.description)),
            #[trigger] spec_lowercase(g.patterns[i]),
        ) by {
            assert(spec_lowercase(f.patterns[i]) == spec_lowercase(g.patterns[i]));
        }
    }
    if filter_approves(g, tv, t) {
        assert forall|i: int| 0 <= i < f.patterns.len() implies contains_seq(
            spec_lowercase(render(tv.description)),
            #[trigger] spec_lowercase(f.patterns[i]),
        ) by {
            assert(spec_lowercase(f.patterns[i]) == spec_lowercase(g.patterns[i]));
        }
    }
}

/// Restricting a filter lets no more tasks pass: turning `today` on, letting
/// completed or pending tasks no longer pass, or asking for more patterns
/// (every pattern of `f` is one of `g`).
pub proof fn lemma_restricting_admits_no_more(f: FilterView, g: FilterView, tv: TaskView, t: int)
    requires
        f.today ==> g.today,
        g.include_completed ==> f.include_completed,
        g.include_pending ==> f.include_pending,
        forall|i: int| 0 <= i < f.patterns.len() ==> g.patterns.contains(#[trigger] f.patterns[i]),
    ensures
        filter_approves(g, tv, t) ==> filter_approves(f, tv, t),
{
    if filter_approves(g, tv, t) {
        assert forall|i: int| 0 <= i < f.patterns.len() implies contains_seq(
            spec_lowercase(render(tv.description)),
            #[trigger] spec_lowercase(f.patterns[i]),
        ) by {
            assert(g.patterns.contains(f.patterns[i]));
            let j = choose|j: int| 0 <= j < g.patterns.len() && g.patterns[j] == f.patterns[i];
            assert(contains_seq(spec_lowercase(render(tv.description)), spec_lowercase(g.patterns[j])));
        }
    }
}

/// The filter of a command given no flags: any day, pending tasks only, no patterns.
pub open spec fn no_flags() -> FilterView {
    FilterView { today: false, include_completed: false, include_pending: true, patterns: seq![] }
}

/// Given no flags, a command looks at exactly the pending tasks.
pub proof fn lemma_no_flags_pending(tv: TaskView, t: int)
    ensures
        filter_approves(no_flags(), tv, t) == !tv.completed,
{
}

/// The `today` test: with it, a task passes exactly when it passes without
/// it and has a due day or a scheduled day that is not after today (the
/// other day, if any, may be later).
pub proof fn lemma_today_test(f: FilterView, tv: TaskView, t: int)
    ensures
        filter_approves(FilterView { today: true, ..f }, tv, t) == (filter_approves(
            FilterView { today: false, ..f },
            tv,
            t,
        ) && ((meta_day(tv, due_key(), t) matches Some(d) && d <= t) || (meta_day(tv, scheduled_key(), t) matches Some(
            s,
        ) && s <= t))),
{
    let a = FilterView { today: true, ..f };
    let b = FilterView { today: false, ..f };
    assert(a.patterns == b.patterns);
    let pats = forall|i: int|
        0 <= i < f.patterns.len() ==> contains_seq(
            spec_lowercase(render(tv.description)),
            #[trigger] spec_lowercase(f.patterns[i]),
        );
    assert(filter_approves(b, tv, t) == ((f.include_completed || !tv.completed) && (f.include_pending || tv.completed)
        && pats));
    assert(filter_approves(a, tv, t) == ((f.include_completed || !tv.completed) && (f.include_pending || tv.completed)
        && due_by(meta_day(tv, due_key(), t), meta_day(tv, scheduled_key(), t), t) && pats));
}

} // verus!
