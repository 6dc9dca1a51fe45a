//! A todo.txt file: where it lives and its tasks, one per line.
use vstd::prelude::*;

use crate::config::{SortBy, ViewConfig};
use crate::date::{chrono_default, day_number, in_range, lemma_day_number_of, max_day_number, today, Date};
use crate::filter::{filter_approves, Filter, FilterView};
use crate::error::ToroError;
use crate::text::{append_chars, chars_of, slice_range, string_from_chars, string_from_str};
use crate::todotxt::{
    created_of, due_key, is_upper, has_line_break, is_line_break, meta_day, parse_chars, render, scheduled_key, task_ok, task_outcome, task_result_matches,
    task_text, lemma_line_any_day, line_relative, line_relative_exec, lemma_task_reads_back, lemma_task_reads_back_any_day, stays_unread, TaskFailure, TaskView, TodoTxtTask,
};

verus! {

// ---------------------------------------------------------------------------
// Lines
// ---------------------------------------------------------------------------

/// A line without the carriage return that ends it, if it ends with one.
pub open spec fn strip_cr(l: Seq<char>) -> Seq<char> {
    if l.len() > 0 && l.last() == '\r' {
        l.drop_last()
    } else {
        l
    }
}

/// The lines of `s` from the line that starts at `start`, having looked
/// through `s` up to `i`: split at each `\n`, with a `\r` before it dropped,
/// and no empty line after a final `\n` (as `str::lines` gives them).
pub open spec fn lines_acc(s: Seq<char>, start: int, i: int) -> Seq<Seq<char>>
    decreases s.len() - i,
{
    if i >= s.len() {
        if start < s.len() {
            seq![s.subrange(start, s.len() as int)]
        } else {
            seq![]
        }
    } else if s[i] == '\n' {
        seq![strip_cr(s.subrange(start, i))] + lines_acc(s, i + 1, i + 1)
    } else {
        lines_acc(s, start, i + 1)
    }
}

/// The lines of a text.
pub open spec fn text_lines(s: Seq<char>) -> Seq<Seq<char>> {
    lines_acc(s, 0, 0)
}

/// Lines joined with `\n` between them.
pub open spec fn join_lines(ls: Seq<Seq<char>>) -> Seq<char>
    decreases ls.len(),
{
    if ls.len() == 0 {
        seq![]
    } else if ls.len() == 1 {
        ls[0]
    } else {
        ls[0] + seq!['\n'] + join_lines(ls.drop_first())
    }
}

pub proof fn lemma_join_push(ls: Seq<Seq<char>>, l: Seq<char>)
    requires
        ls.len() >= 1,
    ensures
        join_lines(ls.push(l)) == join_lines(ls) + seq!['\n'] + l,
    decreases ls.len(),
{
    let lp = ls.push(l);
    assert(lp[0] == ls[0]);
    if ls.len() == 1 {
        assert(lp.drop_first() =~= seq![l]);
        assert(join_lines(seq![l]) == l);
        assert(join_lines(lp) == ls[0] + seq!['\n'] + l);
        assert(join_lines(ls) == ls[0]);
    } else {
        assert(lp.drop_first() =~= ls.drop_first().push(l));
        lemma_join_push(ls.drop_first(), l);
        assert(join_lines(lp) == ls[0] + seq!['\n'] + join_lines(lp.drop_first()));
        assert(join_lines(ls) == ls[0] + seq!['\n'] + join_lines(ls.drop_first()));
        assert(join_lines(lp) =~= join_lines(ls) + seq!['\n'] + l);
    }
}

proof fn lemma_lines_skip(s: Seq<char>, start: int, i: int, k: int)
    requires
        0 <= i <= k <= s.len(),
        forall|j: int| i <= j < k ==> s[j] != '\n',
    ensures
        lines_acc(s, start, i) == lines_acc(s, start, k),
    decreases k - i,
{
    if i < k {
        lemma_lines_skip(s, start, i + 1, k);
    }
}

/// A line that a text can hold and `str::lines` gives back as it is.
pub open spec fn plain_line(l: Seq<char>) -> bool {
    l.len() > 0 && !has_line_break(l)
}

proof fn lemma_lines_join_from(s: Seq<char>, start: int, ls: Seq<Seq<char>>)
    requires
        0 <= start <= s.len(),
        s.subrange(start, s.len() as int) == join_lines(ls),
        forall|k: int| 0 <= k < ls.len() ==> plain_line(#[trigger] ls[k]),
    ensures
        lines_acc(s, start, start) == ls,
    decreases ls.len(),
{
    let w = s.subrange(start, s.len() as int);
    if ls.len() == 0 {
        assert(w.len() == 0);
    } else {
        let a = ls[0];
        assert(plain_line(a));
        let k = start + a.len();
        if ls.len() == 1 {
            assert(w == a);
            lemma_whole_line(s, start, a);
            lemma_no_newline(s, start, a);
            lemma_lines_skip(s, start, start, s.len() as int);
            assert(lines_acc(s, start, start) =~= ls);
        } else {
            let rest = ls.drop_first();
            assert(w == a + seq!['\n'] + join_lines(rest));
            lemma_line_then_rest(s, start, a, join_lines(rest));
            lemma_no_newline(s, start, a);
            lemma_lines_skip(s, start, start, k);
            assert(!is_line_break(a.last()));
            assert(strip_cr(a) == a);
            assert forall|m: int| 0 <= m < rest.len() implies plain_line(#[trigger] rest[m]) by {
                assert(rest[m] == ls[m + 1]);
            }
            lemma_lines_join_from(s, k + 1, rest);
            assert(lines_acc(s, start, start) =~= seq![a] + rest);
            assert(seq![a] + rest =~= ls);
        }
    }
}

proof fn lemma_no_newline(s: Seq<char>, start: int, a: Seq<char>)
    requires
        0 <= start,
        start + a.len() <= s.len(),
        s.subrange(start, start + a.len()) == a,
        !has_line_break(a),
    ensures
        forall|j: int| start <= j < start + a.len() ==> s[j] != '\n',
{
    assert forall|j: int| start <= j < start + a.len() implies s[j] != '\n' by {
        assert(s[j] == s.subrange(start, start + a.len())[j - start]);
        assert(!is_line_break(a[j - start]));
    }
}

proof fn lemma_line_then_rest(s: Seq<char>, start: int, a: Seq<char>, rest: Seq<char>)
    requires
        0 <= start <= s.len(),
        s.subrange(start, s.len() as int) == a + seq!['\n'] + rest,
    ensures
        start + a.len() < s.len(),
        s.subrange(start, start + a.len()) == a,
        s[start + a.len()] == '\n',
        s.subrange(start + a.len() + 1, s.len() as int) == rest,
{
    let w = s.subrange(start, s.len() as int);
    let k = start + a.len();
    assert(w.len() == a.len() + 1 + rest.len());
    assert(w[a.len() as int] == '\n');
    assert(s.subrange(start, k) =~= w.subrange(0, a.len() as int));
    assert(w.subrange(0, a.len() as int) =~= a);
    assert(s.subrange(k + 1, s.len() as int) =~= w.subrange(a.len() as int + 1, w.len() as int));
    assert(w.subrange(a.len() as int + 1, w.len() as int) =~= rest);
}

proof fn lemma_whole_line(s: Seq<char>, start: int, a: Seq<char>)
    requires
        0 <= start <= s.len(),
        s.subrange(start, s.len() as int) == a,
    ensures
        start + a.len() == s.len(),
        s.subrange(start, start + a.len()) == a,
{
}

/// Lines that are not empty and hold no line break, joined with `\n`, are
/// the lines of the text.
pub proof fn lemma_lines_of_join(ls: Seq<Seq<char>>)
    requires
        forall|k: int| 0 <= k < ls.len() ==> plain_line(#[trigger] ls[k]),
    ensures
        text_lines(join_lines(ls)) == ls,
{
    let s = join_lines(ls);
    assert(s.subrange(0, s.len() as int) =~= s);
    lemma_lines_join_from(s, 0, ls);
}

/// The lines of a text (`str::lines`).
pub fn split_lines(s: &[char]) -> (r: Vec<Vec<char>>)
    ensures
        r@.map_values(|l: Vec<char>| l@) == text_lines(s@),
{
    let mut out: Vec<Vec<char>> = Vec::new();
    let mut start: usize = 0;
    let mut i: usize = 0;
    while i < s.len()
        invariant
            start <= i <= s.len(),
            out@.map_values(|l: Vec<char>| l@) + lines_acc(s@, start as int, i as int) == text_lines(s@),
        decreases s.len() - i,
    {
        if s[i] == '\n' {
            let end: usize = if i > start && s[i - 1] == '\r' { i - 1 } else { i };
            let line = slice_range(s, start, end);
            assert(line@ == strip_cr(s@.subrange(start as int, i as int)));
            let ghost before = out@.map_values(|l: Vec<char>| l@);
            out.push(line);
            assert(out@.map_values(|l: Vec<char>| l@) =~= before.push(line@));
            assert(before.push(line@) + lines_acc(s@, i + 1, i + 1) =~= before + (seq![line@]
                + lines_acc(s@, i + 1, i + 1)));
            start = i + 1;
        }
        i = i + 1;
    }
    let ghost before = out@.map_values(|l: Vec<char>| l@);
    if start < s.len() {
        let line = slice_range(s, start, s.len());
        out.push(line);
        assert(out@.map_values(|l: Vec<char>| l@) =~= before.push(line@));
        assert(before.push(line@) =~= before + seq![line@]);
    } else {
        assert(before + lines_acc(s@, start as int, i as int) =~= before);
    }
    out
}

// ---------------------------------------------------------------------------
// The file
// ---------------------------------------------------------------------------

/// A todo.txt file: where it is stored and its tasks, in the order of its lines.
#[derive(Debug)]
pub struct TodoTxtFile {
    location: String,
    tasks: Vec<TodoTxtTask>,
}

/// A file as plain values.
pub struct FileView {
    pub location: Seq<char>,
    pub tasks: Seq<TaskView>,
}

impl View for TodoTxtFile {
    type V = FileView;

    closed spec fn view(&self) -> FileView {
        FileView { location: self.location@, tasks: self.tasks@.map_values(|t: TodoTxtTask| t@) }
    }
}

/// The text of a file: its tasks' lines joined with `\n`.
pub open spec fn file_text(tasks: Seq<TaskView>) -> Seq<char> {
    join_lines(tasks.map_values(|t: TaskView| task_text(t)))
}

/// Whether `r` is what reading the lines `ls` of a file at `location` ends
/// with when today is `t`: all its tasks when every line reads as a task,
/// else the error of the first line that does not.
pub open spec fn file_result_matches(
    r: Result<TodoTxtFile, ToroError>,
    location: Seq<char>,
    ls: Seq<Seq<char>>,
    t: int,
) -> bool {
    match r {
        Ok(f) => {
            &&& f@.location == location
            &&& f@.tasks.len() == ls.len()
            &&& forall|k: int|
                0 <= k < ls.len() ==> task_outcome(#[trigger] ls[k], t) == Ok::<TaskView, TaskFailure>(
                    f@.tasks[k],
                )
        },
        Err(e) => exists|k: int|
            0 <= k < ls.len() && (forall|j: int| 0 <= j < k ==> (#[trigger] task_outcome(ls[j], t)) is Ok)
                && task_result_matches(Err(e), task_outcome(ls[k], t), ls[k]),
    }
}

/// Some line of the file has a due or scheduled date relative to today.
pub open spec fn file_relative(ls: Seq<Seq<char>>) -> bool {
    exists|k: int| 0 <= k < ls.len() && line_relative(#[trigger] ls[k])
}

/// Without relative due or scheduled dates in its lines, reading a file
/// ends the same way whatever day today is.
pub proof fn lemma_file_any_day(r: Result<TodoTxtFile, ToroError>, location: Seq<char>, ls: Seq<Seq<char>>, t0: int)
    requires
        forall|k: int| 0 <= k < ls.len() ==> !line_relative(#[trigger] ls[k]),
        file_result_matches(r, location, ls, t0),
    ensures
        forall|t: int| file_result_matches(r, location, ls, t),
{
    assert forall|t: int| file_result_matches(r, location, ls, t) by {
        assert forall|k: int| 0 <= k < ls.len() implies task_outcome(#[trigger] ls[k], t) == task_outcome(ls[k], t0) by {
            lemma_line_any_day(ls[k], t, t0);
        }
        match r {
            Ok(f) => {},
            Err(e) => {
                let k = choose|k: int|
                    0 <= k < ls.len() && (forall|j: int| 0 <= j < k ==> (#[trigger] task_outcome(ls[j], t0)) is Ok)
                        && task_result_matches(Err(e), task_outcome(ls[k], t0), ls[k]);
                assert forall|j: int| 0 <= j < k implies (#[trigger] task_outcome(ls[j], t)) is Ok by {
                    assert(task_outcome(ls[j], t) == task_outcome(ls[j], t0));
                }
                assert(task_outcome(ls[k], t) == task_outcome(ls[k], t0));
            },
        }
    }
}

/// Line `l` reads, on day `t`, as the task `tv`, which is well formed.
#[verifier::opaque]
spec fn line_read(l: Seq<char>, t: int, tv: TaskView) -> bool {
    task_outcome(l, t) == Ok::<TaskView, TaskFailure>(tv) && task_ok(tv, t)
}

/// Line `l` does not read on day `t`, with the error `e`.
#[verifier::opaque]
spec fn line_failed(l: Seq<char>, t: int, e: ToroError) -> bool {
    task_result_matches(Err(e), task_outcome(l, t), l)
}

fn read_line(line: &[char], today: Date) -> (r: Result<TodoTxtTask, ToroError>)
    ensures
        r matches Ok(task) ==> line_read(line@, today@, task@),
        r matches Err(e) ==> line_failed(line@, today@, e),
{
    let r = parse_chars(line, today);
    proof {
        reveal(line_read);
        reveal(line_failed);
    }
    r
}

proof fn lemma_first_failure(location: Seq<char>, ls: Seq<Seq<char>>, tvs: Seq<TaskView>, t: int, i: int, e: ToroError)
    requires
        0 <= i < ls.len(),
        i <= tvs.len(),
        forall|k: int| 0 <= k < i ==> line_read(#[trigger] ls[k], t, tvs[k]),
        line_failed(ls[i], t, e),
    ensures
        file_result_matches(Err(e), location, ls, t),
{
    reveal(line_read);
    reveal(line_failed);
    assert forall|j: int| 0 <= j < i implies (#[trigger] task_outcome(ls[j], t)) is Ok by {
        assert(line_read(ls[j], t, tvs[j]));
    }
}

proof fn lemma_all_read(ls: Seq<Seq<char>>, tvs: Seq<TaskView>, t: int)
    requires
        tvs.len() == ls.len(),
        forall|k: int| 0 <= k < ls.len() ==> line_read(#[trigger] ls[k], t, tvs[k]),
    ensures
        forall|k: int| 0 <= k < ls.len() ==> task_outcome(#[trigger] ls[k], t) == Ok::<TaskView, TaskFailure>(tvs[k]),
        forall|k: int| 0 <= k < tvs.len() ==> task_ok(#[trigger] tvs[k], t),
{
    reveal(line_read);
    assert forall|k: int| 0 <= k < ls.len() implies task_outcome(#[trigger] ls[k], t) == Ok::<TaskView, TaskFailure>(tvs[k]) by {
        assert(line_read(ls[k], t, tvs[k]));
    }
    assert forall|k: int| 0 <= k < tvs.len() implies task_ok(#[trigger] tvs[k], t) by {
        assert(line_read(ls[k], t, tvs[k]));
    }
}

impl TodoTxtFile {
    /// An empty file at `path`.
    pub fn new(path: &str) -> (r: TodoTxtFile)
        ensures
            r@.location == path@,
            r@.tasks.len() == 0,
    {
        let f = TodoTxtFile { location: string_from_str(path), tasks: Vec::new() };
        assert(f@.tasks =~= Seq::<TaskView>::empty());
        f
    }

    /// The file at `location` whose text is `content`, each line read as a
    /// task with today being `today`.
    pub fn from_content_on(location: &str, content: &str, today: Date) -> (r: Result<TodoTxtFile, ToroError>)
        ensures
            file_result_matches(r, location@, text_lines(content@), today@),
            r matches Ok(f) ==> forall|k: int| 0 <= k < f@.tasks.len() ==> task_ok(#[trigger] f@.tasks[k], today@),
    {
        let cs = chars_of(content);
        let lines = split_lines(cs.as_slice());
        let ghost ls = text_lines(content@);
        assert(lines@.map_values(|l: Vec<char>| l@) == ls);
        assert(lines@.len() == ls.len());
        assert forall|k: int| 0 <= k < ls.len() implies (#[trigger] lines@[k])@ == ls[k] by {
            assert(lines@.map_values(|l: Vec<char>| l@)[k] == lines@[k]@);
        }
        let mut tasks: Vec<TodoTxtTask> = Vec::new();
        let mut i: usize = 0;
        while i < lines.len()
            invariant
                i <= lines.len(),
                ls == text_lines(content@),
                lines@.len() == ls.len(),
                forall|k: int| 0 <= k < ls.len() ==> (#[trigger] lines@[k])@ == ls[k],
                tasks@.len() == i,
                forall|k: int| 0 <= k < i ==> line_read(#[trigger] ls[k], today@, tasks@[k]@),
            decreases lines.len() - i,
        {
            assert(lines@[i as int]@ == ls[i as int]);
            match read_line(lines[i].as_slice(), today) {
                Ok(t) => {
                    tasks.push(t);
                },
                Err(e) => {
                    proof {
                        lemma_first_failure(location@, ls, tasks@.map_values(|x: TodoTxtTask| x@), today@, i as int, e);
                    }
                    return Err(e);
                },
            }
            i = i + 1;
        }
        let f = TodoTxtFile { location: string_from_str(location), tasks };
        proof {
            lemma_all_read(ls, f@.tasks, today@);
        }
        Ok(f)
    }

    /// The file at `location` whose text is `content`. Only a file with a
    /// relative due or scheduled date reads today's date from the clock; then
    /// `ClockError` when the clock gives no date.
    pub fn from_content(location: &str, content: &str) -> (r: Result<TodoTxtFile, ToroError>)
        ensures
            !file_relative(text_lines(content@)) ==> forall|t: int|
                file_result_matches(r, location@, text_lines(content@), t),
            file_relative(text_lines(content@)) ==> r == Err::<TodoTxtFile, ToroError>(ToroError::ClockError)
                || exists|t: int| in_range(t) && file_result_matches(r, location@, text_lines(content@), t),
    {
        let cs = chars_of(content);
        let lines = split_lines(cs.as_slice());
        let ghost ls = text_lines(content@);
        assert(lines@.map_values(|l: Vec<char>| l@) == ls);
        let mut any = false;
        let mut k: usize = 0;
        while k < lines.len()
            invariant
                k <= lines@.len(),
                lines@.map_values(|l: Vec<char>| l@) == ls,
                any == exists|j: int| 0 <= j < k && line_relative(#[trigger] ls[j]),
            decreases lines@.len() - k,
        {
            assert(lines@.map_values(|l: Vec<char>| l@)[k as int] == lines@[k as int]@);
            let rel = line_relative_exec(lines[k].as_slice());
            proof {
                if rel {
                    assert(line_relative(ls[k as int]));
                }
                if (exists|j: int| 0 <= j < k + 1 && line_relative(#[trigger] ls[j])) && !rel {
                    let j = choose|j: int| 0 <= j < k + 1 && line_relative(#[trigger] ls[j]);
                    assert(j < k);
                }
            }
            any = any || rel;
            k = k + 1;
        }
        if any {
            match today() {
                Some(t) => Self::from_content_on(location, content, t),
                None => Err(ToroError::ClockError),
            }
        } else {
            let d0 = chrono_default();
            let r = Self::from_content_on(location, content, d0);
            proof {
                lemma_file_any_day(r, location@, ls, d0@);
            }
            r
        }
    }

    /// The text to store: each task as a line, the lines joined with `\n`.
    pub fn to_content(&self) -> (r: String)
        ensures
            r@ == file_text(self@.tasks),
    {
        let ghost texts = self@.tasks.map_values(|t: TaskView| task_text(t));
        let mut v: Vec<char> = Vec::new();
        let mut i: usize = 0;
        while i < self.tasks.len()
            invariant
                i <= self.tasks.len(),
                texts == self@.tasks.map_values(|t: TaskView| task_text(t)),
                texts.len() == self.tasks@.len(),
                v@ == join_lines(texts.take(i as int)),
            decreases self.tasks.len() - i,
        {
            assert(self@.tasks[i as int] == self.tasks@[i as int]@);
            let line = self.tasks[i].to_string();
            let lc = chars_of(line.as_str());
            proof {
                if i > 0 {
                    lemma_join_push(texts.take(i as int), texts[i as int]);
                }
                assert(texts.take(i + 1) =~= texts.take(i as int).push(texts[i as int]));
            }
            if i > 0 {
                v.push('\n');
            }
            append_chars(&mut v, lc.as_slice());
            proof {
                if i == 0 {
                    assert(texts.take(1) =~= seq![texts[0]]);
                    assert(v@ =~= join_lines(texts.take(1)));
                } else {
                    assert(v@ =~= join_lines(texts.take(i + 1)));
                }
            }
            i = i + 1;
        }
        assert(texts.take(i as int) =~= texts);
        string_from_chars(v.as_slice())
    }

    /// Where the file is stored.
    pub fn location(&self) -> (r: &String)
        ensures
            r@ == self@.location,
    {
        &self.location
    }

    /// The number of tasks.
    pub fn len(&self) -> (r: usize)
        ensures
            r == self@.tasks.len(),
    {
        self.tasks.len()
    }

    /// The task on line `i` (counting from 0).
    pub fn task(&self, i: usize) -> (r: &TodoTxtTask)
        requires
            i < self@.tasks.len(),
        ensures
            r@ == self@.tasks[i as int],
    {
        &self.tasks[i]
    }

    /// Adds a task as the last line.
    pub fn push(&mut self, task: TodoTxtTask)
        ensures
            final(self)@.location == old(self)@.location,
            final(self)@.tasks == old(self)@.tasks.push(task@),
    {
        self.tasks.push(task);
        assert(self@.tasks =~= old(self)@.tasks.push(task@));
    }

    /// Takes the task on line `i` (counting from 0) out of the file.
    pub fn take_task(&mut self, i: usize) -> (r: TodoTxtTask)
        requires
            i < old(self)@.tasks.len(),
        ensures
            r@ == old(self)@.tasks[i as int],
            final(self)@.location == old(self)@.location,
            final(self)@.tasks == old(self)@.tasks.remove(i as int),
    {
        let r = self.tasks.remove(i);
        assert(self@.tasks =~= old(self)@.tasks.remove(i as int));
        r
    }

    /// Puts a task in as line `i` (counting from 0).
    pub fn put_task(&mut self, i: usize, task: TodoTxtTask)
        requires
            i <= old(self)@.tasks.len(),
        ensures
            final(self)@.location == old(self)@.location,
            final(self)@.tasks == old(self)@.tasks.insert(i as int, task@),
    {
        self.tasks.insert(i, task);
        assert(self@.tasks =~= old(self)@.tasks.insert(i as int, task@));
    }

    /// Replaces the task on line `i` (counting from 0).
    pub fn set_task(&mut self, i: usize, task: TodoTxtTask)
        requires
            i < old(self)@.tasks.len(),
        ensures
            final(self)@.location == old(self)@.location,
            final(self)@.tasks == old(self)@.tasks.update(i as int, task@),
    {
        self.tasks.set(i, task);
        assert(self@.tasks =~= old(self)@.tasks.update(i as int, task@));
    }
}

/// Writing tasks that their lines reproduce as a file, and reading the file
/// back on the same day, gives the same tasks, line by line.
pub proof fn lemma_file_reads_back(tasks: Seq<TaskView>, t: int)
    requires
        forall|k: int| 0 <= k < tasks.len() ==> task_ok(#[trigger] tasks[k], t),
    ensures
        text_lines(file_text(tasks)).len() == tasks.len(),
        forall|k: int|
            0 <= k < tasks.len() ==> task_outcome(#[trigger] text_lines(file_text(tasks))[k], t)
                == Ok::<TaskView, TaskFailure>(tasks[k]),
{
    let texts = tasks.map_values(|tv: TaskView| task_text(tv));
    assert forall|k: int| 0 <= k < texts.len() implies plain_line(#[trigger] texts[k]) by {
        lemma_task_reads_back(tasks[k], t);
        assert(texts[k] == task_text(tasks[k]));
        let s = texts[k];
        assert(task_outcome(s, t) is Ok);
        assert(!has_line_break(s));
        let cs: Seq<char> = if tasks[k].completed { seq!['x', ' '] } else { seq![] };
        assert(s.len() >= 1);
    }
    lemma_lines_of_join(texts);
    assert forall|k: int| 0 <= k < tasks.len() implies task_outcome(
        #[trigger] text_lines(file_text(tasks))[k],
        t,
    ) == Ok::<TaskView, TaskFailure>(tasks[k]) by {
        lemma_task_reads_back(tasks[k], t);
    }
}


// ---------------------------------------------------------------------------
// Filtering and ordering tasks
// ---------------------------------------------------------------------------

/// Texts in the order of `String`: character by character, a prefix first.
/// Negative, zero or positive as `a` comes before, with, or after `b`.
pub open spec fn lex_order(a: Seq<char>, b: Seq<char>) -> int
    decreases a.len(),
{
    if a.len() == 0 {
        if b.len() == 0 { 0 } else { -1 }
    } else if b.len() == 0 {
        1
    } else if (a[0] as u32) < (b[0] as u32) {
        -1
    } else if (a[0] as u32) > (b[0] as u32) {
        1
    } else {
        lex_order(a.drop_first(), b.drop_first())
    }
}

pub open spec fn int_order(x: int, y: int) -> int {
    if x < y { -1 } else if x > y { 1 } else { 0 }
}

/// The values by which a task is ordered on day `t`.
pub struct SortKeys {
    /// The description as written.
    pub description: Seq<char>,
    /// The creation day, negated (latest first); a task without one counts as
    /// created on 1970-01-01.
    pub created: int,
    /// 1 for a completed task, 0 for a pending one.
    pub completed: int,
    /// The priority letter's code; a task without one comes after `Z`.
    pub priority: int,
    /// The due day; a task without one comes after every day.
    pub due: int,
    /// The scheduled day; a task without one comes after every day.
    pub scheduled: int,
}

/// The key of a task without a due or scheduled day: after every day chrono holds.
pub open spec fn no_day_key() -> int {
    max_day_number() + 1
}

pub open spec fn day_key(d: Option<int>) -> int {
    match d {
        Some(n) => n,
        None => no_day_key(),
    }
}

pub open spec fn sort_keys(tv: TaskView, t: int) -> SortKeys {
    SortKeys {
        description: render(tv.description),
        created: -(match created_of(tv.dates) {
            Some(c) => c,
            None => day_number(1970, 1, 1),
        }),
        completed: if tv.completed { 1 } else { 0 },
        priority: match tv.priority {
            Some(p) => (p as u32) as int,
            None => ('[' as u32) as int,
        },
        due: day_key(meta_day(tv, due_key(), t)),
        scheduled: day_key(meta_day(tv, scheduled_key(), t)),
    }
}

pub open spec fn int_key(k: SortBy, s: SortKeys) -> int {
    match k {
        SortBy::Created => s.created,
        SortBy::Completed => s.completed,
        SortBy::Priority => s.priority,
        SortBy::Due => s.due,
        SortBy::Scheduled => s.scheduled,
        _ => 0,
    }
}

/// How two tasks compare by one key.
pub open spec fn key_order(k: SortBy, a: SortKeys, b: SortKeys) -> int {
    match k {
        SortBy::Description => lex_order(a.description, b.description),
        _ => int_order(int_key(k, a), int_key(k, b)),
    }
}

/// How two tasks compare when ordered by each key in turn, a stable ordering
/// each time: the last key decides, then the one before it, and so on.
pub open spec fn order_by(keys: Seq<SortBy>, a: SortKeys, b: SortKeys) -> int
    decreases keys.len(),
{
    if keys.len() == 0 {
        0
    } else {
        let c = key_order(keys.last(), a, b);
        if c != 0 {
            c
        } else {
            order_by(keys.drop_last(), a, b)
        }
    }
}

/// Whether task `i` comes before task `j`: by the keys, and where they tie,
/// by the order of the lines.
pub open spec fn precedes(keys: Seq<SortBy>, ks: Seq<SortKeys>, i: int, j: int) -> bool {
    let c = order_by(keys, ks[i], ks[j]);
    c < 0 || (c == 0 && i < j)
}

/// Indices in the order `precedes` gives.
pub open spec fn in_order(keys: Seq<SortBy>, ks: Seq<SortKeys>, r: Seq<usize>) -> bool {
    forall|a: int, b: int| 0 <= a < b < r.len() ==> precedes(keys, ks, #[trigger] r[a] as int, #[trigger] r[b] as int)
}

/// Whether the task passes the filter, if there is one, on day `t`.
pub open spec fn selected(filter: Option<FilterView>, tv: TaskView, t: int) -> bool {
    match filter {
        None => true,
        Some(f) => filter_approves(f, tv, t),
    }
}

/// `r` lists, by their indices, exactly the tasks that pass the filter on day
/// `t`, in the order of the keys.
pub open spec fn fits_selection(tasks: Seq<TaskView>, filter: Option<FilterView>, keys: Seq<SortBy>, t: int, r: Seq<usize>) -> bool {
    &&& forall|k: int| 0 <= k < r.len() ==> (#[trigger] r[k]) < tasks.len()
    &&& forall|i: int| 0 <= i < tasks.len() ==> (r.contains(i as usize) <==> selected(filter, #[trigger] tasks[i], t))
    &&& in_order(keys, all_keys(tasks, t), r)
}

/// The tasks a command looks at on day `t`: the one list that fits the
/// selection (`lemma_selection_settled` shows there is only one).
pub open spec fn sorted_selection(tasks: Seq<TaskView>, filter: Option<FilterView>, keys: Seq<SortBy>, t: int) -> Seq<usize> {
    choose|r: Seq<usize>| fits_selection(tasks, filter, keys, t, r)
}

pub open spec fn filter_view(filter: Option<&Filter>) -> Option<FilterView> {
    match filter {
        None => None,
        Some(f) => Some(f@),
    }
}

pub open spec fn all_keys(tasks: Seq<TaskView>, t: int) -> Seq<SortKeys> {
    tasks.map_values(|tv: TaskView| sort_keys(tv, t))
}

pub(crate) proof fn lemma_lex_anti(a: Seq<char>, b: Seq<char>)
    ensures
        lex_order(a, b) == -lex_order(b, a),
    decreases a.len(),
{
    if a.len() > 0 && b.len() > 0 && (a[0] as u32) == (b[0] as u32) {
        lemma_lex_anti(a.drop_first(), b.drop_first());
    }
}

pub(crate) proof fn lemma_lex_trans(a: Seq<char>, b: Seq<char>, c: Seq<char>)
    requires
        lex_order(a, b) <= 0,
        lex_order(b, c) <= 0,
    ensures
        lex_order(a, c) <= 0,
    decreases a.len(),
{
    if a.len() > 0 && b.len() > 0 && c.len() > 0 && (a[0] as u32) == (b[0] as u32) && (b[0] as u32) == (c[0] as u32) {
        lemma_lex_trans(a.drop_first(), b.drop_first(), c.drop_first());
    }
}

proof fn lemma_key_anti(k: SortBy, a: SortKeys, b: SortKeys)
    ensures
        key_order(k, a, b) == -key_order(k, b, a),
{
    if k is Description {
        lemma_lex_anti(a.description, b.description);
    }
}

proof fn lemma_key_trans(k: SortBy, a: SortKeys, b: SortKeys, c: SortKeys)
    requires
        key_order(k, a, b) <= 0,
        key_order(k, b, c) <= 0,
    ensures
        key_order(k, a, c) <= 0,
{
    if k is Description {
        lemma_lex_trans(a.description, b.description, c.description);
    }
}

proof fn lemma_order_anti(keys: Seq<SortBy>, a: SortKeys, b: SortKeys)
    ensures
        order_by(keys, a, b) == -order_by(keys, b, a),
    decreases keys.len(),
{
    if keys.len() > 0 {
        lemma_key_anti(keys.last(), a, b);
        lemma_order_anti(keys.drop_last(), a, b);
    }
}

proof fn lemma_order_trans(keys: Seq<SortBy>, a: SortKeys, b: SortKeys, c: SortKeys)
    requires
        order_by(keys, a, b) <= 0,
        order_by(keys, b, c) <= 0,
    ensures
        order_by(keys, a, c) <= 0,
        order_by(keys, a, b) < 0 || order_by(keys, b, c) < 0 ==> order_by(keys, a, c) < 0,
    decreases keys.len(),
{
    if keys.len() > 0 {
        let k = keys.last();
        lemma_key_anti(k, a, b);
        lemma_key_anti(k, b, c);
        lemma_key_anti(k, a, c);
        lemma_key_trans(k, a, b, c);
        if key_order(k, a, c) == 0 {
            if key_order(k, a, b) != 0 {
                lemma_key_trans(k, b, c, a);
            } else if key_order(k, b, c) != 0 {
                lemma_key_trans(k, c, a, b);
            } else {
                lemma_order_trans(keys.drop_last(), a, b, c);
            }
        }
    }
}

/// Of two different lines, exactly one comes first.
pub proof fn lemma_precedes_total(keys: Seq<SortBy>, ks: Seq<SortKeys>, i: int, j: int)
    requires
        i != j,
    ensures
        precedes(keys, ks, i, j) || precedes(keys, ks, j, i),
        !(precedes(keys, ks, i, j) && precedes(keys, ks, j, i)),
{
    lemma_order_anti(keys, ks[i], ks[j]);
}

/// A line before a line that comes before a third one comes before the third.
pub proof fn lemma_precedes_trans(keys: Seq<SortBy>, ks: Seq<SortKeys>, i: int, j: int, l: int)
    requires
        precedes(keys, ks, i, j),
        precedes(keys, ks, j, l),
    ensures
        precedes(keys, ks, i, l),
{
    lemma_order_trans(keys, ks[i], ks[j], ks[l]);
}

/// The sort keys of a task, computed.
struct SortRecord {
    description: Vec<char>,
    created: i64,
    completed: i64,
    priority: i64,
    due: i64,
    scheduled: i64,
}

impl View for SortRecord {
    type V = SortKeys;

    closed spec fn view(&self) -> SortKeys {
        SortKeys {
            description: self.description@,
            created: self.created as int,
            completed: self.completed as int,
            priority: self.priority as int,
            due: self.due as int,
            scheduled: self.scheduled as int,
        }
    }
}

fn day_key_of(d: Option<Date>) -> (r: i64)
    ensures
        r == day_key(match d {
            Some(x) => Some(x@),
            None => None,
        }),
{
    match d {
        Some(x) => x.day_number() as i64,
        None => 95745400i64,
    }
}

fn sort_record(task: &TodoTxtTask, today: Date) -> (r: SortRecord)
    ensures
        r@ == sort_keys(task@, today@),
{
    let created: i64 = match task.when_created() {
        Some(d) => 0i64 - (d.day_number() as i64),
        None => {
            let epoch = chrono_default();
            proof {
                lemma_day_number_of(epoch);
            }
            0i64 - (epoch.day_number() as i64)
        },
    };
    let completed: i64 = if task.completed() { 1 } else { 0 };
    let priority: i64 = match task.priority() {
        Some(p) => (p as u32) as i64,
        None => ('[' as u32) as i64,
    };
    let due = day_key_of(task.due_day_on(today));
    let scheduled = day_key_of(task.scheduled_day_on(today));
    let r = SortRecord { description: task.description_chars(), created, completed, priority, due, scheduled };
    assert(r@.priority == sort_keys(task@, today@).priority);
    r
}

pub(crate) fn lex_compare(a: &[char], b: &[char]) -> (r: i64)
    ensures
        r == lex_order(a@, b@),
{
    let mut i: usize = 0;
    assert(a@.skip(0) =~= a@);
    assert(b@.skip(0) =~= b@);
    while i < a.len() && i < b.len()
        invariant
            i <= a.len(),
            i <= b.len(),
            lex_order(a@, b@) == lex_order(a@.skip(i as int), b@.skip(i as int)),
        decreases a.len() - i,
    {
        let x = a[i] as u32;
        let y = b[i] as u32;
        assert(a@.skip(i as int)[0] == a@[i as int]);
        assert(b@.skip(i as int)[0] == b@[i as int]);
        if x < y {
            return -1;
        }
        if x > y {
            return 1;
        }
        assert(a@.skip(i as int).drop_first() =~= a@.skip(i + 1));
        assert(b@.skip(i as int).drop_first() =~= b@.skip(i + 1));
        i = i + 1;
    }
    if i < b.len() {
        -1
    } else if i < a.len() {
        1
    } else {
        0
    }
}

fn int_compare(x: i64, y: i64) -> (r: i64)
    ensures
        r == int_order(x as int, y as int),
{
    if x < y {
        -1
    } else if x > y {
        1
    } else {
        0
    }
}

fn key_compare(k: SortBy, a: &SortRecord, b: &SortRecord) -> (r: i64)
    ensures
        r == key_order(k, a@, b@),
{
    match k {
        SortBy::Description => lex_compare(a.description.as_slice(), b.description.as_slice()),
        SortBy::Created => int_compare(a.created, b.created),
        SortBy::Completed => int_compare(a.completed, b.completed),
        SortBy::Priority => int_compare(a.priority, b.priority),
        SortBy::Due => int_compare(a.due, b.due),
        SortBy::Scheduled => int_compare(a.scheduled, b.scheduled),
        SortBy::Nop => 0,
    }
}

fn compare_by(keys: &[SortBy], a: &SortRecord, b: &SortRecord) -> (r: i64)
    ensures
        r == order_by(keys@, a@, b@),
{
    let mut m: usize = keys.len();
    assert(keys@.take(keys@.len() as int) =~= keys@);
    while m > 0
        invariant
            m <= keys.len(),
            order_by(keys@, a@, b@) == order_by(keys@.take(m as int), a@, b@),
        decreases m,
    {
        let c = key_compare(keys[m - 1], a, b);
        assert(keys@.take(m as int).last() == keys@[m - 1]);
        assert(keys@.take(m as int).drop_last() =~= keys@.take(m - 1));
        if c != 0 {
            return c;
        }
        m = m - 1;
    }
    0
}

/// The indices of the tasks that pass the filter, in order: by the keys,
/// the last key first, and where they tie by the order of the lines.
fn order_tasks(tasks: &Vec<TodoTxtTask>, filter: Option<&Filter>, sort_by: &[SortBy], today: Date) -> (r: Vec<usize>)
    ensures
        forall|k: int| 0 <= k < r@.len() ==> (#[trigger] r@[k]) < tasks@.len(),
        forall|i: int|
            0 <= i < tasks@.len() ==> (r@.contains(i as usize) <==> selected(
                filter_view(filter),
                #[trigger] tasks@[i]@,
                today@,
            )),
        in_order(sort_by@, tasks@.map_values(|x: TodoTxtTask| sort_keys(x@, today@)), r@),
{
    let ghost ks = tasks@.map_values(|x: TodoTxtTask| sort_keys(x@, today@));
    let mut recs: Vec<SortRecord> = Vec::new();
    let mut n: usize = 0;
    while n < tasks.len()
        invariant
            n <= tasks.len(),
            ks == tasks@.map_values(|x: TodoTxtTask| sort_keys(x@, today@)),
            recs@.len() == n,
            forall|k: int| 0 <= k < n ==> (#[trigger] recs@[k])@ == ks[k],
        decreases tasks.len() - n,
    {
        let rec = sort_record(&tasks[n], today);
        recs.push(rec);
        n = n + 1;
    }
    let mut out: Vec<usize> = Vec::new();
    let mut i: usize = 0;
    while i < tasks.len()
        invariant
            i <= tasks.len(),
            ks == tasks@.map_values(|x: TodoTxtTask| sort_keys(x@, today@)),
            ks.len() == tasks@.len(),
            recs@.len() == tasks@.len(),
            forall|k: int| 0 <= k < recs@.len() ==> (#[trigger] recs@[k])@ == ks[k],
            forall|k: int| 0 <= k < out@.len() ==> (#[trigger] out@[k]) < i,
            forall|j: int|
                0 <= j < i ==> (out@.contains(j as usize) <==> selected(
                    filter_view(filter),
                    #[trigger] tasks@[j]@,
                    today@,
                )),
            in_order(sort_by@, ks, out@),
        decreases tasks.len() - i,
    {
        let pass = match filter {
            None => true,
            Some(f) => f.approves_on(&tasks[i], today),
        };
        assert(pass == selected(filter_view(filter), tasks@[i as int]@, today@));
        let ghost before = out@;
        if pass {
            let mut p: usize = 0;
            while p < out.len() && compare_by(sort_by, &recs[out[p]], &recs[i]) <= 0
                invariant
                    p <= out@.len(),
                    out@ == before,
                    i < tasks@.len(),
                    recs@.len() == tasks@.len(),
                    ks.len() == tasks@.len(),
                    forall|k: int| 0 <= k < recs@.len() ==> (#[trigger] recs@[k])@ == ks[k],
                    forall|k: int| 0 <= k < out@.len() ==> (#[trigger] out@[k]) < i,
                    forall|q: int| 0 <= q < p ==> precedes(sort_by@, ks, #[trigger] out@[q] as int, i as int),
                decreases out@.len() - p,
            {
                assert(out@[p as int] < i);
                p = p + 1;
            }
            proof {
                if p < out@.len() {
                    lemma_order_anti(sort_by@, ks[out@[p as int] as int], ks[i as int]);
                    assert(precedes(sort_by@, ks, i as int, out@[p as int] as int));
                }
                lemma_insert_in_order(sort_by@, ks, out@, i, p as int);
            }
            out.insert(p, i);
            proof {
                lemma_insert_contains(before, p as int, i);
                assert(out@ == before.insert(p as int, i));
            }
        }
        proof {
            assert forall|k: int| 0 <= k < out@.len() implies (#[trigger] out@[k]) < i + 1 by {
                if pass {
                    lemma_insert_contains(before, out@.len() - 1, i);
                    assert(out@.contains(out@[k]));
                }
            }
            assert forall|j: int| 0 <= j < i + 1 implies (out@.contains(j as usize) <==> selected(
                filter_view(filter),
                #[trigger] tasks@[j]@,
                today@,
            )) by {
                if !pass && j == i {
                    if out@.contains(j as usize) {
                        let k = choose|k: int| 0 <= k < out@.len() && out@[k] == j as usize;
                        assert(out@[k] < i);
                    }
                }
            }
        }
        i = i + 1;
    }
    out
}

proof fn lemma_insert_contains(s: Seq<usize>, p: int, x: usize)
    requires
        0 <= p <= s.len(),
    ensures
        forall|y: usize| #[trigger] s.insert(p, x).contains(y) <==> (y == x || s.contains(y)),
{
    let t = s.insert(p, x);
    assert forall|y: usize| #[trigger] t.contains(y) <==> (y == x || s.contains(y)) by {
        if t.contains(y) {
            let k = choose|k: int| 0 <= k < t.len() && t[k] == y;
            if k < p {
                assert(s[k] == y);
            } else if k > p {
                assert(s[k - 1] == y);
            }
        }
        if y == x {
            assert(t[p] == x);
        } else if s.contains(y) {
            let k = choose|k: int| 0 <= k < s.len() && s[k] == y;
            if k < p {
                assert(t[k] == y);
            } else {
                assert(t[k + 1] == y);
            }
        }
    }
}

proof fn lemma_insert_in_order(keys: Seq<SortBy>, ks: Seq<SortKeys>, out: Seq<usize>, x: usize, p: int)
    requires
        0 <= p <= out.len(),
        in_order(keys, ks, out),
        forall|q: int| 0 <= q < p ==> precedes(keys, ks, #[trigger] out[q] as int, x as int),
        p < out.len() ==> precedes(keys, ks, x as int, out[p] as int),
    ensures
        in_order(keys, ks, out.insert(p, x)),
{
    let t = out.insert(p, x);
    assert forall|a: int, b: int| 0 <= a < b < t.len() implies precedes(keys, ks, #[trigger] t[a] as int, #[trigger] t[b] as int) by {
        if b < p {
            assert(t[a] == out[a] && t[b] == out[b]);
        } else if b == p {
            assert(t[a] == out[a] && t[b] == x);
        } else if a < p {
            assert(t[a] == out[a] && t[b] == out[b - 1]);
            if b - 1 > p {
                assert(precedes(keys, ks, out[p] as int, out[b - 1] as int));
                lemma_precedes_trans(keys, ks, x as int, out[p] as int, out[b - 1] as int);
            }
            lemma_precedes_trans(keys, ks, out[a] as int, x as int, out[b - 1] as int);
        } else if a == p {
            assert(t[a] == x && t[b] == out[b - 1]);
            if b - 1 > p {
                assert(precedes(keys, ks, out[p] as int, out[b - 1] as int));
                lemma_precedes_trans(keys, ks, x as int, out[p] as int, out[b - 1] as int);
            }
        } else {
            assert(t[a] == out[a - 1] && t[b] == out[b - 1]);
        }
    }
}

impl TodoTxtFile {
    /// The tasks that pass the filter, if there is one, in order: by the keys,
    /// the last key first, and where they tie by the order of the lines;
    /// given as the indices of their lines, with today being `today`.
    pub fn filtered_sorted_on(&self, filter_opt: Option<&Filter>, sort_by: &[SortBy], today: Date) -> (r: Vec<usize>)
        ensures
            forall|k: int| 0 <= k < r@.len() ==> (#[trigger] r@[k]) < self@.tasks.len(),
            forall|i: int|
                0 <= i < self@.tasks.len() ==> (r@.contains(i as usize) <==> selected(
                    filter_view(filter_opt),
                    #[trigger] self@.tasks[i],
                    today@,
                )),
            in_order(sort_by@, all_keys(self@.tasks, today@), r@),
            r@ == sorted_selection(self@.tasks, filter_view(filter_opt), sort_by@, today@),
    {
        let r = order_tasks(&self.tasks, filter_opt, sort_by, today);
        assert(self.tasks@.map_values(|x: TodoTxtTask| sort_keys(x@, today@)) =~= all_keys(self@.tasks, today@));
        assert forall|i: int| 0 <= i < self@.tasks.len() implies (r@.contains(i as usize) <==> selected(
            filter_view(filter_opt),
            #[trigger] self@.tasks[i],
            today@,
        )) by {
            assert(self@.tasks[i] == self.tasks@[i]@);
        }
        proof {
            let tasks = self@.tasks;
            let f = filter_view(filter_opt);
            assert(fits_selection(tasks, f, sort_by@, today@, r@));
            let c = sorted_selection(tasks, f, sort_by@, today@);
            lemma_selection_settled(tasks, f, sort_by@, today@, c, r@);
        }
        r
    }

    /// The tasks to change, as `filtered_sorted_on` gives them on day
    /// `today`: the caller changes them by their indices; the call itself
    /// changes nothing.
    pub fn filtered_sorted_mut_on(
        &mut self,
        filter_opt: Option<&Filter>,
        sort_by: &[SortBy],
        today: Date,
    ) -> (r: Vec<usize>)
        ensures
            final(self)@ == old(self)@,
            r@ == sorted_selection(old(self)@.tasks, filter_view(filter_opt), sort_by@, today@),
            fits_selection(old(self)@.tasks, filter_view(filter_opt), sort_by@, today@, r@),
    {
        self.filtered_sorted_on(filter_opt, sort_by, today)
    }

    /// As `filtered_sorted_on`. Only a selection that the day matters to
    /// (`day_used`) reads today's date from the clock; then `ClockError` when
    /// the clock gives no date.
    pub fn filtered_sorted(&self, filter_opt: Option<&Filter>, sort_by: &[SortBy]) -> (r: Result<Vec<usize>, ToroError>)
        ensures
            r is Err ==> r == Err::<Vec<usize>, ToroError>(ToroError::ClockError),
            !day_used(filter_view(filter_opt), sort_by@) ==> (r matches Ok(v) && forall|t: int|
                v@ == #[trigger] sorted_selection(self@.tasks, filter_view(filter_opt), sort_by@, t)
                    && fits_selection(self@.tasks, filter_view(filter_opt), sort_by@, t, v@)),
            r matches Ok(v) ==> forall|k: int| 0 <= k < v@.len() ==> (#[trigger] v@[k]) < self@.tasks.len(),
            r matches Ok(v) ==> exists|t: int|
                in_range(t) && (forall|i: int|
                    0 <= i < self@.tasks.len() ==> (v@.contains(i as usize) <==> selected(
                        filter_view(filter_opt),
                        #[trigger] self@.tasks[i],
                        t,
                    ))) && in_order(sort_by@, all_keys(self@.tasks, t), v@)
                    && v@ == sorted_selection(self@.tasks, filter_view(filter_opt), sort_by@, t),
    {
        if !day_used_exec(filter_opt, sort_by) {
            let d0 = chrono_default();
            let r = self.filtered_sorted_on(filter_opt, sort_by, d0);
            proof {
                lemma_selection_any_day(self@.tasks, filter_view(filter_opt), sort_by@, d0@, r@);
                use_type_invariant(&d0);
                assert(fits_selection(self@.tasks, filter_view(filter_opt), sort_by@, d0@, r@));
            }
            return Ok(r);
        }
        match today() {
            Some(t) => {
                let r = self.filtered_sorted_on(filter_opt, sort_by, t);
                assert(in_range(t@));
                Ok(r)
            },
            None => Err(ToroError::ClockError),
        }
    }

    /// The tasks to change, as `filtered_sorted`: the caller changes them by
    /// their indices. Only a selection that the day matters to reads today's
    /// date from the clock.
    pub fn filtered_sorted_mut(&mut self, filter_opt: Option<&Filter>, sort_by: &[SortBy]) -> (r: Result<Vec<usize>, ToroError>)
        ensures
            final(self)@ == old(self)@,
            r is Err ==> r == Err::<Vec<usize>, ToroError>(ToroError::ClockError),
            !day_used(filter_view(filter_opt), sort_by@) ==> (r matches Ok(v) && forall|t: int|
                v@ == #[trigger] sorted_selection(old(self)@.tasks, filter_view(filter_opt), sort_by@, t)
                    && fits_selection(old(self)@.tasks, filter_view(filter_opt), sort_by@, t, v@)),
            r matches Ok(v) ==> forall|k: int| 0 <= k < v@.len() ==> (#[trigger] v@[k]) < old(self)@.tasks.len(),
            r matches Ok(v) ==> exists|t: int|
                in_range(t) && (forall|i: int|
                    0 <= i < old(self)@.tasks.len() ==> (v@.contains(i as usize) <==> selected(
                        filter_view(filter_opt),
                        #[trigger] old(self)@.tasks[i],
                        t,
                    ))) && in_order(sort_by@, all_keys(old(self)@.tasks, t), v@)
                    && v@ == sorted_selection(old(self)@.tasks, filter_view(filter_opt), sort_by@, t),
    {
        if !day_used_exec(filter_opt, sort_by) {
            let d0 = chrono_default();
            let r = self.filtered_sorted_mut_on(filter_opt, sort_by, d0);
            proof {
                lemma_selection_any_day(old(self)@.tasks, filter_view(filter_opt), sort_by@, d0@, r@);
            }
            return Ok(r);
        }
        match today() {
            Some(t) => {
                let r = self.filtered_sorted_mut_on(filter_opt, sort_by, t);
                assert(in_range(t@));
                Ok(r)
            },
            None => Err(ToroError::ClockError),
        }
    }

    /// The tasks to list, in the order they are shown, each with its number
    /// (counting from 0) if `numbered`: the tasks that pass the filter in the
    /// order of `view.sort`, the last one first if `reverse`; a task's number
    /// is its place in that order, whichever way it is shown.
    pub fn list_on(
        &self,
        numbered: bool,
        reverse: bool,
        view: &ViewConfig,
        filter_opt: Option<&Filter>,
        today: Date,
    ) -> (r: Vec<(usize, Option<usize>)>)
        ensures
            forall|k: int| 0 <= k < r@.len() ==> (#[trigger] r@[k]).0 < self@.tasks.len(),
            forall|i: int|
                0 <= i < self@.tasks.len() ==> (entry_tasks(r@).contains(i as usize) <==> selected(
                    filter_view(filter_opt),
                    #[trigger] self@.tasks[i],
                    today@,
                )),
            in_order(
                view.sort@,
                all_keys(self@.tasks, today@),
                if reverse { entry_tasks(r@).reverse() } else { entry_tasks(r@) },
            ),
            forall|k: int|
                0 <= k < r@.len() ==> (#[trigger] r@[k]).1 == (if numbered {
                    Some((if reverse { r@.len() - 1 - k } else { k }) as usize)
                } else {
                    None
                }),
    {
        let order = self.filtered_sorted_on(filter_opt, view.sort.as_slice(), today);
        let n = order.len();
        let mut r: Vec<(usize, Option<usize>)> = Vec::new();
        let mut k: usize = 0;
        while k < n
            invariant
                k <= n,
                n == order@.len(),
                r@.len() == k,
                forall|j: int|
                    0 <= j < k ==> (#[trigger] r@[j]).0 == order@[if reverse { n - 1 - j } else { j }],
                forall|j: int|
                    0 <= j < k ==> (#[trigger] r@[j]).1 == (if numbered {
                        Some((if reverse { n - 1 - j } else { j }) as usize)
                    } else {
                        None
                    }),
            decreases n - k,
        {
            let pos: usize = if reverse { n - 1 - k } else { k };
            let number: Option<usize> = if numbered { Some(pos) } else { None };
            r.push((order[pos], number));
            k = k + 1;
        }
        proof {
            let e = entry_tasks(r@);
            if reverse {
                assert(e.reverse() =~= order@);
            } else {
                assert(e =~= order@);
            }
            assert forall|i: int| 0 <= i < self@.tasks.len() implies (#[trigger] e.contains(i as usize) <==> order@.contains(i as usize)) by {
                if e.contains(i as usize) {
                    let j = choose|j: int| 0 <= j < e.len() && e[j] == i as usize;
                    assert(order@[if reverse { n - 1 - j } else { j }] == i as usize);
                }
                if order@.contains(i as usize) {
                    let j = choose|j: int| 0 <= j < order@.len() && order@[j] == i as usize;
                    let q = if reverse { n - 1 - j } else { j };
                    assert(e[q] == i as usize);
                }
            }
        }
        r
    }

    /// As `list_on`. Only a listing that the day matters to (`day_used`)
    /// reads today's date from the clock; then `ClockError` when the clock
    /// gives no date.
    pub fn list(&self, numbered: bool, reverse: bool, view: &ViewConfig, filter_opt: Option<&Filter>) -> (r: Result<Vec<(usize, Option<usize>)>, ToroError>)
        ensures
            r is Err ==> r == Err::<Vec<(usize, Option<usize>)>, ToroError>(ToroError::ClockError),
            !day_used(filter_view(filter_opt), view.sort@) ==> (r matches Ok(v) && forall|t: int|
                #[trigger] listed(self@.tasks, filter_view(filter_opt), view.sort@, reverse, t, v@)),
            r matches Ok(v) ==> forall|k: int| 0 <= k < v@.len() ==> (#[trigger] v@[k]).0 < self@.tasks.len(),
            r matches Ok(v) ==> forall|k: int|
                0 <= k < v@.len() ==> (#[trigger] v@[k]).1 == (if numbered {
                    Some((if reverse { v@.len() - 1 - k } else { k }) as usize)
                } else {
                    None
                }),
            r matches Ok(v) ==> exists|t: int|
                in_range(t) && (forall|i: int|
                    0 <= i < self@.tasks.len() ==> (entry_tasks(v@).contains(i as usize) <==> selected(
                        filter_view(filter_opt),
                        #[trigger] self@.tasks[i],
                        t,
                    ))) && in_order(
                    view.sort@,
                    all_keys(self@.tasks, t),
                    if reverse { entry_tasks(v@).reverse() } else { entry_tasks(v@) },
                ),
    {
        if !day_used_exec(filter_opt, view.sort.as_slice()) {
            let d0 = chrono_default();
            let r = self.list_on(numbered, reverse, view, filter_opt, d0);
            proof {
                assert(listed(self@.tasks, filter_view(filter_opt), view.sort@, reverse, d0@, r@));
                lemma_listed_any_day(self@.tasks, filter_view(filter_opt), view.sort@, reverse, d0@, r@);
            }
            return Ok(r);
        }
        match today() {
            Some(t) => {
                let r = self.list_on(numbered, reverse, view, filter_opt, t);
                assert(in_range(t@));
                Ok(r)
            },
            None => Err(ToroError::ClockError),
        }
    }
}

/// The task indices of list entries.
pub open spec fn entry_tasks(r: Seq<(usize, Option<usize>)>) -> Seq<usize> {
    r.map_values(|e: (usize, Option<usize>)| e.0)
}

/// The entries `v` list exactly the tasks that pass the filter on day `t`, in
/// the order of the keys (the last one first if `reverse`).
pub open spec fn listed(
    tasks: Seq<TaskView>,
    filter: Option<FilterView>,
    keys: Seq<SortBy>,
    reverse: bool,
    t: int,
    v: Seq<(usize, Option<usize>)>,
) -> bool {
    &&& forall|i: int|
        0 <= i < tasks.len() ==> (entry_tasks(v).contains(i as usize) <==> selected(filter, #[trigger] tasks[i], t))
    &&& in_order(keys, all_keys(tasks, t), if reverse { entry_tasks(v).reverse() } else { entry_tasks(v) })
}

/// When the day does not matter to a listing, entries listed on one day are
/// listed so on every day.
pub proof fn lemma_listed_any_day(
    tasks: Seq<TaskView>,
    filter: Option<FilterView>,
    keys: Seq<SortBy>,
    reverse: bool,
    t1: int,
    v: Seq<(usize, Option<usize>)>,
)
    requires
        !day_used(filter, keys),
        forall|k: int| 0 <= k < v.len() ==> (#[trigger] v[k]).0 < tasks.len(),
        listed(tasks, filter, keys, reverse, t1, v),
    ensures
        forall|t: int| #[trigger] listed(tasks, filter, keys, reverse, t, v),
{
    let e = entry_tasks(v);
    let q = if reverse { e.reverse() } else { e };
    assert forall|k: int| 0 <= k < q.len() implies (#[trigger] q[k]) < tasks.len() by {
        if reverse {
            assert(q[k] == e[e.len() - 1 - k]);
            assert(e[e.len() - 1 - k] == v[e.len() - 1 - k].0);
        } else {
            assert(e[k] == v[k].0);
        }
    }
    assert forall|t: int| #[trigger] listed(tasks, filter, keys, reverse, t, v) by {
        lemma_in_order_any_day(tasks, keys, t1, t, q);
    }
}

/// Without sort keys, tasks keep the order of their lines.
pub proof fn lemma_no_keys_keep_line_order(ks: Seq<SortKeys>, r: Seq<usize>)
    requires
        in_order(Seq::<SortBy>::empty(), ks, r),
    ensures
        forall|a: int, b: int| 0 <= a < b < r.len() ==> #[trigger] r[a] < #[trigger] r[b],
{
    assert forall|a: int, b: int| 0 <= a < b < r.len() implies #[trigger] r[a] < #[trigger] r[b] by {
        assert(precedes(Seq::<SortBy>::empty(), ks, r[a] as int, r[b] as int));
        assert(order_by(Seq::<SortBy>::empty(), ks[r[a] as int], ks[r[b] as int]) == 0);
    }
}

/// Ordered tasks come in one order only: each task before those it precedes,
/// so no task shows twice.
pub proof fn lemma_in_order_distinct(keys: Seq<SortBy>, ks: Seq<SortKeys>, r: Seq<usize>)
    requires
        in_order(keys, ks, r),
    ensures
        forall|a: int, b: int| 0 <= a < b < r.len() ==> #[trigger] r[a] != #[trigger] r[b],
{
    assert forall|a: int, b: int| 0 <= a < b < r.len() implies #[trigger] r[a] != #[trigger] r[b] by {
        assert(precedes(keys, ks, r[a] as int, r[b] as int));
        if r[a] == r[b] {
            lemma_order_anti(keys, ks[r[a] as int], ks[r[a] as int]);
        }
    }
}

proof fn lemma_in_order_unique(keys: Seq<SortBy>, ks: Seq<SortKeys>, r1: Seq<usize>, r2: Seq<usize>)
    requires
        in_order(keys, ks, r1),
        in_order(keys, ks, r2),
        forall|x: usize| r1.contains(x) <==> r2.contains(x),
    ensures
        r1 == r2,
    decreases r1.len(),
{
    if r1.len() == 0 {
        if r2.len() > 0 {
            assert(r2.contains(r2[0]));
        }
        assert(r1 =~= r2);
    } else {
        assert(r1.contains(r1[0]));
        assert(r2.contains(r1[0]));
        let b = choose|b: int| 0 <= b < r2.len() && r2[b] == r1[0];
        assert(r2.contains(r2[0]));
        let a = choose|a: int| 0 <= a < r1.len() && r1[a] == r2[0];
        if r1[0] != r2[0] {
            assert(a > 0 && b > 0);
            assert(precedes(keys, ks, r1[0] as int, r1[a] as int));
            assert(precedes(keys, ks, r2[0] as int, r2[b] as int));
            lemma_order_anti(keys, ks[r1[0] as int], ks[r2[0] as int]);
            assert(false);
        }
        lemma_in_order_distinct(keys, ks, r1);
        lemma_in_order_distinct(keys, ks, r2);
        let t1 = r1.drop_first();
        let t2 = r2.drop_first();
        assert(in_order(keys, ks, t1)) by {
            assert forall|x: int, y: int| 0 <= x < y < t1.len() implies precedes(keys, ks, #[trigger] t1[x] as int, #[trigger] t1[y] as int) by {
                assert(t1[x] == r1[x + 1] && t1[y] == r1[y + 1]);
            }
        }
        assert(in_order(keys, ks, t2)) by {
            assert forall|x: int, y: int| 0 <= x < y < t2.len() implies precedes(keys, ks, #[trigger] t2[x] as int, #[trigger] t2[y] as int) by {
                assert(t2[x] == r2[x + 1] && t2[y] == r2[y + 1]);
            }
        }
        assert forall|x: usize| t1.contains(x) <==> t2.contains(x) by {
            if t1.contains(x) {
                let j = choose|j: int| 0 <= j < t1.len() && t1[j] == x;
                assert(r1[j + 1] == x);
                assert(r1.contains(x));
                assert(x != r1[0]);
                let m = choose|m: int| 0 <= m < r2.len() && r2[m] == x;
                assert(m != 0);
                assert(t2[m - 1] == x);
            }
            if t2.contains(x) {
                let j = choose|j: int| 0 <= j < t2.len() && t2[j] == x;
                assert(r2[j + 1] == x);
                assert(r2.contains(x));
                assert(x != r2[0]);
                let m = choose|m: int| 0 <= m < r1.len() && r1[m] == x;
                assert(m != 0);
                assert(t1[m - 1] == x);
            }
        }
        lemma_in_order_unique(keys, ks, t1, t2);
        assert(r1 =~= seq![r1[0]] + t1);
        assert(r2 =~= seq![r2[0]] + t2);
    }
}

/// The tasks a command looks at are settled by the file, the filter, the sort
/// keys and the day: two index lists that each hold exactly the tasks that
/// pass and are in order are the same list. So on the same day, with the same
/// filter and keys, `filtered_sorted_mut_on` gives the tasks that
/// `filtered_sorted_on` gives, in the same order: both give `sorted_selection`.
pub proof fn lemma_selection_settled(
    tasks: Seq<TaskView>,
    filter: Option<FilterView>,
    keys: Seq<SortBy>,
    t: int,
    r1: Seq<usize>,
    r2: Seq<usize>,
)
    requires
        forall|k: int| 0 <= k < r1.len() ==> (#[trigger] r1[k]) < tasks.len(),
        forall|k: int| 0 <= k < r2.len() ==> (#[trigger] r2[k]) < tasks.len(),
        forall|i: int| 0 <= i < tasks.len() ==> (r1.contains(i as usize) <==> selected(filter, #[trigger] tasks[i], t)),
        forall|i: int| 0 <= i < tasks.len() ==> (r2.contains(i as usize) <==> selected(filter, #[trigger] tasks[i], t)),
        in_order(keys, all_keys(tasks, t), r1),
        in_order(keys, all_keys(tasks, t), r2),
    ensures
        r1 == r2,
{
    assert forall|x: usize| r1.contains(x) <==> r2.contains(x) by {
        if r1.contains(x) {
            let j = choose|j: int| 0 <= j < r1.len() && r1[j] == x;
            assert(x < tasks.len());
            assert(selected(filter, tasks[x as int], t));
        }
        if r2.contains(x) {
            let j = choose|j: int| 0 <= j < r2.len() && r2[j] == x;
            assert(x < tasks.len());
            assert(selected(filter, tasks[x as int], t));
        }
    }
    lemma_in_order_unique(keys, all_keys(tasks, t), r1, r2);
}

/// Rewriting the file is settled after one pass, whatever the day: tasks
/// read on day `t1` and written out read back as the same tasks on day `t2`,
/// so writing them again gives the same text; unless a due or scheduled value
/// that named a day past the range chrono holds on `t1` names a day on `t2`.
pub proof fn lemma_rewrite_any_day(tasks: Seq<TaskView>, t1: int, t2: int)
    requires
        forall|k: int| 0 <= k < tasks.len() ==> task_ok(#[trigger] tasks[k], t1),
        forall|k: int, i: int|
            0 <= k < tasks.len() && 0 <= i < tasks[k].description.len() ==> stays_unread(
                #[trigger] tasks[k].description[i],
                t1,
                t2,
            ),
    ensures
        text_lines(file_text(tasks)).len() == tasks.len(),
        forall|k: int|
            0 <= k < tasks.len() ==> task_outcome(#[trigger] text_lines(file_text(tasks))[k], t2)
                == Ok::<TaskView, TaskFailure>(tasks[k]),
{
    assert forall|k: int| 0 <= k < tasks.len() implies task_ok(#[trigger] tasks[k], t2) by {
        assert forall|i: int| 0 <= i < tasks[k].description.len() implies stays_unread(
            #[trigger] tasks[k].description[i],
            t1,
            t2,
        ) by {
            assert(stays_unread(tasks[k].description[i], t1, t2));
        }
        lemma_task_reads_back_any_day(tasks[k], t1, t2);
    }
    lemma_file_reads_back(tasks, t2);
}

/// Whether the day matters to a selection: the filter keeps tasks due by
/// today, or the tasks are ordered by due or scheduled day.
pub open spec fn day_used(filter: Option<FilterView>, keys: Seq<SortBy>) -> bool {
    (filter matches Some(f) && f.today) || keys.contains(SortBy::Due) || keys.contains(SortBy::Scheduled)
}

fn day_used_exec(filter_opt: Option<&Filter>, keys: &[SortBy]) -> (r: bool)
    ensures
        r == day_used(filter_view(filter_opt), keys@),
{
    let by_today = match filter_opt {
        Some(f) => f.today,
        None => false,
    };
    let mut found = false;
    let mut i: usize = 0;
    while i < keys.len()
        invariant
            i <= keys.len(),
            found == exists|j: int| 0 <= j < i && (keys@[j] == SortBy::Due || keys@[j] == SortBy::Scheduled),
        decreases keys.len() - i,
    {
        let k = keys[i];
        let is_day = match k {
            SortBy::Due => true,
            SortBy::Scheduled => true,
            _ => false,
        };
        proof {
            if (exists|j: int| 0 <= j < i + 1 && (keys@[j] == SortBy::Due || keys@[j] == SortBy::Scheduled)) && !is_day {
                let j = choose|j: int| 0 <= j < i + 1 && (keys@[j] == SortBy::Due || keys@[j] == SortBy::Scheduled);
                assert(j < i);
            }
        }
        found = found || is_day;
        i = i + 1;
    }
    proof {
        if found {
            let j = choose|j: int| 0 <= j < keys@.len() && (keys@[j] == SortBy::Due || keys@[j] == SortBy::Scheduled);
            if keys@[j] == SortBy::Due {
                assert(keys@.contains(SortBy::Due));
            } else {
                assert(keys@.contains(SortBy::Scheduled));
            }
        }
        if keys@.contains(SortBy::Due) {
            let j = choose|j: int| 0 <= j < keys@.len() && keys@[j] == SortBy::Due;
            assert(keys@[j] == SortBy::Due || keys@[j] == SortBy::Scheduled);
        }
        if keys@.contains(SortBy::Scheduled) {
            let j = choose|j: int| 0 <= j < keys@.len() && keys@[j] == SortBy::Scheduled;
            assert(keys@[j] == SortBy::Due || keys@[j] == SortBy::Scheduled);
        }
    }
    by_today || found
}

/// Keys other than due and scheduled days compare tasks the same way on any day.
proof fn lemma_order_by_any_day(keys: Seq<SortBy>, a: TaskView, b: TaskView, t1: int, t2: int)
    requires
        !keys.contains(SortBy::Due),
        !keys.contains(SortBy::Scheduled),
    ensures
        order_by(keys, sort_keys(a, t1), sort_keys(b, t1)) == order_by(keys, sort_keys(a, t2), sort_keys(b, t2)),
    decreases keys.len(),
{
    if keys.len() > 0 {
        assert(keys.contains(keys.last()));
        let d = keys.drop_last();
        assert(!d.contains(SortBy::Due)) by {
            if d.contains(SortBy::Due) {
                let j = choose|j: int| 0 <= j < d.len() && d[j] == SortBy::Due;
                assert(keys[j] == SortBy::Due);
            }
        }
        assert(!d.contains(SortBy::Scheduled)) by {
            if d.contains(SortBy::Scheduled) {
                let j = choose|j: int| 0 <= j < d.len() && d[j] == SortBy::Scheduled;
                assert(keys[j] == SortBy::Scheduled);
            }
        }
        lemma_order_by_any_day(d, a, b, t1, t2);
    }
}

/// Without keys on due or scheduled days, an order of tasks holds on any day.
pub proof fn lemma_in_order_any_day(tasks: Seq<TaskView>, keys: Seq<SortBy>, t1: int, t2: int, q: Seq<usize>)
    requires
        !keys.contains(SortBy::Due),
        !keys.contains(SortBy::Scheduled),
        forall|k: int| 0 <= k < q.len() ==> (#[trigger] q[k]) < tasks.len(),
        in_order(keys, all_keys(tasks, t1), q),
    ensures
        in_order(keys, all_keys(tasks, t2), q),
{
    assert forall|a: int, b: int| 0 <= a < b < q.len() implies precedes(
        keys,
        all_keys(tasks, t2),
        #[trigger] q[a] as int,
        #[trigger] q[b] as int,
    ) by {
        assert(precedes(keys, all_keys(tasks, t1), q[a] as int, q[b] as int));
        lemma_order_by_any_day(keys, tasks[q[a] as int], tasks[q[b] as int], t1, t2);
    }
}

/// When the day does not matter to a selection, a list that fits it on one
/// day fits it on every day.
pub proof fn lemma_selection_any_day(
    tasks: Seq<TaskView>,
    filter: Option<FilterView>,
    keys: Seq<SortBy>,
    t1: int,
    r: Seq<usize>,
)
    requires
        !day_used(filter, keys),
        fits_selection(tasks, filter, keys, t1, r),
    ensures
        forall|t: int| fits_selection(tasks, filter, keys, t, r),
        forall|t: int| r == #[trigger] sorted_selection(tasks, filter, keys, t),
{
    assert forall|t: int| fits_selection(tasks, filter, keys, t, r) by {
        lemma_in_order_any_day(tasks, keys, t1, t, r);
    }
    assert forall|t: int| r == #[trigger] sorted_selection(tasks, filter, keys, t) by {
        assert(fits_selection(tasks, filter, keys, t, r));
        let c = sorted_selection(tasks, filter, keys, t);
        lemma_selection_settled(tasks, filter, keys, t, c, r);
    }
}

/// Rewriting the file (loading it, then storing each task as a line) is
/// settled after one pass: the tasks loaded from a file, written out and
/// loaded again, on the same day or a later one, are the same tasks, so
/// writing them again gives the same text. On another day this needs that no
/// due or scheduled value that named a day past the range chrono holds on the
/// first day names a day on the second.
pub proof fn lemma_rewrite_idempotent(
    r1: Result<TodoTxtFile, ToroError>,
    location: Seq<char>,
    content: Seq<char>,
    t1: int,
    r2: Result<TodoTxtFile, ToroError>,
    t2: int,
)
    requires
        r1 is Ok,
        file_result_matches(r1, location, text_lines(content), t1),
        forall|k: int| 0 <= k < r1->Ok_0@.tasks.len() ==> task_ok(#[trigger] r1->Ok_0@.tasks[k], t1),
        forall|k: int, i: int|
            0 <= k < r1->Ok_0@.tasks.len() && 0 <= i < r1->Ok_0@.tasks[k].description.len() ==> stays_unread(
                #[trigger] r1->Ok_0@.tasks[k].description[i],
                t1,
                t2,
            ),
        file_result_matches(r2, location, text_lines(file_text(r1->Ok_0@.tasks)), t2),
    ensures
        r2 matches Ok(f2) && f2@.tasks == r1->Ok_0@.tasks && file_text(f2@.tasks) == file_text(r1->Ok_0@.tasks),
{
    let tasks = r1->Ok_0@.tasks;
    lemma_rewrite_any_day(tasks, t1, t2);
    let ls = text_lines(file_text(tasks));
    match r2 {
        Ok(f2) => {
            assert forall|k: int| 0 <= k < tasks.len() implies f2@.tasks[k] == tasks[k] by {
                assert(task_outcome(ls[k], t2) == Ok::<TaskView, TaskFailure>(f2@.tasks[k]));
                assert(task_outcome(ls[k], t2) == Ok::<TaskView, TaskFailure>(tasks[k]));
            }
            assert(f2@.tasks =~= tasks);
        },
        Err(e) => {
            let k = choose|k: int|
                0 <= k < ls.len() && (forall|j: int| 0 <= j < k ==> (#[trigger] task_outcome(ls[j], t2)) is Ok)
                    && task_result_matches(Err(e), task_outcome(ls[k], t2), ls[k]);
            assert(task_outcome(ls[k], t2) == Ok::<TaskView, TaskFailure>(tasks[k]));
        },
    }
}

/// In a selection ordered by `keys`, of two listed tasks the earlier one
/// does not come after the other by the last key; with a single key, tasks
/// that tie on it keep the order of their lines.
proof fn lemma_last_key_order(
    tasks: Seq<TaskView>,
    filter: Option<FilterView>,
    keys: Seq<SortBy>,
    t: int,
    r: Seq<usize>,
    a: int,
    b: int,
)
    requires
        keys.len() > 0,
        fits_selection(tasks, filter, keys, t, r),
        0 <= a < b < r.len(),
    ensures
        key_order(keys.last(), sort_keys(tasks[r[a] as int], t), sort_keys(tasks[r[b] as int], t)) <= 0,
        keys.len() == 1 && key_order(keys.last(), sort_keys(tasks[r[a] as int], t), sort_keys(tasks[r[b] as int], t))
            == 0 ==> r[a] < r[b],
{
    let ks = all_keys(tasks, t);
    assert(precedes(keys, ks, r[a] as int, r[b] as int));
    assert(r[a] < tasks.len() && r[b] < tasks.len());
    assert(ks[r[a] as int] == sort_keys(tasks[r[a] as int], t));
    assert(ks[r[b] as int] == sort_keys(tasks[r[b] as int], t));
    let x = sort_keys(tasks[r[a] as int], t);
    let y = sort_keys(tasks[r[b] as int], t);
    if key_order(keys.last(), x, y) > 0 {
        assert(order_by(keys, x, y) > 0);
    }
    if keys.len() == 1 && key_order(keys.last(), x, y) == 0 {
        assert(keys.drop_last() =~= Seq::<SortBy>::empty());
        assert(order_by(keys.drop_last(), x, y) == 0);
        assert(order_by(keys, x, y) == 0);
    }
}

/// Ordered by creation date (as the main key, the last one), a task created
/// later comes before one created earlier; alone, same-day tasks keep their
/// line order.
pub proof fn lemma_sorted_by_created(
    tasks: Seq<TaskView>,
    filter: Option<FilterView>,
    keys: Seq<SortBy>,
    t: int,
    r: Seq<usize>,
    a: int,
    b: int,
)
    requires
        keys.len() > 0,
        keys.last() == SortBy::Created,
        fits_selection(tasks, filter, keys, t, r),
        0 <= a < b < r.len(),
        created_of(tasks[r[a] as int].dates) is Some,
        created_of(tasks[r[b] as int].dates) is Some,
    ensures
        created_of(tasks[r[a] as int].dates)->0 >= created_of(tasks[r[b] as int].dates)->0,
        keys.len() == 1 && created_of(tasks[r[a] as int].dates) == created_of(tasks[r[b] as int].dates) ==> r[a] < r[b],
{
    lemma_last_key_order(tasks, filter, keys, t, r, a, b);
    let x = sort_keys(tasks[r[a] as int], t);
    let y = sort_keys(tasks[r[b] as int], t);
    assert(key_order(SortBy::Created, x, y) == int_order(x.created, y.created));
}

/// Ordered by completion (as the main key), pending tasks come before
/// completed ones.
pub proof fn lemma_sorted_by_completed(
    tasks: Seq<TaskView>,
    filter: Option<FilterView>,
    keys: Seq<SortBy>,
    t: int,
    r: Seq<usize>,
    a: int,
    b: int,
)
    requires
        keys.len() > 0,
        keys.last() == SortBy::Completed,
        fits_selection(tasks, filter, keys, t, r),
        0 <= a < b < r.len(),
    ensures
        tasks[r[a] as int].completed ==> tasks[r[b] as int].completed,
        keys.len() == 1 && tasks[r[a] as int].completed == tasks[r[b] as int].completed ==> r[a] < r[b],
{
    lemma_last_key_order(tasks, filter, keys, t, r, a, b);
    let x = sort_keys(tasks[r[a] as int], t);
    let y = sort_keys(tasks[r[b] as int], t);
    assert(key_order(SortBy::Completed, x, y) == int_order(x.completed, y.completed));
}

/// Ordered by priority (as the main key), higher priorities (earlier
/// letters) come first, and a task without a priority comes after every
/// task whose priority is a capital letter.
pub proof fn lemma_sorted_by_priority(
    tasks: Seq<TaskView>,
    filter: Option<FilterView>,
    keys: Seq<SortBy>,
    t: int,
    r: Seq<usize>,
    a: int,
    b: int,
)
    requires
        keys.len() > 0,
        keys.last() == SortBy::Priority,
        fits_selection(tasks, filter, keys, t, r),
        0 <= a < b < r.len(),
    ensures
        tasks[r[a] as int].priority is Some && tasks[r[b] as int].priority is Some ==> (tasks[r[a] as int].priority->0 as u32)
            <= (tasks[r[b] as int].priority->0 as u32),
        tasks[r[b] as int].priority is Some && is_upper(tasks[r[b] as int].priority->0) ==> tasks[r[a] as int].priority is Some,
        keys.len() == 1 && tasks[r[a] as int].priority == tasks[r[b] as int].priority ==> r[a] < r[b],
{
    lemma_last_key_order(tasks, filter, keys, t, r, a, b);
    let x = sort_keys(tasks[r[a] as int], t);
    let y = sort_keys(tasks[r[b] as int], t);
    assert(key_order(SortBy::Priority, x, y) == int_order(x.priority, y.priority));
}

/// Ordered by due day (as the main key), an earlier due day comes first, and
/// a task without one comes after every task due on a day chrono holds.
pub proof fn lemma_sorted_by_due(
    tasks: Seq<TaskView>,
    filter: Option<FilterView>,
    keys: Seq<SortBy>,
    t: int,
    r: Seq<usize>,
    a: int,
    b: int,
)
    requires
        keys.len() > 0,
        keys.last() == SortBy::Due,
        fits_selection(tasks, filter, keys, t, r),
        0 <= a < b < r.len(),
    ensures
        meta_day(tasks[r[a] as int], due_key(), t) is Some && meta_day(tasks[r[b] as int], due_key(), t) is Some
            ==> meta_day(tasks[r[a] as int], due_key(), t)->0 <= meta_day(tasks[r[b] as int], due_key(), t)->0,
        meta_day(tasks[r[b] as int], due_key(), t) is Some && in_range(meta_day(tasks[r[b] as int], due_key(), t)->0)
            ==> meta_day(
            tasks[r[a] as int],
            due_key(),
            t,
        ) is Some,
        keys.len() == 1 && meta_day(tasks[r[a] as int], due_key(), t) == meta_day(tasks[r[b] as int], due_key(), t)
            ==> r[a] < r[b],
{
    lemma_last_key_order(tasks, filter, keys, t, r, a, b);
    let x = sort_keys(tasks[r[a] as int], t);
    let y = sort_keys(tasks[r[b] as int], t);
    assert(key_order(SortBy::Due, x, y) == int_order(x.due, y.due));
}

/// Ordered by scheduled day (as the main key), an earlier scheduled day comes
/// first, and a task without one comes after every task scheduled on a day
/// chrono holds.
pub proof fn lemma_sorted_by_scheduled(
    tasks: Seq<TaskView>,
    filter: Option<FilterView>,
    keys: Seq<SortBy>,
    t: int,
    r: Seq<usize>,
    a: int,
    b: int,
)
    requires
        keys.len() > 0,
        keys.last() == SortBy::Scheduled,
        fits_selection(tasks, filter, keys, t, r),
        0 <= a < b < r.len(),
    ensures
        meta_day(tasks[r[a] as int], scheduled_key(), t) is Some && meta_day(tasks[r[b] as int], scheduled_key(), t)
            is Some ==> meta_day(tasks[r[a] as int], scheduled_key(), t)->0 <= meta_day(
            tasks[r[b] as int],
            scheduled_key(),
            t,
        )->0,
        meta_day(tasks[r[b] as int], scheduled_key(), t) is Some && in_range(meta_day(tasks[r[b] as int], scheduled_key(), t)->0)
            ==> meta_day(
            tasks[r[a] as int],
            scheduled_key(),
            t,
        ) is Some,
        keys.len() == 1 && meta_day(tasks[r[a] as int], scheduled_key(), t) == meta_day(
            tasks[r[b] as int],
            scheduled_key(),
            t,
        ) ==> r[a] < r[b],
{
    lemma_last_key_order(tasks, filter, keys, t, r, a, b);
    let x = sort_keys(tasks[r[a] as int], t);
    let y = sort_keys(tasks[r[b] as int], t);
    assert(key_order(SortBy::Scheduled, x, y) == int_order(x.scheduled, y.scheduled));
}

/// Text that agrees with other text up to a character with a smaller code
/// comes before it.
pub proof fn lemma_lex_first_difference(x: Seq<char>, y: Seq<char>, k: int)
    requires
        0 <= k < x.len(),
        k < y.len(),
        x.take(k) == y.take(k),
        (x[k] as u32) < (y[k] as u32),
    ensures
        lex_order(x, y) < 0,
    decreases k,
{
    if k > 0 {
        assert(x[0] == x.take(k)[0] && y[0] == y.take(k)[0]);
        assert(x.drop_first().take(k - 1) =~= x.take(k).drop_first());
        assert(y.drop_first().take(k - 1) =~= y.take(k).drop_first());
        lemma_lex_first_difference(x.drop_first(), y.drop_first(), k - 1);
    }
}

/// Ordered by description (as the main key), descriptions come in
/// alphabetical order of their character codes: where the descriptions of two
/// listed tasks first differ, the earlier one has the smaller character.
pub proof fn lemma_sorted_by_description(
    tasks: Seq<TaskView>,
    filter: Option<FilterView>,
    keys: Seq<SortBy>,
    t: int,
    r: Seq<usize>,
    a: int,
    b: int,
    k: int,
)
    requires
        keys.len() > 0,
        keys.last() == SortBy::Description,
        fits_selection(tasks, filter, keys, t, r),
        0 <= a < b < r.len(),
        0 <= k < render(tasks[r[a] as int].description).len(),
        k < render(tasks[r[b] as int].description).len(),
        render(tasks[r[a] as int].description).take(k) == render(tasks[r[b] as int].description).take(k),
    ensures
        (render(tasks[r[a] as int].description)[k] as u32) <= (render(tasks[r[b] as int].description)[k] as u32),
{
    lemma_last_key_order(tasks, filter, keys, t, r, a, b);
    let x = render(tasks[r[a] as int].description);
    let y = render(tasks[r[b] as int].description);
    if (y[k] as u32) < (x[k] as u32) {
        lemma_lex_first_difference(y, x, k);
        lemma_lex_anti(x, y);
    }
}

} // verus!
