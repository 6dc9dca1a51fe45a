//! Projects: the `+name` words of task descriptions, and the note files kept
//! for them.
use vstd::prelude::*;

use crate::config::SortBy;
use crate::date::{max_day_number, Date};
use crate::filter::Filter;
use crate::text::{append_chars, chars_eq, chars_of, string_from_chars};
use crate::todotxt::file::{
    all_keys, filter_view, in_order, int_order, lemma_lex_anti, lemma_lex_trans, lex_order, lex_compare, selected,
    TodoTxtFile,
};
use crate::todotxt::{due_key, first_project, meta_day, scheduled_key, TaskView};

verus! {

/// A project, by its name.
#[derive(Clone, Debug, PartialEq, Eq, PartialOrd, Ord, Hash)]
pub struct Project(String);

impl View for Project {
    type V = Seq<char>;

    closed spec fn view(&self) -> Seq<char> {
        self.0@
    }
}

/// A project's name as given: without a leading `+`.
pub open spec fn project_name(s: Seq<char>) -> Seq<char> {
    if s.len() > 0 && s[0] == '+' {
        s.drop_first()
    } else {
        s
    }
}

/// The project whose notes are in the file with this name: the name without
/// a `.md` ending, then without a leading `+`.
pub open spec fn note_project(file_name: Seq<char>) -> Seq<char> {
    let n = file_name.len();
    if n >= 3 && file_name.subrange(n - 3, n as int) == seq!['.', 'm', 'd'] {
        project_name(file_name.subrange(0, n - 3))
    } else {
        project_name(file_name)
    }
}

/// Names in the order of `String`, each once.
pub open spec fn sorted_names(v: Seq<Seq<char>>) -> bool {
    &&& forall|a: int, b: int| 0 <= a < b < v.len() ==> lex_order(#[trigger] v[a], #[trigger] v[b]) <= 0
    &&& forall|a: int, b: int| 0 <= a < b < v.len() ==> #[trigger] v[a] != #[trigger] v[b]
}

/// The names of projects.
pub open spec fn project_names(v: Seq<Project>) -> Seq<Seq<char>> {
    v.map_values(|p: Project| p@)
}

pub open spec fn char_vecs(v: Seq<Vec<char>>) -> Seq<Seq<char>> {
    v.map_values(|x: Vec<char>| x@)
}

/// The names of the projects of tasks: each task's first project.
pub open spec fn task_project(tv: TaskView) -> Option<Seq<char>> {
    first_project(tv.description)
}

impl Project {
    /// The project of the given name, a leading `+` dropped.
    pub fn new(name: &str) -> (r: Project)
        ensures
            r@ == project_name(name@),
    {
        let s = chars_of(name);
        if s.len() > 0 && s[0] == '+' {
            let mut v: Vec<char> = Vec::new();
            let mut i: usize = 1;
            while i < s.len()
                invariant
                    1 <= i <= s@.len(),
                    v@ =~= s@.subrange(1, i as int),
                decreases s@.len() - i,
            {
                v.push(s[i]);
                i = i + 1;
            }
            assert(v@ =~= s@.drop_first());
            Project(string_from_chars(v.as_slice()))
        } else {
            Project(string_from_chars(s.as_slice()))
        }
    }

    /// The project of the given name, as it is.
    pub fn from_name(name: String) -> (r: Project)
        ensures
            r@ == name@,
    {
        Project(name)
    }

    /// The project's name.
    pub fn name(&self) -> (r: &String)
        ensures
            r@ == self@,
    {
        &self.0
    }

    /// The name of the file that holds the project's notes: the name and `.md`.
    pub fn note_file_name(&self) -> (r: String)
        ensures
            r@ == self@ + seq!['.', 'm', 'd'],
    {
        let mut v = chars_of(self.0.as_str());
        v.push('.');
        v.push('m');
        v.push('d');
        string_from_chars(v.as_slice())
    }

    /// The project whose notes are in the file with the given name.
    pub fn of_note_file(file_name: &str) -> (r: Project)
        ensures
            r@ == note_project(file_name@),
    {
        let s = chars_of(file_name);
        let n = s.len();
        if n >= 3 && s[n - 3] == '.' && s[n - 2] == 'm' && s[n - 1] == 'd' {
            assert(s@.subrange(n - 3, n as int) =~= seq!['.', 'm', 'd']);
            let mut v: Vec<char> = Vec::new();
            let mut i: usize = 0;
            while i < n - 3
                invariant
                    n == s@.len(),
                    n >= 3,
                    i <= n - 3,
                    v@ =~= s@.subrange(0, i as int),
                decreases n - 3 - i,
            {
                v.push(s[i]);
                i = i + 1;
            }
            let stem = string_from_chars(v.as_slice());
            Project::new(stem.as_str())
        } else {
            proof {
                if n >= 3 {
                    if s@.subrange(n - 3, n as int) == seq!['.', 'm', 'd'] {
                        assert(s@[n - 3] == s@.subrange(n - 3, n as int)[0]);
                        assert(s@[n - 2] == s@.subrange(n - 3, n as int)[1]);
                        assert(s@[n - 1] == s@.subrange(n - 3, n as int)[2]);
                    }
                }
            }
            Project::new(file_name)
        }
    }

    /// All projects, in the order of their names, each once: those of the
    /// tasks of the file and those with a note file among `note_files`.
    pub fn all(file: &TodoTxtFile, note_files: &Vec<String>) -> (r: Vec<Project>)
        ensures
            sorted_names(project_names(r@)),
            forall|n: Seq<char>|
                #![trigger project_names(r@).contains(n)]
                project_names(r@).contains(n) <==> ((exists|i: int|
                    0 <= i < file@.tasks.len() && task_project(#[trigger] file@.tasks[i]) == Some(n)) || (exists|j: int|
                    0 <= j < note_files@.len() && note_project(#[trigger] note_files@[j]@) == n)),
    {
        let mut names: Vec<Vec<char>> = Vec::new();
        let mut i: usize = 0;
        while i < file.len()
            invariant
                i <= file@.tasks.len(),
                sorted_names(char_vecs(names@)),
                forall|n: Seq<char>|
                    #![trigger char_vecs(names@).contains(n)]
                    char_vecs(names@).contains(n) <==> (exists|k: int|
                        0 <= k < i && task_project(#[trigger] file@.tasks[k]) == Some(n)),
            decreases file@.tasks.len() - i,
        {
            let ghost before = char_vecs(names@);
            match file.task(i).project() {
                Some(p) => {
                    let pc = chars_of(p.as_str());
                    insert_name(&mut names, pc);
                },
                None => {},
            }
            proof {
                let after = char_vecs(names@);
                assert forall|n: Seq<char>| #[trigger] after.contains(n) <==> (exists|k: int|
                    0 <= k < i + 1 && task_project(#[trigger] file@.tasks[k]) == Some(n)) by {
                    if after.contains(n) && !before.contains(n) {
                        assert(task_project(file@.tasks[i as int]) == Some(n));
                    }
                    if exists|k: int| 0 <= k < i + 1 && task_project(#[trigger] file@.tasks[k]) == Some(n) {
                        let k = choose|k: int| 0 <= k < i + 1 && task_project(#[trigger] file@.tasks[k]) == Some(n);
                        if k < i {
                            assert(before.contains(n));
                        }
                    }
                }
            }
            i = i + 1;
        }
        let mut j: usize = 0;
        while j < note_files.len()
            invariant
                j <= note_files@.len(),
                sorted_names(char_vecs(names@)),
                forall|n: Seq<char>|
                    #![trigger char_vecs(names@).contains(n)]
                    char_vecs(names@).contains(n) <==> ((exists|k: int|
                        0 <= k < file@.tasks.len() && task_project(#[trigger] file@.tasks[k]) == Some(n)) || (exists|m: int|
                        0 <= m < j && note_project(#[trigger] note_files@[m]@) == n)),
            decreases note_files@.len() - j,
        {
            let ghost before = char_vecs(names@);
            let p = Project::of_note_file(note_files[j].as_str());
            let pc = chars_of(p.0.as_str());
            insert_name(&mut names, pc);
            proof {
                let after = char_vecs(names@);
                assert forall|n: Seq<char>| #[trigger] after.contains(n) <==> ((exists|k: int|
                    0 <= k < file@.tasks.len() && task_project(#[trigger] file@.tasks[k]) == Some(n)) || (exists|m: int|
                    0 <= m < j + 1 && note_project(#[trigger] note_files@[m]@) == n)) by {
                    if after.contains(n) && !before.contains(n) {
                        assert(note_project(note_files@[j as int]@) == n);
                    }
                    if exists|m: int| 0 <= m < j + 1 && note_project(#[trigger] note_files@[m]@) == n {
                        let m = choose|m: int| 0 <= m < j + 1 && note_project(#[trigger] note_files@[m]@) == n;
                        if m < j {
                            assert(before.contains(n));
                        }
                    }
                }
            }
            j = j + 1;
        }
        let mut out: Vec<Project> = Vec::new();
        let mut k: usize = 0;
        while k < names.len()
            invariant
                k <= names@.len(),
                project_names(out@) =~= char_vecs(names@).take(k as int),
            decreases names@.len() - k,
        {
            let s = string_from_chars(names[k].as_slice());
            let ghost before = project_names(out@);
            let pr = Project(s);
            assert(pr@ == names@[k as int]@);
            out.push(pr);
            assert(project_names(out@) =~= before.push(pr@));
            assert(char_vecs(names@)[k as int] == names@[k as int]@);
            assert(char_vecs(names@).take(k + 1) =~= char_vecs(names@).take(k as int).push(names@[k as int]@));
            k = k + 1;
        }
        assert(char_vecs(names@).take(names@.len() as int) =~= char_vecs(names@));
        out
    }

    /// The tasks of the project among those that pass the filter, in order,
    /// with today being `today`: as `filtered_sorted_on`, keeping the tasks
    /// whose first project is this one.
    pub fn tasks_on(&self, file: &TodoTxtFile, filter: Option<&Filter>, sort_by: &[SortBy], today: Date) -> (r: Vec<usize>)
        ensures
            forall|k: int| 0 <= k < r@.len() ==> (#[trigger] r@[k]) < file@.tasks.len(),
            forall|i: int|
                0 <= i < file@.tasks.len() ==> (r@.contains(i as usize) <==> (selected(
                    filter_view(filter),
                    #[trigger] file@.tasks[i],
                    today@,
                ) && task_project(file@.tasks[i]) == Some(self@))),
            in_order(sort_by@, all_keys(file@.tasks, today@), r@),
    {
        let order = file.filtered_sorted_on(filter, sort_by, today);
        let ntasks = file.len();
        let ghost ks = all_keys(file@.tasks, today@);
        let mut out: Vec<usize> = Vec::new();
        let ghost mut pos: Seq<int> = seq![];
        let mut k: usize = 0;
        while k < order.len()
            invariant
                k <= order@.len(),
                ntasks == file@.tasks.len(),
                ks == all_keys(file@.tasks, today@),
                in_order(sort_by@, ks, order@),
                forall|q: int| 0 <= q < order@.len() ==> (#[trigger] order@[q]) < file@.tasks.len(),
                pos.len() == out@.len(),
                forall|q: int| 0 <= q < out@.len() ==> (#[trigger] out@[q]) < file@.tasks.len(),
                forall|q: int| 0 <= q < pos.len() ==> 0 <= #[trigger] pos[q] < k && out@[q] == order@[pos[q]],
                forall|a: int, b: int| 0 <= a < b < pos.len() ==> #[trigger] pos[a] < #[trigger] pos[b],
                forall|i: int|
                    0 <= i < file@.tasks.len() ==> (out@.contains(i as usize) <==> (order@.take(k as int).contains(
                        i as usize,
                    ) && task_project(#[trigger] file@.tasks[i]) == Some(self@))),
            decreases order@.len() - k,
        {
            let idx = order[k];
            let keep = match file.task(idx).project() {
                Some(p) => {
                    let pc = chars_of(p.as_str());
                    let sc = chars_of(self.0.as_str());
                    chars_eq(pc.as_slice(), sc.as_slice())
                },
                None => false,
            };
            assert(keep == (task_project(file@.tasks[idx as int]) == Some(self@)));
            let ghost before = out@;
            if keep {
                out.push(idx);
                proof {
                    pos = pos.push(k as int);
                }
            }
            proof {
                lemma_filter_step(order@, k as int, before, out@, idx, keep);
                assert forall|i: int| 0 <= i < file@.tasks.len() implies (out@.contains(i as usize) <==> (order@.take(
                    k + 1,
                ).contains(i as usize) && task_project(#[trigger] file@.tasks[i]) == Some(self@))) by {
                    let x = i as usize;
                    assert(before.contains(x) <==> (order@.take(k as int).contains(x) && task_project(
                        file@.tasks[i],
                    ) == Some(self@)));
                    assert(out@.contains(x) <==> (before.contains(x) || (keep && x == idx)));
                    assert(order@.take(k + 1).contains(x) <==> (order@.take(k as int).contains(x) || x == idx));
                    if x == idx {
                        assert(i == idx as int);
                    }
                }
            }
            k = k + 1;
        }
        assert(order@.take(order@.len() as int) =~= order@);
        proof {
            assert forall|a: int, b: int| 0 <= a < b < out@.len() implies crate::todotxt::file::precedes(
                sort_by@,
                ks,
                #[trigger] out@[a] as int,
                #[trigger] out@[b] as int,
            ) by {
                assert(pos[a] < pos[b]);
                assert(out@[a] == order@[pos[a]]);
                assert(out@[b] == order@[pos[b]]);
            }
        }
        out
    }
}

proof fn lemma_filter_step(order: Seq<usize>, k: int, before: Seq<usize>, after: Seq<usize>, idx: usize, keep: bool)
    requires
        0 <= k < order.len(),
        order[k] == idx,
        after == (if keep { before.push(idx) } else { before }),
    ensures
        forall|x: usize| #[trigger] order.take(k + 1).contains(x) <==> (order.take(k).contains(x) || x == idx),
        forall|x: usize| #[trigger] after.contains(x) <==> (before.contains(x) || (keep && x == idx)),
{
    assert(order.take(k + 1) =~= order.take(k).push(idx));
    assert forall|x: usize| #[trigger] order.take(k + 1).contains(x) <==> (order.take(k).contains(x) || x == idx) by {
        if order.take(k + 1).contains(x) {
            let w = choose|w: int| 0 <= w < k + 1 && #[trigger] order.take(k + 1)[w] == x;
            if w < k {
                assert(order.take(k)[w] == x);
            }
        }
        if order.take(k).contains(x) {
            let w = choose|w: int| 0 <= w < k && #[trigger] order.take(k)[w] == x;
            assert(order.take(k + 1)[w] == x);
        }
        if x == idx {
            assert(order.take(k + 1)[k] == x);
        }
    }
    assert forall|x: usize| #[trigger] after.contains(x) <==> (before.contains(x) || (keep && x == idx)) by {
        if keep {
            if after.contains(x) {
                let w = choose|w: int| 0 <= w < after.len() && after[w] == x;
                if w < before.len() {
                    assert(before[w] == x);
                }
            }
            if before.contains(x) {
                let w = choose|w: int| 0 <= w < before.len() && before[w] == x;
                assert(after[w] == x);
            }
            if x == idx {
                assert(after[before.len() as int] == x);
            }
        }
    }
}

/// Inserts a name into a list of names in the order of `String`, each once.
fn insert_name(names: &mut Vec<Vec<char>>, x: Vec<char>)
    requires
        sorted_names(char_vecs(old(names)@)),
    ensures
        sorted_names(char_vecs(final(names)@)),
        forall|n: Seq<char>|
            #![trigger char_vecs(final(names)@).contains(n)]
            char_vecs(final(names)@).contains(n) <==> (char_vecs(old(names)@).contains(n) || n == x@),
{
    let ghost s = char_vecs(names@);
    let mut q: usize = 0;
    while q < names.len()
        invariant
            q <= names@.len(),
            s == char_vecs(names@),
            sorted_names(s),
            forall|j: int| 0 <= j < q ==> s[j] != x@,
        decreases names@.len() - q,
    {
        if chars_eq(names[q].as_slice(), x.as_slice()) {
            proof {
                assert(s[q as int] == x@);
                assert forall|n: Seq<char>| #[trigger] s.contains(n) <==> (s.contains(n) || n == x@) by {
                    if n == x@ {
                        assert(s[q as int] == n);
                    }
                }
            }
            return;
        }
        q = q + 1;
    }
    let mut p: usize = 0;
    while p < names.len() && lex_compare(names[p].as_slice(), x.as_slice()) <= 0
        invariant
            p <= names@.len(),
            s == char_vecs(names@),
            forall|j: int| 0 <= j < p ==> lex_order(#[trigger] s[j], x@) <= 0,
        decreases names@.len() - p,
    {
        p = p + 1;
    }
    proof {
        if p < s.len() {
            lemma_lex_anti(s[p as int], x@);
        }
    }
    names.insert(p, x);
    proof {
        let t = char_vecs(names@);
        assert(t =~= s.insert(p as int, x@));
        assert forall|a: int, b: int| 0 <= a < b < t.len() implies lex_order(#[trigger] t[a], #[trigger] t[b]) <= 0 by {
            if b < p {
                assert(t[a] == s[a] && t[b] == s[b]);
            } else if b == p {
                assert(t[a] == s[a]);
            } else if a < p {
                assert(t[a] == s[a] && t[b] == s[b - 1]);
                if b - 1 > p {
                    assert(lex_order(s[p as int], s[b - 1]) <= 0);
                    lemma_lex_trans(x@, s[p as int], s[b - 1]);
                }
                assert(lex_order(x@, s[b - 1]) <= 0);
                assert(lex_order(s[a], x@) <= 0);
                lemma_lex_trans(s[a], x@, s[b - 1]);
            } else if a == p {
                assert(t[b] == s[b - 1]);
                if b - 1 > p {
                    assert(lex_order(s[p as int], s[b - 1]) <= 0);
                    lemma_lex_trans(x@, s[p as int], s[b - 1]);
                }
            } else {
                assert(t[a] == s[a - 1] && t[b] == s[b - 1]);
            }
        }
        assert forall|a: int, b: int| 0 <= a < b < t.len() implies #[trigger] t[a] != #[trigger] t[b] by {
            if b < p {
                assert(t[a] == s[a] && t[b] == s[b]);
            } else if b == p {
                assert(t[a] == s[a]);
            } else if a < p {
                assert(t[a] == s[a] && t[b] == s[b - 1]);
            } else if a == p {
                assert(t[b] == s[b - 1]);
            } else {
                assert(t[a] == s[a - 1] && t[b] == s[b - 1]);
            }
        }
        assert forall|n: Seq<char>| #[trigger] t.contains(n) <==> (s.contains(n) || n == x@) by {
            if t.contains(n) {
                let w = choose|w: int| 0 <= w < t.len() && t[w] == n;
                if w < p {
                    assert(s[w] == n);
                } else if w > p {
                    assert(s[w - 1] == n);
                }
            }
            if n == x@ {
                assert(t[p as int] == n);
            }
            if s.contains(n) {
                let w = choose|w: int| 0 <= w < s.len() && s[w] == n;
                if w < p {
                    assert(t[w] == n);
                } else {
                    assert(t[w + 1] == n);
                }
            }
        }
    }
}


// ---------------------------------------------------------------------------
// The order of the project overview
// ---------------------------------------------------------------------------

/// Sequences of numbers in lexicographic order: negative, zero or positive
/// as `a` comes before, with, or after `b`.
pub open spec fn seq_order(a: Seq<int>, b: Seq<int>) -> int
    decreases a.len(),
{
    if a.len() == 0 || b.len() == 0 {
        int_order(a.len() as int, b.len() as int)
    } else if a[0] < b[0] {
        -1
    } else if a[0] > b[0] {
        1
    } else {
        seq_order(a.drop_first(), b.drop_first())
    }
}

proof fn lemma_seq_order_anti(a: Seq<int>, b: Seq<int>)
    ensures
        seq_order(a, b) == -seq_order(b, a),
    decreases a.len(),
{
    if a.len() > 0 && b.len() > 0 && a[0] == b[0] {
        lemma_seq_order_anti(a.drop_first(), b.drop_first());
    }
}

proof fn lemma_seq_order_trans(a: Seq<int>, b: Seq<int>, c: Seq<int>)
    requires
        seq_order(a, b) <= 0,
        seq_order(b, c) <= 0,
    ensures
        seq_order(a, c) <= 0,
    decreases a.len(),
{
    if a.len() > 0 && b.len() > 0 && c.len() > 0 && a[0] == b[0] && b[0] == c[0] {
        lemma_seq_order_trans(a.drop_first(), b.drop_first(), c.drop_first());
    }
}

/// Whether item `i` comes before item `j`: by their keys, and where these
/// tie, by their places.
pub open spec fn key_precedes(keys: Seq<Seq<int>>, i: int, j: int) -> bool {
    let c = seq_order(keys[i], keys[j]);
    c < 0 || (c == 0 && i < j)
}

pub open spec fn in_key_order(keys: Seq<Seq<int>>, r: Seq<usize>) -> bool {
    forall|a: int, b: int| 0 <= a < b < r.len() ==> key_precedes(keys, #[trigger] r[a] as int, #[trigger] r[b] as int)
}

proof fn lemma_key_precedes_trans(keys: Seq<Seq<int>>, i: int, j: int, l: int)
    requires
        key_precedes(keys, i, j),
        key_precedes(keys, j, l),
    ensures
        key_precedes(keys, i, l),
{
    lemma_seq_order_trans(keys[i], keys[j], keys[l]);
    lemma_seq_order_anti(keys[i], keys[j]);
    lemma_seq_order_anti(keys[j], keys[l]);
    lemma_seq_order_anti(keys[i], keys[l]);
    if seq_order(keys[i], keys[l]) == 0 {
        if seq_order(keys[i], keys[j]) < 0 {
            lemma_seq_order_trans(keys[j], keys[l], keys[i]);
        } else if seq_order(keys[j], keys[l]) < 0 {
            lemma_seq_order_trans(keys[l], keys[i], keys[j]);
        }
    }
}

/// The smallest of `d` and the numbers of `s`.
pub open spec fn min_from(s: Seq<int>, d: int) -> int
    decreases s.len(),
{
    if s.len() == 0 {
        d
    } else {
        let m = min_from(s.drop_last(), d);
        if s.last() < m { s.last() } else { m }
    }
}

pub open spec fn day_or_last(d: Option<int>) -> int {
    match d {
        Some(n) => n,
        None => max_day_number(),
    }
}

/// The code of the task's priority letter; the last character there is for none.
pub open spec fn priority_code(tv: TaskView) -> int {
    match tv.priority {
        Some(p) => (p as u32) as int,
        None => 0x10FFFF,
    }
}

/// Where a project with the tasks `list` stands in the overview on day `t`:
/// latest earliest scheduled date first, then latest earliest due date, then
/// lowest best priority, then fewest tasks. A project without such a date or
/// priority counts as having the last one there is.
pub open spec fn overview_key(tasks: Seq<TaskView>, list: Seq<usize>, t: int) -> Seq<int> {
    let tvs = list.map_values(|i: usize| tasks[i as int]);
    let s = min_from(tvs.map_values(|tv: TaskView| day_or_last(meta_day(tv, scheduled_key(), t))), max_day_number());
    let d = min_from(tvs.map_values(|tv: TaskView| day_or_last(meta_day(tv, due_key(), t))), max_day_number());
    let p = min_from(tvs.map_values(|tv: TaskView| priority_code(tv)), 0x10FFFF);
    seq![0 - s, 0 - d, 0 - p, list.len() as int]
}

pub open spec fn overview_keys(tasks: Seq<TaskView>, lists: Seq<Vec<usize>>, t: int) -> Seq<Seq<int>> {
    lists.map_values(|l: Vec<usize>| overview_key(tasks, l@, t))
}

fn date_key_or_last(d: Option<Date>) -> (r: i128)
    ensures
        r == day_or_last(match d {
            Some(x) => Some(x@),
            None => None,
        }),
        crate::date::min_day_number() <= r <= max_day_number(),
{
    match d {
        Some(x) => {
            proof {
                use_type_invariant(&x);
            }
            x.day_number() as i128
        },
        None => 95745399i128,
    }
}

/// The overview key of one project's tasks.
fn overview_key_of(file: &TodoTxtFile, list: &Vec<usize>, today: Date) -> (r: Vec<i128>)
    requires
        forall|k: int| 0 <= k < list@.len() ==> (#[trigger] list@[k]) < file@.tasks.len(),
    ensures
        r@.map_values(|x: i128| x as int) == overview_key(file@.tasks, list@, today@),
{
    let ghost tvs = list@.map_values(|i: usize| file@.tasks[i as int]);
    let mut sched: i128 = 95745399;
    let mut due: i128 = 95745399;
    let mut prio: i128 = 0x10FFFF;
    let mut k: usize = 0;
    while k < list.len()
        invariant
            k <= list@.len(),
            tvs == list@.map_values(|i: usize| file@.tasks[i as int]),
            forall|j: int| 0 <= j < list@.len() ==> (#[trigger] list@[j]) < file@.tasks.len(),
            sched == min_from(tvs.take(k as int).map_values(|tv: TaskView| day_or_last(meta_day(tv, scheduled_key(), today@))), max_day_number()),
            due == min_from(tvs.take(k as int).map_values(|tv: TaskView| day_or_last(meta_day(tv, due_key(), today@))), max_day_number()),
            prio == min_from(tvs.take(k as int).map_values(|tv: TaskView| priority_code(tv)), 0x10FFFF),
            -95746129 <= sched <= 95745399,
            -95746129 <= due <= 95745399,
            0 <= prio,
        decreases list@.len() - k,
    {
        let task = file.task(list[k]);
        let s = date_key_or_last(task.scheduled_day_on(today));
        let d = date_key_or_last(task.due_day_on(today));
        let p: i128 = match task.priority() {
            Some(c) => (c as u32) as i128,
            None => 0x10FFFF,
        };
        proof {
            let t1 = tvs.take(k + 1);
            assert(t1.drop_last() =~= tvs.take(k as int));
            assert(t1.last() == file@.tasks[list@[k as int] as int]);
            assert(t1.map_values(|tv: TaskView| day_or_last(meta_day(tv, scheduled_key(), today@))).drop_last()
                =~= tvs.take(k as int).map_values(|tv: TaskView| day_or_last(meta_day(tv, scheduled_key(), today@))));
            assert(t1.map_values(|tv: TaskView| day_or_last(meta_day(tv, due_key(), today@))).drop_last()
                =~= tvs.take(k as int).map_values(|tv: TaskView| day_or_last(meta_day(tv, due_key(), today@))));
            assert(t1.map_values(|tv: TaskView| priority_code(tv)).drop_last()
                =~= tvs.take(k as int).map_values(|tv: TaskView| priority_code(tv)));
        }
        if s < sched {
            sched = s;
        }
        if d < due {
            due = d;
        }
        if p < prio {
            prio = p;
        }
        k = k + 1;
    }
    assert(tvs.take(list@.len() as int) =~= tvs);
    assert(overview_key(file@.tasks, list@, today@) == seq![0 - sched, 0 - due, 0 - prio, list@.len() as int]);
    let n = list.len() as i128;
    let ns: i128 = 0i128 - sched;
    let nd: i128 = 0i128 - due;
    let np: i128 = 0i128 - prio;
    let mut r: Vec<i128> = Vec::new();
    r.push(ns);
    r.push(nd);
    r.push(np);
    r.push(n);
    assert(r@.map_values(|x: i128| x as int) =~= overview_key(file@.tasks, list@, today@));
    r
}

fn seq_compare(a: &Vec<i128>, b: &Vec<i128>) -> (r: i128)
    ensures
        r == seq_order(a@.map_values(|x: i128| x as int), b@.map_values(|x: i128| x as int)),
{
    let ghost sa = a@.map_values(|x: i128| x as int);
    let ghost sb = b@.map_values(|x: i128| x as int);
    let mut i: usize = 0;
    assert(sa.skip(0) =~= sa);
    assert(sb.skip(0) =~= sb);
    while i < a.len() && i < b.len()
        invariant
            i <= a@.len(),
            i <= b@.len(),
            sa == a@.map_values(|x: i128| x as int),
            sb == b@.map_values(|x: i128| x as int),
            seq_order(sa, sb) == seq_order(sa.skip(i as int), sb.skip(i as int)),
        decreases a@.len() - i,
    {
        assert(sa.skip(i as int)[0] == a@[i as int] as int);
        assert(sb.skip(i as int)[0] == b@[i as int] as int);
        if a[i] < b[i] {
            return -1;
        }
        if a[i] > b[i] {
            return 1;
        }
        assert(sa.skip(i as int).drop_first() =~= sa.skip(i + 1));
        assert(sb.skip(i as int).drop_first() =~= sb.skip(i + 1));
        i = i + 1;
    }
    if i < b.len() {
        -1
    } else if i < a.len() {
        1
    } else {
        0
    }
}

/// The order in which the overview shows projects, given each project's
/// tasks (the lines of its tasks among those shown), with today being
/// `today`: every project once, by `overview_key`, and where keys tie in the
/// order given.
pub fn overview_order_on(file: &TodoTxtFile, lists: &Vec<Vec<usize>>, today: Date) -> (r: Vec<usize>)
    requires
        forall|p: int, k: int|
            0 <= p < lists@.len() && 0 <= k < lists@[p]@.len() ==> (#[trigger] lists@[p]@[k]) < file@.tasks.len(),
    ensures
        r@.len() == lists@.len(),
        forall|k: int| 0 <= k < r@.len() ==> (#[trigger] r@[k]) < lists@.len(),
        forall|i: int| 0 <= i < lists@.len() ==> #[trigger] r@.contains(i as usize),
        in_key_order(overview_keys(file@.tasks, lists@, today@), r@),
{
    let ghost keys = overview_keys(file@.tasks, lists@, today@);
    let mut recs: Vec<Vec<i128>> = Vec::new();
    let mut n: usize = 0;
    while n < lists.len()
        invariant
            n <= lists@.len(),
            keys == overview_keys(file@.tasks, lists@, today@),
            forall|p: int, k: int|
                0 <= p < lists@.len() && 0 <= k < lists@[p]@.len() ==> (#[trigger] lists@[p]@[k]) < file@.tasks.len(),
            recs@.len() == n,
            forall|k: int| 0 <= k < n ==> (#[trigger] recs@[k])@.map_values(|x: i128| x as int) == keys[k],
        decreases lists@.len() - n,
    {
        let rec = overview_key_of(file, &lists[n], today);
        recs.push(rec);
        n = n + 1;
    }
    let mut out: Vec<usize> = Vec::new();
    let mut i: usize = 0;
    while i < lists.len()
        invariant
            i <= lists@.len(),
            keys.len() == lists@.len(),
            recs@.len() == lists@.len(),
            forall|k: int| 0 <= k < recs@.len() ==> (#[trigger] recs@[k])@.map_values(|x: i128| x as int) == keys[k],
            out@.len() == i,
            forall|k: int| 0 <= k < out@.len() ==> (#[trigger] out@[k]) < i,
            forall|j: int| 0 <= j < i ==> #[trigger] out@.contains(j as usize),
            in_key_order(keys, out@),
        decreases lists@.len() - i,
    {
        let ghost before = out@;
        let mut p: usize = 0;
        while p < out.len() && seq_compare(&recs[out[p]], &recs[i]) <= 0
            invariant
                p <= out@.len(),
                out@ == before,
                i < lists@.len(),
                recs@.len() == lists@.len(),
                keys.len() == lists@.len(),
                forall|k: int| 0 <= k < recs@.len() ==> (#[trigger] recs@[k])@.map_values(|x: i128| x as int) == keys[k],
                forall|k: int| 0 <= k < out@.len() ==> (#[trigger] out@[k]) < i,
                forall|q: int| 0 <= q < p ==> key_precedes(keys, #[trigger] out@[q] as int, i as int),
            decreases out@.len() - p,
        {
            assert(out@[p as int] < i);
            p = p + 1;
        }
        proof {
            if p < out@.len() {
                lemma_seq_order_anti(keys[out@[p as int] as int], keys[i as int]);
                assert(key_precedes(keys, i as int, out@[p as int] as int));
            }
            lemma_insert_key_order(keys, out@, i, p as int);
        }
        out.insert(p, i);
        proof {
            let t = out@;
            assert(t =~= before.insert(p as int, i));
            assert forall|k: int| 0 <= k < t.len() implies (#[trigger] t[k]) < i + 1 by {
                if k < p {
                    assert(t[k] == before[k]);
                } else if k > p {
                    assert(t[k] == before[k - 1]);
                }
            }
            assert forall|j: int| 0 <= j < i + 1 implies #[trigger] t.contains(j as usize) by {
                if j < i {
                    assert(before.contains(j as usize));
                    let w = choose|w: int| 0 <= w < before.len() && before[w] == j as usize;
                    if w < p {
                        assert(t[w] == j as usize);
                    } else {
                        assert(t[w + 1] == j as usize);
                    }
                } else {
                    assert(t[p as int] == i);
                }
            }
        }
        i = i + 1;
    }
    out
}

proof fn lemma_insert_key_order(keys: Seq<Seq<int>>, out: Seq<usize>, x: usize, p: int)
    requires
        0 <= p <= out.len(),
        in_key_order(keys, out),
        forall|q: int| 0 <= q < p ==> key_precedes(keys, #[trigger] out[q] as int, x as int),
        p < out.len() ==> key_precedes(keys, x as int, out[p] as int),
    ensures
        in_key_order(keys, out.insert(p, x)),
{
    let t = out.insert(p, x);
    assert forall|a: int, b: int| 0 <= a < b < t.len() implies key_precedes(keys, #[trigger] t[a] as int, #[trigger] t[b] as int) by {
        if b < p {
            assert(t[a] == out[a] && t[b] == out[b]);
        } else if b == p {
            assert(t[a] == out[a] && t[b] == x);
        } else if a < p {
            assert(t[a] == out[a] && t[b] == out[b - 1]);
            if b - 1 > p {
                assert(key_precedes(keys, out[p] as int, out[b - 1] as int));
                lemma_key_precedes_trans(keys, x as int, out[p] as int, out[b - 1] as int);
            }
            lemma_key_precedes_trans(keys, out[a] as int, x as int, out[b - 1] as int);
        } else if a == p {
            assert(t[a] == x && t[b] == out[b - 1]);
            if b - 1 > p {
                assert(key_precedes(keys, out[p] as int, out[b - 1] as int));
                lemma_key_precedes_trans(keys, x as int, out[p] as int, out[b - 1] as int);
            }
        } else {
            assert(t[a] == out[a - 1] && t[b] == out[b - 1]);
        }
    }
}

/// `min_from(s, d)` is the least of `d` and the items of `s`.
pub proof fn lemma_min_from_is_least(s: Seq<int>, d: int)
    ensures
        min_from(s, d) <= d,
        forall|i: int| 0 <= i < s.len() ==> min_from(s, d) <= #[trigger] s[i],
        min_from(s, d) == d || exists|i: int| 0 <= i < s.len() && min_from(s, d) == #[trigger] s[i],
    decreases s.len(),
{
    if s.len() > 0 {
        let p = s.drop_last();
        lemma_min_from_is_least(p, d);
        assert forall|i: int| 0 <= i < s.len() implies min_from(s, d) <= #[trigger] s[i] by {
            if i < p.len() {
                assert(p[i] == s[i]);
            }
        }
        if min_from(s, d) != d && min_from(s, d) != s.last() {
            let i = choose|i: int| 0 <= i < p.len() && min_from(p, d) == #[trigger] p[i];
            assert(s[i] == p[i]);
        }
    }
}

/// The earliest day by `key` (`due` or `scheduled`) of the listed tasks on
/// day `t`; a task without one counts as after every day chrono holds, and so
/// does a project without tasks.
pub open spec fn earliest_day(tasks: Seq<TaskView>, list: Seq<usize>, key: Seq<char>, t: int) -> int {
    min_from(
        list.map_values(|i: usize| tasks[i as int]).map_values(|tv: TaskView| day_or_last(meta_day(tv, key, t))),
        max_day_number(),
    )
}

/// The highest priority of the listed tasks, as the code of its letter (the
/// last character there is for none).
pub open spec fn top_priority(tasks: Seq<TaskView>, list: Seq<usize>) -> int {
    min_from(list.map_values(|i: usize| tasks[i as int]).map_values(|tv: TaskView| priority_code(tv)), 0x10FFFF)
}

proof fn lemma_seq_order_four(x: Seq<int>, y: Seq<int>)
    requires
        x.len() == 4,
        y.len() == 4,
        seq_order(x, y) <= 0,
    ensures
        x[0] <= y[0],
        x[0] == y[0] ==> x[1] <= y[1],
        x[0] == y[0] && x[1] == y[1] ==> x[2] <= y[2],
        x[0] == y[0] && x[1] == y[1] && x[2] == y[2] ==> x[3] <= y[3],
        x[0] == y[0] && x[1] == y[1] && x[2] == y[2] && x[3] == y[3] ==> seq_order(x, y) == 0,
{
    let x1 = x.drop_first();
    let y1 = y.drop_first();
    let x2 = x1.drop_first();
    let y2 = y1.drop_first();
    let x3 = x2.drop_first();
    let y3 = y2.drop_first();
    let x4 = x3.drop_first();
    let y4 = y3.drop_first();
    assert(x4.len() == 0 && y4.len() == 0);
    assert(seq_order(x4, y4) == 0);
    if x[0] == y[0] {
        assert(seq_order(x, y) == seq_order(x1, y1));
        assert(x1[0] == x[1] && y1[0] == y[1]);
        if x[1] == y[1] {
            assert(seq_order(x1, y1) == seq_order(x2, y2));
            assert(x2[0] == x[2] && y2[0] == y[2]);
            if x[2] == y[2] {
                assert(seq_order(x2, y2) == seq_order(x3, y3));
                assert(x3[0] == x[3] && y3[0] == y[3]);
                if x[3] == y[3] {
                    assert(seq_order(x3, y3) == seq_order(x4, y4));
                }
            }
        }
    }
}

/// The project overview comes in this order: the project whose earliest
/// scheduled day is latest first (a project with nothing scheduled counts as
/// latest); where those agree, the one whose earliest due day is latest; then
/// the one whose highest priority is lowest (the latest letter); then the
/// one with fewer tasks; then the order of the projects.
pub proof fn lemma_overview_order(tasks: Seq<TaskView>, lists: Seq<Vec<usize>>, t: int, r: Seq<usize>, a: int, b: int)
    requires
        in_key_order(overview_keys(tasks, lists, t), r),
        0 <= a < b < r.len(),
        r[a] < lists.len(),
        r[b] < lists.len(),
    ensures
        ({
            let p = lists[r[a] as int]@;
            let q = lists[r[b] as int]@;
            let sp = earliest_day(tasks, p, scheduled_key(), t);
            let sq = earliest_day(tasks, q, scheduled_key(), t);
            let dp = earliest_day(tasks, p, due_key(), t);
            let dq = earliest_day(tasks, q, due_key(), t);
            let pp = top_priority(tasks, p);
            let pq = top_priority(tasks, q);
            &&& sp >= sq
            &&& sp == sq ==> dp >= dq
            &&& sp == sq && dp == dq ==> pp >= pq
            &&& sp == sq && dp == dq && pp == pq ==> p.len() <= q.len()
            &&& sp == sq && dp == dq && pp == pq && p.len() == q.len() ==> r[a] < r[b]
        }),
{
    let keys = overview_keys(tasks, lists, t);
    assert(key_precedes(keys, r[a] as int, r[b] as int));
    let kp = keys[r[a] as int];
    let kq = keys[r[b] as int];
    assert(kp == overview_key(tasks, lists[r[a] as int]@, t));
    assert(kq == overview_key(tasks, lists[r[b] as int]@, t));
    let p = lists[r[a] as int]@;
    let q = lists[r[b] as int]@;
    assert(kp == seq![
        0 - earliest_day(tasks, p, scheduled_key(), t),
        0 - earliest_day(tasks, p, due_key(), t),
        0 - top_priority(tasks, p),
        p.len() as int,
    ]);
    assert(kq == seq![
        0 - earliest_day(tasks, q, scheduled_key(), t),
        0 - earliest_day(tasks, q, due_key(), t),
        0 - top_priority(tasks, q),
        q.len() as int,
    ]);
    if seq_order(kp, kq) > 0 {
        assert(false);
    }
    lemma_seq_order_four(kp, kq);
}

} // verus!
