//! What the interactive commands decide: field names, which tasks an answer
//! selects, and the labels of a listing.
use vstd::prelude::*;

use crate::config::ViewConfig;
use crate::commands::{char_boundary, char_width_exec, lemma_utf8_len_mono, lemma_utf8_len_take, utf8_len};
use crate::style::{
    clean, color_code, escape_resets, has_esc, lemma_clean_concat, lemma_clean_part, lemma_painted, lemma_strip_concat,
    lemma_strip_plain, split_point,
    paint_bold, paint_color, paint_heading, paint_italic, painted, reset_seq, sgr, strip_ansi, TermColor,
};
use crate::error::ToroError;
use crate::text::{
    all_digits, append_chars, chars_of, first_index_from, find_char_from, is_prefix, lemma_first_index_from,
    nat_digits, pad_left, pad_left_chars, parse_unsigned, parse_usize, slice_range, starts_with,
    string_from_chars, string_from_str, u64_chars,
};
use crate::todotxt::file::{join_lines, lemma_join_push, lines_acc, split_lines, text_lines, TodoTxtFile};
use crate::todotxt::task_text;

verus! {

// ---------------------------------------------------------------------------
// Fields
// ---------------------------------------------------------------------------

/// A field of a task that a command can change.
#[derive(Clone, Copy, Debug, PartialEq, Eq, Structural)]
pub enum FieldSelection {
    Completed,
    CompletionDate,
    CreationDate,
    Description,
    Due,
    Priority,
    Scheduled,
}

/// The name of a field, as the user types it.
pub open spec fn field_name(f: FieldSelection) -> Seq<char> {
    match f {
        FieldSelection::Completed => "completed"@,
        FieldSelection::Priority => "priority"@,
        FieldSelection::CompletionDate => "completion-date"@,
        FieldSelection::CreationDate => "creation-date"@,
        FieldSelection::Description => "description"@,
        FieldSelection::Due => "due"@,
        FieldSelection::Scheduled => "scheduled"@,
    }
}

pub const COMPLETED_COLOR: TermColor = TermColor::BrightCyan;
pub const COMPLETION_DATE_COLOR: TermColor = TermColor::Cyan;
pub const CREATION_DATE_COLOR: TermColor = TermColor::Blue;
pub const DESCRIPTION_COLOR: TermColor = SELECTION_COLOR;
pub const DUE_COLOR: TermColor = TermColor::Green;
pub const OVERDUE_COLOR: TermColor = TermColor::Red;
pub const PENDING_COLOR: TermColor = TermColor::BrightBlue;
pub const PRIORITY_A_COLOR: TermColor = TermColor::BrightMagenta;
pub const PRIORITY_B_COLOR: TermColor = TermColor::BrightYellow;
pub const PRIORITY_COLOR: TermColor = PRIORITY_A_COLOR;
pub const SCHEDULED_COLOR: TermColor = TermColor::BrightGreen;
pub const SELECTION_COLOR: TermColor = TermColor::Yellow;

/// The color a field is shown in.
pub open spec fn field_color(f: FieldSelection) -> TermColor {
    match f {
        FieldSelection::Completed => COMPLETED_COLOR,
        FieldSelection::CompletionDate => COMPLETION_DATE_COLOR,
        FieldSelection::CreationDate => CREATION_DATE_COLOR,
        FieldSelection::Description => DESCRIPTION_COLOR,
        FieldSelection::Due => DUE_COLOR,
        FieldSelection::Priority => PRIORITY_COLOR,
        FieldSelection::Scheduled => SCHEDULED_COLOR,
    }
}

/// The fields in the order they are offered.
pub open spec fn offered_fields() -> Seq<FieldSelection> {
    seq![
        FieldSelection::Completed,
        FieldSelection::Priority,
        FieldSelection::CompletionDate,
        FieldSelection::CreationDate,
        FieldSelection::Description,
        FieldSelection::Due,
        FieldSelection::Scheduled,
    ]
}

/// The fields among `fs` whose name starts with `answer`, in order.
pub open spec fn fields_starting(fs: Seq<FieldSelection>, answer: Seq<char>) -> Seq<FieldSelection>
    decreases fs.len(),
{
    if fs.len() == 0 {
        seq![]
    } else {
        (if is_prefix(answer, field_name(fs[0])) { seq![fs[0]] } else { seq![] })
            + fields_starting(fs.drop_first(), answer)
    }
}

/// What an answer to "which field" names.
#[derive(Debug, PartialEq, Eq, Structural)]
pub enum FieldMatch {
    /// Exactly one field's name starts with the answer.
    Unique(FieldSelection),
    /// Several do.
    Ambiguous,
    /// None does.
    Invalid,
}

impl FieldSelection {
    /// The field's name.
    pub fn to_string(&self) -> (r: String)
        ensures
            r@ == field_name(*self),
    {
        match self {
            FieldSelection::Completed => string_from_str("completed"),
            FieldSelection::Priority => string_from_str("priority"),
            FieldSelection::CompletionDate => string_from_str("completion-date"),
            FieldSelection::CreationDate => string_from_str("creation-date"),
            FieldSelection::Description => string_from_str("description"),
            FieldSelection::Due => string_from_str("due"),
            FieldSelection::Scheduled => string_from_str("scheduled"),
        }
    }
}

impl FieldSelection {
    /// The color the field is shown in.
    pub fn color(self) -> (r: TermColor)
        ensures
            r == field_color(self),
    {
        match self {
            FieldSelection::Completed => COMPLETED_COLOR,
            FieldSelection::CompletionDate => COMPLETION_DATE_COLOR,
            FieldSelection::CreationDate => CREATION_DATE_COLOR,
            FieldSelection::Description => DESCRIPTION_COLOR,
            FieldSelection::Due => DUE_COLOR,
            FieldSelection::Priority => PRIORITY_COLOR,
            FieldSelection::Scheduled => SCHEDULED_COLOR,
        }
    }

    /// The field's name in its color.
    pub fn to_string_fancy(self) -> (r: String)
        ensures
            painted(r@, field_name(self), color_code(field_color(self))),
    {
        let name = self.to_string();
        proof {
            reveal_strlit("completed");
            reveal_strlit("priority");
            reveal_strlit("completion-date");
            reveal_strlit("creation-date");
            reveal_strlit("description");
            reveal_strlit("due");
            reveal_strlit("scheduled");
            assert(!name@.contains('\u{1b}'));
        }
        paint_color(name.as_str(), self.color())
    }
}

fn offered_field(i: usize) -> (r: FieldSelection)
    requires
        i < 7,
    ensures
        r == offered_fields()[i as int],
{
    if i == 0 {
        FieldSelection::Completed
    } else if i == 1 {
        FieldSelection::Priority
    } else if i == 2 {
        FieldSelection::CompletionDate
    } else if i == 3 {
        FieldSelection::CreationDate
    } else if i == 4 {
        FieldSelection::Description
    } else if i == 5 {
        FieldSelection::Due
    } else {
        FieldSelection::Scheduled
    }
}

proof fn lemma_fields_starting_push(fs: Seq<FieldSelection>, f: FieldSelection, answer: Seq<char>)
    ensures
        fields_starting(fs.push(f), answer) == fields_starting(fs, answer) + (if is_prefix(
            answer,
            field_name(f),
        ) {
            seq![f]
        } else {
            seq![]
        }),
    decreases fs.len(),
{
    assert(fs.push(f)[0] == (if fs.len() == 0 { f } else { fs[0] }));
    if fs.len() == 0 {
        assert(fs.push(f).drop_first() =~= Seq::<FieldSelection>::empty());
        assert(fields_starting(Seq::<FieldSelection>::empty(), answer) =~= Seq::<FieldSelection>::empty());
        assert(fields_starting(fs, answer) =~= Seq::<FieldSelection>::empty());
        assert(fields_starting(fs.push(f), answer) =~= fields_starting(fs, answer) + (if is_prefix(
            answer,
            field_name(f),
        ) {
            seq![f]
        } else {
            seq![]
        }));
    } else {
        assert(fs.push(f).drop_first() =~= fs.drop_first().push(f));
        lemma_fields_starting_push(fs.drop_first(), f, answer);
        assert(fields_starting(fs.push(f), answer) =~= fields_starting(fs, answer) + (if is_prefix(
            answer,
            field_name(f),
        ) {
            seq![f]
        } else {
            seq![]
        }));
    }
}

/// The field that an answer names: the one whose name starts with it, if
/// exactly one does.
pub fn match_field(answer: &str) -> (r: FieldMatch)
    ensures
        ({
            let m = fields_starting(offered_fields(), answer@);
            &&& m.len() == 0 ==> r == FieldMatch::Invalid
            &&& m.len() == 1 ==> r == FieldMatch::Unique(m[0])
            &&& m.len() > 1 ==> r == FieldMatch::Ambiguous
        }),
{
    let a = chars_of(answer);
    let mut found: Option<FieldSelection> = None;
    let mut count: usize = 0;
    let mut i: usize = 0;
    while i < 7
        invariant
            i <= 7,
            count <= i,
            a@ == answer@,
            ({
                let m = fields_starting(offered_fields().take(i as int), answer@);
                &&& count == m.len()
                &&& count >= 1 ==> found == Some(m[0])
            }),
        decreases 7 - i,
    {
        let f = offered_field(i);
        let name = f.to_string();
        let nc = chars_of(name.as_str());
        let hit = starts_with(nc.as_slice(), a.as_slice());
        proof {
            assert(offered_fields().take(i + 1) =~= offered_fields().take(i as int).push(f));
            lemma_fields_starting_push(offered_fields().take(i as int), f, answer@);
        }
        if hit {
            if count == 0 {
                found = Some(f);
            }
            count = count + 1;
        }
        i = i + 1;
    }
    assert(offered_fields().take(7) =~= offered_fields());
    if count == 0 {
        FieldMatch::Invalid
    } else if count == 1 {
        match found {
            Some(f) => FieldMatch::Unique(f),
            None => FieldMatch::Invalid,
        }
    } else {
        FieldMatch::Ambiguous
    }
}

// ---------------------------------------------------------------------------
// Selecting tasks by number
// ---------------------------------------------------------------------------

/// The words of `s` from the word that starts at `start`, having looked
/// through `s` up to `i`: the pieces between single spaces that are not empty
/// (`s.split(" ").filter(|w| !w.is_empty())`).
pub open spec fn words_acc(s: Seq<char>, start: int, i: int) -> Seq<Seq<char>>
    decreases s.len() - i,
{
    if i >= s.len() {
        if start < s.len() {
            seq![s.subrange(start, s.len() as int)]
        } else {
            seq![]
        }
    } else if s[i] == ' ' {
        (if start < i { seq![s.subrange(start, i)] } else { seq![] }) + words_acc(s, i + 1, i + 1)
    } else {
        words_acc(s, start, i + 1)
    }
}

pub open spec fn answer_words(s: Seq<char>) -> Seq<Seq<char>> {
    words_acc(s, 0, 0)
}

/// The index a number given by the user stands for: one less, wrapping
/// around below zero as `usize` arithmetic does.
pub open spec fn index_of_number(n: nat) -> int {
    if n == 0 { usize::MAX as int } else { n - 1 }
}

/// The indices a word of the answer stands for, as the inclusive range
/// `(first, last)` (empty where `first > last`): `a-b` for the range of
/// numbers from `a` to `b`, a single number for itself; none for any other word.
pub open spec fn word_range(w: Seq<char>) -> Option<(int, int)> {
    match first_index_from(w, '-', 0) {
        Some(k) => match (
            parse_unsigned(w.subrange(0, k), usize::MAX as int),
            parse_unsigned(w.subrange(k + 1, w.len() as int), usize::MAX as int),
        ) {
            (Some(a), Some(b)) => Some((index_of_number(a), index_of_number(b))),
            _ => None,
        },
        None => match parse_unsigned(w, usize::MAX as int) {
            Some(a) => Some((index_of_number(a), index_of_number(a))),
            None => None,
        },
    }
}

/// The ranges of the words, if every word reads as one.
pub open spec fn answer_ranges(ws: Seq<Seq<char>>) -> Option<Seq<(int, int)>>
    decreases ws.len(),
{
    if ws.len() == 0 {
        Some(seq![])
    } else {
        match (word_range(ws[0]), answer_ranges(ws.drop_first())) {
            (Some(r), Some(rest)) => Some(seq![r] + rest),
            _ => None,
        }
    }
}

/// The first index of the ranges, taken in order, that is not below `n`.
pub open spec fn first_out_of_range(rs: Seq<(int, int)>, n: int) -> Option<int>
    decreases rs.len(),
{
    if rs.len() == 0 {
        None
    } else {
        let (a, b) = rs[0];
        if a <= b && b >= n {
            Some(if a >= n { a } else { n })
        } else {
            first_out_of_range(rs.drop_first(), n)
        }
    }
}

/// Whether index `i` is in one of the ranges.
pub open spec fn in_ranges(rs: Seq<(int, int)>, i: int) -> bool {
    exists|k: int| 0 <= k < rs.len() && (#[trigger] rs[k]).0 <= i <= rs[k].1
}

/// Why an answer selects nothing.
#[derive(Debug, PartialEq, Eq, Structural)]
pub enum SelectionError {
    /// A word that is neither a number nor a range of numbers.
    InvalidInput,
    /// An index that no item has; the user's number is one more (wrapping).
    OutOfRange(usize),
}

/// Indices `0..n` that satisfy `p`, in order.
pub open spec fn chosen_indices(n: int, p: spec_fn(int) -> bool) -> Seq<usize>
    decreases n,
{
    if n <= 0 {
        seq![]
    } else {
        chosen_indices(n - 1, p) + (if p(n - 1) { seq![(n - 1) as usize] } else { seq![] })
    }
}

/// The items of a list of `n` that an answer selects, by their indices in
/// order: numbers and ranges of numbers, counting from 1, separated by spaces.
pub fn parse_selection(answer: &str, n: usize) -> (r: Result<Vec<usize>, SelectionError>)
    ensures
        match answer_ranges(answer_words(answer@)) {
            None => r == Err::<Vec<usize>, SelectionError>(SelectionError::InvalidInput),
            Some(rs) => match first_out_of_range(rs, n as int) {
                Some(i) => r == Err::<Vec<usize>, SelectionError>(SelectionError::OutOfRange(i as usize)),
                None => r matches Ok(v) && v@ == chosen_indices(n as int, |i: int| in_ranges(rs, i)),
            },
        },
{
    let a = chars_of(answer);
    let words = split_words(a.as_slice());
    let ghost ws = answer_words(answer@);
    // Every word must read as a range.
    let mut ranges: Vec<(usize, usize)> = Vec::new();
    let mut k: usize = 0;
    while k < words.len()
        invariant
            k <= words@.len(),
            ws == answer_words(answer@),
            words@.len() == ws.len(),
            forall|j: int| 0 <= j < ws.len() ==> (#[trigger] words@[j])@ == ws[j],
            ranges@.len() == k,
            forall|j: int| 0 <= j < k ==> word_range(ws[j]) == Some(
                ((#[trigger] ranges@[j]).0 as int, ranges@[j].1 as int),
            ),
        decreases words@.len() - k,
    {
        match read_word_range(words[k].as_slice()) {
            Some(rg) => ranges.push(rg),
            None => {
                proof {
                    lemma_ranges_none(ws, k as int);
                }
                return Err(SelectionError::InvalidInput);
            },
        }
        k = k + 1;
    }
    let ghost rs = ranges@.map_values(|p: (usize, usize)| (p.0 as int, p.1 as int));
    proof {
        lemma_ranges_some(ws, rs);
    }
    // The first index out of range, in order.
    let mut m: usize = 0;
    assert(rs.skip(0) =~= rs);
    while m < ranges.len()
        invariant
            m <= ranges@.len(),
            answer_ranges(answer_words(answer@)) == Some(rs),
            rs == ranges@.map_values(|p: (usize, usize)| (p.0 as int, p.1 as int)),
            first_out_of_range(rs, n as int) == first_out_of_range(rs.skip(m as int), n as int),
        decreases ranges@.len() - m,
    {
        let (lo, hi) = ranges[m];
        assert(rs.skip(m as int)[0] == (lo as int, hi as int));
        if lo <= hi && hi >= n {
            let first: usize = if lo >= n { lo } else { n };
            return Err(SelectionError::OutOfRange(first));
        }
        assert(rs.skip(m as int).drop_first() =~= rs.skip(m + 1));
        m = m + 1;
    }
    // Mark the selected indices.
    let mut chosen: Vec<bool> = Vec::new();
    let mut c: usize = 0;
    while c < n
        invariant
            c <= n,
            chosen@.len() == c,
            forall|i: int| 0 <= i < c ==> !(#[trigger] chosen@[i]),
        decreases n - c,
    {
        chosen.push(false);
        c = c + 1;
    }
    assert(first_out_of_range(rs, n as int) is None);
    proof {
        lemma_ranges_within(rs, n as int);
    }
    let mut q: usize = 0;
    while q < ranges.len()
        invariant
            q <= ranges@.len(),
            chosen@.len() == n,
            rs == ranges@.map_values(|p: (usize, usize)| (p.0 as int, p.1 as int)),
            forall|j: int| 0 <= j < rs.len() ==> (#[trigger] rs[j]).0 <= rs[j].1 ==> rs[j].1 < n,
            forall|i: int| 0 <= i < n ==> (#[trigger] chosen@[i] <==> in_ranges(rs.take(q as int), i)),
        decreases ranges@.len() - q,
    {
        let (lo, hi) = ranges[q];
        assert(rs[q as int] == (lo as int, hi as int));
        if lo <= hi {
            let mut x: usize = lo;
            while x <= hi
                invariant
                    lo <= x,
                    x <= hi + 1,
                    hi < n,
                    chosen@.len() == n,
                    forall|i: int|
                        0 <= i < n ==> (#[trigger] chosen@[i] <==> (in_ranges(rs.take(q as int), i) || (
                        lo <= i < x))),
                decreases hi + 1 - x,
            {
                chosen.set(x, true);
                x = x + 1;
            }
        }
        proof {
            assert forall|i: int| 0 <= i < n implies (#[trigger] chosen@[i] <==> in_ranges(rs.take(q + 1), i)) by {
                let t1 = rs.take(q + 1);
                let t0 = rs.take(q as int);
                if in_ranges(t0, i) {
                    let j = choose|j: int| 0 <= j < t0.len() && (#[trigger] t0[j]).0 <= i <= t0[j].1;
                    assert(t1[j] == t0[j]);
                }
                if in_ranges(t1, i) {
                    let j = choose|j: int| 0 <= j < t1.len() && (#[trigger] t1[j]).0 <= i <= t1[j].1;
                    if j < q {
                        assert(t0[j] == t1[j]);
                    }
                }
                if lo <= i <= hi {
                    assert(t1[q as int] == rs[q as int]);
                }
            }
        }
        q = q + 1;
    }
    assert(rs.take(ranges@.len() as int) =~= rs);
    let mut out: Vec<usize> = Vec::new();
    let mut i: usize = 0;
    while i < n
        invariant
            i <= n,
            chosen@.len() == n,
            forall|j: int| 0 <= j < n ==> (#[trigger] chosen@[j] <==> in_ranges(rs, j)),
            out@ == chosen_indices(i as int, |j: int| in_ranges(rs, j)),
        decreases n - i,
    {
        if chosen[i] {
            out.push(i);
        }
        assert(out@ =~= chosen_indices(i + 1, |j: int| in_ranges(rs, j)));
        i = i + 1;
    }
    Ok(out)
}

/// The words of an answer.
fn split_words(s: &[char]) -> (r: Vec<Vec<char>>)
    ensures
        r@.len() == answer_words(s@).len(),
        forall|j: int| 0 <= j < r@.len() ==> (#[trigger] r@[j])@ == answer_words(s@)[j],
{
    let mut out: Vec<Vec<char>> = Vec::new();
    let mut start: usize = 0;
    let mut i: usize = 0;
    while i < s.len()
        invariant
            start <= i <= s.len(),
            out@.map_values(|w: Vec<char>| w@) + words_acc(s@, start as int, i as int) == answer_words(s@),
        decreases s.len() - i,
    {
        if s[i] == ' ' {
            let ghost before = out@.map_values(|w: Vec<char>| w@);
            if start < i {
                let w = slice_range(s, start, i);
                out.push(w);
                assert(out@.map_values(|w: Vec<char>| w@) =~= before.push(w@));
                assert(before.push(w@) + words_acc(s@, i + 1, i + 1) =~= before + (seq![w@]
                    + words_acc(s@, i + 1, i + 1)));
            } else {
                assert(before + words_acc(s@, i + 1, i + 1) =~= before + (Seq::<Seq<char>>::empty()
                    + words_acc(s@, i + 1, i + 1)));
            }
            start = i + 1;
        }
        i = i + 1;
    }
    let ghost before = out@.map_values(|w: Vec<char>| w@);
    if start < s.len() {
        let w = slice_range(s, start, s.len());
        out.push(w);
        assert(out@.map_values(|w: Vec<char>| w@) =~= before.push(w@));
        assert(before.push(w@) =~= before + seq![w@]);
    } else {
        assert(before + words_acc(s@, start as int, i as int) =~= before);
    }
    proof {
        let m = out@.map_values(|w: Vec<char>| w@);
        assert forall|j: int| 0 <= j < out@.len() implies (#[trigger] out@[j])@ == answer_words(s@)[j] by {
            assert(m[j] == out@[j]@);
        }
    }
    out
}

fn index_of_number_exec(n: usize) -> (r: usize)
    ensures
        r as int == index_of_number(n as nat),
{
    if n == 0 {
        usize::MAX
    } else {
        n - 1
    }
}

/// The range a word stands for.
fn read_word_range(w: &[char]) -> (r: Option<(usize, usize)>)
    ensures
        match word_range(w@) {
            Some((a, b)) => r == Some((a as usize, b as usize)) && a == a as usize && b == b as usize,
            None => r is None,
        },
{
    match find_char_from(w, '-', 0) {
        Some(k) => {
            proof {
                lemma_first_index_from(w@, '-', 0);
            }
            let len = w.len();
            assert(k < len);
            let first = slice_range(w, 0, k);
            let second = slice_range(w, k + 1, len);
            match (parse_usize(first.as_slice()), parse_usize(second.as_slice())) {
                (Some(a), Some(b)) => Some((index_of_number_exec(a), index_of_number_exec(b))),
                _ => None,
            }
        },
        None => match parse_usize(w) {
            Some(a) => {
                let i = index_of_number_exec(a);
                Some((i, i))
            },
            None => None,
        },
    }
}

proof fn lemma_ranges_none(ws: Seq<Seq<char>>, k: int)
    requires
        0 <= k < ws.len(),
        word_range(ws[k]) is None,
    ensures
        answer_ranges(ws) is None,
    decreases k,
{
    if k > 0 {
        lemma_ranges_none(ws.drop_first(), k - 1);
    }
}

proof fn lemma_ranges_some(ws: Seq<Seq<char>>, rs: Seq<(int, int)>)
    requires
        ws.len() == rs.len(),
        forall|j: int| 0 <= j < ws.len() ==> word_range(ws[j]) == Some(#[trigger] rs[j]),
    ensures
        answer_ranges(ws) == Some(rs),
    decreases ws.len(),
{
    if ws.len() > 0 {
        assert forall|j: int| 0 <= j < ws.len() - 1 implies word_range(ws.drop_first()[j]) == Some(
            #[trigger] rs.drop_first()[j],
        ) by {
            assert(ws.drop_first()[j] == ws[j + 1]);
            assert(word_range(ws[j + 1]) == Some(rs[j + 1]));
        }
        lemma_ranges_some(ws.drop_first(), rs.drop_first());
        assert(word_range(ws[0]) == Some(rs[0]));
        assert(seq![rs[0]] + rs.drop_first() =~= rs);
    }
}

proof fn lemma_ranges_within(rs: Seq<(int, int)>, n: int)
    requires
        first_out_of_range(rs, n) is None,
    ensures
        forall|j: int| 0 <= j < rs.len() ==> (#[trigger] rs[j]).0 <= rs[j].1 ==> rs[j].1 < n,
    decreases rs.len(),
{
    if rs.len() > 0 {
        lemma_ranges_within(rs.drop_first(), n);
        assert forall|j: int| 0 <= j < rs.len() implies (#[trigger] rs[j]).0 <= rs[j].1 ==> rs[j].1 < n by {
            if j > 0 {
                assert(rs[j] == rs.drop_first()[j - 1]);
            }
        }
    }
}


// ---------------------------------------------------------------------------
// Selecting tasks with the fuzzy finder
// ---------------------------------------------------------------------------

/// The part of a line of the fuzzy finder's answer before the first `:`.
pub open spec fn fzf_field(l: Seq<char>) -> Seq<char> {
    match first_index_from(l, ':', 0) {
        Some(k) => l.subrange(0, k),
        None => l,
    }
}

/// The numbers that start the lines, if every line starts with one.
pub open spec fn fzf_numbers(ls: Seq<Seq<char>>) -> Option<Seq<nat>>
    decreases ls.len(),
{
    if ls.len() == 0 {
        Some(seq![])
    } else {
        match (parse_unsigned(fzf_field(ls[0]), usize::MAX as int), fzf_numbers(ls.drop_first())) {
            (Some(a), Some(rest)) => Some(seq![a] + rest),
            _ => None,
        }
    }
}

/// The items of a list of `n` that the fuzzy finder's answer selects, by
/// their indices in order. Each line of the answer starts with an item's
/// index and a `:`; an answer that selects nothing counts as the end of input.
pub fn parse_fzf_output(output: &str, n: usize) -> (r: Result<Vec<usize>, ToroError>)
    ensures
        match fzf_numbers(text_lines(output@)) {
            None => r == Err::<Vec<usize>, ToroError>(ToroError::InvalidFzfResponse),
            Some(ns) => {
                let sel = chosen_indices(n as int, |i: int| ns.contains(i as nat));
                &&& sel.len() == 0 ==> r == Err::<Vec<usize>, ToroError>(ToroError::EofError)
                &&& sel.len() > 0 ==> (r matches Ok(v) && v@ == sel)
            },
        },
{
    let cs = chars_of(output);
    let lines = split_lines(cs.as_slice());
    let ghost ls = text_lines(output@);
    assert(lines@.map_values(|l: Vec<char>| l@) == ls);
    assert forall|k: int| 0 <= k < ls.len() implies (#[trigger] lines@[k])@ == ls[k] by {
        assert(lines@.map_values(|l: Vec<char>| l@)[k] == lines@[k]@);
    }
    let mut nums: Vec<usize> = Vec::new();
    let mut k: usize = 0;
    while k < lines.len()
        invariant
            k <= lines@.len(),
            ls == text_lines(output@),
            lines@.len() == ls.len(),
            forall|j: int| 0 <= j < ls.len() ==> (#[trigger] lines@[j])@ == ls[j],
            nums@.len() == k,
            forall|j: int|
                0 <= j < k ==> parse_unsigned(fzf_field(ls[j]), usize::MAX as int) == Some(
                    (#[trigger] nums@[j]) as nat,
                ),
        decreases lines@.len() - k,
    {
        let line = &lines[k];
        proof {
            lemma_first_index_from(line@, ':', 0);
        }
        let field = match find_char_from(line.as_slice(), ':', 0) {
            Some(c) => slice_range(line.as_slice(), 0, c),
            None => slice_range(line.as_slice(), 0, line.len()),
        };
        assert(field@ == fzf_field(ls[k as int]));
        match parse_usize(field.as_slice()) {
            Some(v) => nums.push(v),
            None => {
                proof {
                    lemma_fzf_none(ls, k as int);
                }
                return Err(ToroError::InvalidFzfResponse);
            },
        }
        k = k + 1;
    }
    let ghost ns = nums@.map_values(|v: usize| v as nat);
    proof {
        lemma_fzf_some(ls, ns);
    }
    let mut out: Vec<usize> = Vec::new();
    let mut i: usize = 0;
    while i < n
        invariant
            i <= n,
            ns == nums@.map_values(|v: usize| v as nat),
            out@ == chosen_indices(i as int, |j: int| ns.contains(j as nat)),
        decreases n - i,
    {
        let mut hit = false;
        let mut q: usize = 0;
        while q < nums.len()
            invariant
                q <= nums@.len(),
                ns == nums@.map_values(|v: usize| v as nat),
                hit <==> ns.take(q as int).contains(i as nat),
            decreases nums@.len() - q,
        {
            if nums[q] == i {
                hit = true;
            }
            proof {
                assert(ns.take(q + 1) =~= ns.take(q as int).push(ns[q as int]));
                if ns.take(q + 1).contains(i as nat) && !ns.take(q as int).contains(i as nat) {
                    let w = choose|w: int| 0 <= w < q + 1 && #[trigger] ns.take(q + 1)[w] == i as nat;
                    assert(w == q);
                }
                if ns.take(q as int).contains(i as nat) {
                    let w = choose|w: int| 0 <= w < q && #[trigger] ns.take(q as int)[w] == i as nat;
                    assert(ns.take(q + 1)[w] == i as nat);
                }
                if hit && nums@[q as int] == i {
                    assert(ns.take(q + 1)[q as int] == i as nat);
                }
            }
            q = q + 1;
        }
        assert(ns.take(nums@.len() as int) =~= ns);
        if hit {
            out.push(i);
        }
        assert(out@ =~= chosen_indices(i + 1, |j: int| ns.contains(j as nat)));
        i = i + 1;
    }
    if out.len() == 0 {
        return Err(ToroError::EofError);
    }
    Ok(out)
}

proof fn lemma_fzf_none(ls: Seq<Seq<char>>, k: int)
    requires
        0 <= k < ls.len(),
        parse_unsigned(fzf_field(ls[k]), usize::MAX as int) is None,
    ensures
        fzf_numbers(ls) is None,
    decreases k,
{
    if k > 0 {
        lemma_fzf_none(ls.drop_first(), k - 1);
    }
}

proof fn lemma_fzf_some(ls: Seq<Seq<char>>, ns: Seq<nat>)
    requires
        ls.len() == ns.len(),
        forall|j: int| 0 <= j < ls.len() ==> parse_unsigned(fzf_field(ls[j]), usize::MAX as int) == Some(#[trigger] ns[j]),
    ensures
        fzf_numbers(ls) == Some(ns),
    decreases ls.len(),
{
    if ls.len() > 0 {
        assert forall|j: int| 0 <= j < ls.len() - 1 implies parse_unsigned(
            fzf_field(ls.drop_first()[j]),
            usize::MAX as int,
        ) == Some(#[trigger] ns.drop_first()[j]) by {
            assert(ls.drop_first()[j] == ls[j + 1]);
            assert(parse_unsigned(fzf_field(ls[j + 1]), usize::MAX as int) == Some(ns[j + 1]));
        }
        lemma_fzf_some(ls.drop_first(), ns.drop_first());
        assert(parse_unsigned(fzf_field(ls[0]), usize::MAX as int) == Some(ns[0]));
        assert(seq![ns[0]] + ns.drop_first() =~= ns);
    }
}

// ---------------------------------------------------------------------------
// How tasks are offered for selection
// ---------------------------------------------------------------------------

/// How the user selects among candidate tasks.
#[derive(Debug, PartialEq, Eq, Structural)]
pub enum SelectionMode {
    /// The lone candidate is taken without asking.
    Auto,
    /// With the fuzzy finder.
    Fuzzy,
    /// By typing the numbers of a listing.
    Numbered,
}

/// How `n` candidates are selected under the view settings.
pub fn selection_mode(view: &ViewConfig, n: usize) -> (r: SelectionMode)
    ensures
        r == (if view.auto_select && n == 1 {
            SelectionMode::Auto
        } else if view.fzf {
            SelectionMode::Fuzzy
        } else {
            SelectionMode::Numbered
        }),
{
    if view.auto_select && n == 1 {
        SelectionMode::Auto
    } else if view.fzf {
        SelectionMode::Fuzzy
    } else {
        SelectionMode::Numbered
    }
}

/// The label of entry `i` (counting from 0) of a numbered listing of `n`:
/// its number, right-aligned to the width of `n`, and a `:`.
pub fn number_label(i: usize, n: usize) -> (r: String)
    requires
        i < n,
    ensures
        r@ == pad_left(nat_digits((i + 1) as nat), nat_digits(n as nat).len(), ' ') + seq![':'],
{
    let width = u64_chars(n as u64);
    let num = u64_chars((i + 1) as u64);
    let mut v = pad_left_chars(num.as_slice(), width.len(), ' ');
    v.push(':');
    string_from_chars(v.as_slice())
}

/// A heading line: `level` times `#`, a space and the text.
pub fn header_line(s: &str, level: usize) -> (r: String)
    ensures
        r@ == Seq::new(level as nat, |i: int| '#') + seq![' '] + s@,
{
    let mut v: Vec<char> = Vec::new();
    let mut k: usize = 0;
    while k < level
        invariant
            k <= level,
            v@ =~= Seq::new(k as nat, |i: int| '#'),
        decreases level - k,
    {
        v.push('#');
        k = k + 1;
    }
    v.push(' ');
    let sc = chars_of(s);
    let mut j: usize = 0;
    let ghost prefix = v@;
    while j < sc.len()
        invariant
            j <= sc@.len(),
            sc@ == s@,
            v@ =~= prefix + sc@.take(j as int),
        decreases sc@.len() - j,
    {
        v.push(sc[j]);
        j = j + 1;
    }
    assert(sc@.take(sc@.len() as int) =~= sc@);
    string_from_chars(v.as_slice())
}

/// The selected indices are those below `n` that satisfy `p`, each once and
/// in increasing order.
pub proof fn lemma_chosen_indices(n: int, p: spec_fn(int) -> bool)
    requires
        n <= usize::MAX,
    ensures
        forall|a: int, b: int|
            0 <= a < b < chosen_indices(n, p).len() ==> #[trigger] chosen_indices(n, p)[a]
                < #[trigger] chosen_indices(n, p)[b],
        forall|k: int| 0 <= k < chosen_indices(n, p).len() ==> (#[trigger] chosen_indices(n, p)[k]) < n,
        forall|i: int| 0 <= i < n ==> (chosen_indices(n, p).contains(i as usize) <==> #[trigger] p(i)),
    decreases n,
{
    if n > 0 {
        lemma_chosen_indices(n - 1, p);
        let prev = chosen_indices(n - 1, p);
        let cur = chosen_indices(n, p);
        assert(cur == prev + (if p(n - 1) { seq![(n - 1) as usize] } else { seq![] }));
        assert forall|a: int, b: int| 0 <= a < b < cur.len() implies #[trigger] cur[a] < #[trigger] cur[b] by {
            if b < prev.len() {
                assert(cur[a] == prev[a] && cur[b] == prev[b]);
            } else {
                assert(cur[a] == prev[a]);
                assert(prev[a] < n - 1);
                assert(cur[b] == (n - 1) as usize);
            }
        }
        assert forall|k: int| 0 <= k < cur.len() implies (#[trigger] cur[k]) < n by {
            if k < prev.len() {
                assert(cur[k] == prev[k]);
            }
        }
        assert forall|i: int| 0 <= i < n implies (cur.contains(i as usize) <==> #[trigger] p(i)) by {
            if i < n - 1 {
                if cur.contains(i as usize) {
                    let w = choose|w: int| 0 <= w < cur.len() && cur[w] == i as usize;
                    if w < prev.len() {
                        assert(prev[w] == i as usize);
                    }
                }
                if prev.contains(i as usize) {
                    let w = choose|w: int| 0 <= w < prev.len() && prev[w] == i as usize;
                    assert(cur[w] == i as usize);
                }
            } else {
                if p(i) {
                    assert(cur[prev.len() as int] == i as usize);
                }
                if cur.contains(i as usize) {
                    let w = choose|w: int| 0 <= w < cur.len() && cur[w] == i as usize;
                    if w < prev.len() {
                        assert(prev[w] < n - 1);
                    }
                }
            }
        }
    }
}


// ---------------------------------------------------------------------------
// Notes
// ---------------------------------------------------------------------------

/// A markdown line one level deeper: a heading gets one more `#`.
pub open spec fn deeper_heading(l: Seq<char>) -> Seq<char> {
    if l.len() > 0 && l[0] == '#' {
        seq!['#'] + l
    } else {
        l
    }
}

/// Markdown with every heading one level deeper, so that notes fit under the
/// project's own heading: the lines, each made deeper, joined with `\n`.
pub fn inc_markdown_headers(s: &str) -> (r: String)
    ensures
        r@ == join_lines(text_lines(s@).map_values(|l: Seq<char>| deeper_heading(l))),
{
    let cs = chars_of(s);
    let lines = split_lines(cs.as_slice());
    let ghost ls = text_lines(s@).map_values(|l: Seq<char>| deeper_heading(l));
    assert(lines@.map_values(|l: Vec<char>| l@) == text_lines(s@));
    let mut v: Vec<char> = Vec::new();
    let mut i: usize = 0;
    while i < lines.len()
        invariant
            i <= lines@.len(),
            ls == text_lines(s@).map_values(|l: Seq<char>| deeper_heading(l)),
            lines@.map_values(|l: Vec<char>| l@) == text_lines(s@),
            ls.len() == lines@.len(),
            v@ == join_lines(ls.take(i as int)),
        decreases lines@.len() - i,
    {
        let line = &lines[i];
        let mut d: Vec<char> = Vec::new();
        if line.len() > 0 && line[0] == '#' {
            d.push('#');
        }
        append_chars(&mut d, line.as_slice());
        proof {
            assert(lines@.map_values(|l: Vec<char>| l@)[i as int] == line@);
            assert(d@ == ls[i as int]);
            if i > 0 {
                lemma_join_push(ls.take(i as int), ls[i as int]);
            }
            assert(ls.take(i + 1) =~= ls.take(i as int).push(ls[i as int]));
        }
        if i > 0 {
            v.push('\n');
        }
        append_chars(&mut v, d.as_slice());
        proof {
            if i == 0 {
                assert(ls.take(1) =~= seq![ls[0]]);
                assert(v@ =~= join_lines(ls.take(1)));
            } else {
                assert(v@ =~= join_lines(ls.take(i + 1)));
            }
        }
        i = i + 1;
    }
    assert(ls.take(i as int) =~= ls);
    string_from_chars(v.as_slice())
}

// ---------------------------------------------------------------------------
// Markdown
// ---------------------------------------------------------------------------

/// Byte spans of a text that fit it: each within the text, on character
/// boundaries, start before end, and each after the one before.
pub open spec fn spans_fit(s: Seq<char>, spans: Seq<(usize, usize)>) -> bool {
    &&& forall|k: int|
        0 <= k < spans.len() ==> {
            let (a, b) = #[trigger] spans[k];
            &&& a <= b <= utf8_len(s)
            &&& char_boundary(s, a as int)
            &&& char_boundary(s, b as int)
        }
    &&& forall|j: int, k: int| 0 <= j < k < spans.len() ==> #[trigger] spans[j].1 <= #[trigger] spans[k].0
}

/// The spans of `**...**` in a line (`(?<b>\*\*.*?\*\*)`, leftmost first),
/// as byte offsets.
pub uninterp spec fn spec_bold_spans(line: Seq<char>) -> Seq<(usize, usize)>;

/// The spans of `_..._` in a line (`(?<b>\_.*?\_)`, leftmost first), as
/// byte offsets.
pub uninterp spec fn spec_italic_spans(line: Seq<char>) -> Seq<(usize, usize)>;

/// `Regex::find_iter` with `(?<b>\*\*.*?\*\*)`, each match as its start and
/// end (`Match::start`, `Match::end`). The matches are named; the regex crate
/// documents that they do not overlap and come in order, that start is at
/// most end, and that both fall on character boundaries.
#[verifier::external_body]
fn bold_spans(line: &str) -> (r: Vec<(usize, usize)>)
    ensures
        r@ == spec_bold_spans(line@),
        spans_fit(line@, r@),
{
    let re = regex::Regex::new(r#"(?<b>\*\*.*?\*\*)"#).unwrap();
    re.find_iter(line).map(|m| (m.start(), m.end())).collect()
}

/// Character positions of `s` where its spans start or end are split points:
/// no style sequence is cut there.
pub open spec fn spans_cut_plain(s: Seq<char>, spans: Seq<(usize, usize)>) -> bool {
    forall|k: int, c: int|
        #![trigger spans[k], utf8_len(s.take(c))]
        0 <= k < spans.len() && 0 <= c <= s.len() && (utf8_len(s.take(c)) == spans[k].0 || utf8_len(
            s.take(c),
        ) == spans[k].1) ==> split_point(s, c)
}

/// `Regex::find_iter` with `(?<b>\_.*?\_)`, as `bold_spans`. Each match
/// starts with `_` and ends with `_` (the pattern's first and last items), so
/// a match starts before, and ends after, a character that no style sequence
/// holds.
#[verifier::external_body]
fn italic_spans(line: &str) -> (r: Vec<(usize, usize)>)
    ensures
        r@ == spec_italic_spans(line@),
        spans_fit(line@, r@),
        spans_cut_plain(line@, r@),
{
    let re = regex::Regex::new(r#"(?<b>\_.*?\_)"#).unwrap();
    re.find_iter(line).map(|m| (m.start(), m.end())).collect()
}

/// `s` with each of the character spans `cs` in the style `code` where the
/// matching entry of `ons` is set (whether styles are written is up to the
/// environment), the text between spans as it is.
pub open spec fn paint_spans(s: Seq<char>, cs: Seq<(int, int)>, ons: Seq<bool>, code: Seq<char>) -> Seq<char>
    decreases cs.len(),
{
    if cs.len() == 0 {
        s
    } else {
        let (a, b) = cs.last();
        let part = s.subrange(a, b);
        paint_spans(s.take(a), cs.drop_last(), ons.drop_last(), code) + (if ons.last() {
            sgr(code) + escape_resets(part, code) + reset_seq()
        } else {
            part
        }) + s.skip(b)
    }
}

/// The character spans `cs` are the byte spans `spans` of `s`.
pub open spec fn char_spans_of(s: Seq<char>, spans: Seq<(usize, usize)>, cs: Seq<(int, int)>) -> bool {
    &&& cs.len() == spans.len()
    &&& forall|k: int|
        0 <= k < cs.len() ==> {
            let (a, b) = #[trigger] cs[k];
            &&& 0 <= a <= b <= s.len()
            &&& utf8_len(s.take(a)) == spans[k].0
            &&& utf8_len(s.take(b)) == spans[k].1
        }
}

/// `r` is `s` with its byte spans `spans` in the style `code`.
pub open spec fn spans_styled(s: Seq<char>, spans: Seq<(usize, usize)>, code: Seq<char>, r: Seq<char>) -> bool {
    exists|cs: Seq<(int, int)>, ons: Seq<bool>|
        char_spans_of(s, spans, cs) && ons.len() == cs.len() && r == #[trigger] paint_spans(s, cs, ons, code)
}

proof fn lemma_paint_spans_extend(s: Seq<char>, cs: Seq<(int, int)>, ons: Seq<bool>, code: Seq<char>, n: int, m: int)
    requires
        0 <= n <= m <= s.len(),
        forall|k: int| 0 <= k < cs.len() ==> 0 <= (#[trigger] cs[k]).0 <= cs[k].1 <= n,
    ensures
        paint_spans(s.take(n), cs, ons, code) + s.subrange(n, m) == paint_spans(s.take(m), cs, ons, code),
{
    if cs.len() == 0 {
        assert(s.take(n) + s.subrange(n, m) =~= s.take(m));
    } else {
        let (a, b) = cs.last();
        assert(cs[cs.len() - 1] == cs.last());
        assert(s.take(n).take(a) =~= s.take(m).take(a));
        assert(s.take(n).subrange(a, b) =~= s.take(m).subrange(a, b));
        assert(s.take(n).skip(b) + s.subrange(n, m) =~= s.take(m).skip(b));
    }
}

/// A part of text without escape characters has none either.
proof fn lemma_no_esc_subrange(s: Seq<char>, a: int, b: int)
    requires
        !has_esc(s),
        0 <= a <= b <= s.len(),
    ensures
        !has_esc(s.subrange(a, b)),
{
    if has_esc(s.subrange(a, b)) {
        let j = choose|j: int| 0 <= j < b - a && s.subrange(a, b)[j] == crate::style::esc();
        assert(s[a + j] == crate::style::esc());
    }
}

/// Clean text followed by clean text of plain text `p`: clean, and the plain
/// texts follow each other.
proof fn lemma_append_clean(out: Seq<char>, x: Seq<char>, done: Seq<char>, p: Seq<char>)
    requires
        clean(out),
        strip_ansi(out) == done,
        clean(x),
        strip_ansi(x) == p,
    ensures
        clean(out + x),
        strip_ansi(out + x) == done + p,
{
    lemma_clean_concat(out, x);
    lemma_strip_concat(out, x);
}

/// `line` with the byte spans `spans` in bold (or, if `italic`, in
/// italics), the rest as it is. Text without escape characters keeps its
/// plain text, and so does clean text whose spans cut no style sequence.
#[verifier::rlimit(80)]
#[verifier::spinoff_prover]
pub fn style_spans(line: &str, spans: &[(usize, usize)], italic: bool) -> (r: String)
    requires
        spans_fit(line@, spans@),
    ensures
        spans_styled(line@, spans@, if italic { seq!['3'] } else { seq!['1'] }, r@),
        !has_esc(line@) ==> clean(r@) && strip_ansi(r@) == line@,
        clean(line@) && spans_cut_plain(line@, spans@) ==> clean(r@) && strip_ansi(r@) == strip_ansi(line@),
{
    let ghost code: Seq<char> = if italic { seq!['3'] } else { seq!['1'] };
    let cs = chars_of(line);
    let ghost s = cs@;
    let mut out: Vec<char> = Vec::new();
    let mut ci: usize = 0;
    let mut bi: usize = 0;
    let mut k: usize = 0;
    let ghost mut cspans: Seq<(int, int)> = seq![];
    let ghost mut ons: Seq<bool> = seq![];
    assert(s.take(0) =~= Seq::<char>::empty());
    proof {
        lemma_strip_plain(out@);
    }
    while k < spans.len()
        invariant
            s == line@,
            cs@ == s,
            spans_fit(s, spans@),
            code == (if italic { seq!['3'] } else { seq!['1'] }),
            k <= spans@.len(),
            ci <= s.len(),
            bi == utf8_len(s.take(ci as int)),
            k < spans@.len() ==> bi <= spans@[k as int].0,
            cspans.len() == k,
            ons.len() == k,
            forall|j: int| 0 <= j < k ==> 0 <= (#[trigger] cspans[j]).0 <= cspans[j].1 <= ci,
            forall|j: int|
                0 <= j < k ==> utf8_len(s.take((#[trigger] cspans[j]).0)) == spans@[j].0 && utf8_len(
                    s.take(cspans[j].1),
                ) == spans@[j].1,
            out@ == paint_spans(s.take(ci as int), cspans, ons, code),
            !has_esc(s) ==> clean(out@) && strip_ansi(out@) == s.take(ci as int),
            clean(s) && spans_cut_plain(s, spans@) ==> clean(out@) && strip_ansi(out@) == strip_ansi(
                s.take(ci as int),
            ) && split_point(s, ci as int),
        decreases spans@.len() - k,
    {
        let (a, b) = spans[k];
        assert(spans@[k as int] == (a, b));
        let ghost ka = choose|x: int| 0 <= x <= s.len() && #[trigger] utf8_len(s.take(x)) == a;
        let ghost kb = choose|x: int| 0 <= x <= s.len() && #[trigger] utf8_len(s.take(x)) == b;
        proof {
            if ka < ci {
                lemma_utf8_len_mono(s, ka, ci as int);
            }
        }
        let c0 = ci;
        while bi < a
            invariant
                s == line@,
                cs@ == s,
                c0 <= ci <= ka <= s.len(),
                bi == utf8_len(s.take(ci as int)),
                utf8_len(s.take(ka)) == a,
            decreases ka - ci,
        {
            proof {
                if ci == ka {
                    assert(false);
                }
                lemma_utf8_len_take(s, ci as int);
                lemma_utf8_len_mono(s, ci + 1, ka);
            }
            bi = bi + char_width_exec(cs[ci]);
            ci = ci + 1;
        }
        proof {
            if ci < ka {
                lemma_utf8_len_mono(s, ci as int, ka);
            }
            lemma_paint_spans_extend(s, cspans, ons, code, c0 as int, ci as int);
        }
        let plain = slice_range(cs.as_slice(), c0, ci);
        let ghost out0 = out@;
        append_chars(&mut out, plain.as_slice());
        assert(plain@ == s.subrange(c0 as int, ci as int));
        proof {
            if !has_esc(s) {
                lemma_no_esc_subrange(s, c0 as int, ci as int);
                lemma_strip_plain(plain@);
                lemma_append_clean(out0, plain@, s.take(c0 as int), plain@);
                assert(s.take(c0 as int) + plain@ =~= s.take(ci as int));
            }
            if clean(s) && spans_cut_plain(s, spans@) {
                assert(split_point(s, ka)) by {
                    assert(spans@[k as int].0 == a);
                }
                lemma_clean_part(s, c0 as int, ci as int);
                lemma_append_clean(out0, plain@, strip_ansi(s.take(c0 as int)), strip_ansi(plain@));
            }
        }
        let start = ci;
        proof {
            if kb < ci {
                lemma_utf8_len_mono(s, kb, ci as int);
            }
        }
        while bi < b
            invariant
                s == line@,
                cs@ == s,
                start <= ci <= kb <= s.len(),
                bi == utf8_len(s.take(ci as int)),
                utf8_len(s.take(kb)) == b,
            decreases kb - ci,
        {
            proof {
                if ci == kb {
                    assert(false);
                }
                lemma_utf8_len_take(s, ci as int);
                lemma_utf8_len_mono(s, ci + 1, kb);
            }
            bi = bi + char_width_exec(cs[ci]);
            ci = ci + 1;
        }
        proof {
            if ci < kb {
                lemma_utf8_len_mono(s, ci as int, kb);
            }
        }
        let piece = slice_range(cs.as_slice(), start, ci);
        let ps = string_from_chars(piece.as_slice());
        let painted_piece = if italic { paint_italic(ps.as_str()) } else { paint_bold(ps.as_str()) };
        let pc = chars_of(painted_piece.as_str());
        let ghost before = out@;
        append_chars(&mut out, pc.as_slice());
        proof {
            let on = pc@ != ps@;
            let c1 = cspans;
            let o1 = ons;
            cspans = cspans.push((start as int, ci as int));
            ons = ons.push(on);
            assert(cspans.drop_last() =~= c1);
            assert(ons.drop_last() =~= o1);
            assert(s.take(ci as int).take(start as int) =~= s.take(start as int));
            assert(s.take(ci as int).subrange(start as int, ci as int) =~= ps@);
            assert(s.take(ci as int).skip(ci as int) =~= Seq::<char>::empty());
            assert(out@ =~= paint_spans(s.take(ci as int), cspans, ons, code));
            if !has_esc(s) {
                lemma_no_esc_subrange(s, start as int, ci as int);
                assert(ps@ =~= s.subrange(start as int, ci as int));
                assert(crate::style::param_code(code)) by {
                    assert(code.len() == 1);
                    assert(crate::text::is_digit(code[0]));
                }
                lemma_painted(pc@, ps@, code);
                lemma_append_clean(before, pc@, s.take(start as int), ps@);
                assert(s.take(start as int) + ps@ =~= s.take(ci as int));
            }
            if clean(s) && spans_cut_plain(s, spans@) {
                assert(split_point(s, kb)) by {
                    assert(spans@[k as int].1 == b);
                }
                lemma_clean_part(s, start as int, ci as int);
                lemma_append_clean(before, pc@, strip_ansi(s.take(start as int)), strip_ansi(ps@));
            }
            if k + 1 < spans@.len() {
                assert(spans@[k as int].1 <= spans@[k + 1].0);
            }
        }
        k = k + 1;
    }
    let rest = slice_range(cs.as_slice(), ci, cs.len());
    proof {
        lemma_paint_spans_extend(s, cspans, ons, code, ci as int, s.len() as int);
        assert(s.take(s.len() as int) =~= s);
    }
    let ghost out1 = out@;
    append_chars(&mut out, rest.as_slice());
    proof {
        if !has_esc(s) {
            lemma_no_esc_subrange(s, ci as int, s.len() as int);
            lemma_strip_plain(rest@);
            lemma_append_clean(out1, rest@, s.take(ci as int), rest@);
            assert(s.take(ci as int) + rest@ =~= s);
        }
        if clean(s) && spans_cut_plain(s, spans@) {
            lemma_clean_part(s, ci as int, s.len() as int);
            lemma_append_clean(out1, rest@, strip_ansi(s.take(ci as int)), strip_ansi(rest@));
            assert(s.take(s.len() as int) =~= s);
        }
    }
    let r = string_from_chars(out.as_slice());
    assert(char_spans_of(s, spans@, cspans));
    assert(r@ == paint_spans(s, cspans, ons, code));
    r
}

/// `r` is how a line of notes is shown: its `**...**` spans in bold, then the
/// `_..._` spans of that in italics, and the whole in bold yellow if the line
/// starts with `#`.
pub open spec fn markdown_shown(line: Seq<char>, r: Seq<char>) -> bool {
    exists|b: Seq<char>, i: Seq<char>|
        #![trigger spans_styled(line, spec_bold_spans(line), seq!['1'], b), spans_styled(b, spec_italic_spans(b), seq!['3'], i)]
        spans_styled(line, spec_bold_spans(line), seq!['1'], b) && spans_styled(b, spec_italic_spans(b), seq!['3'], i)
            && (line.len() > 0 && line[0] == '#' ==> painted(r, i, seq!['1', ';', '3', '3']))
            && (!(line.len() > 0 && line[0] == '#') ==> r == i)
}

/// A line of notes as shown: `**...**` spans bold, `_..._` spans italic, a
/// `#` line bold yellow.
pub fn markdown_line(line: &str) -> (r: String)
    ensures
        markdown_shown(line@, r@),
        !has_esc(line@) ==> strip_ansi(r@) == line@,
{
    let bs = bold_spans(line);
    let b = style_spans(line, bs.as_slice(), false);
    let is = italic_spans(b.as_str());
    let i = style_spans(b.as_str(), is.as_slice(), true);
    let lc = chars_of(line);
    let r = if lc.len() > 0 && lc[0] == '#' {
        paint_heading(i.as_str())
    } else {
        i
    };
    assert(markdown_shown(line@, r@));
    r
}

/// Notes as shown, line by line (`str::lines`), each as `markdown_line` shows it.
pub fn markdown(s: &str) -> (r: Vec<String>)
    ensures
        r@.len() == text_lines(s@).len(),
        forall|k: int| 0 <= k < r@.len() ==> markdown_shown(text_lines(s@)[k], #[trigger] r@[k]@),
{
    let cs = chars_of(s);
    let lines = split_lines(cs.as_slice());
    assert(lines@.map_values(|l: Vec<char>| l@) == text_lines(s@));
    let mut out: Vec<String> = Vec::new();
    let mut k: usize = 0;
    while k < lines.len()
        invariant
            k <= lines@.len(),
            lines@.map_values(|l: Vec<char>| l@) == text_lines(s@),
            out@.len() == k,
            forall|j: int| 0 <= j < k ==> markdown_shown(text_lines(s@)[j], #[trigger] out@[j]@),
        decreases lines@.len() - k,
    {
        let l = string_from_chars(lines[k].as_slice());
        assert(lines@.map_values(|l: Vec<char>| l@)[k as int] == lines@[k as int]@);
        let m = markdown_line(l.as_str());
        out.push(m);
        k = k + 1;
    }
    out
}

// ---------------------------------------------------------------------------
// Fuzzy finder
// ---------------------------------------------------------------------------

/// The fuzzy finder's list: for each candidate, its place in `order`, `:`,
/// and the task's line; the lines joined with `\n`.
pub open spec fn fzf_lines(tasks: Seq<crate::todotxt::TaskView>, order: Seq<usize>) -> Seq<Seq<char>> {
    Seq::new(order.len(), |i: int| nat_digits(i as nat) + seq![':'] + task_text(tasks[order[i] as int]))
}

/// What the fuzzy finder is given to choose from (`parse_fzf_output` reads
/// back the places it answers with).
pub fn fzf_input(file: &TodoTxtFile, order: &[usize]) -> (r: String)
    requires
        forall|k: int| 0 <= k < order@.len() ==> (#[trigger] order@[k]) < file@.tasks.len(),
    ensures
        r@ == join_lines(fzf_lines(file@.tasks, order@)),
{
    let ghost ls = fzf_lines(file@.tasks, order@);
    let mut v: Vec<char> = Vec::new();
    let mut i: usize = 0;
    while i < order.len()
        invariant
            i <= order@.len(),
            ls == fzf_lines(file@.tasks, order@),
            forall|k: int| 0 <= k < order@.len() ==> (#[trigger] order@[k]) < file@.tasks.len(),
            v@ == join_lines(ls.take(i as int)),
        decreases order@.len() - i,
    {
        let mut line = u64_chars(i as u64);
        line.push(':');
        let t = file.task(order[i]).to_string();
        let tc = chars_of(t.as_str());
        append_chars(&mut line, tc.as_slice());
        proof {
            assert(line@ == ls[i as int]);
            if i > 0 {
                lemma_join_push(ls.take(i as int), ls[i as int]);
            }
            assert(ls.take(i + 1) =~= ls.take(i as int).push(ls[i as int]));
        }
        if i > 0 {
            v.push('\n');
        }
        append_chars(&mut v, line.as_slice());
        proof {
            if i == 0 {
                assert(ls.take(1) =~= seq![ls[0]]);
                assert(v@ =~= join_lines(ls.take(1)));
            } else {
                assert(v@ =~= join_lines(ls.take(i + 1)));
            }
        }
        i = i + 1;
    }
    assert(ls.take(i as int) =~= ls);
    string_from_chars(v.as_slice())
}

} // verus!
