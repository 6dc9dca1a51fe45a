//! The todo.txt format: one task per line,
//!
//! ```text
//! [x ][(P) ][completion-date ][creation-date ]description
//! ```
//!
//! where the description is a sequence of words and runs of blanks, a word
//! being a project (`+name`), a context (`@name`), a key/value pair
//! (`key:value`) or anything else.
use vstd::prelude::*;

pub mod display;
pub mod file;

use crate::date::{
    chrono_default, is_relative_form, lemma_absolute_any_day,
    date_outcome, date_result_matches, date_text, format_date_on, in_range, ymd_chars,
    lemma_negative_year_unreadable, lemma_plain_date_roundtrip, lemma_plain_reads_back,
    lemma_ymd_text_chars, lemma_ymd_text_shape, parse_date_on, spec_ymd, today, ymd_text,
    chrono_date, lemma_date_token_fields, relative_form, ymd_fields, Date, DateOutcome,
};
use crate::error::ToroError;
use crate::text::{
    all_digits, append_chars, chars_eq, chars_eq_str, chars_of, first_index_from, is_digit,
    lemma_first_index_from, lemma_first_index_is, lemma_first_index_none, slice_from, slice_range,
    string_from_chars, string_from_str, find_char_from, digit_char, int_str, lemma_digit_char, nat_digits, pad_left,
};

verus! {

pub open spec fn due_key() -> Seq<char> {
    "due"@
}

pub open spec fn scheduled_key() -> Seq<char> {
    "scheduled"@
}

// ---------------------------------------------------------------------------
// Description tokens
// ---------------------------------------------------------------------------

/// A piece of a task's description.
#[derive(Debug, Clone, PartialEq, Eq, Hash)]
pub enum DescriptionToken {
    /// `+name`
    Project(String),
    /// `@name`
    Context(String),
    /// Any other word, or a run of blanks.
    Other(String),
    /// `key:value`
    Meta(String, String),
}

/// A description token as characters.
pub enum TokenView {
    Project(Seq<char>),
    Context(Seq<char>),
    Other(Seq<char>),
    Meta(Seq<char>, Seq<char>),
}

impl View for DescriptionToken {
    type V = TokenView;

    open spec fn view(&self) -> TokenView {
        match self {
            DescriptionToken::Project(p) => TokenView::Project(p@),
            DescriptionToken::Context(c) => TokenView::Context(c@),
            DescriptionToken::Other(o) => TokenView::Other(o@),
            DescriptionToken::Meta(k, v) => TokenView::Meta(k@, v@),
        }
    }
}

pub open spec fn tokens_view(v: Seq<DescriptionToken>) -> Seq<TokenView> {
    v.map_values(|t: DescriptionToken| t@)
}

/// How a token is written (`Display`).
pub open spec fn token_text(t: TokenView) -> Seq<char> {
    match t {
        TokenView::Project(p) => seq!['+'] + p,
        TokenView::Context(c) => seq!['@'] + c,
        TokenView::Other(o) => o,
        TokenView::Meta(k, v) => k + seq![':'] + v,
    }
}

/// How a sequence of tokens is written: their texts one after the other.
pub open spec fn render(ts: Seq<TokenView>) -> Seq<char>
    decreases ts.len(),
{
    if ts.len() == 0 {
        seq![]
    } else {
        token_text(ts[0]) + render(ts.drop_first())
    }
}

/// Blanks separate the words of a description.
pub open spec fn is_blank(c: char) -> bool {
    c == ' ' || c == '\t'
}

pub open spec fn is_line_break(c: char) -> bool {
    c == '\n' || c == '\r'
}

pub open spec fn has_line_break(s: Seq<char>) -> bool {
    exists|i: int| 0 <= i < s.len() && is_line_break(#[trigger] s[i])
}

/// A word with exactly one `:`, neither first nor last, is a key/value pair.
pub open spec fn meta_split(w: Seq<char>) -> Option<int> {
    match first_index_from(w, ':', 0) {
        Some(i) => if 0 < i && i + 1 < w.len() && first_index_from(w, ':', i + 1) is None {
            Some(i)
        } else {
            None
        },
        None => None,
    }
}

/// What a word is.
pub open spec fn classify(w: Seq<char>) -> TokenView {
    if w.len() > 1 && w[0] == '+' {
        TokenView::Project(w.drop_first())
    } else if w.len() > 1 && w[0] == '@' {
        TokenView::Context(w.drop_first())
    } else {
        match meta_split(w) {
            Some(i) => TokenView::Meta(w.take(i), w.skip(i + 1)),
            None => TokenView::Other(w),
        }
    }
}

/// End of the run of blanks (or of non-blanks, when `!blank`) starting at `i`.
pub open spec fn run_end(s: Seq<char>, i: int, blank: bool) -> int
    decreases s.len() - i,
{
    if i < 0 || i >= s.len() || is_blank(s[i]) != blank {
        i
    } else {
        run_end(s, i + 1, blank)
    }
}

pub proof fn lemma_run_end(s: Seq<char>, i: int, blank: bool)
    requires
        0 <= i <= s.len(),
    ensures
        i <= run_end(s, i, blank) <= s.len(),
        forall|k: int| i <= k < run_end(s, i, blank) ==> is_blank(#[trigger] s[k]) == blank,
        run_end(s, i, blank) < s.len() ==> is_blank(s[run_end(s, i, blank)]) != blank,
    decreases s.len() - i,
{
    if i < s.len() && is_blank(s[i]) == blank {
        lemma_run_end(s, i + 1, blank);
    }
}

/// The tokens of `s` from position `i` on: maximal runs of blanks become
/// `Other` tokens, and each maximal run of non-blanks is classified.
pub open spec fn tokens_from(s: Seq<char>, i: int) -> Seq<TokenView>
    decreases s.len() - i,
{
    if i < 0 || i >= s.len() {
        seq![]
    } else {
        let blank = is_blank(s[i]);
        let j = run_end(s, i + 1, blank);
        proof {
            lemma_run_end(s, i + 1, blank);
        }
        let text = s.subrange(i, j);
        seq![if blank { TokenView::Other(text) } else { classify(text) }] + tokens_from(s, j)
    }
}

pub proof fn lemma_classify_text(w: Seq<char>)
    ensures
        token_text(classify(w)) == w,
{
    if w.len() > 1 && w[0] == '+' {
        assert(seq!['+'] + w.drop_first() =~= w);
    } else if w.len() > 1 && w[0] == '@' {
        assert(seq!['@'] + w.drop_first() =~= w);
    } else {
        match meta_split(w) {
            Some(i) => {
                lemma_first_index_from(w, ':', 0);
                assert(w.take(i) + seq![':'] + w.skip(i + 1) =~= w);
            },
            None => {},
        }
    }
}

/// Writing the tokens of a text gives back the text.
pub proof fn lemma_render_tokens(s: Seq<char>, i: int)
    requires
        0 <= i <= s.len(),
    ensures
        render(tokens_from(s, i)) == s.skip(i),
    decreases s.len() - i,
{
    if i < s.len() {
        let blank = is_blank(s[i]);
        let j = run_end(s, i + 1, blank);
        lemma_run_end(s, i + 1, blank);
        lemma_render_tokens(s, j);
        let text = s.subrange(i, j);
        let tok = if blank { TokenView::Other(text) } else { classify(text) };
        lemma_classify_text(text);
        let ts = tokens_from(s, i);
        assert(ts[0] == tok);
        assert(ts.drop_first() =~= tokens_from(s, j));
        assert(token_text(tok) == text);
        assert(text + s.skip(j) =~= s.skip(i));
    } else {
        assert(s.skip(i) =~= Seq::<char>::empty());
    }
}

// ---------------------------------------------------------------------------
// Well-formed token sequences
// ---------------------------------------------------------------------------

pub open spec fn is_blank_run(w: Seq<char>) -> bool {
    w.len() > 0 && forall|i: int| 0 <= i < w.len() ==> is_blank(#[trigger] w[i])
}

pub open spec fn is_word(w: Seq<char>) -> bool {
    w.len() > 0 && forall|i: int| 0 <= i < w.len() ==> !is_blank(#[trigger] w[i]) && !is_line_break(w[i])
}

/// A run of blanks.
pub open spec fn token_is_blank(t: TokenView) -> bool {
    t matches TokenView::Other(w) && is_blank_run(w)
}

/// A token is a run of blanks, or a word that reads back as itself.
pub open spec fn token_ok(t: TokenView) -> bool {
    token_is_blank(t) || (is_word(token_text(t)) && classify(token_text(t)) == t)
}

pub open spec fn alternates(ts: Seq<TokenView>, i: int) -> bool {
    token_is_blank(ts[i]) != token_is_blank(ts[i + 1])
}

/// Tokens as reading a description yields them: each well formed, blanks and
/// words taking turns.
pub open spec fn canonical(ts: Seq<TokenView>) -> bool {
    &&& forall|i: int| 0 <= i < ts.len() ==> token_ok(#[trigger] ts[i])
    &&& forall|i: int| 0 <= i < ts.len() - 1 ==> #[trigger] alternates(ts, i)
}

/// No two words touch: of two tokens side by side, one is a run of blanks.
pub open spec fn spaced(ts: Seq<TokenView>) -> bool {
    forall|i: int| 0 <= i < ts.len() - 1 ==> token_is_blank(#[trigger] ts[i]) || token_is_blank(ts[i + 1])
}

/// Tokens as reading gives them have no two words touching.
pub proof fn lemma_canonical_spaced(ts: Seq<TokenView>)
    requires
        canonical(ts),
    ensures
        spaced(ts),
{
    assert forall|i: int| 0 <= i < ts.len() - 1 implies token_is_blank(#[trigger] ts[i]) || token_is_blank(ts[i + 1]) by {
        assert(alternates(ts, i));
    }
}

proof fn lemma_token_text_class(t: TokenView)
    requires
        token_ok(t),
    ensures
        token_text(t).len() > 0,
        forall|k: int| 0 <= k < token_text(t).len() ==> is_blank(#[trigger] token_text(t)[k]) == token_is_blank(t),
        forall|k: int| 0 <= k < token_text(t).len() ==> !is_line_break(#[trigger] token_text(t)[k]),
{
    if !token_is_blank(t) {
        let w = token_text(t);
        assert(is_word(w));
        assert forall|k: int| 0 <= k < w.len() implies is_blank(#[trigger] w[k]) == token_is_blank(t) by {
            assert(!is_blank(w[k]));
        }
    } else {
        let w = token_text(t);
        assert forall|k: int| 0 <= k < w.len() implies !is_line_break(#[trigger] w[k]) by {
            assert(is_blank(w[k]));
        }
    }
}

proof fn lemma_canonical_rest(ts: Seq<TokenView>)
    requires
        canonical(ts),
        ts.len() > 0,
    ensures
        canonical(ts.drop_first()),
{
    let r = ts.drop_first();
    assert forall|i: int| 0 <= i < r.len() implies token_ok(#[trigger] r[i]) by {
        assert(r[i] == ts[i + 1]);
    }
    assert forall|i: int| 0 <= i < r.len() - 1 implies #[trigger] alternates(r, i) by {
        assert(alternates(ts, i + 1));
        assert(r[i] == ts[i + 1] && r[i + 1] == ts[i + 2]);
    }
}

/// The text of well-formed tokens holds no line break.
pub proof fn lemma_render_no_line_break(ts: Seq<TokenView>)
    requires
        canonical(ts),
    ensures
        !has_line_break(render(ts)),
    decreases ts.len(),
{
    if ts.len() > 0 {
        lemma_canonical_rest(ts);
        lemma_render_no_line_break(ts.drop_first());
        lemma_token_text_class(ts[0]);
        let a = token_text(ts[0]);
        let b = render(ts.drop_first());
        assert forall|i: int| 0 <= i < render(ts).len() implies !is_line_break(#[trigger] render(ts)[i]) by {
            if i < a.len() {
                assert(render(ts)[i] == a[i]);
            } else {
                assert(render(ts)[i] == b[i - a.len()]);
            }
        }
    }
}

proof fn lemma_run_end_is(s: Seq<char>, k: int, blank: bool, e: int)
    requires
        0 <= k <= e <= s.len(),
        forall|m: int| k <= m < e ==> is_blank(#[trigger] s[m]) == blank,
        e == s.len() || is_blank(s[e]) != blank,
    ensures
        run_end(s, k, blank) == e,
    decreases e - k,
{
    if k < e {
        lemma_run_end_is(s, k + 1, blank, e);
    }
}

/// Reading a text without line breaks yields well-formed tokens.
pub proof fn lemma_tokens_canonical(s: Seq<char>, i: int)
    requires
        0 <= i <= s.len(),
        !has_line_break(s),
    ensures
        canonical(tokens_from(s, i)),
        tokens_from(s, i).len() > 0 <==> i < s.len(),
        i < s.len() ==> token_is_blank(tokens_from(s, i)[0]) == is_blank(s[i]),
    decreases s.len() - i,
{
    if i < s.len() {
        let blank = is_blank(s[i]);
        let j = run_end(s, i + 1, blank);
        lemma_run_end(s, i + 1, blank);
        lemma_tokens_canonical(s, j);
        let text = s.subrange(i, j);
        let tok = if blank { TokenView::Other(text) } else { classify(text) };
        let rest = tokens_from(s, j);
        let ts = tokens_from(s, i);
        assert(ts =~= seq![tok] + rest);
        assert forall|k: int| 0 <= k < text.len() implies is_blank(#[trigger] text[k]) == blank by {
            if k > 0 {
                assert(text[k] == s[i + k]);
            }
        }
        if blank {
            assert(is_blank_run(text));
        } else {
            assert forall|k: int| 0 <= k < text.len() implies !is_blank(#[trigger] text[k]) && !is_line_break(text[k]) by {
                assert(text[k] == s[i + k]);
                if is_line_break(s[i + k]) {
                    assert(has_line_break(s));
                }
            }
            lemma_classify_text(text);
            assert(token_text(tok) == text);
            assert(!token_is_blank(tok)) by {
                match tok {
                    TokenView::Other(w) => {
                        assert(token_text(tok) == w);
                        assert(!is_blank(w[0]));
                    },
                    _ => {},
                }
            }
        }
        assert(token_ok(tok));
        assert forall|k: int| 0 <= k < ts.len() implies token_ok(#[trigger] ts[k]) by {
            if k > 0 {
                assert(ts[k] == rest[k - 1]);
            }
        }
        assert forall|k: int| 0 <= k < ts.len() - 1 implies #[trigger] alternates(ts, k) by {
            if k == 0 {
                assert(j < s.len());
                assert(ts[1] == rest[0]);
            } else {
                assert(alternates(rest, k - 1));
                assert(ts[k] == rest[k - 1] && ts[k + 1] == rest[k]);
            }
        }
    }
}

/// Reading the text of well-formed tokens (after any prefix) gives back the tokens.
pub proof fn lemma_tokens_of_render(p: Seq<char>, ts: Seq<TokenView>)
    requires
        canonical(ts),
    ensures
        tokens_from(p + render(ts), p.len() as int) == ts,
    decreases ts.len(),
{
    let s = p + render(ts);
    if ts.len() == 0 {
        assert(tokens_from(s, p.len() as int) =~= ts);
    } else {
        let t0 = ts[0];
        let w = token_text(t0);
        let rest = ts.drop_first();
        let r = render(rest);
        lemma_canonical_rest(ts);
        lemma_token_text_class(t0);
        assert(s =~= (p + w) + r);
        let i = p.len() as int;
        let blank = is_blank(s[i]);
        assert(s[i] == w[0]);
        assert(blank == token_is_blank(t0));
        let e = i + w.len();
        assert forall|m: int| i + 1 <= m < e implies is_blank(#[trigger] s[m]) == blank by {
            assert(s[m] == w[m - i]);
        }
        if rest.len() > 0 {
            lemma_token_text_class(rest[0]);
            assert(alternates(ts, 0));
            assert(rest[0] == ts[1]);
            assert(r[0] == token_text(rest[0])[0]);
            assert(s[e] == r[0]);
        } else {
            assert(r =~= Seq::<char>::empty());
            assert(e == s.len());
        }
        lemma_run_end_is(s, i + 1, blank, e);
        let text = s.subrange(i, e);
        assert(text =~= w);
        let tok = if blank { TokenView::Other(text) } else { classify(text) };
        assert(tok == t0);
        lemma_tokens_of_render(p + w, rest);
        assert(tokens_from(s, i) =~= seq![tok] + tokens_from(s, e));
        assert(tokens_from(s, i) =~= ts);
    }
}

fn make_string(v: &[char]) -> (r: String)
    ensures
        r@ == v@,
{
    string_from_chars(v)
}

/// The token for a word.
fn classify_word(w: &[char]) -> (r: DescriptionToken)
    ensures
        r@ == classify(w@),
{
    if w.len() > 1 && w[0] == '+' {
        let rest = slice_from(w, 1);
        assert(rest@ =~= w@.drop_first());
        return DescriptionToken::Project(make_string(rest.as_slice()));
    }
    if w.len() > 1 && w[0] == '@' {
        let rest = slice_from(w, 1);
        assert(rest@ =~= w@.drop_first());
        return DescriptionToken::Context(make_string(rest.as_slice()));
    }
    proof {
        lemma_first_index_from(w@, ':', 0);
    }
    match find_char_from(w, ':', 0) {
        Some(i) => {
            if 0 < i && i + 1 < w.len() {
                match find_char_from(w, ':', i + 1) {
                    None => {
                        let k = slice_range(w, 0, i);
                        let v = slice_from(w, i + 1);
                        assert(k@ =~= w@.take(i as int));
                        assert(v@ =~= w@.skip(i + 1));
                        return DescriptionToken::Meta(make_string(k.as_slice()), make_string(v.as_slice()));
                    },
                    Some(_) => {},
                }
            }
        },
        None => {},
    }
    DescriptionToken::Other(make_string(w))
}

fn is_blank_char(c: char) -> (r: bool)
    ensures
        r == is_blank(c),
{
    c == ' ' || c == '\t'
}

// ---------------------------------------------------------------------------
// Normalising due and scheduled dates
// ---------------------------------------------------------------------------

/// The value a `due:` or `scheduled:` pair keeps: a value that reads as a date
/// is rewritten as that date's `year-month-day`; other values stay.
pub open spec fn normalized_value(k: Seq<char>, v: Seq<char>, t: int) -> Seq<char> {
    if k == due_key() || k == scheduled_key() {
        match date_outcome(v, t) {
            DateOutcome::Day(n) => date_text(n, false, t),
            _ => v,
        }
    } else {
        v
    }
}

pub open spec fn normalize(tok: TokenView, t: int) -> TokenView {
    match tok {
        TokenView::Meta(k, v) => TokenView::Meta(k, normalized_value(k, v, t)),
        _ => tok,
    }
}

/// The tokens of a description, with due and scheduled dates normalised, when today is `t`.
pub open spec fn description_tokens(s: Seq<char>, t: int) -> Seq<TokenView> {
    tokens_from(s, 0).map_values(|x: TokenView| normalize(x, t))
}

fn is_date_key(k: &String) -> (r: bool)
    ensures
        r == (k@ == due_key() || k@ == scheduled_key()),
{
    let kc = chars_of(k.as_str());
    chars_eq_str(kc.as_slice(), "due") || chars_eq_str(kc.as_slice(), "scheduled")
}

/// A `key:value` pair that normalising leaves as it is.
pub open spec fn meta_fixed(t: TokenView, day: int) -> bool {
    match t {
        TokenView::Meta(k, v) => normalized_value(k, v, day) == v,
        _ => true,
    }
}

proof fn lemma_is_digit_not_special(c: char)
    requires
        is_digit(c) || c == '-',
    ensures
        !is_blank(c),
        !is_line_break(c),
        c != ':',
        c != '+',
        c != '@',
{
}

/// Giving a well-formed pair a date value keeps it well formed.
proof fn lemma_meta_with_date_ok(k: Seq<char>, v: Seq<char>, nv: Seq<char>)
    requires
        token_ok(TokenView::Meta(k, v)),
        nv.len() > 0,
        forall|i: int| 0 <= i < nv.len() ==> is_digit(#[trigger] nv[i]) || nv[i] == '-',
    ensures
        token_ok(TokenView::Meta(k, nv)),
        !token_is_blank(TokenView::Meta(k, nv)),
{
    let w = k + seq![':'] + v;
    assert(token_text(TokenView::Meta(k, v)) == w);
    assert(classify(w) == TokenView::Meta(k, v));
    assert(is_word(w));
    let i = meta_split(w)->0;
    assert(meta_split(w) is Some) by {
        if w.len() > 1 && w[0] == '+' {
        } else if w.len() > 1 && w[0] == '@' {
        } else {
            if meta_split(w) is None {
                assert(classify(w) == TokenView::Other(w));
            }
        }
    }
    assert(!(w.len() > 1 && w[0] == '+'));
    assert(!(w.len() > 1 && w[0] == '@'));
    lemma_first_index_from(w, ':', 0);
    assert(w.take(i) == k);
    assert(i == k.len());
    assert(k.len() > 0);
    let w2 = k + seq![':'] + nv;
    assert(token_text(TokenView::Meta(k, nv)) == w2);
    assert forall|j: int| 0 <= j < w2.len() implies !is_blank(#[trigger] w2[j]) && !is_line_break(w2[j]) by {
        if j < k.len() {
            assert(w2[j] == w[j]);
        } else if j > k.len() {
            assert(w2[j] == nv[j - k.len() - 1]);
            lemma_is_digit_not_special(nv[j - k.len() - 1]);
        }
    }
    assert(is_word(w2));
    assert(w2[0] == w[0]);
    assert forall|j: int| 0 <= j < k.len() implies w2[j] != ':' by {
        assert(w2[j] == w[j]);
    }
    lemma_first_index_is(w2, ':', 0, k.len() as int);
    assert forall|j: int| k.len() + 1 <= j < w2.len() implies w2[j] != ':' by {
        assert(w2[j] == nv[j - k.len() - 1]);
        lemma_is_digit_not_special(nv[j - k.len() - 1]);
    }
    lemma_first_index_none(w2, ':', (k.len() + 1) as int);
    assert(meta_split(w2) == Some(k.len() as int));
    assert(w2.take(k.len() as int) =~= k);
    assert(w2.skip((k.len() + 1) as int) =~= nv);
    assert(classify(w2) == TokenView::Meta(k, nv));
}

fn normalize_token(tok: DescriptionToken, today: Date) -> (r: DescriptionToken)
    ensures
        r@ == normalize(tok@, today@),
        meta_fixed(r@, today@),
        token_ok(tok@) ==> token_ok(r@) && token_is_blank(r@) == token_is_blank(tok@),
{
    match tok {
        DescriptionToken::Meta(k, v) => {
            if is_date_key(&k) {
                match parse_date_on(v.as_str(), today) {
                    Ok(d) => {
                        let nv = format_date_on(d, false, today);
                        proof {
                            let (y, m, dd) = spec_ymd(d@);
                            lemma_ymd_text_chars(y, m, dd);
                            if y >= 0 {
                                lemma_plain_reads_back(d@, today@);
                            } else {
                                lemma_negative_year_unreadable(y, m, dd, today@);
                            }
                            if token_ok(TokenView::Meta(k@, v@)) {
                                lemma_meta_with_date_ok(k@, v@, nv@);
                            }
                        }
                        DescriptionToken::Meta(k, nv)
                    },
                    Err(e) => DescriptionToken::Meta(k, v),
                }
            } else {
                DescriptionToken::Meta(k, v)
            }
        },
        other => other,
    }
}

fn find_line_break(s: &[char]) -> (r: bool)
    ensures
        r == has_line_break(s@),
{
    let mut i: usize = 0;
    while i < s.len()
        invariant
            i <= s.len(),
            forall|j: int| 0 <= j < i ==> !is_line_break(#[trigger] s@[j]),
        decreases s.len() - i,
    {
        if s[i] == '\n' || s[i] == '\r' {
            assert(is_line_break(s@[i as int]));
            return true;
        }
        i = i + 1;
    }
    false
}

/// Splits `s` into description tokens, normalising due and scheduled dates for `today`.
fn description_of(s: &[char], today: Date) -> (r: Vec<DescriptionToken>)
    ensures
        tokens_view(r@) == description_tokens(s@, today@),
        !has_line_break(s@) ==> canonical(tokens_view(r@)),
        forall|k: int| 0 <= k < r@.len() ==> meta_fixed(#[trigger] tokens_view(r@)[k], today@),
        tokens_view(r@).len() > 0 ==> token_is_blank(tokens_view(r@)[0]) == is_blank(s@[0]),
        tokens_view(r@).len() > 0 <==> s@.len() > 0,
{
    let ghost lb = has_line_break(s@);
    let ghost all = tokens_from(s@, 0);
    proof {
        if !lb {
            lemma_tokens_canonical(s@, 0);
        }
        lemma_tokens_len(s@, 0);
    }
    let mut out: Vec<DescriptionToken> = Vec::new();
    let ghost mut raw_prefix: Seq<TokenView> = seq![];
    let mut i: usize = 0;
    while i < s.len()
        invariant
            i <= s.len(),
            all == tokens_from(s@, 0),
            lb == has_line_break(s@),
            !lb ==> canonical(all),
            tokens_from(s@, 0).len() > 0 ==> token_is_blank(all[0]) == is_blank(s@[0]),
            tokens_from(s@, 0).len() > 0 <==> s@.len() > 0,
            raw_prefix + tokens_from(s@, i as int) == all,
            raw_prefix.len() == out@.len(),
            i == 0 ==> raw_prefix.len() == 0,
            i > 0 ==> raw_prefix.len() > 0,
            forall|k: int| 0 <= k < out@.len() ==> token_is_blank(#[trigger] tokens_view(out@)[k]) == token_is_blank(raw_prefix[k]),
            !lb ==> forall|k: int| 0 <= k < out@.len() ==> token_ok(#[trigger] tokens_view(out@)[k]),
            forall|k: int| 0 <= k < out@.len() ==> meta_fixed(#[trigger] tokens_view(out@)[k], today@),
            tokens_view(out@) + tokens_from(s@, i as int).map_values(|x: TokenView| normalize(x, today@))
                == tokens_from(s@, 0).map_values(|x: TokenView| normalize(x, today@)),
        decreases s.len() - i,
    {
        let blank = is_blank_char(s[i]);
        let mut j: usize = i + 1;
        while j < s.len() && is_blank_char(s[j]) == blank
            invariant
                i < j <= s.len(),
                blank == is_blank(s@[i as int]),
                run_end(s@, i + 1, blank) == run_end(s@, j as int, blank),
            decreases s.len() - j,
        {
            j = j + 1;
        }
        let text = slice_range(s, i, j);
        let tok = if blank {
            DescriptionToken::Other(make_string(text.as_slice()))
        } else {
            classify_word(text.as_slice())
        };
        let ghost before = tokens_view(out@);
        let ghost raw = tok@;
        proof {
            let ts = tokens_from(s@, i as int);
            assert(ts =~= seq![raw] + tokens_from(s@, j as int));
            assert(all[raw_prefix.len() as int] == raw);
        }
        let nt = normalize_token(tok, today);
        out.push(nt);
        proof {
            assert(tokens_view(out@) =~= before.push(nt@));
            let ts = tokens_from(s@, i as int);
            let f = |x: TokenView| normalize(x, today@);
            assert(ts.map_values(f) =~= seq![f(raw)] + tokens_from(s@, j as int).map_values(f));
            assert(before + ts.map_values(f) =~= before.push(nt@) + tokens_from(s@, j as int).map_values(f));
            assert(raw_prefix.push(raw) + tokens_from(s@, j as int) =~= all);
            raw_prefix = raw_prefix.push(raw);
        }
        i = j;
    }
    proof {
        assert(tokens_from(s@, i as int) =~= Seq::<TokenView>::empty());
        assert(raw_prefix =~= all);
        assert(tokens_view(out@) + tokens_from(s@, i as int).map_values(|x: TokenView| normalize(x, today@)) =~= tokens_view(out@));
        let ov = tokens_view(out@);
        if !lb {
            assert forall|k: int| 0 <= k < ov.len() - 1 implies #[trigger] alternates(ov, k) by {
                assert(alternates(all, k));
                assert(token_is_blank(ov[k]) == token_is_blank(all[k]));
                assert(token_is_blank(ov[k + 1]) == token_is_blank(all[k + 1]));
            }
        }
    }
    out
}

proof fn lemma_tokens_len(s: Seq<char>, i: int)
    requires
        0 <= i <= s.len(),
    ensures
        tokens_from(s, i).len() > 0 <==> i < s.len(),
        i < s.len() ==> token_is_blank(tokens_from(s, i)[0]) == is_blank(s[i]),
{
    if i < s.len() {
        let blank = is_blank(s[i]);
        let j = run_end(s, i + 1, blank);
        lemma_run_end(s, i + 1, blank);
        let text = s.subrange(i, j);
        let tok = if blank { TokenView::Other(text) } else { classify(text) };
        assert(tokens_from(s, i)[0] == tok);
        if blank {
            assert forall|k: int| 0 <= k < text.len() implies is_blank(#[trigger] text[k]) by {
                if k > 0 {
                    assert(text[k] == s[i + k]);
                }
            }
        } else {
            match tok {
                TokenView::Other(w) => {
                    lemma_classify_text(text);
                    assert(w == text);
                    assert(!is_blank(w[0]));
                },
                _ => {},
            }
        }
    }
}

// ---------------------------------------------------------------------------
// Tasks
// ---------------------------------------------------------------------------

/// The dates of a task: none, its creation date, or its completion and creation dates.
#[derive(Debug, Clone, Copy, PartialEq, Eq, Hash, Structural)]
pub enum DateRecord {
    Created(Date),
    CompletedCreated(Date, Date),
    NoDate,
}

/// The dates of a task, by day number.
pub enum DatesView {
    Created(int),
    CompletedCreated(int, int),
    NoDate,
}

impl View for DateRecord {
    type V = DatesView;

    open spec fn view(&self) -> DatesView {
        match *self {
            DateRecord::Created(c) => DatesView::Created(c@),
            DateRecord::CompletedCreated(d, c) => DatesView::CompletedCreated(d@, c@),
            DateRecord::NoDate => DatesView::NoDate,
        }
    }
}

/// One line of a todo.txt file.
#[derive(Debug, Hash)]
pub struct TodoTxtTask {
    completed: bool,
    priority: Option<char>,
    dates: DateRecord,
    description: Vec<DescriptionToken>,
}

impl TodoTxtTask {
    /// No two words of the description touch: every description the library
    /// builds (by reading, or by setting and removing pairs) is so.
    #[verifier::type_invariant]
    spec fn words_apart(self) -> bool {
        spaced(tokens_view(self.description@))
    }
}

/// A task as plain values.
pub struct TaskView {
    pub completed: bool,
    pub priority: Option<char>,
    pub dates: DatesView,
    pub description: Seq<TokenView>,
}

impl View for TodoTxtTask {
    type V = TaskView;

    closed spec fn view(&self) -> TaskView {
        TaskView {
            completed: self.completed,
            priority: self.priority,
            dates: self.dates@,
            description: tokens_view(self.description@),
        }
    }
}

// ---------------------------------------------------------------------------
// Reading a task line
// ---------------------------------------------------------------------------

/// Why a task line could not be read.
pub enum TaskFailure {
    /// Not in the todo.txt grammar (`ToroError::SyntaxError`).
    Syntax,
    /// A date that is not a calendar date (`ToroError::DateInputError` with this text).
    BadDate(Seq<char>),
    /// A date out of range (`ToroError::DateOverflowError`).
    DateOverflow,
}

pub open spec fn is_upper(c: char) -> bool {
    'A' as int <= c as int <= 'Z' as int
}

/// A date `dddd-dd-dd` followed by a space starts at `i`.
pub open spec fn date_token_at(s: Seq<char>, i: int) -> bool {
    &&& 0 <= i
    &&& i + 11 <= s.len()
    &&& all_digits(s.subrange(i, i + 4))
    &&& s[i + 4] == '-'
    &&& all_digits(s.subrange(i + 5, i + 7))
    &&& s[i + 7] == '-'
    &&& all_digits(s.subrange(i + 8, i + 10))
    &&& s[i + 10] == ' '
}

/// Where the completion mark `x ` ends (0 when there is none).
pub open spec fn completion_end(s: Seq<char>) -> int {
    if s.len() >= 2 && s[0] == 'x' && s[1] == ' ' { 2 } else { 0 }
}

/// A priority `(P) ` starts at `p`.
pub open spec fn priority_at(s: Seq<char>, p: int) -> bool {
    0 <= p && p + 4 <= s.len() && s[p] == '(' && is_upper(s[p + 1]) && s[p + 2] == ')' && s[p + 3] == ' '
}

pub open spec fn priority_end(s: Seq<char>) -> int {
    let p = completion_end(s);
    if priority_at(s, p) { p + 4 } else { p }
}

/// Where dates starting at `p` end.
pub open spec fn dates_end_at(s: Seq<char>, p: int) -> int {
    if date_token_at(s, p) {
        if date_token_at(s, p + 11) { p + 22 } else { p + 11 }
    } else {
        p
    }
}

pub open spec fn dates_end(s: Seq<char>) -> int {
    dates_end_at(s, priority_end(s))
}

/// The description starts after the header and the blanks that follow it.
pub open spec fn description_start(s: Seq<char>) -> int {
    run_end(s, dates_end(s), true)
}

pub open spec fn date_failure(o: DateOutcome, text: Seq<char>) -> TaskFailure {
    match o {
        DateOutcome::Overflow => TaskFailure::DateOverflow,
        _ => TaskFailure::BadDate(text),
    }
}

/// The dates of a header that starts them at position `p`.
pub open spec fn dates_at(s: Seq<char>, p: int, t: int) -> Result<DatesView, TaskFailure> {
    if date_token_at(s, p) {
        let t1 = s.subrange(p, p + 10);
        let o1 = date_outcome(t1, t);
        if date_token_at(s, p + 11) {
            let t2 = s.subrange(p + 11, p + 21);
            let o2 = date_outcome(t2, t);
            match o1 {
                DateOutcome::Day(a) => match o2 {
                    DateOutcome::Day(b) => Ok(DatesView::CompletedCreated(a, b)),
                    _ => Err(date_failure(o2, t2)),
                },
                _ => Err(date_failure(o1, t1)),
            }
        } else {
            match o1 {
                DateOutcome::Day(a) => Ok(DatesView::Created(a)),
                _ => Err(date_failure(o1, t1)),
            }
        }
    } else {
        Ok(DatesView::NoDate)
    }
}

/// The dates in the header of `s`.
pub open spec fn header_dates(s: Seq<char>, t: int) -> Result<DatesView, TaskFailure> {
    dates_at(s, priority_end(s), t)
}

/// What reading the task line `s` gives when today has day number `t`.
pub open spec fn task_outcome(s: Seq<char>, t: int) -> Result<TaskView, TaskFailure> {
    if has_line_break(s) {
        Err(TaskFailure::Syntax)
    } else {
        match header_dates(s, t) {
            Err(e) => Err(e),
            Ok(d) => Ok(TaskView {
                completed: completion_end(s) == 2,
                priority: if priority_at(s, completion_end(s)) {
                    Some(s[completion_end(s) + 1])
                } else {
                    None
                },
                dates: d,
                description: description_tokens(s.skip(description_start(s)), t),
            }),
        }
    }
}

/// Whether `r` is what reading a task line ends with for the given outcome.
pub open spec fn task_result_matches(
    r: Result<TodoTxtTask, ToroError>,
    o: Result<TaskView, TaskFailure>,
    input: Seq<char>,
) -> bool {
    match o {
        Ok(tv) => r matches Ok(task) && task@ == tv,
        Err(TaskFailure::Syntax) => r matches Err(ToroError::SyntaxError(m)) && m@ == input,
        Err(TaskFailure::BadDate(text)) => r matches Err(ToroError::DateInputError(m)) && m@ == text,
        Err(TaskFailure::DateOverflow) => r matches Err(ToroError::DateOverflowError),
    }
}

pub(crate) fn is_upper_char(c: char) -> (r: bool)
    ensures
        r == is_upper(c),
{
    let v = c as u32;
    65 <= v && v <= 90
}

fn is_digit_char(c: char) -> (r: bool)
    ensures
        r == is_digit(c),
{
    let v = c as u32;
    48 <= v && v <= 57
}

fn digits_at(s: &[char], from: usize, to: usize) -> (r: bool)
    requires
        from <= to <= s.len(),
    ensures
        r == all_digits(s@.subrange(from as int, to as int)),
{
    let mut i = from;
    while i < to
        invariant
            from <= i <= to <= s.len(),
            all_digits(s@.subrange(from as int, i as int)),
        decreases to - i,
    {
        if !is_digit_char(s[i]) {
            assert(!is_digit(s@.subrange(from as int, to as int)[i - from]));
            return false;
        }
        assert(s@.subrange(from as int, i + 1) =~= s@.subrange(from as int, i as int).push(s@[i as int]));
        i = i + 1;
    }
    true
}

fn date_token_at_exec(s: &[char], i: usize) -> (r: bool)
    ensures
        r == date_token_at(s@, i as int),
{
    if i > s.len() || s.len() - i < 11 {
        return false;
    }
    digits_at(s, i, i + 4) && s[i + 4] == '-' && digits_at(s, i + 5, i + 7) && s[i + 7] == '-'
        && digits_at(s, i + 8, i + 10) && s[i + 10] == ' '
}

proof fn lemma_date_token_text(s: Seq<char>, i: int)
    requires
        date_token_at(s, i),
    ensures
        !relative_form(s.subrange(i, i + 10)),
        ymd_fields(s.subrange(i, i + 10)) matches Some(f) && 0 <= f.0 <= 9999,
{
    let text = s.subrange(i, i + 10);
    assert(text.subrange(0, 4) =~= s.subrange(i, i + 4));
    assert(text.subrange(5, 7) =~= s.subrange(i + 5, i + 7));
    assert(text.subrange(8, 10) =~= s.subrange(i + 8, i + 10));
    lemma_date_token_fields(text);
}

fn read_header_date(s: &[char], from: usize, today: Date) -> (r: Result<Date, ToroError>)
    requires
        from + 10 <= s.len(),
    ensures
        date_result_matches(r, date_outcome(s@.subrange(from as int, from + 10), today@), s@.subrange(from as int, from + 10)),
        !relative_form(s@.subrange(from as int, from + 10)) ==> (r matches Ok(d)
            ==> ymd_fields(s@.subrange(from as int, from + 10)) == Some(spec_ymd(d@))),
{
    let text = slice_range(s, from, from + 10);
    let st = make_string(text.as_slice());
    parse_date_on(st.as_str(), today)
}

/// A due or scheduled pair whose value names a day relative to today.
pub open spec fn relative_token(t: TokenView) -> bool {
    t matches TokenView::Meta(k, v) && (k == due_key() || k == scheduled_key()) && relative_form(v)
}

/// Some due or scheduled pair of the tokens names a day relative to today.
pub open spec fn has_relative_date(ts: Seq<TokenView>) -> bool {
    exists|i: int| 0 <= i < ts.len() && #[trigger] relative_token(ts[i])
}

/// Some due or scheduled pair of the task line names a day relative to today:
/// only then does reading the line depend on the day.
pub open spec fn line_relative(s: Seq<char>) -> bool {
    has_relative_date(tokens_from(s.skip(description_start(s)), 0))
}

pub(crate) fn relative_token_exec(t: &DescriptionToken) -> (r: bool)
    ensures
        r == relative_token(t@),
{
    match t {
        DescriptionToken::Meta(k, v) => {
            let vc = chars_of(v.as_str());
            is_date_key(k) && is_relative_form(vc.as_slice())
        },
        _ => false,
    }
}

/// Whether some due or scheduled pair of the text, split into tokens, names a
/// day relative to today.
fn relative_dates_in(s: &[char]) -> (r: bool)
    ensures
        r == has_relative_date(tokens_from(s@, 0)),
{
    let ghost all = tokens_from(s@, 0);
    let ghost mut raw_prefix: Seq<TokenView> = seq![];
    let mut found = false;
    let mut i: usize = 0;
    while i < s.len()
        invariant
            i <= s.len(),
            all == tokens_from(s@, 0),
            raw_prefix + tokens_from(s@, i as int) == all,
            found == exists|k: int| 0 <= k < raw_prefix.len() && #[trigger] relative_token(raw_prefix[k]),
        decreases s.len() - i,
    {
        let blank = is_blank_char(s[i]);
        let mut j: usize = i + 1;
        while j < s.len() && is_blank_char(s[j]) == blank
            invariant
                i < j <= s.len(),
                blank == is_blank(s@[i as int]),
                run_end(s@, i + 1, blank) == run_end(s@, j as int, blank),
            decreases s.len() - j,
        {
            j = j + 1;
        }
        let text = slice_range(s, i, j);
        let tok = if blank {
            DescriptionToken::Other(make_string(text.as_slice()))
        } else {
            classify_word(text.as_slice())
        };
        let ghost raw = tok@;
        proof {
            lemma_run_end(s@, i + 1, blank);
            let ts = tokens_from(s@, i as int);
            assert(ts =~= seq![raw] + tokens_from(s@, j as int));
        }
        let rel = relative_token_exec(&tok);
        proof {
            let old_prefix = raw_prefix;
            raw_prefix = raw_prefix.push(raw);
            assert(raw_prefix + tokens_from(s@, j as int) =~= all);
            assert(raw_prefix[old_prefix.len() as int] == raw);
            if found {
                let k = choose|k: int| 0 <= k < old_prefix.len() && #[trigger] relative_token(old_prefix[k]);
                assert(raw_prefix[k] == old_prefix[k]);
            }
            if (exists|k: int| 0 <= k < raw_prefix.len() && #[trigger] relative_token(raw_prefix[k])) {
                let k = choose|k: int| 0 <= k < raw_prefix.len() && #[trigger] relative_token(raw_prefix[k]);
                if k < old_prefix.len() {
                    assert(raw_prefix[k] == old_prefix[k]);
                }
            }
        }
        found = found || rel;
        i = j;
    }
    proof {
        assert(tokens_from(s@, i as int) =~= Seq::<TokenView>::empty());
        assert(raw_prefix =~= all);
    }
    found
}

/// Where the description of the line starts.
fn description_start_exec(s: &[char]) -> (r: usize)
    ensures
        r == description_start(s@),
        r <= s.len(),
{
    let completed = s.len() >= 2 && s[0] == 'x' && s[1] == ' ';
    let mut p: usize = if completed { 2 } else { 0 };
    if p + 4 <= s.len() && s[p] == '(' && is_upper_char(s[p + 1]) && s[p + 2] == ')' && s[p + 3] == ' ' {
        p = p + 4;
    }
    assert(p == priority_end(s@));
    if date_token_at_exec(s, p) {
        if date_token_at_exec(s, p + 11) {
            p = p + 22;
        } else {
            p = p + 11;
        }
    }
    assert(p == dates_end(s@));
    proof {
        lemma_run_end(s@, p as int, true);
    }
    let mut q = p;
    while q < s.len() && is_blank_char(s[q])
        invariant
            p <= q <= s.len(),
            run_end(s@, p as int, true) == run_end(s@, q as int, true),
        decreases s.len() - q,
    {
        q = q + 1;
    }
    q
}

/// Whether some due or scheduled pair of the task line names a day relative
/// to today (`line_relative`).
pub(crate) fn line_relative_exec(s: &[char]) -> (r: bool)
    ensures
        r == line_relative(s@),
{
    let ds = description_start_exec(s);
    let rest = slice_from(s, ds);
    assert(rest@ =~= s@.skip(description_start(s@)));
    relative_dates_in(rest.as_slice())
}

/// Without a relative due or scheduled date, reading a description gives
/// the same tokens whatever day today is.
pub proof fn lemma_description_any_day(d: Seq<char>, t1: int, t2: int)
    requires
        !has_relative_date(tokens_from(d, 0)),
    ensures
        description_tokens(d, t1) == description_tokens(d, t2),
{
    let ts = tokens_from(d, 0);
    let a = description_tokens(d, t1);
    let b = description_tokens(d, t2);
    assert forall|i: int| 0 <= i < ts.len() implies a[i] == b[i] by {
        assert(!relative_token(ts[i]));
        match ts[i] {
            TokenView::Meta(k, v) => {
                if k == due_key() || k == scheduled_key() {
                    lemma_absolute_any_day(v, t1, t2);
                }
            },
            _ => {},
        }
    }
    assert(a =~= b);
}

/// Header dates are plain dates: reading them does not depend on the day.
proof fn lemma_header_any_day(s: Seq<char>, t1: int, t2: int)
    ensures
        header_dates(s, t1) == header_dates(s, t2),
{
    let p = priority_end(s);
    reveal_strlit("today");
    reveal_strlit("tomorrow");
    reveal_strlit("yesterday");
    if date_token_at(s, p) {
        let x = s.subrange(p, p + 10);
        assert(x.last() == s[p + 9]);
        assert(s.subrange(p + 8, p + 10)[1] == s[p + 9]);
        assert(is_digit(x.last()));
        assert(!relative_form(x)) by {
            assert(x.len() == 10);
        }
        lemma_absolute_any_day(x, t1, t2);
        if date_token_at(s, p + 11) {
            let y = s.subrange(p + 11, p + 21);
            assert(y.last() == s[p + 20]);
            assert(s.subrange(p + 19, p + 21)[1] == s[p + 20]);
            assert(is_digit(y.last()));
            assert(!relative_form(y)) by {
                assert(y.len() == 10);
            }
            lemma_absolute_any_day(y, t1, t2);
        }
    }
}

/// A line without a relative due or scheduled date reads the same whatever
/// day today is.
pub proof fn lemma_line_any_day(s: Seq<char>, t1: int, t2: int)
    requires
        !line_relative(s),
    ensures
        task_outcome(s, t1) == task_outcome(s, t2),
{
    lemma_header_any_day(s, t1, t2);
    lemma_description_any_day(s.skip(description_start(s)), t1, t2);
}

/// Reads a task line given as characters, with today being `today`.
pub(crate) fn parse_chars(s: &[char], today: Date) -> (r: Result<TodoTxtTask, ToroError>)
    ensures
        task_result_matches(r, task_outcome(s@, today@), s@),
        r matches Ok(task) ==> task_ok(task@, today@),
{
    if find_line_break(s) {
        return Err(ToroError::SyntaxError(make_string(s)));
    }
    let completed = s.len() >= 2 && s[0] == 'x' && s[1] == ' ';
    let mut p: usize = if completed { 2 } else { 0 };
    let priority = if p + 4 <= s.len() && s[p] == '(' && is_upper_char(s[p + 1]) && s[p + 2] == ')' && s[p + 3] == ' ' {
        let c = s[p + 1];
        p = p + 4;
        Some(c)
    } else {
        None
    };
    assert(p == priority_end(s@));
    let dates = if date_token_at_exec(s, p) {
        proof {
            lemma_date_token_text(s@, p as int);
        }
        let first = match read_header_date(s, p, today) {
            Ok(d) => d,
            Err(e) => return Err(e),
        };
        proof {
            use_type_invariant(&first);
        }
        if date_token_at_exec(s, p + 11) {
            proof {
                lemma_date_token_text(s@, p + 11);
            }
            let second = match read_header_date(s, p + 11, today) {
                Ok(d) => d,
                Err(e) => return Err(e),
            };
            proof {
                use_type_invariant(&second);
            }
            p = p + 22;
            DateRecord::CompletedCreated(first, second)
        } else {
            p = p + 11;
            DateRecord::Created(first)
        }
    } else {
        DateRecord::NoDate
    };
    assert(p == dates_end(s@));
    proof {
        lemma_run_end(s@, p as int, true);
    }
    let mut q = p;
    while q < s.len() && is_blank_char(s[q])
        invariant
            p <= q <= s.len(),
            run_end(s@, p as int, true) == run_end(s@, q as int, true),
        decreases s.len() - q,
    {
        q = q + 1;
    }
    let rest = slice_from(s, q);
    assert(rest@ =~= s@.skip(description_start(s@)));
    assert(!has_line_break(rest@)) by {
        assert forall|k: int| 0 <= k < rest@.len() implies !is_line_break(#[trigger] rest@[k]) by {
            assert(rest@[k] == s@[q + k]);
        }
    }
    let description = description_of(rest.as_slice(), today);
    proof {
        lemma_canonical_spaced(tokens_view(description@));
    }
    let task = TodoTxtTask { completed, priority, dates, description };
    proof {
        if rest@.len() > 0 {
            assert(rest@[0] == s@[q as int]);
        }
    }
    Ok(task)
}

impl TodoTxtTask {
    /// Reads a task line, with today being `today` (for relative due and
    /// scheduled dates). A task read this way, written as a line and read back
    /// on the same day, is the same task.
    pub fn parse_on(line: &str, today: Date) -> (r: Result<TodoTxtTask, ToroError>)
        ensures
            task_result_matches(r, task_outcome(line@, today@), line@),
            r matches Ok(task) ==> task_outcome(task_text(task@), today@) == Ok::<TaskView, TaskFailure>(task@),
            r matches Ok(task) ==> task_ok(task@, today@),
    {
        let s = chars_of(line);
        let r = parse_chars(s.as_slice(), today);
        proof {
            if r is Ok {
                lemma_task_reads_back(r->Ok_0@, today@);
            }
        }
        r
    }

    /// Reads a task line. Only a line with a relative due or scheduled date
    /// reads today's date from the clock; then `ClockError` when the clock
    /// gives no date.
    pub fn parse(line: &str) -> (r: Result<TodoTxtTask, ToroError>)
        ensures
            !line_relative(line@) ==> forall|t: int| task_result_matches(r, #[trigger] task_outcome(line@, t), line@),
            line_relative(line@) ==> r == Err::<TodoTxtTask, ToroError>(ToroError::ClockError) || exists|t: int|
                in_range(t) && task_result_matches(r, task_outcome(line@, t), line@),
    {
        let s = chars_of(line);
        if line_relative_exec(s.as_slice()) {
            match today() {
                Some(t) => Self::parse_on(line, t),
                None => Err(ToroError::ClockError),
            }
        } else {
            let d0 = chrono_default();
            let r = Self::parse_on(line, d0);
            proof {
                assert forall|t: int| task_result_matches(r, #[trigger] task_outcome(line@, t), line@) by {
                    lemma_line_any_day(line@, t, d0@);
                }
            }
            r
        }
    }
}

// ---------------------------------------------------------------------------
// Writing a task line
// ---------------------------------------------------------------------------

/// `year-month-day` of the date with day number `n`.
pub open spec fn plain_date(n: int) -> Seq<char> {
    ymd_text(spec_ymd(n).0, spec_ymd(n).1, spec_ymd(n).2)
}

/// How the dates of a task are written, each followed by a space.
pub open spec fn dates_text(d: DatesView) -> Seq<char> {
    match d {
        DatesView::Created(c) => plain_date(c) + seq![' '],
        DatesView::CompletedCreated(x, c) => plain_date(x) + seq![' '] + plain_date(c) + seq![' '],
        DatesView::NoDate => seq![],
    }
}

/// How a task is written as a line of the file.
pub open spec fn task_text(t: TaskView) -> Seq<char> {
    (if t.completed { seq!['x', ' '] } else { seq![] })
        + (match t.priority {
        Some(p) => seq!['(', p, ')', ' '],
        None => seq![],
    }) + dates_text(t.dates) + seq![' '] + render(t.description)
}

pub proof fn lemma_render_push(ts: Seq<TokenView>, t: TokenView)
    ensures
        render(ts.push(t)) == render(ts) + token_text(t),
    decreases ts.len(),
{
    if ts.len() == 0 {
        assert(ts.push(t).drop_first() =~= Seq::<TokenView>::empty());
        assert(render(ts.push(t)) =~= token_text(t) + render(Seq::<TokenView>::empty()));
    } else {
        lemma_render_push(ts.drop_first(), t);
        assert(ts.push(t).drop_first() =~= ts.drop_first().push(t));
        assert(render(ts.push(t)) =~= token_text(ts[0]) + render(ts.drop_first().push(t)));
    }
}

fn token_chars(t: &DescriptionToken) -> (r: Vec<char>)
    ensures
        r@ == token_text(t@),
{
    match t {
        DescriptionToken::Project(p) => {
            let mut v: Vec<char> = Vec::new();
            v.push('+');
            let pc = chars_of(p.as_str());
            append_chars(&mut v, pc.as_slice());
            v
        },
        DescriptionToken::Context(c) => {
            let mut v: Vec<char> = Vec::new();
            v.push('@');
            let cc = chars_of(c.as_str());
            append_chars(&mut v, cc.as_slice());
            v
        },
        DescriptionToken::Other(o) => chars_of(o.as_str()),
        DescriptionToken::Meta(k, val) => {
            let mut v = chars_of(k.as_str());
            v.push(':');
            let vc = chars_of(val.as_str());
            append_chars(&mut v, vc.as_slice());
            v
        },
    }
}

/// Appends the text of the tokens to `out`.
fn push_rendered(out: &mut Vec<char>, ts: &Vec<DescriptionToken>)
    ensures
        final(out)@ == old(out)@ + render(tokens_view(ts@)),
{
    let ghost start = out@;
    let mut i: usize = 0;
    while i < ts.len()
        invariant
            i <= ts.len(),
            out@ == start + render(tokens_view(ts@).take(i as int)),
        decreases ts.len() - i,
    {
        let tc = token_chars(&ts[i]);
        append_chars(out, tc.as_slice());
        proof {
            let tv = tokens_view(ts@);
            assert(tv.take(i + 1) =~= tv.take(i as int).push(tv[i as int]));
            lemma_render_push(tv.take(i as int), tv[i as int]);
        }
        i = i + 1;
    }
    assert(tokens_view(ts@).take(ts.len() as int) =~= tokens_view(ts@));
}

fn plain_date_chars(d: Date) -> (r: Vec<char>)
    ensures
        r@ == plain_date(d@),
{
    crate::date::ymd_chars(d)
}

impl DescriptionToken {
    /// How the token is written.
    pub fn to_string(&self) -> (r: String)
        ensures
            r@ == token_text(self@),
    {
        let v = token_chars(self);
        make_string(v.as_slice())
    }
}

impl DateRecord {
    /// How the dates are written in a task line, each followed by a space.
    pub fn to_string(&self) -> (r: String)
        ensures
            r@ == dates_text(self@),
    {
        let v = dates_chars(self);
        make_string(v.as_slice())
    }
}

fn dates_chars(d: &DateRecord) -> (r: Vec<char>)
    ensures
        r@ == dates_text(d@),
{
    match *d {
        DateRecord::Created(c) => {
            let mut v = plain_date_chars(c);
            v.push(' ');
            v
        },
        DateRecord::CompletedCreated(x, c) => {
            let mut v = plain_date_chars(x);
            v.push(' ');
            let cv = plain_date_chars(c);
            append_chars(&mut v, cv.as_slice());
            v.push(' ');
            v
        },
        DateRecord::NoDate => Vec::new(),
    }
}

impl TodoTxtTask {
    /// The task as a line of the file.
    pub fn to_string(&self) -> (r: String)
        ensures
            r@ == task_text(self@),
    {
        let mut v: Vec<char> = Vec::new();
        if self.completed {
            v.push('x');
            v.push(' ');
        }
        match self.priority {
            Some(p) => {
                v.push('(');
                v.push(p);
                v.push(')');
                v.push(' ');
            },
            None => {},
        }
        let dv = dates_chars(&self.dates);
        append_chars(&mut v, dv.as_slice());
        v.push(' ');
        push_rendered(&mut v, &self.description);
        assert(v@ =~= task_text(self@));
        make_string(v.as_slice())
    }
}

// ---------------------------------------------------------------------------
// Dates of a task
// ---------------------------------------------------------------------------

pub open spec fn created_of(d: DatesView) -> Option<int> {
    match d {
        DatesView::Created(c) => Some(c),
        DatesView::CompletedCreated(_, c) => Some(c),
        DatesView::NoDate => None,
    }
}

pub open spec fn completed_of(d: DatesView) -> Option<int> {
    match d {
        DatesView::CompletedCreated(x, _) => Some(x),
        _ => None,
    }
}

pub open spec fn with_created_view(d: DatesView, c: int) -> DatesView {
    match d {
        DatesView::CompletedCreated(x, _) => DatesView::CompletedCreated(x, c),
        _ => DatesView::Created(c),
    }
}

pub open spec fn with_completed_view(d: DatesView, x: int) -> DatesView {
    match d {
        DatesView::CompletedCreated(_, c) => DatesView::CompletedCreated(x, c),
        DatesView::Created(c) => DatesView::CompletedCreated(x, c),
        DatesView::NoDate => DatesView::CompletedCreated(x, x),
    }
}

pub open spec fn without_completed_view(d: DatesView) -> DatesView {
    match d {
        DatesView::CompletedCreated(_, c) => DatesView::Created(c),
        other => other,
    }
}

pub open spec fn date_opt_matches(r: Option<Date>, v: Option<int>) -> bool {
    match v {
        Some(n) => r matches Some(d) && d@ == n,
        None => r is None,
    }
}

impl DateRecord {
    /// The creation date, if there is one.
    pub fn created(&self) -> (r: Option<Date>)
        ensures
            date_opt_matches(r, created_of(self@)),
    {
        match *self {
            DateRecord::Created(date) => Some(date),
            DateRecord::CompletedCreated(_, date) => Some(date),
            DateRecord::NoDate => None,
        }
    }

    /// The completion date, if there is one.
    pub fn completed(&self) -> (r: Option<Date>)
        ensures
            date_opt_matches(r, completed_of(self@)),
    {
        match *self {
            DateRecord::CompletedCreated(date, _) => Some(date),
            _ => None,
        }
    }

    /// The same dates with the creation date `created`.
    pub fn with_created(self, created: Date) -> (r: DateRecord)
        ensures
            r@ == with_created_view(self@, created@),
    {
        match self {
            DateRecord::CompletedCreated(comp, _) => DateRecord::CompletedCreated(comp, created),
            _ => DateRecord::Created(created),
        }
    }

    /// The same dates with the completion date `completed` (which is also the
    /// creation date when there was none).
    pub fn with_completed(self, completed: Date) -> (r: DateRecord)
        ensures
            r@ == with_completed_view(self@, completed@),
    {
        match self {
            DateRecord::CompletedCreated(_, crea) => DateRecord::CompletedCreated(completed, crea),
            DateRecord::Created(crea) => DateRecord::CompletedCreated(completed, crea),
            DateRecord::NoDate => DateRecord::CompletedCreated(completed, completed),
        }
    }

    /// The same dates without a completion date.
    pub fn without_completed(self) -> (r: DateRecord)
        ensures
            r@ == without_completed_view(self@),
    {
        match self {
            DateRecord::CompletedCreated(_, crea) => DateRecord::Created(crea),
            other => other,
        }
    }

    pub fn set_created(&mut self, created: Date)
        ensures
            final(self)@ == with_created_view(old(self)@, created@),
    {
        *self = self.with_created(created);
    }

    pub fn set_completed(&mut self, completed: Date)
        ensures
            final(self)@ == with_completed_view(old(self)@, completed@),
    {
        *self = self.with_completed(completed);
    }

    pub fn set_not_completed(&mut self)
        ensures
            final(self)@ == without_completed_view(old(self)@),
    {
        *self = self.without_completed();
    }
}

// ---------------------------------------------------------------------------
// Key/value pairs of a description
// ---------------------------------------------------------------------------

pub open spec fn is_meta_with_key(t: TokenView, key: Seq<char>) -> bool {
    t matches TokenView::Meta(k, _) && k == key
}

/// Index of the first `key:` pair at or after `i`.
pub open spec fn first_meta_from(ts: Seq<TokenView>, key: Seq<char>, i: int) -> Option<int>
    decreases ts.len() - i,
{
    if i < 0 || i >= ts.len() {
        None
    } else if is_meta_with_key(ts[i], key) {
        Some(i)
    } else {
        first_meta_from(ts, key, i + 1)
    }
}

pub proof fn lemma_first_meta_from(ts: Seq<TokenView>, key: Seq<char>, i: int)
    requires
        0 <= i,
    ensures
        match first_meta_from(ts, key, i) {
            Some(k) => i <= k < ts.len() && is_meta_with_key(ts[k], key)
                && forall|j: int| i <= j < k ==> !is_meta_with_key(ts[j], key),
            None => forall|j: int| i <= j < ts.len() ==> !is_meta_with_key(ts[j], key),
        },
    decreases ts.len() - i,
{
    if i < ts.len() && !is_meta_with_key(ts[i], key) {
        lemma_first_meta_from(ts, key, i + 1);
    }
}

pub proof fn lemma_first_meta_is(ts: Seq<TokenView>, key: Seq<char>, i: int, k: int)
    requires
        0 <= i <= k < ts.len(),
        is_meta_with_key(ts[k], key),
        forall|j: int| i <= j < k ==> !is_meta_with_key(ts[j], key),
    ensures
        first_meta_from(ts, key, i) == Some(k),
    decreases k - i,
{
    if i < k {
        lemma_first_meta_is(ts, key, i + 1, k);
    }
}

/// The value of the first `key:` pair.
pub open spec fn meta_value(ts: Seq<TokenView>, key: Seq<char>) -> Option<Seq<char>> {
    match first_meta_from(ts, key, 0) {
        Some(i) => Some(ts[i]->Meta_1),
        None => None,
    }
}

/// The first `key:` pair given the value `v`, or, when there is none, a blank
/// and `key:v` added at the end.
pub open spec fn set_meta_tokens(ts: Seq<TokenView>, key: Seq<char>, v: Seq<char>) -> Seq<TokenView> {
    match first_meta_from(ts, key, 0) {
        Some(i) => ts.update(i, TokenView::Meta(key, v)),
        None => ts + seq![TokenView::Other(seq![' ']), TokenView::Meta(key, v)],
    }
}

/// The tokens without any `key:` pair.
pub open spec fn remove_meta_tokens(ts: Seq<TokenView>, key: Seq<char>) -> Seq<TokenView>
    decreases ts.len(),
{
    if ts.len() == 0 {
        seq![]
    } else {
        remove_meta_tokens(ts.drop_last(), key) + if is_meta_with_key(ts.last(), key) {
            seq![]
        } else {
            seq![ts.last()]
        }
    }
}

fn clone_token(t: &DescriptionToken) -> (r: DescriptionToken)
    ensures
        r@ == t@,
{
    match t {
        DescriptionToken::Project(p) => DescriptionToken::Project(p.clone()),
        DescriptionToken::Context(c) => DescriptionToken::Context(c.clone()),
        DescriptionToken::Other(o) => DescriptionToken::Other(o.clone()),
        DescriptionToken::Meta(k, v) => DescriptionToken::Meta(k.clone(), v.clone()),
    }
}

fn str_eq(a: &str, b: &str) -> (r: bool)
    ensures
        r == (a@ == b@),
{
    let ac = chars_of(a);
    let bc = chars_of(b);
    chars_eq(ac.as_slice(), bc.as_slice())
}

fn token_has_key(t: &DescriptionToken, key: &str) -> (r: bool)
    ensures
        r == is_meta_with_key(t@, key@),
{
    match t {
        DescriptionToken::Meta(k, _) => str_eq(k.as_str(), key),
        _ => false,
    }
}

fn find_meta(ts: &Vec<DescriptionToken>, key: &str) -> (r: Option<usize>)
    ensures
        r matches Some(i) ==> i < ts.len(),
        match r {
            Some(i) => first_meta_from(tokens_view(ts@), key@, 0) == Some(i as int),
            None => first_meta_from(tokens_view(ts@), key@, 0) is None,
        },
{
    let mut i: usize = 0;
    while i < ts.len()
        invariant
            i <= ts.len(),
            first_meta_from(tokens_view(ts@), key@, 0) == first_meta_from(tokens_view(ts@), key@, i as int),
        decreases ts.len() - i,
    {
        if token_has_key(&ts[i], key) {
            return Some(i);
        }
        i = i + 1;
    }
    None
}

fn meta_of(ts: &Vec<DescriptionToken>, key: &str) -> (r: Option<String>)
    ensures
        match meta_value(tokens_view(ts@), key@) {
            Some(v) => r matches Some(s) && s@ == v,
            None => r is None,
        },
{
    match find_meta(ts, key) {
        Some(i) => {
            assert(tokens_view(ts@)[i as int] == ts@[i as int]@);
            proof {
                lemma_first_meta_from(tokens_view(ts@), key@, 0);
            }
            match &ts[i] {
                DescriptionToken::Meta(_, v) => Some(v.clone()),
                _ => None,
            }
        },
        None => None,
    }
}

fn set_meta(ts: &mut Vec<DescriptionToken>, key: &str, value: String)
    ensures
        tokens_view(final(ts)@) == set_meta_tokens(tokens_view(old(ts)@), key@, value@),
{
    match find_meta(ts, key) {
        Some(i) => {
            let ghost before = tokens_view(ts@);
            ts.set(i, DescriptionToken::Meta(string_from_str(key), value));
            assert(tokens_view(ts@) =~= before.update(i as int, TokenView::Meta(key@, value@)));
        },
        None => {
            let ghost before = tokens_view(ts@);
            let blank = DescriptionToken::Other(string_from_str(" "));
            proof {
                reveal_strlit(" ");
                assert(" "@ =~= seq![' ']);
                assert(blank@ == TokenView::Other(seq![' ']));
            }
            ts.push(blank);
            assert(tokens_view(ts@) =~= before.push(TokenView::Other(seq![' '])));
            let pair = DescriptionToken::Meta(string_from_str(key), value);
            ts.push(pair);
            assert(tokens_view(ts@) =~= before.push(TokenView::Other(seq![' '])).push(TokenView::Meta(key@, value@)));
            assert(tokens_view(ts@) =~= before + seq![TokenView::Other(seq![' ']), TokenView::Meta(key@, value@)]);
        },
    }
}

fn remove_meta(ts: &mut Vec<DescriptionToken>, key: &str)
    ensures
        tokens_view(final(ts)@) == remove_meta_tokens(tokens_view(old(ts)@), key@),
{
    let mut out: Vec<DescriptionToken> = Vec::new();
    let mut i: usize = 0;
    let ghost tv = tokens_view(ts@);
    while i < ts.len()
        invariant
            i <= ts.len(),
            tv == tokens_view(ts@),
            tokens_view(out@) == remove_meta_tokens(tv.take(i as int), key@),
        decreases ts.len() - i,
    {
        let ghost before = tokens_view(out@);
        assert(tv.take(i + 1).drop_last() =~= tv.take(i as int));
        if !token_has_key(&ts[i], key) {
            let c = clone_token(&ts[i]);
            out.push(c);
            assert(tokens_view(out@) =~= before + seq![tv[i as int]]);
        } else {
            assert(tokens_view(out@) =~= before + Seq::<TokenView>::empty());
        }
        i = i + 1;
    }
    assert(tv.take(ts.len() as int) =~= tv);
    *ts = out;
}

/// Reading a pair back after writing it gives the value written.
pub proof fn lemma_set_meta_then_read(ts: Seq<TokenView>, key: Seq<char>, v: Seq<char>)
    ensures
        meta_value(set_meta_tokens(ts, key, v), key) == Some(v),
{
    lemma_first_meta_from(ts, key, 0);
    let r = set_meta_tokens(ts, key, v);
    match first_meta_from(ts, key, 0) {
        Some(i) => {
            assert forall|j: int| 0 <= j < i implies !is_meta_with_key(r[j], key) by {
                assert(r[j] == ts[j]);
            }
            lemma_first_meta_is(r, key, 0, i);
        },
        None => {
            let n = ts.len() as int;
            assert forall|j: int| 0 <= j < n + 1 implies !is_meta_with_key(r[j], key) by {
                if j < n {
                    assert(r[j] == ts[j]);
                }
            }
            lemma_first_meta_is(r, key, 0, n + 1);
        },
    }
}

/// Writing one key leaves the pairs of every other key as they were.
pub proof fn lemma_set_meta_keeps_other_keys(ts: Seq<TokenView>, key: Seq<char>, v: Seq<char>, other: Seq<char>)
    requires
        other != key,
    ensures
        meta_value(set_meta_tokens(ts, key, v), other) == meta_value(ts, other),
{
    let r = set_meta_tokens(ts, key, v);
    lemma_first_meta_from(ts, other, 0);
    lemma_first_meta_from(r, other, 0);
    lemma_first_meta_from(ts, key, 0);
    assert forall|j: int| 0 <= j < ts.len() implies (is_meta_with_key(r[j], other) <==> is_meta_with_key(ts[j], other)) && (is_meta_with_key(ts[j], other) ==> r[j] == ts[j]) by {
        match first_meta_from(ts, key, 0) {
            Some(i) => {
                if j != i {
                    assert(r[j] == ts[j]);
                }
            },
            None => {
                assert(r[j] == ts[j]);
            },
        }
    }
    match first_meta_from(ts, other, 0) {
        Some(i) => {
            lemma_first_meta_is(r, other, 0, i);
        },
        None => {
            match first_meta_from(r, other, 0) {
                Some(k) => {
                    assert(k >= ts.len());
                },
                None => {},
            }
        },
    }
}

proof fn lemma_remove_meta_members(ts: Seq<TokenView>, key: Seq<char>)
    ensures
        forall|j: int| 0 <= j < remove_meta_tokens(ts, key).len() ==> !is_meta_with_key(#[trigger] remove_meta_tokens(ts, key)[j], key),
    decreases ts.len(),
{
    if ts.len() > 0 {
        lemma_remove_meta_members(ts.drop_last(), key);
        let a = remove_meta_tokens(ts.drop_last(), key);
        let b: Seq<TokenView> = if is_meta_with_key(ts.last(), key) { seq![] } else { seq![ts.last()] };
        let r = remove_meta_tokens(ts, key);
        assert(r == a + b);
        assert forall|j: int| 0 <= j < r.len() implies !is_meta_with_key(#[trigger] r[j], key) by {
            if j < a.len() {
                assert(r[j] == a[j]);
            } else {
                assert(r[j] == b[j - a.len()]);
            }
        }
    }
}

/// After removing a key, no pair of that key is left.
pub proof fn lemma_remove_meta_then_read(ts: Seq<TokenView>, key: Seq<char>)
    ensures
        meta_value(remove_meta_tokens(ts, key), key) is None,
{
    let r = remove_meta_tokens(ts, key);
    lemma_remove_meta_members(ts, key);
    lemma_first_meta_from(r, key, 0);
}

impl TodoTxtTask {
    /// The value of the first `key:value` pair of the description.
    pub fn meta(&self, key: &str) -> (r: Option<String>)
        ensures
            match meta_value(self@.description, key@) {
                Some(v) => r matches Some(s) && s@ == v,
                None => r is None,
            },
    {
        meta_of(&self.description, key)
    }
}

// ---------------------------------------------------------------------------
// Reading and changing a task
// ---------------------------------------------------------------------------

/// The name of the first project of the description.
pub open spec fn first_project(ts: Seq<TokenView>) -> Option<Seq<char>>
    decreases ts.len(),
{
    if ts.len() == 0 {
        None
    } else {
        match ts[0] {
            TokenView::Project(p) => Some(p),
            _ => first_project(ts.drop_first()),
        }
    }
}

/// Whether `r` is what reading the date `v` of a pair gives when today is `t`.
pub open spec fn meta_date_matches(r: Result<Option<Date>, ToroError>, v: Option<Seq<char>>, t: int) -> bool {
    match v {
        None => r matches Ok(None),
        Some(s) => match date_outcome(s, t) {
            DateOutcome::Day(n) => r matches Ok(Some(d)) && d@ == n,
            DateOutcome::BadInput => r matches Err(ToroError::DateInputError(m)) && m@ == s,
            DateOutcome::Overflow => r matches Err(ToroError::DateOverflowError),
        },
    }
}

/// A value that names a day relative to today.
pub open spec fn value_relative(v: Option<Seq<char>>) -> bool {
    v matches Some(s) && relative_form(s)
}

/// A value in no relative form reads as the same date whatever day today is.
pub proof fn lemma_meta_date_any_day(r: Result<Option<Date>, ToroError>, v: Option<Seq<char>>, t0: int)
    requires
        !value_relative(v),
        meta_date_matches(r, v, t0),
    ensures
        forall|t: int| meta_date_matches(r, v, t),
{
    assert forall|t: int| meta_date_matches(r, v, t) by {
        match v {
            Some(s) => lemma_absolute_any_day(s, t, t0),
            None => {},
        }
    }
}

/// The creation date after `set_creation_date(None)`: a lone creation date
/// goes; with a completion date, the completion date becomes the creation date too.
pub open spec fn creation_cleared(d: DatesView) -> DatesView {
    match d {
        DatesView::Created(_) => DatesView::NoDate,
        DatesView::CompletedCreated(x, _) => DatesView::CompletedCreated(x, x),
        DatesView::NoDate => DatesView::NoDate,
    }
}

impl TodoTxtTask {
    /// The first project the description names.
    pub fn project(&self) -> (r: Option<String>)
        ensures
            match first_project(self@.description) {
                Some(p) => r matches Some(s) && s@ == p,
                None => r is None,
            },
    {
        let ghost tv = tokens_view(self.description@);
        let mut i: usize = 0;
        assert(tv.skip(0) =~= tv);
        while i < self.description.len()
            invariant
                i <= self.description.len(),
                tv == tokens_view(self.description@),
                first_project(tv) == first_project(tv.skip(i as int)),
            decreases self.description.len() - i,
        {
            assert(tv.skip(i as int)[0] == self.description@[i as int]@);
            assert(tv.skip(i as int).drop_first() =~= tv.skip(i + 1));
            match &self.description[i] {
                DescriptionToken::Project(p) => {
                    return Some(p.clone());
                },
                _ => {},
            }
            i = i + 1;
        }
        assert(tv.skip(i as int) =~= Seq::<TokenView>::empty());
        None
    }

    pub fn completed(&self) -> (r: bool)
        ensures
            r == self@.completed,
    {
        self.completed
    }

    pub fn when_completed(&self) -> (r: Option<Date>)
        ensures
            date_opt_matches(r, completed_of(self@.dates)),
    {
        self.dates.completed()
    }

    pub fn when_created(&self) -> (r: Option<Date>)
        ensures
            date_opt_matches(r, created_of(self@.dates)),
    {
        self.dates.created()
    }

    pub fn dates(&self) -> (r: DateRecord)
        ensures
            r@ == self@.dates,
    {
        self.dates
    }

    pub fn priority(&self) -> (r: Option<char>)
        ensures
            r == self@.priority,
    {
        self.priority
    }

    pub fn set_priority(&mut self, priority: Option<char>)
        ensures
            final(self)@ == (TaskView { priority, ..old(self)@ }),
    {
        proof {
            use_type_invariant(&*self);
        }
        self.priority = priority;
    }

    /// The due date, read from the `due:` pair with today being `today`.
    pub fn when_due_on(&self, today: Date) -> (r: Result<Option<Date>, ToroError>)
        ensures
            meta_date_matches(r, meta_value(self@.description, due_key()), today@),
    {
        match self.meta("due") {
            Some(s) => match parse_date_on(s.as_str(), today) {
                Ok(d) => Ok(Some(d)),
                Err(e) => Err(e),
            },
            None => Ok(None),
        }
    }

    /// The scheduled date, read from the `scheduled:` pair with today being `today`.
    pub fn when_scheduled_on(&self, today: Date) -> (r: Result<Option<Date>, ToroError>)
        ensures
            meta_date_matches(r, meta_value(self@.description, scheduled_key()), today@),
    {
        match self.meta("scheduled") {
            Some(s) => match parse_date_on(s.as_str(), today) {
                Ok(d) => Ok(Some(d)),
                Err(e) => Err(e),
            },
            None => Ok(None),
        }
    }

    /// Whether the first `key:` pair has a value that names a day relative
    /// to today.
    fn meta_relative(&self, key: &str) -> (r: bool)
        ensures
            r == value_relative(meta_value(self@.description, key@)),
    {
        match self.meta(key) {
            Some(v) => {
                let vc = chars_of(v.as_str());
                is_relative_form(vc.as_slice())
            },
            None => false,
        }
    }

    /// The due date. Only a relative due value reads today's date from the
    /// clock; then `ClockError` when the clock gives no date.
    pub fn when_due(&self) -> (r: Result<Option<Date>, ToroError>)
        ensures
            !value_relative(meta_value(self@.description, due_key())) ==> forall|t: int|
                meta_date_matches(r, meta_value(self@.description, due_key()), t),
            value_relative(meta_value(self@.description, due_key())) ==> r
                == Err::<Option<Date>, ToroError>(ToroError::ClockError) || exists|t: int|
                in_range(t) && meta_date_matches(r, meta_value(self@.description, due_key()), t),
    {
        if self.meta_relative("due") {
            match today() {
                Some(t) => self.when_due_on(t),
                None => Err(ToroError::ClockError),
            }
        } else {
            let d0 = chrono_default();
            let r = self.when_due_on(d0);
            proof {
                lemma_meta_date_any_day(r, meta_value(self@.description, due_key()), d0@);
            }
            r
        }
    }

    /// The scheduled date. Only a relative scheduled value reads today's date
    /// from the clock; then `ClockError` when the clock gives no date.
    pub fn when_scheduled(&self) -> (r: Result<Option<Date>, ToroError>)
        ensures
            !value_relative(meta_value(self@.description, scheduled_key())) ==> forall|t: int|
                meta_date_matches(r, meta_value(self@.description, scheduled_key()), t),
            value_relative(meta_value(self@.description, scheduled_key())) ==> r
                == Err::<Option<Date>, ToroError>(ToroError::ClockError) || exists|t: int|
                in_range(t) && meta_date_matches(r, meta_value(self@.description, scheduled_key()), t),
    {
        if self.meta_relative("scheduled") {
            match today() {
                Some(t) => self.when_scheduled_on(t),
                None => Err(ToroError::ClockError),
            }
        } else {
            let d0 = chrono_default();
            let r = self.when_scheduled_on(d0);
            proof {
                lemma_meta_date_any_day(r, meta_value(self@.description, scheduled_key()), d0@);
            }
            r
        }
    }

    /// Sets (or, with `None`, removes) the `due:` pair.
    pub fn set_due(&mut self, date_opt: Option<Date>)
        ensures
            final(self)@.completed == old(self)@.completed,
            final(self)@.priority == old(self)@.priority,
            final(self)@.dates == old(self)@.dates,
            final(self)@.description == match date_opt {
                Some(d) => set_meta_tokens(old(self)@.description, due_key(), plain_date(d@)),
                None => remove_meta_tokens(old(self)@.description, due_key()),
            },
    {
        proof {
            use_type_invariant(&*self);
        }
        let mut d: Vec<DescriptionToken> = Vec::new();
        std::mem::swap(&mut d, &mut self.description);
        let ghost before = tokens_view(d@);
        match date_opt {
            Some(date) => {
                let c = ymd_chars(date);
                let v = string_from_chars(c.as_slice());
                set_meta(&mut d, "due", v);
                proof {
                    lemma_set_meta_spaced(before, "due"@, v@);
                }
            },
            None => {
                remove_meta(&mut d, "due");
                proof {
                    lemma_remove_meta_spaced(before, "due"@);
                }
            },
        }
        self.description = d;
    }

    /// Sets (or, with `None`, removes) the `scheduled:` pair.
    pub fn set_scheduled(&mut self, date_opt: Option<Date>)
        ensures
            final(self)@.completed == old(self)@.completed,
            final(self)@.priority == old(self)@.priority,
            final(self)@.dates == old(self)@.dates,
            final(self)@.description == match date_opt {
                Some(d) => set_meta_tokens(old(self)@.description, scheduled_key(), plain_date(d@)),
                None => remove_meta_tokens(old(self)@.description, scheduled_key()),
            },
    {
        proof {
            use_type_invariant(&*self);
        }
        let mut d: Vec<DescriptionToken> = Vec::new();
        std::mem::swap(&mut d, &mut self.description);
        let ghost before = tokens_view(d@);
        match date_opt {
            Some(date) => {
                let c = ymd_chars(date);
                let v = string_from_chars(c.as_slice());
                set_meta(&mut d, "scheduled", v);
                proof {
                    lemma_set_meta_spaced(before, "scheduled"@, v@);
                }
            },
            None => {
                remove_meta(&mut d, "scheduled");
                proof {
                    lemma_remove_meta_spaced(before, "scheduled"@);
                }
            },
        }
        self.description = d;
    }

    /// Marks the task completed on `today`.
    pub fn complete_on(&mut self, today: Date)
        ensures
            final(self)@ == (TaskView {
                completed: true,
                dates: with_completed_view(old(self)@.dates, today@),
                ..old(self)@
            }),
    {
        proof {
            use_type_invariant(&*self);
        }
        self.completed = true;
        self.dates = self.dates.with_completed(today);
    }

    /// Marks the task completed today (by the clock); when the clock gives
    /// no date, `ClockError` and the task is left as it is.
    pub fn complete(&mut self) -> (r: Result<(), ToroError>)
        ensures
            r is Err ==> r == Err::<(), ToroError>(ToroError::ClockError) && final(self)@ == old(self)@,
            r is Ok ==> exists|t: int| in_range(t) && final(self)@ == (TaskView {
                completed: true,
                dates: with_completed_view(old(self)@.dates, t),
                ..old(self)@
            }),
    {
        match today() {
            Some(t) => {
                self.complete_on(t);
                Ok(())
            },
            None => Err(ToroError::ClockError),
        }
    }

    /// Marks the task pending, dropping its completion date.
    pub fn uncomplete(&mut self)
        ensures
            final(self)@ == (TaskView {
                completed: false,
                dates: without_completed_view(old(self)@.dates),
                ..old(self)@
            }),
    {
        proof {
            use_type_invariant(&*self);
        }
        self.completed = false;
        self.dates = self.dates.without_completed();
    }

    /// Marks the task completed (on `today`) or pending.
    pub fn set_completed_on(&mut self, val: bool, today: Date)
        ensures
            val ==> final(self)@ == (TaskView {
                completed: true,
                dates: with_completed_view(old(self)@.dates, today@),
                ..old(self)@
            }),
            !val ==> final(self)@ == (TaskView {
                completed: false,
                dates: without_completed_view(old(self)@.dates),
                ..old(self)@
            }),
    {
        if val {
            self.complete_on(today);
        } else {
            self.uncomplete();
        }
    }

    /// Marks the task completed (today, by the clock) or pending. Only
    /// completing reads the clock; when it gives no date, `ClockError` and
    /// the task is left as it is.
    pub fn set_completed(&mut self, val: bool) -> (r: Result<(), ToroError>)
        ensures
            val && r is Err ==> r == Err::<(), ToroError>(ToroError::ClockError) && final(self)@ == old(self)@,
            val && r is Ok ==> exists|t: int| in_range(t) && final(self)@ == (TaskView {
                completed: true,
                dates: with_completed_view(old(self)@.dates, t),
                ..old(self)@
            }),
            !val ==> r is Ok && final(self)@ == (TaskView {
                completed: false,
                dates: without_completed_view(old(self)@.dates),
                ..old(self)@
            }),
    {
        if val {
            self.complete()
        } else {
            self.uncomplete();
            Ok(())
        }
    }

    /// Sets or removes the completion date; the completion mark stays as it is.
    pub fn set_completion_date(&mut self, date_opt: Option<Date>)
        ensures
            final(self)@ == (TaskView {
                dates: match date_opt {
                    Some(d) => with_completed_view(old(self)@.dates, d@),
                    None => without_completed_view(old(self)@.dates),
                },
                ..old(self)@
            }),
    {
        proof {
            use_type_invariant(&*self);
        }
        match date_opt {
            Some(date) => self.dates = self.dates.with_completed(date),
            None => self.dates = self.dates.without_completed(),
        }
    }

    /// Sets or removes the creation date.
    pub fn set_creation_date(&mut self, date_opt: Option<Date>)
        ensures
            final(self)@ == (TaskView {
                dates: match date_opt {
                    Some(d) => with_created_view(old(self)@.dates, d@),
                    None => creation_cleared(old(self)@.dates),
                },
                ..old(self)@
            }),
    {
        proof {
            use_type_invariant(&*self);
        }
        match date_opt {
            Some(date) => self.dates = self.dates.with_created(date),
            None => {
                self.dates = match self.dates {
                    DateRecord::Created(_) => DateRecord::NoDate,
                    DateRecord::CompletedCreated(completed, _) => DateRecord::CompletedCreated(completed, completed),
                    DateRecord::NoDate => DateRecord::NoDate,
                };
            },
        }
    }

    /// The description as written in the file.
    pub fn description(&self) -> (r: String)
        ensures
            r@ == render(self@.description),
    {
        let mut v: Vec<char> = Vec::new();
        push_rendered(&mut v, &self.description);
        assert(v@ =~= render(self@.description));
        make_string(v.as_slice())
    }

    /// Replaces the description by `description` read as one, with today being `today`.
    pub fn set_description_on(&mut self, description: &str, today: Date) -> (r: Result<(), ToroError>)
        ensures
            has_line_break(description@) ==> (r matches Err(ToroError::SyntaxError(m)) && m@ == description@),
            has_line_break(description@) ==> final(self)@ == old(self)@,
            !has_line_break(description@) ==> r is Ok && final(self)@ == (TaskView {
                description: description_tokens(description@, today@),
                ..old(self)@
            }),
    {
        let s = chars_of(description);
        if find_line_break(s.as_slice()) {
            return Err(ToroError::SyntaxError(string_from_str(description)));
        }
        let d = description_of(s.as_slice(), today);
        proof {
            lemma_canonical_spaced(tokens_view(d@));
        }
        self.description = d;
        Ok(())
    }

    /// Replaces the description. Only a description with a relative due or
    /// scheduled date reads today's date from the clock; then `ClockError`,
    /// and the task left as it is, when the clock gives no date.
    pub fn set_description(&mut self, description: &str) -> (r: Result<(), ToroError>)
        ensures
            has_line_break(description@) ==> (r matches Err(ToroError::SyntaxError(m)) && m@ == description@),
            has_line_break(description@) ==> final(self)@ == old(self)@,
            !has_line_break(description@) && !has_relative_date(tokens_from(description@, 0)) ==> r is Ok
                && forall|t: int| final(self)@ == (TaskView {
                description: #[trigger] description_tokens(description@, t),
                ..old(self)@
            }),
            !has_line_break(description@) && r is Err ==> r == Err::<(), ToroError>(ToroError::ClockError)
                && final(self)@ == old(self)@,
            !has_line_break(description@) && r is Ok ==> exists|t: int| in_range(t) && final(self)@ == (TaskView {
                description: description_tokens(description@, t),
                ..old(self)@
            }),
    {
        let s = chars_of(description);
        if find_line_break(s.as_slice()) {
            return Err(ToroError::SyntaxError(string_from_str(description)));
        }
        if relative_dates_in(s.as_slice()) {
            match today() {
                Some(t) => self.set_description_on(description, t),
                None => Err(ToroError::ClockError),
            }
        } else {
            let d0 = chrono_default();
            let r = self.set_description_on(description, d0);
            proof {
                assert forall|t: int| #[trigger] description_tokens(description@, t) == description_tokens(description@, d0@) by {
                    lemma_description_any_day(description@, t, d0@);
                }
                use_type_invariant(&d0);
            }
            r
        }
    }
}

/// Setting a due date and reading it back gives the same date (for dates from
/// year 0 on), whatever day today is; the scheduled pair is left alone.
pub proof fn lemma_due_reads_back(ts: Seq<TokenView>, d: Date, t: int)
    requires
        d.wf(),
        spec_ymd(d@).0 >= 0,
    ensures
        meta_value(set_meta_tokens(ts, due_key(), plain_date(d@)), due_key()) == Some(plain_date(d@)),
        date_outcome(plain_date(d@), t) == DateOutcome::Day(d@),
        meta_value(set_meta_tokens(ts, due_key(), plain_date(d@)), scheduled_key()) == meta_value(ts, scheduled_key()),
{
    lemma_set_meta_then_read(ts, due_key(), plain_date(d@));
    lemma_plain_date_roundtrip(d, t);
    reveal_strlit("due");
    reveal_strlit("scheduled");
    assert(due_key() != scheduled_key()) by {
        assert(due_key().len() != scheduled_key().len());
    }
    lemma_set_meta_keeps_other_keys(ts, due_key(), plain_date(d@), scheduled_key());
}

/// Setting a scheduled date and reading it back gives the same date (for dates
/// from year 0 on), whatever day today is; the due pair is left alone.
pub proof fn lemma_scheduled_reads_back(ts: Seq<TokenView>, d: Date, t: int)
    requires
        d.wf(),
        spec_ymd(d@).0 >= 0,
    ensures
        meta_value(set_meta_tokens(ts, scheduled_key(), plain_date(d@)), scheduled_key()) == Some(plain_date(d@)),
        date_outcome(plain_date(d@), t) == DateOutcome::Day(d@),
        meta_value(set_meta_tokens(ts, scheduled_key(), plain_date(d@)), due_key()) == meta_value(ts, due_key()),
{
    lemma_set_meta_then_read(ts, scheduled_key(), plain_date(d@));
    lemma_plain_date_roundtrip(d, t);
    reveal_strlit("due");
    reveal_strlit("scheduled");
    assert(due_key() != scheduled_key()) by {
        assert(due_key().len() != scheduled_key().len());
    }
    lemma_set_meta_keeps_other_keys(ts, scheduled_key(), plain_date(d@), due_key());
}

// ---------------------------------------------------------------------------
// Writing a task and reading it back
// ---------------------------------------------------------------------------

/// A date that the header of a line can hold: one chrono holds, in a year from 0 to 9999.
pub open spec fn header_date_ok(n: int) -> bool {
    chrono_date(n) && 0 <= spec_ymd(n).0 <= 9999
}

pub open spec fn dates_ok(d: DatesView) -> bool {
    match d {
        DatesView::Created(c) => header_date_ok(c),
        DatesView::CompletedCreated(x, c) => header_date_ok(x) && header_date_ok(c),
        DatesView::NoDate => true,
    }
}

/// Tokens that reading their text back on day `t` reproduces: well formed,
/// not starting with blanks, and with due and scheduled values already normalised.
pub open spec fn description_ok(ts: Seq<TokenView>, t: int) -> bool {
    &&& canonical(ts)
    &&& (ts.len() > 0 ==> !token_is_blank(ts[0]))
    &&& forall|i: int| 0 <= i < ts.len() ==> meta_fixed(#[trigger] ts[i], t)
}

/// A task that its line reproduces when read on day `t`.
pub open spec fn task_ok(tv: TaskView, t: int) -> bool {
    &&& (tv.priority matches Some(p) ==> is_upper(p))
    &&& dates_ok(tv.dates)
    &&& description_ok(tv.description, t)
}

proof fn lemma_normalize_fixed(ts: Seq<TokenView>, t: int)
    requires
        forall|i: int| 0 <= i < ts.len() ==> meta_fixed(#[trigger] ts[i], t),
    ensures
        ts.map_values(|x: TokenView| normalize(x, t)) == ts,
{
    let m = ts.map_values(|x: TokenView| normalize(x, t));
    assert forall|i: int| 0 <= i < ts.len() implies m[i] == ts[i] by {
        assert(meta_fixed(ts[i], t));
    }
    assert(m =~= ts);
}

proof fn lemma_header_date_text(n: int, t: int)
    requires
        header_date_ok(n),
    ensures
        plain_date(n).len() == 10,
        all_digits(plain_date(n).subrange(0, 4)),
        plain_date(n)[4] == '-',
        all_digits(plain_date(n).subrange(5, 7)),
        plain_date(n)[7] == '-',
        all_digits(plain_date(n).subrange(8, 10)),
        date_outcome(plain_date(n), t) == DateOutcome::Day(n),
        forall|i: int| 0 <= i < 10 ==> is_digit(#[trigger] plain_date(n)[i]) || plain_date(n)[i] == '-',
        is_digit(plain_date(n)[0]),
{
    let (y, m, d) = spec_ymd(n);
    lemma_ymd_text_shape(y, m, d);
    lemma_ymd_text_chars(y, m, d);
    lemma_plain_reads_back(n, t);
    assert(is_digit(plain_date(n).subrange(0, 4)[0]));
}

proof fn lemma_not_date_token(s: Seq<char>, i: int)
    requires
        0 <= i < s.len(),
        !is_digit(s[i]),
    ensures
        !date_token_at(s, i),
{
    if i + 11 <= s.len() {
        assert(s.subrange(i, i + 4)[0] == s[i]);
    }
}

proof fn lemma_one_date(s: Seq<char>, i: int, n: int, t: int)
    requires
        header_date_ok(n),
        0 <= i,
        i + 11 <= s.len(),
        s.subrange(i, i + 10) == plain_date(n),
        s[i + 10] == ' ',
    ensures
        date_token_at(s, i),
        date_outcome(s.subrange(i, i + 10), t) == DateOutcome::Day(n),
        forall|k: int| i <= k < i + 11 ==> !is_line_break(#[trigger] s[k]),
        is_digit(s[i]),
{
    lemma_header_date_text(n, t);
    let pd = plain_date(n);
    assert(s.subrange(i, i + 4) =~= pd.subrange(0, 4));
    assert(s.subrange(i + 5, i + 7) =~= pd.subrange(5, 7));
    assert(s.subrange(i + 8, i + 10) =~= pd.subrange(8, 10));
    assert(s[i + 4] == pd[4]);
    assert(s[i + 7] == pd[7]);
    assert(s[i] == pd[0]);
    assert forall|k: int| i <= k < i + 11 implies !is_line_break(#[trigger] s[k]) by {
        if k < i + 10 {
            assert(s[k] == pd[k - i]);
        }
    }
}

#[verifier::spinoff_prover]
#[verifier::rlimit(50)]
proof fn lemma_dates_part(s: Seq<char>, q: int, d: DatesView, t: int)
    requires
        dates_ok(d),
        0 <= q,
        q + dates_text(d).len() < s.len(),
        s.subrange(q, q + dates_text(d).len()) == dates_text(d),
        s[q + dates_text(d).len()] == ' ',
    ensures
        dates_at(s, q, t) == Ok::<DatesView, TaskFailure>(d),
        dates_end_at(s, q) == q + dates_text(d).len(),
        forall|k: int| q <= k < q + dates_text(d).len() ==> !is_line_break(#[trigger] s[k]),
        dates_text(d).len() > 0 ==> is_digit(s[q]),
{
    let ds = dates_text(d);
    let w = s.subrange(q, q + ds.len());
    match d {
        DatesView::Created(cd) => {
            lemma_header_date_text(cd, t);
            let pd = plain_date(cd);
            assert(ds =~= pd + seq![' ']);
            assert(s.subrange(q, q + 10) =~= w.subrange(0, 10));
            assert(w.subrange(0, 10) =~= pd);
            assert(s[q + 10] == w[10]);
            lemma_one_date(s, q, cd, t);
            lemma_not_date_token(s, q + 11);
        },
        DatesView::CompletedCreated(xd, cd) => {
            lemma_header_date_text(xd, t);
            lemma_header_date_text(cd, t);
            let px = plain_date(xd);
            let pc = plain_date(cd);
            assert(ds =~= px + seq![' '] + pc + seq![' ']);
            assert(s.subrange(q, q + 10) =~= w.subrange(0, 10));
            assert(w.subrange(0, 10) =~= px);
            assert(s[q + 10] == w[10]);
            assert(s.subrange(q + 11, q + 21) =~= w.subrange(11, 21));
            assert(w.subrange(11, 21) =~= pc);
            assert(s[q + 21] == w[21]);
            lemma_one_date(s, q, xd, t);
            lemma_one_date(s, q + 11, cd, t);
        },
        DatesView::NoDate => {
            lemma_not_date_token(s, q);
        },
    }
}

proof fn lemma_prefix_part(tv: TaskView, s: Seq<char>, q: int)
    requires
        tv.priority matches Some(p) ==> is_upper(p),
        q == (if tv.completed { 2int } else { 0int }) + (if tv.priority is Some { 4int } else { 0int }),
        q < s.len(),
        s.subrange(0, q) == (if tv.completed { seq!['x', ' '] } else { seq![] }) + (match tv.priority {
            Some(p) => seq!['(', p, ')', ' '],
            None => seq![],
        }),
        is_digit(s[q]) || s[q] == ' ',
    ensures
        completion_end(s) == (if tv.completed { 2int } else { 0int }),
        priority_end(s) == q,
        priority_at(s, completion_end(s)) <==> tv.priority is Some,
        tv.priority matches Some(p) ==> s[completion_end(s) + 1] == p,
        forall|k: int| 0 <= k < q ==> !is_line_break(#[trigger] s[k]),
{
    let h = s.subrange(0, q);
    assert forall|k: int| 0 <= k < q implies s[k] == h[k] by {}
    let c: int = if tv.completed { 2 } else { 0 };
    if tv.completed {
        assert(s[0] == 'x' && s[1] == ' ');
    } else {
        assert(s[0] != 'x') by {
            if q > 0 {
                assert(s[0] == '(');
            }
        }
    }
    assert(completion_end(s) == c);
    match tv.priority {
        Some(p) => {
            assert(s[c] == '(' && s[c + 1] == p && s[c + 2] == ')' && s[c + 3] == ' ');
        },
        None => {
            assert(q == c);
            assert(!priority_at(s, c));
        },
    }
}

proof fn lemma_description_part(s: Seq<char>, e: int, ts: Seq<TokenView>, t: int)
    requires
        description_ok(ts, t),
        0 <= e < s.len(),
        s[e] == ' ',
        s.skip(e + 1) == render(ts),
    ensures
        run_end(s, e, true) == e + 1,
        description_tokens(s.skip(e + 1), t) == ts,
        forall|k: int| e < k < s.len() ==> !is_line_break(#[trigger] s[k]),
{
    let r = render(ts);
    lemma_render_no_line_break(ts);
    assert forall|k: int| e < k < s.len() implies !is_line_break(#[trigger] s[k]) by {
        assert(s[k] == r[k - e - 1]);
    }
    if r.len() > 0 {
        lemma_token_text_class(ts[0]);
        assert(r[0] == token_text(ts[0])[0]);
        assert(s[e + 1] == r[0]);
    }
    lemma_run_end_is(s, e + 1, true, e + 1);
    lemma_tokens_of_render(seq![], ts);
    assert(seq![] + r =~= r);
    lemma_normalize_fixed(ts, t);
}

/// Writing a well-formed task as a line and reading the line back on the same
/// day gives the same task.
#[verifier::spinoff_prover]
#[verifier::rlimit(100)]
pub proof fn lemma_task_reads_back(tv: TaskView, t: int)
    requires
        task_ok(tv, t),
    ensures
        task_outcome(task_text(tv), t) == Ok::<TaskView, TaskFailure>(tv),
{
    let cs: Seq<char> = if tv.completed { seq!['x', ' '] } else { seq![] };
    let ps: Seq<char> = match tv.priority {
        Some(p) => seq!['(', p, ')', ' '],
        None => seq![],
    };
    let ds = dates_text(tv.dates);
    let r = render(tv.description);
    let s = task_text(tv);
    assert(s =~= cs + ps + ds + seq![' '] + r);
    let q: int = (cs.len() + ps.len()) as int;
    let e: int = q + ds.len();
    assert(s.subrange(q, e) =~= ds);
    assert(s[e] == ' ');
    lemma_dates_part(s, q, tv.dates, t);
    assert(s.subrange(0, q) =~= cs + ps);
    assert(is_digit(s[q]) || s[q] == ' ') by {
        if ds.len() == 0 {
            assert(e == q);
        }
    }
    lemma_prefix_part(tv, s, q);
    assert(s.skip(e + 1) =~= r);
    lemma_description_part(s, e, tv.description, t);
    assert(dates_end(s) == e);
    assert(description_start(s) == e + 1);
    assert(header_dates(s, t) == Ok::<DatesView, TaskFailure>(tv.dates));
    assert(!has_line_break(s)) by {
        assert forall|k: int| 0 <= k < s.len() implies !is_line_break(#[trigger] s[k]) by {
            if k < q {
            } else if k < e {
            } else if k == e {
            } else {
            }
        }
    }
}


// ---------------------------------------------------------------------------
// Due and scheduled days
// ---------------------------------------------------------------------------

/// The day of the `key:` pair's date when today is `t`; none where the pair is
/// missing or its value is not a date.
pub open spec fn meta_day(tv: TaskView, key: Seq<char>, t: int) -> Option<int> {
    match meta_value(tv.description, key) {
        None => None,
        Some(s) => match date_outcome(s, t) {
            DateOutcome::Day(n) => Some(n),
            _ => None,
        },
    }
}

impl TodoTxtTask {
    /// Whether some due or scheduled pair of the description names a day
    /// relative to today.
    pub(crate) fn relative_dates(&self) -> (r: bool)
        ensures
            r == has_relative_date(self@.description),
    {
        let ghost ts = self@.description;
        let mut found = false;
        let mut i: usize = 0;
        while i < self.description.len()
            invariant
                i <= self.description.len(),
                ts == tokens_view(self.description@),
                ts.len() == self.description@.len(),
                found == exists|k: int| 0 <= k < i && #[trigger] relative_token(ts[k]),
            decreases self.description.len() - i,
        {
            let rel = relative_token_exec(&self.description[i]);
            assert(ts[i as int] == self.description@[i as int]@);
            proof {
                if (exists|k: int| 0 <= k < i + 1 && #[trigger] relative_token(ts[k])) && !rel {
                    let k = choose|k: int| 0 <= k < i + 1 && #[trigger] relative_token(ts[k]);
                    assert(k < i);
                }
            }
            found = found || rel;
            i = i + 1;
        }
        found
    }

    /// The description as written in the file, as characters.
    pub(crate) fn description_chars(&self) -> (r: Vec<char>)
        ensures
            r@ == render(self@.description),
    {
        let mut v: Vec<char> = Vec::new();
        push_rendered(&mut v, &self.description);
        assert(v@ =~= render(self@.description));
        v
    }

    /// The due date, if the task has one that reads as a date today.
    pub(crate) fn due_day_on(&self, today: Date) -> (r: Option<Date>)
        ensures
            match meta_day(self@, due_key(), today@) {
                Some(n) => r matches Some(d) && d@ == n,
                None => r is None,
            },
    {
        match self.when_due_on(today) {
            Ok(Some(d)) => Some(d),
            _ => None,
        }
    }

    /// The scheduled date, if the task has one that reads as a date today.
    pub(crate) fn scheduled_day_on(&self, today: Date) -> (r: Option<Date>)
        ensures
            match meta_day(self@, scheduled_key(), today@) {
                Some(n) => r matches Some(d) && d@ == n,
                None => r is None,
            },
    {
        match self.when_scheduled_on(today) {
            Ok(Some(d)) => Some(d),
            _ => None,
        }
    }
}

impl TodoTxtTask {
    /// The tokens of the description.
    pub(crate) fn tokens(&self) -> (r: &Vec<DescriptionToken>)
        ensures
            tokens_view(r@) == self@.description,
    {
        &self.description
    }
}

/// A description whose due and scheduled values need no rewriting on day `t`
/// is, once read, written back as it was given.
pub proof fn lemma_description_reads_back(s: Seq<char>, t: int)
    requires
        forall|i: int| 0 <= i < tokens_from(s, 0).len() ==> meta_fixed(#[trigger] tokens_from(s, 0)[i], t),
    ensures
        render(description_tokens(s, t)) == s,
{
    lemma_normalize_fixed(tokens_from(s, 0), t);
    lemma_render_tokens(s, 0);
    assert(s.skip(0) =~= s);
}

/// Writing a pair a second time changes nothing.
pub proof fn lemma_set_meta_twice(ts: Seq<TokenView>, key: Seq<char>, v: Seq<char>)
    ensures
        set_meta_tokens(set_meta_tokens(ts, key, v), key, v) == set_meta_tokens(ts, key, v),
{
    let r = set_meta_tokens(ts, key, v);
    lemma_first_meta_from(ts, key, 0);
    match first_meta_from(ts, key, 0) {
        Some(i) => {
            assert forall|j: int| 0 <= j < i implies !is_meta_with_key(r[j], key) by {
                assert(r[j] == ts[j]);
            }
            lemma_first_meta_is(r, key, 0, i);
            assert(r.update(i, TokenView::Meta(key, v)) =~= r);
        },
        None => {
            let n = ts.len() as int;
            assert forall|j: int| 0 <= j < n + 1 implies !is_meta_with_key(r[j], key) by {
                if j < n {
                    assert(r[j] == ts[j]);
                }
            }
            lemma_first_meta_is(r, key, 0, n + 1);
            assert(r.update(n + 1, TokenView::Meta(key, v)) =~= r);
        },
    }
}

/// Removing a key a second time changes nothing.
pub proof fn lemma_remove_meta_twice(ts: Seq<TokenView>, key: Seq<char>)
    ensures
        remove_meta_tokens(remove_meta_tokens(ts, key), key) == remove_meta_tokens(ts, key),
    decreases ts.len(),
{
    if ts.len() > 0 {
        let init = remove_meta_tokens(ts.drop_last(), key);
        lemma_remove_meta_twice(ts.drop_last(), key);
        if is_meta_with_key(ts.last(), key) {
            assert(remove_meta_tokens(ts, key) =~= init);
        } else {
            let r = init + seq![ts.last()];
            assert(remove_meta_tokens(ts, key) == r);
            assert(r.drop_last() =~= init);
            assert(r.last() == ts.last());
            assert(remove_meta_tokens(r, key) =~= remove_meta_tokens(init, key) + seq![ts.last()]);
        }
    }
}

/// A due or scheduled value that named a day past the range chrono holds on
/// day `t1` names no day on day `t2` either.
pub open spec fn stays_unread(tok: TokenView, t1: int, t2: int) -> bool {
    match tok {
        TokenView::Meta(k, v) => (k == due_key() || k == scheduled_key()) && date_outcome(v, t1) is Overflow
            ==> !(date_outcome(v, t2) is Day),
        _ => true,
    }
}

/// A date written plainly ends with a digit, so it is no relative form, and
/// reading it does not depend on the day.
proof fn lemma_plain_text_any_day(n: int, t1: int, t2: int)
    ensures
        date_outcome(plain_date(n), t1) == date_outcome(plain_date(n), t2),
{
    let (y, m, d) = spec_ymd(n);
    let ds = int_str(d);
    let dn = nat_digits(if d < 0 { (-d) as nat } else { d as nat });
    let k: nat = if d < 0 { (-d) as nat } else { d as nat };
    lemma_digit_char(k % 10);
    assert(dn.last() == digit_char(k % 10));
    assert(ds.last() == dn.last());
    assert(pad_left(ds, 2, '0').last() == ds.last());
    let s = plain_date(n);
    assert(s.last() == pad_left(ds, 2, '0').last());
    assert(is_digit(s.last()));
    reveal_strlit("today");
    reveal_strlit("tomorrow");
    reveal_strlit("yesterday");
    assert(s != "today"@ && s != "tomorrow"@ && s != "yesterday"@) by {
        assert(s.last() != "today"@.last());
        assert(s.last() != "tomorrow"@.last());
        assert(s.last() != "yesterday"@.last());
    }
}

/// A task read on one day and written as a line reads back as the same task
/// on any other day, unless a due or scheduled value that named a day past
/// the range chrono holds on the first day names a day on the second.
pub proof fn lemma_task_reads_back_any_day(tv: TaskView, t1: int, t2: int)
    requires
        task_ok(tv, t1),
        forall|i: int| 0 <= i < tv.description.len() ==> stays_unread(#[trigger] tv.description[i], t1, t2),
    ensures
        task_ok(tv, t2),
        task_outcome(task_text(tv), t2) == Ok::<TaskView, TaskFailure>(tv),
{
    let ts = tv.description;
    assert forall|i: int| 0 <= i < ts.len() implies meta_fixed(#[trigger] ts[i], t2) by {
        assert(meta_fixed(ts[i], t1));
        assert(stays_unread(ts[i], t1, t2));
        match ts[i] {
            TokenView::Meta(k, v) => {
                if k == due_key() || k == scheduled_key() {
                    match date_outcome(v, t1) {
                        DateOutcome::Day(n) => {
                            assert(v == plain_date(n));
                            lemma_plain_text_any_day(n, t1, t2);
                        },
                        _ => {},
                    }
                }
            },
            _ => {},
        }
    }
    lemma_task_reads_back(tv, t2);
}

/// Setting a `key:` pair keeps words from touching.
pub proof fn lemma_set_meta_spaced(ts: Seq<TokenView>, key: Seq<char>, v: Seq<char>)
    requires
        spaced(ts),
    ensures
        spaced(set_meta_tokens(ts, key, v)),
{
    lemma_first_meta_from(ts, key, 0);
    let r = set_meta_tokens(ts, key, v);
    match first_meta_from(ts, key, 0) {
        Some(k) => {
            assert forall|i: int| 0 <= i < r.len() - 1 implies token_is_blank(#[trigger] r[i]) || token_is_blank(r[i + 1]) by {
                assert(token_is_blank(ts[i]) || token_is_blank(ts[i + 1]));
                assert(!token_is_blank(ts[k]));
            }
        },
        None => {
            let b = TokenView::Other(seq![' ']);
            assert(token_is_blank(b));
            assert forall|i: int| 0 <= i < r.len() - 1 implies token_is_blank(#[trigger] r[i]) || token_is_blank(r[i + 1]) by {
                if i < ts.len() - 1 {
                    assert(token_is_blank(ts[i]) || token_is_blank(ts[i + 1]));
                    assert(r[i] == ts[i] && r[i + 1] == ts[i + 1]);
                } else if i == ts.len() - 1 {
                    assert(r[i + 1] == b);
                } else {
                    assert(r[i] == b);
                }
            }
        },
    }
}

/// Removing `key:` pairs keeps words from touching.
pub proof fn lemma_remove_meta_spaced(ts: Seq<TokenView>, key: Seq<char>)
    requires
        spaced(ts),
    ensures
        spaced(remove_meta_tokens(ts, key)),
    decreases ts.len(),
{
    if ts.len() > 0 {
        let d = ts.drop_last();
        assert(spaced(d)) by {
            assert forall|i: int| 0 <= i < d.len() - 1 implies token_is_blank(#[trigger] d[i]) || token_is_blank(d[i + 1]) by {
                assert(token_is_blank(ts[i]) || token_is_blank(ts[i + 1]));
            }
        }
        lemma_remove_meta_spaced(d, key);
        let rd = remove_meta_tokens(d, key);
        let r = remove_meta_tokens(ts, key);
        if !is_meta_with_key(ts.last(), key) {
            assert(r == rd + seq![ts.last()]);
            if !token_is_blank(ts.last()) && rd.len() > 0 {
                assert(ts.len() >= 2) by {
                    if ts.len() == 1 {
                        assert(d.len() == 0);
                        assert(rd =~= Seq::<TokenView>::empty());
                    }
                }
                assert(token_is_blank(ts[ts.len() - 2]) || token_is_blank(ts[ts.len() - 1]));
                assert(d.last() == ts[ts.len() - 2]);
                assert(!is_meta_with_key(d.last(), key));
                assert(rd == remove_meta_tokens(d.drop_last(), key) + seq![d.last()]);
                assert(rd.last() == d.last());
            }
            assert forall|i: int| 0 <= i < r.len() - 1 implies token_is_blank(#[trigger] r[i]) || token_is_blank(r[i + 1]) by {
                if i < rd.len() - 1 {
                    assert(r[i] == rd[i] && r[i + 1] == rd[i + 1]);
                    assert(token_is_blank(rd[i]) || token_is_blank(rd[i + 1]));
                } else {
                    assert(r[i] == rd.last());
                    assert(r[i + 1] == ts.last());
                }
            }
        } else {
            assert(r =~= rd);
        }
    }
}

/// The dates of a task are set one at a time: setting the creation date
/// keeps the completion date; setting the completion date keeps the creation
/// date (an undated task takes the completion date as creation date too);
/// dropping the completion date keeps the creation date; clearing the
/// creation date keeps the completion date, which then stands as the creation
/// date too (a line cannot hold a completion date alone).
pub proof fn lemma_date_fields_apart(d: DatesView, c: int)
    ensures
        completed_of(creation_cleared(d)) == completed_of(d),
        created_of(creation_cleared(d)) == completed_of(d),
        created_of(with_created_view(d, c)) == Some(c),
        completed_of(with_created_view(d, c)) == completed_of(d),
        completed_of(with_completed_view(d, c)) == Some(c),
        created_of(with_completed_view(d, c)) == (match created_of(d) {
            Some(x) => Some(x),
            None => Some(c),
        }),
        completed_of(without_completed_view(d)) == None::<int>,
        created_of(without_completed_view(d)) == created_of(d),
{
}

/// The project of a task is that of its earliest project token.
pub proof fn lemma_first_project_is_earliest(ts: Seq<TokenView>, k: int)
    requires
        0 <= k < ts.len(),
        ts[k] is Project,
        forall|j: int| 0 <= j < k ==> !(#[trigger] ts[j] is Project),
    ensures
        first_project(ts) == Some(ts[k]->Project_0),
    decreases k,
{
    if k > 0 {
        assert(!(ts[0] is Project));
        let r = ts.drop_first();
        assert forall|j: int| 0 <= j < k - 1 implies !(#[trigger] r[j] is Project) by {
            assert(r[j] == ts[j + 1]);
        }
        lemma_first_project_is_earliest(r, k - 1);
    }
}

/// A task without project tokens has no project.
pub proof fn lemma_no_project_token(ts: Seq<TokenView>)
    requires
        forall|j: int| 0 <= j < ts.len() ==> !(#[trigger] ts[j] is Project),
    ensures
        first_project(ts) is None,
    decreases ts.len(),
{
    if ts.len() > 0 {
        let r = ts.drop_first();
        assert(!(ts[0] is Project));
        assert forall|j: int| 0 <= j < r.len() implies !(#[trigger] r[j] is Project) by {
            assert(r[j] == ts[j + 1]);
        }
        lemma_no_project_token(r);
    }
}

} // verus!
