//! Terminal styles, by the `colored` crate. Whether a style is written at all
//! depends on the environment (`CLICOLOR`, `NO_COLOR`, `CLICOLOR_FORCE`, and
//! whether standard output is a terminal); where it is, the text stands
//! between the style's sequence and the reset sequence, the style renewed
//! after each reset inside it. Either way the text, once its escape
//! sequences are taken out, is unchanged.
use vstd::prelude::*;

use colored::Colorize;

use crate::text::is_digit;

verus! {

/// A terminal color.
#[derive(Clone, Copy, Debug, PartialEq, Eq, Structural)]
pub enum TermColor {
    Blue,
    Cyan,
    Green,
    Red,
    Yellow,
    BrightBlue,
    BrightCyan,
    BrightGreen,
    BrightMagenta,
    BrightYellow,
}

/// The code that selects a color for the text (`Color::to_fg_str`).
pub open spec fn color_code(c: TermColor) -> Seq<char> {
    match c {
        TermColor::Blue => seq!['3', '4'],
        TermColor::Cyan => seq!['3', '6'],
        TermColor::Green => seq!['3', '2'],
        TermColor::Red => seq!['3', '1'],
        TermColor::Yellow => seq!['3', '3'],
        TermColor::BrightBlue => seq!['9', '4'],
        TermColor::BrightCyan => seq!['9', '6'],
        TermColor::BrightGreen => seq!['9', '2'],
        TermColor::BrightMagenta => seq!['9', '5'],
        TermColor::BrightYellow => seq!['9', '3'],
    }
}

pub open spec fn esc() -> char {
    '\u{1b}'
}

/// The escape sequence that selects the styles of `code`.
pub open spec fn sgr(code: Seq<char>) -> Seq<char> {
    seq![esc(), '['] + code + seq!['m']
}

/// The escape sequence that resets all styles.
pub open spec fn reset_seq() -> Seq<char> {
    sgr(seq!['0'])
}

pub open spec fn has_esc(s: Seq<char>) -> bool {
    s.contains(esc())
}

/// `s` with the style's sequence written again after each reset sequence in
/// it (leftmost first, matches not overlapping), so that the style goes on
/// after a reset inside the text.
pub open spec fn escape_resets(s: Seq<char>, code: Seq<char>) -> Seq<char>
    decreases s.len(),
{
    if s.len() == 0 {
        seq![]
    } else if s.len() >= 4 && s.take(4) == reset_seq() {
        reset_seq() + sgr(code) + escape_resets(s.skip(4), code)
    } else {
        seq![s[0]] + escape_resets(s.drop_first(), code)
    }
}

/// `s` as a style writes it: unchanged where no style is written, else
/// between the style's sequence and the reset sequence, the style renewed
/// after each reset inside.
pub open spec fn painted(r: Seq<char>, s: Seq<char>, code: Seq<char>) -> bool {
    r == s || r == sgr(code) + escape_resets(s, code) + reset_seq()
}

/// Text without escape characters holds no reset sequence to renew a style after.
pub proof fn lemma_escape_plain(s: Seq<char>, code: Seq<char>)
    requires
        !has_esc(s),
    ensures
        escape_resets(s, code) == s,
    decreases s.len(),
{
    if s.len() > 0 {
        assert(s[0] != esc());
        if s.len() >= 4 {
            assert(s.take(4)[0] != reset_seq()[0]);
        }
        assert(!has_esc(s.drop_first())) by {
            if has_esc(s.drop_first()) {
                let k = choose|k: int| 0 <= k < s.drop_first().len() && s.drop_first()[k] == esc();
                assert(s[k + 1] == esc());
            }
        }
        lemma_escape_plain(s.drop_first(), code);
        assert(seq![s[0]] + s.drop_first() =~= s);
    }
}

/// The end of the parameters (digits and `;`) of an escape sequence from `j` on.
pub open spec fn params_end(s: Seq<char>, j: int) -> int
    decreases s.len() - j,
{
    if 0 <= j < s.len() && (is_digit(s[j]) || s[j] == ';') {
        params_end(s, j + 1)
    } else {
        j
    }
}

/// The length of the style sequence (`ESC [ params m`) that `s` starts with, or 0.
pub open spec fn sgr_len(s: Seq<char>) -> int {
    if s.len() >= 2 && s[0] == esc() && s[1] == '[' {
        let e = params_end(s, 2);
        if e < s.len() && s[e] == 'm' {
            e + 1
        } else {
            0
        }
    } else {
        0
    }
}

/// The text without its style sequences.
pub open spec fn strip_ansi(s: Seq<char>) -> Seq<char>
    decreases s.len(),
{
    if s.len() == 0 {
        seq![]
    } else if sgr_len(s) > 0 {
        strip_ansi(s.skip(sgr_len(s)))
    } else {
        seq![s[0]] + strip_ansi(s.drop_first())
    }
}

/// Text made of characters other than escape and of whole style sequences.
pub open spec fn clean(s: Seq<char>) -> bool
    decreases s.len(),
{
    if s.len() == 0 {
        true
    } else if sgr_len(s) > 0 {
        clean(s.skip(sgr_len(s)))
    } else {
        s[0] != esc() && clean(s.drop_first())
    }
}

/// A style's parameters: digits and `;`, at least one.
pub open spec fn param_code(code: Seq<char>) -> bool {
    code.len() > 0 && forall|i: int| 0 <= i < code.len() ==> is_digit(#[trigger] code[i]) || code[i] == ';'
}

proof fn lemma_params_end_digits(s: Seq<char>, j: int, e: int)
    requires
        0 <= j <= e < s.len(),
        forall|i: int| j <= i < e ==> is_digit(#[trigger] s[i]) || s[i] == ';',
        !is_digit(s[e]),
        s[e] != ';',
    ensures
        params_end(s, j) == e,
    decreases e - j,
{
    if j < e {
        lemma_params_end_digits(s, j + 1, e);
    }
}

proof fn lemma_params_end_prefix(a: Seq<char>, b: Seq<char>, j: int)
    requires
        0 <= j,
        params_end(a, j) < a.len(),
    ensures
        params_end(a + b, j) == params_end(a, j),
    decreases a.len() - j,
{
    if j < a.len() && (is_digit(a[j]) || a[j] == ';') {
        lemma_params_end_prefix(a, b, j + 1);
    }
}

proof fn lemma_params_end_ge(s: Seq<char>, j: int)
    requires
        0 <= j,
    ensures
        params_end(s, j) >= j,
    decreases s.len() - j,
{
    if 0 <= j < s.len() && (is_digit(s[j]) || s[j] == ';') {
        lemma_params_end_ge(s, j + 1);
    }
}

/// A style sequence that `a` starts with is one that `a + b` starts with.
proof fn lemma_sgr_len_prefix(a: Seq<char>, b: Seq<char>)
    requires
        sgr_len(a) > 0,
    ensures
        sgr_len(a + b) == sgr_len(a),
{
    lemma_params_end_prefix(a, b, 2);
}

/// Text without escape characters is clean and is its own plain text.
pub proof fn lemma_strip_plain(s: Seq<char>)
    requires
        !has_esc(s),
    ensures
        clean(s),
        strip_ansi(s) == s,
    decreases s.len(),
{
    if s.len() > 0 {
        assert(s[0] != esc());
        assert(sgr_len(s) == 0);
        assert(!has_esc(s.drop_first())) by {
            if has_esc(s.drop_first()) {
                let k = choose|k: int| 0 <= k < s.drop_first().len() && s.drop_first()[k] == esc();
                assert(s[k + 1] == esc());
            }
        }
        lemma_strip_plain(s.drop_first());
        assert(seq![s[0]] + s.drop_first() =~= s);
    }
}

/// Plain text between a style's sequence and the reset sequence is clean,
/// and its plain text is the text.
pub proof fn lemma_strip_styled(code: Seq<char>, s: Seq<char>)
    requires
        param_code(code),
        !has_esc(s),
    ensures
        clean(sgr(code) + s + reset_seq()),
        strip_ansi(sgr(code) + s + reset_seq()) == s,
{
    let w = sgr(code) + s + reset_seq();
    let l: int = code.len() as int + 3;
    assert forall|i: int| 2 <= i < 2 + code.len() implies is_digit(#[trigger] w[i]) || w[i] == ';' by {
        assert(w[i] == code[i - 2]);
    }
    assert(w[2 + code.len() as int] == 'm');
    lemma_params_end_digits(w, 2, 2 + code.len() as int);
    assert(sgr_len(w) == l);
    assert(w.skip(l) =~= s + reset_seq());
    lemma_strip_plain(s);
    let r = reset_seq();
    assert(r.len() == 4);
    assert(is_digit(r[2]));
    assert(r[3] == 'm');
    lemma_params_end_digits(r, 2, 3);
    assert(sgr_len(r) == 4);
    let e = r.skip(4);
    assert(e =~= Seq::<char>::empty());
    assert(clean(e));
    assert(strip_ansi(e) == Seq::<char>::empty());
    assert(clean(r));
    assert(strip_ansi(r) == strip_ansi(e));
    lemma_strip_concat(s, r);
    lemma_clean_concat(s, r);
    assert(strip_ansi(s + r) =~= s);
}

/// Clean text followed by any text: the plain texts follow each other.
pub proof fn lemma_strip_concat(a: Seq<char>, b: Seq<char>)
    requires
        clean(a),
    ensures
        strip_ansi(a + b) == strip_ansi(a) + strip_ansi(b),
    decreases a.len(),
{
    if a.len() == 0 {
        assert(a + b =~= b);
    } else if sgr_len(a) > 0 {
        let l = sgr_len(a);
        lemma_sgr_len_prefix(a, b);
        lemma_params_end_ge(a, 2);
        assert((a + b).skip(l) =~= a.skip(l) + b);
        lemma_strip_concat(a.skip(l), b);
    } else {
        assert(a[0] != esc());
        assert((a + b)[0] == a[0]);
        assert(sgr_len(a + b) == 0);
        assert((a + b).drop_first() =~= a.drop_first() + b);
        lemma_strip_concat(a.drop_first(), b);
        assert(seq![a[0]] + (strip_ansi(a.drop_first()) + strip_ansi(b)) =~= (seq![a[0]] + strip_ansi(
            a.drop_first(),
        )) + strip_ansi(b));
    }
}

/// Clean texts one after the other are clean.
pub proof fn lemma_clean_concat(a: Seq<char>, b: Seq<char>)
    requires
        clean(a),
        clean(b),
    ensures
        clean(a + b),
    decreases a.len(),
{
    if a.len() == 0 {
        assert(a + b =~= b);
    } else if sgr_len(a) > 0 {
        let l = sgr_len(a);
        lemma_sgr_len_prefix(a, b);
        lemma_params_end_ge(a, 2);
        assert((a + b).skip(l) =~= a.skip(l) + b);
        lemma_clean_concat(a.skip(l), b);
    } else {
        assert((a + b)[0] == a[0]);
        assert(sgr_len(a + b) == 0);
        assert((a + b).drop_first() =~= a.drop_first() + b);
        lemma_clean_concat(a.drop_first(), b);
    }
}

/// What a style writes for plain text: clean, with the text as its plain text.
pub proof fn lemma_painted(r: Seq<char>, s: Seq<char>, code: Seq<char>)
    requires
        painted(r, s, code),
        param_code(code),
        !has_esc(s),
    ensures
        clean(r),
        strip_ansi(r) == s,
{
    lemma_strip_plain(s);
    lemma_escape_plain(s, code);
    if r != s {
        lemma_strip_styled(code, s);
    }
}

/// Text without escape characters splits into parts without them.
pub proof fn lemma_no_esc_concat(a: Seq<char>, b: Seq<char>)
    requires
        !has_esc(a + b),
    ensures
        !has_esc(a),
        !has_esc(b),
{
    if has_esc(a) {
        let k = choose|k: int| 0 <= k < a.len() && a[k] == esc();
        assert((a + b)[k] == esc());
    }
    if has_esc(b) {
        let k = choose|k: int| 0 <= k < b.len() && b[k] == esc();
        assert((a + b)[a.len() + k] == esc());
    }
}

/// A character that no style sequence holds.
pub open spec fn plain_char(c: char) -> bool {
    c != esc() && c != '[' && !is_digit(c) && c != ';' && c != 'm'
}

/// Position `a` of `s` is where no style sequence can be cut: an end, or next
/// to a character that no style sequence holds.
pub open spec fn split_point(s: Seq<char>, a: int) -> bool {
    a == 0 || a == s.len() || (0 <= a < s.len() && plain_char(s[a])) || (0 < a <= s.len() && plain_char(s[a - 1]))
}

proof fn lemma_params_end_take(s: Seq<char>, j: int, a: int)
    requires
        0 <= j,
        params_end(s, j) < a <= s.len(),
    ensures
        params_end(s.take(a), j) == params_end(s, j),
    decreases s.len() - j,
{
    lemma_params_end_ge(s, j);
    if j < s.len() && (is_digit(s[j]) || s[j] == ';') {
        lemma_params_end_take(s, j + 1, a);
    }
}

proof fn lemma_params_end_chars(s: Seq<char>, j: int, i: int)
    requires
        0 <= j <= i < params_end(s, j),
    ensures
        is_digit(s[i]) || s[i] == ';',
    decreases s.len() - j,
{
    if j < s.len() && (is_digit(s[j]) || s[j] == ';') {
        if i > j {
            lemma_params_end_chars(s, j + 1, i);
        }
    }
}

/// Clean text splits at a character that no style sequence holds: both parts
/// are clean, and their plain texts follow each other.
proof fn lemma_clean_split_at(s: Seq<char>, a: int)
    requires
        clean(s),
        0 <= a < s.len(),
        plain_char(s[a]),
    ensures
        clean(s.take(a)),
        clean(s.skip(a)),
        strip_ansi(s) == strip_ansi(s.take(a)) + strip_ansi(s.skip(a)),
    decreases s.len(),
{
    if a == 0 {
        assert(s.take(0) =~= Seq::<char>::empty());
        assert(s.skip(0) =~= s);
    } else if sgr_len(s) > 0 {
        let l = sgr_len(s);
        let e = params_end(s, 2);
        lemma_params_end_ge(s, 2);
        if a <= e {
            if a >= 2 && a < e {
                lemma_params_end_chars(s, 2, a);
            }
            assert(false);
        }
        let r = s.skip(l);
        lemma_clean_split_at(r, a - l);
        lemma_params_end_take(s, 2, a);
        assert(s.take(a)[0] == s[0] && s.take(a)[1] == s[1] && s.take(a)[e] == s[e]);
        assert(sgr_len(s.take(a)) == l);
        assert(s.take(a).skip(l) =~= r.take(a - l));
        assert(s.skip(a) =~= r.skip(a - l));
    } else {
        let r = s.drop_first();
        lemma_clean_split_at(r, a - 1);
        assert(s.take(a)[0] == s[0]);
        assert(sgr_len(s.take(a)) == 0);
        assert(s.take(a).drop_first() =~= r.take(a - 1));
        assert(s.skip(a) =~= r.skip(a - 1));
        assert(seq![s[0]] + (strip_ansi(r.take(a - 1)) + strip_ansi(r.skip(a - 1))) =~= (seq![s[0]] + strip_ansi(r.take(a - 1))) + strip_ansi(r.skip(a - 1)));
    }
}

/// Clean text splits at a split point: both parts are clean, and their
/// plain texts follow each other.
pub proof fn lemma_clean_split(s: Seq<char>, a: int)
    requires
        clean(s),
        split_point(s, a),
    ensures
        clean(s.take(a)),
        clean(s.skip(a)),
        strip_ansi(s) == strip_ansi(s.take(a)) + strip_ansi(s.skip(a)),
{
    if a == 0 {
        assert(s.take(0) =~= Seq::<char>::empty());
        assert(s.skip(0) =~= s);
    } else if a == s.len() {
        assert(s.take(a) =~= s);
        assert(s.skip(a) =~= Seq::<char>::empty());
    } else if plain_char(s[a]) {
        lemma_clean_split_at(s, a);
    } else {
        let c = s[a - 1];
        lemma_clean_split_at(s, a - 1);
        let x = s.skip(a - 1);
        assert(x[0] == c);
        assert(sgr_len(x) == 0);
        assert(x.drop_first() =~= s.skip(a));
        let one = seq![c];
        assert(!has_esc(one)) by {
            if has_esc(one) {
                let k = choose|k: int| 0 <= k < one.len() && one[k] == esc();
                assert(one[k] == c);
            }
        }
        lemma_strip_plain(one);
        lemma_clean_concat(s.take(a - 1), one);
        lemma_strip_concat(s.take(a - 1), one);
        assert(s.take(a - 1) + one =~= s.take(a));
        assert(strip_ansi(x) == one + strip_ansi(s.skip(a)));
        assert(strip_ansi(s.take(a - 1)) + strip_ansi(x) =~= (strip_ansi(s.take(a - 1)) + one) + strip_ansi(s.skip(a)));
    }
}

/// The part of clean text between two split points is clean, and its plain
/// text comes between theirs.
pub proof fn lemma_clean_part(s: Seq<char>, a: int, b: int)
    requires
        clean(s),
        0 <= a <= b <= s.len(),
        split_point(s, a),
        split_point(s, b),
    ensures
        clean(s.subrange(a, b)),
        strip_ansi(s.take(b)) == strip_ansi(s.take(a)) + strip_ansi(s.subrange(a, b)),
        clean(s.take(b)),
{
    lemma_clean_split(s, b);
    let t = s.take(b);
    assert(split_point(t, a)) by {
        if 0 <= a < s.len() && plain_char(s[a]) && a < b {
            assert(t[a] == s[a]);
        }
        if 0 < a <= s.len() && plain_char(s[a - 1]) {
            assert(t[a - 1] == s[a - 1]);
        }
    }
    lemma_clean_split(t, a);
    assert(t.take(a) =~= s.take(a));
    assert(t.skip(a) =~= s.subrange(a, b));
}

/// A character a style sequence may end on without being complete yet.
pub open spec fn opener(c: char) -> bool {
    c == esc() || c == '[' || is_digit(c) || c == ';'
}

/// A character that can go on or end a style sequence begun before it.
pub open spec fn closer(c: char) -> bool {
    c == '[' || is_digit(c) || c == ';' || c == 'm'
}

/// Texts `a` and `b` meet where no style sequence can run from one into the
/// other: `a` does not end on an unfinished sequence, or `b` does not start
/// by going on with one.
pub open spec fn meet_apart(a: Seq<char>, b: Seq<char>) -> bool {
    (a.len() == 0 || !opener(a.last())) || (b.len() == 0 || !closer(b[0]))
}

proof fn lemma_sgr_len_join(a: Seq<char>, b: Seq<char>)
    requires
        a.len() > 0,
        meet_apart(a, b),
    ensures
        sgr_len(a + b) == sgr_len(a),
        sgr_len(a) <= a.len(),
{
    let s = a + b;
    if b.len() == 0 {
        assert(s =~= a);
    }
    if a.len() >= 2 && a[0] == esc() && a[1] == '[' {
        assert(s[0] == a[0] && s[1] == a[1]);
        let e = params_end(a, 2);
        lemma_params_end_ge(a, 2);
        lemma_params_end_le(a, 2);
        if e < a.len() {
            lemma_params_end_prefix(a, b, 2);
            assert(s[e] == a[e]);
        } else if b.len() > 0 {
            assert(e == a.len());
            assert(opener(a.last())) by {
                if a.len() > 2 {
                    lemma_params_end_chars(a, 2, a.len() - 1);
                }
            }
            assert(!closer(b[0]));
            assert(s[a.len() as int] == b[0]);
            assert forall|i: int| 2 <= i < a.len() implies is_digit(#[trigger] s[i]) || s[i] == ';' by {
                lemma_params_end_chars(a, 2, i);
                assert(s[i] == a[i]);
            }
            lemma_params_end_digits(s, 2, a.len() as int);
        }
    } else if a.len() == 1 && a[0] == esc() && b.len() > 0 {
        assert(opener(a.last()));
        assert(s[1] == b[0]);
    } else if a.len() >= 2 {
        assert(s[0] == a[0] && s[1] == a[1]);
    }
}

proof fn lemma_params_end_le(s: Seq<char>, j: int)
    requires
        0 <= j <= s.len(),
    ensures
        params_end(s, j) <= s.len(),
    decreases s.len() - j,
{
    if j < s.len() && (is_digit(s[j]) || s[j] == ';') {
        lemma_params_end_le(s, j + 1);
    }
}

/// Texts that meet apart: the plain text of both is the plain texts one
/// after the other.
pub proof fn lemma_strip_join(a: Seq<char>, b: Seq<char>)
    requires
        meet_apart(a, b),
    ensures
        strip_ansi(a + b) == strip_ansi(a) + strip_ansi(b),
    decreases a.len(),
{
    if a.len() == 0 {
        assert(a + b =~= b);
    } else {
        lemma_sgr_len_join(a, b);
        let l = sgr_len(a);
        if l > 0 {
            assert((a + b).skip(l) =~= a.skip(l) + b);
            if a.skip(l).len() > 0 {
                assert(a.skip(l).last() == a.last());
            }
            lemma_strip_join(a.skip(l), b);
        } else {
            assert((a + b)[0] == a[0]);
            assert((a + b).drop_first() =~= a.drop_first() + b);
            if a.drop_first().len() > 0 {
                assert(a.drop_first().last() == a.last());
            }
            lemma_strip_join(a.drop_first(), b);
            assert(seq![a[0]] + (strip_ansi(a.drop_first()) + strip_ansi(b)) =~= (seq![a[0]] + strip_ansi(
                a.drop_first(),
            )) + strip_ansi(b));
        }
    }
}

/// No escape character in `s` is followed by `[`: no style sequence starts in it.
pub open spec fn no_csi(s: Seq<char>) -> bool {
    forall|i: int| 0 <= i < s.len() - 1 && #[trigger] s[i] == esc() ==> s[i + 1] != '['
}

/// Text in which no style sequence starts is its own plain text.
pub proof fn lemma_strip_no_csi(s: Seq<char>)
    requires
        no_csi(s),
    ensures
        strip_ansi(s) == s,
    decreases s.len(),
{
    if s.len() > 0 {
        if s.len() >= 2 && s[0] == esc() {
            assert(s[1] != '[');
        }
        assert(sgr_len(s) == 0);
        let r = s.drop_first();
        assert forall|i: int| 0 <= i < r.len() - 1 && #[trigger] r[i] == esc() implies r[i + 1] != '[' by {
            assert(s[i + 1] == r[i]);
            assert(s[i + 2] == r[i + 1]);
        }
        lemma_strip_no_csi(r);
        assert(seq![s[0]] + r =~= s);
    }
}

/// Texts in which no style sequence starts, the first not ending on an
/// escape character, joined: no style sequence starts in them either.
pub proof fn lemma_no_csi_join(a: Seq<char>, b: Seq<char>)
    requires
        no_csi(a),
        no_csi(b),
        a.len() > 0 ==> a.last() != esc(),
    ensures
        no_csi(a + b),
{
    let s = a + b;
    assert forall|i: int| 0 <= i < s.len() - 1 && #[trigger] s[i] == esc() implies s[i + 1] != '[' by {
        if i < a.len() - 1 {
            assert(s[i] == a[i] && s[i + 1] == a[i + 1]);
        } else if i == a.len() - 1 {
            assert(s[i] == a.last());
        } else {
            assert(s[i] == b[i - a.len()] && s[i + 1] == b[i + 1 - a.len()]);
        }
    }
}

/// Text without escape characters starts no style sequence.
pub proof fn lemma_no_esc_no_csi(s: Seq<char>)
    requires
        !has_esc(s),
    ensures
        no_csi(s),
{
    assert forall|i: int| 0 <= i < s.len() - 1 && #[trigger] s[i] == esc() implies s[i + 1] != '[' by {
        assert(s.contains(s[i]));
    }
}

/// Texts without escape characters joined hold none either.
pub proof fn lemma_no_esc_join(a: Seq<char>, b: Seq<char>)
    requires
        !has_esc(a),
        !has_esc(b),
    ensures
        !has_esc(a + b),
{
    if has_esc(a + b) {
        let k = choose|k: int| 0 <= k < (a + b).len() && (a + b)[k] == esc();
        if k < a.len() {
            assert(a[k] == esc());
            assert(a.contains(esc()));
        } else {
            assert(b[k - a.len()] == esc());
            assert(b.contains(esc()));
        }
    }
}

// ---------------------------------------------------------------------------
// colored
// ---------------------------------------------------------------------------

/// `Colorize::bold`, written with `to_string` (`Display for ColoredString`):
/// the text comes back unchanged, or, where the environment lets styles be
/// written, between `ESC[1m` and `ESC[0m` with `ESC[1m` written again after
/// each `ESC[0m` inside it (`escape_inner_reset_sequences`). Which of the two
/// is not stated: it depends on the environment. Either way the plain text
/// is unchanged, and clean text stays clean, since only whole style
/// sequences are added.
#[verifier::external_body]
pub(crate) fn paint_bold(s: &str) -> (r: String)
    ensures
        painted(r@, s@, seq!['1']),
        strip_ansi(r@) == strip_ansi(s@),
        clean(s@) ==> clean(r@),
{
    s.bold().to_string()
}

/// `Colorize::dimmed`, as `paint_bold` with `ESC[2m`.
#[verifier::external_body]
pub(crate) fn paint_dimmed(s: &str) -> (r: String)
    ensures
        painted(r@, s@, seq!['2']),
        strip_ansi(r@) == strip_ansi(s@),
{
    s.dimmed().to_string()
}

/// `Colorize::italic`, as `paint_bold` with `ESC[3m`.
#[verifier::external_body]
pub(crate) fn paint_italic(s: &str) -> (r: String)
    ensures
        painted(r@, s@, seq!['3']),
        strip_ansi(r@) == strip_ansi(s@),
        clean(s@) ==> clean(r@),
{
    s.italic().to_string()
}

/// `Colorize::strikethrough`, as `paint_bold` with `ESC[9m`.
#[verifier::external_body]
pub(crate) fn paint_strikethrough(s: &str) -> (r: String)
    ensures
        painted(r@, s@, seq!['9']),
        strip_ansi(r@) == strip_ansi(s@),
{
    s.strikethrough().to_string()
}

/// `Colorize::color`, as `paint_bold` with the color's code (`ESC[33m` for yellow).
#[verifier::external_body]
pub(crate) fn paint_color(s: &str, c: TermColor) -> (r: String)
    ensures
        painted(r@, s@, color_code(c)),
        strip_ansi(r@) == strip_ansi(s@),
{
    let color = match c {
        TermColor::Blue => colored::Color::Blue,
        TermColor::Cyan => colored::Color::Cyan,
        TermColor::Green => colored::Color::Green,
        TermColor::Red => colored::Color::Red,
        TermColor::Yellow => colored::Color::Yellow,
        TermColor::BrightBlue => colored::Color::BrightBlue,
        TermColor::BrightCyan => colored::Color::BrightCyan,
        TermColor::BrightGreen => colored::Color::BrightGreen,
        TermColor::BrightMagenta => colored::Color::BrightMagenta,
        TermColor::BrightYellow => colored::Color::BrightYellow,
    };
    s.color(color).to_string()
}

/// `Colorize::yellow` then `Colorize::bold`, as `paint_bold` with
/// `ESC[1;33m` (the style's code, then the color's, joined by `;`, as
/// `compute_style` writes them).
#[verifier::external_body]
pub(crate) fn paint_heading(s: &str) -> (r: String)
    ensures
        painted(r@, s@, seq!['1', ';', '3', '3']),
        strip_ansi(r@) == strip_ansi(s@),
{
    s.yellow().bold().to_string()
}

} // verus!
