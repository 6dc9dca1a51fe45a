//! Tasks as the terminal shows them: in columns, with styles, and with dates
//! relative to today where the view asks for it.
use vstd::prelude::*;

use crate::config::{ColumnSelector, ViewConfig};
use crate::error::ToroError;
use crate::date::{
    abs, chrono_default, date_outcome, date_text, div_trunc, format_date_on, in_range, parse_date_on, spec_ymd, today, ymd_text, Date,
    DateOutcome,
};
use crate::interaction::{PRIORITY_A_COLOR, PRIORITY_B_COLOR};
use crate::style::{
    param_code, clean, color_code, escape_resets, has_esc, lemma_clean_concat, lemma_no_esc_concat,
    lemma_painted, lemma_strip_concat, lemma_strip_plain, paint_bold, paint_color, paint_dimmed,
    paint_italic, paint_strikethrough, painted, reset_seq, sgr, strip_ansi, esc, lemma_no_csi_join, lemma_no_esc_join,
    lemma_no_esc_no_csi, lemma_strip_join, lemma_strip_no_csi, meet_apart, no_csi, opener,
};
use crate::text::{
    append_chars, chars_eq_str, chars_of, int_str, lemma_nat_digits_are_digits, nat_digits, pad_left, pad_right,
    pad_right_chars, string_from_chars, string_from_str,
};
use crate::todotxt::{
    spaced, has_relative_date, relative_token, completed_of, created_of, due_key, is_blank, scheduled_key, token_is_blank, token_text,
    tokens_view, DescriptionToken, TaskView, TodoTxtTask, TokenView,
};

verus! {

/// The style code a token is shown with, if any: projects bold, contexts
/// italic, key/value pairs dimmed.
pub open spec fn token_code(t: TokenView) -> Option<Seq<char>> {
    match t {
        TokenView::Project(_) => Some(seq!['1']),
        TokenView::Context(_) => Some(seq!['3']),
        TokenView::Meta(_, _) => Some(seq!['2']),
        TokenView::Other(_) => None,
    }
}

/// `r` is `s` shown with the style `code`, if any.
pub open spec fn styled_as(r: Seq<char>, s: Seq<char>, code: Option<Seq<char>>) -> bool {
    match code {
        Some(c) => painted(r, s, c),
        None => r == s,
    }
}

/// `s` with the style `code` written where `on`, else as it is.
pub open spec fn with_style(s: Seq<char>, code: Option<Seq<char>>, on: bool) -> Seq<char> {
    match code {
        Some(c) => if on { sgr(c) + escape_resets(s, c) + reset_seq() } else { s },
        None => s,
    }
}

/// A token as a listing shows it: its text as shown, in the style of its
/// kind where `on` (whether styles are written is up to the environment).
pub open spec fn styled_token(tok: TokenView, on: bool, pretty: bool, t: int) -> Seq<char> {
    with_style(shown_token_text(tok, pretty, t), token_code(tok), on)
}

/// A description as a listing shows it: each token in its style where the
/// matching entry of `ons` is set.
pub open spec fn styled_description(ts: Seq<TokenView>, ons: Seq<bool>, pretty: bool, t: int) -> Seq<char>
    decreases ts.len(),
{
    if ts.len() == 0 {
        seq![]
    } else {
        styled_description(ts.drop_last(), ons.drop_last(), pretty, t) + styled_token(ts.last(), ons.last(), pretty, t)
    }
}

/// Styled text is the text with the style written or not.
proof fn lemma_styled_choice(r: Seq<char>, s: Seq<char>, code: Option<Seq<char>>)
    requires
        styled_as(r, s, code),
    ensures
        r == with_style(s, code, r != s),
{
}

impl DescriptionToken {
    /// `s` in the style of this kind of token.
    pub fn colored(&self, s: &str) -> (r: String)
        ensures
            styled_as(r@, s@, token_code(self@)),
            strip_ansi(r@) == strip_ansi(s@),
    {
        match self {
            DescriptionToken::Project(_) => paint_bold(s),
            DescriptionToken::Context(_) => paint_italic(s),
            DescriptionToken::Meta(_, _) => paint_dimmed(s),
            DescriptionToken::Other(_) => string_from_str(s),
        }
    }

    /// The token as written, in its style.
    pub fn to_string_colored(&self) -> (r: String)
        ensures
            styled_as(r@, token_text(self@), token_code(self@)),
            strip_ansi(r@) == strip_ansi(token_text(self@)),
    {
        let s = self.to_string();
        self.colored(s.as_str())
    }
}

/// How a token is shown: a due or scheduled date that reads as a date is
/// written as the view writes dates; anything else as in the file.
pub open spec fn shown_token_text(tok: TokenView, pretty: bool, t: int) -> Seq<char> {
    match tok {
        TokenView::Meta(k, v) => if (k == due_key() || k == scheduled_key()) && date_outcome(v, t) is Day {
            k + seq![':'] + date_text(date_outcome(v, t)->Day_0, pretty, t)
        } else {
            token_text(tok)
        },
        _ => token_text(tok),
    }
}

/// How a description is shown, without styles.
pub open spec fn shown_description(ts: Seq<TokenView>, pretty: bool, t: int) -> Seq<char>
    decreases ts.len(),
{
    if ts.len() == 0 {
        seq![]
    } else {
        shown_description(ts.drop_last(), pretty, t) + shown_token_text(ts.last(), pretty, t)
    }
}

/// `s` in the style of `code`, if any, when the text holds no escape character.
proof fn lemma_styled_clean(r: Seq<char>, s: Seq<char>, code: Option<Seq<char>>)
    requires
        styled_as(r, s, code),
        code matches Some(c) ==> param_code(c),
        !has_esc(s),
    ensures
        clean(r),
        strip_ansi(r) == s,
{
    match code {
        Some(c) => lemma_painted(r, s, c),
        None => lemma_strip_plain(s),
    }
}

fn shown_token(tok: &DescriptionToken, view: &ViewConfig, today: Date) -> (r: String)
    ensures
        r@ == styled_token(tok@, r@ != shown_token_text(tok@, view.pretty_dates, today@), view.pretty_dates, today@),
        strip_ansi(r@) == strip_ansi(shown_token_text(tok@, view.pretty_dates, today@)),
        !has_esc(shown_token_text(tok@, view.pretty_dates, today@)) ==> clean(r@) && strip_ansi(r@)
            == shown_token_text(tok@, view.pretty_dates, today@),
{
    match tok {
        DescriptionToken::Meta(k, v) => {
            let kc = chars_of(k.as_str());
            let is_date_key = chars_eq_str(kc.as_slice(), "due") || chars_eq_str(kc.as_slice(), "scheduled");
            assert(is_date_key == (k@ == due_key() || k@ == scheduled_key()));
            if is_date_key {
                match parse_date_on(v.as_str(), today) {
                    Ok(date) => {
                        let shown = format_date_on(date, view.pretty_dates, today);
                        let mut text = chars_of(k.as_str());
                        text.push(':');
                        let sc = chars_of(shown.as_str());
                        append_chars(&mut text, sc.as_slice());
                        let s = string_from_chars(text.as_slice());
                        let r = tok.colored(s.as_str());
                        proof {
                            assert(date_outcome(v@, today@) == DateOutcome::Day(date@));
                            assert(s@ =~= shown_token_text(tok@, view.pretty_dates, today@));
                            lemma_styled_choice(r@, s@, token_code(tok@));
                            if !has_esc(shown_token_text(tok@, view.pretty_dates, today@)) {
                                lemma_styled_clean(r@, s@, token_code(tok@));
                            }
                        }
                        return r;
                    },
                    Err(_) => {},
                }
            }
            let r = tok.to_string_colored();
            proof {
                lemma_styled_choice(r@, token_text(tok@), token_code(tok@));
                if !has_esc(shown_token_text(tok@, view.pretty_dates, today@)) {
                    lemma_styled_clean(r@, token_text(tok@), token_code(tok@));
                }
            }
            r
        },
        _ => {
            let r = tok.to_string_colored();
            proof {
                lemma_styled_choice(r@, token_text(tok@), token_code(tok@));
                if !has_esc(shown_token_text(tok@, view.pretty_dates, today@)) {
                    lemma_styled_clean(r@, token_text(tok@), token_code(tok@));
                }
            }
            r
        },
    }
}

/// The columns of a task in a listing, without styles: those that are on,
/// of completion mark, priority, completion and creation dates (each date
/// padded to ten characters and followed by a space).
pub open spec fn shown_columns(tv: TaskView, columns: ColumnSelector, pretty: bool, t: int) -> Seq<char> {
    completion_column(tv, columns) + priority_column(tv, columns) + date_column(
        completed_of(tv.dates),
        columns.completion_date,
        pretty,
        t,
    ) + date_column(created_of(tv.dates), columns.creation_date, pretty, t)
}

pub open spec fn completion_column(tv: TaskView, columns: ColumnSelector) -> Seq<char> {
    if columns.completed {
        if tv.completed { seq!['x', ' '] } else { seq![' ', ' '] }
    } else {
        seq![]
    }
}

pub open spec fn priority_column(tv: TaskView, columns: ColumnSelector) -> Seq<char> {
    if columns.priority {
        match tv.priority {
            Some(p) => seq!['(', p, ')', ' '],
            None => seq![' ', ' ', ' ', ' '],
        }
    } else {
        seq![]
    }
}

pub open spec fn date_column(d: Option<int>, on: bool, pretty: bool, t: int) -> Seq<char> {
    if on {
        pad_right(
            match d {
                Some(n) => date_text(n, pretty, t),
                None => seq![],
            },
            10,
        ) + seq![' ']
    } else {
        seq![]
    }
}

/// How a task is shown in a listing, without styles: its columns, then its
/// description.
pub open spec fn shown_task(tv: TaskView, columns: ColumnSelector, pretty: bool, t: int) -> Seq<char> {
    shown_columns(tv, columns, pretty, t) + shown_description(tv.description, pretty, t)
}

/// A listing line before its own style: the columns that are on, then the
/// description with each token in its style where `ons` says so.
pub open spec fn styled_line(tv: TaskView, columns: ColumnSelector, pretty: bool, t: int, ons: Seq<bool>) -> Seq<char> {
    shown_columns(tv, columns, pretty, t) + styled_description(tv.description, ons, pretty, t)
}

/// `r` is the listing line `line` of task `tv` in the line's style: struck
/// through when the task is completed, else in the color of priority `A` or
/// `B`, else as it is.
pub open spec fn line_styled(r: Seq<char>, tv: TaskView, line: Seq<char>) -> bool {
    &&& tv.completed ==> painted(r, line, seq!['9'])
    &&& !tv.completed && tv.priority == Some('A') ==> painted(r, line, color_code(PRIORITY_A_COLOR))
    &&& !tv.completed && tv.priority == Some('B') ==> painted(r, line, color_code(PRIORITY_B_COLOR))
    &&& !tv.completed && tv.priority != Some('A') && tv.priority != Some('B') ==> r == line
}

/// `r` is how a listing shows task `tv` with today being `t`, for the choice
/// `ons` of which token styles are written. Without its styles it is the
/// plain columns followed by the description without its styles.
pub open spec fn listing_line(r: Seq<char>, tv: TaskView, columns: ColumnSelector, pretty: bool, t: int, ons: Seq<bool>) -> bool {
    &&& ons.len() == tv.description.len()
    &&& line_styled(r, tv, styled_line(tv, columns, pretty, t, ons))
    &&& strip_ansi(r) == shown_columns(tv, columns, pretty, t) + strip_ansi(
        styled_description(tv.description, ons, pretty, t),
    )
}

proof fn lemma_chars_no_esc(s: Seq<char>)
    requires
        forall|i: int| 0 <= i < s.len() ==> #[trigger] s[i] != esc(),
    ensures
        !has_esc(s),
{
    if has_esc(s) {
        let k = choose|k: int| 0 <= k < s.len() && s[k] == esc();
        assert(s[k] != esc());
    }
}

proof fn lemma_int_str_no_esc(i: int)
    ensures
        !has_esc(int_str(i)),
{
    let n: nat = if i < 0 { (-i) as nat } else { i as nat };
    lemma_nat_digits_are_digits(n);
    let d = nat_digits(n);
    assert forall|k: int| 0 <= k < d.len() implies #[trigger] d[k] != esc() by {
        assert(crate::text::is_digit(d[k]));
    }
    lemma_chars_no_esc(d);
    if i < 0 {
        let m = seq!['-'];
        assert forall|k: int| 0 <= k < m.len() implies #[trigger] m[k] != esc() by {}
        lemma_chars_no_esc(m);
        lemma_no_esc_join(m, d);
    }
}

proof fn lemma_pads_no_esc(s: Seq<char>, w: nat)
    requires
        !has_esc(s),
    ensures
        !has_esc(pad_left(s, w, '0')),
        !has_esc(pad_right(s, w)),
{
    if s.len() < w {
        let z = Seq::new((w - s.len()) as nat, |i: int| '0');
        let b = Seq::new((w - s.len()) as nat, |i: int| ' ');
        assert forall|k: int| 0 <= k < z.len() implies #[trigger] z[k] != esc() by {}
        assert forall|k: int| 0 <= k < b.len() implies #[trigger] b[k] != esc() by {}
        lemma_chars_no_esc(z);
        lemma_chars_no_esc(b);
        lemma_no_esc_join(z, s);
        lemma_no_esc_join(s, b);
    }
}

proof fn lemma_one_no_esc(c: char)
    requires
        c != esc(),
    ensures
        !has_esc(seq![c]),
{
    let m = seq![c];
    assert forall|k: int| 0 <= k < m.len() implies #[trigger] m[k] != esc() by {}
    lemma_chars_no_esc(m);
}

/// Dates as a listing writes them hold no escape character.
proof fn lemma_date_text_no_esc(n: int, pretty: bool, t: int)
    ensures
        !has_esc(date_text(n, pretty, t)),
{
    reveal_strlit("today");
    reveal_strlit("yesterday");
    reveal_strlit("tomorrow");
    let diff = n - t;
    if pretty && diff == 0 {
        let s = "today"@;
        assert forall|k: int| 0 <= k < s.len() implies #[trigger] s[k] != esc() by {}
        lemma_chars_no_esc(s);
    } else if pretty && diff == -1 {
        let s = "yesterday"@;
        assert forall|k: int| 0 <= k < s.len() implies #[trigger] s[k] != esc() by {}
        lemma_chars_no_esc(s);
    } else if pretty && diff == 1 {
        let s = "tomorrow"@;
        assert forall|k: int| 0 <= k < s.len() implies #[trigger] s[k] != esc() by {}
        lemma_chars_no_esc(s);
    } else if pretty && abs(diff) < 14 {
        lemma_int_str_no_esc(diff);
        lemma_one_no_esc('d');
        lemma_no_esc_join(int_str(diff), seq!['d']);
    } else if pretty && abs(div_trunc(diff, 7)) < 6 {
        lemma_int_str_no_esc(div_trunc(diff, 7));
        lemma_one_no_esc('w');
        lemma_no_esc_join(int_str(div_trunc(diff, 7)), seq!['w']);
    } else {
        let (y, m, d) = spec_ymd(n);
        lemma_int_str_no_esc(y);
        lemma_int_str_no_esc(m);
        lemma_int_str_no_esc(d);
        lemma_pads_no_esc(int_str(y), 4);
        lemma_pads_no_esc(int_str(m), 2);
        lemma_pads_no_esc(int_str(d), 2);
        lemma_one_no_esc('-');
        let a = pad_left(int_str(y), 4, '0');
        let b = pad_left(int_str(m), 2, '0');
        let c = pad_left(int_str(d), 2, '0');
        lemma_no_esc_join(a, seq!['-']);
        lemma_no_esc_join(a + seq!['-'], b);
        lemma_no_esc_join(a + seq!['-'] + b, seq!['-']);
        lemma_no_esc_join(a + seq!['-'] + b + seq!['-'], c);
        assert(ymd_text(y, m, d) == a + seq!['-'] + b + seq!['-'] + c);
    }
}

/// A part of a listing line in which no style sequence starts, empty or
/// ending with a space.
pub open spec fn plain_cell(s: Seq<char>) -> bool {
    no_csi(s) && (s.len() == 0 || s.last() == ' ')
}

proof fn lemma_plain_cells_join(a: Seq<char>, b: Seq<char>)
    requires
        plain_cell(a),
        plain_cell(b),
    ensures
        plain_cell(a + b),
{
    lemma_no_csi_join(a, b);
    if b.len() > 0 {
        assert((a + b).last() == b.last());
    } else {
        assert(a + b =~= a);
    }
}

/// The columns of a listing line start no style sequence and end with a space.
proof fn lemma_columns_plain(tv: TaskView, columns: ColumnSelector, pretty: bool, t: int)
    ensures
        plain_cell(shown_columns(tv, columns, pretty, t)),
{
    let c1 = completion_column(tv, columns);
    let p = priority_column(tv, columns);
    let d1 = date_column(completed_of(tv.dates), columns.completion_date, pretty, t);
    let d2 = date_column(created_of(tv.dates), columns.creation_date, pretty, t);
    assert forall|k: int| 0 <= k < c1.len() implies #[trigger] c1[k] != esc() by {}
    lemma_chars_no_esc(c1);
    lemma_no_esc_no_csi(c1);
    assert(no_csi(p)) by {
        assert forall|i: int| 0 <= i < p.len() - 1 && #[trigger] p[i] == esc() implies p[i + 1] != '[' by {}
    }
    assert forall|o: Option<int>, on: bool| plain_cell(#[trigger] date_column(o, on, pretty, t)) by {
        if on {
            let text = match o {
                Some(n) => date_text(n, pretty, t),
                None => seq![],
            };
            match o {
                Some(n) => lemma_date_text_no_esc(n, pretty, t),
                None => {
                    assert forall|k: int| 0 <= k < text.len() implies #[trigger] text[k] != esc() by {}
                    lemma_chars_no_esc(text);
                },
            }
            lemma_pads_no_esc(text, 10);
            lemma_one_no_esc(' ');
            lemma_no_esc_join(pad_right(text, 10), seq![' ']);
            lemma_no_esc_no_csi(date_column(o, on, pretty, t));
        } else {
            assert(no_csi(date_column(o, on, pretty, t)));
        }
    }
    assert(plain_cell(d1));
    assert(plain_cell(d2));
    lemma_plain_cells_join(c1, p);
    lemma_plain_cells_join(c1 + p, d1);
    lemma_plain_cells_join(c1 + p + d1, d2);
}

fn shown_date_column(date: Option<Date>, pretty: bool, today: Date) -> (r: Vec<char>)
    ensures
        r@ == date_column(
            match date {
                Some(d) => Some(d@),
                None => None,
            },
            true,
            pretty,
            today@,
        ),
{
    let date_str: Vec<char> = match date {
        Some(d) => {
            let s = format_date_on(d, pretty, today);
            chars_of(s.as_str())
        },
        None => Vec::new(),
    };
    let mut padded = pad_right_chars(date_str.as_slice(), 10);
    padded.push(' ');
    padded
}

/// One more token of a description whose words and blanks take turns: the
/// text without styles grows by the token's text without styles.
proof fn lemma_strip_step(ts: Seq<TokenView>, i: int, before: Seq<char>, pc: Seq<char>, pretty: bool, t: int)
    requires
        spaced(ts),
        0 <= i < ts.len(),
        strip_ansi(before) == strip_ansi(shown_description(ts.take(i), pretty, t)),
        i > 0 && token_is_blank(ts[i - 1]) ==> before.len() > 0 && is_blank(before.last())
            && shown_description(ts.take(i), pretty, t).len() > 0 && is_blank(
            shown_description(ts.take(i), pretty, t).last(),
        ),
        i == 0 ==> before.len() == 0,
        strip_ansi(pc) == strip_ansi(shown_token_text(ts[i], pretty, t)),
        pc == styled_token(ts[i], pc != shown_token_text(ts[i], pretty, t), pretty, t),
    ensures
        strip_ansi(before + pc) == strip_ansi(shown_description(ts.take(i + 1), pretty, t)),
        token_is_blank(ts[i]) ==> (before + pc).len() > 0 && is_blank((before + pc).last())
            && shown_description(ts.take(i + 1), pretty, t).len() > 0 && is_blank(
            shown_description(ts.take(i + 1), pretty, t).last(),
        ),
{
    let sd = shown_description(ts.take(i), pretty, t);
    let x = shown_token_text(ts[i], pretty, t);
    let tk = ts.take(i + 1);
    assert(tk.drop_last() =~= ts.take(i));
    assert(tk.last() == ts[i]);
    assert(shown_description(tk, pretty, t) == sd + x);
    if token_is_blank(ts[i]) {
        let w = token_text(ts[i]);
        assert(x == w);
        assert(pc == w);
        assert(is_blank(w[0]) && is_blank(w.last()));
        assert((before + pc).last() == w.last());
        assert((sd + x).last() == w.last());
    } else if i > 0 {
        assert(token_is_blank(ts[i - 1]) || token_is_blank(ts[i]));
    } else {
        assert(sd.len() == 0) by {
            assert(ts.take(0) =~= Seq::<TokenView>::empty());
        }
    }
    assert(meet_apart(before, pc));
    assert(meet_apart(sd, x));
    lemma_strip_join(before, pc);
    lemma_strip_join(sd, x);
}

/// `s` is the description `ts` as shown on day `t`: each token in its style
/// for some choice of which styles are written, and without its styles the
/// description as shown without its styles.
pub open spec fn description_shown(s: Seq<char>, ts: Seq<TokenView>, pretty: bool, t: int) -> bool {
    &&& strip_ansi(s) == strip_ansi(shown_description(ts, pretty, t))
    &&& exists|ons: Seq<bool>| ons.len() == ts.len() && s == #[trigger] styled_description(ts, ons, pretty, t)
}

/// `s` is the listing line of task `tv` on day `t`, for some choice of which
/// token styles are written.
pub open spec fn line_shown(s: Seq<char>, tv: TaskView, columns: ColumnSelector, pretty: bool, t: int) -> bool {
    exists|ons: Seq<bool>| #[trigger] listing_line(s, tv, columns, pretty, t, ons)
}

/// Plain dates and descriptions without relative due or scheduled dates show
/// the same whatever day today is.
proof fn lemma_shown_any_day(ts: Seq<TokenView>, ons: Seq<bool>, t1: int, t2: int)
    requires
        !has_relative_date(ts),
    ensures
        shown_description(ts, false, t1) == shown_description(ts, false, t2),
        styled_description(ts, ons, false, t1) == styled_description(ts, ons, false, t2),
    decreases ts.len(),
{
    if ts.len() > 0 {
        let d = ts.drop_last();
        assert(!has_relative_date(d)) by {
            if has_relative_date(d) {
                let i = choose|i: int| 0 <= i < d.len() && #[trigger] relative_token(d[i]);
                assert(ts[i] == d[i]);
            }
        }
        lemma_shown_any_day(d, ons.drop_last(), t1, t2);
        let tok = ts.last();
        assert(!relative_token(ts[ts.len() - 1]));
        match tok {
            TokenView::Meta(k, v) => {
                if k == due_key() || k == scheduled_key() {
                    crate::date::lemma_absolute_any_day(v, t1, t2);
                }
            },
            _ => {},
        }
        assert(shown_token_text(tok, false, t1) == shown_token_text(tok, false, t2));
    }
}

/// The columns of a line written plainly show the same whatever day today is.
proof fn lemma_columns_any_day(tv: TaskView, columns: ColumnSelector, t1: int, t2: int)
    ensures
        shown_columns(tv, columns, false, t1) == shown_columns(tv, columns, false, t2),
{
    assert forall|o: Option<int>, on: bool| #[trigger] date_column(o, on, false, t1) == date_column(o, on, false, t2) by {
        match o {
            Some(n) => assert(date_text(n, false, t1) == date_text(n, false, t2)),
            None => {},
        }
    }
}

impl TodoTxtTask {
    /// The description as shown, with today being `today`: each token in its
    /// style, due and scheduled dates written as the view writes dates.
    /// Without its styles it is the description as shown without its styles.
    pub fn description_fancy_on(&self, view: &ViewConfig, today: Date) -> (r: String)
        ensures
            strip_ansi(r@) == strip_ansi(shown_description(self@.description, view.pretty_dates, today@)),
            exists|ons: Seq<bool>|
                ons.len() == self@.description.len() && r@ == #[trigger] styled_description(
                    self@.description,
                    ons,
                    view.pretty_dates,
                    today@,
                ),
            !has_esc(shown_description(self@.description, view.pretty_dates, today@)) ==> clean(r@)
                && strip_ansi(r@) == shown_description(self@.description, view.pretty_dates, today@),
    {
        let ghost ts = self@.description;
        proof {
            use_type_invariant(self);
        }
        assert(spaced(ts));
        let toks = self.tokens();
        let mut v: Vec<char> = Vec::new();
        let mut i: usize = 0;
        let ghost mut ons: Seq<bool> = seq![];
        proof {
            lemma_strip_plain(v@);
        }
        while i < toks.len()
            invariant
                i <= toks@.len(),
                ts == tokens_view(toks@),
                ons.len() == i,
                v@ == styled_description(ts.take(i as int), ons, view.pretty_dates, today@),
                spaced(ts) ==> strip_ansi(v@) == strip_ansi(
                    shown_description(ts.take(i as int), view.pretty_dates, today@),
                ),
                spaced(ts) && i > 0 && token_is_blank(ts[i - 1]) ==> v@.len() > 0 && is_blank(v@.last())
                    && shown_description(ts.take(i as int), view.pretty_dates, today@).len() > 0 && is_blank(
                    shown_description(ts.take(i as int), view.pretty_dates, today@).last(),
                ),
                !has_esc(shown_description(ts.take(i as int), view.pretty_dates, today@)) ==> clean(v@)
                    && strip_ansi(v@) == shown_description(ts.take(i as int), view.pretty_dates, today@),
            decreases toks@.len() - i,
        {
            let piece = shown_token(&toks[i], view, today);
            let pc = chars_of(piece.as_str());
            let ghost before = v@;
            let ghost ons0 = ons;
            append_chars(&mut v, pc.as_slice());
            proof {
                ons = ons.push(piece@ != shown_token_text(toks@[i as int]@, view.pretty_dates, today@));
                let tk = ts.take(i + 1);
                assert(ons.drop_last() =~= ons0);
                assert(tk.drop_last() =~= ts.take(i as int));
                assert(tk.last() == toks@[i as int]@);
                assert(v@ =~= before + pc@);
                if spaced(ts) {
                    if i == 0 {
                        assert(ts.take(0) =~= Seq::<TokenView>::empty());
                    }
                    lemma_strip_step(ts, i as int, before, pc@, view.pretty_dates, today@);
                }
                assert(tk.drop_last() =~= ts.take(i as int));
                assert(tk.last() == toks@[i as int]@);
                let a = shown_description(ts.take(i as int), view.pretty_dates, today@);
                let b = shown_token_text(toks@[i as int]@, view.pretty_dates, today@);
                assert(shown_description(tk, view.pretty_dates, today@) == a + b);
                if !has_esc(a + b) {
                    lemma_no_esc_concat(a, b);
                    lemma_strip_concat(before, pc@);
                    lemma_clean_concat(before, pc@);
                }
            }
            i = i + 1;
        }
        assert(ts.take(toks@.len() as int) =~= ts);
        let r = string_from_chars(v.as_slice());
        assert(r@ == styled_description(self@.description, ons, view.pretty_dates, today@));
        r
    }

    /// As `description_fancy_on`. Only relative dates on show (`pretty_dates`)
    /// or a relative due or scheduled value read today's date from the clock;
    /// then `ClockError` when the clock gives no date.
    pub fn description_fancy(&self, view: &ViewConfig) -> (r: Result<String, ToroError>)
        ensures
            r is Err ==> r == Err::<String, ToroError>(ToroError::ClockError),
            !view.pretty_dates && !has_relative_date(self@.description) ==> (r matches Ok(s) && forall|t: int|
                #[trigger] description_shown(s@, self@.description, view.pretty_dates, t)),
            r matches Ok(s) ==> exists|t: int|
                in_range(t) && description_shown(s@, self@.description, view.pretty_dates, t),
    {
        if !view.pretty_dates && !self.relative_dates() {
            let d0 = chrono_default();
            let r = self.description_fancy_on(view, d0);
            proof {
                let ts = self@.description;
                assert(description_shown(r@, ts, false, d0@));
                let ons = choose|ons: Seq<bool>| ons.len() == ts.len() && r@ == #[trigger] styled_description(ts, ons, false, d0@);
                assert forall|t: int| #[trigger] description_shown(r@, ts, view.pretty_dates, t) by {
                    lemma_shown_any_day(ts, ons, t, d0@);
                    assert(r@ == styled_description(ts, ons, false, t));
                }
                use_type_invariant(&d0);
            }
            return Ok(r);
        }
        match today() {
            Some(t) => {
                let r = self.description_fancy_on(view, t);
                assert(in_range(t@));
                assert(description_shown(r@, self@.description, view.pretty_dates, t@));
                Ok(r)
            },
            None => Err(ToroError::ClockError),
        }
    }

    /// The task as a line of a listing, with today being `today`: the columns
    /// that are on, then the description as shown; struck through when
    /// completed, else colored for priority `A` or `B`.
    pub fn to_string_fancy_on(&self, columns: ColumnSelector, view: &ViewConfig, today: Date) -> (r: String)
        ensures
            strip_ansi(r@) == shown_columns(self@, columns, view.pretty_dates, today@) + strip_ansi(
                shown_description(self@.description, view.pretty_dates, today@),
            ),
            exists|ons: Seq<bool>| #[trigger] listing_line(r@, self@, columns, view.pretty_dates, today@, ons),
            !has_esc(shown_task(self@, columns, view.pretty_dates, today@)) ==> strip_ansi(r@) == shown_task(
                self@,
                columns,
                view.pretty_dates,
                today@,
            ),
    {
        let v0 = self.shown_columns_chars(columns, view, today);
        let mut v = v0;
        let ghost head = v@;
        let d = self.description_fancy_on(view, today);
        let dc = chars_of(d.as_str());
        append_chars(&mut v, dc.as_slice());
        let ghost plain = shown_task(self@, columns, view.pretty_dates, today@);
        let ghost desc = shown_description(self@.description, view.pretty_dates, today@);
        assert(plain == head + desc);
        proof {
            if !has_esc(plain) {
                lemma_no_esc_concat(head, desc);
                lemma_strip_plain(head);
                lemma_strip_concat(head, dc@);
            }
        }
        let s = string_from_chars(v.as_slice());
        let ghost ons = choose|ons: Seq<bool>|
            ons.len() == self@.description.len() && d@ == #[trigger] styled_description(
                self@.description,
                ons,
                view.pretty_dates,
                today@,
            );
        assert(s@ == styled_line(self@, columns, view.pretty_dates, today@, ons));
        proof {
            lemma_columns_plain(self@, columns, view.pretty_dates, today@);
            lemma_strip_no_csi(head);
            assert(head.len() == 0 || !opener(head.last()));
            lemma_strip_join(head, dc@);
            assert(s@ == head + dc@);
        }
        let r = if self.completed() {
            paint_strikethrough(s.as_str())
        } else {
            match self.priority() {
                Some(p) => {
                    if p == 'A' {
                        paint_color(s.as_str(), PRIORITY_A_COLOR)
                    } else if p == 'B' {
                        paint_color(s.as_str(), PRIORITY_B_COLOR)
                    } else {
                        s
                    }
                },
                None => s,
            }
        };
        assert(listing_line(r@, self@, columns, view.pretty_dates, today@, ons));
        r
    }

    fn shown_columns_chars(&self, columns: ColumnSelector, view: &ViewConfig, today: Date) -> (r: Vec<char>)
        ensures
            r@ == shown_columns(self@, columns, view.pretty_dates, today@),
    {
        let mut v: Vec<char> = Vec::new();
        if columns.completed {
            if self.completed() {
                v.push('x');
                v.push(' ');
            } else {
                v.push(' ');
                v.push(' ');
            }
        }
        assert(v@ =~= completion_column(self@, columns));
        let p = self.priority_column_chars(columns);
        append_chars(&mut v, p.as_slice());
        if columns.completion_date {
            let c = shown_date_column(self.when_completed(), view.pretty_dates, today);
            append_chars(&mut v, c.as_slice());
        }
        if columns.creation_date {
            let c = shown_date_column(self.when_created(), view.pretty_dates, today);
            append_chars(&mut v, c.as_slice());
        }
        v
    }

    fn priority_column_chars(&self, columns: ColumnSelector) -> (r: Vec<char>)
        ensures
            r@ == priority_column(self@, columns),
    {
        let mut v: Vec<char> = Vec::new();
        if columns.priority {
            match self.priority() {
                Some(p) => {
                    v.push('(');
                    v.push(p);
                    v.push(')');
                    v.push(' ');
                },
                None => {
                    v.push(' ');
                    v.push(' ');
                    v.push(' ');
                    v.push(' ');
                },
            }
        }
        assert(v@ =~= priority_column(self@, columns));
        v
    }

    /// As `to_string_fancy_on`. Only relative dates on show (`pretty_dates`)
    /// or a relative due or scheduled value read today's date from the clock;
    /// then `ClockError` when the clock gives no date.
    pub fn to_string_fancy(&self, columns: ColumnSelector, view: &ViewConfig) -> (r: Result<String, ToroError>)
        ensures
            r is Err ==> r == Err::<String, ToroError>(ToroError::ClockError),
            !view.pretty_dates && !has_relative_date(self@.description) ==> (r matches Ok(s) && forall|t: int|
                #[trigger] line_shown(s@, self@, columns, view.pretty_dates, t)),
            r matches Ok(s) ==> exists|t: int| in_range(t) && line_shown(s@, self@, columns, view.pretty_dates, t),
    {
        if !view.pretty_dates && !self.relative_dates() {
            let d0 = chrono_default();
            let r = self.to_string_fancy_on(columns, view, d0);
            proof {
                let tv = self@;
                let ons = choose|ons: Seq<bool>| #[trigger] listing_line(r@, tv, columns, false, d0@, ons);
                assert forall|t: int| #[trigger] line_shown(r@, tv, columns, view.pretty_dates, t) by {
                    lemma_shown_any_day(tv.description, ons, t, d0@);
                    lemma_columns_any_day(tv, columns, t, d0@);
                    assert(styled_line(tv, columns, false, t, ons) == styled_line(tv, columns, false, d0@, ons));
                    assert(listing_line(r@, tv, columns, false, t, ons));
                }
                use_type_invariant(&d0);
            }
            return Ok(r);
        }
        match today() {
            Some(t) => {
                let r = self.to_string_fancy_on(columns, view, t);
                assert(in_range(t@));
                assert(line_shown(r@, self@, columns, view.pretty_dates, t@));
                Ok(r)
            },
            None => Err(ToroError::ClockError),
        }
    }
}

} // verus!
