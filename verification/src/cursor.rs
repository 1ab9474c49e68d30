//! The shared cursor model: how a `(row, column)` position advances over a
//! consumed token.
//!
//! A position is one-based. Consuming a token moves the column forward by the
//! code-point count of its text plus one, modeling the implicit separator
//! that followed it; a line-break token then resets the column to 1 and
//! increments the row by exactly 1.

use vstd::prelude::*;

use crate::model::PlainTextToken;
use crate::model::TokView;
use crate::model::is_bracket;
use crate::model::is_comma_char;
use crate::model::is_digit;
use crate::model::is_letter;
use crate::model::is_sentence_end;
use crate::model::lemma_number_len;
use crate::model::lemma_run_len;
use crate::model::lex;
use crate::model::number_len;
use crate::model::run_len;

verus! {

/// The position after consuming `t` at `(row, col)`: the pair `(row', col')`.
pub open spec fn advance_cursor(row: int, col: int, t: TokView) -> (int, int) {
    if t.kind == PlainTextToken::NewLine {
        (row + 1, 1)
    } else {
        (row, col + t.text.len() + 1)
    }
}

/// How far the column can travel over `toks`: the sum of each token's
/// code-point count plus one.
pub open spec fn scan_width(toks: Seq<TokView>) -> int
    decreases toks.len(),
{
    if toks.len() == 0 {
        0
    } else {
        toks[0].text.len() + 1 + scan_width(toks.skip(1))
    }
}

pub proof fn lemma_scan_width_nonneg(toks: Seq<TokView>)
    ensures
        scan_width(toks) >= 0,
    decreases toks.len(),
{
    if toks.len() > 0 {
        lemma_scan_width_nonneg(toks.skip(1));
    }
}

/// Every token of `lex` consumes at least one character, so a text's token
/// count stays within its length and its scan width within twice its
/// length: what a caller needs to hand a freshly tokenized text to a
/// detector.
pub proof fn lemma_lex_bounds(s: Seq<char>)
    ensures
        scan_width(lex(s)) <= 2 * s.len(),
        lex(s).len() <= s.len(),
    decreases s.len(), 1int,
{
    if s.len() == 0 {
    } else if is_digit(s[0]) {
        lemma_number_len(s);
        let n = number_len(s);
        let t = TokView { kind: PlainTextToken::Number, text: s.take(n) };
        lemma_lex_bounds_step(s, n, t);
    } else if is_sentence_end(s[0]) {
        let t = TokView { kind: PlainTextToken::EndOfSentence, text: s.take(1) };
        lemma_lex_bounds_step(s, 1, t);
    } else if is_comma_char(s[0]) {
        let t = TokView { kind: PlainTextToken::Comma, text: s.take(1) };
        lemma_lex_bounds_step(s, 1, t);
    } else if s[0] == '\n' {
        let t = TokView { kind: PlainTextToken::NewLine, text: s.take(1) };
        lemma_lex_bounds_step(s, 1, t);
    } else if is_bracket(s[0]) {
        lemma_run_len(s, |c: char| is_bracket(c));
        assert((|c: char| is_bracket(c))(s[0]));
        let n = run_len(s, |c: char| is_bracket(c));
        let t = TokView { kind: PlainTextToken::Parentheses, text: s.take(n) };
        lemma_lex_bounds_step(s, n, t);
    } else if is_letter(s[0]) {
        lemma_run_len(s, |c: char| is_letter(c));
        assert((|c: char| is_letter(c))(s[0]));
        let n = run_len(s, |c: char| is_letter(c));
        let t = TokView { kind: PlainTextToken::Text, text: s.take(n) };
        lemma_lex_bounds_step(s, n, t);
    } else {
        lemma_lex_bounds(s.skip(1));
    }
}

/// One consumed token of `n` characters keeps both bounds.
proof fn lemma_lex_bounds_step(s: Seq<char>, n: int, t: TokView)
    requires
        1 <= n <= s.len(),
        lex(s) == seq![t] + lex(s.skip(n)),
        t.text.len() == n,
    ensures
        scan_width(lex(s)) <= 2 * s.len(),
        lex(s).len() <= s.len(),
    decreases s.len(), 0int,
{
    lemma_lex_bounds(s.skip(n));
    assert((seq![t] + lex(s.skip(n))).skip(1) =~= lex(s.skip(n)));
    assert((seq![t] + lex(s.skip(n)))[0] == t);
    assert(scan_width(lex(s)) == n + 1 + scan_width(lex(s.skip(n))));
}

/// How many line-break tokens `toks` holds.
pub open spec fn newline_count(toks: Seq<TokView>) -> int
    decreases toks.len(),
{
    if toks.len() == 0 {
        0
    } else {
        (if toks[0].kind == PlainTextToken::NewLine {
            1int
        } else {
            0int
        }) + newline_count(toks.skip(1))
    }
}

/// The tokens after the last line break of `toks`: all of `toks` when it
/// has none.
pub open spec fn since_last_break(toks: Seq<TokView>) -> Seq<TokView>
    decreases toks.len(),
{
    if toks.len() == 0 {
        toks
    } else if toks.last().kind == PlainTextToken::NewLine {
        Seq::empty()
    } else {
        since_last_break(toks.drop_last()).push(toks.last())
    }
}

pub proof fn lemma_newline_count_nonneg(toks: Seq<TokView>)
    ensures
        newline_count(toks) >= 0,
    decreases toks.len(),
{
    if toks.len() > 0 {
        lemma_newline_count_nonneg(toks.skip(1));
    }
}

/// Appending one token adds its line break, if it is one, to the count.
pub proof fn lemma_newline_count_push(toks: Seq<TokView>, t: TokView)
    ensures
        newline_count(toks.push(t)) == newline_count(toks) + (if t.kind
            == PlainTextToken::NewLine {
            1int
        } else {
            0int
        }),
    decreases toks.len(),
{
    assert(newline_count(toks.push(t)) == (if toks.push(t)[0].kind == PlainTextToken::NewLine {
        1int
    } else {
        0int
    }) + newline_count(toks.push(t).skip(1)));
    if toks.len() == 0 {
        assert(toks.push(t)[0] == t);
        assert(toks.push(t).skip(1).len() == 0);
        assert(newline_count(toks.push(t).skip(1)) == 0);
    } else {
        assert(toks.push(t)[0] == toks[0]);
        assert(toks.push(t).skip(1) =~= toks.skip(1).push(t));
        lemma_newline_count_push(toks.skip(1), t);
        assert(newline_count(toks.push(t).skip(1)) == newline_count(toks.skip(1).push(t)));
    }
}

/// Appending one token widens the scan by its code-point count plus one.
pub proof fn lemma_scan_width_push(toks: Seq<TokView>, t: TokView)
    ensures
        scan_width(toks.push(t)) == scan_width(toks) + t.text.len() + 1,
    decreases toks.len(),
{
    assert(scan_width(toks.push(t)) == toks.push(t)[0].text.len() + 1 + scan_width(
        toks.push(t).skip(1),
    ));
    if toks.len() == 0 {
        assert(toks.push(t)[0] == t);
        assert(toks.push(t).skip(1).len() == 0);
        assert(scan_width(toks.push(t).skip(1)) == 0);
    } else {
        assert(toks.push(t)[0] == toks[0]);
        assert(toks.push(t).skip(1) =~= toks.skip(1).push(t));
        lemma_scan_width_push(toks.skip(1), t);
        assert(scan_width(toks.push(t).skip(1)) == scan_width(toks.skip(1).push(t)));
    }
}

/// A line break always resets the column to 1 and increments the row by
/// exactly 1, whatever position the cursor had.
pub proof fn lemma_line_break_advancement(row: int, col: int, t: TokView)
    requires
        t.kind == PlainTextToken::NewLine,
    ensures
        advance_cursor(row, col, t).0 == row + 1,
        advance_cursor(row, col, t).1 == 1,
{
}

/// The whole cursor arithmetic in one statement: a line break moves the
/// cursor to the head of the next row, and any other token keeps the row
/// and moves the column forward by the token's code-point count plus one
/// for the implicit separator.
pub proof fn lemma_token_advancement(row: int, col: int, t: TokView)
    ensures
        t.kind == PlainTextToken::NewLine ==> advance_cursor(row, col, t) == (row + 1, 1int),
        t.kind != PlainTextToken::NewLine ==> advance_cursor(row, col, t) == (
            row,
            col + t.text.len() + 1,
        ),
{
}

} // verus!
