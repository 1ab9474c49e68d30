//! Classified lexical tokens and the token grammar.
//!
//! Raw text is cut into tokens by priority: a run of digits with an optional
//! embedded decimal comma is a `Number`; one of `.?!` ends a sentence; one of
//! `,;` counts as a comma (a semicolon satisfies the separator requirement
//! exactly like a comma); `\n` is a line break; a maximal run of bracket
//! characters is `Parentheses`; a maximal run of Unicode letters is `Text`.
//! Whitespace other than `\n` and any unrecognized character is discarded and
//! never emitted as a token.

use vstd::prelude::*;

verus! {

/// The kind of a lexical token.
#[derive(Clone, Copy, Debug, PartialEq, Eq, Structural)]
pub enum PlainTextToken {
    /// A run of digits, optionally with one embedded decimal comma.
    Number,
    /// One of `.`, `?`, `!`.
    EndOfSentence,
    /// One of `,`, `;`: both satisfy a comma requirement.
    Comma,
    /// A single `\n`.
    NewLine,
    /// A maximal run of bracket characters.
    Parentheses,
    /// A maximal run of Unicode letters.
    Text,
}

/// A classified token together with the text it matched.
#[derive(Clone, Debug)]
pub struct LexedToken {
    pub kind: PlainTextToken,
    pub text: String,
}

/// The mathematical image of a lexed token.
pub ghost struct TokView {
    pub kind: PlainTextToken,
    pub text: Seq<char>,
}

/// The view of one lexed token.
pub open spec fn tok_view(t: LexedToken) -> TokView {
    TokView { kind: t.kind, text: t.text@ }
}

/// The views of a sequence of lexed tokens.
pub open spec fn tok_views(ts: Seq<LexedToken>) -> Seq<TokView> {
    ts.map_values(|t: LexedToken| tok_view(t))
}

/// An ASCII decimal digit.
pub open spec fn is_digit(c: char) -> bool {
    48 <= c as int && c as int <= 57
}

/// A sentence-ending character.
pub open spec fn is_sentence_end(c: char) -> bool {
    c == '.' || c == '?' || c == '!'
}

/// A character that counts as a comma.
pub open spec fn is_comma_char(c: char) -> bool {
    c == ',' || c == ';'
}

/// A bracket character.
pub open spec fn is_bracket(c: char) -> bool {
    c == '(' || c == ')' || c == '[' || c == ']' || c == '{' || c == '}'
}

/// Whether a character is a Unicode letter, as `char::is_alphabetic` decides
/// it: a pure function of the character alone.
pub uninterp spec fn is_letter(c: char) -> bool;

/// Relies on char::is_alphabetic: whether a character has the Unicode
/// `Alphabetic` property depends on the character alone.
pub assume_specification[ char::is_alphabetic ](c: char) -> (r: bool)
    ensures
        r == is_letter(c),
;

/// Length of the longest prefix of `s` whose characters all satisfy `pred`.
pub open spec fn run_len(s: Seq<char>, pred: spec_fn(char) -> bool) -> int
    decreases s.len(),
{
    if s.len() == 0 || !pred(s[0]) {
        0
    } else {
        1 + run_len(s.skip(1), pred)
    }
}

/// `run_len` marks the first character that fails `pred`: everything before
/// it satisfies `pred`, and the run ends only at that character or at the end
/// of the text.
pub proof fn lemma_run_len(s: Seq<char>, pred: spec_fn(char) -> bool)
    ensures
        0 <= run_len(s, pred) <= s.len(),
        forall|k: int| 0 <= k < run_len(s, pred) ==> pred(s[k]),
        run_len(s, pred) < s.len() ==> !pred(s[run_len(s, pred)]),
    decreases s.len(),
{
    if s.len() > 0 && pred(s[0]) {
        lemma_run_len(s.skip(1), pred);
        assert forall|k: int| 0 <= k < run_len(s, pred) implies pred(s[k]) by {
            if k > 0 {
                assert(s.skip(1)[k - 1] == s[k]);
            }
        }
        if run_len(s, pred) < s.len() {
            assert(s.skip(1)[run_len(s, pred) - 1] == s[run_len(s, pred)]);
        }
    }
}

/// How many characters a `Number` token starting at the head of `s` matches:
/// the digit run, extended over one decimal comma when a digit follows it.
pub open spec fn number_len(s: Seq<char>) -> int {
    let d = run_len(s, |c: char| is_digit(c));
    if d < s.len() && s[d] == ',' && d + 1 < s.len() && is_digit(s[d + 1]) {
        d + 1 + run_len(s.skip(d + 1), |c: char| is_digit(c))
    } else {
        d
    }
}

/// The token sequence of a text, by the grammar above.
pub open spec fn lex(s: Seq<char>) -> Seq<TokView>
    decreases s.len(),
    via lex_decreases
{
    if s.len() == 0 {
        Seq::empty()
    } else if is_digit(s[0]) {
        let n = number_len(s);
        seq![TokView { kind: PlainTextToken::Number, text: s.take(n) }] + lex(s.skip(n))
    } else if is_sentence_end(s[0]) {
        seq![TokView { kind: PlainTextToken::EndOfSentence, text: s.take(1) }] + lex(s.skip(1))
    } else if is_comma_char(s[0]) {
        seq![TokView { kind: PlainTextToken::Comma, text: s.take(1) }] + lex(s.skip(1))
    } else if s[0] == '\n' {
        seq![TokView { kind: PlainTextToken::NewLine, text: s.take(1) }] + lex(s.skip(1))
    } else if is_bracket(s[0]) {
        let n = run_len(s, |c: char| is_bracket(c));
        seq![TokView { kind: PlainTextToken::Parentheses, text: s.take(n) }] + lex(s.skip(n))
    } else if is_letter(s[0]) {
        let n = run_len(s, |c: char| is_letter(c));
        seq![TokView { kind: PlainTextToken::Text, text: s.take(n) }] + lex(s.skip(n))
    } else {
        lex(s.skip(1))
    }
}

#[via_fn]
proof fn lex_decreases(s: Seq<char>) {
    if s.len() > 0 {
        if is_digit(s[0]) {
            lemma_number_len(s);
        }
        lemma_run_len(s, |c: char| is_bracket(c));
        lemma_run_len(s, |c: char| is_letter(c));
    }
}

/// Appending a token on the right maps through `tok_views`.
pub proof fn lemma_tok_views_push(ts: Seq<LexedToken>, t: LexedToken)
    ensures
        tok_views(ts.push(t)) =~= tok_views(ts).push(TokView { kind: t.kind, text: t.text@ }),
{
}

pub(crate) fn digit_char(c: char) -> (r: bool)
    ensures
        r == is_digit(c),
{
    let u: u32 = c as u32;
    48 <= u && u <= 57
}

pub(crate) fn sentence_end_char(c: char) -> (r: bool)
    ensures
        r == is_sentence_end(c),
{
    c == '.' || c == '?' || c == '!'
}

pub(crate) fn comma_char_exec(c: char) -> (r: bool)
    ensures
        r == is_comma_char(c),
{
    c == ',' || c == ';'
}

pub(crate) fn bracket_char(c: char) -> (r: bool)
    ensures
        r == is_bracket(c),
{
    c == '(' || c == ')' || c == '[' || c == ']' || c == '{' || c == '}'
}

impl PlainTextToken {
    /// Tokenize `text` by the grammar of this module. Every call on the same
    /// text yields the same token sequence, so each detector can be handed an
    /// independent, identical pass over the input.
    pub fn lexer(text: &str) -> (r: Vec<LexedToken>)
        ensures
            tok_views(r@) == lex(text@),
    {
        let n = text.unicode_len();
        let mut toks: Vec<LexedToken> = Vec::new();
        let mut i: usize = 0;
        proof {
            assert(text@.skip(0) =~= text@);
            assert(tok_views(toks@) + lex(text@) =~= lex(text@));
        }
        while i < n
            invariant
                n == text@.len(),
                i <= n,
                tok_views(toks@) + lex(text@.skip(i as int)) == lex(text@),
            decreases n - i,
        {
            let ghost rest = text@.skip(i as int);
            proof {
                assert(rest[0] == text@[i as int]);
            }
            let c = text.get_char(i);
            if digit_char(c) {
                let mut j: usize = i + 1;
                while j < n && digit_char(text.get_char(j))
                    invariant
                        n == text@.len(),
                        i < j <= n,
                        forall|k: int| i <= k < j ==> is_digit(text@[k]),
                    decreases n - j,
                {
                    j += 1;
                }
                proof {
                    assert forall|k: int| 0 <= k < j - i implies (|ch: char| is_digit(ch))(
                        rest[k],
                    ) by {
                        assert(rest[k] == text@[i + k]);
                    }
                    if j - i < rest.len() {
                        assert(rest[j - i] == text@[j as int]);
                    }
                    lemma_run_len_is(rest, |ch: char| is_digit(ch), j - i);
                }
                let mut end: usize = j;
                if j < n && text.get_char(j) == ',' && j + 1 < n && digit_char(
                    text.get_char(j + 1),
                ) {
                    let mut j2: usize = j + 2;
                    while j2 < n && digit_char(text.get_char(j2))
                        invariant
                            n == text@.len(),
                            j + 1 < j2 <= n,
                            forall|k: int| j + 1 <= k < j2 ==> is_digit(text@[k]),
                        decreases n - j2,
                    {
                        j2 += 1;
                    }
                    proof {
                        let tail = rest.skip(j - i + 1);
                        assert(tail =~= text@.skip(j + 1));
                        assert forall|k: int| 0 <= k < j2 - j - 1 implies (|ch: char| is_digit(
                            ch,
                        ))(tail[k]) by {
                            assert(tail[k] == text@[j + 1 + k]);
                        }
                        if j2 - j - 1 < tail.len() {
                            assert(tail[j2 - j - 1] == text@[j2 as int]);
                        }
                        lemma_run_len_is(tail, |ch: char| is_digit(ch), j2 - j - 1);
                        assert(rest[j - i] == text@[j as int]);
                        assert(number_len(rest) == j2 - i);
                    }
                    end = j2;
                } else {
                    proof {
                        if j - i < rest.len() {
                            assert(rest[j - i] == text@[j as int]);
                        }
                        if j < n && text@[j as int] == ',' && j + 1 < n {
                            assert(rest[j - i + 1] == text@[j + 1]);
                        }
                        assert(number_len(rest) == j - i);
                    }
                }
                let piece = text.substring_char(i, end).to_owned();
                let tok = LexedToken { kind: PlainTextToken::Number, text: piece };
                proof {
                    lemma_step(toks@, tok, text@, i as int, end as int);
                }
                toks.push(tok);
                i = end;
            } else if sentence_end_char(c) {
                let piece = text.substring_char(i, i + 1).to_owned();
                let tok = LexedToken { kind: PlainTextToken::EndOfSentence, text: piece };
                proof {
                    lemma_step(toks@, tok, text@, i as int, i + 1);
                }
                toks.push(tok);
                i += 1;
            } else if comma_char_exec(c) {
                let piece = text.substring_char(i, i + 1).to_owned();
                let tok = LexedToken { kind: PlainTextToken::Comma, text: piece };
                proof {
                    lemma_step(toks@, tok, text@, i as int, i + 1);
                }
                toks.push(tok);
                i += 1;
            } else if c == '\n' {
                let piece = text.substring_char(i, i + 1).to_owned();
                let tok = LexedToken { kind: PlainTextToken::NewLine, text: piece };
                proof {
                    lemma_step(toks@, tok, text@, i as int, i + 1);
                }
                toks.push(tok);
                i += 1;
            } else if bracket_char(c) {
                let mut j: usize = i + 1;
                while j < n && bracket_char(text.get_char(j))
                    invariant
                        n == text@.len(),
                        i < j <= n,
                        forall|k: int| i <= k < j ==> is_bracket(text@[k]),
                    decreases n - j,
                {
                    j += 1;
                }
                proof {
                    assert forall|k: int| 0 <= k < j - i implies (|ch: char| is_bracket(ch))(
                        rest[k],
                    ) by {
                        assert(rest[k] == text@[i + k]);
                    }
                    if j - i < rest.len() {
                        assert(rest[j - i] == text@[j as int]);
                    }
                    lemma_run_len_is(rest, |ch: char| is_bracket(ch), j - i);
                }
                let piece = text.substring_char(i, j).to_owned();
                let tok = LexedToken { kind: PlainTextToken::Parentheses, text: piece };
                proof {
                    lemma_step(toks@, tok, text@, i as int, j as int);
                }
                toks.push(tok);
                i = j;
            } else if c.is_alphabetic() {
                let mut j: usize = i + 1;
                while j < n && text.get_char(j).is_alphabetic()
                    invariant
                        n == text@.len(),
                        i < j <= n,
                        forall|k: int| i <= k < j ==> is_letter(text@[k]),
                    decreases n - j,
                {
                    j += 1;
                }
                proof {
                    assert forall|k: int| 0 <= k < j - i implies (|ch: char| is_letter(ch))(
                        rest[k],
                    ) by {
                        assert(rest[k] == text@[i + k]);
                    }
                    if j - i < rest.len() {
                        assert(rest[j - i] == text@[j as int]);
                    }
                    lemma_run_len_is(rest, |ch: char| is_letter(ch), j - i);
                }
                let piece = text.substring_char(i, j).to_owned();
                let tok = LexedToken { kind: PlainTextToken::Text, text: piece };
                proof {
                    lemma_step(toks@, tok, text@, i as int, j as int);
                }
                toks.push(tok);
                i = j;
            } else {
                proof {
                    assert(lex(rest) == lex(rest.skip(1)));
                    assert(rest.skip(1) =~= text@.skip(i + 1));
                }
                i += 1;
            }
        }
        proof {
            assert(text@.skip(i as int) =~= Seq::<char>::empty());
            assert(lex(text@.skip(i as int)) =~= Seq::<TokView>::empty());
            assert(tok_views(toks@) + lex(text@.skip(i as int)) =~= tok_views(toks@));
        }
        toks
    }
}

/// One step of the scan: when `lex` cuts the token `t.text` out of the text
/// at `[i, end)`, appending `t` keeps the loop's accounting equation.
proof fn lemma_step(ts: Seq<LexedToken>, t: LexedToken, text: Seq<char>, i: int, end: int)
    requires
        0 <= i < end <= text.len(),
        t.text@ == text.subrange(i, end),
        lex(text.skip(i)) == seq![
            TokView { kind: t.kind, text: text.skip(i).take(end - i) },
        ] + lex(text.skip(i).skip(end - i)),
        tok_views(ts) + lex(text.skip(i)) == lex(text),
    ensures
        tok_views(ts.push(t)) + lex(text.skip(end)) == lex(text),
{
    let tv = TokView { kind: t.kind, text: t.text@ };
    assert(text.skip(i).take(end - i) =~= text.subrange(i, end));
    assert(text.skip(i).skip(end - i) =~= text.skip(end));
    lemma_tok_views_push(ts, t);
    assert(tok_views(ts.push(t)) + lex(text.skip(end)) =~= tok_views(ts) + (seq![tv] + lex(
        text.skip(end),
    )));
}

/// When the leading characters of `s` that satisfy `pred` are exactly those
/// before `m`, the run length is `m`.
pub proof fn lemma_run_len_is(s: Seq<char>, pred: spec_fn(char) -> bool, m: int)
    requires
        0 <= m <= s.len(),
        forall|k: int| 0 <= k < m ==> pred(s[k]),
        m == s.len() || !pred(s[m]),
    ensures
        run_len(s, pred) == m,
{
    lemma_run_len(s, pred);
}

/// When `s` starts with a digit, the number token is non-empty and fits in `s`.
pub proof fn lemma_number_len(s: Seq<char>)
    requires
        s.len() > 0,
        is_digit(s[0]),
    ensures
        1 <= number_len(s) <= s.len(),
{
    let d = run_len(s, |c: char| is_digit(c));
    lemma_run_len(s, |c: char| is_digit(c));
    assert(d >= 1) by {
        assert((|c: char| is_digit(c))(s[0]));
    }
    if d < s.len() && s[d] == ',' && d + 1 < s.len() && is_digit(s[d + 1]) {
        lemma_run_len(s.skip(d + 1), |c: char| is_digit(c));
    }
}

} // verus!
