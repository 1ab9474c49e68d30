//! The backward-trigger detector: flags a trigger word that is not preceded
//! by a comma (or semicolon), with adjacency suppression for repeated
//! triggers.
//!
//! Word lookup is case-sensitive. The comma flag is preserved across a line
//! break, so a comma at the end of one line still satisfies a trigger at the
//! start of the next; it is cleared by any other token, including a sentence
//! end. Two adjacent trigger words are flagged only once: the grammatical
//! requirement is for a comma before the first occurrence.

use vstd::prelude::*;

use crate::cursor::advance_cursor;
use crate::cursor::lemma_scan_width_nonneg;
use crate::cursor::scan_width;
use crate::model::LexedToken;
use crate::model::Mistake;
use crate::model::NaiveSettings;
use crate::model::PlainTextToken;
use crate::model::TokView;
use crate::model::DiagView;
use crate::model::diag_view;
use crate::model::diag_views;
use crate::model::lemma_diag_views_push;
use crate::model::tok_view;
use crate::model::tok_views;
use crate::strutil::find_word;
use crate::strutil::position_of;
use crate::strutil::strs_view;

verus! {

/// The mathematical image of a scan state.
pub ghost struct NaiveState {
    pub row: int,
    pub col: int,
    pub is_last_token_comma: bool,
    pub is_last_token_in_vec: bool,
}

/// The state of a running scan: the cursor, whether the previous token was a
/// comma, and whether it was itself a trigger word.
pub struct NaiveStatus {
    pub col: usize,
    pub row: usize,
    pub is_last_token_comma: bool,
    pub is_last_token_in_vec: bool,
}

impl View for NaiveStatus {
    type V = NaiveState;

    open spec fn view(&self) -> NaiveState {
        NaiveState {
            row: self.row as int,
            col: self.col as int,
            is_last_token_comma: self.is_last_token_comma,
            is_last_token_in_vec: self.is_last_token_in_vec,
        }
    }
}

/// The state at the start of a document: cursor at (1, 1), both flags clear.
pub open spec fn init_naive_state() -> NaiveState {
    NaiveState { row: 1, col: 1, is_last_token_comma: false, is_last_token_in_vec: false }
}

/// `st` with the row moved past the end of the consumed chunk.
pub open spec fn naive_row_bumped(st: NaiveState) -> NaiveState {
    NaiveState { row: st.row + 1, ..st }
}

impl NaiveStatus {
    pub fn new() -> (r: NaiveStatus)
        ensures
            r@ == init_naive_state(),
    {
        NaiveStatus { col: 1, row: 1, is_last_token_comma: false, is_last_token_in_vec: false }
    }
}

/// The message attached to a backward-trigger violation.
pub open spec fn naive_msg(w: Seq<char>) -> Seq<char> {
    "a(z) \""@ + w + "\" szó elé általában vesszőt teszünk."@
}

/// One scan step: the diagnostics emitted at this token and the state after
/// consuming it. A diagnostic is emitted at the pre-advancement position when
/// the token's raw text is a trigger word and the previous token was neither
/// a comma nor a trigger word.
pub open spec fn naive_step(
    words: Seq<Seq<char>>,
    probs: Seq<u32>,
    st: NaiveState,
    t: TokView,
) -> (NaiveState, Seq<DiagView>) {
    let idx = find_word(words, t.text);
    let emitted = match idx {
        Some(p) => if !st.is_last_token_comma && !st.is_last_token_in_vec {
            seq![
                DiagView { row: st.row, col: st.col, msg: naive_msg(words[p]), prob: probs[p] as int },
            ]
        } else {
            Seq::empty()
        },
        None => Seq::empty(),
    };
    let pos = advance_cursor(st.row, st.col, t);
    (
        NaiveState {
            row: pos.0,
            col: pos.1,
            is_last_token_comma: if t.kind == PlainTextToken::NewLine {
                st.is_last_token_comma
            } else {
                t.kind == PlainTextToken::Comma
            },
            is_last_token_in_vec: idx is Some,
        },
        emitted,
    )
}

/// A whole scan over `toks` from state `st`: the final state and every
/// diagnostic emitted, in token order.
pub open spec fn naive_run(
    words: Seq<Seq<char>>,
    probs: Seq<u32>,
    st: NaiveState,
    toks: Seq<TokView>,
) -> (NaiveState, Seq<DiagView>)
    decreases toks.len(),
{
    if toks.len() == 0 {
        (st, Seq::empty())
    } else {
        let s = naive_step(words, probs, st, toks[0]);
        let r = naive_run(words, probs, s.0, toks.skip(1));
        (r.0, s.1 + r.1)
    }
}

/// With no trigger word anywhere in the input, the backward scan emits no
/// diagnostic, whatever state it starts in.
pub proof fn lemma_naive_no_triggers(
    words: Seq<Seq<char>>,
    probs: Seq<u32>,
    st: NaiveState,
    toks: Seq<TokView>,
)
    requires
        forall|i: int| 0 <= i < toks.len() ==> find_word(words, #[trigger] toks[i].text) is None,
    ensures
        naive_run(words, probs, st, toks).1 == Seq::<DiagView>::empty(),
    decreases toks.len(),
{
    if toks.len() > 0 {
        let s = naive_step(words, probs, st, toks[0]);
        assert forall|i: int| 0 <= i < toks.skip(1).len() implies find_word(
            words,
            #[trigger] toks.skip(1)[i].text,
        ) is None by {
            assert(toks.skip(1)[i] == toks[i + 1]);
        }
        lemma_naive_no_triggers(words, probs, s.0, toks.skip(1));
        assert(naive_run(words, probs, st, toks).1 =~= Seq::<DiagView>::empty());
    }
}

/// The trigger at position `i` is satisfied: a comma token stands before it
/// with only line breaks between, or only line breaks precede it and the
/// state already carries the comma flag over from earlier input.
pub open spec fn comma_guard(st: NaiveState, toks: Seq<TokView>, i: int) -> bool {
    ||| (exists|j: int|
        0 <= j < i && toks[j].kind == PlainTextToken::Comma && (forall|m: int|
            j < m < i ==> toks[m].kind == PlainTextToken::NewLine))
    ||| ((forall|m: int| 0 <= m < i ==> toks[m].kind == PlainTextToken::NewLine)
        && st.is_last_token_comma)
}

/// When every trigger word in the input is immediately preceded by a comma
/// or semicolon, line breaks between them allowed, the backward scan emits
/// no diagnostic.
pub proof fn lemma_naive_comma_satisfied(
    words: Seq<Seq<char>>,
    probs: Seq<u32>,
    st: NaiveState,
    toks: Seq<TokView>,
)
    requires
        forall|i: int|
            0 <= i < toks.len() && find_word(words, #[trigger] toks[i].text) is Some
                ==> comma_guard(st, toks, i),
    ensures
        naive_run(words, probs, st, toks).1 == Seq::<DiagView>::empty(),
    decreases toks.len(),
{
    if toks.len() > 0 {
        let t = toks[0];
        let s = naive_step(words, probs, st, t);
        if find_word(words, t.text) is Some {
            assert(comma_guard(st, toks, 0));
            assert(st.is_last_token_comma);
        }
        assert(s.1 =~= Seq::<DiagView>::empty());
        let rest = toks.skip(1);
        assert forall|i: int|
            0 <= i < rest.len() && find_word(words, #[trigger] rest[i].text) is Some implies
            comma_guard(s.0, rest, i) by {
            assert(rest[i] == toks[i + 1]);
            assert(comma_guard(st, toks, i + 1));
            if exists|j: int|
                0 <= j < i + 1 && toks[j].kind == PlainTextToken::Comma && (forall|m: int|
                    j < m < i + 1 ==> toks[m].kind == PlainTextToken::NewLine) {
                let j = choose|j: int|
                    0 <= j < i + 1 && toks[j].kind == PlainTextToken::Comma && (forall|m: int|
                        j < m < i + 1 ==> toks[m].kind == PlainTextToken::NewLine);
                if j >= 1 {
                    assert(rest[j - 1].kind == PlainTextToken::Comma);
                    assert forall|m: int| j - 1 < m < i implies rest[m].kind
                        == PlainTextToken::NewLine by {
                        assert(rest[m] == toks[m + 1]);
                    }
                    assert(comma_guard(s.0, rest, i));
                } else {
                    assert(t.kind == PlainTextToken::Comma);
                    assert(s.0.is_last_token_comma);
                    assert forall|m: int| 0 <= m < i implies rest[m].kind
                        == PlainTextToken::NewLine by {
                        assert(rest[m] == toks[m + 1]);
                    }
                    assert(comma_guard(s.0, rest, i));
                }
            } else {
                assert((forall|m: int| 0 <= m < i + 1 ==> toks[m].kind == PlainTextToken::NewLine)
                    && st.is_last_token_comma);
                assert(t.kind == PlainTextToken::NewLine);
                assert(s.0.is_last_token_comma == st.is_last_token_comma);
                assert forall|m: int| 0 <= m < i implies rest[m].kind == PlainTextToken::NewLine by {
                    assert(rest[m] == toks[m + 1]);
                }
                assert(comma_guard(s.0, rest, i));
            }
        }
        lemma_naive_comma_satisfied(words, probs, s.0, rest);
        assert(naive_run(words, probs, st, toks).1 =~= Seq::<DiagView>::empty());
    }
}

/// Two adjacent trigger words with no comma before them are flagged only
/// once, at the first one's position: the grammatical requirement is for a
/// comma before the first occurrence.
pub proof fn lemma_naive_adjacent_triggers(
    words: Seq<Seq<char>>,
    probs: Seq<u32>,
    st: NaiveState,
    t1: TokView,
    t2: TokView,
)
    requires
        find_word(words, t1.text) is Some,
        find_word(words, t2.text) is Some,
        !st.is_last_token_comma,
        !st.is_last_token_in_vec,
    ensures
        naive_run(words, probs, st, seq![t1, t2]).1.len() == 1,
        naive_run(words, probs, st, seq![t1, t2]).1[0].row == st.row,
        naive_run(words, probs, st, seq![t1, t2]).1[0].col == st.col,
        find_word(words, t1.text) matches Some(p) ==> naive_run(words, probs, st, seq![t1, t2]).1[0]
            == (DiagView { row: st.row, col: st.col, msg: naive_msg(words[p]), prob: probs[p] as int }),
{
    let toks = seq![t1, t2];
    let s1 = naive_step(words, probs, st, t1);
    assert(toks[0] == t1);
    assert(toks.skip(1) =~= seq![t2]);
    assert(s1.0.is_last_token_in_vec);
    let s2 = naive_step(words, probs, s1.0, t2);
    assert(seq![t2][0] == t2);
    assert(seq![t2].skip(1) =~= Seq::<TokView>::empty());
    assert(s2.1 =~= Seq::<DiagView>::empty());
    assert(naive_run(words, probs, s2.0, Seq::<TokView>::empty()).1 == Seq::<DiagView>::empty());
    assert(naive_run(words, probs, s1.0, seq![t2]).1 =~= s2.1 + naive_run(
        words,
        probs,
        s2.0,
        seq![t2].skip(1),
    ).1);
    assert(naive_run(words, probs, s1.0, seq![t2]).1 =~= Seq::<DiagView>::empty());
    assert(naive_run(words, probs, st, toks).1 =~= s1.1);
}

/// A scan over a concatenation is the scan over the first part followed by
/// the scan over the second, from the state the first part left behind.
pub proof fn lemma_naive_run_append(
    words: Seq<Seq<char>>,
    probs: Seq<u32>,
    st: NaiveState,
    a: Seq<TokView>,
    b: Seq<TokView>,
)
    ensures
        naive_run(words, probs, st, a + b).0 == naive_run(
            words,
            probs,
            naive_run(words, probs, st, a).0,
            b,
        ).0,
        naive_run(words, probs, st, a + b).1 == naive_run(words, probs, st, a).1 + naive_run(
            words,
            probs,
            naive_run(words, probs, st, a).0,
            b,
        ).1,
    decreases a.len(),
{
    if a.len() == 0 {
        assert(a + b =~= b);
        assert(naive_run(words, probs, st, a) == (st, Seq::<DiagView>::empty()));
        assert(Seq::<DiagView>::empty() + naive_run(words, probs, st, b).1 =~= naive_run(
            words,
            probs,
            st,
            b,
        ).1);
    } else {
        let s = naive_step(words, probs, st, a[0]);
        assert((a + b)[0] == a[0]);
        assert((a + b).skip(1) =~= a.skip(1) + b);
        lemma_naive_run_append(words, probs, s.0, a.skip(1), b);
        assert(naive_run(words, probs, st, a + b).1 =~= naive_run(words, probs, st, a).1
            + naive_run(words, probs, naive_run(words, probs, st, a).0, b).1);
    }
}

/// The adjacency suppression inside an arbitrary stream: wherever two
/// adjacent trigger words stand, with the scan arriving there carrying
/// neither the comma flag nor the trigger flag, the pair contributes
/// exactly one diagnostic, at the first word's position, between the
/// diagnostics of what stands before and after.
pub proof fn lemma_naive_adjacent_triggers_in_stream(
    words: Seq<Seq<char>>,
    probs: Seq<u32>,
    st: NaiveState,
    a: Seq<TokView>,
    t1: TokView,
    t2: TokView,
    b: Seq<TokView>,
)
    requires
        find_word(words, t1.text) is Some,
        find_word(words, t2.text) is Some,
        !naive_run(words, probs, st, a).0.is_last_token_comma,
        !naive_run(words, probs, st, a).0.is_last_token_in_vec,
    ensures
        naive_run(words, probs, st, a + seq![t1, t2] + b).1 == naive_run(words, probs, st, a).1
            + naive_run(words, probs, naive_run(words, probs, st, a).0, seq![t1, t2]).1
            + naive_run(
            words,
            probs,
            naive_run(words, probs, naive_run(words, probs, st, a).0, seq![t1, t2]).0,
            b,
        ).1,
        naive_run(words, probs, naive_run(words, probs, st, a).0, seq![t1, t2]).1.len() == 1,
        naive_run(words, probs, naive_run(words, probs, st, a).0, seq![t1, t2]).1[0].row
            == naive_run(words, probs, st, a).0.row,
        naive_run(words, probs, naive_run(words, probs, st, a).0, seq![t1, t2]).1[0].col
            == naive_run(words, probs, st, a).0.col,
{
    let mid = naive_run(words, probs, st, a).0;
    lemma_naive_run_append(words, probs, st, a + seq![t1, t2], b);
    lemma_naive_run_append(words, probs, st, a, seq![t1, t2]);
    lemma_naive_adjacent_triggers(words, probs, mid, t1, t2);
}

/// The cursor a scan leaves behind, in closed form: the row advances by
/// exactly the number of line breaks consumed, and the column is the entry
/// column plus the consumed width when no line break came, else 1 plus the
/// width of the tokens after the last line break.
pub proof fn lemma_naive_cursor_closed_form(
    words: Seq<Seq<char>>,
    probs: Seq<u32>,
    st: NaiveState,
    toks: Seq<TokView>,
)
    ensures
        naive_run(words, probs, st, toks).0.row == st.row + crate::cursor::newline_count(toks),
        crate::cursor::newline_count(toks) == 0 ==> naive_run(words, probs, st, toks).0.col
            == st.col + scan_width(toks),
        crate::cursor::newline_count(toks) > 0 ==> naive_run(words, probs, st, toks).0.col == 1
            + scan_width(crate::cursor::since_last_break(toks)),
    decreases toks.len(),
{
    if toks.len() > 0 {
        let a = toks.drop_last();
        let t = toks.last();
        assert(toks =~= a + seq![t]);
        lemma_naive_run_append(words, probs, st, a, seq![t]);
        lemma_naive_cursor_closed_form(words, probs, st, a);
        crate::cursor::lemma_newline_count_nonneg(a);
        crate::cursor::lemma_newline_count_push(a, t);
        crate::cursor::lemma_scan_width_push(a, t);
        crate::cursor::lemma_scan_width_push(crate::cursor::since_last_break(a), t);
        lemma_scan_width_nonneg(crate::cursor::since_last_break(a));
        let m = naive_run(words, probs, st, a).0;
        let s = naive_step(words, probs, m, t);
        assert(seq![t][0] == t);
        assert(seq![t].skip(1).len() == 0);
        assert(naive_run(words, probs, s.0, seq![t].skip(1)).0 == s.0);
        assert(naive_run(words, probs, m, seq![t]).0 == s.0);
        assert(a.push(t) =~= toks);
        assert(crate::cursor::newline_count(a.push(t)) == crate::cursor::newline_count(toks));
        assert(crate::cursor::scan_width(a.push(t)) == scan_width(toks));
        if t.kind != PlainTextToken::NewLine {
            assert(crate::cursor::since_last_break(toks) == crate::cursor::since_last_break(
                a,
            ).push(t));
            assert(crate::cursor::scan_width(crate::cursor::since_last_break(a).push(t))
                == scan_width(crate::cursor::since_last_break(toks)));
        } else {
            assert(crate::cursor::since_last_break(toks).len() == 0);
            assert(scan_width(crate::cursor::since_last_break(toks)) == 0);
        }
    }
}

/// Scanning two independently produced token sequences of the same text
/// yields identical diagnostics, in order and content: the token sequence
/// and the scan are functions of the text alone.
pub proof fn lemma_naive_repeatable(
    words: Seq<Seq<char>>,
    probs: Seq<u32>,
    st: NaiveState,
    text: Seq<char>,
    t1: Seq<TokView>,
    t2: Seq<TokView>,
)
    requires
        t1 == crate::model::lex(text),
        t2 == crate::model::lex(text),
    ensures
        naive_run(words, probs, st, t1) == naive_run(words, probs, st, t2),
{
}

/// Detects a missing comma before the given words. These words are generally
/// preceded by a comma, though for most of them there are exceptions, which
/// the rule's confidence accounts for.
///
/// Exception: of two trigger words immediately after each other, the second
/// one does not require a comma before it (the first one still does).
pub struct NaiveDetector {
    pub settings: NaiveSettings,
    pub status: NaiveStatus,
}

impl NaiveDetector {
    pub open spec fn wf(&self) -> bool {
        self.settings.wf()
    }

    pub open spec fn spec_words(&self) -> Seq<Seq<char>> {
        strs_view(self.settings.words@)
    }

    pub open spec fn spec_probs(&self) -> Seq<u32> {
        self.settings.probs@
    }

    pub fn new(settings: NaiveSettings) -> (r: NaiveDetector)
        ensures
            r.settings == settings,
            r.status@ == init_naive_state(),
    {
        NaiveDetector { settings, status: NaiveStatus::new() }
    }

    /// Move the cursor over `token`: forward by its code-point count plus
    /// one, then to the head of the next row if it was a line break.
    fn move_cursor_forward(&mut self, token: &LexedToken)
        requires
            old(self).status.col + token.text@.len() + 1 <= usize::MAX,
            old(self).status.row + 1 <= usize::MAX,
        ensures
            final(self).settings == old(self).settings,
            final(self).status.is_last_token_comma == old(self).status.is_last_token_comma,
            final(self).status.is_last_token_in_vec == old(self).status.is_last_token_in_vec,
            (final(self).status@.row, final(self).status@.col) == advance_cursor(
                old(self).status@.row,
                old(self).status@.col,
                tok_view(*token),
            ),
    {
        self.status.col = self.status.col + token.text.as_str().unicode_len() + 1;
        if token.kind == PlainTextToken::NewLine {
            self.status.col = 1;
            self.status.row = self.status.row + 1;
        }
    }

    /// The diagnostic for the trigger word at index `pos`, at the current
    /// cursor position.
    fn get_mistake_for_word(&self, pos: usize) -> (r: (usize, usize, Mistake))
        requires
            self.wf(),
            pos < self.settings.words@.len(),
        ensures
            diag_view(r) == (DiagView {
                row: self.status@.row,
                col: self.status@.col,
                msg: naive_msg(self.spec_words()[pos as int]),
                prob: self.spec_probs()[pos as int] as int,
            }),
    {
        let mut msg = String::from_str("a(z) \"");
        msg.append(self.settings.words[pos].as_str());
        msg.append("\" szó elé általában vesszőt teszünk.");
        (self.status.row, self.status.col, Mistake::new_dyn(msg, self.settings.probs[pos]))
    }

    /// Scan a whole document: reset the state, then scan `tokens`.
    pub fn detect_errors(&mut self, tokens: &Vec<LexedToken>) -> (r: Vec<(usize, usize, Mistake)>)
        requires
            old(self).wf(),
            1 + scan_width(tok_views(tokens@)) <= usize::MAX,
            tokens@.len() + 2 <= usize::MAX,
        ensures
            final(self).wf(),
            final(self).settings == old(self).settings,
            diag_views(r@) == naive_run(
                old(self).spec_words(),
                old(self).spec_probs(),
                init_naive_state(),
                tok_views(tokens@),
            ).1,
            final(self).status@ == naive_row_bumped(
                naive_run(
                    old(self).spec_words(),
                    old(self).spec_probs(),
                    init_naive_state(),
                    tok_views(tokens@),
                ).0,
            ),
    {
        self.status = NaiveStatus::new();
        self.detect_errors_in_row(tokens)
    }

    /// Scan one chunk, continuing the cursor and the flags of an ongoing
    /// scan; afterwards the row is moved past the end of the chunk.
    pub fn detect_errors_in_row(&mut self, tokens: &Vec<LexedToken>) -> (r: Vec<(usize, usize, Mistake)>)
        requires
            old(self).wf(),
            old(self).status.col + scan_width(tok_views(tokens@)) <= usize::MAX,
            old(self).status.row + tokens@.len() + 1 <= usize::MAX,
        ensures
            final(self).wf(),
            final(self).settings == old(self).settings,
            diag_views(r@) == naive_run(
                old(self).spec_words(),
                old(self).spec_probs(),
                old(self).status@,
                tok_views(tokens@),
            ).1,
            final(self).status@ == naive_row_bumped(
                naive_run(
                    old(self).spec_words(),
                    old(self).spec_probs(),
                    old(self).status@,
                    tok_views(tokens@),
                ).0,
            ),
    {
        let ghost words = self.spec_words();
        let ghost probs = self.spec_probs();
        let ghost tv = tok_views(tokens@);
        let ghost full = naive_run(words, probs, self.status@, tv);
        let ghost settings0 = self.settings;

        let mut errors: Vec<(usize, usize, Mistake)> = Vec::new();
        let mut i: usize = 0;
        proof {
            assert(tv.skip(0) =~= tv);
            assert(diag_views(errors@) + full.1 =~= full.1);
        }
        while i < tokens.len()
            invariant
                self.wf(),
                self.settings == settings0,
                words == strs_view(self.settings.words@),
                probs == self.settings.probs@,
                tv == tok_views(tokens@),
                i <= tokens@.len(),
                naive_run(words, probs, self.status@, tv.skip(i as int)).0 == full.0,
                diag_views(errors@) + naive_run(words, probs, self.status@, tv.skip(i as int)).1
                    == full.1,
                self.status.col + scan_width(tv.skip(i as int)) <= usize::MAX,
                self.status.row + (tokens@.len() - i) + 1 <= usize::MAX,
            decreases tokens@.len() - i,
        {
            let ghost st_i = self.status@;
            let ghost rest = tv.skip(i as int);
            proof {
                assert(rest[0] == tv[i as int]);
                assert(rest.skip(1) =~= tv.skip(i + 1));
                assert(scan_width(rest) == rest[0].text.len() + 1 + scan_width(rest.skip(1)));
                crate::cursor::lemma_scan_width_nonneg(rest.skip(1));
            }
            let tok = &tokens[i];
            proof {
                assert(tok_view(*tok) == tv[i as int]);
            }
            let index = position_of(&self.settings.words, &tok.text);

            if !self.status.is_last_token_comma && !self.status.is_last_token_in_vec {
                if let Some(pos) = index {
                    let d = self.get_mistake_for_word(pos);
                    proof {
                        lemma_diag_views_push(errors@, d);
                    }
                    errors.push(d);
                }
            }

            self.move_cursor_forward(tok);

            self.status.is_last_token_in_vec = index.is_some();
            if tok.kind != PlainTextToken::NewLine {
                self.status.is_last_token_comma = tok.kind == PlainTextToken::Comma;
            }

            proof {
                let step = naive_step(words, probs, st_i, tv[i as int]);
                assert(self.status@ == step.0);
                assert(naive_run(words, probs, st_i, rest) == (
                    naive_run(words, probs, step.0, rest.skip(1)).0,
                    step.1 + naive_run(words, probs, step.0, rest.skip(1)).1,
                ));
                assert(diag_views(errors@) + naive_run(
                    words,
                    probs,
                    self.status@,
                    tv.skip(i + 1),
                ).1 =~= full.1);
            }
            i += 1;
        }
        proof {
            assert(tv.skip(i as int) =~= Seq::<TokView>::empty());
            assert(diag_views(errors@) + Seq::<DiagView>::empty() =~= diag_views(errors@));
        }
        self.status.row = self.status.row + 1;
        errors
    }
}

} // verus!
