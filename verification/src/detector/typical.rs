//! The sentence-aggregate detector: flags trigger words that occurred
//! anywhere in a sentence that ended without any comma appearing in it.
//!
//! Lookup is on lowercased token text. One "seen" flag per rule records any
//! occurrence of its word in the current sentence, and one flag records
//! whether a comma was seen. At the sentence end, if no comma was seen, one
//! diagnostic is emitted per seen rule, positioned at the end of the
//! sentence (not at the trigger occurrence: an accepted imprecision); then
//! all flags are cleared for the next sentence.

use vstd::prelude::*;

use crate::cursor::advance_cursor;
use crate::cursor::lemma_scan_width_nonneg;
use crate::cursor::scan_width;
use crate::model::DiagView;
use crate::model::LexedToken;
use crate::model::Mistake;
use crate::model::PlainTextToken;
use crate::model::TokView;
use crate::model::TypicalSettings;
use crate::model::diag_view;
use crate::model::diag_views;
use crate::model::lemma_diag_views_push;
use crate::model::tok_view;
use crate::model::tok_views;
use crate::strutil::find_word;
use crate::strutil::lower_of;
use crate::strutil::position_of;
use crate::strutil::strs_view;
use crate::strutil::to_lower;

verus! {

/// The mathematical image of a scan state.
pub ghost struct TypicalState {
    pub row: int,
    pub col: int,
    pub word_active: Seq<bool>,
    pub comma_active: bool,
}

/// The state of a running scan: the cursor, one "seen" flag per rule, and
/// whether a comma was seen in the current sentence.
pub struct TypicalStatus {
    pub col: usize,
    pub row: usize,
    pub word_active: Vec<bool>,
    pub comma_active: bool,
}

impl View for TypicalStatus {
    type V = TypicalState;

    open spec fn view(&self) -> TypicalState {
        TypicalState {
            row: self.row as int,
            col: self.col as int,
            word_active: self.word_active@,
            comma_active: self.comma_active,
        }
    }
}

/// The state at the start of a document: cursor at (1, 1), nothing seen.
pub open spec fn init_typical_state(rules: int) -> TypicalState {
    TypicalState {
        row: 1,
        col: 1,
        word_active: Seq::new(rules as nat, |i: int| false),
        comma_active: false,
    }
}

impl TypicalStatus {
    pub fn new(words_len: usize) -> (r: TypicalStatus)
        ensures
            r@ == init_typical_state(words_len as int),
    {
        let mut flags: Vec<bool> = Vec::new();
        let mut k: usize = 0;
        while k < words_len
            invariant
                k <= words_len,
                flags@.len() == k,
                forall|i: int| 0 <= i < k ==> !flags@[i],
            decreases words_len - k,
        {
            flags.push(false);
            k += 1;
        }
        proof {
            assert(flags@ =~= Seq::new(words_len as nat, |i: int| false));
        }
        TypicalStatus { col: 1, row: 1, word_active: flags, comma_active: false }
    }
}

/// The message attached to a sentence-aggregate violation.
pub open spec fn typical_msg(w: Seq<char>) -> Seq<char> {
    "mondatokba, melyekben szerepel a(z) \""@ + w + "\" szó, gyakran teszünk vesszőt."@
}

/// The diagnostics emitted at a comma-less sentence end for the rules from
/// index `k` on: one per seen rule, in rule order, at the position of the
/// sentence end.
pub open spec fn typical_emits(
    words: Seq<Seq<char>>,
    probs: Seq<u32>,
    active: Seq<bool>,
    row: int,
    col: int,
    k: int,
) -> Seq<DiagView>
    decreases active.len() - k,
{
    if k < 0 || k >= active.len() {
        Seq::empty()
    } else {
        let here = if active[k] {
            seq![
                DiagView { row, col, msg: typical_msg(words[k]), prob: probs[k] as int },
            ]
        } else {
            Seq::empty()
        };
        here + typical_emits(words, probs, active, row, col, k + 1)
    }
}

/// One scan step: at a sentence end with no comma seen, emit for every seen
/// rule; advance the cursor; record the token's own word; set the comma flag
/// on a comma, and clear everything at a sentence end.
pub open spec fn typical_step(
    words: Seq<Seq<char>>,
    probs: Seq<u32>,
    st: TypicalState,
    t: TokView,
) -> (TypicalState, Seq<DiagView>) {
    let lw = lower_of(t.text);
    let emitted = if t.kind == PlainTextToken::EndOfSentence && !st.comma_active {
        typical_emits(words, probs, st.word_active, st.row, st.col, 0)
    } else {
        Seq::empty()
    };
    let pos = advance_cursor(st.row, st.col, t);
    let active1 = match find_word(words, lw) {
        Some(p) => st.word_active.update(p, true),
        None => st.word_active,
    };
    let comma1 = if t.kind == PlainTextToken::Comma {
        true
    } else {
        st.comma_active
    };
    let st2 = if t.kind == PlainTextToken::EndOfSentence {
        TypicalState {
            row: pos.0,
            col: pos.1,
            word_active: Seq::new(active1.len(), |i: int| false),
            comma_active: false,
        }
    } else {
        TypicalState { row: pos.0, col: pos.1, word_active: active1, comma_active: comma1 }
    };
    (st2, emitted)
}

/// A whole scan over `toks` from state `st`: the final state and every
/// diagnostic emitted, in token order.
pub open spec fn typical_run(
    words: Seq<Seq<char>>,
    probs: Seq<u32>,
    st: TypicalState,
    toks: Seq<TokView>,
) -> (TypicalState, Seq<DiagView>)
    decreases toks.len(),
{
    if toks.len() == 0 {
        (st, Seq::empty())
    } else {
        let s = typical_step(words, probs, st, toks[0]);
        let r = typical_run(words, probs, s.0, toks.skip(1));
        (r.0, s.1 + r.1)
    }
}

/// A sentence end reports nothing for rules that were not seen.
pub proof fn lemma_typical_emits_unseen(
    words: Seq<Seq<char>>,
    probs: Seq<u32>,
    active: Seq<bool>,
    row: int,
    col: int,
    k: int,
)
    requires
        forall|q: int| 0 <= q < active.len() ==> !active[q],
    ensures
        typical_emits(words, probs, active, row, col, k) == Seq::<DiagView>::empty(),
    decreases active.len() - k,
{
    if 0 <= k < active.len() {
        lemma_typical_emits_unseen(words, probs, active, row, col, k + 1);
        assert(typical_emits(words, probs, active, row, col, k) =~= Seq::<DiagView>::empty());
    }
}

/// With no trigger word anywhere in the input and no rule seen yet, the
/// sentence-aggregate scan emits no diagnostic.
pub proof fn lemma_typical_no_triggers(
    words: Seq<Seq<char>>,
    probs: Seq<u32>,
    st: TypicalState,
    toks: Seq<TokView>,
)
    requires
        forall|q: int| 0 <= q < st.word_active.len() ==> !st.word_active[q],
        forall|i: int|
            0 <= i < toks.len() ==> find_word(words, lower_of(#[trigger] toks[i].text)) is None,
    ensures
        typical_run(words, probs, st, toks).1 == Seq::<DiagView>::empty(),
    decreases toks.len(),
{
    if toks.len() > 0 {
        let t = toks[0];
        let s = typical_step(words, probs, st, t);
        lemma_typical_emits_unseen(words, probs, st.word_active, st.row, st.col, 0);
        assert forall|q: int| 0 <= q < s.0.word_active.len() implies !s.0.word_active[q] by {}
        assert forall|i: int| 0 <= i < toks.skip(1).len() implies find_word(
            words,
            lower_of(#[trigger] toks.skip(1)[i].text),
        ) is None by {
            assert(toks.skip(1)[i] == toks[i + 1]);
        }
        lemma_typical_no_triggers(words, probs, s.0, toks.skip(1));
        assert(typical_run(words, probs, st, toks).1 =~= Seq::<DiagView>::empty());
    }
}

/// A scan over a concatenation is the scan over the first part followed by
/// the scan over the second, from the state the first part left behind.
pub proof fn lemma_typical_run_append(
    words: Seq<Seq<char>>,
    probs: Seq<u32>,
    st: TypicalState,
    a: Seq<TokView>,
    b: Seq<TokView>,
)
    ensures
        typical_run(words, probs, st, a + b).0 == typical_run(
            words,
            probs,
            typical_run(words, probs, st, a).0,
            b,
        ).0,
        typical_run(words, probs, st, a + b).1 == typical_run(words, probs, st, a).1
            + typical_run(words, probs, typical_run(words, probs, st, a).0, b).1,
    decreases a.len(),
{
    if a.len() == 0 {
        assert(a + b =~= b);
        assert(typical_run(words, probs, st, a) == (st, Seq::<DiagView>::empty()));
        assert(Seq::<DiagView>::empty() + typical_run(words, probs, st, b).1 =~= typical_run(
            words,
            probs,
            st,
            b,
        ).1);
    } else {
        let s = typical_step(words, probs, st, a[0]);
        assert((a + b)[0] == a[0]);
        assert((a + b).skip(1) =~= a.skip(1) + b);
        lemma_typical_run_append(words, probs, s.0, a.skip(1), b);
        assert(typical_run(words, probs, st, a + b).1 =~= typical_run(words, probs, st, a).1
            + typical_run(words, probs, typical_run(words, probs, st, a).0, b).1);
    }
}

/// Whether rule `p`'s word occurs, lowercased, anywhere in `toks`.
pub open spec fn seen_in(words: Seq<Seq<char>>, toks: Seq<TokView>, p: int) -> bool {
    exists|m: int|
        0 <= m < toks.len() && find_word(words, lower_of(#[trigger] toks[m].text)) == Some(p)
}

/// Whether a comma token occurs anywhere in `toks`.
pub open spec fn comma_in(toks: Seq<TokView>) -> bool {
    exists|m: int| 0 <= m < toks.len() && (#[trigger] toks[m]).kind == PlainTextToken::Comma
}

/// Over a chunk with no sentence end, the scan emits nothing; the seen
/// flags accumulate exactly the words that occurred, and the comma flag
/// records whether any comma occurred.
pub proof fn lemma_typical_prefix(
    words: Seq<Seq<char>>,
    probs: Seq<u32>,
    st: TypicalState,
    toks: Seq<TokView>,
)
    requires
        st.word_active.len() == words.len(),
        forall|m: int| 0 <= m < toks.len() ==> (#[trigger] toks[m]).kind
            != PlainTextToken::EndOfSentence,
    ensures
        typical_run(words, probs, st, toks).1 == Seq::<DiagView>::empty(),
        typical_run(words, probs, st, toks).0.word_active.len() == words.len(),
        forall|p: int|
            0 <= p < words.len() ==> typical_run(words, probs, st, toks).0.word_active[p] == (
            st.word_active[p] || seen_in(words, toks, p)),
        typical_run(words, probs, st, toks).0.comma_active == (st.comma_active || comma_in(toks)),
    decreases toks.len(),
{
    if toks.len() > 0 {
        let t = toks[0];
        let s = typical_step(words, probs, st, t);
        let rest = toks.skip(1);
        assert(s.1 =~= Seq::<DiagView>::empty());
        crate::strutil::lemma_find_word(words, lower_of(t.text));
        assert(s.0.word_active.len() == words.len());
        lemma_typical_prefix(words, probs, s.0, rest);
        let fin = typical_run(words, probs, st, toks).0;
        assert(typical_run(words, probs, st, toks).1 =~= Seq::<DiagView>::empty());
        assert forall|p: int| 0 <= p < words.len() implies fin.word_active[p] == (
        st.word_active[p] || seen_in(words, toks, p)) by {
            crate::strutil::lemma_find_word(words, lower_of(t.text));
            if fin.word_active[p] {
                if s.0.word_active[p] {
                    if !st.word_active[p] {
                        assert(find_word(words, lower_of(toks[0].text)) == Some(p));
                        assert(seen_in(words, toks, p));
                    }
                } else {
                    let m = choose|m: int|
                        0 <= m < rest.len() && find_word(words, lower_of(#[trigger] rest[m].text))
                            == Some(p);
                    assert(rest[m] == toks[m + 1]);
                    assert(seen_in(words, toks, p));
                }
            }
            if st.word_active[p] {
                assert(s.0.word_active[p]);
                assert(typical_run(words, probs, s.0, rest).0.word_active[p] == (
                s.0.word_active[p] || seen_in(words, rest, p)));
                assert(fin.word_active[p]);
            }
            if seen_in(words, toks, p) {
                let m = choose|m: int|
                    0 <= m < toks.len() && find_word(words, lower_of(#[trigger] toks[m].text))
                        == Some(p);
                if m == 0 {
                    assert(s.0.word_active[p]);
                    assert(fin.word_active[p]);
                } else {
                    assert(rest[m - 1] == toks[m]);
                    assert(seen_in(words, rest, p));
                    assert(fin.word_active[p]);
                }
            }
        }
        assert(fin.comma_active == (st.comma_active || comma_in(toks))) by {
            if fin.comma_active {
                if !s.0.comma_active {
                    let m = choose|m: int|
                        0 <= m < rest.len() && (#[trigger] rest[m]).kind == PlainTextToken::Comma;
                    assert(rest[m] == toks[m + 1]);
                    assert(comma_in(toks));
                } else if !st.comma_active {
                    assert(toks[0].kind == PlainTextToken::Comma);
                    assert(comma_in(toks));
                }
            }
            if comma_in(toks) {
                let m = choose|m: int|
                    0 <= m < toks.len() && (#[trigger] toks[m]).kind == PlainTextToken::Comma;
                if m == 0 {
                    assert(s.0.comma_active);
                } else {
                    assert(rest[m - 1] == toks[m]);
                    assert(comma_in(rest));
                }
            }
        }
    }
}

/// A sentence that contains no comma reports, at its terminal punctuation,
/// exactly the rules whose words occurred in it, in rule order, positioned
/// at the end of the sentence.
pub proof fn lemma_typical_sentence_no_comma(
    words: Seq<Seq<char>>,
    probs: Seq<u32>,
    st: TypicalState,
    body: Seq<TokView>,
    end: TokView,
)
    requires
        st.word_active.len() == words.len(),
        forall|q: int| 0 <= q < st.word_active.len() ==> !st.word_active[q],
        !st.comma_active,
        forall|m: int| 0 <= m < body.len() ==> (#[trigger] body[m]).kind
            != PlainTextToken::EndOfSentence,
        !comma_in(body),
        end.kind == PlainTextToken::EndOfSentence,
    ensures
        typical_run(words, probs, st, body.push(end)).1 == typical_emits(
            words,
            probs,
            Seq::new(words.len() as nat, |p: int| seen_in(words, body, p)),
            typical_run(words, probs, st, body).0.row,
            typical_run(words, probs, st, body).0.col,
            0,
        ),
{
    lemma_typical_prefix(words, probs, st, body);
    let mid = typical_run(words, probs, st, body).0;
    assert(body.push(end) =~= body + seq![end]);
    lemma_typical_run_append(words, probs, st, body, seq![end]);
    let s = typical_step(words, probs, mid, end);
    assert(seq![end][0] == end);
    assert(seq![end].skip(1) =~= Seq::<TokView>::empty());
    assert(typical_run(words, probs, s.0, seq![end].skip(1)).1 =~= Seq::<DiagView>::empty());
    assert(s.1 + Seq::<DiagView>::empty() =~= s.1);
    assert(typical_run(words, probs, mid, seq![end]).1 =~= s.1);
    assert(!mid.comma_active);
    assert(mid.word_active =~= Seq::new(words.len() as nat, |p: int| seen_in(words, body, p)));
    assert(typical_run(words, probs, st, body + seq![end]).1 =~= s.1);
}

/// A sentence with a comma anywhere in it reports nothing at its end.
pub proof fn lemma_typical_sentence_with_comma(
    words: Seq<Seq<char>>,
    probs: Seq<u32>,
    st: TypicalState,
    body: Seq<TokView>,
    end: TokView,
)
    requires
        st.word_active.len() == words.len(),
        forall|m: int| 0 <= m < body.len() ==> (#[trigger] body[m]).kind
            != PlainTextToken::EndOfSentence,
        comma_in(body),
        end.kind == PlainTextToken::EndOfSentence,
    ensures
        typical_run(words, probs, st, body.push(end)).1 == Seq::<DiagView>::empty(),
{
    lemma_typical_prefix(words, probs, st, body);
    let mid = typical_run(words, probs, st, body).0;
    assert(body.push(end) =~= body + seq![end]);
    lemma_typical_run_append(words, probs, st, body, seq![end]);
    let s = typical_step(words, probs, mid, end);
    assert(seq![end][0] == end);
    assert(seq![end].skip(1) =~= Seq::<TokView>::empty());
    assert(typical_run(words, probs, s.0, seq![end].skip(1)).1 =~= Seq::<DiagView>::empty());
    assert(s.1 + Seq::<DiagView>::empty() =~= s.1);
    assert(typical_run(words, probs, mid, seq![end]).1 =~= s.1);
    assert(mid.comma_active);
    assert(s.1 =~= Seq::<DiagView>::empty());
    assert(typical_run(words, probs, st, body + seq![end]).1 =~= Seq::<DiagView>::empty());
}

/// Scanning two independently produced token sequences of the same text
/// yields identical diagnostics, in order and content: the token sequence
/// and the scan are functions of the text alone.
pub proof fn lemma_typical_repeatable(
    words: Seq<Seq<char>>,
    probs: Seq<u32>,
    st: TypicalState,
    text: Seq<char>,
    t1: Seq<TokView>,
    t2: Seq<TokView>,
)
    requires
        t1 == crate::model::lex(text),
        t2 == crate::model::lex(text),
    ensures
        typical_run(words, probs, st, t1) == typical_run(words, probs, st, t2),
{
}

/// Detects a missing comma in a sentence that contains a word which
/// typically introduces a clause.
///
/// Example: Reméljük, nem esett baja. (there is an implicit "hogy")
pub struct TypicalDetector {
    pub settings: TypicalSettings,
    pub status: TypicalStatus,
}

impl TypicalDetector {
    pub open spec fn wf(&self) -> bool {
        &&& self.settings.wf()
        &&& self.status.word_active@.len() == self.settings.words@.len()
    }

    pub open spec fn spec_words(&self) -> Seq<Seq<char>> {
        strs_view(self.settings.words@)
    }

    pub open spec fn spec_probs(&self) -> Seq<u32> {
        self.settings.probs@
    }

    pub fn new(settings: TypicalSettings) -> (r: TypicalDetector)
        ensures
            r.settings == settings,
            r.status@ == init_typical_state(settings.words@.len() as int),
    {
        let status = TypicalStatus::new(settings.words.len());
        TypicalDetector { status, settings }
    }

    /// Move the cursor over `token`: forward by its code-point count plus
    /// one, then to the head of the next row if it was a line break.
    fn move_cursor_forward(&mut self, token: &LexedToken)
        requires
            old(self).status.col + token.text@.len() + 1 <= usize::MAX,
            old(self).status.row + 1 <= usize::MAX,
        ensures
            final(self).settings == old(self).settings,
            final(self).status.word_active == old(self).status.word_active,
            final(self).status.comma_active == old(self).status.comma_active,
            (final(self).status@.row, final(self).status@.col) == advance_cursor(
                old(self).status@.row,
                old(self).status@.col,
                tok_view(*token),
            ),
    {
        self.status.col = self.status.col + token.text.as_str().unicode_len() + 1;
        if token.kind == PlainTextToken::NewLine {
            self.status.col = 1;
            self.status.row = self.status.row + 1;
        }
    }

    /// The diagnostic for the seen word at index `pos1`, at the current
    /// cursor position.
    fn get_mistake_for_word(&self, pos1: usize) -> (r: (usize, usize, Mistake))
        requires
            self.wf(),
            pos1 < self.settings.words@.len(),
        ensures
            diag_view(r) == (DiagView {
                row: self.status@.row,
                col: self.status@.col,
                msg: typical_msg(self.spec_words()[pos1 as int]),
                prob: self.spec_probs()[pos1 as int] as int,
            }),
    {
        let mut msg = String::from_str("mondatokba, melyekben szerepel a(z) \"");
        msg.append(self.settings.words[pos1].as_str());
        msg.append("\" szó, gyakran teszünk vesszőt.");
        (self.status.row, self.status.col, Mistake::new_dyn(msg, self.settings.probs[pos1]))
    }

    /// Record that `word` was seen, if it is a trigger word.
    fn set_active_word(&mut self, word: &String)
        requires
            old(self).wf(),
        ensures
            final(self).wf(),
            final(self).settings == old(self).settings,
            final(self).status.col == old(self).status.col,
            final(self).status.row == old(self).status.row,
            final(self).status.comma_active == old(self).status.comma_active,
            final(self).status@.word_active == (match find_word(
                old(self).spec_words(),
                word@,
            ) {
                Some(p) => old(self).status@.word_active.update(p, true),
                None => old(self).status@.word_active,
            }),
    {
        let index = position_of(&self.settings.words, word);
        if let Some(pos) = index {
            self.status.word_active.set(pos, true);
        }
    }

    /// Scan a whole document: reset the state, then scan `tokens`.
    pub fn detect_errors(&mut self, tokens: &Vec<LexedToken>) -> (r: Vec<(usize, usize, Mistake)>)
        requires
            old(self).settings.wf(),
            1 + scan_width(tok_views(tokens@)) <= usize::MAX,
            tokens@.len() + 2 <= usize::MAX,
        ensures
            final(self).wf(),
            final(self).settings == old(self).settings,
            diag_views(r@) == typical_run(
                old(self).spec_words(),
                old(self).spec_probs(),
                init_typical_state(old(self).settings.words@.len() as int),
                tok_views(tokens@),
            ).1,
            final(self).status@ == typical_run(
                old(self).spec_words(),
                old(self).spec_probs(),
                init_typical_state(old(self).settings.words@.len() as int),
                tok_views(tokens@),
            ).0,
    {
        self.status = TypicalStatus::new(self.settings.words.len());
        self.detect_errors_in_row(tokens)
    }

    /// Scan one chunk, continuing the cursor and the flags of an ongoing
    /// scan. Unlike the other detectors this one does not move the row past
    /// the end of the chunk: sentences may continue across chunks.
    pub fn detect_errors_in_row(&mut self, tokens: &Vec<LexedToken>) -> (r: Vec<(usize, usize, Mistake)>)
        requires
            old(self).wf(),
            old(self).status.col + scan_width(tok_views(tokens@)) <= usize::MAX,
            old(self).status.row + tokens@.len() <= usize::MAX,
        ensures
            final(self).wf(),
            final(self).settings == old(self).settings,
            diag_views(r@) == typical_run(
                old(self).spec_words(),
                old(self).spec_probs(),
                old(self).status@,
                tok_views(tokens@),
            ).1,
            final(self).status@ == typical_run(
                old(self).spec_words(),
                old(self).spec_probs(),
                old(self).status@,
                tok_views(tokens@),
            ).0,
    {
        let ghost words = self.spec_words();
        let ghost probs = self.spec_probs();
        let ghost tv = tok_views(tokens@);
        let ghost full = typical_run(words, probs, self.status@, tv);
        let ghost settings0 = self.settings;

        let mut errors: Vec<(usize, usize, Mistake)> = Vec::new();
        let mut i: usize = 0;
        proof {
            assert(tv.skip(0) =~= tv);
            assert(diag_views(errors@) + full.1 =~= full.1);
        }
        while i < tokens.len()
            invariant
                self.wf(),
                self.settings == settings0,
                words == strs_view(self.settings.words@),
                probs == self.settings.probs@,
                tv == tok_views(tokens@),
                i <= tokens@.len(),
                typical_run(words, probs, self.status@, tv.skip(i as int)).0 == full.0,
                diag_views(errors@) + typical_run(
                    words,
                    probs,
                    self.status@,
                    tv.skip(i as int),
                ).1 == full.1,
                self.status.col + scan_width(tv.skip(i as int)) <= usize::MAX,
                self.status.row + (tokens@.len() - i) <= usize::MAX,
            decreases tokens@.len() - i,
        {
            let ghost st_i = self.status@;
            let ghost rest = tv.skip(i as int);
            proof {
                assert(rest[0] == tv[i as int]);
                assert(rest.skip(1) =~= tv.skip(i + 1));
                assert(scan_width(rest) == rest[0].text.len() + 1 + scan_width(rest.skip(1)));
                lemma_scan_width_nonneg(rest.skip(1));
            }
            let tok = &tokens[i];
            proof {
                assert(tok_view(*tok) == tv[i as int]);
            }
            let lowercase = to_lower(tok.text.as_str());
            let ghost e0 = errors@;

            if tok.kind == PlainTextToken::EndOfSentence && !self.status.comma_active {
                let rules = self.status.word_active.len();
                let mut k: usize = 0;
                while k < rules
                    invariant
                        self.wf(),
                        self.settings == settings0,
                        words == strs_view(self.settings.words@),
                        probs == self.settings.probs@,
                        self.status@ == st_i,
                        rules == self.status.word_active@.len(),
                        k <= rules,
                        diag_views(errors@) + typical_emits(
                            words,
                            probs,
                            st_i.word_active,
                            st_i.row,
                            st_i.col,
                            k as int,
                        ) == diag_views(e0) + typical_emits(
                            words,
                            probs,
                            st_i.word_active,
                            st_i.row,
                            st_i.col,
                            0,
                        ),
                    decreases rules - k,
                {
                    if self.status.word_active[k] {
                        let d = self.get_mistake_for_word(k);
                        proof {
                            lemma_diag_views_push(errors@, d);
                        }
                        errors.push(d);
                    }
                    proof {
                        assert(diag_views(errors@) + typical_emits(
                            words,
                            probs,
                            st_i.word_active,
                            st_i.row,
                            st_i.col,
                            k + 1,
                        ) =~= diag_views(e0) + typical_emits(
                            words,
                            probs,
                            st_i.word_active,
                            st_i.row,
                            st_i.col,
                            0,
                        ));
                    }
                    k += 1;
                }
                proof {
                    assert(typical_emits(
                        words,
                        probs,
                        st_i.word_active,
                        st_i.row,
                        st_i.col,
                        st_i.word_active.len() as int,
                    ) =~= Seq::<DiagView>::empty());
                }
            }

            self.move_cursor_forward(tok);
            self.set_active_word(&lowercase);
            if tok.kind == PlainTextToken::Comma {
                self.status.comma_active = true;
            }
            if tok.kind == PlainTextToken::EndOfSentence {
                self.status.comma_active = false;
                let ghost st_pre = self.status@;
                let n = self.status.word_active.len();
                let mut c: usize = 0;
                while c < n
                    invariant
                        c <= n,
                        n == self.status.word_active@.len(),
                        self.settings == settings0,
                        self.status@.row == st_pre.row,
                        self.status@.col == st_pre.col,
                        self.status.comma_active == false,
                        forall|q: int| 0 <= q < c ==> !self.status.word_active@[q],
                    decreases n - c,
                {
                    self.status.word_active.set(c, false);
                    c += 1;
                }
                proof {
                    assert(self.status.word_active@ =~= Seq::new(n as nat, |q: int| false));
                }
            }

            proof {
                let step = typical_step(words, probs, st_i, tv[i as int]);
                assert(self.status@.word_active =~= step.0.word_active);
                assert(self.status@ == step.0);
                assert(typical_run(words, probs, st_i, rest) == (
                    typical_run(words, probs, step.0, rest.skip(1)).0,
                    step.1 + typical_run(words, probs, step.0, rest.skip(1)).1,
                ));
                assert(diag_views(errors@) =~= diag_views(e0) + step.1);
                assert(diag_views(errors@) + typical_run(
                    words,
                    probs,
                    self.status@,
                    tv.skip(i + 1),
                ).1 =~= full.1);
            }
            i += 1;
        }
        proof {
            assert(tv.skip(i as int) =~= Seq::<TokView>::empty());
            assert(diag_views(errors@) + Seq::<DiagView>::empty() =~= diag_views(errors@));
        }
        errors
    }
}

} // verus!
