//! The pair-trigger detector: flags a first-word/second-word correlation
//! missing its expected separating comma, where the two words may be
//! arbitrarily far apart within one sentence.
//!
//! All lookup is on lowercased token text. Each rule has its own "armed"
//! flag, set when its first word occurs; several rules may be armed at the
//! same time. While a rule is armed, a token matching one of its second
//! words yields a diagnostic. A comma, semicolon or sentence end disarms
//! every rule: the pairing requirement does not cross a sentence boundary or
//! an already-placed comma.

use vstd::prelude::*;

use crate::cursor::advance_cursor;
use crate::cursor::lemma_scan_width_nonneg;
use crate::cursor::scan_width;
use crate::model::DiagView;
use crate::model::LexedToken;
use crate::model::Mistake;
use crate::model::PairSettings;
use crate::model::PlainTextToken;
use crate::model::TokView;
use crate::model::diag_view;
use crate::model::diag_views;
use crate::model::lemma_diag_views_push;
use crate::model::tok_view;
use crate::model::tok_views;
use crate::strutil::find_word;
use crate::strutil::lower_of;
use crate::strutil::position_of;
use crate::strutil::strs_view;
use crate::strutil::to_lower;

verus! {

/// The mathematical image of a scan state.
pub ghost struct PairState {
    pub row: int,
    pub col: int,
    pub armed: Seq<bool>,
}

/// The state of a running scan: the cursor and one "armed" flag per rule.
pub struct PairStatus {
    pub col: usize,
    pub row: usize,
    pub first_word_active: Vec<bool>,
}

impl View for PairStatus {
    type V = PairState;

    open spec fn view(&self) -> PairState {
        PairState { row: self.row as int, col: self.col as int, armed: self.first_word_active@ }
    }
}

/// The state at the start of a document: cursor at (1, 1), nothing armed.
pub open spec fn init_pair_state(rules: int) -> PairState {
    PairState { row: 1, col: 1, armed: Seq::new(rules as nat, |i: int| false) }
}

/// `st` with the row moved past the end of the consumed chunk.
pub open spec fn pair_row_bumped(st: PairState) -> PairState {
    PairState { row: st.row + 1, ..st }
}

impl PairStatus {
    pub fn new(words: usize) -> (r: PairStatus)
        ensures
            r@ == init_pair_state(words as int),
    {
        let mut flags: Vec<bool> = Vec::new();
        let mut k: usize = 0;
        while k < words
            invariant
                k <= words,
                flags@.len() == k,
                forall|i: int| 0 <= i < k ==> !flags@[i],
            decreases words - k,
        {
            flags.push(false);
            k += 1;
        }
        proof {
            assert(flags@ =~= Seq::new(words as nat, |i: int| false));
        }
        PairStatus { col: 1, row: 1, first_word_active: flags }
    }
}

/// The message attached to a pair violation between two concrete words.
pub open spec fn pair_msg(w1: Seq<char>, w2: Seq<char>) -> Seq<char> {
    "a(z) \""@ + w1 + "\" és \""@ + w2
        + "\" szavak közé általában vesszőt teszünk (általában a második elé)."@
}

/// The diagnostics emitted at one token for the rules from index `k` on:
/// every armed rule whose second-word set contains the lowercased token
/// text emits one diagnostic, in rule order, at the pre-advancement
/// position.
pub open spec fn pair_emits(
    firsts: Seq<Seq<char>>,
    seconds: Seq<Seq<Seq<char>>>,
    probs: Seq<u32>,
    armed: Seq<bool>,
    row: int,
    col: int,
    lw: Seq<char>,
    k: int,
) -> Seq<DiagView>
    decreases armed.len() - k,
{
    if k < 0 || k >= armed.len() {
        Seq::empty()
    } else {
        let here = if armed[k] {
            match find_word(seconds[k], lw) {
                Some(j) => seq![
                    DiagView {
                        row,
                        col,
                        msg: pair_msg(firsts[k], seconds[k][j]),
                        prob: probs[k] as int,
                    },
                ],
                None => Seq::empty(),
            }
        } else {
            Seq::empty()
        };
        here + pair_emits(firsts, seconds, probs, armed, row, col, lw, k + 1)
    }
}

/// One scan step: emit for every armed rule matched by the token, advance
/// the cursor, arm the rule whose first word the token is, and disarm
/// everything on a comma or a sentence end.
pub open spec fn pair_step(
    firsts: Seq<Seq<char>>,
    seconds: Seq<Seq<Seq<char>>>,
    probs: Seq<u32>,
    st: PairState,
    t: TokView,
) -> (PairState, Seq<DiagView>) {
    let lw = lower_of(t.text);
    let emitted = pair_emits(firsts, seconds, probs, st.armed, st.row, st.col, lw, 0);
    let pos = advance_cursor(st.row, st.col, t);
    let armed1 = match find_word(firsts, lw) {
        Some(p) => st.armed.update(p, true),
        None => st.armed,
    };
    let armed2 = if t.kind == PlainTextToken::Comma || t.kind == PlainTextToken::EndOfSentence {
        Seq::new(armed1.len(), |i: int| false)
    } else {
        armed1
    };
    (PairState { row: pos.0, col: pos.1, armed: armed2 }, emitted)
}

/// A whole scan over `toks` from state `st`: the final state and every
/// diagnostic emitted, in token order.
pub open spec fn pair_run(
    firsts: Seq<Seq<char>>,
    seconds: Seq<Seq<Seq<char>>>,
    probs: Seq<u32>,
    st: PairState,
    toks: Seq<TokView>,
) -> (PairState, Seq<DiagView>)
    decreases toks.len(),
{
    if toks.len() == 0 {
        (st, Seq::empty())
    } else {
        let s = pair_step(firsts, seconds, probs, st, toks[0]);
        let r = pair_run(firsts, seconds, probs, s.0, toks.skip(1));
        (r.0, s.1 + r.1)
    }
}

/// A token emits nothing for rules that are not armed.
pub proof fn lemma_pair_emits_unarmed(
    firsts: Seq<Seq<char>>,
    seconds: Seq<Seq<Seq<char>>>,
    probs: Seq<u32>,
    armed: Seq<bool>,
    row: int,
    col: int,
    lw: Seq<char>,
    k: int,
)
    requires
        forall|q: int| 0 <= q < armed.len() ==> !armed[q],
    ensures
        pair_emits(firsts, seconds, probs, armed, row, col, lw, k) == Seq::<DiagView>::empty(),
    decreases armed.len() - k,
{
    if 0 <= k < armed.len() {
        lemma_pair_emits_unarmed(firsts, seconds, probs, armed, row, col, lw, k + 1);
        assert(pair_emits(firsts, seconds, probs, armed, row, col, lw, k) =~= Seq::<
            DiagView,
        >::empty());
    }
}

/// With no rule's first word anywhere in the input and no rule armed, the
/// pair scan emits no diagnostic: a rule only fires after its first word
/// has armed it.
pub proof fn lemma_pair_no_triggers(
    firsts: Seq<Seq<char>>,
    seconds: Seq<Seq<Seq<char>>>,
    probs: Seq<u32>,
    st: PairState,
    toks: Seq<TokView>,
)
    requires
        forall|q: int| 0 <= q < st.armed.len() ==> !st.armed[q],
        forall|i: int|
            0 <= i < toks.len() ==> find_word(firsts, lower_of(#[trigger] toks[i].text)) is None,
    ensures
        pair_run(firsts, seconds, probs, st, toks).1 == Seq::<DiagView>::empty(),
    decreases toks.len(),
{
    if toks.len() > 0 {
        let t = toks[0];
        let s = pair_step(firsts, seconds, probs, st, t);
        lemma_pair_emits_unarmed(
            firsts,
            seconds,
            probs,
            st.armed,
            st.row,
            st.col,
            lower_of(t.text),
            0,
        );
        assert forall|q: int| 0 <= q < s.0.armed.len() implies !s.0.armed[q] by {}
        assert forall|i: int| 0 <= i < toks.skip(1).len() implies find_word(
            firsts,
            lower_of(#[trigger] toks.skip(1)[i].text),
        ) is None by {
            assert(toks.skip(1)[i] == toks[i + 1]);
        }
        lemma_pair_no_triggers(firsts, seconds, probs, s.0, toks.skip(1));
        assert(pair_run(firsts, seconds, probs, st, toks).1 =~= Seq::<DiagView>::empty());
    }
}

/// Scanning two independently produced token sequences of the same text
/// yields identical diagnostics, in order and content: the token sequence
/// and the scan are functions of the text alone.
pub proof fn lemma_pair_repeatable(
    firsts: Seq<Seq<char>>,
    seconds: Seq<Seq<Seq<char>>>,
    probs: Seq<u32>,
    st: PairState,
    text: Seq<char>,
    t1: Seq<TokView>,
    t2: Seq<TokView>,
)
    requires
        t1 == crate::model::lex(text),
        t2 == crate::model::lex(text),
    ensures
        pair_run(firsts, seconds, probs, st, t1) == pair_run(firsts, seconds, probs, st, t2),
{
}

/// Detects pairs of words which usually require a comma between them; the
/// two words do not have to be next to each other. Each pair is given a
/// confidence, just like in the backward detector.
///
/// All input is converted to lowercase before matching.
///
/// Example: Ha mész vásárolni, akkor ne felejts el tejet hozni!
pub struct PairDetector {
    pub settings: PairSettings,
    pub status: PairStatus,
}

impl PairDetector {
    pub open spec fn wf(&self) -> bool {
        &&& self.settings.wf()
        &&& self.status.first_word_active@.len() == self.settings.first_words@.len()
    }

    pub open spec fn spec_firsts(&self) -> Seq<Seq<char>> {
        self.settings.spec_firsts()
    }

    pub open spec fn spec_seconds(&self) -> Seq<Seq<Seq<char>>> {
        self.settings.spec_seconds()
    }

    pub open spec fn spec_probs(&self) -> Seq<u32> {
        self.settings.probs@
    }

    pub fn new(settings: PairSettings) -> (r: PairDetector)
        ensures
            r.settings == settings,
            r.status@ == init_pair_state(settings.first_words@.len() as int),
    {
        let status = PairStatus::new(settings.first_words.len());
        PairDetector { status, settings }
    }

    /// Move the cursor over `token`: forward by its code-point count plus
    /// one, then to the head of the next row if it was a line break.
    fn move_cursor_forward(&mut self, token: &LexedToken)
        requires
            old(self).status.col + token.text@.len() + 1 <= usize::MAX,
            old(self).status.row + 1 <= usize::MAX,
        ensures
            final(self).settings == old(self).settings,
            final(self).status.first_word_active == old(self).status.first_word_active,
            (final(self).status@.row, final(self).status@.col) == advance_cursor(
                old(self).status@.row,
                old(self).status@.col,
                tok_view(*token),
            ),
    {
        self.status.col = self.status.col + token.text.as_str().unicode_len() + 1;
        if token.kind == PlainTextToken::NewLine {
            self.status.col = 1;
            self.status.row = self.status.row + 1;
        }
    }

    /// The diagnostic for rule `pos1` matched at its second word `pos2`, at
    /// the current cursor position.
    fn get_mistake_for_word(&self, pos1: usize, pos2: usize) -> (r: (usize, usize, Mistake))
        requires
            self.wf(),
            pos1 < self.settings.first_words@.len(),
            pos2 < self.settings.second_words@[pos1 as int]@.len(),
        ensures
            diag_view(r) == (DiagView {
                row: self.status@.row,
                col: self.status@.col,
                msg: pair_msg(
                    self.spec_firsts()[pos1 as int],
                    self.spec_seconds()[pos1 as int][pos2 as int],
                ),
                prob: self.spec_probs()[pos1 as int] as int,
            }),
    {
        let mut msg = String::from_str("a(z) \"");
        msg.append(self.settings.first_words[pos1].as_str());
        msg.append("\" és \"");
        msg.append(self.settings.second_words[pos1][pos2].as_str());
        msg.append("\" szavak közé általában vesszőt teszünk (általában a második elé).");
        (self.status.row, self.status.col, Mistake::new_dyn(msg, self.settings.probs[pos1]))
    }

    /// Arm the rule whose first word is `word`, if there is one.
    fn set_active_word(&mut self, word: &String)
        requires
            old(self).wf(),
        ensures
            final(self).wf(),
            final(self).settings == old(self).settings,
            final(self).status.col == old(self).status.col,
            final(self).status.row == old(self).status.row,
            final(self).status@.armed == (match find_word(old(self).spec_firsts(), word@) {
                Some(p) => old(self).status@.armed.update(p, true),
                None => old(self).status@.armed,
            }),
    {
        let index = position_of(&self.settings.first_words, word);
        if let Some(pos) = index {
            self.status.first_word_active.set(pos, true);
        }
    }

    /// Scan a whole document: reset the state, then scan `tokens`.
    pub fn detect_errors(&mut self, tokens: &Vec<LexedToken>) -> (r: Vec<(usize, usize, Mistake)>)
        requires
            old(self).settings.wf(),
            1 + scan_width(tok_views(tokens@)) <= usize::MAX,
            tokens@.len() + 2 <= usize::MAX,
        ensures
            final(self).wf(),
            final(self).settings == old(self).settings,
            diag_views(r@) == pair_run(
                old(self).spec_firsts(),
                old(self).spec_seconds(),
                old(self).spec_probs(),
                init_pair_state(old(self).settings.first_words@.len() as int),
                tok_views(tokens@),
            ).1,
            final(self).status@ == pair_row_bumped(
                pair_run(
                    old(self).spec_firsts(),
                    old(self).spec_seconds(),
                    old(self).spec_probs(),
                    init_pair_state(old(self).settings.first_words@.len() as int),
                    tok_views(tokens@),
                ).0,
            ),
    {
        self.status = PairStatus::new(self.settings.first_words.len());
        self.detect_errors_in_row(tokens)
    }

    /// Scan one chunk, continuing the cursor and the armed flags of an
    /// ongoing scan; afterwards the row is moved past the end of the chunk.
    pub fn detect_errors_in_row(&mut self, tokens: &Vec<LexedToken>) -> (r: Vec<(usize, usize, Mistake)>)
        requires
            old(self).wf(),
            old(self).status.col + scan_width(tok_views(tokens@)) <= usize::MAX,
            old(self).status.row + tokens@.len() + 1 <= usize::MAX,
        ensures
            final(self).wf(),
            final(self).settings == old(self).settings,
            diag_views(r@) == pair_run(
                old(self).spec_firsts(),
                old(self).spec_seconds(),
                old(self).spec_probs(),
                old(self).status@,
                tok_views(tokens@),
            ).1,
            final(self).status@ == pair_row_bumped(
                pair_run(
                    old(self).spec_firsts(),
                    old(self).spec_seconds(),
                    old(self).spec_probs(),
                    old(self).status@,
                    tok_views(tokens@),
                ).0,
            ),
    {
        let ghost firsts = self.spec_firsts();
        let ghost seconds = self.spec_seconds();
        let ghost probs = self.spec_probs();
        let ghost tv = tok_views(tokens@);
        let ghost full = pair_run(firsts, seconds, probs, self.status@, tv);
        let ghost settings0 = self.settings;

        let mut errors: Vec<(usize, usize, Mistake)> = Vec::new();
        let mut i: usize = 0;
        proof {
            assert(tv.skip(0) =~= tv);
            assert(diag_views(errors@) + full.1 =~= full.1);
        }
        while i < tokens.len()
            invariant
                self.wf(),
                self.settings == settings0,
                firsts == self.spec_firsts(),
                seconds == self.spec_seconds(),
                probs == self.settings.probs@,
                tv == tok_views(tokens@),
                i <= tokens@.len(),
                pair_run(firsts, seconds, probs, self.status@, tv.skip(i as int)).0 == full.0,
                diag_views(errors@) + pair_run(
                    firsts,
                    seconds,
                    probs,
                    self.status@,
                    tv.skip(i as int),
                ).1 == full.1,
                self.status.col + scan_width(tv.skip(i as int)) <= usize::MAX,
                self.status.row + (tokens@.len() - i) + 1 <= usize::MAX,
            decreases tokens@.len() - i,
        {
            let ghost st_i = self.status@;
            let ghost rest = tv.skip(i as int);
            proof {
                assert(rest[0] == tv[i as int]);
                assert(rest.skip(1) =~= tv.skip(i + 1));
                assert(scan_width(rest) == rest[0].text.len() + 1 + scan_width(rest.skip(1)));
                lemma_scan_width_nonneg(rest.skip(1));
            }
            let tok = &tokens[i];
            proof {
                assert(tok_view(*tok) == tv[i as int]);
            }
            let lowercase = to_lower(tok.text.as_str());
            let ghost lw = lowercase@;

            let ghost e0 = errors@;
            let rules = self.status.first_word_active.len();
            let mut k: usize = 0;
            while k < rules
                invariant
                    self.wf(),
                    self.settings == settings0,
                    firsts == self.spec_firsts(),
                    seconds == self.spec_seconds(),
                    probs == self.settings.probs@,
                    self.status@ == st_i,
                    rules == self.status.first_word_active@.len(),
                    k <= rules,
                    lowercase@ == lw,
                    diag_views(errors@) + pair_emits(
                        firsts,
                        seconds,
                        probs,
                        st_i.armed,
                        st_i.row,
                        st_i.col,
                        lw,
                        k as int,
                    ) == diag_views(e0) + pair_emits(
                        firsts,
                        seconds,
                        probs,
                        st_i.armed,
                        st_i.row,
                        st_i.col,
                        lw,
                        0,
                    ),
                decreases rules - k,
            {
                if self.status.first_word_active[k] {
                    let second_index = position_of(&self.settings.second_words[k], &lowercase);
                    if let Some(pos) = second_index {
                        let d = self.get_mistake_for_word(k, pos);
                        proof {
                            lemma_diag_views_push(errors@, d);
                            assert(seconds[k as int] == strs_view(
                                self.settings.second_words@[k as int]@,
                            ));
                        }
                        errors.push(d);
                    }
                }
                proof {
                    assert(diag_views(errors@) + pair_emits(
                        firsts,
                        seconds,
                        probs,
                        st_i.armed,
                        st_i.row,
                        st_i.col,
                        lw,
                        k + 1,
                    ) =~= diag_views(e0) + pair_emits(
                        firsts,
                        seconds,
                        probs,
                        st_i.armed,
                        st_i.row,
                        st_i.col,
                        lw,
                        0,
                    ));
                }
                k += 1;
            }

            self.move_cursor_forward(tok);
            self.set_active_word(&lowercase);
            if tok.kind == PlainTextToken::Comma || tok.kind == PlainTextToken::EndOfSentence {
                let ghost st_pre = self.status@;
                let n = self.status.first_word_active.len();
                let mut c: usize = 0;
                while c < n
                    invariant
                        c <= n,
                        n == self.status.first_word_active@.len(),
                        self.settings == settings0,
                        self.status@.row == st_pre.row,
                        self.status@.col == st_pre.col,
                        forall|q: int| 0 <= q < c ==> !self.status.first_word_active@[q],
                    decreases n - c,
                {
                    self.status.first_word_active.set(c, false);
                    c += 1;
                }
                proof {
                    assert(self.status.first_word_active@ =~= Seq::new(
                        n as nat,
                        |q: int| false,
                    ));
                }
            }

            proof {
                let step = pair_step(firsts, seconds, probs, st_i, tv[i as int]);
                assert(self.status@.armed =~= step.0.armed);
                assert(self.status@ == step.0);
                assert(pair_run(firsts, seconds, probs, st_i, rest) == (
                    pair_run(firsts, seconds, probs, step.0, rest.skip(1)).0,
                    step.1 + pair_run(firsts, seconds, probs, step.0, rest.skip(1)).1,
                ));
                assert(pair_emits(
                    firsts,
                    seconds,
                    probs,
                    st_i.armed,
                    st_i.row,
                    st_i.col,
                    lw,
                    st_i.armed.len() as int,
                ) =~= Seq::<DiagView>::empty());
                assert(diag_views(errors@) =~= diag_views(e0) + step.1);
                assert(diag_views(errors@) + pair_run(
                    firsts,
                    seconds,
                    probs,
                    self.status@,
                    tv.skip(i + 1),
                ).1 =~= full.1);
            }
            i += 1;
        }
        proof {
            assert(tv.skip(i as int) =~= Seq::<TokView>::empty());
            assert(diag_views(errors@) + Seq::<DiagView>::empty() =~= diag_views(errors@));
        }
        self.status.row = self.status.row + 1;
        errors
    }
}

} // verus!
