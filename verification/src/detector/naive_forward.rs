//! The forward-trigger detector: flags a trigger word that is not followed
//! by a comma before real content resumes.
//!
//! Word lookup is case-insensitive (the token text is lowercased before
//! matching), unlike the backward detector: this governs matching of
//! capitalized sentence-initial greetings. At most one trigger is active at
//! a time. A line break clears it, and every other token overwrites it with
//! its own lookup result: a comma, semicolon or sentence end therefore also
//! clears the trigger without a diagnostic, while a word or number token
//! that follows an active trigger is flagged.

use vstd::prelude::*;

use crate::cursor::advance_cursor;
use crate::cursor::lemma_scan_width_nonneg;
use crate::cursor::scan_width;
use crate::model::DiagView;
use crate::model::LexedToken;
use crate::model::Mistake;
use crate::model::NaiveSettings;
use crate::model::PlainTextToken;
use crate::model::TokView;
use crate::model::diag_view;
use crate::model::diag_views;
use crate::model::lemma_diag_views_push;
use crate::model::tok_view;
use crate::model::tok_views;
use crate::strutil::find_word;
use crate::strutil::lower_of;
use crate::strutil::position_of;
use crate::strutil::strs_view;
use crate::strutil::to_lower;

verus! {

/// The mathematical image of a scan state.
pub ghost struct ForwardState {
    pub row: int,
    pub col: int,
    pub active_word: Option<int>,
}

/// The state of a running scan: the cursor and the index of the currently
/// active trigger word, if any.
pub struct NaiveForwardStatus {
    pub col: usize,
    pub row: usize,
    pub active_word: Option<usize>,
}

impl View for NaiveForwardStatus {
    type V = ForwardState;

    open spec fn view(&self) -> ForwardState {
        ForwardState {
            row: self.row as int,
            col: self.col as int,
            active_word: match self.active_word {
                Some(p) => Some(p as int),
                None => None,
            },
        }
    }
}

/// The state at the start of a document: cursor at (1, 1), no active trigger.
pub open spec fn init_forward_state() -> ForwardState {
    ForwardState { row: 1, col: 1, active_word: None }
}

/// `st` with the row moved past the end of the consumed chunk.
pub open spec fn forward_row_bumped(st: ForwardState) -> ForwardState {
    ForwardState { row: st.row + 1, ..st }
}

impl NaiveForwardStatus {
    pub fn new() -> (r: NaiveForwardStatus)
        ensures
            r@ == init_forward_state(),
    {
        NaiveForwardStatus { col: 1, row: 1, active_word: None }
    }
}

/// The message attached to a forward-trigger violation.
pub open spec fn forward_msg(w: Seq<char>) -> Seq<char> {
    "a(z) \""@ + w + "\" szó után általában vesszőt teszünk."@
}

/// One scan step. A diagnostic is emitted at the pre-advancement position
/// when a word or number token arrives while a trigger is active: the
/// expected comma never came before real content resumed. A line break then
/// clears the active trigger, satisfying the requirement; every other token
/// overwrites it with its own lookup result.
pub open spec fn forward_step(
    words: Seq<Seq<char>>,
    probs: Seq<u32>,
    st: ForwardState,
    t: TokView,
) -> (ForwardState, Seq<DiagView>) {
    let idx = find_word(words, lower_of(t.text));
    let emitted = match st.active_word {
        Some(p) => if t.kind == PlainTextToken::Text || t.kind == PlainTextToken::Number {
            seq![
                DiagView {
                    row: st.row,
                    col: st.col,
                    msg: forward_msg(words[p]),
                    prob: probs[p] as int,
                },
            ]
        } else {
            Seq::empty()
        },
        None => Seq::empty(),
    };
    let pos = advance_cursor(st.row, st.col, t);
    (
        ForwardState {
            row: pos.0,
            col: pos.1,
            active_word: if t.kind == PlainTextToken::NewLine {
                None
            } else {
                idx
            },
        },
        emitted,
    )
}

/// A whole scan over `toks` from state `st`: the final state and every
/// diagnostic emitted, in token order.
pub open spec fn forward_run(
    words: Seq<Seq<char>>,
    probs: Seq<u32>,
    st: ForwardState,
    toks: Seq<TokView>,
) -> (ForwardState, Seq<DiagView>)
    decreases toks.len(),
{
    if toks.len() == 0 {
        (st, Seq::empty())
    } else {
        let s = forward_step(words, probs, st, toks[0]);
        let r = forward_run(words, probs, s.0, toks.skip(1));
        (r.0, s.1 + r.1)
    }
}

/// With no trigger word anywhere in the input and no trigger already
/// active, the forward scan emits no diagnostic.
pub proof fn lemma_forward_no_triggers(
    words: Seq<Seq<char>>,
    probs: Seq<u32>,
    st: ForwardState,
    toks: Seq<TokView>,
)
    requires
        st.active_word is None,
        forall|i: int|
            0 <= i < toks.len() ==> find_word(words, lower_of(#[trigger] toks[i].text)) is None,
    ensures
        forward_run(words, probs, st, toks).1 == Seq::<DiagView>::empty(),
    decreases toks.len(),
{
    if toks.len() > 0 {
        let s = forward_step(words, probs, st, toks[0]);
        assert forall|i: int| 0 <= i < toks.skip(1).len() implies find_word(
            words,
            lower_of(#[trigger] toks.skip(1)[i].text),
        ) is None by {
            assert(toks.skip(1)[i] == toks[i + 1]);
        }
        lemma_forward_no_triggers(words, probs, s.0, toks.skip(1));
        assert(forward_run(words, probs, st, toks).1 =~= Seq::<DiagView>::empty());
    }
}

/// Every trigger word in the input has a comma or semicolon as the very
/// next token, or is the last token.
pub open spec fn comma_follows_triggers(words: Seq<Seq<char>>, toks: Seq<TokView>) -> bool {
    forall|i: int|
        0 <= i < toks.len() && find_word(words, lower_of(#[trigger] toks[i].text)) is Some ==> (i
            + 1 == toks.len() || toks[i + 1].kind == PlainTextToken::Comma)
}

/// When every trigger word in the input is immediately followed by a comma
/// or semicolon, and any trigger already active at entry is satisfied or
/// cleared by the very first token, the forward scan emits no diagnostic.
pub proof fn lemma_forward_comma_satisfied(
    words: Seq<Seq<char>>,
    probs: Seq<u32>,
    st: ForwardState,
    toks: Seq<TokView>,
)
    requires
        comma_follows_triggers(words, toks),
        st.active_word is Some ==> (toks.len() == 0 || toks[0].kind == PlainTextToken::Comma
            || toks[0].kind == PlainTextToken::NewLine),
    ensures
        forward_run(words, probs, st, toks).1 == Seq::<DiagView>::empty(),
    decreases toks.len(),
{
    if toks.len() > 0 {
        let t = toks[0];
        let s = forward_step(words, probs, st, t);
        assert(s.1 =~= Seq::<DiagView>::empty());
        let rest = toks.skip(1);
        assert forall|i: int|
            0 <= i < rest.len() && find_word(words, lower_of(#[trigger] rest[i].text)) is Some
            implies (i + 1 == rest.len() || rest[i + 1].kind == PlainTextToken::Comma) by {
            assert(rest[i] == toks[i + 1]);
            if i + 1 < rest.len() {
                assert(rest[i + 1] == toks[i + 2]);
            }
        }
        if s.0.active_word is Some {
            assert(t.kind != PlainTextToken::NewLine);
            assert(find_word(words, lower_of(t.text)) is Some);
            assert(1 == toks.len() || toks[1].kind == PlainTextToken::Comma);
            if 1 < toks.len() {
                assert(rest[0] == toks[1]);
            }
        }
        lemma_forward_comma_satisfied(words, probs, s.0, rest);
        assert(forward_run(words, probs, st, toks).1 =~= Seq::<DiagView>::empty());
    }
}

/// Scanning two independently produced token sequences of the same text
/// yields identical diagnostics, in order and content: the token sequence
/// and the scan are functions of the text alone.
pub proof fn lemma_forward_repeatable(
    words: Seq<Seq<char>>,
    probs: Seq<u32>,
    st: ForwardState,
    text: Seq<char>,
    t1: Seq<TokView>,
    t2: Seq<TokView>,
)
    requires
        t1 == crate::model::lex(text),
        t2 == crate::model::lex(text),
    ensures
        forward_run(words, probs, st, t1) == forward_run(words, probs, st, t2),
{
}

/// An active trigger index always points into the rule table.
pub open spec fn forward_state_ok(words: Seq<Seq<char>>, st: ForwardState) -> bool {
    match st.active_word {
        Some(p) => 0 <= p < words.len(),
        None => true,
    }
}

/// Detects a missing comma after the given words. These words are generally
/// followed by a comma, though for most of them there are exceptions, which
/// the rule's confidence accounts for.
///
/// Example: greetings that are not adjectives.
pub struct NaiveForwardDetector {
    pub settings: NaiveSettings,
    pub status: NaiveForwardStatus,
}

impl NaiveForwardDetector {
    pub open spec fn wf(&self) -> bool {
        &&& self.settings.wf()
        &&& forward_state_ok(self.spec_words(), self.status@)
    }

    pub open spec fn spec_words(&self) -> Seq<Seq<char>> {
        strs_view(self.settings.words@)
    }

    pub open spec fn spec_probs(&self) -> Seq<u32> {
        self.settings.probs@
    }

    pub fn new(settings: NaiveSettings) -> (r: NaiveForwardDetector)
        ensures
            r.settings == settings,
            r.status@ == init_forward_state(),
    {
        NaiveForwardDetector { settings, status: NaiveForwardStatus::new() }
    }

    /// Move the cursor over `token`: forward by its code-point count plus
    /// one, then to the head of the next row if it was a line break.
    fn move_cursor_forward(&mut self, token: &LexedToken)
        requires
            old(self).status.col + token.text@.len() + 1 <= usize::MAX,
            old(self).status.row + 1 <= usize::MAX,
        ensures
            final(self).settings == old(self).settings,
            final(self).status.active_word == old(self).status.active_word,
            (final(self).status@.row, final(self).status@.col) == advance_cursor(
                old(self).status@.row,
                old(self).status@.col,
                tok_view(*token),
            ),
    {
        self.status.col = self.status.col + token.text.as_str().unicode_len() + 1;
        if token.kind == PlainTextToken::NewLine {
            self.status.col = 1;
            self.status.row = self.status.row + 1;
        }
    }

    /// The diagnostic for the trigger word at index `pos`, at the current
    /// cursor position.
    fn get_mistake_for_word(&self, pos: usize) -> (r: (usize, usize, Mistake))
        requires
            self.wf(),
            pos < self.settings.words@.len(),
        ensures
            diag_view(r) == (DiagView {
                row: self.status@.row,
                col: self.status@.col,
                msg: forward_msg(self.spec_words()[pos as int]),
                prob: self.spec_probs()[pos as int] as int,
            }),
    {
        let mut msg = String::from_str("a(z) \"");
        msg.append(self.settings.words[pos].as_str());
        msg.append("\" szó után általában vesszőt teszünk.");
        (self.status.row, self.status.col, Mistake::new_dyn(msg, self.settings.probs[pos]))
    }

    /// Whether real content resumed: a word or a number.
    fn is_token_word(&self, token: &PlainTextToken) -> (r: bool)
        ensures
            r == (*token == PlainTextToken::Number || *token == PlainTextToken::Text),
    {
        *token == PlainTextToken::Number || *token == PlainTextToken::Text
    }

    /// Scan a whole document: reset the state, then scan `tokens`.
    pub fn detect_errors(&mut self, tokens: &Vec<LexedToken>) -> (r: Vec<(usize, usize, Mistake)>)
        requires
            old(self).settings.wf(),
            1 + scan_width(tok_views(tokens@)) <= usize::MAX,
            tokens@.len() + 2 <= usize::MAX,
        ensures
            final(self).wf(),
            final(self).settings == old(self).settings,
            diag_views(r@) == forward_run(
                old(self).spec_words(),
                old(self).spec_probs(),
                init_forward_state(),
                tok_views(tokens@),
            ).1,
            final(self).status@ == forward_row_bumped(
                forward_run(
                    old(self).spec_words(),
                    old(self).spec_probs(),
                    init_forward_state(),
                    tok_views(tokens@),
                ).0,
            ),
    {
        self.status = NaiveForwardStatus::new();
        self.detect_errors_in_row(tokens)
    }

    /// Scan one chunk, continuing the cursor and the active trigger of an
    /// ongoing scan; afterwards the row is moved past the end of the chunk.
    pub fn detect_errors_in_row(&mut self, tokens: &Vec<LexedToken>) -> (r: Vec<(usize, usize, Mistake)>)
        requires
            old(self).wf(),
            old(self).status.col + scan_width(tok_views(tokens@)) <= usize::MAX,
            old(self).status.row + tokens@.len() + 1 <= usize::MAX,
        ensures
            final(self).wf(),
            final(self).settings == old(self).settings,
            diag_views(r@) == forward_run(
                old(self).spec_words(),
                old(self).spec_probs(),
                old(self).status@,
                tok_views(tokens@),
            ).1,
            final(self).status@ == forward_row_bumped(
                forward_run(
                    old(self).spec_words(),
                    old(self).spec_probs(),
                    old(self).status@,
                    tok_views(tokens@),
                ).0,
            ),
    {
        let ghost words = self.spec_words();
        let ghost probs = self.spec_probs();
        let ghost tv = tok_views(tokens@);
        let ghost full = forward_run(words, probs, self.status@, tv);
        let ghost settings0 = self.settings;

        let mut errors: Vec<(usize, usize, Mistake)> = Vec::new();
        let mut i: usize = 0;
        proof {
            assert(tv.skip(0) =~= tv);
            assert(diag_views(errors@) + full.1 =~= full.1);
        }
        while i < tokens.len()
            invariant
                self.wf(),
                self.settings == settings0,
                words == strs_view(self.settings.words@),
                probs == self.settings.probs@,
                tv == tok_views(tokens@),
                i <= tokens@.len(),
                forward_run(words, probs, self.status@, tv.skip(i as int)).0 == full.0,
                diag_views(errors@) + forward_run(words, probs, self.status@, tv.skip(i as int)).1
                    == full.1,
                self.status.col + scan_width(tv.skip(i as int)) <= usize::MAX,
                self.status.row + (tokens@.len() - i) + 1 <= usize::MAX,
            decreases tokens@.len() - i,
        {
            let ghost st_i = self.status@;
            let ghost rest = tv.skip(i as int);
            proof {
                assert(rest[0] == tv[i as int]);
                assert(rest.skip(1) =~= tv.skip(i + 1));
                assert(scan_width(rest) == rest[0].text.len() + 1 + scan_width(rest.skip(1)));
                lemma_scan_width_nonneg(rest.skip(1));
            }
            let tok = &tokens[i];
            proof {
                assert(tok_view(*tok) == tv[i as int]);
            }
            let lowercase = to_lower(tok.text.as_str());
            let index = position_of(&self.settings.words, &lowercase);

            if let Some(pos) = self.status.active_word {
                if self.is_token_word(&tok.kind) {
                    let d = self.get_mistake_for_word(pos);
                    proof {
                        lemma_diag_views_push(errors@, d);
                    }
                    errors.push(d);
                }
            }

            self.move_cursor_forward(tok);

            if tok.kind == PlainTextToken::NewLine {
                self.status.active_word = None;
            } else {
                self.status.active_word = index;
            }

            proof {
                let step = forward_step(words, probs, st_i, tv[i as int]);
                assert(self.status@ == step.0);
                assert(forward_run(words, probs, st_i, rest) == (
                    forward_run(words, probs, step.0, rest.skip(1)).0,
                    step.1 + forward_run(words, probs, step.0, rest.skip(1)).1,
                ));
                assert(diag_views(errors@) + forward_run(
                    words,
                    probs,
                    self.status@,
                    tv.skip(i + 1),
                ).1 =~= full.1);
            }
            i += 1;
        }
        proof {
            assert(tv.skip(i as int) =~= Seq::<TokView>::empty());
            assert(diag_views(errors@) + Seq::<DiagView>::empty() =~= diag_views(errors@));
        }
        self.status.row = self.status.row + 1;
        errors
    }
}

} // verus!
