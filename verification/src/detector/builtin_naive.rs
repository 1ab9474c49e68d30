//! A self-contained backward-trigger detector with a built-in Hungarian
//! rule table. It scans exactly like the configurable backward detector but
//! carries its word list and confidences as plain fields and reports bare
//! `(row, column, confidence)` triples instead of full diagnostics.

use vstd::prelude::*;

use crate::cursor::lemma_scan_width_nonneg;
use crate::cursor::scan_width;
use crate::detector::NaiveState;
use crate::detector::naive_run;
use crate::detector::naive_step;
use crate::model::DiagView;
use crate::model::LexedToken;
use crate::model::PlainTextToken;
use crate::model::TokView;
use crate::model::tok_view;
use crate::model::tok_views;
use crate::strutil::position_of;
use crate::strutil::strs_view;

verus! {

/// The built-in trigger words.
pub open spec fn builtin_words() -> Seq<Seq<char>> {
    seq![
        "hogy"@,
        "ami"@,
        "aki"@,
        "ahol"@,
        "amikor"@,
        "amiért"@,
        "mert"@,
        "mint"@,
        "illetve"@,
        "amint"@,
        "valamint"@,
        "ha"@,
    ]
}

/// The built-in confidences, in thousandths, one per word.
pub open spec fn builtin_probs() -> Seq<u32> {
    seq![700u32, 500u32, 500u32, 500u32, 500u32, 500u32, 500u32, 800u32, 1000u32, 1000u32, 1000u32, 1000u32]
}

/// The views of the returned `(row, column, confidence)` triples.
pub open spec fn triples_view(rs: Seq<(usize, usize, u32)>) -> Seq<(int, int, int)> {
    rs.map_values(|t: (usize, usize, u32)| (t.0 as int, t.1 as int, t.2 as int))
}

/// The positions and confidences of a diagnostic sequence, its messages
/// dropped.
pub open spec fn diag_triples(ds: Seq<DiagView>) -> Seq<(int, int, int)> {
    ds.map_values(|d: DiagView| (d.row, d.col, d.prob))
}

/// The backward-trigger scan with the built-in rule table: flags a trigger
/// word not preceded by a comma, with adjacency suppression for repeated
/// triggers, and reports the rule's confidence at the trigger's position.
pub struct NaiveDetector {
    pub words: Vec<String>,
    pub probs: Vec<u32>,
    pub col: usize,
    pub row: usize,
    pub is_last_token_comma: bool,
    pub is_last_token_in_vec: bool,
}

impl NaiveDetector {
    pub open spec fn wf(&self) -> bool {
        &&& strs_view(self.words@) == builtin_words()
        &&& self.probs@ == builtin_probs()
    }

    /// The scan state of this detector, in the shared backward-scan model.
    pub open spec fn state(&self) -> NaiveState {
        NaiveState {
            row: self.row as int,
            col: self.col as int,
            is_last_token_comma: self.is_last_token_comma,
            is_last_token_in_vec: self.is_last_token_in_vec,
        }
    }

    pub fn new() -> (r: NaiveDetector)
        ensures
            r.wf(),
            r.state() == (NaiveState {
                row: 1,
                col: 1,
                is_last_token_comma: false,
                is_last_token_in_vec: false,
            }),
    {
        let mut words: Vec<String> = Vec::new();
        let mut probs: Vec<u32> = Vec::new();
        words.push(String::from_str("hogy"));
        probs.push(700);
        words.push(String::from_str("ami"));
        probs.push(500);
        words.push(String::from_str("aki"));
        probs.push(500);
        words.push(String::from_str("ahol"));
        probs.push(500);
        words.push(String::from_str("amikor"));
        probs.push(500);
        words.push(String::from_str("amiért"));
        probs.push(500);
        words.push(String::from_str("mert"));
        probs.push(500);
        words.push(String::from_str("mint"));
        probs.push(800);
        words.push(String::from_str("illetve"));
        probs.push(1000);
        words.push(String::from_str("amint"));
        probs.push(1000);
        words.push(String::from_str("valamint"));
        probs.push(1000);
        words.push(String::from_str("ha"));
        probs.push(1000);
        proof {
            assert(strs_view(words@) =~= builtin_words());
            assert(probs@ =~= builtin_probs());
        }
        NaiveDetector {
            words,
            probs,
            col: 1,
            row: 1,
            is_last_token_comma: false,
            is_last_token_in_vec: false,
        }
    }

    /// Scan a whole document: reset the state, then scan `tokens`.
    pub fn detect_errors(&mut self, tokens: &Vec<LexedToken>) -> (r: Vec<(usize, usize, u32)>)
        requires
            old(self).wf(),
            1 + scan_width(tok_views(tokens@)) <= usize::MAX,
            tokens@.len() + 2 <= usize::MAX,
        ensures
            final(self).wf(),
            triples_view(r@) == diag_triples(
                naive_run(
                    builtin_words(),
                    builtin_probs(),
                    NaiveState {
                        row: 1,
                        col: 1,
                        is_last_token_comma: false,
                        is_last_token_in_vec: false,
                    },
                    tok_views(tokens@),
                ).1,
            ),
            final(self).state() == (NaiveState {
                row: naive_run(
                    builtin_words(),
                    builtin_probs(),
                    NaiveState {
                        row: 1,
                        col: 1,
                        is_last_token_comma: false,
                        is_last_token_in_vec: false,
                    },
                    tok_views(tokens@),
                ).0.row + 1,
                ..naive_run(
                    builtin_words(),
                    builtin_probs(),
                    NaiveState {
                        row: 1,
                        col: 1,
                        is_last_token_comma: false,
                        is_last_token_in_vec: false,
                    },
                    tok_views(tokens@),
                ).0
            }),
    {
        self.col = 1;
        self.row = 1;
        self.is_last_token_in_vec = false;
        self.is_last_token_comma = false;

        self.detect_errors_in_row(tokens)
    }

    /// Scan one chunk, continuing the cursor and the flags of an ongoing
    /// scan; afterwards the row is moved past the end of the chunk.
    pub fn detect_errors_in_row(&mut self, tokens: &Vec<LexedToken>) -> (r: Vec<(usize, usize, u32)>)
        requires
            old(self).wf(),
            old(self).col + scan_width(tok_views(tokens@)) <= usize::MAX,
            old(self).row + tokens@.len() + 1 <= usize::MAX,
        ensures
            final(self).wf(),
            triples_view(r@) == diag_triples(
                naive_run(builtin_words(), builtin_probs(), old(self).state(), tok_views(tokens@)).1,
            ),
            final(self).state() == (NaiveState {
                row: naive_run(
                    builtin_words(),
                    builtin_probs(),
                    old(self).state(),
                    tok_views(tokens@),
                ).0.row + 1,
                ..naive_run(builtin_words(), builtin_probs(), old(self).state(), tok_views(tokens@)).0
            }),
    {
        let ghost words = builtin_words();
        let ghost probs = builtin_probs();
        let ghost tv = tok_views(tokens@);
        let ghost full = naive_run(words, probs, self.state(), tv);
        let ghost words0 = self.words;
        let ghost probs0 = self.probs;

        let mut errors: Vec<(usize, usize, u32)> = Vec::new();
        let mut i: usize = 0;
        proof {
            assert(tv.skip(0) =~= tv);
            assert(triples_view(errors@) + diag_triples(full.1) =~= diag_triples(full.1));
        }
        while i < tokens.len()
            invariant
                self.words == words0,
                self.probs == probs0,
                words == strs_view(self.words@),
                probs == self.probs@,
                words == builtin_words(),
                probs == builtin_probs(),
                tv == tok_views(tokens@),
                i <= tokens@.len(),
                naive_run(words, probs, self.state(), tv.skip(i as int)).0 == full.0,
                triples_view(errors@) + diag_triples(
                    naive_run(words, probs, self.state(), tv.skip(i as int)).1,
                ) == diag_triples(full.1),
                self.col + scan_width(tv.skip(i as int)) <= usize::MAX,
                self.row + (tokens@.len() - i) + 1 <= usize::MAX,
            decreases tokens@.len() - i,
        {
            let ghost st_i = self.state();
            let ghost rest = tv.skip(i as int);
            proof {
                assert(rest[0] == tv[i as int]);
                assert(rest.skip(1) =~= tv.skip(i + 1));
                assert(scan_width(rest) == rest[0].text.len() + 1 + scan_width(rest.skip(1)));
                lemma_scan_width_nonneg(rest.skip(1));
            }
            let tok = &tokens[i];
            proof {
                assert(tok_view(*tok) == tv[i as int]);
            }
            let index = position_of(&self.words, &tok.text);
            proof {
                assert(strs_view(self.words@).len() == self.words@.len());
                assert(builtin_words().len() == builtin_probs().len());
            }
            if !self.is_last_token_comma && !self.is_last_token_in_vec {
                if let Some(pos) = index {
                    let d = (self.row, self.col, self.probs[pos]);
                    proof {
                        assert(triples_view(errors@.push(d)) =~= triples_view(errors@).push(
                            (d.0 as int, d.1 as int, d.2 as int),
                        ));
                    }
                    errors.push(d);
                }
            }

            self.col = self.col + tok.text.as_str().unicode_len() + 1;
            if tok.kind == PlainTextToken::NewLine {
                self.col = 1;
                self.row = self.row + 1;
            }

            self.is_last_token_in_vec = index.is_some();
            if tok.kind != PlainTextToken::NewLine {
                self.is_last_token_comma = tok.kind == PlainTextToken::Comma;
            }

            proof {
                let step = naive_step(words, probs, st_i, tv[i as int]);
                assert(self.state() == step.0);
                assert(naive_run(words, probs, st_i, rest) == (
                    naive_run(words, probs, step.0, rest.skip(1)).0,
                    step.1 + naive_run(words, probs, step.0, rest.skip(1)).1,
                ));
                assert(diag_triples(step.1 + naive_run(words, probs, step.0, rest.skip(1)).1)
                    =~= diag_triples(step.1) + diag_triples(
                    naive_run(words, probs, step.0, rest.skip(1)).1,
                ));
                assert(triples_view(errors@) + diag_triples(
                    naive_run(words, probs, self.state(), tv.skip(i + 1)).1,
                ) =~= diag_triples(full.1));
            }
            i += 1;
        }
        proof {
            assert(tv.skip(i as int) =~= Seq::<TokView>::empty());
            assert(triples_view(errors@) + Seq::<(int, int, int)>::empty() =~= triples_view(
                errors@,
            ));
        }
        self.row = self.row + 1;
        errors
    }
}

} // verus!
