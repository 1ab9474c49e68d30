//! The word-level lexer: cuts raw text into space-separated words, tracking
//! a one-based `(row, column)` cursor.
//!
//! Every space ends a word, so consecutive spaces produce empty words. A
//! word that contains line breaks is cut further at each of them; every cut
//! piece is emitted at the cursor, after which the cursor moves to the head
//! of the next row. A word without a line break moves the column forward by
//! its code-point count plus one for the space that followed it.

use vstd::prelude::*;

use crate::model::Token;
use crate::model::TokenV;
use crate::model::lemma_token_views_push;
use crate::model::spec_token;
use crate::model::token_views;
use crate::strutil::contains_char;
use crate::strutil::lemma_split_char_len;
use crate::strutil::lemma_split_char_width;
use crate::strutil::lemma_words_width_nonneg;
use crate::strutil::split_char;
use crate::strutil::split_str;
use crate::strutil::strs_view;
use crate::strutil::words_width;

verus! {

/// The tokens of the line pieces `ps` from a cursor `(row, col)`: each piece
/// is emitted at the cursor, which then moves to the head of the next row.
/// The results are the tokens and the final cursor.
pub open spec fn emit_parts(ps: Seq<Seq<char>>, row: int, col: int) -> (Seq<TokenV>, int, int)
    decreases ps.len(),
{
    if ps.len() == 0 {
        (Seq::empty(), row, col)
    } else {
        let r = emit_parts(ps.skip(1), row + 1, 1);
        (seq![spec_token(ps[0], row, col)] + r.0, r.1, r.2)
    }
}

/// The tokens of one space-separated word: cut at its line breaks if it has
/// any, otherwise emitted whole, moving the column by its code-point count
/// plus one.
pub open spec fn emit_word(w: Seq<char>, row: int, col: int) -> (Seq<TokenV>, int, int) {
    if w.contains('\n') {
        emit_parts(split_char(w, '\n'), row, col)
    } else {
        (seq![spec_token(w, row, col)], row, col + w.len() + 1)
    }
}

/// The tokens of a list of space-separated words, threaded through the
/// cursor.
pub open spec fn emit_words(ws: Seq<Seq<char>>, row: int, col: int) -> (Seq<TokenV>, int, int)
    decreases ws.len(),
{
    if ws.len() == 0 {
        (Seq::empty(), row, col)
    } else {
        let e = emit_word(ws[0], row, col);
        let r = emit_words(ws.skip(1), e.1, e.2);
        (e.0 + r.0, r.1, r.2)
    }
}

/// The whole-document tokenization: split on spaces and emit from (1, 1).
pub open spec fn tokenize_model(s: Seq<char>) -> (Seq<TokenV>, int, int) {
    emit_words(split_char(s, ' '), 1, 1)
}

/// The tokens of one row's words: every token carries the same row, and the
/// column accumulates. The second result is the final column.
pub open spec fn emit_row(ws: Seq<Seq<char>>, row: int, col: int) -> (Seq<TokenV>, int)
    decreases ws.len(),
{
    if ws.len() == 0 {
        (Seq::empty(), col)
    } else {
        let r = emit_row(ws.skip(1), row, col + ws[0].len() + 1);
        (seq![spec_token(ws[0], row, col)] + r.0, r.1)
    }
}

/// Cuts raw text into space-separated word tokens with positions.
pub struct PlainTextLexer {
    pub row: usize,
    pub col: usize,
}

impl PlainTextLexer {
    pub fn new() -> (r: PlainTextLexer)
        ensures
            r.row == 1,
            r.col == 1,
    {
        PlainTextLexer { row: 1, col: 1 }
    }

    /// Tokenize a whole document from a fresh (1, 1) cursor.
    pub fn tokenize(&mut self, text: &str) -> (r: Vec<Token>)
        requires
            text@.len() + 2 <= usize::MAX,
        ensures
            token_views(r@) == tokenize_model(text@).0,
            final(self).row == tokenize_model(text@).1,
            final(self).col == tokenize_model(text@).2,
    {
        let words = split_str(text, ' ');
        let ghost wsv = strs_view(words@);
        let ghost full = emit_words(wsv, 1, 1);

        self.col = 1;
        self.row = 1;

        let mut tokens: Vec<Token> = Vec::new();
        let mut i: usize = 0;
        proof {
            lemma_split_char_width(text@, ' ');
            assert(wsv.skip(0) =~= wsv);
            assert(token_views(tokens@) + full.0 =~= full.0);
        }
        while i < words.len()
            invariant
                wsv == strs_view(words@),
                i <= words@.len(),
                token_views(tokens@) + emit_words(
                    wsv.skip(i as int),
                    self.row as int,
                    self.col as int,
                ).0 == full.0,
                emit_words(wsv.skip(i as int), self.row as int, self.col as int).1 == full.1,
                emit_words(wsv.skip(i as int), self.row as int, self.col as int).2 == full.2,
                self.col + words_width(wsv.skip(i as int)) <= usize::MAX,
                self.row + words_width(wsv.skip(i as int)) <= usize::MAX,
            decreases words@.len() - i,
        {
            let ghost row0 = self.row as int;
            let ghost col0 = self.col as int;
            let ghost restw = wsv.skip(i as int);
            proof {
                assert(restw[0] == wsv[i as int]);
                assert(wsv[i as int] == words@[i as int]@);
                assert(restw.skip(1) =~= wsv.skip(i + 1));
                assert(words_width(restw) == restw[0].len() + 1 + words_width(restw.skip(1)));
                lemma_words_width_nonneg(restw.skip(1));
            }
            let word = &words[i];
            if contains_char(word.as_str(), '\n') {
                let parts = split_str(word.as_str(), '\n');
                let ghost psv = strs_view(parts@);
                let ghost e = emit_parts(psv, row0, col0);
                let ghost tokens0 = tokens@;
                proof {
                    lemma_split_char_len(word@, '\n');
                    lemma_split_char_width(word@, '\n');
                    assert(psv.skip(0) =~= psv);
                    assert(token_views(tokens@) + emit_parts(psv, row0, col0).0 =~= token_views(
                        tokens0,
                    ) + e.0);
                }
                let mut p: usize = 0;
                while p < parts.len()
                    invariant
                        psv == strs_view(parts@),
                        p <= parts@.len(),
                        token_views(tokens@) + emit_parts(
                            psv.skip(p as int),
                            self.row as int,
                            self.col as int,
                        ).0 == token_views(tokens0) + e.0,
                        emit_parts(psv.skip(p as int), self.row as int, self.col as int).1
                            == e.1,
                        emit_parts(psv.skip(p as int), self.row as int, self.col as int).2
                            == e.2,
                        self.row as int == row0 + p,
                        p > 0 ==> self.col == 1,
                        p == 0 ==> self.col as int == col0,
                        self.row + (parts@.len() - p) <= usize::MAX,
                    decreases parts@.len() - p,
                {
                    let ghost restp = psv.skip(p as int);
                    proof {
                        assert(restp[0] == psv[p as int]);
                        assert(psv[p as int] == parts@[p as int]@);
                        assert(restp.skip(1) =~= psv.skip(p + 1));
                    }
                    let t = Token::new(parts[p].as_str(), self.row, self.col);
                    proof {
                        lemma_token_views_push(tokens@, t);
                        assert(emit_parts(restp, self.row as int, self.col as int) == (
                            seq![spec_token(restp[0], self.row as int, self.col as int)]
                                + emit_parts(restp.skip(1), self.row as int + 1, 1).0,
                            emit_parts(restp.skip(1), self.row as int + 1, 1).1,
                            emit_parts(restp.skip(1), self.row as int + 1, 1).2,
                        ));
                    }
                    tokens.push(t);
                    self.col = 1;
                    self.row = self.row + 1;
                    proof {
                        assert(token_views(tokens@) + emit_parts(
                            psv.skip(p + 1),
                            self.row as int,
                            self.col as int,
                        ).0 =~= token_views(tokens0) + e.0);
                    }
                    p += 1;
                }
                proof {
                    assert(psv.skip(p as int) =~= Seq::<Seq<char>>::empty());
                    assert(token_views(tokens@) + Seq::<TokenV>::empty() =~= token_views(
                        tokens@,
                    ));
                    assert(emit_word(restw[0], row0, col0) == e);
                    assert(emit_words(restw, row0, col0) == (
                        e.0 + emit_words(restw.skip(1), e.1, e.2).0,
                        emit_words(restw.skip(1), e.1, e.2).1,
                        emit_words(restw.skip(1), e.1, e.2).2,
                    ));
                    assert(token_views(tokens@) + emit_words(
                        wsv.skip(i + 1),
                        self.row as int,
                        self.col as int,
                    ).0 =~= full.0);
                    assert(words_width(psv) == restw[0].len() + 1);
                    lemma_words_width_nonneg(restw.skip(1));
                }
            } else {
                let t = Token::new(word.as_str(), self.row, self.col);
                proof {
                    lemma_token_views_push(tokens@, t);
                }
                tokens.push(t);
                self.col = self.col + word.as_str().unicode_len() + 1;
                proof {
                    assert(emit_word(restw[0], row0, col0) == (
                        seq![spec_token(restw[0], row0, col0)],
                        row0,
                        col0 + restw[0].len() + 1,
                    ));
                    let e = emit_word(restw[0], row0, col0);
                    assert(emit_words(restw, row0, col0) == (
                        e.0 + emit_words(restw.skip(1), e.1, e.2).0,
                        emit_words(restw.skip(1), e.1, e.2).1,
                        emit_words(restw.skip(1), e.1, e.2).2,
                    ));
                    assert(token_views(tokens@) + emit_words(
                        wsv.skip(i + 1),
                        self.row as int,
                        self.col as int,
                    ).0 =~= full.0);
                }
            }
            i += 1;
        }
        proof {
            assert(wsv.skip(i as int) =~= Seq::<Seq<char>>::empty());
            assert(token_views(tokens@) + Seq::<TokenV>::empty() =~= token_views(tokens@));
        }
        tokens
    }

    /// Tokenize one row of text: the column restarts at 1, every token
    /// carries the current row, and the row moves on by one afterwards.
    /// Line breaks are not cut here; chunked input hands rows in one by one.
    pub fn tokenize_row(&mut self, row: &str) -> (r: Vec<Token>)
        requires
            row@.len() + 2 <= usize::MAX,
            old(self).row + 1 <= usize::MAX,
        ensures
            token_views(r@) == emit_row(split_char(row@, ' '), old(self).row as int, 1).0,
            final(self).col == emit_row(split_char(row@, ' '), old(self).row as int, 1).1,
            final(self).row == old(self).row + 1,
    {
        let words = split_str(row, ' ');
        let ghost wsv = strs_view(words@);
        let ghost row0 = self.row as int;
        let ghost full = emit_row(wsv, row0, 1);

        self.col = 1;

        let mut tokens: Vec<Token> = Vec::new();
        let mut i: usize = 0;
        proof {
            lemma_split_char_width(row@, ' ');
            assert(wsv.skip(0) =~= wsv);
            assert(token_views(tokens@) + full.0 =~= full.0);
        }
        while i < words.len()
            invariant
                wsv == strs_view(words@),
                i <= words@.len(),
                self.row as int == row0,
                token_views(tokens@) + emit_row(wsv.skip(i as int), row0, self.col as int).0
                    == full.0,
                emit_row(wsv.skip(i as int), row0, self.col as int).1 == full.1,
                self.col + words_width(wsv.skip(i as int)) <= usize::MAX,
            decreases words@.len() - i,
        {
            let ghost col0 = self.col as int;
            let ghost restw = wsv.skip(i as int);
            proof {
                assert(restw[0] == wsv[i as int]);
                assert(wsv[i as int] == words@[i as int]@);
                assert(restw.skip(1) =~= wsv.skip(i + 1));
                assert(words_width(restw) == restw[0].len() + 1 + words_width(restw.skip(1)));
                lemma_words_width_nonneg(restw.skip(1));
            }
            let word = &words[i];
            let t = Token::new(word.as_str(), self.row, self.col);
            proof {
                lemma_token_views_push(tokens@, t);
            }
            tokens.push(t);
            self.col = self.col + word.as_str().unicode_len() + 1;
            proof {
                assert(emit_row(restw, row0, col0) == (
                    seq![spec_token(restw[0], row0, col0)] + emit_row(
                        restw.skip(1),
                        row0,
                        col0 + restw[0].len() + 1,
                    ).0,
                    emit_row(restw.skip(1), row0, col0 + restw[0].len() + 1).1,
                ));
                assert(token_views(tokens@) + emit_row(
                    wsv.skip(i + 1),
                    row0,
                    self.col as int,
                ).0 =~= full.0);
            }
            i += 1;
        }
        proof {
            assert(wsv.skip(i as int) =~= Seq::<Seq<char>>::empty());
            assert(token_views(tokens@) + Seq::<TokenV>::empty() =~= token_views(tokens@));
        }
        self.row = self.row + 1;
        tokens
    }
}

} // verus!
