//! The word-level token of the plain-text lexer: a word with its position
//! and two derived flags.

use vstd::prelude::*;

verus! {

/// Whether `s` ends with the character `c`.
pub open spec fn ends_with_char(s: Seq<char>, c: char) -> bool {
    s.len() > 0 && s[s.len() - 1] == c
}

/// The mathematical image of a word-level token.
pub ghost struct TokenV {
    pub text: Seq<char>,
    pub is_comma: bool,
    pub is_full_stop: bool,
    pub row: int,
    pub col: int,
}

/// The token `text` takes at `(row, col)`: the flags record whether the
/// word drags a comma or a full stop along at its end.
pub open spec fn spec_token(text: Seq<char>, row: int, col: int) -> TokenV {
    TokenV {
        text,
        is_comma: ends_with_char(text, ','),
        is_full_stop: ends_with_char(text, '.'),
        row,
        col,
    }
}

/// A word cut out of the raw text, with its position and two derived flags.
#[derive(Clone, Debug)]
pub struct Token {
    pub text: String,
    pub is_comma: bool,
    pub is_full_stop: bool,
    pub row: usize,
    pub col: usize,
}

impl View for Token {
    type V = TokenV;

    open spec fn view(&self) -> TokenV {
        TokenV {
            text: self.text@,
            is_comma: self.is_comma,
            is_full_stop: self.is_full_stop,
            row: self.row as int,
            col: self.col as int,
        }
    }
}

impl Token {
    pub fn new(text: &str, row: usize, col: usize) -> (r: Token)
        ensures
            r@ == spec_token(text@, row as int, col as int),
    {
        let n = text.unicode_len();
        let is_comma = n > 0 && text.get_char(n - 1) == ',';
        let is_full_stop = n > 0 && text.get_char(n - 1) == '.';
        Token { text: text.to_owned(), is_comma, is_full_stop, row, col }
    }
}

/// The views of a sequence of word-level tokens.
pub open spec fn token_views(ts: Seq<Token>) -> Seq<TokenV> {
    ts.map_values(|t: Token| t@)
}

/// Appending a token on the right maps through `token_views`.
pub proof fn lemma_token_views_push(ts: Seq<Token>, t: Token)
    ensures
        token_views(ts.push(t)) =~= token_views(ts).push(t@),
{
}

} // verus!
