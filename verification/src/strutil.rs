//! Small verified string helpers shared by the lexers, the detectors and the
//! rule-table loaders: word lookup in a rule table, splitting on a separator
//! character, trimming, and a trusted lowercase conversion.

use vstd::prelude::*;

verus! {

/// The views of a sequence of owned strings.
pub open spec fn strs_view(ws: Seq<String>) -> Seq<Seq<char>> {
    ws.map_values(|w: String| w@)
}

/// Index of the first entry of `words` equal to `w`, if any.
pub open spec fn find_word(words: Seq<Seq<char>>, w: Seq<char>) -> Option<int>
    decreases words.len(),
{
    if words.len() == 0 {
        None
    } else if words[0] == w {
        Some(0int)
    } else {
        match find_word(words.skip(1), w) {
            Some(i) => Some(i + 1),
            None => None,
        }
    }
}

/// `find_word` returns the first match: a `Some(i)` points at an equal entry
/// with no equal entry before it, and `None` means no entry is equal.
pub proof fn lemma_find_word(words: Seq<Seq<char>>, w: Seq<char>)
    ensures
        match find_word(words, w) {
            Some(i) => 0 <= i < words.len() && words[i] == w && (forall|j: int|
                0 <= j < i ==> words[j] != w),
            None => forall|j: int| 0 <= j < words.len() ==> words[j] != w,
        },
    decreases words.len(),
{
    if words.len() > 0 && words[0] != w {
        lemma_find_word(words.skip(1), w);
        match find_word(words.skip(1), w) {
            Some(i) => {
                assert(words.skip(1)[i] == words[i + 1]);
                assert forall|j: int| 0 <= j < i + 1 implies words[j] != w by {
                    if j > 0 {
                        assert(words.skip(1)[j - 1] == words[j]);
                    }
                }
            },
            None => {
                assert forall|j: int| 0 <= j < words.len() implies words[j] != w by {
                    if j > 0 {
                        assert(words.skip(1)[j - 1] == words[j]);
                    }
                }
            },
        }
    }
}

/// First index of `w` in `words`, comparing whole strings.
pub fn position_of(words: &Vec<String>, w: &String) -> (r: Option<usize>)
    ensures
        match r {
            Some(i) => i < words@.len() && find_word(strs_view(words@), w@) == Some(i as int),
            None => find_word(strs_view(words@), w@) is None,
        },
{
    let ghost ws = strs_view(words@);
    let mut i: usize = 0;
    while i < words.len()
        invariant
            i <= words@.len(),
            ws == strs_view(words@),
            forall|j: int| 0 <= j < i ==> ws[j] != w@,
        decreases words@.len() - i,
    {
        if words[i] == *w {
            proof {
                assert(ws[i as int] == words@[i as int]@);
                lemma_find_word(ws, w@);
            }
            return Some(i);
        }
        i += 1;
    }
    proof {
        lemma_find_word(ws, w@);
    }
    None
}

/// Length of the longest prefix of `s` free of the separator `sep`.
pub open spec fn piece_len(s: Seq<char>, sep: char) -> int
    decreases s.len(),
{
    if s.len() == 0 || s[0] == sep {
        0
    } else {
        1 + piece_len(s.skip(1), sep)
    }
}

/// `piece_len` marks the first separator: everything before it differs from
/// `sep`, and the piece ends only at a separator or at the end of the text.
pub proof fn lemma_piece_len(s: Seq<char>, sep: char)
    ensures
        0 <= piece_len(s, sep) <= s.len(),
        forall|k: int| 0 <= k < piece_len(s, sep) ==> s[k] != sep,
        piece_len(s, sep) < s.len() ==> s[piece_len(s, sep)] == sep,
    decreases s.len(),
{
    if s.len() > 0 && s[0] != sep {
        lemma_piece_len(s.skip(1), sep);
        assert forall|k: int| 0 <= k < piece_len(s, sep) implies s[k] != sep by {
            if k > 0 {
                assert(s.skip(1)[k - 1] == s[k]);
            }
        }
        if piece_len(s, sep) < s.len() {
            assert(s.skip(1)[piece_len(s, sep) - 1] == s[piece_len(s, sep)]);
        }
    }
}

/// When the characters of `s` before `m` are exactly those that differ from
/// `sep`, the piece length is `m`.
pub proof fn lemma_piece_len_is(s: Seq<char>, sep: char, m: int)
    requires
        0 <= m <= s.len(),
        forall|k: int| 0 <= k < m ==> s[k] != sep,
        m == s.len() || s[m] == sep,
    ensures
        piece_len(s, sep) == m,
{
    lemma_piece_len(s, sep);
}

/// `s` split on `sep`, empty pieces kept: splitting the empty text gives one
/// empty piece, and a separator at either end contributes an empty piece.
pub open spec fn split_char(s: Seq<char>, sep: char) -> Seq<Seq<char>>
    decreases s.len(),
    via split_char_decreases
{
    let k = piece_len(s, sep);
    if k == s.len() {
        seq![s]
    } else {
        seq![s.take(k)] + split_char(s.skip(k + 1), sep)
    }
}

#[via_fn]
proof fn split_char_decreases(s: Seq<char>, sep: char) {
    lemma_piece_len(s, sep);
}

/// A split never has more pieces than characters plus one.
pub proof fn lemma_split_char_len(s: Seq<char>, sep: char)
    ensures
        1 <= split_char(s, sep).len() <= s.len() + 1,
    decreases s.len(),
{
    lemma_piece_len(s, sep);
    let k = piece_len(s, sep);
    if k != s.len() {
        lemma_split_char_len(s.skip(k + 1), sep);
    }
}

/// The column width of a list of words: each word's code-point count plus
/// one for the separator that followed it.
pub open spec fn words_width(ws: Seq<Seq<char>>) -> int
    decreases ws.len(),
{
    if ws.len() == 0 {
        0
    } else {
        ws[0].len() + 1 + words_width(ws.skip(1))
    }
}

pub proof fn lemma_words_width_nonneg(ws: Seq<Seq<char>>)
    ensures
        words_width(ws) >= 0,
    decreases ws.len(),
{
    if ws.len() > 0 {
        lemma_words_width_nonneg(ws.skip(1));
    }
}

/// Splitting conserves width: the pieces of `s`, each extended by one for
/// its separator, together are exactly one wider than `s` itself.
pub proof fn lemma_split_char_width(s: Seq<char>, sep: char)
    ensures
        words_width(split_char(s, sep)) == s.len() + 1,
    decreases s.len(),
{
    lemma_piece_len(s, sep);
    let k = piece_len(s, sep);
    if k == s.len() {
        assert(split_char(s, sep) == seq![s]);
        assert(words_width(seq![s].skip(1)) == 0) by {
            assert(seq![s].skip(1) =~= Seq::<Seq<char>>::empty());
        }
    } else {
        lemma_split_char_width(s.skip(k + 1), sep);
        let parts = split_char(s, sep);
        assert(parts.skip(1) =~= split_char(s.skip(k + 1), sep));
        assert(parts[0] == s.take(k));
    }
}

/// Whether `c` occurs in `s`.
pub fn contains_char(s: &str, c: char) -> (r: bool)
    ensures
        r == s@.contains(c),
{
    let n = s.unicode_len();
    let mut i: usize = 0;
    while i < n
        invariant
            n == s@.len(),
            i <= n,
            forall|k: int| 0 <= k < i ==> s@[k] != c,
        decreases n - i,
    {
        if s.get_char(i) == c {
            return true;
        }
        i += 1;
    }
    proof {
        assert(!s@.contains(c)) by {
            if s@.contains(c) {
                let w = choose|w: int| 0 <= w < s@.len() && s@[w] == c;
            }
        }
    }
    false
}

/// `s` split on the character `sep`, empty pieces kept.
pub fn split_str(s: &str, sep: char) -> (r: Vec<String>)
    ensures
        strs_view(r@) == split_char(s@, sep),
{
    let n = s.unicode_len();
    let mut out: Vec<String> = Vec::new();
    let mut i: usize = 0;
    proof {
        assert(s@.skip(0) =~= s@);
        assert(strs_view(out@) + split_char(s@, sep) =~= split_char(s@, sep));
    }
    loop
        invariant_except_break
            n == s@.len(),
            i <= n,
            strs_view(out@) + split_char(s@.skip(i as int), sep) == split_char(s@, sep),
        ensures
            strs_view(out@) == split_char(s@, sep),
        decreases n - i,
    {
        let ghost rest = s@.skip(i as int);
        let mut j: usize = i;
        while j < n && s.get_char(j) != sep
            invariant
                n == s@.len(),
                i <= j <= n,
                forall|k: int| i <= k < j ==> s@[k] != sep,
            decreases n - j,
        {
            j += 1;
        }
        proof {
            assert forall|k: int| 0 <= k < j - i implies rest[k] != sep by {
                assert(rest[k] == s@[i + k]);
            }
            if j < n {
                assert(rest[j - i] == s@[j as int]);
            }
            lemma_piece_len_is(rest, sep, j - i);
        }
        let piece = s.substring_char(i, j).to_owned();
        let ghost out0 = out@;
        proof {
            assert(piece@ =~= rest.take(j - i));
        }
        out.push(piece);
        proof {
            assert(strs_view(out@) =~= strs_view(out0) + seq![rest.take(j - i)]);
        }
        if j == n {
            proof {
                assert(rest.take(j - i) =~= rest);
                assert(split_char(rest, sep) == seq![rest]);
                assert(strs_view(out@) =~= split_char(s@, sep));
            }
            break;
        }
        proof {
            assert(split_char(rest, sep) == seq![rest.take(j - i)] + split_char(
                rest.skip(j - i + 1),
                sep,
            ));
            assert(rest.skip(j - i + 1) =~= s@.skip(j + 1));
            assert(strs_view(out@) + split_char(s@.skip(j + 1), sep) =~= split_char(s@, sep));
        }
        i = j + 1;
    }
    out
}

/// What `str::to_lowercase` returns: a pure function of the characters alone.
pub uninterp spec fn lower_of(s: Seq<char>) -> Seq<char>;

/// Relies on str::to_lowercase: the lowercase form of a string depends on its
/// characters alone.
#[verifier::external_body]
pub(crate) fn to_lower(s: &str) -> (r: String)
    ensures
        r@ == lower_of(s@),
{
    s.to_lowercase()
}

} // verus!
