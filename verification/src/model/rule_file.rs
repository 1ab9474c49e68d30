//! The rule-file format shared by the loaders: line-oriented, one rule per
//! line, fields separated by semicolons, blank or short lines ignored.
//!
//! A confidence field is a decimal number such as `1`, `0.70` or `.5`: an
//! optional run of digits, then optionally a dot and another run of digits,
//! with at least one digit in all. It is read into thousandths, fraction
//! digits past the third truncated, and must come to at most 1000: the
//! confidence scale is [0, 1]. The field is trimmed of blanks, tabs and
//! carriage returns first, so files with Windows line endings load cleanly.

use vstd::prelude::*;

use crate::model::is_digit;
use crate::model::text_token::digit_char;
use crate::strutil::split_char;
use crate::strutil::strs_view;

verus! {

/// A blank to strip around a confidence field.
pub open spec fn is_space(c: char) -> bool {
    c == ' ' || c == '\t' || c == '\r'
}

pub(crate) fn space_char(c: char) -> (r: bool)
    ensures
        r == is_space(c),
{
    c == ' ' || c == '\t' || c == '\r'
}

/// `s` with its leading blanks dropped.
pub open spec fn trim_front(s: Seq<char>) -> Seq<char>
    decreases s.len(),
{
    if s.len() > 0 && is_space(s[0]) {
        trim_front(s.skip(1))
    } else {
        s
    }
}

/// `s` with its trailing blanks dropped.
pub open spec fn trim_back(s: Seq<char>) -> Seq<char>
    decreases s.len(),
{
    if s.len() > 0 && is_space(s[s.len() - 1]) {
        trim_back(s.drop_last())
    } else {
        s
    }
}

/// `s` with blanks dropped at both ends.
pub open spec fn trim_spec(s: Seq<char>) -> Seq<char> {
    trim_back(trim_front(s))
}

/// When the blanks at the head of `s` are exactly those before `a`,
/// trimming the front drops precisely them.
proof fn lemma_trim_front_is(s: Seq<char>, a: int)
    requires
        0 <= a <= s.len(),
        forall|k: int| 0 <= k < a ==> is_space(s[k]),
        a == s.len() || !is_space(s[a]),
    ensures
        trim_front(s) == s.skip(a),
    decreases s.len(),
{
    if a == 0 {
        assert(s.skip(0) =~= s);
    } else {
        lemma_trim_front_is(s.skip(1), a - 1);
        assert forall|k: int| 0 <= k < a - 1 implies is_space(s.skip(1)[k]) by {
            assert(s.skip(1)[k] == s[k + 1]);
        }
        assert(s.skip(1).skip(a - 1) =~= s.skip(a));
    }
}

/// When the blanks at the tail of `s` are exactly those from `m` on,
/// trimming the back drops precisely them.
proof fn lemma_trim_back_is(s: Seq<char>, m: int)
    requires
        0 <= m <= s.len(),
        forall|k: int| m <= k < s.len() ==> is_space(s[k]),
        m == 0 || !is_space(s[m - 1]),
    ensures
        trim_back(s) == s.take(m),
    decreases s.len(),
{
    if m == s.len() {
        assert(s.take(m) =~= s);
    } else {
        lemma_trim_back_is(s.drop_last(), m);
        assert(s.drop_last().take(m) =~= s.take(m));
    }
}

/// `s` trimmed of blanks at both ends.
pub fn trim_str(s: &str) -> (r: String)
    ensures
        r@ == trim_spec(s@),
{
    let n = s.unicode_len();
    let mut a: usize = 0;
    while a < n && space_char(s.get_char(a))
        invariant
            n == s@.len(),
            a <= n,
            forall|k: int| 0 <= k < a ==> is_space(s@[k]),
        decreases n - a,
    {
        a += 1;
    }
    let mut b: usize = n;
    while b > a && space_char(s.get_char(b - 1))
        invariant
            n == s@.len(),
            a <= b <= n,
            forall|k: int| b <= k < n ==> is_space(s@[k]),
        decreases b,
    {
        b -= 1;
    }
    proof {
        lemma_trim_front_is(s@, a as int);
        let t = s@.skip(a as int);
        assert forall|k: int| b - a <= k < t.len() implies is_space(t[k]) by {
            assert(t[k] == s@[a + k]);
        }
        if b > a {
            assert(t[b - a - 1] == s@[b - 1]);
        }
        lemma_trim_back_is(t, b - a);
        assert(t.take(b - a) =~= s@.subrange(a as int, b as int));
    }
    s.substring_char(a, b).to_owned()
}

/// The numeric value of a digit character.
pub open spec fn digit_of(c: char) -> int {
    c as int - 48
}

/// Whether every character of `s` is a digit.
pub open spec fn all_digits(s: Seq<char>) -> bool {
    forall|k: int| 0 <= k < s.len() ==> is_digit(s[k])
}

/// The value of a digit run read in base ten.
pub open spec fn digits_val(s: Seq<char>) -> int
    decreases s.len(),
{
    if s.len() == 0 {
        0
    } else {
        10 * digits_val(s.drop_last()) + digit_of(s.last())
    }
}

pub proof fn lemma_digits_val_nonneg(s: Seq<char>)
    requires
        all_digits(s),
    ensures
        digits_val(s) >= 0,
    decreases s.len(),
{
    if s.len() > 0 {
        lemma_digits_val_nonneg(s.drop_last());
    }
}

/// Reading more digits never shrinks the value: the value of a prefix is a
/// lower bound for the whole run.
pub proof fn lemma_digits_val_prefix(s: Seq<char>, k: int)
    requires
        all_digits(s),
        0 <= k <= s.len(),
    ensures
        digits_val(s) >= digits_val(s.take(k)),
    decreases s.len(),
{
    lemma_digits_val_nonneg(s);
    if k < s.len() {
        assert(s.drop_last().take(k) =~= s.take(k));
        lemma_digits_val_prefix(s.drop_last(), k);
        lemma_digits_val_nonneg(s.drop_last());
    } else {
        assert(s.take(k) =~= s);
    }
}

/// The fraction digits of a confidence field read into thousandths: the
/// first three digits weighted, anything past them truncated.
pub open spec fn frac_permille(f: Seq<char>) -> int {
    100 * (if f.len() > 0 {
        digit_of(f[0])
    } else {
        0
    }) + 10 * (if f.len() > 1 {
        digit_of(f[1])
    } else {
        0
    }) + (if f.len() > 2 {
        digit_of(f[2])
    } else {
        0
    })
}

/// The value, in thousandths, of a confidence field: digits with an
/// optional dot and fraction, at least one digit in all. `None` on any
/// other shape.
pub open spec fn conf_value(s: Seq<char>) -> Option<int> {
    let parts = split_char(s, '.');
    if parts.len() == 1 && s.len() > 0 && all_digits(s) {
        Some(1000 * digits_val(s))
    } else if parts.len() == 2 && all_digits(parts[0]) && all_digits(parts[1]) && parts[0].len()
        + parts[1].len() > 0 {
        Some(1000 * digits_val(parts[0]) + frac_permille(parts[1]))
    } else {
        None
    }
}

/// What the loader accepts for a trimmed confidence field: a well-shaped
/// value of at most 1000 thousandths.
pub open spec fn accepted_conf(s: Seq<char>) -> Option<int> {
    match conf_value(trim_spec(s)) {
        Some(v) => if v <= 1000 {
            Some(v)
        } else {
            None
        },
        None => None,
    }
}

/// Read a trimmed confidence field into thousandths. `None` when the field
/// is not a decimal number or its value is over 1.
pub fn parse_prob(s: &str) -> (r: Option<u32>)
    ensures
        match r {
            Some(v) => conf_value(s@) == Some(v as int) && v <= 1000,
            None => (match conf_value(s@) {
                Some(w) => w > 1000,
                None => true,
            }),
        },
{
    let n = s.unicode_len();
    let mut dot: Option<usize> = None;
    let mut i: usize = 0;
    while i < n
        invariant
            n == s@.len(),
            i <= n,
            match dot {
                Some(p) => p < i && s@[p as int] == '.' && (forall|k: int|
                    0 <= k < i && k != p ==> is_digit(s@[k])),
                None => forall|k: int| 0 <= k < i ==> is_digit(s@[k]),
            },
        decreases n - i,
    {
        let c = s.get_char(i);
        if c == '.' {
            match dot {
                Some(p0) => {
                    proof {
                        lemma_two_dots_malformed(s@, p0 as int, i as int);
                    }
                    return None;
                },
                None => {
                    dot = Some(i);
                },
            }
        } else if !digit_char(c) {
            proof {
                lemma_bad_char_malformed(s@, i as int);
            }
            return None;
        }
        i += 1;
    }
    match dot {
        None => {
            if n == 0 {
                proof {
                    lemma_no_dot_split(s@);
                }
                return None;
            }
            let v = read_digits(s, 0, n);
            proof {
                lemma_no_dot_split(s@);
                assert(s@.subrange(0, n as int) =~= s@);
            }
            match v {
                Some(ip) => {
                    let total: u32 = ip * 1000;
                    if total > 1000 {
                        None
                    } else {
                        Some(total)
                    }
                },
                None => None,
            }
        },
        Some(p) => {
            let ghost ipart = s@.subrange(0, p as int);
            let ghost fpart = s@.subrange(p + 1, n as int);
            proof {
                lemma_one_dot_split(s@, p as int);
                assert forall|k: int| 0 <= k < fpart.len() implies is_digit(fpart[k]) by {
                    assert(fpart[k] == s@[p + 1 + k]);
                }
                assert(frac_permille(fpart) >= 0);
            }
            if n == 1 {
                return None;
            }
            let v = read_digits(s, 0, p);
            match v {
                Some(ip) => {
                    let f = read_frac(s, p + 1, n);
                    let total: u32 = ip * 1000 + f;
                    if total > 1000 {
                        None
                    } else {
                        Some(total)
                    }
                },
                None => None,
            }
        },
    }
}

/// A second dot makes the field malformed: the split has three or more
/// pieces.
proof fn lemma_two_dots_malformed(s: Seq<char>, p: int, q: int)
    requires
        0 <= p < q < s.len(),
        s[p] == '.',
        s[q] == '.',
    ensures
        conf_value(s) is None,
{
    let parts = split_char(s, '.');
    if parts.len() == 1 {
        lemma_no_dot_char(s, p);
    } else if parts.len() == 2 {
        let k = piece_bound(s, p);
        let tail = s.skip(k + 1);
        assert(split_char(s, '.') == seq![s.take(k)] + split_char(tail, '.'));
        assert(split_char(tail, '.').len() == 1);
        assert(tail[q - k - 1] == s[q]);
        lemma_no_dot_char(tail, q - k - 1);
    }
}

/// With exactly one dot and only digits elsewhere, the split is the integer
/// part and the fraction part.
proof fn lemma_one_dot_split(s: Seq<char>, p: int)
    requires
        0 <= p < s.len(),
        s[p] == '.',
        forall|k: int| 0 <= k < s.len() && k != p ==> is_digit(s[k]),
    ensures
        split_char(s, '.') == seq![s.subrange(0, p), s.subrange(p + 1, s.len() as int)],
        conf_value(s) == (if s.len() > 1 {
            Some(
                1000 * digits_val(s.subrange(0, p)) + frac_permille(
                    s.subrange(p + 1, s.len() as int),
                ),
            )
        } else {
            Option::<int>::None
        }),
{
    crate::strutil::lemma_piece_len_is(s, '.', p);
    let tail = s.skip(p + 1);
    assert forall|k: int| 0 <= k < tail.len() implies tail[k] != '.' by {
        assert(tail[k] == s[p + 1 + k]);
        assert(is_digit(s[p + 1 + k]));
    }
    crate::strutil::lemma_piece_len_is(tail, '.', tail.len() as int);
    assert(split_char(tail, '.') == seq![tail]);
    assert(s.take(p) =~= s.subrange(0, p));
    assert(tail =~= s.subrange(p + 1, s.len() as int));
    assert(split_char(s, '.') =~= seq![s.subrange(0, p), s.subrange(p + 1, s.len() as int)]);
    let ip = s.subrange(0, p);
    let fp = s.subrange(p + 1, s.len() as int);
    assert(all_digits(ip));
    assert forall|k: int| 0 <= k < fp.len() implies is_digit(fp[k]) by {
        assert(fp[k] == s[p + 1 + k]);
    }
    if s.len() > 1 {
        assert(ip.len() + fp.len() > 0);
    }
}

/// With no dot at all, the split is the whole field.
proof fn lemma_no_dot_split(s: Seq<char>)
    requires
        forall|k: int| 0 <= k < s.len() ==> is_digit(s[k]),
    ensures
        split_char(s, '.') == seq![s],
        conf_value(s) == (if s.len() > 0 {
            Some(1000 * digits_val(s))
        } else {
            Option::<int>::None
        }),
{
    assert forall|k: int| 0 <= k < s.len() implies s[k] != '.' by {
        assert(is_digit(s[k]));
    }
    crate::strutil::lemma_piece_len_is(s, '.', s.len() as int);
    if s.len() == 0 {
        assert(split_char(s, '.').len() == 1);
        assert(split_char(s, '.')[0] == s);
    }
}

/// A split with one piece means the separator does not occur.
proof fn lemma_no_dot_char(s: Seq<char>, p: int)
    requires
        0 <= p < s.len(),
        s[p] == '.',
    ensures
        split_char(s, '.').len() != 1,
{
    crate::strutil::lemma_piece_len(s, '.');
    let k = piece_bound(s, p);
    crate::strutil::lemma_split_char_len(s.skip(k + 1), '.');
}

/// The piece length stops at or before the dot at `p`.
proof fn piece_bound(s: Seq<char>, p: int) -> (k: int)
    requires
        0 <= p < s.len(),
        s[p] == '.',
    ensures
        k == crate::strutil::piece_len(s, '.'),
        0 <= k <= p,
        k < s.len(),
{
    crate::strutil::lemma_piece_len(s, '.');
    let k = crate::strutil::piece_len(s, '.');
    if k > p {
        assert(s[p] != '.');
    }
    k
}

/// Read the digit run `s[from..to]` in base ten, giving up once the value
/// passes 1000: a confidence never needs more.
fn read_digits(s: &str, from: usize, to: usize) -> (r: Option<u32>)
    requires
        from <= to <= s@.len(),
        forall|k: int| from <= k < to ==> is_digit(s@[k]),
    ensures
        match r {
            Some(v) => v == digits_val(s@.subrange(from as int, to as int)) && v <= 1000,
            None => digits_val(s@.subrange(from as int, to as int)) > 1000,
        },
{
    let ghost run = s@.subrange(from as int, to as int);
    let mut acc: u32 = 0;
    let mut i: usize = from;
    proof {
        assert(run.take(0) =~= Seq::<char>::empty());
    }
    while i < to
        invariant
            from <= i <= to <= s@.len(),
            run == s@.subrange(from as int, to as int),
            forall|k: int| from <= k < to ==> is_digit(s@[k]),
            acc == digits_val(run.take(i - from)),
            acc <= 1000,
        decreases to - i,
    {
        let c = s.get_char(i);
        proof {
            assert(run[i - from] == s@[i as int]);
            assert(run.take(i - from + 1).drop_last() =~= run.take(i - from));
            assert(run.take(i - from + 1).last() == run[i - from]);
        }
        let d: u32 = (c as u32) - 48;
        let next: u32 = acc * 10 + d;
        if next > 1000 {
            proof {
                assert forall|k: int| 0 <= k < run.len() implies is_digit(run[k]) by {
                    assert(run[k] == s@[from + k]);
                }
                lemma_digits_val_prefix(run, i - from + 1);
            }
            return None;
        }
        acc = next;
        i += 1;
    }
    proof {
        assert(run.take(to - from) =~= run);
    }
    Some(acc)
}

/// Read the fraction digits `s[from..to]` into thousandths: the first three
/// weighted, the rest truncated.
fn read_frac(s: &str, from: usize, to: usize) -> (r: u32)
    requires
        from <= to <= s@.len(),
        forall|k: int| from <= k < to ==> is_digit(s@[k]),
    ensures
        r == frac_permille(s@.subrange(from as int, to as int)),
        r <= 999,
{
    let ghost f = s@.subrange(from as int, to as int);
    let d0: u32 = if to - from > 0 {
        proof {
            assert(f[0] == s@[from as int]);
        }
        (s.get_char(from) as u32) - 48
    } else {
        0
    };
    let d1: u32 = if to - from > 1 {
        proof {
            assert(f[1] == s@[from + 1]);
        }
        (s.get_char(from + 1) as u32) - 48
    } else {
        0
    };
    let d2: u32 = if to - from > 2 {
        proof {
            assert(f[2] == s@[from + 2]);
        }
        (s.get_char(from + 2) as u32) - 48
    } else {
        0
    };
    100 * d0 + 10 * d1 + d2
}

/// A non-digit, non-dot character makes the field malformed.
proof fn lemma_bad_char_malformed(s: Seq<char>, i: int)
    requires
        0 <= i < s.len(),
        s[i] != '.',
        !is_digit(s[i]),
    ensures
        conf_value(s) is None,
{
    let parts = split_char(s, '.');
    if parts.len() == 1 && s.len() > 0 && all_digits(s) {
        assert(is_digit(s[i]));
    }
    if parts.len() == 2 && all_digits(parts[0]) && all_digits(parts[1]) {
        lemma_two_part_chars(s, i);
    }
}

/// When the split has two pieces that are all digits, every character but
/// the one dot is a digit.
proof fn lemma_two_part_chars(s: Seq<char>, i: int)
    requires
        0 <= i < s.len(),
        s[i] != '.',
        split_char(s, '.').len() == 2,
        all_digits(split_char(s, '.')[0]),
        all_digits(split_char(s, '.')[1]),
    ensures
        is_digit(s[i]),
{
    crate::strutil::lemma_piece_len(s, '.');
    let k = crate::strutil::piece_len(s, '.');
    if k == s.len() as int {
        assert(split_char(s, '.').len() == 1);
    } else {
        let tail = s.skip(k + 1);
        assert(split_char(s, '.') == seq![s.take(k)] + split_char(tail, '.'));
        crate::strutil::lemma_piece_len(tail, '.');
        let k2 = crate::strutil::piece_len(tail, '.');
        if k2 == tail.len() as int {
            assert(split_char(tail, '.') == seq![tail]);
            assert(split_char(s, '.')[0] == s.take(k));
            assert(split_char(s, '.')[1] == tail);
            if i < k {
                assert(s.take(k)[i] == s[i]);
            } else if i == k {
                assert(s[k] == '.');
            } else {
                assert(tail[i - k - 1] == s[i]);
            }
        } else {
            crate::strutil::lemma_split_char_len(tail.skip(k2 + 1), '.');
        }
    }
}

/// The rows of a single-word rule table: for each line with at least two
/// semicolon-separated fields, the word and its confidence in thousandths.
/// `None` as soon as one such line has a malformed or out-of-range
/// confidence; short or blank lines are ignored.
pub open spec fn rule_rows(rows: Seq<Seq<char>>) -> Option<Seq<(Seq<char>, int)>>
    decreases rows.len(),
{
    if rows.len() == 0 {
        Some(Seq::empty())
    } else {
        let cols = split_char(rows[0], ';');
        let rest = rule_rows(rows.skip(1));
        if cols.len() <= 1 {
            rest
        } else {
            match accepted_conf(cols[1]) {
                Some(p) => match rest {
                    Some(t) => Some(seq![(cols[0], p)] + t),
                    None => None,
                },
                None => None,
            }
        }
    }
}

/// The rows of a pair rule table: for each line with at least three
/// semicolon-separated fields, the first word, its confidence in
/// thousandths, and the space-separated second words. `None` as soon as one
/// such line has a malformed or out-of-range confidence.
pub open spec fn pair_rows(rows: Seq<Seq<char>>) -> Option<Seq<(Seq<char>, int, Seq<Seq<char>>)>>
    decreases rows.len(),
{
    if rows.len() == 0 {
        Some(Seq::empty())
    } else {
        let cols = split_char(rows[0], ';');
        let rest = pair_rows(rows.skip(1));
        if cols.len() <= 2 {
            rest
        } else {
            match accepted_conf(cols[1]) {
                Some(p) => match rest {
                    Some(t) => Some(seq![(cols[0], p, split_char(cols[2], ' '))] + t),
                    None => None,
                },
                None => None,
            }
        }
    }
}

/// The rows that a word/confidence table holds: entry `k` pairs the view of
/// word `k` with its confidence.
pub open spec fn table_pairs(ws: Seq<String>, ps: Seq<u32>) -> Seq<(Seq<char>, int)> {
    Seq::new(ws.len(), |k: int| (ws[k]@, ps[k] as int))
}

/// The rows that a pair table holds: entry `k` carries the first word, its
/// confidence, and the views of its second words.
pub open spec fn pair_table(fs: Seq<String>, ps: Seq<u32>, ss: Seq<Vec<String>>) -> Seq<
    (Seq<char>, int, Seq<Seq<char>>),
> {
    Seq::new(fs.len(), |k: int| (fs[k]@, ps[k] as int, strs_view(ss[k]@)))
}

/// Read one trimmed confidence field: the accepted value in thousandths.
pub fn read_conf_field(field: &str) -> (r: Option<u32>)
    ensures
        match r {
            Some(v) => accepted_conf(field@) == Some(v as int),
            None => accepted_conf(field@) is None,
        },
{
    let trimmed = trim_str(field);
    let parsed = parse_prob(trimmed.as_str());
    match parsed {
        Some(v) => Some(v),
        None => None,
    }
}

} // verus!
