//! The rule table of the pair detector: a first word, a set of acceptable
//! follow-up words, and one confidence per rule.

use vstd::prelude::*;

use crate::model::rule_file::pair_rows;
use crate::model::rule_file::pair_table;
use crate::model::rule_file::read_conf_field;
use crate::strutil::split_char;
use crate::strutil::split_str;
use crate::strutil::strs_view;

verus! {

/// Pair rules. Entry `i` of `first_words`, of `second_words` and of `probs`
/// together form one rule: the first word followed, at any distance within
/// the sentence, by one of the second words, requires a comma between them.
#[derive(Clone, Debug)]
pub struct PairSettings {
    pub first_words: Vec<String>,
    pub second_words: Vec<Vec<String>>,
    pub probs: Vec<u32>,
}

impl PairSettings {
    /// Well-formed: the three columns have the same length and each
    /// confidence is within [0, 1000].
    pub open spec fn wf(&self) -> bool {
        &&& self.first_words@.len() == self.second_words@.len()
        &&& self.first_words@.len() == self.probs@.len()
        &&& forall|i: int| 0 <= i < self.probs@.len() ==> self.probs@[i] <= 1000
    }

    /// The first words as character sequences.
    pub open spec fn spec_firsts(&self) -> Seq<Seq<char>> {
        strs_view(self.first_words@)
    }

    /// The second-word lists as character sequences.
    pub open spec fn spec_seconds(&self) -> Seq<Seq<Seq<char>>> {
        self.second_words@.map_values(|v: Vec<String>| strs_view(v@))
    }

    /// Load a pair rule table from the text of a rule file: one rule per
    /// line, `first;confidence;second second ...`, lines with fewer than
    /// three fields ignored. `None` exactly when some rule line carries a
    /// malformed or out-of-range confidence.
    pub fn new_from_string(content: String) -> (r: Option<PairSettings>)
        ensures
            match r {
                Some(st) => st.wf() && pair_rows(split_char(content@, '\n')) == Some(
                    pair_table(st.first_words@, st.probs@, st.second_words@),
                ),
                None => pair_rows(split_char(content@, '\n')) is None,
            },
    {
        let rows = split_str(content.as_str(), '\n');
        let ghost rv = strs_view(rows@);

        let mut first_words: Vec<String> = Vec::new();
        let mut second_words: Vec<Vec<String>> = Vec::new();
        let mut probs: Vec<u32> = Vec::new();
        let mut i: usize = 0;
        proof {
            assert(rv.skip(0) =~= rv);
            assert(pair_table(first_words@, probs@, second_words@) =~= Seq::<
                (Seq<char>, int, Seq<Seq<char>>),
            >::empty());
        }
        while i < rows.len()
            invariant
                rv == strs_view(rows@),
                rv == split_char(content@, '\n'),
                i <= rows@.len(),
                first_words@.len() == probs@.len(),
                first_words@.len() == second_words@.len(),
                forall|k: int| 0 <= k < probs@.len() ==> probs@[k] <= 1000,
                pair_rows(rv.skip(i as int)) matches Some(t) ==> pair_rows(rv) == Some(
                    pair_table(first_words@, probs@, second_words@) + t,
                ),
                pair_rows(rv.skip(i as int)) is None ==> pair_rows(rv) is None,
            decreases rows@.len() - i,
        {
            let ghost rest = rv.skip(i as int);
            proof {
                assert(rest[0] == rv[i as int]);
                assert(rv[i as int] == rows@[i as int]@);
                assert(rest.skip(1) =~= rv.skip(i + 1));
            }
            let cols = split_str(rows[i].as_str(), ';');
            proof {
                assert(strs_view(cols@).len() == cols@.len());
            }
            if cols.len() > 2 {
                proof {
                    assert(strs_view(cols@)[0] == cols@[0]@);
                    assert(strs_view(cols@)[1] == cols@[1]@);
                    assert(strs_view(cols@)[2] == cols@[2]@);
                }
                let conf = read_conf_field(cols[1].as_str());
                match conf {
                    Some(p) => {
                        let seconds = split_str(cols[2].as_str(), ' ');
                        let ghost table0 = pair_table(first_words@, probs@, second_words@);
                        let ghost entry = (
                            cols@[0]@,
                            p as int,
                            split_char(cols@[2]@, ' '),
                        );
                        first_words.push(cols[0].clone());
                        second_words.push(seconds);
                        probs.push(p);
                        proof {
                            assert(pair_table(first_words@, probs@, second_words@) =~= table0.push(
                                entry,
                            ));
                            match pair_rows(rv.skip(i + 1)) {
                                Some(t) => {
                                    assert(pair_rows(rest) == Some(seq![entry] + t));
                                    assert(table0 + (seq![entry] + t) =~= pair_table(
                                        first_words@,
                                        probs@,
                                        second_words@,
                                    ) + t);
                                },
                                None => {},
                            }
                        }
                    },
                    None => {
                        proof {
                            assert(pair_rows(rest) is None);
                        }
                        return None;
                    },
                }
            }
            i += 1;
        }
        proof {
            assert(rv.skip(i as int) =~= Seq::<Seq<char>>::empty());
            assert(pair_rows(rv.skip(i as int)) == Some(
                Seq::<(Seq<char>, int, Seq<Seq<char>>)>::empty(),
            ));
            assert(pair_table(first_words@, probs@, second_words@) + Seq::<
                (Seq<char>, int, Seq<Seq<char>>),
            >::empty() =~= pair_table(first_words@, probs@, second_words@));
        }
        Some(PairSettings { first_words, second_words, probs })
    }
}

} // verus!
