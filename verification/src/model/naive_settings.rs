//! The rule table of the single-word detectors: trigger words, each with a
//! confidence in thousandths.

use vstd::prelude::*;

use crate::model::rule_file::read_conf_field;
use crate::model::rule_file::rule_rows;
use crate::model::rule_file::table_pairs;
use crate::strutil::split_char;
use crate::strutil::split_str;
use crate::strutil::strs_view;

verus! {

/// Trigger words and their confidences, loaded from a delimited rule file or
/// built directly. Entry `i` of `probs` belongs to entry `i` of `words`.
#[derive(Clone, Debug)]
pub struct NaiveSettings {
    pub words: Vec<String>,
    pub probs: Vec<u32>,
}

impl NaiveSettings {
    /// Well-formed: one confidence per word, each within [0, 1000].
    pub open spec fn wf(&self) -> bool {
        &&& self.words@.len() == self.probs@.len()
        &&& forall|i: int| 0 <= i < self.probs@.len() ==> self.probs@[i] <= 1000
    }

    /// The trigger words as character sequences.
    pub open spec fn spec_words(&self) -> Seq<Seq<char>> {
        strs_view(self.words@)
    }

    /// Load a rule table from the text of a rule file: one rule per line,
    /// `word;confidence`, lines with fewer than two fields ignored. `None`
    /// exactly when some rule line carries a malformed or out-of-range
    /// confidence.
    pub fn new_from_string(content: String) -> (r: Option<NaiveSettings>)
        ensures
            match r {
                Some(st) => st.wf() && rule_rows(split_char(content@, '\n')) == Some(
                    table_pairs(st.words@, st.probs@),
                ),
                None => rule_rows(split_char(content@, '\n')) is None,
            },
    {
        let rows = split_str(content.as_str(), '\n');
        let ghost rv = strs_view(rows@);

        let mut words: Vec<String> = Vec::new();
        let mut probs: Vec<u32> = Vec::new();
        let mut i: usize = 0;
        proof {
            assert(rv.skip(0) =~= rv);
            assert(table_pairs(words@, probs@) =~= Seq::<(Seq<char>, int)>::empty());
        }
        while i < rows.len()
            invariant
                rv == strs_view(rows@),
                rv == split_char(content@, '\n'),
                i <= rows@.len(),
                words@.len() == probs@.len(),
                forall|k: int| 0 <= k < probs@.len() ==> probs@[k] <= 1000,
                rule_rows(rv.skip(i as int)) matches Some(t) ==> rule_rows(rv) == Some(
                    table_pairs(words@, probs@) + t,
                ),
                rule_rows(rv.skip(i as int)) is None ==> rule_rows(rv) is None,
            decreases rows@.len() - i,
        {
            let ghost rest = rv.skip(i as int);
            proof {
                assert(rest[0] == rv[i as int]);
                assert(rv[i as int] == rows@[i as int]@);
                assert(rest.skip(1) =~= rv.skip(i + 1));
            }
            let cols = split_str(rows[i].as_str(), ';');
            proof {
                assert(strs_view(cols@).len() == cols@.len());
            }
            if cols.len() > 1 {
                proof {
                    assert(strs_view(cols@)[1] == cols@[1]@);
                    assert(strs_view(cols@)[0] == cols@[0]@);
                }
                let conf = read_conf_field(cols[1].as_str());
                match conf {
                    Some(p) => {
                        let ghost pairs0 = table_pairs(words@, probs@);
                        words.push(cols[0].clone());
                        probs.push(p);
                        proof {
                            assert(table_pairs(words@, probs@) =~= pairs0.push(
                                (cols@[0]@, p as int),
                            ));
                            match rule_rows(rv.skip(i + 1)) {
                                Some(t) => {
                                    assert(rule_rows(rest) == Some(
                                        seq![(cols@[0]@, p as int)] + t,
                                    ));
                                    assert(pairs0 + (seq![(cols@[0]@, p as int)] + t)
                                        =~= table_pairs(words@, probs@) + t);
                                },
                                None => {},
                            }
                        }
                    },
                    None => {
                        proof {
                            assert(rule_rows(rest) is None);
                        }
                        return None;
                    },
                }
            }
            i += 1;
        }
        proof {
            assert(rv.skip(i as int) =~= Seq::<Seq<char>>::empty());
            assert(rule_rows(rv.skip(i as int)) == Some(Seq::<(Seq<char>, int)>::empty()));
            assert(table_pairs(words@, probs@) + Seq::<(Seq<char>, int)>::empty() =~= table_pairs(
                words@,
                probs@,
            ));
        }
        Some(NaiveSettings { words, probs })
    }
}

} // verus!
