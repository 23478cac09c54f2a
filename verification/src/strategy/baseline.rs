//! A reference policy with no lookahead: guess a random remaining
//! candidate.
use vstd::prelude::*;

use crate::model::views;
use crate::strategy::Strategy;
use crate::Word;

verus! {

/// Relies on rand's `random_range` over `0..n`: the result is an index
/// drawn uniformly below `n`; the call panics only on an empty range,
/// which `n >= 1` rules out.
#[verifier::external_body]
fn random_index(n: usize) -> (r: usize)
    requires
        n >= 1,
    ensures
        r < n,
{
    rand::RngExt::random_range(&mut rand::rng(), 0..n)
}

/// The reference guess-selection policy: a possible answer chosen at
/// random, with no use of the allowed-query list.
pub struct Baseline;

impl Strategy for Baseline {
    fn select_query(&self, allowed_queries: &Vec<Word>, possible_words: &Vec<Word>) -> (r: Word)
        ensures
            exists|i: int| 0 <= i < possible_words@.len() && r@ == (#[trigger] possible_words@[i])@,
    {
        let _ = allowed_queries;
        let i = random_index(possible_words.len());
        proof {
            assert(views(possible_words@)[i as int] == possible_words@[i as int]@);
            assert(views(possible_words@)[0] == possible_words@[0]@);
        }
        possible_words[i].clone()
    }
}

} // verus!
