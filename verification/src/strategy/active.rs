//! The information-maximizing policy, as a pluggable strategy.
use vstd::prelude::*;

use crate::active::select_entropy_query;
use crate::entropy::best_query_index;
use crate::model::views;
use crate::strategy::Strategy;
use crate::Word;

verus! {

/// The entropy-driven guess-selection policy: scores every allowed query
/// by how evenly its feedback splits the possible answers and takes the
/// first query with minimal score; with at most two candidates left it
/// guesses the first candidate directly.
pub struct Active;

impl Strategy for Active {
    fn select_query(&self, allowed_queries: &Vec<Word>, possible_words: &Vec<Word>) -> (r: Word)
        ensures
            possible_words@.len() <= 2 ==> r@ == views(possible_words@)[0],
            possible_words@.len() > 2 ==> r@ == views(allowed_queries@)[best_query_index(
                views(allowed_queries@),
                views(possible_words@),
            )],
    {
        select_entropy_query(allowed_queries, possible_words)
    }
}

} // verus!
