//! The information-maximizing strategy: among the allowed queries, pick
//! the one whose feedback is expected to narrow the possible answers the
//! most.
use vstd::prelude::*;

use crate::entropy::{best_query_index, best_upto, lemma_best_upto, score, score_query};
use crate::model::{all_len, views};
use crate::{Strategy, Word};

verus! {

/// The entropy-driven guess-selection policy. With more than two
/// candidates left it scores every allowed query and takes the first one
/// with minimal score; with one or two candidates it guesses the first
/// candidate directly, which is at least as good as any probing guess.
pub struct Active;

impl Strategy for Active {
    fn select_query(&self, full_word_list: &Vec<Word>, valid_words: &Vec<Word>) -> (r: Word)
        ensures
            valid_words@.len() <= 2 ==> r@ == views(valid_words@)[0],
            valid_words@.len() > 2 ==> r@ == views(full_word_list@)[best_query_index(
                views(full_word_list@),
                views(valid_words@),
            )],
    {
        select_entropy_query(full_word_list, valid_words)
    }
}

/// Chooses the next guess for the information-maximizing strategy.
///
/// With at most two possible answers left, the first of them is returned
/// unscored. Otherwise the guess is the allowed query with the minimal
/// entropy score, ties resolved in favor of the earliest such query.
pub fn select_entropy_query(allowed_queries: &Vec<Word>, possible_words: &Vec<Word>) -> (r: Word)
    requires
        possible_words@.len() >= 1,
        possible_words@.len() > 2 ==> allowed_queries@.len() >= 1,
        all_len(views(allowed_queries@), possible_words@[0]@.len()),
        all_len(views(possible_words@), possible_words@[0]@.len()),
        possible_words@[0]@.len() <= crate::MAX_WORD_LEN,
    ensures
        possible_words@.len() <= 2 ==> r@ == possible_words@[0]@,
        possible_words@.len() > 2 ==> r@ == views(allowed_queries@)[best_query_index(
            views(allowed_queries@),
            views(possible_words@),
        )],
        r@.len() == possible_words@[0]@.len(),
{
    let ghost l: nat = possible_words@[0]@.len();
    if possible_words.len() <= 2 {
        proof {
            assert(views(possible_words@)[0] == possible_words@[0]@);
        }
        return possible_words[0].clone();
    }
    let ghost qs = views(allowed_queries@);
    let ghost ws = views(possible_words@);
    proof {
        assert(qs[0] == allowed_queries@[0]@);
        assert(qs[0].len() == l);
    }
    let mut best_i: usize = 0;
    let mut best_score: u128 = score_query(&allowed_queries[0], possible_words);
    let mut i: usize = 1;
    while i < allowed_queries.len()
        invariant
            1 <= i <= allowed_queries@.len(),
            best_i < i,
            qs == views(allowed_queries@),
            ws == views(possible_words@),
            l == possible_words@[0]@.len(),
            l <= crate::MAX_WORD_LEN,
            all_len(qs, l),
            all_len(ws, l),
            possible_words@.len() >= 1,
            best_i as int == best_upto(qs, ws, i as int),
            best_score as nat == score(qs[best_i as int], ws),
        decreases allowed_queries@.len() - i,
    {
        proof {
            assert(qs[i as int] == allowed_queries@[i as int]@);
            assert(qs[i as int].len() == l);
        }
        let s = score_query(&allowed_queries[i], possible_words);
        if s < best_score {
            best_i = i;
            best_score = s;
        }
        proof {
            assert(best_upto(qs, ws, i + 1) == if score(qs[i as int], ws) < score(
                qs[best_upto(qs, ws, i as int)],
                ws,
            ) {
                i as int
            } else {
                best_upto(qs, ws, i as int)
            });
        }
        i = i + 1;
    }
    proof {
        lemma_best_upto(qs, ws, allowed_queries@.len() as int);
        assert(qs[best_i as int] == allowed_queries@[best_i as int]@);
    }
    allowed_queries[best_i].clone()
}

} // verus!
