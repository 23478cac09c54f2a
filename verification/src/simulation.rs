//! Filtering a word list directly against a known hidden answer: the
//! feedback a guess would yield is checked against each candidate without
//! materializing it.
use vstd::prelude::*;

use crate::model::{
    all_len, consistent_spec, derive_spec, filter_spec, lemma_filter_take_step, outcome_at,
    state_ok, views,
};
use crate::Word;

verus! {

/// Whether `word` is consistent with the feedback that `query` yields
/// against the hidden answer `truth` — without building that feedback:
/// a position where query and truth agree must agree in `word` too; a
/// query letter occurring elsewhere in `truth` must occur in `word`, but
/// not at this position; a query letter absent from `truth` must be
/// absent from `word`.
pub fn check(query: &Word, truth: &Word, word: &Word) -> (r: bool)
    requires
        query@.len() == truth@.len(),
        word@.len() == query@.len(),
    ensures
        r == consistent_spec(derive_spec(query@, truth@), word@),
{
    let mut i: usize = 0;
    while i < query.0.len()
        invariant
            i <= query@.len(),
            query@.len() == truth@.len(),
            word@.len() == query@.len(),
            forall|k: int| 0 <= k < i ==> state_ok(
                #[trigger] derive_spec(query@, truth@)[k],
                word@[k],
                word@,
            ),
        decreases query@.len() - i,
    {
        let qc = query.letter(i);
        let tc = truth.letter(i);
        let wc = word.letter(i);
        let ok = if qc == tc {
            wc == qc
        } else if truth.has_letter(qc) {
            wc != qc && word.has_letter(qc)
        } else {
            !word.has_letter(qc)
        };
        proof {
            assert(derive_spec(query@, truth@)[i as int] == outcome_at(query@, truth@, i as int));
        }
        if !ok {
            return false;
        }
        i = i + 1;
    }
    true
}

/// The sublist of `words` consistent with the feedback that `query` yields
/// against the hidden answer `truth`, in input order.
pub fn filter_word_list(query: &Word, truth: &Word, words: &Vec<Word>) -> (r: Vec<Word>)
    requires
        query@.len() == truth@.len(),
        all_len(views(words@), query@.len()),
    ensures
        views(r@) == filter_spec(derive_spec(query@, truth@), views(words@)),
{
    let ghost rule = derive_spec(query@, truth@);
    let mut out: Vec<Word> = Vec::new();
    let mut i: usize = 0;
    proof {
        assert(views(words@).take(0) =~= Seq::<Seq<char>>::empty());
        reveal(Seq::filter);
    }
    while i < words.len()
        invariant
            i <= words@.len(),
            query@.len() == truth@.len(),
            all_len(views(words@), query@.len()),
            rule == derive_spec(query@, truth@),
            views(out@) == filter_spec(rule, views(words@).take(i as int)),
        decreases words@.len() - i,
    {
        proof {
            lemma_filter_take_step(rule, views(words@), i as int);
            assert(views(words@)[i as int] == words@[i as int]@);
        }
        let keep = check(query, truth, &words[i]);
        if keep {
            let w = words[i].clone();
            out.push(w);
            proof {
                assert(views(out@) =~= filter_spec(rule, views(words@).take(i + 1)));
            }
        }
        i = i + 1;
    }
    proof {
        assert(views(words@).take(words@.len() as int) =~= views(words@));
    }
    out
}

} // verus!
