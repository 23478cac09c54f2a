//! Pluggable guess-selection policies and the closed choice between them.
use vstd::prelude::*;

use crate::game::{Game, Interface};
use crate::Word;

pub mod active;
pub mod baseline;

verus! {

/// A guess-selection policy: given the queries that may legally be asked
/// and the words still possible as answers, it proposes the next guess.
///
/// Every word handed in shares one length, the game's word length, and the
/// proposed guess has that length too.
pub trait Strategy {
    fn select_query(&self, allowed_queries: &Vec<Word>, possible_words: &Vec<Word>) -> (r: Word)
        requires
            possible_words@.len() >= 1,
            possible_words@.len() > 2 ==> allowed_queries@.len() >= 1,
            crate::model::all_len(
                crate::model::views(allowed_queries@),
                possible_words@[0]@.len(),
            ),
            crate::model::all_len(
                crate::model::views(possible_words@),
                possible_words@[0]@.len(),
            ),
            possible_words@[0]@.len() <= crate::MAX_WORD_LEN,
        ensures
            r@.len() == possible_words@[0]@.len(),
    ;
}

/// The closed choice of strategy a game is played with.
pub enum StrategyType {
    Baseline,
    Active,
}

impl StrategyType {
    /// Plays one game with the chosen strategy against the given feedback
    /// source.
    pub fn play_game<I: Interface>(&self, interface: &mut I, game: &Game) -> (r: Option<
        (usize, Word),
    >)
        requires
            game.wf(),
            old(interface).word_len() == game.word_len(),
        ensures
            r matches Some(p) ==> 1 <= p.0 <= game.sp_possible().len() + 1 && p.1@.len()
                == game.word_len(),
            game.sp_possible().len() == 0 ==> r is None,
            game.sp_first() is None && game.sp_possible().len() == 1 ==> (r matches Some(p)
                ==> p.0 == 1 && p.1@ == game.sp_possible()[0]),
    {
        match self {
            StrategyType::Baseline => game.play(interface, &baseline::Baseline),
            StrategyType::Active => game.play(interface, &active::Active),
        }
    }
}

} // verus!
