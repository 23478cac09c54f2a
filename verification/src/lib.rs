//! A solver for fixed-length word-guessing games with per-position
//! colored-tile feedback.
//!
//! A game is played over words of one fixed length. Each guess yields a
//! [`game::Rule`]: one [`game::State`] per position, recording whether the
//! guessed letter is in the right place, elsewhere in the answer, or absent.
//! The solver keeps the set of words consistent with all feedback seen so
//! far and picks the next guess to split that set as evenly as possible.
use vstd::prelude::*;

pub mod active;
pub mod baseline;
pub mod entropy;
pub mod game;
pub mod laws;
pub mod model;
pub mod simulation;
pub mod strategy;

pub use active::Active;
pub use baseline::Baseline;
pub use game::{Game, Interface, Rule, Simulation, StandardGame, State};
pub use simulation::{check, filter_word_list};

verus! {

/// Largest word length a game may use. The entropy scorer tabulates all
/// `3^len` feedback classes of a guess, so the length is capped to keep
/// that table addressable in memory.
pub const MAX_WORD_LEN: usize = 13;

/// An error in the data handed to the solver.
#[derive(Debug, Clone, Copy, PartialEq, Eq, Structural)]
pub enum SolverError {
    /// A word was built from an input whose length differs from the game's
    /// word length.
    LengthMismatch,
    /// A feedback mask held a code other than `'0'`, `'1'` or `'2'`.
    InvalidMask,
}

/// An ordered sequence of letters: the unit of guesses and answers.
///
/// Every word taking part in one game has the same length; the operations
/// that relate words require it. The letters are expected to be lowercase
/// `'a'..='z'`, though only the length is validated at construction.
#[derive(Debug, PartialEq, Eq, Hash)]
pub struct Word(pub Vec<char>);

impl View for Word {
    type V = Seq<char>;

    open spec fn view(&self) -> Seq<char> {
        self.0@
    }
}

impl Clone for Word {
    fn clone(&self) -> (r: Self)
        ensures
            r@ == self@,
    {
        let mut letters: Vec<char> = Vec::new();
        let mut i: usize = 0;
        while i < self.0.len()
            invariant
                i <= self.0.len(),
                letters@ == self.0@.take(i as int),
            decreases self.0.len() - i,
        {
            letters.push(self.0[i]);
            i = i + 1;
            proof {
                assert(letters@ =~= self.0@.take(i as int));
            }
        }
        proof {
            assert(letters@ =~= self.0@);
        }
        Word(letters)
    }
}

impl Word {
    /// Builds a word of length `size` from a string, one entry per character.
    /// Fails with `LengthMismatch` when the string's character count differs
    /// from `size`.
    pub fn from_string(s: &str, size: usize) -> (r: Result<Word, SolverError>)
        ensures
            s@.len() == size ==> (r matches Ok(w) && w@ == s@),
            s@.len() != size ==> r == Err::<Word, SolverError>(SolverError::LengthMismatch),
    {
        let n = s.unicode_len();
        if n != size {
            return Err(SolverError::LengthMismatch);
        }
        let mut letters: Vec<char> = Vec::new();
        let mut i: usize = 0;
        while i < n
            invariant
                i <= n,
                n == s@.len(),
                letters@ == s@.take(i as int),
            decreases n - i,
        {
            letters.push(s.get_char(i));
            i = i + 1;
            proof {
                assert(letters@ =~= s@.take(i as int));
            }
        }
        proof {
            assert(letters@ =~= s@);
        }
        Ok(Word(letters))
    }

    /// Whether `c` occurs anywhere in this word.
    pub fn has_letter(&self, c: char) -> (r: bool)
        ensures
            r == self@.contains(c),
    {
        let mut i: usize = 0;
        while i < self.0.len()
            invariant
                i <= self.0.len(),
                forall|k: int| 0 <= k < i ==> self.0@[k] != c,
            decreases self.0.len() - i,
        {
            if self.0[i] == c {
                return true;
            }
            i = i + 1;
        }
        false
    }

    /// The number of letters in this word.
    pub fn len(&self) -> (r: usize)
        ensures
            r == self@.len(),
    {
        self.0.len()
    }

    /// The letter at position `i`.
    pub fn letter(&self, i: usize) -> (c: char)
        requires
            i < self@.len(),
        ensures
            c == self@[i as int],
    {
        self.0[i]
    }
}


/// A guess-selection policy: given the queries that may legally be asked
/// and the words still possible as answers, it proposes the next guess.
///
/// Every word handed in shares one length, the game's word length, and the
/// proposed guess has that length too.
pub trait Strategy {
    fn select_query(&self, full_word_list: &Vec<Word>, valid_words: &Vec<Word>) -> (r: Word)
        requires
            valid_words@.len() >= 1,
            valid_words@.len() > 2 ==> full_word_list@.len() >= 1,
            crate::model::all_len(crate::model::views(full_word_list@), valid_words@[0]@.len()),
            crate::model::all_len(crate::model::views(valid_words@), valid_words@[0]@.len()),
            valid_words@[0]@.len() <= MAX_WORD_LEN,
        ensures
            r@.len() == valid_words@[0]@.len(),
    ;
}

} // verus!
