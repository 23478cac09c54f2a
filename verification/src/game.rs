//! The feedback engine: per-position outcomes, full-feedback rules, and
//! filtering of word lists by a rule.
use vstd::prelude::*;

use crate::model::{
    all_len, consistent_spec, decode_spec, derive_spec, filter_spec, lemma_filter_membership,
    letter_of, mask_ok, outcome_at, rule_letters, state_ok, sub_list, views, wins_spec,
};
use crate::{SolverError, Word, MAX_WORD_LEN};

verus! {

/// The feedback for one position of a guess. The letter is the *guessed*
/// letter at that position, so the outcome can later be checked against
/// arbitrary candidate words.
#[derive(Debug, Clone, Copy, Hash, PartialEq, Eq)]
pub enum State {
    /// The guessed letter occurs nowhere in the answer.
    Gray(char),
    /// The guessed letter occurs in the answer, but not at this position.
    Yellow(char),
    /// The guessed letter matches the answer's letter at this position.
    Green(char),
}

/// The full feedback for one guess: one outcome per position.
#[must_use]
#[derive(Debug, Clone, Hash, PartialEq, Eq)]
pub struct Rule(Vec<State>);

impl View for Rule {
    type V = Seq<State>;

    closed spec fn view(&self) -> Seq<State> {
        self.0@
    }
}

impl Rule {
    /// Builds feedback from an externally reported per-position mask:
    /// `'0'` for absent, `'1'` for present elsewhere, `'2'` for correct.
    /// Any other code is a contract violation by the feedback source and
    /// yields `InvalidMask`.
    pub fn from_mask(query: &Word, mask: &Word) -> (r: Result<Rule, SolverError>)
        requires
            query@.len() == mask@.len(),
        ensures
            mask_ok(mask@) ==> (r matches Ok(rule) && rule@ == decode_spec(query@, mask@)),
            !mask_ok(mask@) ==> r == Err::<Rule, SolverError>(SolverError::InvalidMask),
    {
        let mut states: Vec<State> = Vec::new();
        let mut i: usize = 0;
        while i < query.0.len()
            invariant
                i <= query.0.len(),
                query@.len() == mask@.len(),
                states@.len() == i,
                forall|k: int| 0 <= k < i ==> #[trigger] states@[k] == decode_spec(
                    query@,
                    mask@,
                )[k],
                forall|k: int| 0 <= k < i ==> mask@[k] == '0' || mask@[k] == '1' || mask@[k]
                    == '2',
            decreases query.0.len() - i,
        {
            let q = query.letter(i);
            let m = mask.letter(i);
            if m == '0' {
                states.push(State::Gray(q));
            } else if m == '1' {
                states.push(State::Yellow(q));
            } else if m == '2' {
                states.push(State::Green(q));
            } else {
                return Err(SolverError::InvalidMask);
            }
            i = i + 1;
        }
        proof {
            assert(states@ =~= decode_spec(query@, mask@));
        }
        Ok(Rule(states))
    }

    /// Derives the feedback for `query` against a known answer `word`:
    /// a matching letter is correct; otherwise a letter occurring anywhere
    /// in the answer is present elsewhere; otherwise it is absent. Repeated
    /// guess letters are judged independently, each against the whole
    /// answer.
    pub fn from_query(query: &Word, word: &Word) -> (r: Rule)
        requires
            query@.len() == word@.len(),
        ensures
            r@ == derive_spec(query@, word@),
    {
        let mut states: Vec<State> = Vec::new();
        let mut i: usize = 0;
        while i < query.0.len()
            invariant
                i <= query.0.len(),
                query@.len() == word@.len(),
                states@.len() == i,
                forall|k: int| 0 <= k < i ==> #[trigger] states@[k] == outcome_at(
                    query@,
                    word@,
                    k,
                ),
            decreases query.0.len() - i,
        {
            let q = query.letter(i);
            if q == word.letter(i) {
                states.push(State::Green(q));
            } else if word.has_letter(q) {
                states.push(State::Yellow(q));
            } else {
                states.push(State::Gray(q));
            }
            i = i + 1;
        }
        proof {
            assert(states@ =~= derive_spec(query@, word@));
        }
        Rule(states)
    }

    /// Whether this feedback signals a win: every position correct.
    pub fn wins(&self) -> (r: bool)
        ensures
            r == wins_spec(self@),
    {
        let mut i: usize = 0;
        while i < self.0.len()
            invariant
                i <= self.0.len(),
                forall|k: int| 0 <= k < i ==> (#[trigger] self.0@[k]) is Green,
            decreases self.0.len() - i,
        {
            match self.0[i] {
                State::Green(_) => {},
                _ => {
                    return false;
                },
            }
            i = i + 1;
        }
        true
    }

    /// Whether candidate `word` is consistent with this feedback: correct
    /// letters must match, present letters must occur elsewhere but not
    /// here, absent letters must occur nowhere.
    pub fn check(&self, word: &Word) -> (r: bool)
        requires
            word@.len() == self@.len(),
        ensures
            r == consistent_spec(self@, word@),
    {
        let mut i: usize = 0;
        while i < self.0.len()
            invariant
                i <= self.0.len(),
                word@.len() == self@.len(),
                forall|k: int| 0 <= k < i ==> state_ok(#[trigger] self.0@[k], word@[k], word@),
            decreases self.0.len() - i,
        {
            let ok = match self.0[i] {
                State::Gray(x) => !word.has_letter(x),
                State::Yellow(x) => word.letter(i) != x && word.has_letter(x),
                State::Green(x) => word.letter(i) == x,
            };
            if !ok {
                return false;
            }
            i = i + 1;
        }
        true
    }

    /// The number of positions this feedback covers.
    pub fn len(&self) -> (r: usize)
        ensures
            r == self@.len(),
    {
        self.0.len()
    }

    /// The outcome at position `i`.
    pub fn state_at(&self, i: usize) -> (s: State)
        requires
            i < self@.len(),
        ensures
            s == self@[i as int],
    {
        self.0[i]
    }

    /// The sublist of `words` consistent with this feedback, in input
    /// order.
    pub fn filter(&self, words: &Vec<Word>) -> (r: Vec<Word>)
        requires
            all_len(views(words@), self@.len()),
        ensures
            views(r@) == filter_spec(self@, views(words@)),
    {
        let mut out: Vec<Word> = Vec::new();
        let mut i: usize = 0;
        proof {
            assert(views(words@).take(0) =~= Seq::<Seq<char>>::empty());
            reveal(Seq::filter);
        }
        while i < words.len()
            invariant
                i <= words.len(),
                all_len(views(words@), self@.len()),
                views(out@) == filter_spec(self@, views(words@).take(i as int)),
            decreases words.len() - i,
        {
            proof {
                crate::model::lemma_filter_take_step(self@, views(words@), i as int);
            }
            let keep = self.check(&words[i]);
            if keep {
                let w = words[i].clone();
                out.push(w);
                proof {
                    assert(views(out@) =~= filter_spec(self@, views(words@).take(i + 1)));
                }
            }
            i = i + 1;
        }
        proof {
            assert(views(words@).take(words@.len() as int) =~= views(words@));
        }
        out
    }
}


/// A feedback source: the game's one external collaborator. It answers a
/// guess with the full feedback for it; obtaining that feedback may have
/// side effects and may block (a simulated answer, a prompt, a live game).
pub trait Interface {
    /// The word length this source answers for; unspecified unless the
    /// implementation says otherwise.
    open spec fn word_len(&self) -> nat {
        arbitrary()
    }

    fn get_rule(&mut self, query: &Word) -> (r: Rule)
        requires
            query@.len() == old(self).word_len(),
        ensures
            final(self).word_len() == old(self).word_len(),
            r@.len() == query@.len(),
            rule_letters(r@) == query@,
    ;
}

/// A feedback source backed by a known hidden answer: feedback is derived
/// directly, deterministically and without I/O.
pub struct Simulation(Word);

impl Simulation {
    /// The hidden answer this simulation scores guesses against.
    pub closed spec fn truth(&self) -> Seq<char> {
        self.0@
    }

    pub fn new(truth: Word) -> (r: Simulation)
        ensures
            r.truth() == truth@,
            r.word_len() == truth@.len(),
    {
        Simulation(truth)
    }
}

impl Interface for Simulation {
    closed spec fn word_len(&self) -> nat {
        self.0@.len()
    }

    fn get_rule(&mut self, query: &Word) -> (r: Rule)
        ensures
            r@ == derive_spec(query@, old(self).truth()),
    {
        let rule = Rule::from_query(query, &self.0);
        proof {
            assert forall|i: int| 0 <= i < rule@.len() implies #[trigger] rule_letters(rule@)[i]
                == query@[i] by {
                assert(rule@[i] == outcome_at(query@, self.0@, i));
                assert(rule_letters(rule@)[i] == letter_of(rule@[i]));
            }
            assert(rule_letters(rule@) =~= query@);
        }
        rule
    }
}

/// Copies a word list; the copy's words read the same.
fn copy_words(v: &Vec<Word>) -> (r: Vec<Word>)
    ensures
        r@.len() == v@.len(),
        views(r@) == views(v@),
{
    let mut out: Vec<Word> = Vec::new();
    let mut i: usize = 0;
    while i < v.len()
        invariant
            i <= v@.len(),
            out@.len() == i,
            forall|k: int| 0 <= k < i ==> (#[trigger] out@[k])@ == v@[k]@,
        decreases v@.len() - i,
    {
        let w = v[i].clone();
        out.push(w);
        i = i + 1;
    }
    proof {
        assert(views(out@) =~= views(v@));
    }
    out
}

/// One game session: the two tracked word sets, the mode flags, and an
/// optional precomputed opening guess. The orchestrator drives it round by
/// round until the feedback signals a win or no candidate is left.
pub struct Game {
    hard: bool,
    quiet: bool,
    first_guess: Option<Word>,
    allowed_queries: Vec<Word>,
    pub possible_words: Vec<Word>,
}

impl Game {
    /// Whether hard mode is on: every observed feedback then also filters
    /// the allowed queries.
    pub closed spec fn sp_hard(&self) -> bool {
        self.hard
    }

    /// Whether progress reporting was asked to stay quiet. The engine
    /// itself never prints; the flag is carried for the embedding program.
    pub closed spec fn sp_quiet(&self) -> bool {
        self.quiet
    }

    /// The precomputed opening guess, if one was supplied.
    pub closed spec fn sp_first(&self) -> Option<Word> {
        self.first_guess
    }

    /// The words that may be proposed as guesses.
    pub closed spec fn sp_allowed(&self) -> Seq<Seq<char>> {
        views(self.allowed_queries@)
    }

    /// The words still possible as answers.
    pub closed spec fn sp_possible(&self) -> Seq<Seq<char>> {
        views(self.possible_words@)
    }

    /// The session's word length: the opening guess's length if one is
    /// set, else the first possible answer's, else the first allowed
    /// query's.
    pub closed spec fn word_len(&self) -> nat {
        match self.first_guess {
            Some(w) => w@.len(),
            None => if self.possible_words@.len() > 0 {
                self.possible_words@[0]@.len()
            } else if self.allowed_queries@.len() > 0 {
                self.allowed_queries@[0]@.len()
            } else {
                0
            },
        }
    }

    /// A session is well formed when every word it holds has the session's
    /// word length, that length is within the supported cap, and every
    /// possible answer is also an allowed query.
    pub open spec fn wf(&self) -> bool {
        &&& all_len(self.sp_allowed(), self.word_len())
        &&& all_len(self.sp_possible(), self.word_len())
        &&& self.word_len() <= MAX_WORD_LEN as nat
        &&& sub_list(self.sp_possible(), self.sp_allowed())
    }

    pub fn new(
        hard: bool,
        quiet: bool,
        first_guess: Option<Word>,
        allowed_queries: &Vec<Word>,
        possible_words: &Vec<Word>,
    ) -> (r: Game)
        ensures
            r.sp_hard() == hard,
            r.sp_quiet() == quiet,
            r.sp_first() == first_guess,
            r.sp_allowed() == views(allowed_queries@),
            r.sp_possible() == views(possible_words@),
            r.word_len() == (match first_guess {
                Some(w) => w@.len(),
                None => if possible_words@.len() > 0 {
                    possible_words@[0]@.len()
                } else if allowed_queries@.len() > 0 {
                    allowed_queries@[0]@.len()
                } else {
                    0
                },
            }),
    {
        let aq = copy_words(allowed_queries);
        let pw = copy_words(possible_words);
        proof {
            if possible_words@.len() > 0 {
                assert(views(possible_words@)[0] == possible_words@[0]@);
            }
            if allowed_queries@.len() > 0 {
                assert(views(allowed_queries@)[0] == allowed_queries@[0]@);
            }
        }
        Game { hard, quiet, first_guess, allowed_queries: aq, possible_words: pw }
    }

    /// Plays one game to its end. Each round asks the strategy for a
    /// guess, obtains its feedback, and filters the possible answers by
    /// it — in hard mode the allowed queries too. A winning feedback ends
    /// the game with the round count and the winning word. When one
    /// candidate remains it is submitted for confirmation; `None` reports
    /// that no word satisfies the observed feedback. Rounds are budgeted
    /// by the number of initially possible answers: feedback that stops
    /// discriminating between candidates ends the game as exhausted
    /// rather than looping.
    pub fn play<I: Interface, S: crate::strategy::Strategy>(
        &self,
        interface: &mut I,
        strategy: &S,
    ) -> (r: Option<(usize, Word)>)
        requires
            self.wf(),
            old(interface).word_len() == self.word_len(),
        ensures
            r matches Some(p) ==> 1 <= p.0 <= self.sp_possible().len() + 1 && p.1@.len()
                == self.word_len(),
            self.sp_possible().len() == 0 ==> r is None,
            self.sp_first() is None && self.sp_possible().len() == 1 ==> (r matches Some(p)
                ==> p.0 == 1 && p.1@ == self.sp_possible()[0]),
    {
        let ghost l: nat = self.word_len();
        let budget: usize = self.possible_words.len();
        proof {
            assert(budget == self.sp_possible().len());
        }
        let mut count: usize = 0;
        let mut allowed_queries = copy_words(&self.allowed_queries);
        let mut possible_words: Vec<Word>;
        match &self.first_guess {
            Some(w) => {
                let rule = interface.get_rule(w);
                if self.hard {
                    let filtered = rule.filter(&allowed_queries);
                    proof {
                        lemma_filter_membership(rule@, views(allowed_queries@));
                    }
                    allowed_queries = filtered;
                }
                count = 1;
                proof {
                    lemma_filter_membership(rule@, views(self.possible_words@));
                }
                possible_words = rule.filter(&self.possible_words);
            },
            None => {
                possible_words = copy_words(&self.possible_words);
            },
        }
        proof {
            assert forall|i: int|
                0 <= i < views(possible_words@).len() implies (#[trigger] views(
                possible_words@,
            )[i]).len() == l && views(allowed_queries@).contains(views(possible_words@)[i]) by {
                if self.sp_first() is Some {
                    let x = views(possible_words@)[i];
                    assert(self.sp_possible().contains(x));
                    let j = choose|j: int|
                        0 <= j < self.sp_possible().len() && self.sp_possible()[j] == x;
                    assert(self.sp_possible()[j].len() == l);
                    if self.sp_hard() {
                        assert(views(allowed_queries@).contains(x));
                    } else {
                        assert(self.sp_allowed().contains(x));
                    }
                }
            }
        }
        while possible_words.len() > 1 && count < budget
            invariant
                all_len(views(allowed_queries@), l),
                all_len(views(possible_words@), l),
                sub_list(views(possible_words@), views(allowed_queries@)),
                l == self.word_len(),
                l <= MAX_WORD_LEN as nat,
                interface.word_len() == l,
                count <= budget || count <= 1,
                possible_words@.len() <= budget,
                budget == self.sp_possible().len(),
                self.sp_first() is None && budget <= 1 ==> count == 0 && views(possible_words@)
                    == self.sp_possible(),
            decreases budget + 1 - count,
        {
            count = count + 1;
            proof {
                assert(views(possible_words@)[0] == possible_words@[0]@);
                assert(views(possible_words@)[0].len() == l);
                if possible_words@.len() > 2 {
                    assert(views(allowed_queries@).contains(views(possible_words@)[0]));
                    assert(views(allowed_queries@).len() >= 1);
                }
            }
            let query = strategy.select_query(&allowed_queries, &possible_words);
            let rule = interface.get_rule(&query);
            if rule.wins() {
                return Some((count, query));
            }
            if self.hard {
                let filtered = rule.filter(&allowed_queries);
                proof {
                    lemma_filter_membership(rule@, views(allowed_queries@));
                }
                allowed_queries = filtered;
            }
            let narrowed = rule.filter(&possible_words);
            proof {
                lemma_filter_membership(rule@, views(possible_words@));
            }
            let ghost old_possible = views(possible_words@);
            let ghost old_allowed = views(allowed_queries@);
            possible_words = narrowed;
            proof {
                assert forall|i: int|
                    0 <= i < views(possible_words@).len() implies (#[trigger] views(
                    possible_words@,
                )[i]).len() == l && views(allowed_queries@).contains(
                    views(possible_words@)[i],
                ) by {
                    let x = views(possible_words@)[i];
                    assert(old_possible.contains(x));
                    let j = choose|j: int| 0 <= j < old_possible.len() && old_possible[j] == x;
                    assert(old_possible[j].len() == l);
                    assert(old_allowed.contains(x));
                }
            }
        }
        if possible_words.len() == 1 {
            let word = possible_words[0].clone();
            proof {
                assert(views(possible_words@)[0] == possible_words@[0]@);
            }
            let rule = interface.get_rule(&word);
            if rule.wins() {
                Some((count.saturating_add(1), word))
            } else {
                None
            }
        } else {
            None
        }
    }
}

/// A builder for the standard game: the usual five-letter session over a
/// dictionary, with flags for hard mode, quiet output, the smaller
/// common-words answer pool, and whether to search for the opening guess
/// rather than use a precomputed one.
#[must_use]
pub struct StandardGame {
    dictionary: Option<String>,
    hard: bool,
    quiet: bool,
    common: bool,
    optimize_first_guess: bool,
}

impl Default for StandardGame {
    fn default() -> (r: Self)
        ensures
            r.sp_dictionary() is None,
            !r.sp_hard(),
            !r.sp_quiet(),
            !r.sp_common(),
            !r.sp_optimize_first_guess(),
    {
        StandardGame {
            dictionary: None,
            hard: false,
            quiet: false,
            common: false,
            optimize_first_guess: false,
        }
    }
}

impl StandardGame {
    /// The dictionary file override, if any; loading the file is the
    /// embedding program's task.
    pub closed spec fn sp_dictionary(&self) -> Option<String> {
        self.dictionary
    }

    pub closed spec fn sp_hard(&self) -> bool {
        self.hard
    }

    pub closed spec fn sp_quiet(&self) -> bool {
        self.quiet
    }

    pub closed spec fn sp_common(&self) -> bool {
        self.common
    }

    pub closed spec fn sp_optimize_first_guess(&self) -> bool {
        self.optimize_first_guess
    }

    pub fn new() -> (r: Self)
        ensures
            r.sp_dictionary() is None,
            !r.sp_hard(),
            !r.sp_quiet(),
            !r.sp_common(),
            !r.sp_optimize_first_guess(),
    {
        Self::default()
    }

    pub fn dictionary(self, dictionary: Option<String>) -> (r: Self)
        ensures
            r.sp_dictionary() == dictionary,
            r.sp_hard() == self.sp_hard(),
            r.sp_quiet() == self.sp_quiet(),
            r.sp_common() == self.sp_common(),
            r.sp_optimize_first_guess() == self.sp_optimize_first_guess(),
    {
        StandardGame { dictionary, ..self }
    }

    pub fn hard(self, hard: bool) -> (r: Self)
        ensures
            r.sp_hard() == hard,
            r.sp_dictionary() == self.sp_dictionary(),
            r.sp_quiet() == self.sp_quiet(),
            r.sp_common() == self.sp_common(),
            r.sp_optimize_first_guess() == self.sp_optimize_first_guess(),
    {
        StandardGame { hard, ..self }
    }

    pub fn quiet(self, quiet: bool) -> (r: Self)
        ensures
            r.sp_quiet() == quiet,
            r.sp_dictionary() == self.sp_dictionary(),
            r.sp_hard() == self.sp_hard(),
            r.sp_common() == self.sp_common(),
            r.sp_optimize_first_guess() == self.sp_optimize_first_guess(),
    {
        StandardGame { quiet, ..self }
    }

    pub fn common(self, common: bool) -> (r: Self)
        ensures
            r.sp_common() == common,
            r.sp_dictionary() == self.sp_dictionary(),
            r.sp_hard() == self.sp_hard(),
            r.sp_quiet() == self.sp_quiet(),
            r.sp_optimize_first_guess() == self.sp_optimize_first_guess(),
    {
        StandardGame { common, ..self }
    }

    pub fn optimize_first_guess(self, optimize: bool) -> (r: Self)
        ensures
            r.sp_optimize_first_guess() == optimize,
            r.sp_dictionary() == self.sp_dictionary(),
            r.sp_hard() == self.sp_hard(),
            r.sp_quiet() == self.sp_quiet(),
            r.sp_common() == self.sp_common(),
    {
        StandardGame { optimize_first_guess: optimize, ..self }
    }

    /// Assembles the session from the word lists the embedding program
    /// loaded: the dictionary as allowed queries, and — with the common
    /// flag — the smaller pool as possible answers. Unless the opening
    /// guess is to be searched for, a precomputed five-letter opener is
    /// set: one tuned for the common pool, another for the full
    /// dictionary.
    pub fn build(self, allowed_queries: &Vec<Word>, common_words: &Vec<Word>) -> (r: Game)
        ensures
            r.sp_hard() == self.sp_hard(),
            r.sp_quiet() == self.sp_quiet(),
            r.sp_allowed() == views(allowed_queries@),
            r.sp_possible() == (if self.sp_common() {
                views(common_words@)
            } else {
                views(allowed_queries@)
            }),
            self.sp_optimize_first_guess() ==> r.sp_first() is None,
            !self.sp_optimize_first_guess() ==> (r.sp_first() matches Some(w) && w@ == (
            if self.sp_common() {
                seq!['s', 'o', 'a', 'r', 'e']
            } else {
                seq!['t', 'a', 'r', 'e', 's']
            })),
    {
        let first_guess = if self.optimize_first_guess {
            None
        } else if self.common {
            let mut letters: Vec<char> = Vec::new();
            letters.push('s');
            letters.push('o');
            letters.push('a');
            letters.push('r');
            letters.push('e');
            proof {
                assert(letters@ =~= seq!['s', 'o', 'a', 'r', 'e']);
            }
            Some(Word(letters))
        } else {
            let mut letters: Vec<char> = Vec::new();
            letters.push('t');
            letters.push('a');
            letters.push('r');
            letters.push('e');
            letters.push('s');
            proof {
                assert(letters@ =~= seq!['t', 'a', 'r', 'e', 's']);
            }
            Some(Word(letters))
        };
        if self.common {
            Game::new(self.hard, self.quiet, first_guess, allowed_queries, common_words)
        } else {
            Game::new(self.hard, self.quiet, first_guess, allowed_queries, allowed_queries)
        }
    }
}

} // verus!
