use wordle::entropy::{log2fp, score_query};
use wordle::strategy::StrategyType;
use wordle::{check, filter_word_list, Game, Rule, Simulation, SolverError, StandardGame, Word};

fn w(s: &str) -> Word {
    Word::from_string(s, s.chars().count()).unwrap()
}

fn words(list: &[&str]) -> Vec<Word> {
    list.iter().map(|s| w(s)).collect()
}

#[test]
fn word_from_string_checks_length() {
    assert_eq!(Word::from_string("abc", 5), Err(SolverError::LengthMismatch));
    assert_eq!(Word::from_string("toolong", 5), Err(SolverError::LengthMismatch));
    let word = Word::from_string("hello", 5).unwrap();
    assert_eq!(word.0, vec!['h', 'e', 'l', 'l', 'o']);
}

#[test]
fn word_letter_access() {
    let word = w("crane");
    assert_eq!(word.len(), 5);
    assert_eq!(word.letter(0), 'c');
    assert_eq!(word.letter(4), 'e');
    assert!(word.has_letter('r'));
    assert!(!word.has_letter('z'));
}

#[test]
fn worked_example_tares_against_crane() {
    // t absent, a present, r present, e present, s absent.
    let rule = Rule::from_query(&w("tares"), &w("crane"));
    let expected = Rule::from_mask(&w("tares"), &w("01110")).unwrap();
    assert_eq!(rule, expected);
    assert!(!rule.wins());
}

#[test]
fn from_mask_rejects_bad_codes() {
    assert_eq!(
        Rule::from_mask(&w("tares"), &w("01113")),
        Err(SolverError::InvalidMask)
    );
    assert_eq!(
        Rule::from_mask(&w("tares"), &w("abcde")),
        Err(SolverError::InvalidMask)
    );
    assert!(Rule::from_mask(&w("tares"), &w("21012")).is_ok());
}

#[test]
fn self_consistency_on_samples() {
    for (q, a) in [
        ("tares", "crane"),
        ("crane", "crane"),
        ("zzzzz", "crane"),
        ("ab", "ba"),
        ("x", "x"),
    ] {
        let rule = Rule::from_query(&w(q), &w(a));
        assert!(rule.check(&w(a)), "answer {a} must stay consistent with its own feedback");
    }
}

#[test]
fn win_iff_guess_equals_answer() {
    assert!(Rule::from_query(&w("crane"), &w("crane")).wins());
    assert!(!Rule::from_query(&w("tares"), &w("crane")).wins());
    assert!(!Rule::from_query(&w("crane"), &w("crank")).wins());
    assert!(Rule::from_mask(&w("tares"), &w("22222")).unwrap().wins());
    assert!(!Rule::from_mask(&w("tares"), &w("22221")).unwrap().wins());
}

#[test]
fn filter_keeps_consistent_words_in_order() {
    let rule = Rule::from_query(&w("tares"), &w("crane"));
    let list = words(&["crane", "tares", "brake", "grace", "cigar"]);
    let kept = rule.filter(&list);
    // Words without t or s where a, r, e occur, each away from its guessed
    // position: "crane", "brake" and "grace", in input order.
    assert_eq!(kept, words(&["crane", "brake", "grace"]));
}

#[test]
fn filter_is_idempotent() {
    let rule = Rule::from_query(&w("tares"), &w("crane"));
    let list = words(&["crane", "tares", "brake", "grace", "cigar", "crane"]);
    let once = rule.filter(&list);
    let twice = rule.filter(&once);
    assert_eq!(once, twice);
}

#[test]
fn filter_never_grows_across_rounds() {
    let list = words(&["crane", "tares", "brake", "grace", "cigar", "slate"]);
    let r1 = Rule::from_query(&w("tares"), &w("crane"));
    let after1 = r1.filter(&list);
    assert!(after1.len() <= list.len());
    let r2 = Rule::from_query(&w("grace"), &w("crane"));
    let after2 = r2.filter(&after1);
    assert!(after2.len() <= after1.len());
}

#[test]
fn fused_check_matches_rule_check() {
    let list = words(&["crane", "tares", "brake", "grace", "cigar"]);
    let (q, t) = (w("tares"), w("crane"));
    let rule = Rule::from_query(&q, &t);
    for word in &list {
        assert_eq!(check(&q, &t, word), rule.check(word));
    }
    assert_eq!(filter_word_list(&q, &t, &list), rule.filter(&list));
}

#[test]
fn log2fp_exact_on_powers_of_two() {
    assert_eq!(log2fp(1), 0);
    assert_eq!(log2fp(2), 0x10000);
    assert_eq!(log2fp(4), 0x20000);
    assert_eq!(log2fp(1024), 10 * 0x10000);
    // log2(3) = 1.58496...; sixteen fraction bits, truncated.
    let lg3 = log2fp(3);
    assert!((0x10000 + 38330..=0x10000 + 38337).contains(&lg3), "lg3 = {lg3}");
}

#[test]
fn score_counts_class_sizes() {
    // "ab" against {"ab", "ba", "cc"}: three singleton classes, score 0.
    let possible = words(&["ab", "ba", "cc"]);
    assert_eq!(score_query(&w("ab"), &possible), 0);
    // "ab" against {"ab", "ab", "cc"}: classes of 2 and 1, score 2*log2fp(2).
    let possible = words(&["ab", "ab", "cc"]);
    assert_eq!(score_query(&w("ab"), &possible), 2 * 0x10000);
    // "zz" against four words it never hits: one class of 4.
    let possible = words(&["ab", "ba", "cd", "dc"]);
    assert_eq!(score_query(&w("zz"), &possible), 4 * (log2fp(4) as u128));
}

#[test]
fn score_ignores_candidate_order() {
    let a = words(&["crane", "tares", "brake", "grace", "cigar"]);
    let b = words(&["cigar", "brake", "crane", "grace", "tares"]);
    for q in ["tares", "crane", "slate"] {
        assert_eq!(score_query(&w(q), &a), score_query(&w(q), &b));
    }
}

#[test]
fn active_short_circuits_to_a_candidate() {
    let allowed = words(&["crane", "tares", "brake"]);
    let one = words(&["grace"]);
    assert_eq!(wordle::active::select_entropy_query(&allowed, &one), w("grace"));
    let two = words(&["grace", "crane"]);
    assert_eq!(wordle::active::select_entropy_query(&allowed, &two), w("grace"));
}

#[test]
fn active_breaks_ties_by_first_occurrence() {
    // "ba" and "ab" split {"ab","ba","cc"} identically; the earlier one wins.
    let possible = words(&["ab", "ba", "cc"]);
    let allowed = words(&["ba", "ab"]);
    assert_eq!(score_query(&w("ba"), &possible), score_query(&w("ab"), &possible));
    assert_eq!(wordle::active::select_entropy_query(&allowed, &possible), w("ba"));
}

#[test]
fn active_prefers_the_evener_split() {
    // Against {"ab","ba","cc"}, "ab" yields three singletons (score 0) while
    // "zz" cannot distinguish anything (one class of 3).
    let possible = words(&["ab", "ba", "cc"]);
    let allowed = words(&["zz", "ab"]);
    assert_eq!(wordle::active::select_entropy_query(&allowed, &possible), w("ab"));
}

#[test]
fn frequency_baseline_picks_column_maxima() {
    // Position 0: a twice, c once; position 1: b three times.
    let possible = words(&["ab", "ab", "cb"]);
    assert_eq!(wordle::baseline::select_frequency_query(&possible), w("ab"));
}

#[test]
fn frequency_baseline_skips_used_letters() {
    // Position 0 picks 'a'; position 1 may not reuse it, every other letter
    // counts zero, and ties go to the last letter: 'z'.
    let possible = words(&["aa", "aa"]);
    assert_eq!(wordle::baseline::select_frequency_query(&possible), w("az"));
}

#[test]
fn frequency_baseline_never_repeats_letters() {
    // Long words force many low-frequency columns; every pick must still
    // dodge all earlier picks (ties walk down from 'z').
    let possible = words(&["aaaaaaaaaaaaa", "aaaaaaaaaaaab"]);
    let pick = wordle::baseline::select_frequency_query(&possible);
    assert_eq!(pick.0.len(), 13);
    for i in 0..pick.0.len() {
        for j in 0..i {
            assert_ne!(pick.0[i], pick.0[j]);
        }
    }
}

#[test]
fn random_baseline_returns_a_candidate() {
    let allowed = words(&["crane", "tares"]);
    let possible = words(&["grace", "brake", "cigar"]);
    let strategy = wordle::strategy::baseline::Baseline;
    for _ in 0..32 {
        let pick = wordle::strategy::Strategy::select_query(&strategy, &allowed, &possible);
        assert!(possible.contains(&pick));
    }
}

#[test]
fn simulation_reports_derived_feedback() {
    let mut sim = Simulation::new(w("crane"));
    let rule = wordle::Interface::get_rule(&mut sim, &w("tares"));
    assert_eq!(rule, Rule::from_query(&w("tares"), &w("crane")));
}

#[test]
fn simulated_games_terminate_in_a_win() {
    let corpus = words(&[
        "crane", "tares", "brake", "grace", "cigar", "slate", "pride", "mount", "quilt", "zebra",
        "fjord", "woven",
    ]);
    for truth in &corpus {
        let game = Game::new(false, true, None, &corpus, &corpus);
        let mut sim = Simulation::new(truth.clone());
        let result = StrategyType::Active.play_game(&mut sim, &game);
        let (count, found) = result.expect("a simulated game must end in a win");
        assert_eq!(&found, truth);
        assert!(count >= 1 && count <= corpus.len());
    }
}

#[test]
fn simulated_hard_mode_games_terminate() {
    let corpus = words(&[
        "crane", "tares", "brake", "grace", "cigar", "slate", "pride", "mount",
    ]);
    for truth in &corpus {
        let game = Game::new(true, true, Some(w("tares")), &corpus, &corpus);
        let mut sim = Simulation::new(truth.clone());
        let result = StrategyType::Active.play_game(&mut sim, &game);
        let (count, found) = result.expect("a hard-mode simulated game must end in a win");
        assert_eq!(&found, truth);
        assert!(count >= 1 && count <= corpus.len() + 1);
    }
}

#[test]
fn baseline_strategy_still_wins_simulations() {
    let corpus = words(&["crane", "tares", "brake", "grace", "cigar"]);
    for truth in &corpus {
        let game = Game::new(false, true, None, &corpus, &corpus);
        let mut sim = Simulation::new(truth.clone());
        let result = StrategyType::Baseline.play_game(&mut sim, &game);
        let (_, found) = result.expect("the random baseline still reaches the answer");
        assert_eq!(&found, truth);
    }
}

#[test]
fn contradictory_feedback_reports_no_word() {
    // The answer is not in the candidate list: the last survivor (if any)
    // fails confirmation and the game reports None.
    let corpus = words(&["crane", "tares"]);
    let game = Game::new(false, true, None, &corpus, &corpus);
    let mut sim = Simulation::new(w("fjord"));
    assert_eq!(StrategyType::Active.play_game(&mut sim, &game), None);
}

#[test]
fn empty_candidate_list_reports_no_word() {
    let corpus = words(&["crane", "tares"]);
    let none: Vec<Word> = Vec::new();
    let game = Game::new(false, true, None, &corpus, &none);
    let mut sim = Simulation::new(w("crane"));
    assert_eq!(StrategyType::Active.play_game(&mut sim, &game), None);
}

#[test]
fn standard_game_uses_the_precomputed_opener() {
    let corpus = words(&["tares", "crane", "brake", "grace", "cigar", "slate"]);
    let common = words(&["crane", "slate"]);
    let game = StandardGame::new()
        .quiet(true)
        .build(&corpus, &common);
    assert_eq!(game.possible_words, corpus);
    let mut sim = Simulation::new(w("grace"));
    let (count, found) = StrategyType::Active
        .play_game(&mut sim, &game)
        .expect("the standard game must find the answer");
    assert_eq!(found, w("grace"));
    assert!(count >= 2, "the fixed opener counts as the first guess");
}

#[test]
fn standard_game_common_pool_narrows_answers() {
    let corpus = words(&["tares", "crane", "brake", "grace", "cigar", "slate", "soare"]);
    let common = words(&["crane", "slate"]);
    let game = StandardGame::new()
        .quiet(true)
        .common(true)
        .build(&corpus, &common);
    assert_eq!(game.possible_words, common);
    let mut sim = Simulation::new(w("slate"));
    let (_, found) = StrategyType::Active
        .play_game(&mut sim, &game)
        .expect("the common-pool game must find the answer");
    assert_eq!(found, w("slate"));
}

#[test]
fn standard_game_can_search_the_opening_guess() {
    let corpus = words(&["tares", "crane", "brake"]);
    let game = StandardGame::new()
        .quiet(true)
        .optimize_first_guess(true)
        .build(&corpus, &corpus);
    let mut sim = Simulation::new(w("brake"));
    let (count, found) = StrategyType::Active
        .play_game(&mut sim, &game)
        .expect("the opener-searching game must find the answer");
    assert_eq!(found, w("brake"));
    assert!(count >= 1);
}

#[test]
fn single_candidate_is_confirmed_in_one_guess() {
    let corpus = words(&["crane"]);
    let game = Game::new(false, true, None, &corpus, &corpus);
    let mut sim = Simulation::new(w("crane"));
    assert_eq!(
        StrategyType::Active.play_game(&mut sim, &game),
        Some((1, w("crane")))
    );
}
