use wordle_solver::filter::{update_words_from_restrictions, word_satisfies};
use wordle_solver::rank::pattern_counts;
use wordle_solver::restrict::{get_restrictions_from_guess, Restrictions};
use wordle_solver::solver::{remove_word, solver_outcome, solver_round, FeedbackEvent, SolverOutcome};

fn w(s: &str) -> Vec<u8> {
    s.as_bytes().to_vec()
}

fn entropy(counts: &Vec<(usize, usize)>, pool_size: usize) -> f64 {
    let mut score = 0.0f64;
    for &(_, k) in counts.iter() {
        let p = (k as f64) / (pool_size as f64);
        score += p * f64::log2(p.recip());
    }
    score
}

#[test]
fn one_round_solves_close_dictionary() {
    // guess "abcdf" against answer "abcde": the derived restrictions strike
    // both "zzzzz" and "abcdf", and the loop reaches the solved state.
    let pool = vec![w("abcde"), w("abcdf"), w("zzzzz")];
    let rs = get_restrictions_from_guess(&w("abcde"), &w("abcdf"));
    let narrowed = update_words_from_restrictions(&pool, &rs);
    assert_eq!(narrowed, vec![w("abcde")]);
    match solver_outcome(&narrowed) {
        SolverOutcome::Solved(word) => assert_eq!(word, w("abcde")),
        _ => panic!("expected the solved state"),
    }
}

#[test]
fn filtering_is_idempotent() {
    let pool = vec![w("abcde"), w("abcdf"), w("zzzzz"), w("aacde")];
    let rs = get_restrictions_from_guess(&w("abcde"), &w("azcdf"));
    let once = update_words_from_restrictions(&pool, &rs);
    let twice = update_words_from_restrictions(&once, &rs);
    assert_eq!(once, twice);
}

#[test]
fn filtering_never_grows_and_keeps_answer() {
    let pool = vec![w("crane"), w("speed"), w("eerie"), w("abcde")];
    let guesses = [w("eerie"), w("crane"), w("zzzzz")];
    for answer in pool.iter() {
        for guess in guesses.iter() {
            let rs = get_restrictions_from_guess(answer, guess);
            let narrowed = update_words_from_restrictions(&pool, &rs);
            assert!(narrowed.len() <= pool.len());
            assert!(narrowed.contains(answer));
        }
    }
}

#[test]
fn inconsistent_feedback_exhausts_pool() {
    // A count restriction that contradicts the only remaining word empties
    // the pool; the loop reports exhaustion instead of failing.
    let pool = vec![w("aaaaa")];
    let rs = vec![Restrictions::Count(b'a', 0, 0)];
    let narrowed = update_words_from_restrictions(&pool, &rs);
    assert_eq!(narrowed, Vec::<Vec<u8>>::new());
    assert!(matches!(solver_outcome(&narrowed), SolverOutcome::Exhausted));
}

#[test]
fn pool_of_one_scores_zero_entropy() {
    let pool = vec![w("abcde")];
    let counts = pattern_counts(&w("zzzzz"), &pool);
    assert_eq!(counts.len(), 1);
    assert_eq!(counts[0].1, 1);
    assert_eq!(entropy(&counts, pool.len()), 0.0);
}

#[test]
fn pattern_counts_group_equal_patterns() {
    // Both pool words answer "abcde" with the all-absent pattern.
    let pool = vec![w("zzzzz"), w("yyyyy")];
    let counts = pattern_counts(&w("abcde"), &pool);
    assert_eq!(counts, vec![(0, 2)]);

    // Three distinct answers, three distinct patterns, one word each.
    let pool = vec![w("abcde"), w("abcdf"), w("zzzzz")];
    let mut counts = pattern_counts(&w("abcdf"), &pool);
    counts.sort();
    assert_eq!(counts, vec![(0, 1), (40, 1), (121, 1)]);
}

#[test]
fn distinguishing_guess_outscores_blind_guess() {
    let pool = vec![w("abcde"), w("abcdf"), w("zzzzz")];
    let splitting = entropy(&pattern_counts(&w("abcdf"), &pool), pool.len());
    let blind = entropy(&pattern_counts(&w("qqqqq"), &pool), pool.len());
    assert!(splitting > blind);
}

#[test]
fn rejected_guess_leaves_pool_without_feedback() {
    let pool = vec![w("abcde"), w("abcdf"), w("zzzzz")];
    let out = solver_round(&pool, &w("abcdf"), FeedbackEvent::NotAWord);
    assert_eq!(out, vec![w("abcde"), w("zzzzz")]);
}

#[test]
fn feedback_round_narrows_pool() {
    // Feedback for guess "abcdf": first four positions green, none yellow.
    let pool = vec![w("abcde"), w("abcdf"), w("zzzzz")];
    let out = solver_round(
        &pool,
        &w("abcdf"),
        FeedbackEvent::Feedback(vec![0, 1, 2, 3], vec![]),
    );
    assert_eq!(out, vec![w("abcde")]);
}

#[test]
fn remove_word_strikes_every_copy() {
    let pool = vec![w("abcde"), w("zzzzz"), w("abcde")];
    let out = remove_word(&pool, &w("abcde"));
    assert_eq!(out, vec![w("zzzzz")]);
}

#[test]
fn word_satisfies_checks_every_restriction() {
    let rs = vec![
        Restrictions::AtPosition(b'a', 0),
        Restrictions::NotAtPosition(b'b', 1),
        Restrictions::Count(b'z', 1, 2),
    ];
    assert!(word_satisfies(&w("azcde"), &rs));
    assert!(!word_satisfies(&w("abzde"), &rs)); // 'b' at the vetoed position
    assert!(word_satisfies(&w("azbde"), &rs)); // one 'z', none at a vetoed spot
    assert!(!word_satisfies(&w("aacde"), &rs)); // no 'z' at all
    assert!(!word_satisfies(&w("zacde"), &rs)); // 'a' not at position 0
}

#[test]
fn solver_reaches_answer_in_rounds() {
    // An oracle-driven run: guess the first pool word each round and feed the
    // true classification back in; the pool must shrink to the answer.
    let answer = w("speed");
    let mut pool = vec![w("crane"), w("spear"), w("speed"), w("spend"), w("zzzzz")];
    let mut rounds = 0;
    loop {
        match solver_outcome(&pool) {
            SolverOutcome::Solved(word) => {
                assert_eq!(word, answer);
                break;
            }
            SolverOutcome::Exhausted => panic!("pool exhausted"),
            SolverOutcome::Active => {
                let guess = pool[0].clone();
                let rs = get_restrictions_from_guess(&answer, &guess);
                pool = update_words_from_restrictions(&pool, &rs);
                rounds += 1;
                assert!(rounds <= 5);
            }
        }
    }
}
