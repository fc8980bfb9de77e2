use wordle_solver::classify::{classify, get_pos_from_guess, Tag};
use wordle_solver::pattern::get_pattern_from_guess;
use wordle_solver::restrict::{get_restrictions_from_guess, Restrictions};
use wordle_solver::words::{count_letter, get_all_5_words};

fn w(s: &str) -> Vec<u8> {
    s.as_bytes().to_vec()
}

#[test]
fn classify_all_exact() {
    let tags = classify(&w("abcde"), &w("abcde"));
    assert_eq!(
        tags,
        vec![Tag::Exact, Tag::Exact, Tag::Exact, Tag::Exact, Tag::Exact]
    );
}

#[test]
fn classify_four_exact_one_absent() {
    let tags = classify(&w("abcde"), &w("abcdf"));
    assert_eq!(
        tags,
        vec![Tag::Exact, Tag::Exact, Tag::Exact, Tag::Exact, Tag::Absent]
    );
}

#[test]
fn classify_repeated_letter_capped_by_answer() {
    // The answer has two 'e', the guess three: exactly two guess positions
    // are tagged for 'e', the third is absent.
    let tags = classify(&w("speed"), &w("eerie"));
    assert_eq!(
        tags,
        vec![
            Tag::Present,
            Tag::Present,
            Tag::Absent,
            Tag::Absent,
            Tag::Absent
        ]
    );
}

#[test]
fn classify_present_positions() {
    let tags = classify(&w("abcde"), &w("eabcd"));
    assert_eq!(
        tags,
        vec![
            Tag::Present,
            Tag::Present,
            Tag::Present,
            Tag::Present,
            Tag::Present
        ]
    );
}

#[test]
fn tag_count_never_exceeds_answer_count() {
    let answers = [w("speed"), w("abcde"), w("zzzzz"), w("aabba")];
    let guesses = [w("eerie"), w("aaaaa"), w("azzaz"), w("ababa")];
    for answer in answers.iter() {
        for guess in guesses.iter() {
            let tags = classify(answer, guess);
            for c in b'a'..=b'z' {
                let mut tagged = 0;
                for i in 0..guess.len() {
                    if guess[i] == c && tags[i] != Tag::Absent {
                        tagged += 1;
                    }
                }
                assert!(tagged <= count_letter(answer, c));
            }
        }
    }
}

#[test]
fn pos_lists_from_guess() {
    let (yellow, green) = get_pos_from_guess(&w("speed"), &w("eerie"));
    assert_eq!(yellow, vec![0, 1]);
    assert_eq!(green, Vec::<usize>::new());

    let (yellow, green) = get_pos_from_guess(&w("abcde"), &w("abcdf"));
    assert_eq!(yellow, Vec::<usize>::new());
    assert_eq!(green, vec![0, 1, 2, 3]);
}

#[test]
fn pattern_is_base_three() {
    // digits: absent 0, exact 1, present 2, position 0 least significant
    assert_eq!(get_pattern_from_guess(&w("abcde"), &w("abcde")), 121);
    assert_eq!(get_pattern_from_guess(&w("abcde"), &w("abcdf")), 40);
    assert_eq!(get_pattern_from_guess(&w("abcde"), &w("zzzzz")), 0);
    assert_eq!(get_pattern_from_guess(&w("abcde"), &w("eabcd")), 242);
}

#[test]
fn patterns_distinguish_classifications() {
    let answers = [w("speed"), w("abcde"), w("crane")];
    let guesses = [w("eerie"), w("abcdf"), w("caner"), w("crane")];
    for answer in answers.iter() {
        for guess in guesses.iter() {
            let tags = classify(answer, guess);
            let p = get_pattern_from_guess(answer, guess);
            // decode base 3 and compare digit by digit
            let mut rest = p;
            for i in 0..guess.len() {
                let d = rest % 3;
                rest /= 3;
                let expect = match tags[i] {
                    Tag::Absent => 0,
                    Tag::Exact => 1,
                    Tag::Present => 2,
                };
                assert_eq!(d, expect);
            }
            assert_eq!(rest, 0);
        }
    }
}

#[test]
fn restrictions_for_mostly_right_guess() {
    let rs = get_restrictions_from_guess(&w("abcde"), &w("abcdf"));
    assert_eq!(
        rs,
        vec![
            Restrictions::Count(b'a', 1, 5),
            Restrictions::Count(b'b', 1, 5),
            Restrictions::Count(b'c', 1, 5),
            Restrictions::Count(b'd', 1, 5),
            Restrictions::Count(b'f', 0, 0),
            Restrictions::AtPosition(b'a', 0),
            Restrictions::AtPosition(b'b', 1),
            Restrictions::AtPosition(b'c', 2),
            Restrictions::AtPosition(b'd', 3),
        ]
    );
}

#[test]
fn repeated_letter_with_gray_pins_exact_count() {
    // 'e' is seen twice as yellow and once as gray: its count is known to be
    // exactly two. One count restriction per distinct letter of the guess.
    let rs = get_restrictions_from_guess(&w("speed"), &w("eerie"));
    assert_eq!(
        rs,
        vec![
            Restrictions::Count(b'e', 2, 2),
            Restrictions::Count(b'r', 0, 0),
            Restrictions::Count(b'i', 0, 0),
            Restrictions::NotAtPosition(b'e', 0),
            Restrictions::NotAtPosition(b'e', 1),
        ]
    );
}

#[test]
fn dictionary_filtered_to_word_length() {
    let raw = vec![w("abcde"), w("abc"), w("zzzzz"), w("toolong"), w("")];
    let kept = get_all_5_words(&raw);
    assert_eq!(kept, vec![w("abcde"), w("zzzzz")]);
}

#[test]
fn count_letter_counts_occurrences() {
    assert_eq!(count_letter(&w("speed"), b'e'), 2);
    assert_eq!(count_letter(&w("speed"), b'z'), 0);
    assert_eq!(count_letter(&w("eerie"), b'e'), 3);
}
