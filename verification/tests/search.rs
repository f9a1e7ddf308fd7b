use wordle_solver::feedback::{process_guess, GuessLetterResult};
use wordle_solver::presort::presort_words_by_heuristic;
use wordle_solver::search::{
    count_possible, find_best_guess, guess_quality, guess_quality_lower_bound, quality,
    NoCandidatesError, Quality,
};
use wordle_solver::state::GuessState;
use wordle_solver::word::Word;

const B: GuessLetterResult = GuessLetterResult::Black;
const G: GuessLetterResult = GuessLetterResult::Green;

fn word(text: &str) -> Word {
    Word::try_from(text).unwrap()
}

fn list(texts: &[&str]) -> Vec<Word> {
    texts.iter().map(|t| word(t)).collect()
}

fn sorted(mut words: Vec<Word>) -> Vec<[u8; 5]> {
    let mut texts: Vec<[u8; 5]> = words.drain(..).map(|w| w.to_ascii()).collect();
    texts.sort();
    texts
}

#[test]
fn quality_is_the_share_eliminated() {
    let words = list(&["abcde", "fghij", "abcdf"]);
    let nothing = GuessState::default();
    assert_eq!(count_possible(&nothing, &words), 3);
    assert_eq!(quality(&nothing, &words), Quality { numerator: 0, denominator: 2 });
    let mut state = GuessState::default();
    assert_eq!(state.update(word("abcde"), [G, G, G, G, B]), Ok(()));
    assert_eq!(count_possible(&state, &words), 1);
    assert_eq!(quality(&state, &words), Quality { numerator: 2, denominator: 2 });
    let mut other = GuessState::default();
    assert_eq!(other.update(word("zzzzz"), [B, B, B, B, B]), Ok(()));
    assert_eq!(quality(&other, &words), Quality { numerator: 0, denominator: 2 });
    let mut half = GuessState::default();
    assert_eq!(half.update(word("fzzzz"), [B, B, B, B, B]), Ok(()));
    assert_eq!(quality(&half, &words), Quality { numerator: 2, denominator: 2 });
    let mut one = GuessState::default();
    assert_eq!(one.update(word("gzzzz"), [B, B, B, B, B]), Ok(()));
    assert_eq!(quality(&one, &words), Quality { numerator: 1, denominator: 2 });
}

#[test]
fn a_state_that_no_word_meets_eliminates_the_whole_list() {
    let words = list(&["abcde", "fghij"]);
    let mut state = GuessState::default();
    assert_eq!(state.update(word("zzzzz"), [G, G, G, G, G]), Ok(()));
    assert_eq!(count_possible(&state, &words), 0);
    // Two of two words are gone: more than the one that the scale allows for.
    assert_eq!(quality(&state, &words), Quality { numerator: 2, denominator: 1 });
}

#[test]
fn quality_lies_between_zero_and_one() {
    let words = list(&["raise", "bacon", "vaunt", "tawny", "kayak", "sassy", "glass"]);
    for guess in &words {
        for actual in &words {
            let mut state = GuessState::default();
            assert_eq!(state.update(*guess, process_guess(*guess, *actual)), Ok(()));
            let q = quality(&state, &words);
            assert_eq!(q.denominator, 6);
            assert!(q.numerator <= q.denominator);
        }
    }
}

#[test]
fn expected_quality_sums_over_the_hypotheses() {
    let words = list(&["zzzzz", "abcde", "abcdf", "abcdg"]);
    let state = GuessState::default();
    assert_eq!(guess_quality(&state, word("zzzzz"), &words), Quality {
        numerator: 6,
        denominator: 12
    });
    assert_eq!(guess_quality(&state, word("abcde"), &words), Quality {
        numerator: 10,
        denominator: 12
    });
    assert_eq!(guess_quality(&state, word("abcdf"), &words), Quality {
        numerator: 10,
        denominator: 12
    });
    // A guess from outside the list that tells all four apart.
    assert_eq!(guess_quality(&state, word("efgzz"), &words), Quality {
        numerator: 12,
        denominator: 12
    });
}

#[test]
fn a_guess_is_given_up_exactly_below_the_bound() {
    let words = list(&["zzzzz", "abcde", "abcdf", "abcdg"]);
    let state = GuessState::default();
    let full = Some(Quality { numerator: 10, denominator: 12 });
    assert_eq!(guess_quality_lower_bound(&state, word("abcde"), &words, 0), full);
    assert_eq!(guess_quality_lower_bound(&state, word("abcde"), &words, 10), full);
    assert_eq!(guess_quality_lower_bound(&state, word("abcde"), &words, 11), None);
    assert_eq!(guess_quality_lower_bound(&state, word("zzzzz"), &words, 6), Some(Quality {
        numerator: 6,
        denominator: 12
    }));
    assert_eq!(guess_quality_lower_bound(&state, word("zzzzz"), &words, 7), None);
    assert_eq!(guess_quality_lower_bound(&state, word("zzzzz"), &words, u128::MAX), None);
}

fn exhaustive_best(state: &GuessState, words: &[Word]) -> Word {
    let mut best = words[0];
    let mut best_total = guess_quality(state, best, words).numerator;
    for w in &words[1..] {
        let total = guess_quality(state, *w, words).numerator;
        if total > best_total {
            best = *w;
            best_total = total;
        }
    }
    best
}

#[test]
fn the_first_of_the_best_guesses_wins() {
    let mut words = list(&["zzzzz", "abcde", "abcdf", "abcdg"]);
    let state = GuessState::default();
    assert_eq!(find_best_guess(&state, &mut words), Ok(word("abcde")));
    assert_eq!(words, list(&["zzzzz", "abcde", "abcdf", "abcdg"]));
    let mut words = list(&["abcdg", "abcdf", "zzzzz", "abcde"]);
    assert_eq!(find_best_guess(&state, &mut words), Ok(word("abcdg")));
}

#[test]
fn pruning_does_not_change_the_best_guess() {
    let all = list(&[
        "raise", "bacon", "vaunt", "tawny", "kayak", "sassy", "glass", "eerie", "three", "llama",
        "small", "proxy", "brood", "dippy", "yucky", "rates", "manly", "danio", "tares", "snark",
    ]);
    let mut words = all.clone();
    presort_words_by_heuristic(&mut words);
    for actual in &all {
        for first in &all {
            let mut state = GuessState::default();
            assert_eq!(state.update(*first, process_guess(*first, *actual)), Ok(()));
            let mut candidates = words.clone();
            let best = find_best_guess(&state, &mut candidates).unwrap();
            assert!(candidates.contains(actual));
            assert!(candidates.iter().all(|w| state.is_word_possible(*w)));
            if candidates.len() > 1 {
                assert_eq!(best, exhaustive_best(&state, &candidates));
            } else {
                assert_eq!(best, *actual);
            }
        }
    }
}

#[test]
fn filtering_keeps_exactly_the_possible_words() {
    let mut state = GuessState::default();
    assert_eq!(state.update(word("raise"), [B, G, B, B, B]), Ok(()));
    let mut words = list(&["raise", "bacon", "vaunt", "kayak", "bacon", "sassy", "tawny", "glass"]);
    state.filter_word_list(&mut words);
    assert_eq!(sorted(words), sorted(list(&["bacon", "bacon", "kayak", "tawny", "vaunt"])));
    let mut none = list(&["raise", "sassy", "glass"]);
    state.filter_word_list(&mut none);
    assert_eq!(none, vec![]);
    let mut empty: Vec<Word> = vec![];
    state.filter_word_list(&mut empty);
    assert_eq!(empty, vec![]);
}

#[test]
fn no_candidate_is_an_error_and_one_candidate_is_the_guess() {
    let mut state = GuessState::default();
    assert_eq!(state.update(word("raise"), [B, G, B, B, B]), Ok(()));
    let mut words = list(&["raise", "sassy", "glass"]);
    assert_eq!(find_best_guess(&state, &mut words), Err(NoCandidatesError));
    assert_eq!(words, vec![]);
    let mut empty: Vec<Word> = vec![];
    assert_eq!(find_best_guess(&state, &mut empty), Err(NoCandidatesError));
    let mut words = list(&["raise", "kayak", "glass"]);
    assert_eq!(find_best_guess(&state, &mut words), Ok(word("kayak")));
    assert_eq!(words, list(&["kayak"]));
}

#[test]
fn presorting_puts_common_letters_first() {
    let mut words = list(&["zzzzz", "abcde", "abcdf"]);
    presort_words_by_heuristic(&mut words);
    assert_eq!(words[2], word("zzzzz"));
    assert_eq!(sorted(words), sorted(list(&["abcde", "abcdf", "zzzzz"])));
    // Scores 7, 14, 16 and twice 17.
    let mut words = list(&["zzzzz", "abzzz", "abcde", "abcdf", "abcdf"]);
    presort_words_by_heuristic(&mut words);
    assert_eq!(words, list(&["abcdf", "abcdf", "abcde", "abzzz", "zzzzz"]));
    let mut empty: Vec<Word> = vec![];
    presort_words_by_heuristic(&mut empty);
    assert_eq!(empty, vec![]);
}
