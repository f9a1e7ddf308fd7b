use wordle_solver::feedback::{process_guess, GuessLetterResult, GuessWordResult};
use wordle_solver::word::Word;

fn word(text: &str) -> Word {
    Word::try_from(text).unwrap()
}

#[test]
fn test_process_guess() {
    let b = GuessLetterResult::Black;
    let y = GuessLetterResult::Yellow;
    let g = GuessLetterResult::Green;
    assert_eq!(process_guess("abcde".try_into().unwrap(), "fghij".try_into().unwrap()), [
        b, b, b, b, b
    ]);
    assert_eq!(process_guess("aaaaa".try_into().unwrap(), "abcde".try_into().unwrap()), [
        g, b, b, b, b
    ]);
    assert_eq!(process_guess("baaaa".try_into().unwrap(), "abcde".try_into().unwrap()), [
        y, y, b, b, b
    ]);
    assert_eq!(process_guess("brood".try_into().unwrap(), "proxy".try_into().unwrap()), [
        b, g, g, b, b
    ]);
    assert_eq!(process_guess("dippy".try_into().unwrap(), "proxy".try_into().unwrap()), [
        b, b, y, b, g
    ]);
    assert_eq!(process_guess("yucky".try_into().unwrap(), "proxy".try_into().unwrap()), [
        b, b, b, b, g
    ]);
}

#[test]
fn a_word_against_itself_is_all_green() {
    let g = GuessLetterResult::Green;
    for text in ["abcde", "sassy", "aaaaa", "zebra", "llama"] {
        assert_eq!(process_guess(word(text), word(text)), [g, g, g, g, g]);
    }
}

#[test]
fn disjoint_words_are_all_black() {
    let b = GuessLetterResult::Black;
    assert_eq!(process_guess(word("abcde"), word("fghij")), [b, b, b, b, b]);
}

#[test]
fn repeated_letters_are_matched_leftmost_first() {
    let b = GuessLetterResult::Black;
    let y = GuessLetterResult::Yellow;
    let g = GuessLetterResult::Green;
    // The one `s` of "glass" that no green uses up goes to the first `s` of
    // the guess that is not green.
    assert_eq!(process_guess(word("sassy"), word("glass")), [y, y, b, g, b]);
    assert_eq!(process_guess(word("glass"), word("sassy")), [b, b, y, g, y]);
    assert_eq!(process_guess(word("eerie"), word("three")), [y, b, g, b, g]);
    assert_eq!(process_guess(word("geese"), word("three")), [b, y, b, b, g]);
    assert_eq!(process_guess(word("llama"), word("small")), [y, y, g, y, b]);
}

fn count_confirmed(guess: &str, feedback: &GuessWordResult, letter: u8) -> usize {
    guess
        .bytes()
        .zip(feedback.iter())
        .filter(|(c, r)| *c == letter && **r != GuessLetterResult::Black)
        .count()
}

fn count_letter(text: &str, letter: u8) -> usize {
    text.bytes().filter(|c| *c == letter).count()
}

#[test]
fn confirmed_letters_number_the_lesser_occurrence() {
    let words = ["sassy", "glass", "eerie", "three", "llama", "small", "abcde", "aaaaa", "proxy"];
    for guess in words {
        for actual in words {
            let feedback = process_guess(word(guess), word(actual));
            for letter in b'a'..=b'z' {
                let confirmed = count_confirmed(guess, &feedback, letter);
                let in_guess = count_letter(guess, letter);
                let in_actual = count_letter(actual, letter);
                assert_eq!(confirmed, in_guess.min(in_actual), "{guess} against {actual}");
            }
        }
    }
}
