use wordle_solver::feedback::{process_guess, GuessLetterResult};
use wordle_solver::letter_set::{
    letter_bit, mask_contains, mask_is_only, mask_letters, mask_with, mask_without, ALL_LETTERS,
};
use wordle_solver::state::{ContradictoryFeedback, GuessState, LetterCount};
use wordle_solver::word::Word;

const B: GuessLetterResult = GuessLetterResult::Black;
const Y: GuessLetterResult = GuessLetterResult::Yellow;
const G: GuessLetterResult = GuessLetterResult::Green;

fn word(text: &str) -> Word {
    Word::try_from(text).unwrap()
}

fn letter(c: char) -> u8 {
    c as u8 - b'a'
}

fn letters(text: &str) -> Vec<u8> {
    text.bytes().map(|c| c - b'a').collect()
}

#[test]
fn letter_sets_are_bit_masks() {
    assert_eq!(letter_bit(0), 1);
    assert_eq!(letter_bit(25), 1 << 25);
    assert!(mask_contains(ALL_LETTERS, 25));
    assert!(!mask_contains(0, 3));
    assert_eq!(mask_without(0b1011, 1), 0b1001);
    assert_eq!(mask_without(0b1001, 1), 0b1001);
    assert_eq!(mask_with(0b1001, 1), 0b1011);
    assert!(mask_is_only(0b100, 2));
    assert!(!mask_is_only(0b110, 2));
    assert!(!mask_is_only(0, 2));
    assert_eq!(mask_letters(0), Vec::<u8>::new());
    assert_eq!(mask_letters(0b1000_0000_0101), vec![0, 2, 11]);
    assert_eq!(mask_letters(ALL_LETTERS), (0..26).collect::<Vec<u8>>());
}

#[test]
fn the_initial_state_knows_nothing() {
    let state = GuessState::default();
    for position in 0..5 {
        assert_eq!(state.choices(position), (0..26).collect::<Vec<u8>>());
    }
    for l in 0..26 {
        assert_eq!(state.letter_count(l), LetterCount { start: 0, end: 6 });
        assert_eq!(state.letter_count(l), LetterCount::default());
    }
    assert!(state.is_word_possible(word("raise")));
    assert!(state.is_word_possible(word("zzzzz")));
}

#[test]
fn one_green_among_blacks() {
    let mut state = GuessState::default();
    assert_eq!(state.update(word("raise"), [B, G, B, B, B]), Ok(()));
    // Position 1 is fixed to `a`.
    assert_eq!(state.choices(1), letters("a"));
    // The black letters are gone from every position.
    for position in [0, 2, 3, 4] {
        for c in ['r', 'i', 's', 'e'] {
            assert!(!state.allows(position, letter(c)));
        }
        assert_eq!(state.choices(position), letters("abcdfghjklmnopqtuvwxyz"));
    }
    // Nothing says that the hidden word holds `a` only once: "kayak" gives
    // this very feedback, so `a` stays allowed elsewhere.
    assert_eq!(process_guess(word("raise"), word("kayak")), [B, G, B, B, B]);
    for position in [0, 2, 3, 4] {
        assert!(state.allows(position, letter('a')));
    }
    assert_eq!(state.letter_count(letter('a')), LetterCount { start: 1, end: 6 });
    for c in ['r', 'i', 's', 'e'] {
        assert_eq!(state.letter_count(letter(c)), LetterCount { start: 0, end: 1 });
    }
    assert_eq!(state.letter_count(letter('b')), LetterCount { start: 0, end: 6 });
    assert!(state.is_word_possible(word("kayak")));
    assert!(state.is_word_possible(word("bacon")));
    assert!(!state.is_word_possible(word("raise")));
    assert!(!state.is_word_possible(word("bases")));
    assert!(!state.is_word_possible(word("about")));
}

#[test]
fn a_black_beside_a_yellow_bounds_the_count_from_above() {
    let mut state = GuessState::default();
    // "sassy" against "glass".
    assert_eq!(state.update(word("sassy"), [Y, Y, B, G, B]), Ok(()));
    // Two of the three `s` are confirmed and one is black: at most two.
    assert_eq!(state.letter_count(letter('s')), LetterCount { start: 1, end: 3 });
    // One `a` at least, and three positions are left for it.
    assert_eq!(state.letter_count(letter('a')), LetterCount { start: 1, end: 4 });
    assert_eq!(state.letter_count(letter('y')), LetterCount { start: 0, end: 1 });
    assert_eq!(state.choices(3), letters("s"));
    assert!(!state.allows(0, letter('s')));
    assert!(!state.allows(2, letter('s')));
    assert!(state.allows(4, letter('s')));
    assert!(!state.allows(1, letter('a')));
    for position in 0..5 {
        assert!(!state.allows(position, letter('y')));
    }
    assert!(state.is_word_possible(word("glass")));
    assert!(!state.is_word_possible(word("sassy")));
}

#[test]
fn a_letter_with_as_many_places_as_occurrences_is_locked() {
    let mut state = GuessState::default();
    assert_eq!(state.update(word("azzzz"), [Y, B, B, B, B]), Ok(()));
    assert_eq!(state.letter_count(letter('a')), LetterCount { start: 1, end: 5 });
    assert_eq!(state.choices(4), letters("abcdefghijklmnopqrstuvwxy"));
    // One `a` and no more, and position 4 is the only place left for it.
    assert_eq!(state.update(word("caaad"), [B, Y, B, B, B]), Ok(()));
    assert_eq!(state.letter_count(letter('a')), LetterCount { start: 1, end: 2 });
    assert_eq!(state.choices(4), letters("a"));
    for position in 0..4 {
        assert!(!state.allows(position, letter('a')));
    }
    assert!(state.is_word_possible(word("bbbba")));
    assert!(!state.is_word_possible(word("bbbbb")));
}

#[test]
fn a_known_count_does_not_clear_the_other_positions() {
    let mut state = GuessState::default();
    assert_eq!(state.update(word("aabbb"), [B, G, B, B, B]), Ok(()));
    // One `a`, at position 1; the update does not go on to take `a` away
    // where the guess held another letter.
    assert_eq!(state.letter_count(letter('a')), LetterCount { start: 1, end: 2 });
    assert_eq!(state.choices(1), letters("a"));
    assert!(!state.allows(0, letter('a')));
    for position in [2, 3, 4] {
        assert!(state.allows(position, letter('a')));
    }
    for position in 0..5 {
        assert!(!state.allows(position, letter('b')));
    }
    assert_eq!(state.letter_count(letter('b')), LetterCount { start: 0, end: 1 });
    // The count still rules out a second `a`.
    assert!(state.is_word_possible(word("zazzz")));
    assert!(!state.is_word_possible(word("zazza")));
}

#[test]
fn contradictory_feedback_is_refused_and_leaves_the_state() {
    let mut state = GuessState::default();
    assert_eq!(state.update(word("raise"), [B, G, B, B, B]), Ok(()));
    let before = state;
    // `r` is known to be absent; a yellow `r` cannot be.
    assert_eq!(state.update(word("rocky"), [Y, B, B, B, B]), Err(ContradictoryFeedback));
    for position in 0..5 {
        assert_eq!(state.choices(position), before.choices(position));
    }
    for l in 0..26 {
        assert_eq!(state.letter_count(l), before.letter_count(l));
    }
    // `a` occurs, at position 1; a black `a` cannot be.
    assert_eq!(state.update(word("zzzza"), [B, B, B, B, B]), Err(ContradictoryFeedback));
    // Position 1 holds `a`; feedback that takes `a` away there leaves no
    // letter for the position.
    assert_eq!(state.update(word("bacon"), [B, Y, B, B, B]), Err(ContradictoryFeedback));
}

#[test]
fn the_hidden_word_stays_possible() {
    let words =
        ["raise", "bacon", "vaunt", "tawny", "kayak", "sassy", "glass", "eerie", "three", "llama"];
    for actual in words {
        let mut state = GuessState::default();
        for guess in words {
            let feedback = process_guess(word(guess), word(actual));
            assert_eq!(state.update(word(guess), feedback), Ok(()), "{guess} against {actual}");
            assert!(state.is_word_possible(word(actual)), "{guess} against {actual}");
        }
        // After the word itself was guessed, it alone is left.
        for other in words {
            assert_eq!(state.is_word_possible(word(other)), other == actual);
        }
    }
}

#[test]
fn a_session_narrows_step_by_step() {
    let mut state = GuessState::default();
    assert_eq!(state.update(word("raise"), [B, G, B, B, B]), Ok(()));
    assert_eq!(state.update(word("bacon"), [B, G, B, B, Y]), Ok(()));
    assert_eq!(state.update(word("vaunt"), [B, G, B, Y, Y]), Ok(()));
    assert!(state.is_word_possible(word("tanty")));
    assert!(!state.is_word_possible(word("tawny")));
    assert!(!state.is_word_possible(word("vaunt")));
    assert_eq!(state.update(word("tawny"), [G, G, B, Y, G]), Ok(()));
    assert!(state.is_word_possible(word("tanty")));
    assert!(!state.is_word_possible(word("tawny")));
}

#[test]
fn then_gives_the_next_state_and_keeps_this_one() {
    let state = GuessState::default();
    let next = state.then(word("raise"), [B, G, B, B, B]).unwrap();
    assert_eq!(next.choices(1), letters("a"));
    assert_eq!(state.choices(1), (0..26).collect::<Vec<u8>>());
    let mut updated = state;
    assert_eq!(updated.update(word("raise"), [B, G, B, B, B]), Ok(()));
    for position in 0..5 {
        assert_eq!(next.choices(position), updated.choices(position));
    }
    for l in 0..26 {
        assert_eq!(next.letter_count(l), updated.letter_count(l));
    }
    assert!(next.then(word("rocky"), [Y, B, B, B, B]).is_err());
    assert_eq!(next.then(word("tawny"), [B, G, B, B, B]).unwrap().choices(1), letters("a"));
}
