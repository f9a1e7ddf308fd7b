use wordle_solver::word::{InvalidWordError, Word};
use wordle_solver::word_list::{load_words, WordListError};

#[test]
fn words_are_parsed_and_folded_to_lower_case() {
    let lower = Word::try_from("raise").unwrap();
    let upper = Word::try_from("RAISE").unwrap();
    let mixed = Word::try_from("rAiSe").unwrap();
    assert_eq!(lower, upper);
    assert_eq!(lower, mixed);
    assert_eq!(lower.to_ascii(), *b"raise");
    assert_eq!(lower.letter(0), 17);
    assert_eq!(lower.letter(1), 0);
    assert_eq!(lower.letter(4), 4);
    assert_eq!(Word::from_bytes(b"Zebra").unwrap().to_ascii(), *b"zebra");
}

#[test]
fn letters_are_counted() {
    let w = Word::try_from("sassy").unwrap();
    assert_eq!(w.count_letter(18), 3);
    assert_eq!(w.count_letter(0), 1);
    assert_eq!(w.count_letter(24), 1);
    assert_eq!(w.count_letter(1), 0);
}

#[test]
fn text_that_is_no_word_is_refused_with_its_reason() {
    assert_eq!(Word::try_from("na\u{ef}ve"), Err(InvalidWordError::NotAscii));
    assert_eq!(Word::try_from("\u{e9}"), Err(InvalidWordError::NotAscii));
    assert_eq!(Word::try_from("abcdef"), Err(InvalidWordError::NotFiveLetters));
    assert_eq!(Word::try_from("abcd"), Err(InvalidWordError::NotFiveLetters));
    assert_eq!(Word::try_from(""), Err(InvalidWordError::NotFiveLetters));
    assert_eq!(Word::try_from("abc e"), Err(InvalidWordError::NotAllLetters));
    assert_eq!(Word::try_from("ab3de"), Err(InvalidWordError::NotAllLetters));
    assert_eq!(Word::try_from("abcd{"), Err(InvalidWordError::NotAllLetters));
    assert_eq!(Word::try_from("`bcde"), Err(InvalidWordError::NotAllLetters));
    assert_eq!(Word::try_from("@bcde"), Err(InvalidWordError::NotAllLetters));
    assert_eq!(Word::try_from("abcd["), Err(InvalidWordError::NotAllLetters));
}

#[test]
fn an_empty_source_is_a_load_error() {
    assert_eq!(load_words(b""), Err(WordListError::LoadError));
}

#[test]
fn a_line_that_is_no_word_is_an_invalid_word_error() {
    assert_eq!(
        load_words(b"abcdef"),
        Err(WordListError::InvalidWordError {
            text: b"abcdef".to_vec(),
            reason: InvalidWordError::NotFiveLetters,
        })
    );
    assert_eq!(
        load_words(b"raise\nab de\ntoolong\n"),
        Err(WordListError::InvalidWordError {
            text: b"ab de".to_vec(),
            reason: InvalidWordError::NotAllLetters,
        })
    );
    assert_eq!(
        load_words(b"raise\n\xc3\xa9clat\n"),
        Err(WordListError::InvalidWordError {
            text: b"\xc3\xa9clat".to_vec(),
            reason: InvalidWordError::NotAscii,
        })
    );
}

#[test]
fn blank_lines_and_comments_are_passed_over() {
    let words = load_words(b"# a list\nraise\n\nBACON\r\n#vaunt\ntawny").unwrap();
    let expected: Vec<Word> =
        ["raise", "bacon", "tawny"].iter().map(|t| Word::try_from(*t).unwrap()).collect();
    assert_eq!(words, expected);
    assert_eq!(load_words(b"\n"), Ok(vec![]));
    assert_eq!(load_words(b"# nothing\n"), Ok(vec![]));
}

#[test]
fn a_carriage_return_counts_only_before_a_line_feed() {
    assert_eq!(load_words(b"raise\r\n").unwrap().len(), 1);
    assert_eq!(
        load_words(b"raise\r"),
        Err(WordListError::InvalidWordError {
            text: b"raise\r".to_vec(),
            reason: InvalidWordError::NotFiveLetters,
        })
    );
}
