//! Five-letter words over the lowercase alphabet.

use vstd::prelude::*;
use vstd::string::StringSliceAdditionalSpecFns;

verus! {

/// Number of letters in a word.
pub const WORD_LEN: usize = 5;

/// Number of letters in the alphabet.
pub const ALPHABET: u8 = 26;

/// Why a piece of text is not a word.
#[derive(Debug, Clone, Copy, PartialEq, Eq, Structural)]
pub enum InvalidWordError {
    /// The text holds a byte outside ASCII.
    NotAscii,
    /// The text is ASCII but not five bytes long.
    NotFiveLetters,
    /// The text is five ASCII bytes, one of which is no letter.
    NotAllLetters,
}

/// Whether `b` is an ASCII letter of either case.
pub open spec fn is_letter_byte(b: u8) -> bool {
    (0x41 <= b <= 0x5a) || (0x61 <= b <= 0x7a)
}

/// The lowercase form of an ASCII byte.
pub open spec fn lower_byte(b: u8) -> u8 {
    if 0x41 <= b <= 0x5a {
        (b + 0x20) as u8
    } else {
        b
    }
}

/// What parsing `bytes` gives: the letters `0..26` of the word, or the reason
/// why there is none.
pub open spec fn parse_spec(bytes: Seq<u8>) -> Result<Seq<u8>, InvalidWordError> {
    if exists|i: int| 0 <= i < bytes.len() && bytes[i] >= 0x80 {
        Err(InvalidWordError::NotAscii)
    } else if bytes.len() != WORD_LEN {
        Err(InvalidWordError::NotFiveLetters)
    } else if exists|i: int| 0 <= i < bytes.len() && !is_letter_byte(bytes[i]) {
        Err(InvalidWordError::NotAllLetters)
    } else {
        Ok(Seq::new(WORD_LEN as nat, |i: int| (lower_byte(bytes[i]) - 0x61) as u8))
    }
}

/// Number of positions below `n` where `s` holds the letter `c`.
pub open spec fn occurrences(s: Seq<u8>, c: u8, n: int) -> nat
    decreases n,
{
    if n <= 0 {
        0
    } else {
        occurrences(s, c, n - 1) + if s[n - 1] == c {
            1nat
        } else {
            0nat
        }
    }
}

/// A word: five letters, each held as a number in `0..26` (`a` is 0).
#[derive(Debug, Clone, Copy, PartialEq, Eq)]
pub struct Word {
    letters: [u8; 5],
}

impl View for Word {
    type V = Seq<u8>;

    closed spec fn view(&self) -> Seq<u8> {
        self.letters@
    }
}

impl Word {
    #[verifier::type_invariant]
    spec fn inv(self) -> bool {
        forall|i: int| 0 <= i < 5 ==> self.letters[i] < 26
    }

    /// A sequence that is the view of a word: five letters below 26.
    pub open spec fn is_word(s: Seq<u8>) -> bool {
        s.len() == WORD_LEN && forall|i: int| 0 <= i < s.len() ==> s[i] < ALPHABET
    }

    /// Two words with the same letters are the same word.
    pub proof fn lemma_view_injective(a: Word, b: Word)
        requires
            a@ == b@,
        ensures
            a == b,
    {
        assert(a.letters =~= b.letters);
    }

    /// Every sequence of five letters is the view of a word.
    pub proof fn lemma_word_exists(letters: Seq<u8>)
        requires
            Word::is_word(letters),
        ensures
            exists|w: Word| w@ == letters,
    {
        let w = Word { letters: [letters[0], letters[1], letters[2], letters[3], letters[4]] };
        assert(w@ =~= letters);
    }

    /// A word has five letters.
    pub proof fn lemma_len(self)
        ensures
            self@.len() == WORD_LEN,
    {
    }

    /// Parses the bytes of a word, folding upper case to lower case.
    pub fn from_bytes(bytes: &[u8]) -> (r: Result<Word, InvalidWordError>)
        ensures
            match r {
                Ok(w) => parse_spec(bytes@) == Ok::<Seq<u8>, InvalidWordError>(w@) && Word::is_word(
                    w@,
                ),
                Err(e) => parse_spec(bytes@) == Err::<Seq<u8>, InvalidWordError>(e),
            },
    {
        let n = bytes.len();
        let mut i: usize = 0;
        while i < n
            invariant
                n == bytes.len(),
                i <= n,
                forall|j: int| 0 <= j < i ==> bytes[j] < 0x80,
            decreases n - i,
        {
            if bytes[i] >= 0x80 {
                return Err(InvalidWordError::NotAscii);
            }
            i += 1;
        }
        if n != 5 {
            return Err(InvalidWordError::NotFiveLetters);
        }
        let mut letters: [u8; 5] = [0u8; 5];
        let mut k: usize = 0;
        while k < 5
            invariant
                bytes.len() == 5,
                k <= 5,
                forall|j: int| 0 <= j < bytes.len() ==> bytes[j] < 0x80,
                forall|j: int| 0 <= j < k ==> is_letter_byte(bytes[j]),
                forall|j: int| 0 <= j < k ==> letters[j] == (lower_byte(bytes[j]) - 0x61) as u8,
                forall|j: int| 0 <= j < 5 ==> letters[j] < 26,
            decreases 5 - k,
        {
            let b = bytes[k];
            if b >= 0x41 && b <= 0x5a {
                letters[k] = b - 0x41;
            } else if b >= 0x61 && b <= 0x7a {
                letters[k] = b - 0x61;
            } else {
                return Err(InvalidWordError::NotAllLetters);
            }
            k += 1;
        }
        let w = Word { letters };
        assert(w@ =~= parse_spec(bytes@)->Ok_0);
        Ok(w)
    }

    /// The word in lowercase ASCII.
    pub fn to_ascii(&self) -> (r: [u8; 5])
        ensures
            forall|i: int| 0 <= i < 5 ==> #[trigger] r@[i] == self@[i] + 0x61,
    {
        proof {
            use_type_invariant(self);
        }
        let mut r: [u8; 5] = [0u8;5];
        let mut i: usize = 0;
        while i < 5
            invariant
                i <= 5,
                forall|j: int| 0 <= j < 5 ==> self.letters@[j] < 26,
                forall|j: int| 0 <= j < i ==> #[trigger] r@[j] == self@[j] + 0x61,
            decreases 5 - i,
        {
            r[i] = self.letters[i] + 0x61;
            i += 1;
        }
        r
    }

    /// How often the letter `c` occurs in the word.
    pub fn count_letter(&self, c: u8) -> (n: u8)
        ensures
            n == occurrences(self@, c, 5),
            n <= 5,
    {
        let mut n: u8 = 0;
        let mut i: usize = 0;
        while i < 5
            invariant
                i <= 5,
                n <= i,
                n == occurrences(self@, c, i as int),
            decreases 5 - i,
        {
            if self.letters[i] == c {
                n += 1;
            }
            i += 1;
        }
        n
    }

    /// The letter at position `i`, as a number in `0..26`.
    pub fn letter(&self, i: usize) -> (l: u8)
        requires
            i < WORD_LEN,
        ensures
            l == self@[i as int],
            l < ALPHABET,
    {
        proof {
            use_type_invariant(self);
        }
        self.letters[i]
    }
}

impl TryFrom<&str> for Word {
    type Error = InvalidWordError;

    /// Parses a word from text, folding upper case to lower case.
    fn try_from(value: &str) -> (r: Result<Word, InvalidWordError>) {
        let r = Word::from_bytes(value.as_bytes());
        proof {
            if let Ok(w) = r {
                let letters = parse_spec(value.spec_bytes())->Ok_0;
                Word::lemma_view_injective(w, choose|x: Word| x@ == letters);
            }
        }
        r
    }
}

impl vstd::std_specs::convert::TryFromSpecImpl<&str> for Word {
    open spec fn obeys_try_from_spec() -> bool {
        true
    }

    /// The word with the letters that `parse_spec` finds in the text, or the
    /// reason why the text is no word.
    open spec fn try_from_spec(value: &str) -> Result<Word, InvalidWordError> {
        match parse_spec(value.spec_bytes()) {
            Ok(letters) => Ok(choose|w: Word| w@ == letters),
            Err(e) => Err(e),
        }
    }
}

} // verus!
