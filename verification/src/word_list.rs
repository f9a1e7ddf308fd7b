//! Reading a word list from the text of a word source: one word to a line,
//! blank lines and lines that begin with `#` passed over.

use crate::word::{parse_spec, InvalidWordError, Word};
use vstd::prelude::*;

verus! {

/// Why a word source gave no word list.
#[derive(Debug, PartialEq, Eq)]
pub enum WordListError {
    /// The source holds nothing, or could not be read.
    LoadError,
    /// A line of the source is not a word.
    InvalidWordError {
        /// The offending line.
        text: Vec<u8>,
        /// Why it is no word.
        reason: InvalidWordError,
    },
}

/// What a word source amounts to.
pub enum Listing {
    /// The letters of the words, in the order of their lines.
    Words(Seq<Seq<u8>>),
    /// There is nothing to read.
    Unreadable,
    /// The first line that is no word, and why.
    Invalid { text: Seq<u8>, reason: InvalidWordError },
}

/// The length of the line that starts at `from`: the number of bytes up to
/// the next line feed, or to the end of the text.
pub open spec fn line_len(text: Seq<u8>, from: int) -> nat
    decreases text.len() - from,
{
    if from < 0 || from >= text.len() || text[from] == 0x0a {
        0
    } else {
        1 + line_len(text, from + 1)
    }
}

/// The line from `from` to `end`, without the carriage return that may
/// stand before the line feed that ends it.
pub open spec fn line_at(text: Seq<u8>, from: int, end: int) -> Seq<u8> {
    if end < text.len() && from < end && text[end - 1] == 0x0d {
        text.subrange(from, end - 1)
    } else {
        text.subrange(from, end)
    }
}

/// Whether a line holds no word: it is blank or a comment.
pub open spec fn is_skipped(line: Seq<u8>) -> bool {
    line.len() == 0 || line[0] == 0x23
}

/// The words of the lines of `text` from `from` on.
pub open spec fn listing_from(text: Seq<u8>, from: int) -> Listing
    decreases text.len() - from,
{
    if from < 0 || from >= text.len() {
        Listing::Words(Seq::empty())
    } else {
        let end = from + line_len(text, from);
        let line = line_at(text, from, end);
        let rest = if end < text.len() {
            listing_from(text, end + 1)
        } else {
            Listing::Words(Seq::empty())
        };
        if is_skipped(line) {
            rest
        } else {
            match parse_spec(line) {
                Err(reason) => Listing::Invalid { text: line, reason },
                Ok(letters) => match rest {
                    Listing::Words(more) => Listing::Words(seq![letters] + more),
                    other => other,
                },
            }
        }
    }
}

/// What the text of a word source amounts to: nothing where it is empty,
/// else the words of its lines, or the first line that is no word.
pub open spec fn listing(text: Seq<u8>) -> Listing {
    if text.len() == 0 {
        Listing::Unreadable
    } else {
        listing_from(text, 0)
    }
}

/// The letters of the words of a list.
pub open spec fn views(words: Seq<Word>) -> Seq<Seq<u8>> {
    Seq::new(words.len(), |i: int| words[i]@)
}

/// `found`, then what `rest` amounts to.
spec fn followed_by(found: Seq<Seq<u8>>, rest: Listing) -> Listing {
    match rest {
        Listing::Words(more) => Listing::Words(found + more),
        other => other,
    }
}

proof fn lemma_line_len_bound(text: Seq<u8>, from: int)
    requires
        0 <= from <= text.len(),
    ensures
        from + line_len(text, from) <= text.len(),
    decreases text.len() - from,
{
    if from < text.len() && text[from] != 0x0a {
        lemma_line_len_bound(text, from + 1);
    }
}

/// The word list that the text of a word source holds.
///
/// Lines end at a line feed, a carriage return before it is dropped. Blank
/// lines and lines that begin with `#` are passed over; every other line has
/// to be a word. A source without any text is treated as unreadable.
pub fn load_words(source: &[u8]) -> (r: Result<Vec<Word>, WordListError>)
    ensures
        match r {
            Ok(words) => listing(source@) == Listing::Words(views(words@)),
            Err(WordListError::LoadError) => listing(source@) == Listing::Unreadable,
            Err(WordListError::InvalidWordError { text, reason }) => listing(source@)
                == (Listing::Invalid { text: text@, reason }),
        },
{
    let n = source.len();
    if n == 0 {
        return Err(WordListError::LoadError);
    }
    let mut rv: Vec<Word> = Vec::new();
    let mut from: usize = 0;
    proof {
        assert(views(rv@) =~= Seq::empty());
        match listing_from(source@, 0) {
            Listing::Words(more) => {
                assert(Seq::<Seq<u8>>::empty() + more =~= more);
            },
            _ => {},
        }
    }
    while from < n
        invariant
            n == source.len(),
            from <= n,
            n > 0,
            listing_from(source@, 0) == followed_by(views(rv@), listing_from(source@, from as int)),
        decreases n - from,
    {
        let mut end: usize = from;
        while end < n && source[end] != 0x0a
            invariant
                from <= end <= n,
                n == source.len(),
                end + line_len(source@, end as int) == from + line_len(source@, from as int),
            decreases n - end,
        {
            end += 1;
        }
        proof {
            lemma_line_len_bound(source@, from as int);
            assert(end == from + line_len(source@, from as int));
        }
        let stop = if end < n && from < end && source[end - 1] == 0x0d {
            end - 1
        } else {
            end
        };
        let ghost line = line_at(source@, from as int, end as int);
        let mut text: Vec<u8> = Vec::new();
        let mut i: usize = from;
        while i < stop
            invariant
                from <= i <= stop <= n,
                n == source.len(),
                text@ == source@.subrange(from as int, i as int),
            decreases stop - i,
        {
            text.push(source[i]);
            proof {
                assert(text@ =~= source@.subrange(from as int, i as int + 1));
            }
            i += 1;
        }
        assert(text@ == line);
        if !(text.len() == 0 || text[0] == 0x23) {
            match Word::from_bytes(text.as_slice()) {
                Ok(word) => {
                    let ghost before = rv@;
                    rv.push(word);
                    proof {
                        assert(views(rv@) =~= views(before) + seq![word@]);
                        match listing_from(source@, end as int + 1) {
                            Listing::Words(more) => {
                                assert(views(before) + (seq![word@] + more) =~= views(rv@) + more);
                            },
                            _ => {},
                        }
                    }
                },
                Err(reason) => {
                    return Err(WordListError::InvalidWordError { text, reason });
                },
            }
        }
        from = if end < n {
            end + 1
        } else {
            n
        };
    }
    proof {
        assert(views(rv@) + Seq::<Seq<u8>>::empty() =~= views(rv@));
    }
    Ok(rv)
}

} // verus!
