//! What the feedback received so far says about the hidden word, as a
//! mathematical model: for each position the letters still allowed there, and
//! for each letter a half-open range for the number of its occurrences.

use crate::feedback::{confirmed, GuessLetterResult};
use crate::word::occurrences;
use crate::letter_set::alphabet;
use vstd::prelude::*;

verus! {

/// The knowledge about the hidden word.
#[verifier::ext_equal]
pub struct Knowledge {
    /// For each of the five positions, the letters still allowed there.
    pub positions: Seq<Set<u8>>,
    /// For each of the 26 letters, the bounds `(min, max)` of the half-open
    /// range in which the number of its occurrences lies.
    pub counts: Seq<(int, int)>,
}

/// The range that says nothing: a word of five letters holds a letter zero
/// to five times.
pub open spec fn no_information() -> (int, int) {
    (0, 6)
}

/// Whether the letter `c` occurs in the guess `g` below position `n`.
pub open spec fn appears_before(g: Seq<u8>, c: u8, n: int) -> bool {
    exists|j: int| 0 <= j < n && g[j] == c
}

/// Whether the letter `c` occurs in the guess `g`.
pub open spec fn appears(g: Seq<u8>, c: u8) -> bool {
    appears_before(g, c, 5)
}

/// The letters that the guess `g` holds.
pub open spec fn guess_letters(g: Seq<u8>) -> Set<u8> {
    Set::new(|c: u8| c < 26 && appears(g, c))
}

/// Whether some occurrence of the letter `c` in the guess `g` is black,
/// below position `n`.
pub open spec fn has_black_before(g: Seq<u8>, fb: Seq<GuessLetterResult>, c: u8, n: int) -> bool {
    exists|j: int| 0 <= j < n && g[j] == c && fb[j] == GuessLetterResult::Black
}

/// Whether some occurrence of the letter `c` in the guess `g` is black.
pub open spec fn has_black(g: Seq<u8>, fb: Seq<GuessLetterResult>, c: u8) -> bool {
    has_black_before(g, fb, c, 5)
}

/// Number of positions below `n` that allow the letter `c` and no other.
pub open spec fn fixed_count(positions: Seq<Set<u8>>, c: u8, n: int) -> nat
    decreases n,
{
    if n <= 0 {
        0
    } else {
        fixed_count(positions, c, n - 1) + if positions[n - 1] == set![c] {
            1nat
        } else {
            0nat
        }
    }
}

/// Number of positions below `n` that allow the letter `c`.
pub open spec fn admit_count(positions: Seq<Set<u8>>, c: u8, n: int) -> nat
    decreases n,
{
    if n <= 0 {
        0
    } else {
        admit_count(positions, c, n - 1) + if positions[n - 1].contains(c) {
            1nat
        } else {
            0nat
        }
    }
}

/// What one result says about its position: green leaves the guessed letter
/// alone there, any other result takes the guessed letter away.
pub open spec fn narrowed_position(allowed: Set<u8>, letter: u8, result: GuessLetterResult) -> Set<
    u8,
> {
    if result == GuessLetterResult::Green {
        set![letter]
    } else {
        allowed.remove(letter)
    }
}

/// What a guess says about the number of occurrences of the letter `c`.
///
/// With `k` green and yellow results for `c`: where some occurrence of `c` is
/// black the hidden word holds no more than `k`, so the upper bound is
/// tightened to `k + 1`; where none is, the lower bound is tightened to `k`.
/// A letter that the guess does not hold keeps its range.
pub open spec fn narrowed_count(
    range: (int, int),
    g: Seq<u8>,
    fb: Seq<GuessLetterResult>,
    c: u8,
) -> (int, int) {
    let k = confirmed(g, fb, c, 5) as int;
    if !appears(g, c) {
        range
    } else if has_black(g, fb, c) {
        (range.0, vstd::math::min(range.1, k + 1))
    } else {
        (vstd::math::max(range.0, k), range.1)
    }
}

impl Knowledge {
    /// Five positions and 26 letters.
    pub open spec fn wf(self) -> bool {
        self.positions.len() == 5 && self.counts.len() == 26
    }

    /// The knowledge before any guess: every letter is allowed everywhere,
    /// and nothing is known of any count.
    pub open spec fn initial() -> Knowledge {
        Knowledge {
            positions: Seq::new(5, |i: int| alphabet()),
            counts: Seq::new(26, |c: int| no_information()),
        }
    }

    /// Whether the word `w` agrees with the knowledge: each of its letters is
    /// allowed at its position, and each letter whose range says anything
    /// occurs in `w` a number of times within that range.
    pub open spec fn possible(self, w: Seq<u8>) -> bool {
        &&& forall|i: int| 0 <= i < 5 ==> self.positions[i].contains(#[trigger] w[i])
        &&& forall|c: u8|
            c < 26 ==> (#[trigger] self.counts[c as int] == no_information()
                || self.counts[c as int].0 <= occurrences(w, c, 5) < self.counts[c as int].1)
    }

    /// No position has run out of letters and no range is empty.
    pub open spec fn consistent(self) -> bool {
        &&& forall|i: int| 0 <= i < 5 ==> #[trigger] self.positions[i] != Set::<u8>::empty()
        &&& forall|c: int| 0 <= c < 26 ==> (#[trigger] self.counts[c]).0 < self.counts[c].1
    }

    /// The first two steps of an update: each position and each range
    /// narrowed by what the guess `g` and its feedback `fb` say directly.
    pub open spec fn narrowed(self, g: Seq<u8>, fb: Seq<GuessLetterResult>) -> Knowledge {
        Knowledge {
            positions: Seq::new(5, |i: int| narrowed_position(self.positions[i], g[i], fb[i])),
            counts: Seq::new(26, |c: int| narrowed_count(self.counts[c], g, fb, c as u8)),
        }
    }

    /// The third step of an update for one letter `c`.
    ///
    /// The positions imply a range for `c`: at least as many occurrences as
    /// positions allow `c` alone, at most as many as positions allow it at
    /// all. The stored range is intersected with that one. An empty result is
    /// a contradiction (`None`). A result of exactly zero takes `c` away
    /// everywhere; a result of exactly as many occurrences as positions allow
    /// `c` leaves `c` alone at each of them.
    pub open spec fn propagated(self, c: u8) -> Option<Knowledge> {
        let admitting = admit_count(self.positions, c, 5) as int;
        let lo = vstd::math::max(self.counts[c as int].0, fixed_count(self.positions, c, 5) as int);
        let hi = vstd::math::min(self.counts[c as int].1, admitting + 1);
        let counts = self.counts.update(c as int, (lo, hi));
        if lo >= hi {
            None
        } else if lo == 0 && hi == 1 {
            Some(
                Knowledge {
                    positions: Seq::new(5, |i: int| self.positions[i].remove(c)),
                    counts,
                },
            )
        } else if hi - lo == 1 && admitting == lo {
            Some(
                Knowledge {
                    positions: Seq::new(
                        5,
                        |i: int|
                            if self.positions[i].contains(c) {
                                set![c]
                            } else {
                                self.positions[i]
                            },
                    ),
                    counts,
                },
            )
        } else {
            Some(Knowledge { positions: self.positions, counts })
        }
    }

    /// The third step of an update for those of the given letters that are
    /// not below `c`, in alphabetical order, each seeing what the ones before
    /// it left.
    pub open spec fn propagated_from(self, letters: Set<u8>, c: int) -> Option<Knowledge>
        decreases 26 - c,
    {
        if c < 0 || c >= 26 {
            Some(self)
        } else if letters.contains(c as u8) {
            match self.propagated(c as u8) {
                None => None,
                Some(next) => next.propagated_from(letters, c + 1),
            }
        } else {
            self.propagated_from(letters, c + 1)
        }
    }

    /// The knowledge after the guess `g` has received the feedback `fb`, or
    /// `None` where the feedback contradicts what was known: a range became
    /// empty on the way, or a position is left without a letter.
    pub open spec fn updated(self, g: Seq<u8>, fb: Seq<GuessLetterResult>) -> Option<Knowledge> {
        match self.narrowed(g, fb).propagated_from(guess_letters(g), 0) {
            None => None,
            Some(next) => if exists|i: int| 0 <= i < 5 && next.positions[i] == Set::<u8>::empty() {
                None
            } else {
                Some(next)
            },
        }
    }
}

} // verus!
