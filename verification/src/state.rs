//! The constraint state: the knowledge about the hidden word, held as bit
//! masks and small counters, and the update that a guess and its feedback
//! bring about.

use crate::feedback::{confirmed, GuessLetterResult, GuessWordResult};
use crate::knowledge::{
    admit_count, appears, appears_before, fixed_count, guess_letters, has_black,
    has_black_before, narrowed_count, narrowed_position, no_information, Knowledge,
};
use crate::letter_set::{
    bit_is_set, lemma_all_letters, lemma_empty_mask, lemma_high_bits_clear, letter_bit,
    mask_contains, mask_is_only, mask_letters, mask_set, mask_with, mask_without, set_bits,
    ALL_LETTERS,
};
use crate::soundness::{lemma_initial_consistent, lemma_update_keeps_consistent};
use crate::word::{occurrences, Word};
use vstd::prelude::*;

verus! {

/// The half-open range `start..end` in which the number of occurrences of a
/// letter lies.
#[derive(Debug, Clone, Copy, PartialEq, Eq, Structural)]
pub struct LetterCount {
    /// The least number of occurrences.
    pub start: u8,
    /// One more than the greatest number of occurrences.
    pub end: u8,
}

impl Default for LetterCount {
    /// The range that says nothing: `0..6`.
    fn default() -> (r: Self)
        ensures
            r == (LetterCount { start: 0, end: 6 }),
    {
        LetterCount { start: 0, end: 6 }
    }
}

/// The feedback contradicts what was known before: no word agrees with both.
#[derive(Debug, Clone, Copy, PartialEq, Eq, Structural)]
pub struct ContradictoryFeedback;

/// The sets of letters that five masks stand for.
spec fn positions_of(choices: Seq<u32>) -> Seq<Set<u8>> {
    Seq::new(5, |i: int| mask_set(choices[i]))
}

/// The ranges that 26 counters stand for.
spec fn ranges_of(counts: Seq<LetterCount>) -> Seq<(int, int)> {
    Seq::new(26, |c: int| (counts[c].start as int, counts[c].end as int))
}

/// The knowledge that masks and counters stand for.
spec fn knowledge_of(choices: Seq<u32>, counts: Seq<LetterCount>) -> Knowledge {
    Knowledge { positions: positions_of(choices), counts: ranges_of(counts) }
}

/// Every mask lies within the alphabet.
spec fn masks_valid(choices: Seq<u32>) -> bool {
    choices.len() == 5 && forall|i: int| 0 <= i < 5 ==> #[trigger] choices[i] <= ALL_LETTERS
}

/// The green and yellow results for `letter` in a guess, and whether some
/// occurrence of `letter` is black.
fn tally(guessed: Word, gwr: &GuessWordResult, letter: u8) -> (r: (u8, bool))
    ensures
        r.0 == confirmed(guessed@, gwr@, letter, 5),
        r.0 <= 5,
        r.1 == has_black(guessed@, gwr@, letter),
{
    let mut k: u8 = 0;
    let mut black = false;
    let mut j: usize = 0;
    while j < 5
        invariant
            j <= 5,
            k <= j,
            k == confirmed(guessed@, gwr@, letter, j as int),
            black == has_black_before(guessed@, gwr@, letter, j as int),
        decreases 5 - j,
    {
        if guessed.letter(j) == letter {
            match gwr[j] {
                GuessLetterResult::Black => {
                    black = true;
                },
                _ => {
                    k += 1;
                },
            }
        }
        j += 1;
    }
    (k, black)
}

/// Number of positions that allow `letter` and no other.
fn count_fixed(choices: &[u32; 5], letter: u8) -> (n: u8)
    requires
        letter < 26,
        masks_valid(choices@),
    ensures
        n == fixed_count(positions_of(choices@), letter, 5),
        n <= 5,
{
    let mut n: u8 = 0;
    let mut i: usize = 0;
    while i < 5
        invariant
            i <= 5,
            n <= i,
            letter < 26,
            masks_valid(choices@),
            n == fixed_count(positions_of(choices@), letter, i as int),
        decreases 5 - i,
    {
        if mask_is_only(choices[i], letter) {
            n += 1;
        }
        i += 1;
    }
    n
}

/// Number of positions that allow `letter`.
fn count_admitting(choices: &[u32; 5], letter: u8) -> (n: u8)
    requires
        letter < 26,
    ensures
        n == admit_count(positions_of(choices@), letter, 5),
        n <= 5,
{
    let mut n: u8 = 0;
    let mut i: usize = 0;
    while i < 5
        invariant
            i <= 5,
            n <= i,
            letter < 26,
            n == admit_count(positions_of(choices@), letter, i as int),
        decreases 5 - i,
    {
        if mask_contains(choices[i], letter) {
            n += 1;
        }
        i += 1;
    }
    n
}

/// Takes `letter` away at every position.
fn remove_everywhere(choices: [u32; 5], letter: u8) -> (r: [u32; 5])
    requires
        letter < 26,
        masks_valid(choices@),
    ensures
        masks_valid(r@),
        positions_of(r@) == Seq::new(5, |i: int| positions_of(choices@)[i].remove(letter)),
{
    let mut r = choices;
    let mut i: usize = 0;
    while i < 5
        invariant
            i <= 5,
            letter < 26,
            masks_valid(choices@),
            masks_valid(r@),
            forall|q: int|
                0 <= q < 5 ==> mask_set(#[trigger] r@[q]) == (if q < i {
                    mask_set(choices@[q]).remove(letter)
                } else {
                    mask_set(choices@[q])
                }),
        decreases 5 - i,
    {
        let m = mask_without(r[i], letter);
        r[i] = m;
        i += 1;
    }
    assert(positions_of(r@) =~= Seq::new(5, |i: int| positions_of(choices@)[i].remove(letter)));
    r
}

/// Leaves `letter` alone at every position that allows it.
fn lock_everywhere(choices: [u32; 5], letter: u8) -> (r: [u32; 5])
    requires
        letter < 26,
        masks_valid(choices@),
    ensures
        masks_valid(r@),
        positions_of(r@) == Seq::new(
            5,
            |i: int|
                if positions_of(choices@)[i].contains(letter) {
                    set![letter]
                } else {
                    positions_of(choices@)[i]
                },
        ),
{
    let mut r = choices;
    let mut i: usize = 0;
    while i < 5
        invariant
            i <= 5,
            letter < 26,
            masks_valid(choices@),
            masks_valid(r@),
            forall|q: int|
                0 <= q < 5 ==> mask_set(#[trigger] r@[q]) == (if q < i && mask_set(
                    choices@[q],
                ).contains(letter) {
                    set![letter]
                } else {
                    mask_set(choices@[q])
                }),
        decreases 5 - i,
    {
        if mask_contains(r[i], letter) {
            let m = letter_bit(letter);
            r[i] = m;
        }
        i += 1;
    }
    assert(positions_of(r@) =~= Seq::new(
        5,
        |i: int|
            if positions_of(choices@)[i].contains(letter) {
                set![letter]
            } else {
                positions_of(choices@)[i]
            },
    ));
    r
}

/// The third step of an update for one letter.
fn propagate(choices: [u32; 5], counts: [LetterCount; 26], letter: u8) -> (r: Option<
    ([u32; 5], [LetterCount; 26]),
>)
    requires
        letter < 26,
        masks_valid(choices@),
    ensures
        match r {
            Some((c2, n2)) => masks_valid(c2@) && knowledge_of(choices@, counts@).propagated(letter)
                == Some(knowledge_of(c2@, n2@)),
            None => knowledge_of(choices@, counts@).propagated(letter) is None,
        },
{
    let fixed = count_fixed(&choices, letter);
    let admitting = count_admitting(&choices, letter);
    let current = counts[letter as usize];
    let lo = if current.start < fixed {
        fixed
    } else {
        current.start
    };
    let hi = if current.end < admitting + 1 {
        current.end
    } else {
        admitting + 1
    };
    if lo >= hi {
        return None;
    }
    let mut n2 = counts;
    n2[letter as usize] = LetterCount { start: lo, end: hi };
    assert(ranges_of(n2@) =~= ranges_of(counts@).update(letter as int, (lo as int, hi as int)));
    if lo == 0 && hi == 1 {
        let c2 = remove_everywhere(choices, letter);
        Some((c2, n2))
    } else if hi - lo == 1 && admitting == lo {
        let c2 = lock_everywhere(choices, letter);
        Some((c2, n2))
    } else {
        Some((choices, n2))
    }
}


/// Letters that are not among the given ones are passed over by the third
/// step.
proof fn lemma_propagated_skip(k: Knowledge, letters: Set<u8>, from: int, to: int)
    requires
        0 <= from <= to <= 26,
        forall|c: u8| from <= c < to ==> !letters.contains(c),
    ensures
        k.propagated_from(letters, from) == k.propagated_from(letters, to),
    decreases to - from,
{
    if from < to {
        lemma_propagated_skip(k, letters, from + 1, to);
    }
}

/// The first two steps of an update: every position and every range is
/// narrowed by what the feedback says directly. Beside the narrowed masks and
/// ranges, the set of the letters of the guess is returned.
fn narrow(choices: [u32; 5], counts: [LetterCount; 26], guessed: Word, gwr: &GuessWordResult) -> (r: (
    [u32; 5],
    [LetterCount; 26],
    u32,
))
    requires
        masks_valid(choices@),
    ensures
        masks_valid(r.0@),
        knowledge_of(r.0@, r.1@) == knowledge_of(choices@, counts@).narrowed(guessed@, gwr@),
        r.2 <= ALL_LETTERS,
        mask_set(r.2) == guess_letters(guessed@),
{
    let ghost g = guessed@;
    let ghost fb = gwr@;
    let ghost before = knowledge_of(choices@, counts@);
    let mut masks = choices;
    let mut ranges = counts;
    let mut letters_seen: u32 = 0;
    proof {
        guessed.lemma_len();
        lemma_empty_mask(0);
    }
    let mut i: usize = 0;
    while i < 5
        invariant
            i <= 5,
            g == guessed@,
            fb == gwr@,
            g.len() == 5,
            before == knowledge_of(choices@, counts@),
            masks_valid(masks@),
            letters_seen <= ALL_LETTERS,
            forall|c: u8|
                mask_set(letters_seen).contains(c) == (c < 26 && appears_before(g, c, i as int)),
            forall|q: int|
                0 <= q < 5 ==> mask_set(#[trigger] masks@[q]) == (if q < i {
                    narrowed_position(before.positions[q], g[q], fb[q])
                } else {
                    before.positions[q]
                }),
            forall|c: int|
                0 <= c < 26 ==> (#[trigger] ranges_of(ranges@)[c]) == (if appears_before(
                    g,
                    c as u8,
                    i as int,
                ) {
                    narrowed_count(before.counts[c], g, fb, c as u8)
                } else {
                    before.counts[c]
                }),
        decreases 5 - i,
    {
        let letter = guessed.letter(i);
        match gwr[i] {
            GuessLetterResult::Green => {
                let m = letter_bit(letter);
                masks[i] = m;
            },
            _ => {
                let m = mask_without(masks[i], letter);
                masks[i] = m;
            },
        }
        let (k, black) = tally(guessed, gwr, letter);
        let current = ranges[letter as usize];
        let ghost ranges_before = ranges@;
        if black {
            let end = if current.end < k + 1 {
                current.end
            } else {
                k + 1
            };
            ranges[letter as usize] = LetterCount { start: current.start, end };
        } else {
            let start = if current.start < k {
                k
            } else {
                current.start
            };
            ranges[letter as usize] = LetterCount { start, end: current.end };
        }
        letters_seen = mask_with(letters_seen, letter);
        proof {
            assert(g[i as int] == letter);
            assert(appears(g, letter));
            assert forall|c: u8|
                mask_set(letters_seen).contains(c) == (c < 26 && appears_before(
                    g,
                    c,
                    i as int + 1,
                )) by {
                if c < 26 && appears_before(g, c, i as int + 1) {
                    let j = choose|j: int| 0 <= j < i + 1 && g[j] == c;
                    if j < i {
                        assert(appears_before(g, c, i as int));
                    }
                }
            }
            assert forall|c: int| 0 <= c < 26 implies (#[trigger] ranges_of(ranges@)[c]) == (
            if appears_before(g, c as u8, i as int + 1) {
                narrowed_count(before.counts[c], g, fb, c as u8)
            } else {
                before.counts[c]
            }) by {
                assert(ranges_of(ranges_before)[c] == (if appears_before(g, c as u8, i as int) {
                    narrowed_count(before.counts[c], g, fb, c as u8)
                } else {
                    before.counts[c]
                }));
                if c != letter {
                    assert(ranges@[c] == ranges_before[c]);
                    if appears_before(g, c as u8, i as int + 1) {
                        let j = choose|j: int| 0 <= j < i + 1 && g[j] == c as u8;
                        assert(appears_before(g, c as u8, i as int));
                    }
                }
            }
        }
        i += 1;
    }
    proof {
        let narrowed = before.narrowed(g, fb);
        assert(positions_of(masks@) =~= narrowed.positions);
        assert(ranges_of(ranges@) =~= narrowed.counts);
        assert(mask_set(letters_seen) =~= guess_letters(g));
    }
    (masks, ranges, letters_seen)
}

/// The third step of an update for every letter of the set `letters`, in
/// alphabetical order.
fn propagate_all(choices: [u32; 5], counts: [LetterCount; 26], letters: u32) -> (r: Option<
    ([u32; 5], [LetterCount; 26]),
>)
    requires
        masks_valid(choices@),
        letters <= ALL_LETTERS,
    ensures
        match r {
            Some((c2, n2)) => masks_valid(c2@) && knowledge_of(choices@, counts@).propagated_from(
                mask_set(letters),
                0,
            ) == Some(knowledge_of(c2@, n2@)),
            None => knowledge_of(choices@, counts@).propagated_from(mask_set(letters), 0) is None,
        },
{
    let ghost start = knowledge_of(choices@, counts@);
    let ghost set = mask_set(letters);
    let mut masks = choices;
    let mut ranges = counts;
    let seen = set_bits(letters);
    proof {
        assert forall|t: int| 0 <= t < seen.len() implies (#[trigger] seen[t]) < 26 && set.contains(
            seen[t] as u8,
        ) by {
            assert(seen@.contains(seen[t]));
            lemma_high_bits_clear(letters, seen[t] as u32);
        }
        lemma_letters_between(seen@, letters, -1);
        lemma_propagated_skip(start, set, 0, next_letter(seen@, 0));
    }
    let mut t: usize = 0;
    while t < seen.len()
        invariant
            t <= seen.len(),
            masks_valid(masks@),
            letters <= ALL_LETTERS,
            set == mask_set(letters),
            start == knowledge_of(choices@, counts@),
            forall|a: int, b: int| 0 <= a < b < seen.len() ==> seen[a] < seen[b],
            forall|b: usize| seen@.contains(b) <==> (b < 32 && bit_is_set(letters, b as u32)),
            forall|a: int| 0 <= a < seen.len() ==> (#[trigger] seen[a]) < 26 && set.contains(
                seen[a] as u8,
            ),
            start.propagated_from(set, 0) == knowledge_of(masks@, ranges@).propagated_from(
                set,
                next_letter(seen@, t as int),
            ),
        decreases seen.len() - t,
    {
        let letter = seen[t] as u8;
        match propagate(masks, ranges, letter) {
            None => {
                return None;
            },
            Some((c2, n2)) => {
                masks = c2;
                ranges = n2;
            },
        }
        proof {
            lemma_letters_between(seen@, letters, t as int);
            lemma_propagated_skip(
                knowledge_of(masks@, ranges@),
                set,
                letter as int + 1,
                next_letter(seen@, t as int + 1),
            );
        }
        t += 1;
    }
    Some((masks, ranges))
}

/// The letter at index `t` of an ascending list of letters, or 26 where the
/// list has come to its end.
spec fn next_letter(seen: Seq<usize>, t: int) -> int {
    if 0 <= t < seen.len() {
        seen[t] as int
    } else {
        26
    }
}

/// Between two neighbours of the ascending list of its bits, and before the
/// first of them, a mask holds no letter.
proof fn lemma_letters_between(seen: Seq<usize>, letters: u32, t: int)
    requires
        -1 <= t < seen.len(),
        forall|a: int, b: int| 0 <= a < b < seen.len() ==> seen[a] < seen[b],
        forall|b: usize| seen.contains(b) <==> (b < 32 && bit_is_set(letters, b as u32)),
    ensures
        forall|c: u8|
            (if t < 0 {
                -1
            } else {
                seen[t] as int
            }) < c < next_letter(seen, t + 1) ==> !mask_set(letters).contains(c),
{
    let low: int = if t < 0 {
        -1
    } else {
        seen[t] as int
    };
    assert forall|c: u8| low < c < next_letter(seen, t + 1) implies !mask_set(letters).contains(
        c,
    ) by {
        if mask_set(letters).contains(c) {
            assert(seen.contains(c as usize));
            let a = choose|a: int| 0 <= a < seen.len() && seen[a] == c as usize;
            if a < t {
                assert(seen[a] < seen[t]);
            } else if a > t + 1 {
                assert(seen[t + 1] < seen[a]);
            }
        }
    }
}

/// The constraint state: what all feedback so far says about the hidden word.
#[derive(Debug, Clone, Copy, PartialEq, Eq)]
pub struct GuessState {
    /// For each position, the mask of the letters still allowed there.
    letter_choices: [u32; 5],
    /// For each letter, the range of the number of its occurrences.
    letter_counts: [LetterCount; 26],
}

impl View for GuessState {
    type V = Knowledge;

    closed spec fn view(&self) -> Knowledge {
        knowledge_of(self.letter_choices@, self.letter_counts@)
    }
}

impl Default for GuessState {
    /// The state before any guess.
    fn default() -> (r: Self)
        ensures
            r@ == Knowledge::initial(),
            r@.consistent(),
    {
        let letter_choices = [ALL_LETTERS;5];
        let letter_counts = [LetterCount { start: 0, end: 6 };26];
        proof {
            lemma_initial_consistent();
            lemma_all_letters();
            let k = knowledge_of(letter_choices@, letter_counts@);
            assert(k.positions =~= Knowledge::initial().positions);
            assert(k.counts =~= Knowledge::initial().counts);
        }
        GuessState { letter_choices, letter_counts }
    }
}

impl GuessState {
    #[verifier::type_invariant]
    spec fn inv(self) -> bool {
        &&& masks_valid(self.letter_choices@)
        &&& knowledge_of(self.letter_choices@, self.letter_counts@).consistent()
    }

    /// The model of a state has five positions and 26 ranges.
    pub proof fn lemma_wf(self)
        ensures
            self@.wf(),
    {
    }

    /// Takes in the feedback `gwr` for the guess `guessed`.
    ///
    /// Each position and each count range is narrowed by what the feedback
    /// says directly, then positions and ranges are played against each other
    /// once for every letter of the guess. Feedback that contradicts the state
    /// is refused, and the state stays as it was.
    pub fn update(&mut self, guessed: Word, gwr: GuessWordResult) -> (r: Result<
        (),
        ContradictoryFeedback,
    >)
        ensures
            match r {
                Ok(_) => old(self)@.updated(guessed@, gwr@) == Some(final(self)@),
                Err(_) => old(self)@.updated(guessed@, gwr@) is None && *final(self) == *old(self),
            },
            final(self)@.consistent(),
    {
        proof {
            use_type_invariant(&*self);
        }
        let ghost before = self@;
        let (narrowed_choices, narrowed_counts, letters) = narrow(
            self.letter_choices,
            self.letter_counts,
            guessed,
            &gwr,
        );
        let (choices, counts) = match propagate_all(narrowed_choices, narrowed_counts, letters) {
            Some(propagated) => propagated,
            None => {
                return Err(ContradictoryFeedback);
            },
        };
        let mut p: usize = 0;
        while p < 5
            invariant
                p <= 5,
                masks_valid(choices@),
                *self == *old(self),
                before == old(self)@,
                before.consistent(),
                before.narrowed(guessed@, gwr@).propagated_from(guess_letters(guessed@), 0) == Some(
                    knowledge_of(choices@, counts@),
                ),
                forall|q: int| 0 <= q < p ==> #[trigger] positions_of(choices@)[q] != Set::<u8>::empty(),
            decreases 5 - p,
        {
            proof {
                lemma_empty_mask(choices[p as int]);
            }
            if choices[p] == 0 {
                proof {
                    let next = knowledge_of(choices@, counts@);
                    assert(next.positions[p as int] == Set::<u8>::empty());
                }
                return Err(ContradictoryFeedback);
            }
            p += 1;
        }
        proof {
            lemma_update_keeps_consistent(before, guessed@, gwr@);
        }
        *self = GuessState { letter_choices: choices, letter_counts: counts };
        Ok(())
    }

    /// The state that taking in the feedback `gwr` for the guess `guessed`
    /// leads to; this state stays as it is.
    pub fn then(&self, guessed: Word, gwr: GuessWordResult) -> (r: Result<
        GuessState,
        ContradictoryFeedback,
    >)
        ensures
            match r {
                Ok(next) => self@.updated(guessed@, gwr@) == Some(next@) && next@.consistent(),
                Err(_) => self@.updated(guessed@, gwr@) is None,
            },
    {
        let mut new = *self;
        match new.update(guessed, gwr) {
            Ok(_) => Ok(new),
            Err(e) => Err(e),
        }
    }

    /// Whether the word `w` agrees with everything the state holds.
    pub fn is_word_possible(&self, w: Word) -> (b: bool)
        ensures
            b == self@.possible(w@),
    {
        proof {
            use_type_invariant(self);
            w.lemma_len();
        }
        let mut i: usize = 0;
        while i < 5
            invariant
                i <= 5,
                w@.len() == 5,
                forall|q: int| 0 <= q < i ==> self@.positions[q].contains(#[trigger] w@[q]),
            decreases 5 - i,
        {
            if !mask_contains(self.letter_choices[i], w.letter(i)) {
                assert(!self@.positions[i as int].contains(w@[i as int]));
                return false;
            }
            i += 1;
        }
        let mut c: u8 = 0;
        while c < 26
            invariant
                c <= 26,
                w@.len() == 5,
                forall|q: int| 0 <= q < 5 ==> self@.positions[q].contains(#[trigger] w@[q]),
                forall|d: u8|
                    d < c ==> (#[trigger] self@.counts[d as int] == no_information()
                        || self@.counts[d as int].0 <= occurrences(w@, d, 5)
                        < self@.counts[d as int].1),
            decreases 26 - c,
        {
            let range = self.letter_counts[c as usize];
            if !(range.start == 0 && range.end == 6) {
                let n = w.count_letter(c);
                if !(range.start <= n && n < range.end) {
                    assert(self@.counts[c as int] == (range.start as int, range.end as int));
                    return false;
                }
            }
            c += 1;
        }
        true
    }

    /// Whether `letter` is still allowed at `position`.
    pub fn allows(&self, position: usize, letter: u8) -> (b: bool)
        requires
            position < 5,
            letter < 26,
        ensures
            b == self@.positions[position as int].contains(letter),
    {
        mask_contains(self.letter_choices[position], letter)
    }

    /// The letters still allowed at `position`, in alphabetical order.
    pub fn choices(&self, position: usize) -> (r: Vec<u8>)
        requires
            position < 5,
        ensures
            forall|i: int, j: int| 0 <= i < j < r.len() ==> r[i] < r[j],
            forall|l: u8| r@.contains(l) <==> self@.positions[position as int].contains(l),
    {
        mask_letters(self.letter_choices[position])
    }

    /// The range of the number of occurrences of `letter`.
    pub fn letter_count(&self, letter: u8) -> (r: LetterCount)
        requires
            letter < 26,
        ensures
            (r.start as int, r.end as int) == self@.counts[letter as int],
    {
        self.letter_counts[letter as usize]
    }
}

} // verus!
