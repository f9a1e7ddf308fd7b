//! Ranking guesses by the share of the candidate list that each is expected
//! to eliminate, and the search for the best one.
//!
//! Qualities are exact fractions. For a list of `t` candidates, the quality of
//! a state is `eliminated / (t - 1)`, and the expected quality of a guess is
//! the sum of the qualities it reaches over all candidates taken as the hidden
//! word, divided by `t`: a total of eliminated words over `t * (t - 1)`.

use crate::feedback::{feedback_spec, process_guess};
use crate::knowledge::Knowledge;
use crate::soundness::lemma_update_keeps_hidden_word;
use crate::state::GuessState;
use crate::word::Word;
use vstd::prelude::*;

verus! {

/// A quality as an exact fraction.
#[derive(Debug, Clone, Copy, PartialEq, Eq, Structural)]
pub struct Quality {
    /// The number of eliminated words, summed over the hypotheses considered.
    pub numerator: u128,
    /// What the numerator is measured against.
    pub denominator: u128,
}

/// The candidate list holds no word that agrees with the state.
#[derive(Debug, Clone, Copy, PartialEq, Eq, Structural)]
pub struct NoCandidatesError;

/// Number of words among the first `n` of `words` that agree with `k`.
pub open spec fn remaining(k: Knowledge, words: Seq<Word>, n: int) -> nat
    decreases n,
{
    if n <= 0 {
        0
    } else {
        remaining(k, words, n - 1) + if k.possible(words[n - 1]@) {
            1nat
        } else {
            0nat
        }
    }
}

/// Number of words of the list that do not agree with `k`.
pub open spec fn eliminated(k: Knowledge, words: Seq<Word>) -> int {
    words.len() - remaining(k, words, words.len() as int)
}

/// Every word of the list agrees with `k`: the list is a candidate list.
pub open spec fn all_possible(k: Knowledge, words: Seq<Word>) -> bool {
    forall|j: int| 0 <= j < words.len() ==> k.possible(#[trigger] words[j]@)
}

/// Number of words that the guess `g` eliminates from the list when the
/// hidden word is `w`. Feedback that contradicts `k` counts nothing; a word
/// that agrees with `k` never produces such feedback.
pub open spec fn hypothesis_score(k: Knowledge, g: Seq<u8>, w: Seq<u8>, words: Seq<Word>) -> int {
    match k.updated(g, feedback_spec(g, w)) {
        Some(next) => eliminated(next, words),
        None => 0,
    }
}

/// The scores of the guess `g`, summed over the first `n` words of the list
/// taken as the hidden word.
pub open spec fn total_score(k: Knowledge, g: Seq<u8>, words: Seq<Word>, n: int) -> int
    decreases n,
{
    if n <= 0 {
        0
    } else {
        total_score(k, g, words, n - 1) + hypothesis_score(k, g, words[n - 1]@, words)
    }
}

/// The score by which the guesses of a candidate list are ranked: the total
/// of word `j` played as the guess. The expected quality of that guess is
/// this score over `t * (t - 1)`, with `t` the length of the list.
pub open spec fn guess_score(k: Knowledge, words: Seq<Word>, j: int) -> int {
    total_score(k, words[j]@, words, words.len() as int)
}

/// Word `b` of the list has the greatest score, and is the first to have it.
pub open spec fn is_first_best(k: Knowledge, words: Seq<Word>, b: int) -> bool {
    &&& 0 <= b < words.len()
    &&& forall|j: int| 0 <= j < words.len() ==> guess_score(k, words, j) <= guess_score(k, words, b)
    &&& forall|j: int| 0 <= j < b ==> guess_score(k, words, j) < guess_score(k, words, b)
}

proof fn lemma_remaining_bounds(k: Knowledge, words: Seq<Word>, n: int)
    requires
        0 <= n <= words.len(),
    ensures
        remaining(k, words, n) <= n,
        forall|j: int| 0 <= j < n && k.possible(#[trigger] words[j]@) ==> remaining(k, words, n) >= 1,
    decreases n,
{
    if n > 0 {
        lemma_remaining_bounds(k, words, n - 1);
    }
}

/// The quality of a state lies between 0 and 1 for every list of more than
/// one word of which at least one agrees with the state.
pub proof fn lemma_quality_in_unit_interval(k: Knowledge, words: Seq<Word>, j: int)
    requires
        words.len() > 1,
        0 <= j < words.len(),
        k.possible(words[j]@),
    ensures
        0 <= eliminated(k, words) <= words.len() - 1,
{
    lemma_remaining_bounds(k, words, words.len() as int);
}

/// The score of one hypothesis from the list lies between 0 and one less than
/// the length of the list: among the words left is the hidden word itself.
pub proof fn lemma_hypothesis_score_bounds(k: Knowledge, g: Seq<u8>, words: Seq<Word>, j: int)
    requires
        k.wf(),
        g.len() == 5,
        0 <= j < words.len(),
        k.possible(words[j]@),
    ensures
        0 <= hypothesis_score(k, g, words[j]@, words) <= words.len() - 1,
{
    let w = words[j]@;
    words[j].lemma_len();
    lemma_update_keeps_hidden_word(k, g, w);
    let next = k.updated(g, feedback_spec(g, w))->Some_0;
    lemma_remaining_bounds(next, words, words.len() as int);
}

/// Soundness of the pruning bound: the hypotheses from `m` up to `n` add
/// between nothing and `len - 1` each to the total.
pub proof fn lemma_total_score_bounds(k: Knowledge, g: Seq<u8>, words: Seq<Word>, m: int, n: int)
    requires
        k.wf(),
        g.len() == 5,
        0 <= m <= n <= words.len(),
        all_possible(k, words),
    ensures
        total_score(k, g, words, m) <= total_score(k, g, words, n),
        total_score(k, g, words, n) <= total_score(k, g, words, m) + (n - m) * (words.len() - 1),
    decreases n - m,
{
    if m < n {
        lemma_total_score_bounds(k, g, words, m, n - 1);
        lemma_hypothesis_score_bounds(k, g, words, n - 1);
        let l = words.len() - 1;
        assert((n - m) * l == (n - 1 - m) * l + l) by (nonlinear_arith);
    } else {
        assert((n - m) * (words.len() - 1) == 0) by (nonlinear_arith)
            requires
                n - m == 0,
        ;
    }
}

/// Products of list lengths fit in 128 bits.
proof fn lemma_product_fits(a: int, b: int, n: int)
    requires
        0 <= a <= n,
        0 <= b <= n,
        n <= usize::MAX,
    ensures
        0 <= a * b <= n * n,
        n * n <= u128::MAX,
{
    assert(0 <= a * b <= n * n) by (nonlinear_arith)
        requires
            0 <= a <= n,
            0 <= b <= n,
    ;
    assert(n * n <= 0xffff_ffff_ffff_ffff * 0xffff_ffff_ffff_ffff) by (nonlinear_arith)
        requires
            0 <= n <= 0xffff_ffff_ffff_ffff,
    ;
}

/// Number of words of the list that agree with the state.
pub fn count_possible(state: &GuessState, words: &[Word]) -> (r: usize)
    ensures
        r == remaining(state@, words@, words.len() as int),
        r <= words.len(),
{
    let mut r: usize = 0;
    let mut i: usize = 0;
    while i < words.len()
        invariant
            i <= words.len(),
            r <= i,
            r == remaining(state@, words@, i as int),
        decreases words.len() - i,
    {
        if state.is_word_possible(words[i]) {
            r += 1;
        }
        i += 1;
    }
    r
}

/// The quality of a state against a list of more than one word: the share of
/// the list that the state eliminates, scaled so that eliminating all words
/// but one gives 1 and eliminating none gives 0.
pub fn quality(guess_state: &GuessState, words: &[Word]) -> (q: Quality)
    requires
        words.len() > 1,
    ensures
        q.numerator == eliminated(guess_state@, words@),
        q.denominator == words.len() - 1,
        (exists|j: int| 0 <= j < words.len() && guess_state@.possible(#[trigger] words[j]@))
            ==> q.numerator <= q.denominator,
{
    let total = words.len();
    let left = count_possible(guess_state, words);
    proof {
        lemma_remaining_bounds(guess_state@, words@, words.len() as int);
    }
    Quality { numerator: (total - left) as u128, denominator: (total - 1) as u128 }
}

/// Number of words that `guessed_word` eliminates from the list when word
/// `j` of the list is the hidden word.
fn hypothesis_quality(s: &GuessState, guessed_word: Word, words: &[Word], j: usize) -> (e: usize)
    requires
        j < words.len(),
        s@.possible(words[j as int]@),
    ensures
        e == hypothesis_score(s@, guessed_word@, words[j as int]@, words@),
        e <= words.len() - 1,
{
    let actual_word = words[j];
    let feedback = process_guess(guessed_word, actual_word);
    proof {
        s.lemma_wf();
        guessed_word.lemma_len();
        lemma_hypothesis_score_bounds(s@, guessed_word@, words@, j as int);
        actual_word.lemma_len();
        lemma_update_keeps_hidden_word(s@, guessed_word@, actual_word@);
    }
    let mut new_state = *s;
    match new_state.update(guessed_word, feedback) {
        Ok(_) => words.len() - count_possible(&new_state, words),
        Err(_) => {
            // Feedback against a word that agrees with the state never
            // contradicts the state.
            assert(false);
            0
        },
    }
}

/// The expected quality of playing `guessed_word`, over a candidate list of
/// more than one word: the mean, over the words of the list taken as the
/// hidden word, of the quality of the state that the feedback leads to.
pub fn guess_quality(s: &GuessState, guessed_word: Word, words: &[Word]) -> (q: Quality)
    requires
        words.len() > 1,
        all_possible(s@, words@),
    ensures
        q.numerator == total_score(s@, guessed_word@, words@, words.len() as int),
        q.denominator == words.len() * (words.len() - 1),
        q.numerator <= q.denominator,
{
    let n = words.len();
    let scale: u128 = (n - 1) as u128;
    let mut total: u128 = 0;
    let mut i: usize = 0;
    proof {
        lemma_product_fits(0, n - 1, n as int);
        assert(0 * (n - 1) == 0) by (nonlinear_arith);
    }
    while i < n
        invariant
            i <= n,
            n == words.len(),
            n > 1,
            scale == n - 1,
            all_possible(s@, words@),
            total == total_score(s@, guessed_word@, words@, i as int),
            total <= i * (n - 1),
        decreases n - i,
    {
        let e = hypothesis_quality(s, guessed_word, words, i);
        proof {
            lemma_product_fits(i as int + 1, n - 1, n as int);
            assert((i + 1) * (n - 1) == i * (n - 1) + (n - 1)) by (nonlinear_arith);
        }
        total = total + e as u128;
        i += 1;
    }
    proof {
        lemma_product_fits(n as int, n - 1, n as int);
    }
    Quality { numerator: total, denominator: n as u128 * scale }
}

/// The expected quality of playing `guessed_word`, computed only as far as it
/// can still reach `lower_bound`.
///
/// `lower_bound` is the numerator of the quality to reach, over `t * (t - 1)`
/// for a list of `t` words. After each hypothesis the total so far is taken
/// together with the most that the hypotheses still to come can add, `t - 1`
/// each; once that falls short of `lower_bound` the guess is given up. The
/// result is the quality exactly where it reaches `lower_bound`, and `None`
/// exactly where it does not.
pub fn guess_quality_lower_bound(
    s: &GuessState,
    guessed_word: Word,
    words: &[Word],
    lower_bound: u128,
) -> (r: Option<Quality>)
    requires
        words.len() > 1,
        all_possible(s@, words@),
    ensures
        match r {
            Some(q) => q.numerator == total_score(s@, guessed_word@, words@, words.len() as int)
                && q.numerator >= lower_bound && q.denominator == words.len() * (words.len() - 1),
            None => total_score(s@, guessed_word@, words@, words.len() as int) < lower_bound,
        },
{
    let n = words.len();
    let scale: u128 = (n - 1) as u128;
    let mut total: u128 = 0;
    let mut i: usize = 0;
    proof {
        s.lemma_wf();
        guessed_word.lemma_len();
        assert(0 * (n - 1) == 0) by (nonlinear_arith);
    }
    while i < n
        invariant
            i <= n,
            n == words.len(),
            n > 1,
            scale == n - 1,
            s@.wf(),
            guessed_word@.len() == 5,
            all_possible(s@, words@),
            total == total_score(s@, guessed_word@, words@, i as int),
            total <= i * (n - 1),
            i == n ==> total >= lower_bound,
        decreases n - i,
    {
        let e = hypothesis_quality(s, guessed_word, words, i);
        proof {
            lemma_product_fits(i as int + 1, n - 1, n as int);
            lemma_product_fits(n - i - 1, n - 1, n as int);
            lemma_product_fits(n as int, n - 1, n as int);
            assert((i + 1) * (n - 1) == i * (n - 1) + (n - 1)) by (nonlinear_arith);
            assert((i + 1) * (n - 1) + (n - i - 1) * (n - 1) == n * (n - 1)) by (nonlinear_arith);
        }
        total = total + e as u128;
        let rest: u128 = (n - i - 1) as u128 * scale;
        if total + rest < lower_bound {
            proof {
                lemma_total_score_bounds(s@, guessed_word@, words@, i as int + 1, n as int);
            }
            return None;
        }
        proof {
            if i + 1 == n {
                assert((n - i - 1) * (n - 1) == 0) by (nonlinear_arith)
                    requires
                        n - i - 1 == 0,
                ;
            }
        }
        i += 1;
    }
    proof {
        lemma_product_fits(n as int, n - 1, n as int);
    }
    Some(Quality { numerator: total, denominator: n as u128 * scale })
}


/// `partition::partition` on the words, with the state's test of a word as
/// the predicate: the words are rearranged in place, those that pass the test
/// in front of those that fail it, and the number of those that pass is
/// returned.
#[verifier::external_body]
fn partition_possible(state: &GuessState, words: &mut Vec<Word>) -> (n: usize)
    ensures
        final(words)@.to_multiset() == old(words)@.to_multiset(),
        n <= final(words)@.len(),
        forall|j: int| 0 <= j < n ==> state@.possible(#[trigger] final(words)@[j]@),
        forall|j: int| n <= j < final(words)@.len() ==> !state@.possible(#[trigger] final(words)@[j]@),
{
    partition::partition(words.as_mut_slice(), |w| state.is_word_possible(*w)).0.len()
}

/// What is left of `before` in `after` when exactly the words that agree with
/// `k` are kept, each as often as it occurred.
pub open spec fn is_filtered(k: Knowledge, before: Seq<Word>, after: Seq<Word>) -> bool {
    &&& all_possible(k, after)
    &&& forall|w: Word| #[trigger]
        after.to_multiset().count(w) == (if k.possible(w@) {
            before.to_multiset().count(w)
        } else {
            0
        })
}

/// A filtered list is empty exactly where no word of the list before agrees.
pub proof fn lemma_filtered_empty(k: Knowledge, before: Seq<Word>, after: Seq<Word>)
    requires
        is_filtered(k, before, after),
    ensures
        after.len() == 0 <==> forall|j: int| 0 <= j < before.len() ==> !k.possible(#[trigger] before[j]@),
{
    before.to_multiset_ensures();
    after.to_multiset_ensures();
    if after.len() > 0 {
        let w = after[0];
        assert(k.possible(w@));
        assert(after.contains(w));
        assert(after.to_multiset().count(w) > 0);
        assert(before.contains(w));
        let j = choose|j: int| 0 <= j < before.len() && before[j] == w;
        assert(k.possible(before[j]@));
    } else {
        assert forall|j: int| 0 <= j < before.len() implies !k.possible(#[trigger] before[j]@) by {
            if k.possible(before[j]@) {
                assert(before.contains(before[j]));
                assert(after.to_multiset().count(before[j]) > 0);
                assert(after.contains(before[j]));
            }
        }
    }
}

impl GuessState {
    /// Keeps the words that agree with the state and drops the others. The
    /// order of the words that stay is not fixed.
    pub fn filter_word_list(&self, words: &mut Vec<Word>)
        ensures
            is_filtered(self@, old(words)@, final(words)@),
    {
        let n = partition_possible(self, words);
        let ghost parted = words@;
        words.truncate(n);
        proof {
            let kept = parted.subrange(0, n as int);
            let dropped = parted.subrange(n as int, parted.len() as int);
            assert(words@ == kept);
            assert(parted =~= kept + dropped);
            vstd::seq_lib::lemma_multiset_commutative(kept, dropped);
            kept.to_multiset_ensures();
            dropped.to_multiset_ensures();
            assert forall|w: Word| #[trigger]
                kept.to_multiset().count(w) == (if self@.possible(w@) {
                    old(words)@.to_multiset().count(w)
                } else {
                    0
                }) by {
                if self@.possible(w@) {
                    if dropped.to_multiset().count(w) > 0 {
                        assert(dropped.contains(w));
                        let j = choose|j: int| 0 <= j < dropped.len() && dropped[j] == w;
                        assert(parted[n + j] == w);
                    }
                } else {
                    if kept.to_multiset().count(w) > 0 {
                        assert(kept.contains(w));
                        let j = choose|j: int| 0 <= j < kept.len() && kept[j] == w;
                        assert(parted[j] == w);
                    }
                }
            }
            assert forall|j: int| 0 <= j < kept.len() implies self@.possible(#[trigger] kept[j]@) by {
                assert(kept[j] == parted[j]);
            }
        }
    }
}

/// The best next guess.
///
/// The list is first cut down to the words that agree with the state. With
/// none left there is no guess; with one left that word is the guess.
/// Otherwise every word left is scored by the words it is expected to
/// eliminate, and the first word with the greatest score wins. A word is given
/// up as soon as it can no longer reach the best score found before it, which
/// changes nothing of the result.
pub fn find_best_guess(s: &GuessState, words: &mut Vec<Word>) -> (r: Result<Word, NoCandidatesError>)
    ensures
        is_filtered(s@, old(words)@, final(words)@),
        r is Err <==> forall|j: int| 0 <= j < old(words)@.len() ==> !s@.possible(#[trigger] old(words)@[j]@),
        match r {
            Ok(w) => exists|b: int|
                is_first_best(s@, final(words)@, b) && w == #[trigger] final(words)@[b],
            Err(_) => final(words)@.len() == 0,
        },
{
    s.filter_word_list(words);
    proof {
        lemma_filtered_empty(s@, old(words)@, words@);
    }
    let n = words.len();
    if n == 0 {
        return Err(NoCandidatesError);
    }
    let ghost k = s@;
    let ghost list = words@;
    if n == 1 {
        assert(is_first_best(k, list, 0));
        return Ok(words[0]);
    }
    proof {
        s.lemma_wf();
        list[0].lemma_len();
        lemma_total_score_bounds(k, list[0]@, list, 0, n as int);
    }
    let mut best: usize = 0;
    let mut best_total: u128 = match guess_quality_lower_bound(s, words[0], words.as_slice(), 0) {
        Some(q) => q.numerator,
        None => 0,
    };
    let mut i: usize = 1;
    while i < n
        invariant
            1 <= i <= n,
            n == words.len(),
            n > 1,
            k == s@,
            list == words@,
            all_possible(k, list),
            best < i,
            best_total == guess_score(k, list, best as int),
            forall|j: int| 0 <= j < i ==> guess_score(k, list, j) <= best_total,
            forall|j: int| 0 <= j < best ==> guess_score(k, list, j) < best_total,
        decreases n - i,
    {
        match guess_quality_lower_bound(s, words[i], words.as_slice(), best_total) {
            Some(q) => {
                if q.numerator > best_total {
                    best = i;
                    best_total = q.numerator;
                }
            },
            None => {},
        }
        i += 1;
    }
    assert(is_first_best(k, list, best as int));
    Ok(words[best])
}

} // verus!
