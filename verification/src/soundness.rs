//! The update never rules out the word that produced the feedback.

use crate::feedback::{
    confirmed, feedback_at, feedback_spec, lemma_black_fixes_occurrences,
    lemma_confirmed_is_least_occurrence, GuessLetterResult,
};
use crate::knowledge::{
    admit_count, appears, fixed_count, guess_letters, has_black, Knowledge,
};
use crate::word::occurrences;
use vstd::prelude::*;

verus! {

/// The word `w` agrees with `k`, said without the exemption for ranges that
/// hold no information: each letter of `w` is allowed at its position, and
/// each letter occurs in `w` a number of times within its range.
pub open spec fn agrees(k: Knowledge, w: Seq<u8>) -> bool {
    &&& forall|i: int| 0 <= i < 5 ==> k.positions[i].contains(#[trigger] w[i])
    &&& forall|c: u8|
        c < 26 ==> (#[trigger] k.counts[c as int]).0 <= occurrences(w, c, 5) < k.counts[c as int].1
}

/// A letter occurs below position `n` at most `n` times.
pub proof fn lemma_occurrences_bound(w: Seq<u8>, c: u8, n: int)
    requires
        0 <= n,
    ensures
        occurrences(w, c, n) <= n,
    decreases n,
{
    if n > 0 {
        lemma_occurrences_bound(w, c, n - 1);
    }
}

/// The exemption changes nothing: a range without information holds every
/// count that a word of five letters can have.
pub proof fn lemma_possible_is_agrees(k: Knowledge, w: Seq<u8>)
    ensures
        k.possible(w) == agrees(k, w),
{
    assert forall|c: u8| c < 26 implies occurrences(w, c, 5) <= 5 by {
        lemma_occurrences_bound(w, c, 5);
    }
    if k.possible(w) {
        assert forall|c: u8| c < 26 implies (#[trigger] k.counts[c as int]).0 <= occurrences(
            w,
            c,
            5,
        ) < k.counts[c as int].1 by {
            lemma_occurrences_bound(w, c, 5);
        }
    }
}

/// Between the positions that allow `c` alone and those that allow it at all
/// lies the number of times that an agreeing word holds `c`.
proof fn lemma_implied_range(positions: Seq<Set<u8>>, w: Seq<u8>, c: u8, n: int)
    requires
        0 <= n <= 5,
        forall|i: int| 0 <= i < 5 ==> positions[i].contains(#[trigger] w[i]),
    ensures
        fixed_count(positions, c, n) <= occurrences(w, c, n) <= admit_count(positions, c, n),
    decreases n,
{
    if n > 0 {
        lemma_implied_range(positions, w, c, n - 1);
        assert(positions[n - 1].contains(w[n - 1]));
    }
}

/// A word that holds `c` as often as positions allow it holds `c` at each of
/// those positions.
proof fn lemma_all_admitting_taken(positions: Seq<Set<u8>>, w: Seq<u8>, c: u8, n: int)
    requires
        0 <= n <= 5,
        forall|i: int| 0 <= i < 5 ==> positions[i].contains(#[trigger] w[i]),
        occurrences(w, c, n) == admit_count(positions, c, n),
    ensures
        forall|i: int| 0 <= i < n && positions[i].contains(c) ==> #[trigger] w[i] == c,
    decreases n,
{
    if n > 0 {
        lemma_implied_range(positions, w, c, n - 1);
        assert(positions[n - 1].contains(w[n - 1]));
        lemma_all_admitting_taken(positions, w, c, n - 1);
    }
}

/// A word that does not hold `c` holds another letter at every position.
proof fn lemma_no_occurrence(w: Seq<u8>, c: u8, n: int)
    requires
        0 <= n,
        occurrences(w, c, n) == 0,
    ensures
        forall|i: int| 0 <= i < n ==> #[trigger] w[i] != c,
    decreases n,
{
    if n > 0 {
        lemma_no_occurrence(w, c, n - 1);
    }
}

/// The first two steps keep the hidden word.
proof fn lemma_narrowed_agrees(k: Knowledge, g: Seq<u8>, w: Seq<u8>)
    requires
        k.wf(),
        g.len() == 5,
        w.len() == 5,
        agrees(k, w),
    ensures
        agrees(k.narrowed(g, feedback_spec(g, w)), w),
{
    let fb = feedback_spec(g, w);
    let next = k.narrowed(g, fb);
    assert forall|i: int| 0 <= i < 5 implies next.positions[i].contains(#[trigger] w[i]) by {
        assert(fb[i] == feedback_at(g, w, i));
        assert(k.positions[i].contains(w[i]));
    }
    assert forall|c: u8| c < 26 implies (#[trigger] next.counts[c as int]).0 <= occurrences(w, c, 5)
        < next.counts[c as int].1 by {
        assert(k.counts[c as int].0 <= occurrences(w, c, 5) < k.counts[c as int].1);
        lemma_confirmed_is_least_occurrence(g, w, c);
        if appears(g, c) && has_black(g, fb, c) {
            let j = choose|j: int| 0 <= j < 5 && g[j] == c && fb[j] == GuessLetterResult::Black;
            lemma_black_fixes_occurrences(g, w, j);
        }
    }
}

/// The third step for one letter finds no contradiction and keeps the hidden
/// word.
proof fn lemma_propagated_agrees(k: Knowledge, w: Seq<u8>, c: u8)
    requires
        k.wf(),
        w.len() == 5,
        c < 26,
        agrees(k, w),
    ensures
        k.propagated(c) is Some,
        k.propagated(c)->Some_0.wf(),
        agrees(k.propagated(c)->Some_0, w),
{
    lemma_implied_range(k.positions, w, c, 5);
    assert(k.counts[c as int].0 <= occurrences(w, c, 5) < k.counts[c as int].1);
    let admitting = admit_count(k.positions, c, 5) as int;
    let lo = vstd::math::max(k.counts[c as int].0, fixed_count(k.positions, c, 5) as int);
    let hi = vstd::math::min(k.counts[c as int].1, admitting + 1);
    let next = k.propagated(c)->Some_0;
    assert forall|d: u8| d < 26 implies (#[trigger] next.counts[d as int]).0 <= occurrences(w, d, 5)
        < next.counts[d as int].1 by {
        if d != c {
            assert(k.counts[d as int].0 <= occurrences(w, d, 5) < k.counts[d as int].1);
        }
    }
    assert forall|i: int| 0 <= i < 5 implies next.positions[i].contains(#[trigger] w[i]) by {
        assert(k.positions[i].contains(w[i]));
        if lo == 0 && hi == 1 {
            lemma_no_occurrence(w, c, 5);
        } else if hi - lo == 1 && admitting == lo {
            lemma_all_admitting_taken(k.positions, w, c, 5);
        }
    }
}

/// The third step for all letters from `c` on finds no contradiction and
/// keeps the hidden word.
proof fn lemma_propagated_from_agrees(k: Knowledge, letters: Set<u8>, w: Seq<u8>, c: int)
    requires
        k.wf(),
        w.len() == 5,
        0 <= c <= 26,
        agrees(k, w),
    ensures
        k.propagated_from(letters, c) is Some,
        k.propagated_from(letters, c)->Some_0.wf(),
        agrees(k.propagated_from(letters, c)->Some_0, w),
    decreases 26 - c,
{
    if c < 26 {
        if letters.contains(c as u8) {
            lemma_propagated_agrees(k, w, c as u8);
            lemma_propagated_from_agrees(k.propagated(c as u8)->Some_0, letters, w, c + 1);
        } else {
            lemma_propagated_from_agrees(k, letters, w, c + 1);
        }
    }
}

/// Soundness of the update: where the word `w` agrees with what is known, the
/// feedback that a guess `g` receives against `w` never contradicts it, and
/// `w` still agrees with what is known afterwards.
pub proof fn lemma_update_keeps_hidden_word(k: Knowledge, g: Seq<u8>, w: Seq<u8>)
    requires
        k.wf(),
        g.len() == 5,
        w.len() == 5,
        k.possible(w),
    ensures
        k.updated(g, feedback_spec(g, w)) is Some,
        k.updated(g, feedback_spec(g, w))->Some_0.wf(),
        k.updated(g, feedback_spec(g, w))->Some_0.possible(w),
{
    let fb = feedback_spec(g, w);
    lemma_possible_is_agrees(k, w);
    lemma_narrowed_agrees(k, g, w);
    let narrowed = k.narrowed(g, fb);
    lemma_propagated_from_agrees(narrowed, guess_letters(g), w, 0);
    let next = narrowed.propagated_from(guess_letters(g), 0)->Some_0;
    assert forall|i: int| 0 <= i < 5 implies next.positions[i] != Set::<u8>::empty() by {
        assert(next.positions[i].contains(w[i]));
    }
    lemma_possible_is_agrees(next, w);
}


/// The third step leaves a range that is not empty to each of the letters
/// it deals with, and leaves the ranges of all other letters alone.
proof fn lemma_propagated_from_ranges(k: Knowledge, letters: Set<u8>, c: int)
    requires
        k.wf(),
        0 <= c <= 26,
        k.propagated_from(letters, c) is Some,
    ensures
        k.propagated_from(letters, c)->Some_0.wf(),
        forall|d: u8|
            d < 26 ==> (if c <= d && letters.contains(d) {
                (#[trigger] k.propagated_from(letters, c)->Some_0.counts[d as int]).0
                    < k.propagated_from(letters, c)->Some_0.counts[d as int].1
            } else {
                k.propagated_from(letters, c)->Some_0.counts[d as int] == k.counts[d as int]
            }),
    decreases 26 - c,
{
    if c < 26 {
        if letters.contains(c as u8) {
            let next = k.propagated(c as u8)->Some_0;
            lemma_propagated_from_ranges(next, letters, c + 1);
            let last = next.propagated_from(letters, c + 1)->Some_0;
            assert forall|d: u8| d < 26 implies (if c <= d && letters.contains(d) {
                (#[trigger] last.counts[d as int]).0 < last.counts[d as int].1
            } else {
                last.counts[d as int] == k.counts[d as int]
            }) by {
                if d != c {
                    assert(next.counts[d as int] == k.counts[d as int]);
                }
            }
        } else {
            lemma_propagated_from_ranges(k, letters, c + 1);
        }
    }
}

/// The invariant of the knowledge: an update that finds no contradiction
/// leaves no position without a letter and no range empty, given that no
/// range was empty before.
pub proof fn lemma_update_keeps_consistent(k: Knowledge, g: Seq<u8>, fb: Seq<GuessLetterResult>)
    requires
        k.wf(),
        forall|c: int| 0 <= c < 26 ==> (#[trigger] k.counts[c]).0 < k.counts[c].1,
        k.updated(g, fb) is Some,
    ensures
        k.updated(g, fb)->Some_0.wf(),
        k.updated(g, fb)->Some_0.consistent(),
{
    let narrowed = k.narrowed(g, fb);
    lemma_propagated_from_ranges(narrowed, guess_letters(g), 0);
    let next = k.updated(g, fb)->Some_0;
    assert(narrowed.propagated_from(guess_letters(g), 0) == Some(next));
    assert forall|c: int| 0 <= c < 26 implies (#[trigger] next.counts[c]).0 < next.counts[c].1 by {
        let d = c as u8;
        assert(next.counts[d as int] == next.counts[c]);
        if !appears(g, d) {
            assert(narrowed.counts[c] == k.counts[c]);
        }
    }
}

/// Before any guess every word is possible.
pub proof fn lemma_initial_allows_every_word(w: Seq<u8>)
    requires
        w.len() == 5,
        forall|i: int| 0 <= i < 5 ==> w[i] < 26,
    ensures
        Knowledge::initial().possible(w),
{
}

/// Before any guess no position is without a letter and no range is empty.
pub proof fn lemma_initial_consistent()
    ensures
        Knowledge::initial().wf(),
        Knowledge::initial().consistent(),
{
    assert forall|i: int| 0 <= i < 5 implies #[trigger] Knowledge::initial().positions[i] != Set::<
        u8,
    >::empty() by {
        assert(Knowledge::initial().positions[i].contains(0u8));
    }
}

} // verus!
