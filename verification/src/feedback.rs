//! Feedback for a guess against a hidden word.
//!
//! A position where both words hold the same letter is green. The letters at
//! the other positions are matched one to one, each letter of the hidden word
//! serving the leftmost guessed occurrences first: a guessed letter that finds
//! a partner is yellow, one that finds none is black.

use crate::word::{occurrences, Word};
use crate::leftovers::{
    count_tagged, lemma_count_tagged_monotone, lemma_count_tagged_permutation,
    lemma_count_tagged_prefix, lemma_count_tagged_skip, lemma_rank_in_sorted, tagged_get,
    tagged_items, tagged_le, tagged_len, tagged_new, tagged_push, tagged_sort, tagged_sorted,
};
use vstd::prelude::*;

verus! {

/// What the puzzle says of one guessed letter.
#[derive(Debug, Clone, Copy, PartialEq, Eq, Structural)]
pub enum GuessLetterResult {
    /// The letter stands at this position of the hidden word.
    Green,
    /// The letter occurs in the hidden word, at another position.
    Yellow,
    /// The hidden word holds no occurrence of the letter beyond those that
    /// the green and yellow results of this guess account for.
    Black,
}

/// The results for the five letters of a guess, by position.
pub type GuessWordResult = [GuessLetterResult; 5];

/// Number of positions below `n` where `g` and `a` differ and `s` holds `c`.
///
/// With `s` the guess this counts guessed letters that are not green; with `s`
/// the hidden word, letters of the hidden word that no green accounts for.
pub open spec fn unmatched_count(s: Seq<u8>, g: Seq<u8>, a: Seq<u8>, c: u8, n: int) -> nat
    decreases n,
{
    if n <= 0 {
        0
    } else {
        unmatched_count(s, g, a, c, n - 1) + if g[n - 1] != a[n - 1] && s[n - 1] == c {
            1nat
        } else {
            0nat
        }
    }
}

/// The result for position `p` of the guess `g` against the hidden word `a`.
pub open spec fn feedback_at(g: Seq<u8>, a: Seq<u8>, p: int) -> GuessLetterResult {
    if g[p] == a[p] {
        GuessLetterResult::Green
    } else if unmatched_count(g, g, a, g[p], p) < unmatched_count(a, g, a, g[p], 5) {
        GuessLetterResult::Yellow
    } else {
        GuessLetterResult::Black
    }
}

/// The feedback for the guess `g` against the hidden word `a`.
pub open spec fn feedback_spec(g: Seq<u8>, a: Seq<u8>) -> Seq<GuessLetterResult> {
    Seq::new(5, |p: int| feedback_at(g, a, p))
}

/// Number of positions below `n` where the guess `g` holds `c` and the
/// feedback `fb` is green or yellow.
pub open spec fn confirmed(g: Seq<u8>, fb: Seq<GuessLetterResult>, c: u8, n: int) -> nat
    decreases n,
{
    if n <= 0 {
        0
    } else {
        confirmed(g, fb, c, n - 1) + if g[n - 1] == c && fb[n - 1] != GuessLetterResult::Black {
            1nat
        } else {
            0nat
        }
    }
}

/// The letters of `s` at the positions below `n` where `g` and `a` differ,
/// each tagged with its position, in order of position.
pub open spec fn unmatched_items(s: Seq<u8>, g: Seq<u8>, a: Seq<u8>, n: int) -> Seq<(u8, usize)>
    decreases n,
{
    if n <= 0 {
        Seq::empty()
    } else if g[n - 1] != a[n - 1] {
        unmatched_items(s, g, a, n - 1).push((s[n - 1], (n - 1) as usize))
    } else {
        unmatched_items(s, g, a, n - 1)
    }
}

/// What `unmatched_items` holds, and how its counts relate to
/// `unmatched_count`.
proof fn lemma_unmatched_items(s: Seq<u8>, g: Seq<u8>, a: Seq<u8>, n: int)
    requires
        0 <= n <= 5,
        g.len() == 5,
        a.len() == 5,
        s.len() == 5,
    ensures
        unmatched_items(s, g, a, n).len() <= n,
        forall|x: (u8, usize)| #[trigger]
            unmatched_items(s, g, a, n).contains(x) <==> (x.1 < n && g[x.1 as int] != a[x.1 as int]
                && x.0 == s[x.1 as int]),
        unmatched_items(s, g, a, n).no_duplicates(),
        forall|c: u8, limit: int|
            0 <= limit ==> #[trigger] count_tagged(
                unmatched_items(s, g, a, n),
                c,
                limit,
                unmatched_items(s, g, a, n).len() as int,
            ) == unmatched_count(s, g, a, c, if n < limit {
                n
            } else {
                limit
            }),
    decreases n,
{
    let items = unmatched_items(s, g, a, n);
    if n > 0 {
        lemma_unmatched_items(s, g, a, n - 1);
        let prev = unmatched_items(s, g, a, n - 1);
        let len = prev.len() as int;
        if g[n - 1] != a[n - 1] {
            let y = (s[n - 1], (n - 1) as usize);
            assert(items == prev.push(y));
            assert forall|x: (u8, usize)| #[trigger]
                items.contains(x) <==> (x.1 < n && g[x.1 as int] != a[x.1 as int] && x.0
                    == s[x.1 as int]) by {
                if items.contains(x) {
                    let k = choose|k: int| 0 <= k < items.len() && items[k] == x;
                    if k < len {
                        assert(prev[k] == x);
                        assert(prev.contains(x));
                    }
                }
                if x.1 < n && g[x.1 as int] != a[x.1 as int] && x.0 == s[x.1 as int] {
                    if x.1 < n - 1 {
                        assert(prev.contains(x));
                        let k = choose|k: int| 0 <= k < prev.len() && prev[k] == x;
                        assert(items[k] == x);
                    } else {
                        assert(items[len] == x);
                    }
                }
            }
            assert(!prev.contains(y));
            assert forall|i: int, j: int| 0 <= i < items.len() && 0 <= j < items.len() && i != j implies items[i] != items[j] by {
                if i < len && j < len {
                    assert(prev[i] != prev[j]);
                } else if i < len {
                    assert(prev.contains(prev[i]));
                } else {
                    assert(prev.contains(prev[j]));
                }
            }
            assert forall|c: u8, limit: int| 0 <= limit implies #[trigger] count_tagged(
                items,
                c,
                limit,
                items.len() as int,
            ) == unmatched_count(s, g, a, c, if n < limit {
                n
            } else {
                limit
            }) by {
                lemma_count_tagged_prefix(items, prev, c, limit, len);
                assert(count_tagged(prev, c, limit, len) == unmatched_count(
                    s,
                    g,
                    a,
                    c,
                    if n - 1 < limit {
                        n - 1
                    } else {
                        limit
                    },
                ));
            }
        } else {
            assert(items == prev);
            assert forall|c: u8, limit: int| 0 <= limit implies #[trigger] count_tagged(
                items,
                c,
                limit,
                items.len() as int,
            ) == unmatched_count(s, g, a, c, if n < limit {
                n
            } else {
                limit
            }) by {
                assert(count_tagged(prev, c, limit, len) == unmatched_count(
                    s,
                    g,
                    a,
                    c,
                    if n - 1 < limit {
                        n - 1
                    } else {
                        limit
                    },
                ));
            }
        }
    } else {
        assert(items =~= Seq::empty());
    }
}

// ---------------------------------------------------------------------------
// Computing the feedback.
// ---------------------------------------------------------------------------

/// Whether the sweep gives item `k` of the sorted guess letters `gs` a
/// partner among the sorted letters `hs` of the hidden word.
spec fn finds_partner(gs: Seq<(u8, usize)>, hs: Seq<(u8, usize)>, k: int) -> bool {
    count_tagged(gs, gs[k].0, 5, k) < count_tagged(hs, gs[k].0, 5, hs.len() as int)
}

/// The result that the sweep owes item `k` of the sorted guess letters.
spec fn swept_result(gs: Seq<(u8, usize)>, hs: Seq<(u8, usize)>, k: int) -> GuessLetterResult {
    if finds_partner(gs, hs, k) {
        GuessLetterResult::Yellow
    } else {
        GuessLetterResult::Black
    }
}

/// What the sorted leftovers have from the unsorted ones.
proof fn lemma_sorted_leftovers(
    g: Seq<u8>,
    a: Seq<u8>,
    word: Seq<u8>,
    sorted: Seq<(u8, usize)>,
)
    requires
        g.len() == 5,
        a.len() == 5,
        word.len() == 5,
        sorted.to_multiset() == unmatched_items(word, g, a, 5).to_multiset(),
    ensures
        sorted.len() <= 5,
        sorted.no_duplicates(),
        forall|x: (u8, usize)| #[trigger]
            sorted.contains(x) <==> (x.1 < 5 && g[x.1 as int] != a[x.1 as int] && x.0
                == word[x.1 as int]),
        forall|c: u8, limit: int|
            0 <= limit <= 5 ==> #[trigger] count_tagged(sorted, c, limit, sorted.len() as int)
                == unmatched_count(word, g, a, c, limit),
{
    let items = unmatched_items(word, g, a, 5);
    lemma_unmatched_items(word, g, a, 5);
    items.to_multiset_ensures();
    sorted.to_multiset_ensures();
    items.lemma_multiset_has_no_duplicates();
    sorted.lemma_multiset_has_no_duplicates_conv();
    assert forall|x: (u8, usize)| #[trigger]
        sorted.contains(x) <==> (x.1 < 5 && g[x.1 as int] != a[x.1 as int] && x.0
            == word[x.1 as int]) by {
        assert(sorted.contains(x) <==> sorted.to_multiset().count(x) > 0);
        assert(items.contains(x) <==> items.to_multiset().count(x) > 0);
    }
    assert forall|c: u8, limit: int| 0 <= limit <= 5 implies #[trigger] count_tagged(
        sorted,
        c,
        limit,
        sorted.len() as int,
    ) == unmatched_count(word, g, a, c, limit) by {
        lemma_count_tagged_permutation(sorted, items, c, limit);
        assert(count_tagged(items, c, limit, items.len() as int) == unmatched_count(
            word,
            g,
            a,
            c,
            if 5 < limit {
                5
            } else {
                limit
            },
        ));
    }
}

/// The sweep's verdict on item `k` is the one that the feedback defines for
/// the position of that item.
proof fn lemma_swept_is_feedback(
    g: Seq<u8>,
    a: Seq<u8>,
    gs: Seq<(u8, usize)>,
    hs: Seq<(u8, usize)>,
    k: int,
)
    requires
        g.len() == 5,
        a.len() == 5,
        gs.to_multiset() == unmatched_items(g, g, a, 5).to_multiset(),
        hs.to_multiset() == unmatched_items(a, g, a, 5).to_multiset(),
        tagged_sorted(gs),
        0 <= k < gs.len(),
    ensures
        gs[k].1 < 5,
        g[gs[k].1 as int] != a[gs[k].1 as int],
        swept_result(gs, hs, k) == feedback_at(g, a, gs[k].1 as int),
{
    lemma_sorted_leftovers(g, a, g, gs);
    lemma_sorted_leftovers(g, a, a, hs);
    let x = gs[k];
    assert(gs.contains(x));
    assert forall|i: int| 0 <= i < gs.len() implies (#[trigger] gs[i]).1 < 5 by {
        assert(gs.contains(gs[i]));
    }
    lemma_rank_in_sorted(gs, k, gs.len() as int);
    assert(count_tagged(gs, x.0, x.1 as int, gs.len() as int) == unmatched_count(
        g,
        g,
        a,
        x.0,
        x.1 as int,
    ));
    assert(count_tagged(hs, x.0, 5, hs.len() as int) == unmatched_count(a, g, a, x.0, 5));
}

/// The feedback for `guessed` when the hidden word is `actual`.
pub fn process_guess(guessed: Word, actual: Word) -> (rv: GuessWordResult)
    ensures
        rv@ == feedback_spec(guessed@, actual@),
{
    let ghost g = guessed@;
    let ghost a = actual@;
    let mut rv: GuessWordResult = [GuessLetterResult::Black;5];
    let mut remaining_guess = tagged_new();
    let mut remaining_actual = tagged_new();
    let mut p: usize = 0;
    proof {
        guessed.lemma_len();
        actual.lemma_len();
    }
    while p < 5
        invariant
            p <= 5,
            g == guessed@,
            a == actual@,
            g.len() == 5,
            a.len() == 5,
            tagged_items(remaining_guess) == unmatched_items(g, g, a, p as int),
            tagged_items(remaining_actual) == unmatched_items(a, g, a, p as int),
            tagged_items(remaining_guess).len() <= p,
            tagged_items(remaining_actual).len() <= p,
            forall|q: int|
                0 <= q < 5 ==> #[trigger] rv[q] == (if q < p && g[q] == a[q] {
                    GuessLetterResult::Green
                } else {
                    GuessLetterResult::Black
                }),
        decreases 5 - p,
    {
        let gl = guessed.letter(p);
        let al = actual.letter(p);
        proof {
            lemma_unmatched_items(g, g, a, p as int + 1);
            lemma_unmatched_items(a, g, a, p as int + 1);
        }
        if gl == al {
            rv[p] = GuessLetterResult::Green;
        } else {
            tagged_push(&mut remaining_guess, (gl, p));
            tagged_push(&mut remaining_actual, (al, p));
        }
        p += 1;
    }
    tagged_sort(&mut remaining_guess);
    tagged_sort(&mut remaining_actual);
    let ghost gs = tagged_items(remaining_guess);
    let ghost hs = tagged_items(remaining_actual);
    proof {
        lemma_sorted_leftovers(g, a, g, gs);
        lemma_sorted_leftovers(g, a, a, hs);
        assert forall|k: int| 0 <= k < gs.len() implies (#[trigger] gs[k]).1 < 5 && g[gs[k].1 as int]
            != a[gs[k].1 as int] by {
            assert(gs.contains(gs[k]));
        }
        assert forall|k: int, l: int| 0 <= k < gs.len() && 0 <= l < gs.len() && k != l implies (
        #[trigger] gs[k]).1 != (#[trigger] gs[l]).1 by {
            assert(gs.contains(gs[k]));
            assert(gs.contains(gs[l]));
        }
        assert forall|k: int| 0 <= k < hs.len() implies (#[trigger] hs[k]).1 < 5 by {
            assert(hs.contains(hs[k]));
        }
    }
    let n_guess = tagged_len(&remaining_guess);
    let n_actual = tagged_len(&remaining_actual);
    let mut i: usize = 0;
    let mut j: usize = 0;
    while i < n_guess && j < n_actual
        invariant
            i <= n_guess,
            j <= n_actual,
            n_guess == gs.len(),
            n_actual == hs.len(),
            gs == tagged_items(remaining_guess),
            hs == tagged_items(remaining_actual),
            g.len() == 5,
            a.len() == 5,
            tagged_sorted(gs),
            tagged_sorted(hs),
            forall|k: int|
                0 <= k < gs.len() ==> (#[trigger] gs[k]).1 < 5 && g[gs[k].1 as int] != a[gs[k].1 as int],
            forall|k: int, l: int|
                0 <= k < gs.len() && 0 <= l < gs.len() && k != l ==> (#[trigger] gs[k]).1 != (
                #[trigger] gs[l]).1,
            forall|k: int| 0 <= k < hs.len() ==> (#[trigger] hs[k]).1 < 5,
            forall|q: int| 0 <= q < 5 && g[q] == a[q] ==> rv[q] == GuessLetterResult::Green,
            forall|k: int| 0 <= k < i ==> rv[gs[k].1 as int] == #[trigger] swept_result(gs, hs, k),
            forall|k: int|
                i <= k < gs.len() ==> rv[(#[trigger] gs[k]).1 as int] == GuessLetterResult::Black,
            i < gs.len() ==> count_tagged(hs, gs[i as int].0, 5, j as int) == vstd::math::min(
                count_tagged(gs, gs[i as int].0, 5, i as int) as int,
                count_tagged(hs, gs[i as int].0, 5, hs.len() as int) as int,
            ),
            i < gs.len() ==> forall|l: int| 0 <= l < j ==> (#[trigger] hs[l]).0 <= gs[i as int].0,
        decreases (n_guess - i) + (n_actual - j),
    {
        let x = tagged_get(&remaining_guess, i);
        let y = tagged_get(&remaining_actual, j);
        let ghost c = x.0;
        if x.0 < y.0 {
            proof {
                // No later letter of the hidden word is `c`.
                assert forall|l: int| j <= l < hs.len() implies !((#[trigger] hs[l]).0 == c
                    && hs[l].1 < 5) by {
                    if l > j {
                        assert(tagged_le(hs[j as int], hs[l]));
                    }
                }
                lemma_count_tagged_skip(hs, c, 5, j as int, hs.len() as int);
                assert(!finds_partner(gs, hs, i as int));
                lemma_next_guess_letter(gs, hs, i as int, j as int);
            }
            i += 1;
        } else if x.0 > y.0 {
            j += 1;
        } else {
            proof {
                lemma_count_tagged_monotone(hs, c, 5, j as int + 1, hs.len() as int);
                assert(finds_partner(gs, hs, i as int));
                assert forall|l: int| 0 <= l < j + 1 implies (#[trigger] hs[l]).0 <= c by {}
                lemma_next_guess_letter(gs, hs, i as int, j as int + 1);
            }
            rv[x.1] = GuessLetterResult::Yellow;
            i += 1;
            j += 1;
        }
    }
    proof {
        assert forall|k: int| 0 <= k < gs.len() implies rv[gs[k].1 as int] == #[trigger] swept_result(
            gs,
            hs,
            k,
        ) by {
            if k >= i {
                // The sweep stopped because the hidden word ran out of letters.
                let c = gs[i as int].0;
                let ck = gs[k].0;
                if k > i {
                    assert(tagged_le(gs[i as int], gs[k]));
                }
                if ck == c {
                    lemma_count_tagged_monotone(gs, c, 5, i as int, k);
                } else {
                    assert forall|l: int| 0 <= l < hs.len() implies !((#[trigger] hs[l]).0 == ck
                        && hs[l].1 < 5) by {}
                    lemma_count_tagged_skip(hs, ck, 5, 0, hs.len() as int);
                }
                assert(!finds_partner(gs, hs, k));
            }
        }
        assert forall|q: int| 0 <= q < 5 implies rv[q] == feedback_at(g, a, q) by {
            if g[q] != a[q] {
                let x = (g[q], q as usize);
                assert(gs.contains(x));
                let k = choose|k: int| 0 <= k < gs.len() && gs[k] == x;
                lemma_swept_is_feedback(g, a, gs, hs, k);
                assert(rv[gs[k].1 as int] == swept_result(gs, hs, k));
            }
        }
        assert(rv@ =~= feedback_spec(g, a));
    }
    rv
}

/// After item `i` of the guess letters is dealt with and the letters of the
/// hidden word below `j` are used up or passed, the sweep's bookkeeping holds
/// for item `i + 1`.
proof fn lemma_next_guess_letter(gs: Seq<(u8, usize)>, hs: Seq<(u8, usize)>, i: int, j: int)
    requires
        tagged_sorted(gs),
        0 <= i < gs.len(),
        0 <= j <= hs.len(),
        forall|k: int| 0 <= k < gs.len() ==> (#[trigger] gs[k]).1 < 5,
        forall|l: int| 0 <= l < j ==> (#[trigger] hs[l]).0 <= gs[i].0,
        count_tagged(hs, gs[i].0, 5, j) == vstd::math::min(
            count_tagged(gs, gs[i].0, 5, i + 1) as int,
            count_tagged(hs, gs[i].0, 5, hs.len() as int) as int,
        ),
    ensures
        i + 1 < gs.len() ==> count_tagged(hs, gs[i + 1].0, 5, j) == vstd::math::min(
            count_tagged(gs, gs[i + 1].0, 5, i + 1) as int,
            count_tagged(hs, gs[i + 1].0, 5, hs.len() as int) as int,
        ),
        i + 1 < gs.len() ==> forall|l: int| 0 <= l < j ==> (#[trigger] hs[l]).0 <= gs[i + 1].0,
{
    if i + 1 < gs.len() {
        let c = gs[i].0;
        let d = gs[i + 1].0;
        assert(tagged_le(gs[i], gs[i + 1]));
        if d != c {
            assert forall|l: int| 0 <= l < j implies !((#[trigger] hs[l]).0 == d && hs[l].1 < 5) by {}
            lemma_count_tagged_skip(hs, d, 5, 0, j);
            assert forall|k: int| 0 <= k < i + 1 implies !((#[trigger] gs[k]).0 == d && gs[k].1
                < 5) by {
                if k < i {
                    assert(tagged_le(gs[k], gs[i]));
                }
            }
            lemma_count_tagged_skip(gs, d, 5, 0, i + 1);
        }
    }
}


// ---------------------------------------------------------------------------
// Laws of the feedback.
// ---------------------------------------------------------------------------

/// A word guessed against itself is green at every position.
pub proof fn lemma_feedback_of_itself(w: Seq<u8>)
    requires
        w.len() == 5,
    ensures
        feedback_spec(w, w) == Seq::new(5, |p: int| GuessLetterResult::Green),
{
    assert(feedback_spec(w, w) =~= Seq::new(5, |p: int| GuessLetterResult::Green));
}

/// Number of positions below `n` where `g` and `a` both hold `c`.
spec fn exact_count(g: Seq<u8>, a: Seq<u8>, c: u8, n: int) -> nat
    decreases n,
{
    if n <= 0 {
        0
    } else {
        exact_count(g, a, c, n - 1) + if g[n - 1] == c && a[n - 1] == c {
            1nat
        } else {
            0nat
        }
    }
}

proof fn lemma_unmatched_count_monotone(s: Seq<u8>, g: Seq<u8>, a: Seq<u8>, c: u8, m: int, n: int)
    requires
        m <= n,
    ensures
        unmatched_count(s, g, a, c, m) <= unmatched_count(s, g, a, c, n),
    decreases n - m,
{
    if m < n {
        lemma_unmatched_count_monotone(s, g, a, c, m, n - 1);
    }
}

/// The green and yellow results for a letter, counted up to position `n`.
proof fn lemma_confirmed_upto(g: Seq<u8>, a: Seq<u8>, c: u8, n: int)
    requires
        g.len() == 5,
        a.len() == 5,
        0 <= n <= 5,
    ensures
        confirmed(g, feedback_spec(g, a), c, n) == exact_count(g, a, c, n) + vstd::math::min(
            unmatched_count(g, g, a, c, n) as int,
            unmatched_count(a, g, a, c, 5) as int,
        ),
        occurrences(g, c, n) == exact_count(g, a, c, n) + unmatched_count(g, g, a, c, n),
        occurrences(a, c, n) == exact_count(g, a, c, n) + unmatched_count(a, g, a, c, n),
    decreases n,
{
    if n > 0 {
        lemma_confirmed_upto(g, a, c, n - 1);
        assert(feedback_spec(g, a)[n - 1] == feedback_at(g, a, n - 1));
    }
}

/// For every letter, the green and yellow results of a guess number as many
/// as the smaller of the letter's occurrences in the guess and in the hidden
/// word: never more than either.
pub proof fn lemma_confirmed_is_least_occurrence(g: Seq<u8>, a: Seq<u8>, c: u8)
    requires
        g.len() == 5,
        a.len() == 5,
    ensures
        confirmed(g, feedback_spec(g, a), c, 5) <= occurrences(g, c, 5),
        confirmed(g, feedback_spec(g, a), c, 5) <= occurrences(a, c, 5),
        confirmed(g, feedback_spec(g, a), c, 5) == vstd::math::min(
            occurrences(g, c, 5) as int,
            occurrences(a, c, 5) as int,
        ),
{
    lemma_confirmed_upto(g, a, c, 5);
}

/// Where a guessed letter is black, the green and yellow results for that
/// letter number exactly its occurrences in the hidden word.
pub proof fn lemma_black_fixes_occurrences(g: Seq<u8>, a: Seq<u8>, p: int)
    requires
        g.len() == 5,
        a.len() == 5,
        0 <= p < 5,
        feedback_spec(g, a)[p] == GuessLetterResult::Black,
    ensures
        confirmed(g, feedback_spec(g, a), g[p], 5) == occurrences(a, g[p], 5),
{
    let c = g[p];
    lemma_confirmed_upto(g, a, c, 5);
    assert(feedback_spec(g, a)[p] == feedback_at(g, a, p));
    lemma_unmatched_count_monotone(g, g, a, c, p + 1, 5);
    assert(unmatched_count(g, g, a, c, p + 1) == unmatched_count(g, g, a, c, p) + 1);
}

} // verus!
