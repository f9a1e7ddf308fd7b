//! Ordering a word list so that promising guesses come first: each word is
//! scored by how often its letters stand at their positions across the list,
//! and the list is sorted by descending score.

use crate::word::Word;
use vstd::prelude::*;

verus! {

/// Number of words among the first `n` of `words` that hold `letter` at
/// position `pos`.
pub open spec fn position_count(words: Seq<Word>, pos: int, letter: u8, n: int) -> nat
    decreases n,
{
    if n <= 0 {
        0
    } else {
        position_count(words, pos, letter, n - 1) + if words[n - 1]@[pos] == letter {
            1nat
        } else {
            0nat
        }
    }
}

/// The score of the word `w` against the list: for each of its letters, the
/// number of words of the list that hold that letter at the same position.
pub open spec fn heuristic_score(words: Seq<Word>, w: Seq<u8>) -> nat {
    let n = words.len() as int;
    position_count(words, 0, w[0], n) + position_count(words, 1, w[1], n) + position_count(
        words,
        2,
        w[2],
        n,
    ) + position_count(words, 3, w[3], n) + position_count(words, 4, w[4], n)
}

/// Where a table of counts holds the count for `letter` at position `pos`.
spec fn cell(pos: int, letter: int) -> int {
    pos * 26 + letter
}

/// The score of the word `w` read from a table of counts.
spec fn table_score(table: Seq<u64>, w: Seq<u8>) -> int {
    table[cell(0, w[0] as int)] + table[cell(1, w[1] as int)] + table[cell(2, w[2] as int)]
        + table[cell(3, w[3] as int)] + table[cell(4, w[4] as int)]
}

/// How many words are counted at position `pos` while word `k` is being
/// taken in, its positions below `p` done.
spec fn counted(pos: int, p: int, k: int) -> int {
    if pos < p {
        k + 1
    } else {
        k
    }
}

proof fn lemma_position_count_bound(words: Seq<Word>, pos: int, letter: u8, n: int)
    requires
        0 <= n,
    ensures
        position_count(words, pos, letter, n) <= n,
    decreases n,
{
    if n > 0 {
        lemma_position_count_bound(words, pos, letter, n - 1);
    }
}

/// The key by which the list is sorted in ascending order: the greater the
/// score, the smaller the key.
fn heuristic_key(table: &[u64; 130], w: &Word) -> (key: u128)
    ensures
        key == u128::MAX - table_score(table@, w@),
        Word::is_word(w@),
{
    proof {
        w.lemma_len();
    }
    let mut score: u128 = 0;
    let mut p: usize = 0;
    while p < 5
        invariant
            p <= 5,
            w@.len() == 5,
            score <= p * u64::MAX,
            forall|q: int| 0 <= q < p ==> (#[trigger] w@[q]) < 26,
            score == (if p > 0 {
                table@[cell(0, w@[0] as int)] as int
            } else {
                0
            }) + (if p > 1 {
                table@[cell(1, w@[1] as int)] as int
            } else {
                0
            }) + (if p > 2 {
                table@[cell(2, w@[2] as int)] as int
            } else {
                0
            }) + (if p > 3 {
                table@[cell(3, w@[3] as int)] as int
            } else {
                0
            }) + (if p > 4 {
                table@[cell(4, w@[4] as int)] as int
            } else {
                0
            }),
        decreases 5 - p,
    {
        let l = w.letter(p);
        score = score + table[p * 26 + l as usize] as u128;
        p += 1;
    }
    u128::MAX - score
}

/// The slice method `sort_unstable_by_key` of `std` on the words, with
/// `heuristic_key` as the key: the same words, in ascending order of their
/// keys, which is descending order of their scores. Words with equal scores
/// come in no fixed order.
#[verifier::external_body]
fn sort_by_heuristic_key(words: &mut Vec<Word>, table: &[u64; 130])
    ensures
        final(words)@.to_multiset() == old(words)@.to_multiset(),
        forall|i: int, j: int|
            0 <= i < j < final(words)@.len() ==> table_score(table@, #[trigger] final(words)@[i]@)
                >= table_score(table@, #[trigger] final(words)@[j]@),
{
    words.sort_unstable_by_key(|w| heuristic_key(table, w))
}

/// The table of counts for a list: for each position and letter, the number
/// of words that hold the letter there.
fn letter_histogram(words: &Vec<Word>) -> (table: [u64; 130])
    ensures
        forall|pos: int, letter: u8|
            0 <= pos < 5 && letter < 26 ==> #[trigger] table@[cell(pos, letter as int)] == position_count(
                words@,
                pos,
                letter,
                words.len() as int,
            ),
        forall|k: int| 0 <= k < words.len() ==> Word::is_word(#[trigger] words@[k]@),
{
    let mut table: [u64; 130] = [0u64;130];
    let n = words.len();
    let mut k: usize = 0;
    while k < n
        invariant
            k <= n,
            n == words.len(),
            forall|pos: int, letter: u8|
                0 <= pos < 5 && letter < 26 ==> #[trigger] table@[cell(pos, letter as int)] == position_count(
                    words@,
                    pos,
                    letter,
                    k as int,
                ),
            forall|j: int| 0 <= j < k ==> Word::is_word(#[trigger] words@[j]@),
        decreases n - k,
    {
        let w = words[k];
        proof {
            w.lemma_len();
        }
        let mut p: usize = 0;
        while p < 5
            invariant
                p <= 5,
                k < n,
                n == words.len(),
                w == words@[k as int],
                w@.len() == 5,
                forall|q: int| 0 <= q < p ==> (#[trigger] w@[q]) < 26,
                forall|pos: int, letter: u8|
                    0 <= pos < 5 && letter < 26 ==> #[trigger] table@[cell(pos, letter as int)] == position_count(
                        words@,
                        pos,
                        letter,
                        counted(pos, p as int, k as int),
                    ),
            decreases 5 - p,
        {
            let l = w.letter(p);
            let at = p * 26 + l as usize;
            proof {
                assert(at == cell(p as int, l as int));
                assert(table@[cell(p as int, l as int)] == position_count(words@, p as int, l, k as int));
                lemma_position_count_bound(words@, p as int, l, k as int);
            }
            let ghost before = table@;
            table[at] = table[at] + 1;
            proof {
                assert forall|pos: int, letter: u8| 0 <= pos < 5 && letter < 26 implies #[trigger] table@[cell(
                    pos,
                    letter as int,
                )] == position_count(
                    words@,
                    pos,
                    letter,
                    counted(pos, p as int + 1, k as int),
                ) by {
                    assert(before[cell(pos, letter as int)] == position_count(
                        words@,
                        pos,
                        letter,
                        counted(pos, p as int, k as int),
                    ));
                    if cell(pos, letter as int) != at {
                        assert(table@[cell(pos, letter as int)] == before[cell(pos, letter as int)]);
                    }
                }
            }
            p += 1;
        }
        k += 1;
    }
    table
}

/// Sorts the words by descending score, the score of a word being the number
/// of times its letters stand at their positions across the whole list.
pub fn presort_words_by_heuristic(words: &mut Vec<Word>)
    ensures
        final(words)@.to_multiset() == old(words)@.to_multiset(),
        forall|i: int, j: int|
            0 <= i < j < final(words)@.len() ==> heuristic_score(
                old(words)@,
                #[trigger] final(words)@[i]@,
            ) >= heuristic_score(old(words)@, #[trigger] final(words)@[j]@),
{
    let table = letter_histogram(words);
    let ghost before = words@;
    sort_by_heuristic_key(words, &table);
    proof {
        before.to_multiset_ensures();
        words@.to_multiset_ensures();
        assert forall|i: int| 0 <= i < words@.len() implies table_score(table@, #[trigger] words@[i]@)
            == heuristic_score(before, words@[i]@) by {
            let w = words@[i];
            assert(words@.contains(w));
            assert(before.to_multiset().count(w) > 0);
            assert(before.contains(w));
            let k = choose|k: int| 0 <= k < before.len() && before[k] == w;
            assert(Word::is_word(before[k]@));
            let n = before.len() as int;
            assert(table@[cell(0, w@[0] as int)] == position_count(before, 0, w@[0], n));
            assert(table@[cell(1, w@[1] as int)] == position_count(before, 1, w@[1], n));
            assert(table@[cell(2, w@[2] as int)] == position_count(before, 2, w@[2], n));
            assert(table@[cell(3, w@[3] as int)] == position_count(before, 3, w@[3], n));
            assert(table@[cell(4, w@[4] as int)] == position_count(before, 4, w@[4], n));
        }
    }
}

} // verus!
