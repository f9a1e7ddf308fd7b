//! Sets of letters held as bit masks: bit `l` of a mask is set when the
//! letter `l` is in the set.

use bit_iter::BitIter;
use vstd::prelude::*;

verus! {

/// The mask of the whole alphabet.
pub const ALL_LETTERS: u32 = 0x3ff_ffff;

/// Whether bit `b` of `m` is set.
pub open spec fn bit_is_set(m: u32, b: u32) -> bool {
    (m >> b) & 1 == 1
}

/// Whether the mask `m` holds the letter `l`.
pub open spec fn mask_has(m: u32, l: u8) -> bool {
    l < 26 && bit_is_set(m, l as u32)
}

/// The set of letters that the mask `m` stands for.
pub open spec fn mask_set(m: u32) -> Set<u8> {
    Set::new(|l: u8| mask_has(m, l))
}

/// The set of all letters.
pub open spec fn alphabet() -> Set<u8> {
    Set::new(|l: u8| l < 26)
}

proof fn lemma_bit_of_single(l: u32, b: u32)
    by (bit_vector)
    requires
        l < 32,
        b < 32,
    ensures
        bit_is_set(1u32 << l, b) == (b == l),
        l < 26 ==> (1u32 << l) <= 0x3ff_ffffu32,
{
}

proof fn lemma_bit_of_all(b: u32)
    by (bit_vector)
    requires
        b < 32,
    ensures
        bit_is_set(0x3ff_ffffu32, b) == (b < 26),
{
}

proof fn lemma_bit_of_without(m: u32, l: u32, b: u32)
    by (bit_vector)
    requires
        l < 32,
        b < 32,
    ensures
        bit_is_set(m & !(1u32 << l), b) == (bit_is_set(m, b) && b != l),
        m <= 0x3ff_ffffu32 ==> (m & !(1u32 << l)) <= 0x3ff_ffffu32,
{
}

proof fn lemma_bit_of_with(m: u32, l: u32, b: u32)
    by (bit_vector)
    requires
        l < 32,
        b < 32,
    ensures
        bit_is_set(m | (1u32 << l), b) == (bit_is_set(m, b) || b == l),
        m <= 0x3ff_ffffu32 && l < 26 ==> (m | (1u32 << l)) <= 0x3ff_ffffu32,
{
}

proof fn lemma_bit_test(m: u32, l: u32)
    by (bit_vector)
    requires
        l < 32,
    ensures
        (m & (1u32 << l) != 0) == bit_is_set(m, l),
{
}

proof fn lemma_bit_of_zero(b: u32)
    by (bit_vector)
    requires
        b < 32,
    ensures
        !bit_is_set(0u32, b),
{
}

/// A mask within the alphabet that is not zero has one of its 26 bits set.
proof fn lemma_some_bit(m: u32)
    by (bit_vector)
    requires
        m <= 0x3ff_ffffu32,
        m != 0,
    ensures
        bit_is_set(m, 0) || bit_is_set(m, 1) || bit_is_set(m, 2) || bit_is_set(m, 3) || bit_is_set(
            m,
            4,
        ) || bit_is_set(m, 5) || bit_is_set(m, 6) || bit_is_set(m, 7) || bit_is_set(m, 8)
            || bit_is_set(m, 9) || bit_is_set(m, 10) || bit_is_set(m, 11) || bit_is_set(m, 12)
            || bit_is_set(m, 13) || bit_is_set(m, 14) || bit_is_set(m, 15) || bit_is_set(m, 16)
            || bit_is_set(m, 17) || bit_is_set(m, 18) || bit_is_set(m, 19) || bit_is_set(m, 20)
            || bit_is_set(m, 21) || bit_is_set(m, 22) || bit_is_set(m, 23) || bit_is_set(m, 24)
            || bit_is_set(m, 25),
{
}

/// A mask that holds `l` and nothing else is the single bit of `l`.
proof fn lemma_only_bit(m: u32, l: u32)
    by (bit_vector)
    requires
        l < 26,
        bit_is_set(m, l),
        (m & !(1u32 << l)) == 0,
    ensures
        m == 1u32 << l,
{
}

/// A mask within the alphabet has no bit set beyond the letters.
pub proof fn lemma_high_bits_clear(m: u32, b: u32)
    by (bit_vector)
    requires
        m <= 0x3ff_ffffu32,
        b < 32,
        bit_is_set(m, b),
    ensures
        b < 26,
{
}

/// The mask of the whole alphabet stands for the alphabet.
pub proof fn lemma_all_letters()
    ensures
        mask_set(ALL_LETTERS) == alphabet(),
{
    assert forall|l: u8| mask_has(ALL_LETTERS, l) == (l < 26) by {
        if l < 32 {
            lemma_bit_of_all(l as u32);
        }
    }
    assert(mask_set(ALL_LETTERS) =~= alphabet());
}

/// The empty mask stands for the empty set, and within the alphabet no other
/// mask does.
pub proof fn lemma_empty_mask(m: u32)
    requires
        m <= ALL_LETTERS,
    ensures
        (m == 0) == (mask_set(m) == Set::<u8>::empty()),
{
    if m == 0 {
        assert forall|l: u8| !mask_has(m, l) by {
            if l < 32 {
                lemma_bit_of_zero(l as u32);
            }
        }
        assert(mask_set(m) =~= Set::<u8>::empty());
    } else {
        lemma_some_bit(m);
        assert(mask_has(m, 0) || mask_has(m, 1) || mask_has(m, 2) || mask_has(m, 3) || mask_has(
            m,
            4,
        ) || mask_has(m, 5) || mask_has(m, 6) || mask_has(m, 7) || mask_has(m, 8) || mask_has(
            m,
            9,
        ) || mask_has(m, 10) || mask_has(m, 11) || mask_has(m, 12) || mask_has(m, 13)
            || mask_has(m, 14) || mask_has(m, 15) || mask_has(m, 16) || mask_has(m, 17)
            || mask_has(m, 18) || mask_has(m, 19) || mask_has(m, 20) || mask_has(m, 21)
            || mask_has(m, 22) || mask_has(m, 23) || mask_has(m, 24) || mask_has(m, 25));
        let l = choose|l: u8| mask_has(m, l);
        assert(mask_set(m).contains(l));
    }
}

/// The mask that holds the letter `l` alone.
pub fn letter_bit(l: u8) -> (b: u32)
    requires
        l < 26,
    ensures
        b == 1u32 << (l as u32),
        b <= ALL_LETTERS,
        mask_set(b) == set![l],
{
    let b = 1u32 << (l as u32);
    proof {
        lemma_bit_of_single(l as u32, l as u32);
        assert forall|x: u8| mask_has(b, x) == (x == l) by {
            if x < 32 {
                lemma_bit_of_single(l as u32, x as u32);
            }
        }
        assert(mask_set(b) =~= set![l]);
    }
    b
}

/// Whether the set `m` holds the letter `l`.
pub fn mask_contains(m: u32, l: u8) -> (r: bool)
    requires
        l < 26,
    ensures
        r == mask_set(m).contains(l),
{
    proof {
        lemma_bit_test(m, l as u32);
    }
    m & (1u32 << (l as u32)) != 0
}

/// The set `m` without the letter `l`.
pub fn mask_without(m: u32, l: u8) -> (r: u32)
    requires
        l < 26,
    ensures
        mask_set(r) == mask_set(m).remove(l),
        m <= ALL_LETTERS ==> r <= ALL_LETTERS,
{
    let r = m & !(1u32 << (l as u32));
    proof {
        lemma_bit_of_without(m, l as u32, l as u32);
        assert forall|x: u8| mask_has(r, x) == (mask_has(m, x) && x != l) by {
            if x < 32 {
                lemma_bit_of_without(m, l as u32, x as u32);
            }
        }
        assert(mask_set(r) =~= mask_set(m).remove(l));
    }
    r
}

/// The set `m` with the letter `l` added.
pub fn mask_with(m: u32, l: u8) -> (r: u32)
    requires
        l < 26,
    ensures
        mask_set(r) == mask_set(m).insert(l),
        m <= ALL_LETTERS ==> r <= ALL_LETTERS,
{
    let r = m | (1u32 << (l as u32));
    proof {
        lemma_bit_of_with(m, l as u32, l as u32);
        assert forall|x: u8| mask_has(r, x) == (mask_has(m, x) || x == l) by {
            if x < 32 {
                lemma_bit_of_with(m, l as u32, x as u32);
            }
        }
        assert(mask_set(r) =~= mask_set(m).insert(l));
    }
    r
}

/// Whether the set `m` holds the letter `l` and no other.
pub fn mask_is_only(m: u32, l: u8) -> (r: bool)
    requires
        l < 26,
        m <= ALL_LETTERS,
    ensures
        r == (mask_set(m) == set![l]),
{
    let b = letter_bit(l);
    proof {
        if m != b {
            if mask_set(m) == set![l] {
                // Then `m` holds `l`, and what is left without `l` is empty.
                assert(mask_set(m).contains(l));
                let rest = m & !(1u32 << (l as u32));
                lemma_bit_of_without(m, l as u32, l as u32);
                assert forall|x: u8| mask_has(rest, x) == (mask_has(m, x) && x != l) by {
                    if x < 32 {
                        lemma_bit_of_without(m, l as u32, x as u32);
                    }
                }
                assert forall|x: u8| !mask_has(rest, x) by {
                    if mask_has(m, x) {
                        assert(mask_set(m).contains(x));
                    }
                }
                assert(mask_set(rest) =~= Set::<u8>::empty());
                lemma_empty_mask(rest);
                lemma_only_bit(m, l as u32);
            }
        }
    }
    m == b
}

/// `BitIter::from(mask)`, collected: the positions of the one bits of
/// `mask`, each once, in ascending order.
#[verifier::external_body]
pub(crate) fn set_bits(mask: u32) -> (r: Vec<usize>)
    ensures
        forall|i: int, j: int| 0 <= i < j < r.len() ==> r[i] < r[j],
        forall|b: usize| r@.contains(b) <==> (b < 32 && bit_is_set(mask, b as u32)),
{
    BitIter::from(mask).collect()
}

/// The letters of the set `m`, in ascending order.
pub fn mask_letters(m: u32) -> (r: Vec<u8>)
    ensures
        forall|i: int, j: int| 0 <= i < j < r.len() ==> r[i] < r[j],
        forall|l: u8| r@.contains(l) <==> mask_set(m).contains(l),
{
    let bits = set_bits(m);
    let mut r: Vec<u8> = Vec::new();
    let mut t: usize = 0;
    while t < bits.len()
        invariant
            t <= bits.len(),
            forall|i: int, j: int| 0 <= i < j < bits.len() ==> bits[i] < bits[j],
            forall|b: usize| bits@.contains(b) <==> (b < 32 && bit_is_set(m, b as u32)),
            forall|i: int, j: int| 0 <= i < j < r.len() ==> r[i] < r[j],
            forall|i: int| 0 <= i < r.len() ==> exists|k: int| 0 <= k < t && bits[k] == #[trigger] r[i],
            forall|k: int| 0 <= k < t && bits[k] < 26 ==> r@.contains(#[trigger] bits[k] as u8),
            forall|i: int| 0 <= i < r.len() ==> #[trigger] r[i] < 26,
        decreases bits.len() - t,
    {
        let b = bits[t];
        if b < 26 {
            proof {
                assert forall|i: int| 0 <= i < r.len() implies #[trigger] r[i] < b by {
                    let k = choose|k: int| 0 <= k < t && bits[k] == r[i];
                    assert(bits[k] < bits[t as int]);
                }
            }
            let ghost before = r@;
            r.push(b as u8);
            proof {
                assert forall|k: int| 0 <= k < t + 1 && bits[k] < 26 implies r@.contains(
                    #[trigger] bits[k] as u8,
                ) by {
                    if k < t {
                        assert(before.contains(bits[k] as u8));
                        let i = choose|i: int| 0 <= i < before.len() && before[i] == bits[k] as u8;
                        assert(r@[i] == bits[k] as u8);
                    } else {
                        assert(r@[r.len() - 1] == b as u8);
                    }
                }
                assert forall|i: int| 0 <= i < r.len() implies exists|k: int|
                    0 <= k < t + 1 && bits[k] == #[trigger] r[i] by {
                    if i < before.len() {
                        let k = choose|k: int| 0 <= k < t && bits[k] == before[i];
                        assert(bits[k] == r[i]);
                    } else {
                        assert(bits[t as int] == r[i]);
                    }
                }
            }
        }
        t += 1;
    }
    proof {
        assert forall|l: u8| r@.contains(l) <==> mask_set(m).contains(l) by {
            if r@.contains(l) {
                let i = choose|i: int| 0 <= i < r.len() && r[i] == l;
                let k = choose|k: int| 0 <= k < t && bits[k] == r[i];
                assert(bits@.contains(bits[k]));
            }
            if mask_set(m).contains(l) {
                assert(bits@.contains(l as usize));
                let k = choose|k: int| 0 <= k < bits.len() && bits[k] == l as usize;
                assert(r@.contains(bits[k] as u8));
            }
        }
    }
    r
}

} // verus!
