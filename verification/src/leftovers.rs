//! The letters that the greens of a guess leave over, each tagged with its
//! position and held in a vector of bounded length, and how to count them.

use arrayvec::ArrayVec;
use vstd::prelude::*;

verus! {

/// `arrayvec::ArrayVec`: a vector of bounded length that holds its items
/// inline. Nothing inside it is visible here; what it holds is spoken of
/// through `tagged_items`.
#[verifier::external_type_specification]
#[verifier::external_body]
#[verifier::reject_recursive_types(T)]
pub struct ExArrayVec<T, const CAP: usize>(ArrayVec<T, CAP>);

/// The items that a vector of letters tagged with their positions holds, in
/// order.
pub uninterp spec fn tagged_items(v: ArrayVec<(u8, usize), 5>) -> Seq<(u8, usize)>;

/// `ArrayVec::new`: the new vector is empty.
#[verifier::external_body]
pub(crate) fn tagged_new() -> (v: ArrayVec<(u8, usize), 5>)
    ensures
        tagged_items(v) == Seq::<(u8, usize)>::empty(),
{
    ArrayVec::new()
}

/// `ArrayVec::push`: below capacity the item is appended and the others stay.
/// At capacity the call panics, which `requires` rules out.
#[verifier::external_body]
pub(crate) fn tagged_push(v: &mut ArrayVec<(u8, usize), 5>, item: (u8, usize))
    requires
        tagged_items(*old(v)).len() < 5,
    ensures
        tagged_items(*final(v)) == tagged_items(*old(v)).push(item),
{
    v.push(item)
}

/// `ArrayVec::len`: the number of items held.
#[verifier::external_body]
pub(crate) fn tagged_len(v: &ArrayVec<(u8, usize), 5>) -> (n: usize)
    ensures
        n == tagged_items(*v).len(),
{
    v.len()
}

/// Indexing through `ArrayVec`'s `Deref` to a slice: the item at `i`. Out of
/// range it panics, which `requires` rules out.
#[verifier::external_body]
pub(crate) fn tagged_get(v: &ArrayVec<(u8, usize), 5>, i: usize) -> (item: (u8, usize))
    requires
        i < tagged_items(*v).len(),
    ensures
        item == tagged_items(*v)[i as int],
{
    v[i]
}

/// `sort_unstable` on the slice that `ArrayVec` derefs to: the same items,
/// in ascending order. Tuples are ordered by their first component, then by
/// their second.
#[verifier::external_body]
pub(crate) fn tagged_sort(v: &mut ArrayVec<(u8, usize), 5>)
    ensures
        tagged_items(*final(v)).to_multiset() == tagged_items(*old(v)).to_multiset(),
        tagged_sorted(tagged_items(*final(v))),
{
    v.sort_unstable()
}

/// The order of tagged letters: by letter, then by position.
pub open spec fn tagged_le(x: (u8, usize), y: (u8, usize)) -> bool {
    x.0 < y.0 || (x.0 == y.0 && x.1 <= y.1)
}

/// `s` is in ascending order.
pub open spec fn tagged_sorted(s: Seq<(u8, usize)>) -> bool {
    forall|i: int, j: int| 0 <= i < j < s.len() ==> tagged_le(#[trigger] s[i], #[trigger] s[j])
}


/// Number of items among the first `n` of `s` that hold the letter `c` at a
/// position below `limit`.
pub open spec fn count_tagged(s: Seq<(u8, usize)>, c: u8, limit: int, n: int) -> nat
    decreases n,
{
    if n <= 0 {
        0
    } else {
        count_tagged(s, c, limit, n - 1) + if s[n - 1].0 == c && s[n - 1].1 < limit {
            1nat
        } else {
            0nat
        }
    }
}

pub(crate) proof fn lemma_count_tagged_monotone(s: Seq<(u8, usize)>, c: u8, limit: int, m: int, n: int)
    requires
        m <= n,
    ensures
        count_tagged(s, c, limit, m) <= count_tagged(s, c, limit, n),
    decreases n - m,
{
    if m < n {
        lemma_count_tagged_monotone(s, c, limit, m, n - 1);
    }
}

/// Items that do not hold `c` below `limit` add nothing to the count.
pub(crate) proof fn lemma_count_tagged_skip(s: Seq<(u8, usize)>, c: u8, limit: int, m: int, n: int)
    requires
        0 <= m <= n,
        forall|k: int| m <= k < n ==> !(#[trigger] s[k].0 == c && s[k].1 < limit),
    ensures
        count_tagged(s, c, limit, n) == count_tagged(s, c, limit, m),
    decreases n - m,
{
    if m < n {
        lemma_count_tagged_skip(s, c, limit, m, n - 1);
    }
}

/// The count looks at the first `n` items only.
pub(crate) proof fn lemma_count_tagged_prefix(
    s: Seq<(u8, usize)>,
    t: Seq<(u8, usize)>,
    c: u8,
    limit: int,
    n: int,
)
    requires
        n <= s.len(),
        n <= t.len(),
        forall|k: int| 0 <= k < n ==> s[k] == t[k],
    ensures
        count_tagged(s, c, limit, n) == count_tagged(t, c, limit, n),
    decreases n,
{
    if n > 0 {
        lemma_count_tagged_prefix(s, t, c, limit, n - 1);
    }
}

/// Taking one item out lowers the count by what that item contributes.
pub(crate) proof fn lemma_count_tagged_remove(s: Seq<(u8, usize)>, i: int, c: u8, limit: int, n: int)
    requires
        0 <= i < s.len(),
        i < n <= s.len(),
    ensures
        count_tagged(s, c, limit, n) == count_tagged(s.remove(i), c, limit, n - 1) + if s[i].0 == c
            && s[i].1 < limit {
            1nat
        } else {
            0nat
        },
    decreases n,
{
    let r = s.remove(i);
    if n == i + 1 {
        lemma_count_tagged_prefix(s, r, c, limit, i);
    } else {
        lemma_count_tagged_remove(s, i, c, limit, n - 1);
        assert(r[n - 2] == s[n - 1]);
    }
}

/// Two sequences with the same items, in whatever order, have the same count.
pub(crate) proof fn lemma_count_tagged_permutation(
    s: Seq<(u8, usize)>,
    t: Seq<(u8, usize)>,
    c: u8,
    limit: int,
)
    requires
        s.to_multiset() == t.to_multiset(),
    ensures
        s.len() == t.len(),
        count_tagged(s, c, limit, s.len() as int) == count_tagged(t, c, limit, t.len() as int),
    decreases s.len(),
{
    s.to_multiset_ensures();
    t.to_multiset_ensures();
    if s.len() > 0 {
        let x = s.last();
        let s1 = s.drop_last();
        assert(s1.push(x) =~= s);
        s1.to_multiset_ensures();
        assert(s.contains(x));
        assert(t.to_multiset().count(x) > 0);
        assert(t.contains(x));
        let i = choose|i: int| 0 <= i < t.len() && t[i] == x;
        let t1 = t.remove(i);
        assert(s1.to_multiset() =~= s.to_multiset().remove(x));
        assert(t1.to_multiset() =~= t.to_multiset().remove(x));
        lemma_count_tagged_permutation(s1, t1, c, limit);
        lemma_count_tagged_remove(t, i, c, limit, t.len() as int);
        lemma_count_tagged_prefix(s, s1, c, limit, s.len() - 1);
    }
}

/// In a sorted sequence without duplicates, the items before index `k` that
/// share the letter of item `k` are the items with that letter at an earlier
/// position.
pub(crate) proof fn lemma_rank_in_sorted(s: Seq<(u8, usize)>, k: int, n: int)
    requires
        tagged_sorted(s),
        s.no_duplicates(),
        0 <= k < s.len(),
        0 <= n <= s.len(),
        forall|i: int| 0 <= i < s.len() ==> (#[trigger] s[i]).1 < 5,
    ensures
        count_tagged(s, s[k].0, s[k].1 as int, n) == count_tagged(s, s[k].0, 5, if n < k {
            n
        } else {
            k
        }),
    decreases n,
{
    if n > 0 {
        lemma_rank_in_sorted(s, k, n - 1);
        let x = s[n - 1];
        if n - 1 < k {
            assert(tagged_le(s[n - 1], s[k]));
            assert(s[n - 1] != s[k]);
        } else if n - 1 > k {
            assert(tagged_le(s[k], s[n - 1]));
            assert(s[n - 1] != s[k]);
        }
    }
}

} // verus!
