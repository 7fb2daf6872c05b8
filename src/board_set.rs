//! The set of position hashes, kept in tokyodoves' `BoardSet`.
//!
//! What a set holds is named by `contents`; every operation the library uses
//! is a small wrapper whose contract speaks of that name.

use vstd::prelude::*;
use tokyodoves::collections::{BoardSet, Capacity};

verus! {

#[verifier::external_type_specification]
#[verifier::external_body]
pub struct ExBoardSet(BoardSet);

#[verifier::external_type_specification]
#[verifier::external_body]
pub struct ExCapacity(Capacity);

/// The hashes held by a `BoardSet`.
pub uninterp spec fn contents(s: BoardSet) -> Set<u64>;

/// Relies on `BoardSet::new`: an empty set.
#[verifier::external_body]
pub(crate) fn new_set() -> (r: BoardSet)
    ensures
        contents(r) == Set::<u64>::empty(),
{
    BoardSet::new()
}

/// Relies on `BoardSet::len`: the number of hashes held (the sum of the
/// sizes of its shards, each a `HashSet`).
#[verifier::external_body]
pub(crate) fn len(s: &BoardSet) -> (r: usize)
    ensures
        r == contents(*s).len(),
{
    s.len()
}

/// Relies on `RawBoardSet::contains`: membership of a hash.
#[verifier::external_body]
pub(crate) fn contains(s: &BoardSet, hash: u64) -> (r: bool)
    ensures
        r == contents(*s).contains(hash),
{
    s.raw().contains(&hash)
}

/// Relies on `RawBoardSet::insert`: adds one hash.
#[verifier::external_body]
pub(crate) fn insert(s: &mut BoardSet, hash: u64)
    ensures
        contents(*final(s)) == contents(*old(s)).insert(hash),
        contents(*final(s)).finite() == contents(*old(s)).finite(),
{
    s.raw_mut().insert(hash);
}

/// Relies on `RawBoardSet::remove`: takes one hash out.
#[verifier::external_body]
pub(crate) fn remove(s: &mut BoardSet, hash: u64)
    ensures
        contents(*final(s)) == contents(*old(s)).remove(hash),
        contents(*final(s)).finite() == contents(*old(s)).finite(),
{
    s.raw_mut().remove(&hash);
}

/// Relies on `BoardSet::absorb`: every hash of `other` is added; `other`
/// is consumed.
#[verifier::external_body]
pub(crate) fn absorb(s: &mut BoardSet, other: BoardSet)
    ensures
        contents(*final(s)) == contents(*old(s)).union(contents(other)),
        contents(*old(s)).finite() && contents(other).finite() ==> contents(*final(s)).finite(),
{
    s.absorb(other);
}

/// Relies on `BoardSet::capacity`: the per-shard sizes, a hint for
/// `reserve`.
#[verifier::external_body]
pub(crate) fn capacity(s: &BoardSet) -> (r: Capacity)
{
    s.capacity()
}

/// Relies on `BoardSet::reserve`: allocates room; the hashes held stay.
#[verifier::external_body]
pub(crate) fn reserve(s: &mut BoardSet, additional: Capacity)
    ensures
        contents(*final(s)) == contents(*old(s)),
{
    s.reserve(additional);
}

/// Relies on `BoardSet::split`: each hash goes to exactly one side; shards
/// go left whole while they fit, and the first that does not fit sends
/// exactly what is still missing, so the left side holds at least
/// `min(left_len, len)` hashes (it may hold more).
#[verifier::external_body]
pub(crate) fn split_raw(s: BoardSet, left_len: usize) -> (r: (BoardSet, BoardSet))
    ensures
        contents(r.0).union(contents(r.1)) == contents(s),
        contents(r.0).disjoint(contents(r.1)),
        contents(s).finite() ==> contents(r.0).len() >= (if left_len < contents(s).len() {
            left_len as nat
        } else {
            contents(s).len()
        }),
{
    s.split(left_len)
}

/// Relies on `RawBoardSet::iter`: every hash held, each once, in no
/// particular order.
#[verifier::external_body]
pub(crate) fn hashes(s: &BoardSet) -> (r: Vec<u64>)
    ensures
        r@.to_set() == contents(*s),
        r@.no_duplicates(),
{
    s.raw().iter().collect()
}

/// Splits off exactly `min(k, len)` hashes: the first set holds them, the
/// second the rest. Which hashes go left is not specified.
pub fn split(set: BoardSet, k: usize) -> (r: (BoardSet, BoardSet))
    requires
        contents(set).finite(),
    ensures
        contents(r.0).union(contents(r.1)) == contents(set),
        contents(r.0).disjoint(contents(r.1)),
        contents(r.0).finite(),
        contents(r.1).finite(),
        contents(r.0).len() == (if k < contents(set).len() {
            k as nat
        } else {
            contents(set).len()
        }),
{
    let ghost whole = contents(set);
    let (left, mut right) = split_raw(set, k);
    proof {
        vstd::set_lib::lemma_set_union_finite_implies_sets_finite(contents(left), contents(right));
        vstd::set_lib::lemma_len_subset(contents(left), whole);
    }
    if len(&left) <= k {
        return (left, right);
    }
    let hs = hashes(&left);
    let ghost right0 = contents(right);
    proof {
        hs@.unique_seq_to_set();
    }
    let mut kept = new_set();
    let mut i: usize = 0;
    while i < k
        invariant
            i <= k < hs@.len(),
            hs@.no_duplicates(),
            contents(kept) == hs@.subrange(0, i as int).to_set(),
        decreases k - i,
    {
        proof {
            assert(hs@.subrange(0, i + 1) == hs@.subrange(0, i as int).push(hs@[i as int]));
            hs@.subrange(0, i as int).lemma_push_to_set_commute(hs@[i as int]);
        }
        insert(&mut kept, hs[i]);
        i = i + 1;
    }
    let mut j: usize = k;
    while j < hs.len()
        invariant
            k <= j <= hs@.len(),
            contents(right) == right0.union(hs@.subrange(k as int, j as int).to_set()),
            right0.finite(),
        decreases hs@.len() - j,
    {
        proof {
            assert(hs@.subrange(k as int, j + 1) == hs@.subrange(k as int, j as int).push(
                hs@[j as int],
            ));
            hs@.subrange(k as int, j as int).lemma_push_to_set_commute(hs@[j as int]);
        }
        insert(&mut right, hs[j]);
        j = j + 1;
    }
    proof {
        let a = hs@.subrange(0, k as int);
        let b = hs@.subrange(k as int, hs@.len() as int);
        assert(hs@ == a + b);
        vstd::seq_lib::seq_to_set_distributes_over_add(a, b);
        assert(a.no_duplicates());
        a.unique_seq_to_set();
        assert(a.to_set().disjoint(b.to_set())) by {
            assert forall|x: u64| a.to_set().contains(x) implies !b.to_set().contains(x) by {
                let p = choose|p: int| 0 <= p < a.len() && a[p] == x;
                if b.to_set().contains(x) {
                    let q = choose|q: int| 0 <= q < b.len() && b[q] == x;
                    assert(hs@[p] == hs@[k + q]);
                }
            }
        }
        assert(contents(kept).union(contents(right)) =~= whole);
        assert(contents(kept).disjoint(contents(right)));
    }
    (kept, right)
}

/// Adds every hash of `other` to `set`, reserving room first; `other` is
/// consumed.
pub fn absorb_into(set: &mut BoardSet, other: BoardSet)
    ensures
        contents(*final(set)) == contents(*old(set)).union(contents(other)),
        contents(*old(set)).finite() && contents(other).finite() ==> contents(*final(set)).finite(),
{
    let c = capacity(&other);
    reserve(set, c);
    absorb(set, other);
}

/// Absorbing is set union: associative, commutative, and the empty set
/// changes nothing.
pub proof fn lemma_absorb_is_union(a: BoardSet, b: BoardSet, c: BoardSet, empty: BoardSet)
    requires
        contents(empty) == Set::<u64>::empty(),
    ensures
        contents(a).union(contents(b).union(contents(c))) == contents(a).union(contents(b)).union(
            contents(c),
        ),
        contents(a).union(contents(b)) == contents(b).union(contents(a)),
        contents(a).union(contents(empty)) == contents(a),
{
    assert(contents(a).union(contents(b).union(contents(c))) =~= contents(a).union(
        contents(b),
    ).union(contents(c)));
    assert(contents(a).union(contents(b)) =~= contents(b).union(contents(a)));
    assert(contents(a).union(contents(empty)) =~= contents(a));
}

} // verus!
