//! In-place sorting of slices.

use core::cmp::Ordering;
use vstd::laws_cmp::obeys_cmp;
use vstd::prelude::*;
use vstd::std_specs::cmp::{OrdSpec, PartialEqSpec, PartialOrdSpec};

pub mod mergesort;
pub mod quicksort;

verus! {

/// `a < b` under the type's ordering.
pub open spec fn lt<T: Ord>(a: T, b: T) -> bool {
    a.partial_cmp_spec(&b) == Some(Ordering::Less)
}

/// `a <= b` under the type's ordering.
pub open spec fn le<T: Ord>(a: T, b: T) -> bool {
    !lt(b, a)
}

/// Every element is at most each element after it.
pub open spec fn sorted<T: Ord>(s: Seq<T>) -> bool {
    forall|p: int, q: int| 0 <= p < q < s.len() ==> le(#[trigger] s[p], #[trigger] s[q])
}

/// `<=` is transitive for a lawful total order.
pub proof fn lemma_le_transitive<T: Ord>(a: T, b: T, c: T)
    requires
        obeys_cmp::<T>(),
        le(a, b),
        le(b, c),
    ensures
        le(a, c),
{
    reveal(vstd::laws_cmp::obeys_partial_cmp_spec_properties);
    reveal(vstd::laws_cmp::obeys_cmp_ord);
    reveal(vstd::laws_eq::obeys_eq_spec_properties);
    if lt(c, a) {
        assert(c.partial_cmp_spec(&b) == Some(c.cmp_spec(&b)));
        assert(b.partial_cmp_spec(&a) == Some(b.cmp_spec(&a)));
        if c.cmp_spec(&b) == Ordering::Greater {
            assert(b.partial_cmp_spec(&c) == Some(Ordering::Less));
            assert(b.partial_cmp_spec(&a) == Some(Ordering::Less));
        } else {
            assert(c.eq_spec(&b));
            if b.cmp_spec(&a) == Ordering::Greater {
                assert(a.partial_cmp_spec(&b) == Some(Ordering::Less));
                assert(c.partial_cmp_spec(&b) == Some(Ordering::Less));
            } else {
                assert(b.eq_spec(&a));
                assert(c.eq_spec(&a));
                assert(c.partial_cmp_spec(&a) == Some(Ordering::Equal));
            }
        }
    }
}

/// `<` implies `<=`.
pub proof fn lemma_lt_le<T: Ord>(a: T, b: T)
    requires
        obeys_cmp::<T>(),
        lt(a, b),
    ensures
        le(a, b),
{
    reveal(vstd::laws_cmp::obeys_partial_cmp_spec_properties);
}

/// An algorithm that sorts a slice in place.
pub trait Sorter {
    /// Puts the elements of `arr` in non-decreasing order.
    fn sort<T: Ord + Copy>(&self, arr: &mut [T])
        requires
            obeys_cmp::<T>(),
        ensures
            final(arr)@.len() == old(arr)@.len(),
            sorted(final(arr)@),
            final(arr)@.to_multiset() == old(arr)@.to_multiset(),
    ;
}

/// The comparison `x <= y` of the type agrees with `le`.
pub proof fn lemma_le_from_cmp<T: Ord>(x: T, y: T)
    requires
        obeys_cmp::<T>(),
    ensures
        (x.partial_cmp_spec(&y) == Some(Ordering::Less) || x.partial_cmp_spec(&y) == Some(
            Ordering::Equal,
        )) <==> le(x, y),
{
    reveal(vstd::laws_cmp::obeys_partial_cmp_spec_properties);
    reveal(vstd::laws_cmp::obeys_cmp_ord);
    reveal(vstd::laws_eq::obeys_eq_spec_properties);
    assert(x.partial_cmp_spec(&y) == Some(x.cmp_spec(&y)));
    assert(y.partial_cmp_spec(&x) == Some(y.cmp_spec(&x)));
    if x.eq_spec(&y) {
        assert(y.eq_spec(&x));
    }
    if y.eq_spec(&x) {
        assert(x.eq_spec(&y));
    }
}

/// Two sequences with the same elements that agree outside `[lo, hi)` also
/// have the same elements inside it.
pub proof fn lemma_segment_perm<T>(s: Seq<T>, t: Seq<T>, lo: int, hi: int)
    requires
        0 <= lo <= hi <= s.len() == t.len(),
        s.to_multiset() == t.to_multiset(),
        forall|q: int| 0 <= q < s.len() && !(lo <= q < hi) ==> #[trigger] s[q] == t[q],
    ensures
        s.subrange(lo, hi).to_multiset() == t.subrange(lo, hi).to_multiset(),
{
    let n = s.len() as int;
    let pre = s.subrange(0, lo);
    let x = s.subrange(lo, hi);
    let y = t.subrange(lo, hi);
    let post = s.subrange(hi, n);
    assert(s =~= pre + x + post);
    assert(t =~= pre + y + post);
    vstd::seq_lib::lemma_multiset_commutative(pre, x);
    vstd::seq_lib::lemma_multiset_commutative(pre + x, post);
    vstd::seq_lib::lemma_multiset_commutative(pre, y);
    vstd::seq_lib::lemma_multiset_commutative(pre + y, post);
    assert forall|v: T| #[trigger] x.to_multiset().count(v) == y.to_multiset().count(v) by {
        assert(s.to_multiset().count(v) == (pre + x).to_multiset().count(v) + post.to_multiset().count(v));
        assert((pre + x).to_multiset().count(v) == pre.to_multiset().count(v) + x.to_multiset().count(v));
        assert(t.to_multiset().count(v) == (pre + y).to_multiset().count(v) + post.to_multiset().count(v));
        assert((pre + y).to_multiset().count(v) == pre.to_multiset().count(v) + y.to_multiset().count(v));
    }
    assert(x.to_multiset() =~= y.to_multiset());
}

/// An element of one of two sequences with the same elements is an element
/// of the other.
pub proof fn lemma_perm_contains<T>(s: Seq<T>, t: Seq<T>, x: T)
    requires
        s.to_multiset() == t.to_multiset(),
        t.contains(x),
    ensures
        s.contains(x),
{
    vstd::seq_lib::to_multiset_contains(s, x);
    vstd::seq_lib::to_multiset_contains(t, x);
}

} // verus!
