//! Quicksort with a randomly chosen pivot.

use super::{
    le, lemma_le_from_cmp, lemma_le_transitive, lemma_perm_contains, lemma_segment_perm, lt,
    sorted, Sorter,
};
use crate::random::random_index;
use vstd::laws_cmp::obeys_cmp;
use vstd::prelude::*;
use vstd::std_specs::cmp::PartialOrdSpec;

verus! {

/// Relies on `slice::swap`: exchanges the elements at `a` and `b`; it panics
/// when either index is out of bounds.
#[verifier::external_body]
fn swap<T>(slice: &mut [T], a: usize, b: usize)
    requires
        a < old(slice)@.len(),
        b < old(slice)@.len(),
    ensures
        final(slice)@ == old(slice)@.update(a as int, old(slice)@[b as int]).update(
            b as int,
            old(slice)@[a as int],
        ),
{
    slice.swap(a, b);
}

/// Swapping two elements keeps the elements of the sequence.
proof fn lemma_swap_perm<T>(s: Seq<T>, a: int, b: int)
    requires
        0 <= a < s.len(),
        0 <= b < s.len(),
    ensures
        s.update(a, s[b]).update(b, s[a]).to_multiset() == s.to_multiset(),
{
    broadcast use vstd::seq_lib::group_to_multiset_ensures;

    let s1 = s.update(a, s[b]);
    assert(s1.update(b, s[a]).to_multiset() =~= s.to_multiset());
}

/// Quicksort: partitions around a random pivot, then sorts both sides.
pub struct QuickSort;

impl QuickSort {
    /// Moves the element at `pivot_index` to its sorted place within
    /// `slice[start..=end]`, with the elements not above it before it and
    /// those above it after it, and returns that place. Returns `None`, and
    /// leaves the slice alone, unless `start <= pivot_index <= end`.
    fn partition<T: Ord>(&self, slice: &mut [T], pivot_index: usize, start: usize, end: usize) -> (r:
        Option<usize>)
        requires
            obeys_cmp::<T>(),
            start > end || pivot_index < start || pivot_index > end || end < old(slice)@.len(),
        ensures
            final(slice)@.len() == old(slice)@.len(),
            r is None <==> (start > end || pivot_index < start || pivot_index > end),
            r is None ==> final(slice)@ == old(slice)@,
            r is Some ==> start <= r.unwrap() <= end,
            r is Some ==> final(slice)@[r.unwrap() as int] == old(slice)@[pivot_index as int],
            r is Some ==> forall|q: int|
                start <= q < r.unwrap() ==> le(#[trigger] final(slice)@[q], final(slice)@[r.unwrap() as int]),
            r is Some ==> forall|q: int|
                r.unwrap() < q <= end ==> lt(final(slice)@[r.unwrap() as int], #[trigger] final(slice)@[q]),
            final(slice)@.to_multiset() == old(slice)@.to_multiset(),
            forall|q: int|
                0 <= q < old(slice)@.len() && !(start <= q <= end) ==> #[trigger] final(slice)@[q]
                    == old(slice)@[q],
    {
        if start > end || pivot_index < start || pivot_index > end {
            return None;
        }
        proof {
            reveal(vstd::laws_cmp::obeys_cmp_partial_ord);
            assert(T::obeys_partial_cmp_spec());
            assert(vstd::slice::spec_slice_len(slice) == slice@.len());
        }
        let ghost orig = slice@;

        // Move pivot to front of slice.
        proof {
            lemma_swap_perm(slice@, start as int, pivot_index as int);
        }
        swap(slice, start, pivot_index);
        let ghost pv = orig[pivot_index as int];

        let mut boundary: usize = start + 1;  // start of right
        let mut i: usize = start + 1;
        while i < end + 1
            invariant
                obeys_cmp::<T>(),
                T::obeys_partial_cmp_spec(),
                start < boundary <= i <= end + 1,
                end < orig.len() <= usize::MAX,
                slice@.len() == orig.len(),
                slice@[start as int] == pv,
                forall|q: int| start < q < boundary ==> le(#[trigger] slice@[q], pv),
                forall|q: int| boundary <= q < i ==> lt(pv, #[trigger] slice@[q]),
                slice@.to_multiset() == orig.to_multiset(),
                forall|q: int|
                    0 <= q < orig.len() && !(start <= q <= end) ==> #[trigger] slice@[q] == orig[q],
            decreases end + 1 - i,
        {
            let ghost before = slice@;
            if slice[i] <= slice[start] {
                proof {
                    lemma_le_from_cmp(before[i as int], pv);
                    lemma_swap_perm(before, i as int, boundary as int);
                }
                swap(slice, i, boundary);
                boundary += 1;
            } else {
                proof {
                    lemma_le_from_cmp(before[i as int], pv);
                }
            }
            i += 1;
        }

        // Move pivot back to its final place.
        let ghost before = slice@;
        proof {
            lemma_swap_perm(slice@, start as int, boundary - 1);
        }
        swap(slice, start, boundary - 1);
        proof {
            let b = boundary - 1;
            assert(slice@[b] == pv);
            assert forall|q: int| start <= q < b implies le(#[trigger] slice@[q], slice@[b]) by {
                if q == start {
                    assert(slice@[q] == before[b]);
                } else {
                    assert(slice@[q] == before[q]);
                }
            }
            assert forall|q: int| b < q <= end implies lt(slice@[b], #[trigger] slice@[q]) by {
                assert(slice@[q] == before[q]);
            }
        }
        Some(boundary - 1)  // Pivot index after partition
    }

    /// Sorts `slice[start..=end]` in place; does nothing when
    /// `start >= end`.
    pub fn quicksort_helper<T: Ord>(&self, slice: &mut [T], start: usize, end: usize)
        requires
            obeys_cmp::<T>(),
            start >= end || end < old(slice)@.len(),
        ensures
            final(slice)@.len() == old(slice)@.len(),
            start >= end ==> final(slice)@ == old(slice)@,
            start < end ==> sorted(final(slice)@.subrange(start as int, end + 1)),
            start < end ==> final(slice)@.subrange(start as int, end + 1).to_multiset()
                == old(slice)@.subrange(start as int, end + 1).to_multiset(),
            forall|q: int|
                0 <= q < old(slice)@.len() && !(start <= q <= end) ==> #[trigger] final(slice)@[q]
                    == old(slice)@[q],
        decreases end + 1 - start,
    {
        if start < end {
            let ghost orig = slice@;
            let mut rng = rand::thread_rng();
            let pivot_index = random_index(&mut rng, start, end);
            if let Some(boundary) = self.partition(slice, pivot_index, start, end) {
                let ghost s0 = slice@;
                assert(vstd::slice::spec_slice_len(slice) == slice@.len());
                let ghost pv = s0[boundary as int];
                if boundary > 0 {
                    self.quicksort_helper(slice, start, boundary - 1);
                }
                let ghost s1 = slice@;
                self.quicksort_helper(slice, boundary + 1, end);
                let ghost s2 = slice@;
                proof {
                    self.lemma_combine(orig, s0, s1, s2, start as int, boundary as int, end as int);
                }
            }
        }
    }

    /// The facts that make a partitioned slice with both sides sorted into a
    /// sorted segment.
    proof fn lemma_combine<T: Ord>(
        &self,
        orig: Seq<T>,
        s0: Seq<T>,
        s1: Seq<T>,
        s2: Seq<T>,
        start: int,
        b: int,
        end: int,
    )
        requires
            obeys_cmp::<T>(),
            0 <= start <= b <= end < orig.len(),
            start < end,
            s0.len() == s1.len() == s2.len() == orig.len(),
            s0.to_multiset() == orig.to_multiset(),
            forall|q: int| 0 <= q < orig.len() && !(start <= q <= end) ==> #[trigger] s0[q] == orig[q],
            forall|q: int| start <= q < b ==> le(#[trigger] s0[q], s0[b]),
            forall|q: int| b < q <= end ==> lt(s0[b], #[trigger] s0[q]),
            start + 1 < b ==> sorted(s1.subrange(start, b)),
            start + 1 < b ==> s1.subrange(start, b).to_multiset() == s0.subrange(start, b).to_multiset(),
            start + 1 >= b ==> s1 == s0,
            forall|q: int| 0 <= q < s0.len() && !(start <= q < b) ==> #[trigger] s1[q] == s0[q],
            b + 1 < end ==> sorted(s2.subrange(b + 1, end + 1)),
            b + 1 < end ==> s2.subrange(b + 1, end + 1).to_multiset() == s1.subrange(b + 1, end + 1).to_multiset(),
            b + 1 >= end ==> s2 == s1,
            forall|q: int| 0 <= q < s1.len() && !(b < q <= end) ==> #[trigger] s2[q] == s1[q],
        ensures
            sorted(s2.subrange(start, end + 1)),
            s2.subrange(start, end + 1).to_multiset() == orig.subrange(start, end + 1).to_multiset(),
            forall|q: int| 0 <= q < orig.len() && !(start <= q <= end) ==> #[trigger] s2[q] == orig[q],
    {
        let pv = s0[b];
        let left0 = s0.subrange(start, b);
        let right0 = s0.subrange(b + 1, end + 1);
        let left2 = s2.subrange(start, b);
        let right2 = s2.subrange(b + 1, end + 1);
        assert(s2[b] == pv);
        assert(left2 =~= s1.subrange(start, b));
        assert(s1.subrange(b + 1, end + 1) =~= right0);
        assert(left2.to_multiset() == left0.to_multiset());
        assert(right2.to_multiset() == right0.to_multiset());
        assert forall|q: int| start <= q < b implies le(#[trigger] s2[q], pv) by {
            assert(left2[q - start] == s2[q]);
            lemma_perm_contains(left0, left2, s2[q]);
            let k = choose|k: int| 0 <= k < left0.len() && left0[k] == s2[q];
            assert(s0[start + k] == s2[q]);
        }
        assert forall|q: int| b < q <= end implies lt(pv, #[trigger] s2[q]) by {
            assert(right2[q - b - 1] == s2[q]);
            lemma_perm_contains(right0, right2, s2[q]);
            let k = choose|k: int| 0 <= k < right0.len() && right0[k] == s2[q];
            assert(s0[b + 1 + k] == s2[q]);
        }
        let seg = s2.subrange(start, end + 1);
        assert forall|p: int, q: int| 0 <= p < q < seg.len() implies le(
            #[trigger] seg[p],
            #[trigger] seg[q],
        ) by {
            let pp = start + p;
            let qq = start + q;
            assert(seg[p] == s2[pp] && seg[q] == s2[qq]);
            if qq < b {
                assert(left2[p] == s2[pp] && left2[q] == s2[qq]);
            } else if pp > b {
                assert(right2[pp - b - 1] == s2[pp] && right2[qq - b - 1] == s2[qq]);
            } else if pp == b {
                lemma_le_from_cmp(pv, s2[qq]);
                super::lemma_lt_le(pv, s2[qq]);
            } else if qq == b {
            } else {
                super::lemma_lt_le(pv, s2[qq]);
                lemma_le_transitive(s2[pp], pv, s2[qq]);
            }
        }
        vstd::seq_lib::lemma_multiset_commutative(left2, seq![pv]);
        vstd::seq_lib::lemma_multiset_commutative(left2 + seq![pv], right2);
        vstd::seq_lib::lemma_multiset_commutative(left0, seq![pv]);
        vstd::seq_lib::lemma_multiset_commutative(left0 + seq![pv], right0);
        assert(seg =~= left2 + seq![pv] + right2);
        assert(s0.subrange(start, end + 1) =~= left0 + seq![pv] + right0);
        lemma_segment_perm(s0, orig, start, end + 1);
    }
}

impl Sorter for QuickSort {
    fn sort<T: Ord + Copy>(&self, slice: &mut [T]) {
        if slice.len() > 0 {
            let n = slice.len();
            self.quicksort_helper(slice, 0, n - 1);
            proof {
                assert(slice@.subrange(0, n as int) =~= slice@);
                assert(old(slice)@.subrange(0, n as int) =~= old(slice)@);
            }
        }
    }
}

} // verus!
