//! Top-down merge sort.

use super::{le, lemma_le_transitive, lemma_lt_le, lt, sorted, Sorter};
use vstd::laws_cmp::obeys_cmp;
use vstd::prelude::*;
use vstd::std_specs::cmp::PartialOrdSpec;

verus! {

/// Merge sort: sorts both halves, then merges them.
pub struct MergeSort;

impl MergeSort {
    /// Merges the sorted runs `arr[s1..s2]` and `arr[s2..=end]` into one
    /// sorted run in place.
    fn merge<T: Ord + Copy>(&self, arr: &mut [T], s1: usize, s2: usize, end: usize)
        requires
            obeys_cmp::<T>(),
            s1 <= s2 <= end + 1 <= old(arr)@.len(),
            sorted(old(arr)@.subrange(s1 as int, s2 as int)),
            sorted(old(arr)@.subrange(s2 as int, end + 1)),
        ensures
            final(arr)@.len() == old(arr)@.len(),
            sorted(final(arr)@.subrange(s1 as int, end + 1)),
            final(arr)@.subrange(s1 as int, end + 1).to_multiset() == old(arr)@.subrange(
                s1 as int,
                end + 1,
            ).to_multiset(),
            forall|q: int|
                0 <= q < old(arr)@.len() && !(s1 <= q <= end) ==> #[trigger] final(arr)@[q]
                    == old(arr)@[q],
    {
        proof {
            reveal(vstd::laws_cmp::obeys_cmp_partial_ord);
            assert(T::obeys_partial_cmp_spec());
        }
        let ghost orig = arr@;
        let mut temp: Vec<T> = Vec::new();

        // Copy first sorted run into temp vector.
        let mut index: usize = s1;
        while index < s2
            invariant
                s1 <= index <= s2 <= arr@.len(),
                arr@ == orig,
                temp@ == orig.subrange(s1 as int, index as int),
            decreases s2 - index,
        {
            temp.push(arr[index]);
            index += 1;
            assert(temp@ =~= orig.subrange(s1 as int, index as int));
        }
        let ghost a = temp@;
        let ghost b = orig.subrange(s2 as int, end + 1);

        let mut i: usize = 0;
        let mut j: usize = s2;
        let mut k: usize = s1;
        proof {
            broadcast use vstd::seq_lib::group_to_multiset_ensures;

            assert(arr@.subrange(s1 as int, s1 as int) =~= Seq::empty());
            assert(a.subrange(0, 0) =~= Seq::empty());
            assert(orig.subrange(s2 as int, s2 as int) =~= Seq::empty());
            assert(Seq::<T>::empty().to_multiset().add(Seq::<T>::empty().to_multiset())
                =~= Seq::<T>::empty().to_multiset());
        }
        while i < temp.len()
            invariant
                obeys_cmp::<T>(),
                T::obeys_partial_cmp_spec(),
                s1 <= s2 <= end + 1 <= orig.len(),
                temp@ == a,
                a == orig.subrange(s1 as int, s2 as int),
                b == orig.subrange(s2 as int, end + 1),
                sorted(a),
                sorted(b),
                i <= a.len(),
                s2 <= j <= end + 1,
                k == s1 + i + (j - s2),
                arr@.len() == orig.len(),
                forall|q: int|
                    0 <= q < orig.len() && !(s1 <= q < k) ==> #[trigger] arr@[q] == orig[q],
                sorted(arr@.subrange(s1 as int, k as int)),
                arr@.subrange(s1 as int, k as int).to_multiset() == a.subrange(
                    0,
                    i as int,
                ).to_multiset().add(orig.subrange(s2 as int, j as int).to_multiset()),
                forall|p: int, q: int|
                    s1 <= p < k && i <= q < a.len() ==> le(#[trigger] arr@[p], #[trigger] a[q]),
                forall|p: int, q: int|
                    s1 <= p < k && j <= q <= end ==> le(#[trigger] arr@[p], #[trigger] orig[q]),
            decreases (a.len() - i) + (end + 1 - j),
        {
            let ghost before = arr@;
            let x: T;
            if j <= end && !(temp[i] < arr[j]) {
                x = arr[j];
                proof {
                    assert(le(orig[j as int], a[i as int]));
                    assert forall|q: int| i <= q < a.len() implies le(x, #[trigger] a[q]) by {
                        if q > i {
                            assert(le(a[i as int], a[q]));
                            lemma_le_transitive(x, a[i as int], a[q]);
                        }
                    }
                    assert forall|q: int| j < q <= end implies le(x, #[trigger] orig[q]) by {
                        assert(b[j - s2] == x && b[q - s2] == orig[q]);
                    }
                    assert(orig.subrange(s2 as int, j + 1) =~= orig.subrange(s2 as int, j as int).push(x));
                }
                arr[k] = x;
                j += 1;
            } else {
                x = temp[i];
                proof {
                    assert forall|q: int| i < q < a.len() implies le(x, #[trigger] a[q]) by {}
                    if j <= end {
                        assert(lt(x, orig[j as int]));
                        lemma_lt_le(x, orig[j as int]);
                        assert forall|q: int| j <= q <= end implies le(x, #[trigger] orig[q]) by {
                            if q > j {
                                assert(b[j - s2] == orig[j as int] && b[q - s2] == orig[q]);
                                lemma_le_transitive(x, orig[j as int], orig[q]);
                            }
                        }
                    }
                    assert(a.subrange(0, i + 1) =~= a.subrange(0, i as int).push(x));
                }
                arr[k] = x;
                i += 1;
            }
            proof {
                broadcast use vstd::seq_lib::group_to_multiset_ensures;

                assert(arr@.subrange(s1 as int, k + 1) =~= before.subrange(s1 as int, k as int).push(
                    x,
                ));
                assert forall|p: int| s1 <= p < k implies le(#[trigger] arr@[p], x) by {
                    assert(arr@[p] == before[p]);
                }
            }
            k += 1;
        }
        proof {
            broadcast use vstd::seq_lib::group_to_multiset_ensures;

            let done = arr@.subrange(s1 as int, k as int);
            let rest = orig.subrange(j as int, end + 1);
            assert(arr@.subrange(s1 as int, end + 1) =~= done + rest);
            vstd::seq_lib::lemma_multiset_commutative(done, rest);
            assert(a.subrange(0, i as int) =~= a);
            assert(b =~= orig.subrange(s2 as int, j as int) + rest);
            vstd::seq_lib::lemma_multiset_commutative(orig.subrange(s2 as int, j as int), rest);
            assert(orig.subrange(s1 as int, end + 1) =~= a + b);
            vstd::seq_lib::lemma_multiset_commutative(a, b);
            assert(arr@.subrange(s1 as int, end + 1).to_multiset() =~= orig.subrange(
                s1 as int,
                end + 1,
            ).to_multiset());
            let merged = arr@.subrange(s1 as int, end + 1);
            assert forall|p: int, q: int| 0 <= p < q < merged.len() implies le(
                #[trigger] merged[p],
                #[trigger] merged[q],
            ) by {
                if p < k - s1 && q >= k - s1 {
                    assert(merged[q] == orig[s1 + q]);
                } else if p >= k - s1 {
                    assert(b[s1 + p - s2] == merged[p] && b[s1 + q - s2] == merged[q]);
                } else {
                    assert(done[p] == merged[p] && done[q] == merged[q]);
                }
            }
        }
    }

    /// Sorts `arr[start..=end]` in place; does nothing when `start >= end`.
    pub fn merge_sort_helper<T: Ord + Copy>(&self, arr: &mut [T], start: usize, end: usize)
        requires
            obeys_cmp::<T>(),
            start >= end || end < old(arr)@.len(),
        ensures
            final(arr)@.len() == old(arr)@.len(),
            start >= end ==> final(arr)@ == old(arr)@,
            start < end ==> sorted(final(arr)@.subrange(start as int, end + 1)),
            start < end ==> final(arr)@.subrange(start as int, end + 1).to_multiset()
                == old(arr)@.subrange(start as int, end + 1).to_multiset(),
            forall|q: int|
                0 <= q < old(arr)@.len() && !(start <= q <= end) ==> #[trigger] final(arr)@[q]
                    == old(arr)@[q],
        decreases end - start,
    {
        if start >= end {
            return;
        }
        let ghost orig = arr@;
        let mid = start + (end - start) / 2;
        self.merge_sort_helper(arr, start, mid);
        let ghost left = arr@;
        self.merge_sort_helper(arr, mid + 1, end);
        let ghost right = arr@;
        proof {
            assert(left.subrange(start as int, mid + 1) =~= right.subrange(start as int, mid + 1));
            if start == mid {
                assert(sorted(right.subrange(start as int, mid + 1)));
            }
            if mid + 1 == end {
                assert(sorted(right.subrange(mid + 1, end + 1)));
            }
        }
        self.merge(arr, start, mid + 1, end);
        proof {
            broadcast use vstd::seq_lib::group_to_multiset_ensures;

            assert(orig.subrange(start as int, end + 1) =~= orig.subrange(start as int, mid + 1)
                + orig.subrange(mid + 1, end + 1));
            assert(right.subrange(start as int, end + 1) =~= right.subrange(start as int, mid + 1)
                + right.subrange(mid + 1, end + 1));
            assert(left.subrange(mid + 1, end + 1) =~= orig.subrange(mid + 1, end + 1));
            vstd::seq_lib::lemma_multiset_commutative(
                orig.subrange(start as int, mid + 1),
                orig.subrange(mid + 1, end + 1),
            );
            vstd::seq_lib::lemma_multiset_commutative(
                right.subrange(start as int, mid + 1),
                right.subrange(mid + 1, end + 1),
            );
        }
    }
}

impl Sorter for MergeSort {
    fn sort<T: Ord + Copy>(&self, arr: &mut [T]) {
        if arr.len() > 0 {
            let n = arr.len();
            self.merge_sort_helper(arr, 0, n - 1);
            proof {
                assert(arr@.subrange(0, n as int) =~= arr@);
                assert(old(arr)@.subrange(0, n as int) =~= old(arr)@);
            }
        }
    }
}

} // verus!
