//! Insertion sort.

use crate::order::{gt, le, sorted, sorted_prefix, total_order};
use crate::sorting::exchange::{lemma_swapped_same_elements, swap_elements};
use vstd::prelude::*;

verus! {

/// Sorts `s` in place and hands it back.
///
/// Only exchanges of neighbours are made, so the result holds the elements
/// of `s`, each as often as before. Where `T` is totally ordered the result
/// is sorted. Quadratic time, constant space.
pub fn insertion_sort<T: PartialOrd>(s: &mut [T]) -> (res: &mut [T])
    ensures
        res@.to_multiset() == old(s)@.to_multiset(),
        res@.len() == old(s)@.len(),
        total_order::<T>() ==> sorted(res@),
        final(res)@ == final(s)@,
{
    let n = s.len();
    let mut i: usize = 1;
    while i < n
        invariant
            n == s@.len(),
            1 <= i,
            s@.to_multiset() == old(s)@.to_multiset(),
            total_order::<T>() ==> sorted_prefix(s@, i as int),
        decreases n - i,
    {
        let mut j: usize = i;
        while j > 0 && s[j - 1] > s[j]
            invariant
                n == s@.len(),
                j <= i < n,
                s@.to_multiset() == old(s)@.to_multiset(),
                total_order::<T>() ==> forall|a: int, b: int|
                    0 <= a <= b <= i && a != j && b != j ==> le(#[trigger] s@[a], #[trigger] s@[b]),
                total_order::<T>() ==> forall|b: int| j < b <= i ==> le(s@[j as int], #[trigger] s@[b]),
            decreases j,
        {
            proof {
                lemma_swapped_same_elements(s@, j - 1, j as int);
            }
            swap_elements(s, j - 1, j);
            j -= 1;
        }
        proof {
            if total_order::<T>() {
                assert forall|a: int, b: int| 0 <= a <= b <= i implies le(
                    #[trigger] s@[a],
                    #[trigger] s@[b],
                ) by {
                    if b == j && a < j {
                        assert(!gt(s@[j - 1], s@[j as int]));
                        assert(le(s@[a], s@[j - 1]));
                        assert(le(s@[j - 1], s@[j as int]));
                    } else if a == j && b == j {
                        assert(le(s@[a], s@[a]) || le(s@[a], s@[a]));
                    }
                }
            }
        }
        i += 1;
    }
    s
}

} // verus!
