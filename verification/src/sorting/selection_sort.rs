//! Selection sort.

use crate::order::{le, lt, sorted, sorted_prefix, total_order};
use crate::sorting::exchange::{lemma_swapped_same_elements, swap_elements};
use vstd::prelude::*;

verus! {

/// Sorts `s` in place and hands it back.
///
/// Only exchanges are made, so the result holds the elements of `s`, each as
/// often as before. Where `T` is totally ordered the result is sorted.
/// Quadratic time, constant space.
pub fn selection_sort<T: PartialOrd>(s: &mut [T]) -> (res: &mut [T])
    ensures
        res@.to_multiset() == old(s)@.to_multiset(),
        res@.len() == old(s)@.len(),
        total_order::<T>() ==> sorted(res@),
        final(res)@ == final(s)@,
{
    let n = s.len();
    let mut i: usize = 0;
    while i < n
        invariant
            n == s@.len(),
            i <= n,
            s@.to_multiset() == old(s)@.to_multiset(),
            total_order::<T>() ==> sorted_prefix(s@, i as int),
            total_order::<T>() ==> forall|a: int, b: int|
                0 <= a < i <= b < n ==> le(#[trigger] s@[a], #[trigger] s@[b]),
        decreases n - i,
    {
        let mut min_index: usize = i;
        let mut j: usize = i + 1;
        while j < n
            invariant
                n == s@.len(),
                i <= min_index < j <= n,
                total_order::<T>() ==> forall|b: int|
                    i <= b < j ==> le(s@[min_index as int], #[trigger] s@[b]),
            decreases n - j,
        {
            proof {
                if total_order::<T>() {
                    assert(le(s@[min_index as int], s@[min_index as int]) || le(
                        s@[min_index as int],
                        s@[min_index as int],
                    ));
                }
            }
            if s[j] < s[min_index] {
                proof {
                    if total_order::<T>() {
                        assert(lt(s@[j as int], s@[min_index as int]));
                        assert(le(s@[j as int], s@[min_index as int]));
                        assert(le(s@[j as int], s@[j as int]) || le(s@[j as int], s@[j as int]));
                        assert forall|b: int| i <= b < j + 1 implies le(
                            s@[j as int],
                            #[trigger] s@[b],
                        ) by {
                            if b < j {
                                assert(le(s@[min_index as int], s@[b]));
                            }
                        }
                    }
                }
                min_index = j;
            } else {
                proof {
                    if total_order::<T>() {
                        assert(!lt(s@[j as int], s@[min_index as int]));
                        assert(le(s@[min_index as int], s@[j as int]));
                    }
                }
            }
            j += 1;
        }
        proof {
            lemma_swapped_same_elements(s@, i as int, min_index as int);
            if total_order::<T>() {
                assert(le(s@[min_index as int], s@[min_index as int]) || le(
                    s@[min_index as int],
                    s@[min_index as int],
                ));
            }
        }
        let ghost before = s@;
        swap_elements(s, i, min_index);
        proof {
            if total_order::<T>() {
                assert forall|a: int, b: int| 0 <= a <= b < i + 1 implies le(
                    #[trigger] s@[a],
                    #[trigger] s@[b],
                ) by {
                    if b == i {
                        if a < i {
                            assert(le(before[a], before[min_index as int]));
                        } else {
                            assert(le(before[min_index as int], before[min_index as int]));
                        }
                    } else {
                        assert(le(before[a], before[b]));
                    }
                }
                assert forall|a: int, b: int| 0 <= a < i + 1 <= b < n implies le(
                    #[trigger] s@[a],
                    #[trigger] s@[b],
                ) by {
                    let bb = if b == min_index { i as int } else { b };
                    if a < i {
                        assert(le(before[a], before[bb]));
                    } else {
                        assert(le(before[min_index as int], before[bb]));
                    }
                }
            }
        }
        i += 1;
    }
    s
}

} // verus!
