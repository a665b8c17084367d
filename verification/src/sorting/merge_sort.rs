//! The merge step of a merge sort: two adjacent runs of a slice become one.

use crate::order::{le, operators_follow_comparison, sorted, total_order};
use vstd::prelude::*;

verus! {

/// The stable merge of two sequences: at each step the smaller of the two
/// front elements comes next, the one of `left` where neither is smaller.
pub open spec fn merged<T: PartialOrd>(left: Seq<T>, right: Seq<T>) -> Seq<T>
    decreases left.len() + right.len(),
{
    if left.len() == 0 {
        right
    } else if right.len() == 0 {
        left
    } else if le(left[0], right[0]) {
        seq![left[0]] + merged(left.drop_first(), right)
    } else {
        seq![right[0]] + merged(left, right.drop_first())
    }
}

/// What is `<=` every element of both inputs is `<=` every element of their
/// merge.
pub proof fn lemma_merged_lower_bound<T: PartialOrd>(left: Seq<T>, right: Seq<T>, x: T)
    requires
        forall|i: int| 0 <= i < left.len() ==> le(x, #[trigger] left[i]),
        forall|i: int| 0 <= i < right.len() ==> le(x, #[trigger] right[i]),
    ensures
        forall|i: int| 0 <= i < merged(left, right).len() ==> le(x, #[trigger] merged(left, right)[i]),
    decreases left.len() + right.len(),
{
    if left.len() == 0 || right.len() == 0 {
    } else {
        let take_left = le(left[0], right[0]);
        let head = if take_left { left[0] } else { right[0] };
        let l = if take_left { left.drop_first() } else { left };
        let r = if take_left { right } else { right.drop_first() };
        let m = merged(left, right);
        let tail = merged(l, r);
        assert(m == seq![head] + tail);
        assert(le(x, left[0]));
        assert(le(x, right[0]));
        assert forall|i: int| 0 <= i < l.len() implies le(x, #[trigger] l[i]) by {
            let k = if take_left { i + 1 } else { i };
            assert(l[i] == left[k]);
        }
        assert forall|i: int| 0 <= i < r.len() implies le(x, #[trigger] r[i]) by {
            let k = if take_left { i } else { i + 1 };
            assert(r[i] == right[k]);
        }
        lemma_merged_lower_bound(l, r, x);
        assert forall|i: int| 0 <= i < m.len() implies le(x, #[trigger] m[i]) by {
            if i > 0 {
                assert(m[i] == tail[i - 1]);
            }
        }
    }
}

/// Under a total order the merge of two sorted sequences is sorted.
pub proof fn lemma_merged_sorted<T: PartialOrd>(left: Seq<T>, right: Seq<T>)
    requires
        total_order::<T>(),
        sorted(left),
        sorted(right),
    ensures
        sorted(merged(left, right)),
    decreases left.len() + right.len(),
{
    if left.len() == 0 || right.len() == 0 {
    } else {
        let m = merged(left, right);
        let take_left = le(left[0], right[0]);
        let head = if take_left { left[0] } else { right[0] };
        let l = if take_left { left.drop_first() } else { left };
        let r = if take_left { right } else { right.drop_first() };
        assert(m == seq![head] + merged(l, r));
        assert(le(left[0], right[0]) || le(right[0], left[0]));
        assert(le(head, left[0]) && le(head, right[0])) by {
            assert(le(head, head) || le(head, head));
        }
        assert forall|i: int, j: int| 0 <= i <= j < l.len() implies le(
            #[trigger] l[i],
            #[trigger] l[j],
        ) by {
            if take_left {
                assert(le(left[i + 1], left[j + 1]));
            }
        }
        assert forall|i: int, j: int| 0 <= i <= j < r.len() implies le(
            #[trigger] r[i],
            #[trigger] r[j],
        ) by {
            if !take_left {
                assert(le(right[i + 1], right[j + 1]));
            }
        }
        assert forall|i: int| 0 <= i < l.len() implies le(head, #[trigger] l[i]) by {
            let k = if take_left { i + 1 } else { i };
            assert(le(left[0], left[k]));
            assert(l[i] == left[k]);
        }
        assert forall|i: int| 0 <= i < r.len() implies le(head, #[trigger] r[i]) by {
            let k = if take_left { i } else { i + 1 };
            assert(le(right[0], right[k]));
            assert(r[i] == right[k]);
        }
        lemma_merged_sorted(l, r);
        lemma_merged_lower_bound(l, r, head);
        let tail = merged(l, r);
        assert forall|i: int, j: int| 0 <= i <= j < m.len() implies le(
            #[trigger] m[i],
            #[trigger] m[j],
        ) by {
            if i == 0 {
                if j > 0 {
                    assert(m[j] == tail[j - 1]);
                }
            } else {
                assert(m[i] == tail[i - 1]);
                assert(m[j] == tail[j - 1]);
            }
        }
    }
}

/// Appending one element to a sequence and to one of two sequences that
/// together hold its elements keeps the two sides equal.
pub proof fn lemma_push_keeps_balance<T>(whole: Seq<T>, a: Seq<T>, b: Seq<T>, x: T)
    requires
        whole.to_multiset() == a.to_multiset().add(b.to_multiset()),
    ensures
        whole.push(x).to_multiset() == a.push(x).to_multiset().add(b.to_multiset()),
        whole.push(x).to_multiset() == a.to_multiset().add(b.push(x).to_multiset()),
{
    broadcast use vstd::multiset::group_multiset_axioms;

    vstd::seq_lib::to_multiset_build(whole, x);
    vstd::seq_lib::to_multiset_build(a, x);
    vstd::seq_lib::to_multiset_build(b, x);
    assert(whole.push(x).to_multiset() =~= a.push(x).to_multiset().add(b.to_multiset()));
    assert(whole.push(x).to_multiset() =~= a.to_multiset().add(b.push(x).to_multiset()));
}

/// Merging with an empty sequence changes nothing.
pub proof fn lemma_merged_with_empty<T: PartialOrd>(s: Seq<T>)
    ensures
        merged(s, Seq::<T>::empty()) == s,
        merged(Seq::<T>::empty(), s) == s,
{
    assert(merged(s, Seq::<T>::empty()) =~= s);
}

/// Merges the adjacent runs `arr[p..=q]` and `arr[q + 1..=r]` into
/// `arr[p..=r]` and hands `arr` back.
///
/// The rest of `arr` stays as it is, and `arr[p..=r]` keeps its elements,
/// each as often as before. Where the operators of `T` follow its
/// comparison, `arr[p..=r]` becomes the stable merge of the two runs; where
/// `T` is totally ordered and both runs are sorted, it is sorted.
pub fn bottom_up_merge_sort<T: PartialOrd + Copy>(
    arr: &mut [T],
    p: usize,
    q: usize,
    r: usize,
) -> (res: &mut [T])
    requires
        p <= q <= r < old(arr)@.len(),
    ensures
        res@.len() == old(arr)@.len(),
        res@.subrange(0, p as int) == old(arr)@.subrange(0, p as int),
        res@.subrange(r + 1, res@.len() as int) == old(arr)@.subrange(
            r + 1,
            old(arr)@.len() as int,
        ),
        res@.subrange(p as int, r + 1).to_multiset() == old(arr)@.subrange(
            p as int,
            r + 1,
        ).to_multiset(),
        operators_follow_comparison::<T>() ==> res@.subrange(p as int, r + 1) == merged(
            old(arr)@.subrange(p as int, q + 1),
            old(arr)@.subrange(q + 1, r + 1),
        ),
        total_order::<T>() && sorted(old(arr)@.subrange(p as int, q + 1)) && sorted(
            old(arr)@.subrange(q + 1, r + 1),
        ) ==> sorted(res@.subrange(p as int, r + 1)),
        final(res)@ == final(arr)@,
{
    broadcast use vstd::seq_lib::group_to_multiset_ensures;

    let ghost start = arr@;
    let ghost run_l = start.subrange(p as int, q + 1);
    let ghost run_r = start.subrange(q + 1, r + 1);
    let n = arr.len();
    let left_size = q - p + 1;
    let right_size = r - q;

    let mut left: Vec<T> = Vec::with_capacity(left_size);
    let mut right: Vec<T> = Vec::with_capacity(right_size);

    let mut i: usize = 0;
    while i < left_size
        invariant
            arr@ == start,
            p <= q <= r < start.len(),
            left_size == q - p + 1,
            i <= left_size,
            left@ == start.subrange(p as int, p + i),
        decreases left_size - i,
    {
        left.push(arr[p + i]);
        i += 1;
        assert(left@ =~= start.subrange(p as int, p + i));
    }
    let mut j: usize = 0;
    while j < right_size
        invariant
            arr@ == start,
            p <= q <= r < start.len(),
            right_size == r - q,
            j <= right_size,
            right@ == start.subrange(q + 1, q + 1 + j),
        decreases right_size - j,
    {
        right.push(arr[q + j + 1]);
        j += 1;
        assert(right@ =~= start.subrange(q + 1, q + 1 + j));
    }
    assert(left@ == run_l);
    assert(right@ == run_r);

    let mut left_index: usize = 0;
    let mut right_index: usize = 0;
    let mut a_index: usize = p;
    proof {
        assert(arr@.subrange(p as int, a_index as int) =~= Seq::<T>::empty());
        assert(run_l.skip(0) =~= run_l);
        assert(run_r.skip(0) =~= run_r);
        assert(run_l.take(0).to_multiset() =~= vstd::multiset::Multiset::empty());
        assert(run_r.take(0).to_multiset() =~= vstd::multiset::Multiset::empty());
        assert(arr@.subrange(p as int, a_index as int).to_multiset() =~= run_l.take(
            0,
        ).to_multiset().add(run_r.take(0).to_multiset()));
        assert(Seq::<T>::empty() + merged(run_l, run_r) =~= merged(run_l, run_r));
    }

    while left_index < left_size && right_index < right_size
        invariant
            p <= q <= r < start.len(),
            arr@.len() == start.len(),
            left@ == run_l,
            right@ == run_r,
            left_size == run_l.len(),
            right_size == run_r.len(),
            left_size == q - p + 1,
            right_size == r - q,
            left_index <= left_size,
            right_index <= right_size,
            a_index == p + left_index + right_index,
            forall|k: int| 0 <= k < p || a_index <= k < start.len() ==> arr@[k] == start[k],
            arr@.subrange(p as int, a_index as int).to_multiset() == run_l.take(
                left_index as int,
            ).to_multiset().add(run_r.take(right_index as int).to_multiset()),
            operators_follow_comparison::<T>() ==> merged(run_l, run_r) == arr@.subrange(
                p as int,
                a_index as int,
            ) + merged(run_l.skip(left_index as int), run_r.skip(right_index as int)),
        decreases left_size + right_size - left_index - right_index,
    {
        let ghost done = arr@.subrange(p as int, a_index as int);
        let ghost rest_l = run_l.skip(left_index as int);
        let ghost rest_r = run_r.skip(right_index as int);
        if left[left_index] <= right[right_index] {
            arr[a_index] = left[left_index];
            proof {
                let x = run_l[left_index as int];
                assert(arr@.subrange(p as int, a_index + 1) =~= done.push(x));
                assert(run_l.take(left_index + 1) =~= run_l.take(left_index as int).push(x));
                lemma_push_keeps_balance(
                    done,
                    run_l.take(left_index as int),
                    run_r.take(right_index as int),
                    x,
                );
                if operators_follow_comparison::<T>() {
                    assert(le(rest_l[0], rest_r[0]));
                    assert(rest_l.drop_first() =~= run_l.skip(left_index + 1));
                    assert(done + (seq![x] + merged(rest_l.drop_first(), rest_r)) =~= done.push(x)
                        + merged(rest_l.drop_first(), rest_r));
                }
            }
            left_index += 1;
        } else {
            arr[a_index] = right[right_index];
            proof {
                let x = run_r[right_index as int];
                assert(arr@.subrange(p as int, a_index + 1) =~= done.push(x));
                assert(run_r.take(right_index + 1) =~= run_r.take(right_index as int).push(x));
                lemma_push_keeps_balance(
                    done,
                    run_l.take(left_index as int),
                    run_r.take(right_index as int),
                    x,
                );
                if operators_follow_comparison::<T>() {
                    assert(!le(rest_l[0], rest_r[0]));
                    assert(rest_r.drop_first() =~= run_r.skip(right_index + 1));
                    assert(done + (seq![x] + merged(rest_l, rest_r.drop_first())) =~= done.push(x)
                        + merged(rest_l, rest_r.drop_first()));
                }
            }
            right_index += 1;
        }
        a_index += 1;
    }

    while left_index < left_size
        invariant
            p <= q <= r < start.len(),
            arr@.len() == start.len(),
            left@ == run_l,
            left_size == run_l.len(),
            right_size == run_r.len(),
            left_size == q - p + 1,
            right_size == r - q,
            left_index <= left_size,
            right_index <= right_size,
            a_index == p + left_index + right_index,
            forall|k: int| 0 <= k < p || a_index <= k < start.len() ==> arr@[k] == start[k],
            arr@.subrange(p as int, a_index as int).to_multiset() == run_l.take(
                left_index as int,
            ).to_multiset().add(run_r.take(right_index as int).to_multiset()),
            operators_follow_comparison::<T>() ==> merged(run_l, run_r) == arr@.subrange(
                p as int,
                a_index as int,
            ) + merged(run_l.skip(left_index as int), run_r.skip(right_index as int)),
            left_index < left_size ==> right_index == right_size,
        decreases left_size - left_index,
    {
        let ghost done = arr@.subrange(p as int, a_index as int);
        let ghost rest_l = run_l.skip(left_index as int);
        arr[a_index] = left[left_index];
        proof {
            let x = run_l[left_index as int];
            assert(arr@.subrange(p as int, a_index + 1) =~= done.push(x));
            assert(run_l.take(left_index + 1) =~= run_l.take(left_index as int).push(x));
            lemma_push_keeps_balance(
                done,
                run_l.take(left_index as int),
                run_r.take(right_index as int),
                x,
            );
            assert(run_r.skip(right_index as int) =~= Seq::<T>::empty());
            lemma_merged_with_empty(rest_l);
            lemma_merged_with_empty(run_l.skip(left_index + 1));
            assert(done + rest_l =~= done.push(x) + run_l.skip(left_index + 1));
        }
        left_index += 1;
        a_index += 1;
    }

    while right_index < right_size
        invariant
            p <= q <= r < start.len(),
            arr@.len() == start.len(),
            right@ == run_r,
            left_size == run_l.len(),
            right_size == run_r.len(),
            left_size == q - p + 1,
            right_size == r - q,
            left_index == left_size,
            right_index <= right_size,
            a_index == p + left_index + right_index,
            forall|k: int| 0 <= k < p || a_index <= k < start.len() ==> arr@[k] == start[k],
            arr@.subrange(p as int, a_index as int).to_multiset() == run_l.take(
                left_index as int,
            ).to_multiset().add(run_r.take(right_index as int).to_multiset()),
            operators_follow_comparison::<T>() ==> merged(run_l, run_r) == arr@.subrange(
                p as int,
                a_index as int,
            ) + merged(run_l.skip(left_index as int), run_r.skip(right_index as int)),
        decreases right_size - right_index,
    {
        let ghost done = arr@.subrange(p as int, a_index as int);
        let ghost rest_r = run_r.skip(right_index as int);
        arr[a_index] = right[right_index];
        proof {
            let x = run_r[right_index as int];
            assert(arr@.subrange(p as int, a_index + 1) =~= done.push(x));
            assert(run_r.take(right_index + 1) =~= run_r.take(right_index as int).push(x));
            lemma_push_keeps_balance(
                done,
                run_l.take(left_index as int),
                run_r.take(right_index as int),
                x,
            );
            assert(run_l.skip(left_index as int) =~= Seq::<T>::empty());
            lemma_merged_with_empty(rest_r);
            lemma_merged_with_empty(run_r.skip(right_index + 1));
            assert(done + rest_r =~= done.push(x) + run_r.skip(right_index + 1));
        }
        right_index += 1;
        a_index += 1;
    }

    proof {
        let out = arr@.subrange(p as int, r + 1);
        assert(run_l.take(left_size as int) =~= run_l);
        assert(run_r.take(right_size as int) =~= run_r);
        assert(start.subrange(p as int, r + 1) =~= run_l + run_r);
        vstd::seq_lib::lemma_multiset_commutative(run_l, run_r);
        assert(arr@.subrange(0, p as int) =~= start.subrange(0, p as int));
        assert(arr@.subrange(r + 1, arr@.len() as int) =~= start.subrange(
            r + 1,
            start.len() as int,
        ));
        if operators_follow_comparison::<T>() {
            assert(run_l.skip(left_size as int) =~= Seq::<T>::empty());
            assert(run_r.skip(right_size as int) =~= Seq::<T>::empty());
            assert(out + Seq::<T>::empty() =~= out);
        }
        if total_order::<T>() && sorted(run_l) && sorted(run_r) {
            lemma_merged_sorted(run_l, run_r);
        }
    }
    arr
}

} // verus!
