//! Three searches for a contiguous run of a slice with the greatest sum.

use vstd::prelude::*;

verus! {

/// The sum of `s[from..to]`; zero where the range is empty.
pub open spec fn sum(s: Seq<i32>, from: int, to: int) -> int
    decreases to - from,
{
    if to <= from {
        0
    } else {
        sum(s, from, to - 1) + s[to - 1]
    }
}

/// `value` fits in an `i32`.
pub open spec fn fits(value: int) -> bool {
    i32::MIN <= value <= i32::MAX
}

/// The sum of every non-empty run of `s` fits in an `i32`.
pub open spec fn all_sums_fit(s: Seq<i32>) -> bool {
    forall|i: int, j: int| 0 <= i <= j < s.len() ==> fits(#[trigger] sum(s, i, j + 1))
}

/// No non-empty run of `s` has a sum above `bound`.
pub open spec fn bounds_all_sums(s: Seq<i32>, bound: int) -> bool {
    forall|i: int, j: int| 0 <= i <= j < s.len() ==> #[trigger] sum(s, i, j + 1) <= bound
}

/// `best` is the greatest sum that a non-empty run of `s` has.
pub open spec fn is_max_sum(s: Seq<i32>, best: int) -> bool {
    &&& bounds_all_sums(s, best)
    &&& exists|i: int, j: int| 0 <= i <= j < s.len() && #[trigger] sum(s, i, j + 1) == best
}

/// The run `s[i..=j]` comes before or at `s[low..=high]` in the order in
/// which the exhaustive search visits runs: by start, then by end.
pub open spec fn visited_first(low: int, high: int, i: int, j: int) -> bool {
    low < i || (low == i && high <= j)
}

/// Tries every run of `arr` and returns `(low, high, sum)`: the greatest sum
/// and the bounds, both inclusive, of the first run visited that has it.
///
/// Runs are visited by start and then by end. An empty `arr` gives
/// `(0, 0, i32::MIN)`. Quadratic time.
pub fn brute_force_find_maximum_subarray(arr: &[i32]) -> (result: (usize, usize, i32))
    requires
        all_sums_fit(arr@),
    ensures
        arr@.len() == 0 ==> result == (0usize, 0usize, i32::MIN),
        arr@.len() > 0 ==> {
            &&& result.0 <= result.1 < arr@.len()
            &&& sum(arr@, result.0 as int, result.1 + 1) == result.2
            &&& bounds_all_sums(arr@, result.2 as int)
            &&& forall|i: int, j: int|
                0 <= i <= j < arr@.len() && #[trigger] sum(arr@, i, j + 1) == result.2
                    ==> visited_first(result.0 as int, result.1 as int, i, j)
        },
{
    let n = arr.len();
    let mut max_sum: i32 = i32::MIN;
    let mut left_index: usize = 0;
    let mut right_index: usize = 0;

    let mut i: usize = 0;
    while i < n
        invariant
            n == arr@.len(),
            i <= n,
            all_sums_fit(arr@),
            n > 0 ==> left_index <= right_index < n,
            n == 0 ==> left_index == 0 && right_index == 0 && max_sum == i32::MIN,
            i == 0 || sum(arr@, left_index as int, right_index + 1) == max_sum,
            i == 0 || left_index < i,
            forall|a: int, b: int| 0 <= a <= b < n && a < i ==> #[trigger] sum(arr@, a, b + 1) <= max_sum,
            forall|a: int, b: int|
                0 <= a <= b < n && a < i && #[trigger] sum(arr@, a, b + 1) == max_sum
                    ==> visited_first(left_index as int, right_index as int, a, b),
            i == 0 ==> left_index == 0 && right_index == 0 && max_sum == i32::MIN,
        decreases n - i,
    {
        let mut current_sum: i32 = 0;
        let mut j: usize = i;
        while j < n
            invariant
                n == arr@.len(),
                i <= j <= n,
                i < n,
                all_sums_fit(arr@),
                current_sum == sum(arr@, i as int, j as int),
                left_index <= right_index < n,
                visited_first(left_index as int, right_index as int, i as int, j as int),
                (i == 0 && j == 0) || sum(arr@, left_index as int, right_index + 1) == max_sum,
                i == 0 && j == 0 ==> left_index == 0 && right_index == 0 && max_sum == i32::MIN,
                forall|a: int, b: int|
                    0 <= a <= b < n && (a < i || (a == i && b < j)) ==> #[trigger] sum(
                        arr@,
                        a,
                        b + 1,
                    ) <= max_sum,
                forall|a: int, b: int|
                    0 <= a <= b < n && (a < i || (a == i && b < j)) && #[trigger] sum(
                        arr@,
                        a,
                        b + 1,
                    ) == max_sum ==> visited_first(left_index as int, right_index as int, a, b),
            decreases n - j,
        {
            assert(fits(sum(arr@, i as int, j + 1)));
            current_sum = current_sum + arr[j];
            if current_sum > max_sum {
                max_sum = current_sum;
                left_index = i;
                right_index = j;
            } else if i == 0 && j == 0 {
                assert(current_sum == i32::MIN);
            }
            j += 1;
        }
        i += 1;
    }
    (left_index, right_index, max_sum)
}

/// The greatest sum of a non-empty run of `s` that ends at position `i`: the
/// element there, together with the best run ending just before it unless
/// that run has a negative sum.
pub open spec fn best_ending_at(s: Seq<i32>, i: int) -> int
    decreases i,
{
    if i <= 0 {
        s[0] as int
    } else if best_ending_at(s, i - 1) < 0 {
        s[i] as int
    } else {
        best_ending_at(s, i - 1) + s[i]
    }
}

/// The position after the last one below `n` at which the best run ending
/// there has a negative sum; zero if there is none.
pub open spec fn restart_point(s: Seq<i32>, n: int) -> int
    decreases n,
{
    if n <= 0 {
        0
    } else if best_ending_at(s, n - 1) < 0 {
        n
    } else {
        restart_point(s, n - 1)
    }
}

/// `best_ending_at` is what its name says: no run ending at `i` has a
/// greater sum, and one has this sum.
pub proof fn lemma_best_ending_at(s: Seq<i32>, i: int)
    requires
        0 <= i < s.len(),
    ensures
        forall|k: int| 0 <= k <= i ==> #[trigger] sum(s, k, i + 1) <= best_ending_at(s, i),
        exists|k: int| 0 <= k <= i && #[trigger] sum(s, k, i + 1) == best_ending_at(s, i),
    decreases i,
{
    assert(sum(s, i, i + 1) == s[i]) by {
        assert(sum(s, i, i) == 0);
    }
    if i == 0 {
        assert(sum(s, 0, 1) == best_ending_at(s, 0));
    } else {
        lemma_best_ending_at(s, i - 1);
        let before = best_ending_at(s, i - 1);
        assert forall|k: int| 0 <= k <= i implies #[trigger] sum(s, k, i + 1) <= best_ending_at(
            s,
            i,
        ) by {
            if k < i {
                assert(sum(s, k, i - 1 + 1) <= before);
            }
        }
        if before < 0 {
            assert(sum(s, i, i + 1) == best_ending_at(s, i));
        } else {
            let k = choose|k: int| 0 <= k <= i - 1 && #[trigger] sum(s, k, i - 1 + 1) == before;
            assert(sum(s, k, i + 1) == best_ending_at(s, i));
        }
    }
}

/// One pass over `arr` that keeps a running sum and starts it afresh
/// whenever it drops below zero. Returns `(left, right, sum)`.
///
/// `sum` is the greatest sum of a non-empty run of `arr`, and `right` the
/// first position at which a run with that sum ends. `left` is the position
/// at which the running sum was last started afresh; it is the start of a
/// run with the greatest sum only if the running sum did not drop below zero
/// after `right`. An empty `arr` gives `(0, 0, i32::MIN)`.
///
/// The running sum must not exceed `i32::MAX`.
pub fn linear_find_maximum_subarray(arr: &[i32]) -> (result: (usize, usize, i32))
    requires
        forall|i: int| 0 <= i < arr@.len() ==> #[trigger] best_ending_at(arr@, i) <= i32::MAX,
    ensures
        arr@.len() == 0 ==> result == (0usize, 0usize, i32::MIN),
        arr@.len() > 0 ==> {
            &&& is_max_sum(arr@, result.2 as int)
            &&& result.1 < arr@.len()
            &&& best_ending_at(arr@, result.1 as int) == result.2
            &&& forall|j: int| 0 <= j < result.1 ==> #[trigger] best_ending_at(arr@, j) < result.2
        },
        result.0 == restart_point(arr@, arr@.len() as int),
{
    let n = arr.len();
    let mut max_sum: i32 = i32::MIN;
    let mut left_index: usize = 0;
    let mut right_index: usize = 0;
    let mut current_sum: i32 = 0;

    let mut i: usize = 0;
    while i < n
        invariant
            n == arr@.len(),
            i <= n,
            forall|k: int| 0 <= k < arr@.len() ==> #[trigger] best_ending_at(arr@, k) <= i32::MAX,
            current_sum == if i == 0 || best_ending_at(arr@, i - 1) < 0 {
                0
            } else {
                best_ending_at(arr@, i - 1)
            },
            left_index == restart_point(arr@, i as int),
            i == 0 ==> max_sum == i32::MIN && right_index == 0,
            i > 0 ==> right_index < i && best_ending_at(arr@, right_index as int) == max_sum,
            forall|j: int| 0 <= j < i ==> #[trigger] best_ending_at(arr@, j) <= max_sum,
            forall|j: int| 0 <= j < right_index ==> #[trigger] best_ending_at(arr@, j) < max_sum,
        decreases n - i,
    {
        assert(best_ending_at(arr@, i as int) == current_sum + arr@[i as int]);
        current_sum = current_sum + arr[i];
        if current_sum > max_sum {
            max_sum = current_sum;
            right_index = i;
        }
        if current_sum < 0 {
            current_sum = 0;
            left_index = i + 1;
        }
        i += 1;
    }
    proof {
        if n > 0 {
            lemma_best_ending_at(arr@, right_index as int);
            let k = choose|k: int|
                0 <= k <= right_index && #[trigger] sum(arr@, k, right_index + 1) == best_ending_at(
                    arr@,
                    right_index as int,
                );
            assert(0 <= k <= right_index < arr@.len() && sum(arr@, k, right_index + 1) == max_sum);
            assert forall|a: int, b: int| 0 <= a <= b < arr@.len() implies #[trigger] sum(
                arr@,
                a,
                b + 1,
            ) <= max_sum by {
                lemma_best_ending_at(arr@, b);
                assert(best_ending_at(arr@, b) <= max_sum);
            }
        }
    }
    (left_index, right_index, max_sum)
}

/// The greatest sum of a run `s[i..mid]` with `from <= i < mid`, and the
/// start of the shortest run that has it. Where there is no such run, or
/// none with a sum above `i32::MIN`, the pair is `(i32::MIN, mid)`.
pub open spec fn best_suffix(s: Seq<i32>, mid: int, from: int) -> (int, int)
    decreases mid - from,
{
    if from >= mid {
        (i32::MIN as int, mid)
    } else {
        let nearer = best_suffix(s, mid, from + 1);
        if sum(s, from, mid) > nearer.0 {
            (sum(s, from, mid), from)
        } else {
            nearer
        }
    }
}

/// The greatest sum of a run `s[mid..=j]` with `mid <= j < to`, and the end
/// of the shortest run that has it. Where there is no such run, or none with
/// a sum above `i32::MIN`, the pair is `(i32::MIN, mid)`.
pub open spec fn best_prefix(s: Seq<i32>, mid: int, to: int) -> (int, int)
    decreases to - mid,
{
    if to <= mid {
        (i32::MIN as int, mid)
    } else {
        let nearer = best_prefix(s, mid, to - 1);
        if sum(s, mid, to) > nearer.0 {
            (sum(s, mid, to), to - 1)
        } else {
            nearer
        }
    }
}

/// The crossing candidate at `mid`, as `(sum, low, high)`: the best run that
/// ends just before `mid` joined to the best run that starts at `mid`.
pub open spec fn crossing(s: Seq<i32>, mid: int) -> (int, int, int) {
    (
        best_suffix(s, mid, 0).0 + best_prefix(s, mid, s.len() as int).0,
        best_suffix(s, mid, 0).1,
        best_prefix(s, mid, s.len() as int).1,
    )
}

/// The sums that the search for the crossing candidate at `mid` forms fit in
/// an `i32`: those of the runs that end just before `mid`, those of the runs
/// that start at `mid`, and that of the candidate.
pub open spec fn crossing_fits(s: Seq<i32>, mid: int) -> bool {
    &&& forall|i: int| 0 <= i < mid ==> fits(#[trigger] sum(s, i, mid))
    &&& forall|j: int| mid < j <= s.len() ==> fits(#[trigger] sum(s, mid, j))
    &&& fits(crossing(s, mid).0)
}

/// What the divide-and-conquer search returns, as `(sum, low, high)`.
///
/// A single element is its own answer. Otherwise the sequence is cut in the
/// middle; the answer is that of the left half if its sum is not below the
/// two others, else that of the right half if its sum is not below the two
/// others, else the crossing candidate.
pub open spec fn divided(s: Seq<i32>) -> (int, int, int)
    decreases s.len(),
{
    if s.len() <= 1 {
        (s[0] as int, 0, 0)
    } else {
        let mid = s.len() as int / 2;
        let left = divided(s.take(mid));
        let right = divided(s.skip(mid));
        let cross = crossing(s, mid);
        if left.0 >= right.0 && left.0 >= cross.0 {
            left
        } else if right.0 >= left.0 && right.0 >= cross.0 {
            (right.0, right.1 + mid, right.2 + mid)
        } else {
            cross
        }
    }
}

/// Every sum that the divide-and-conquer search forms fits in an `i32`.
pub open spec fn divided_fits(s: Seq<i32>) -> bool
    decreases s.len(),
{
    s.len() <= 1 || {
        let mid = s.len() as int / 2;
        &&& divided_fits(s.take(mid))
        &&& divided_fits(s.skip(mid))
        &&& crossing_fits(s, mid)
    }
}

/// A run is the sum of its two parts.
pub proof fn lemma_sum_split(s: Seq<i32>, i: int, k: int, j: int)
    requires
        i <= k <= j,
    ensures
        sum(s, i, j) == sum(s, i, k) + sum(s, k, j),
    decreases j - k,
{
    if k < j {
        lemma_sum_split(s, i, k, j - 1);
    }
}

/// The sums of the runs of a front part, and of a back part, are those of
/// the same runs of the whole.
pub proof fn lemma_sum_of_part(s: Seq<i32>, mid: int, i: int, j: int)
    requires
        0 <= mid <= s.len(),
        0 <= i,
    ensures
        j <= mid ==> sum(s.take(mid), i, j) == sum(s, i, j),
        j <= s.len() - mid ==> sum(s.skip(mid), i, j) == sum(s, i + mid, j + mid),
    decreases j - i,
{
    if i < j {
        lemma_sum_of_part(s, mid, i, j - 1);
    }
}

/// `best_suffix` bounds the sums it ranges over, is at least `i32::MIN`, and
/// names a run with its sum unless that sum is `i32::MIN`.
pub proof fn lemma_best_suffix(s: Seq<i32>, mid: int, from: int)
    requires
        0 <= from <= mid <= s.len(),
    ensures
        forall|i: int| from <= i < mid ==> #[trigger] sum(s, i, mid) <= best_suffix(s, mid, from).0,
        best_suffix(s, mid, from).0 >= i32::MIN,
        from < mid ==> exists|i: int|
            from <= i < mid && #[trigger] sum(s, i, mid) == best_suffix(s, mid, from).0,
        best_suffix(s, mid, from).0 > i32::MIN ==> from <= best_suffix(s, mid, from).1 < mid
            && sum(s, best_suffix(s, mid, from).1, mid) == best_suffix(s, mid, from).0,
        best_suffix(s, mid, from).0 == i32::MIN ==> best_suffix(s, mid, from).1 == mid,
    decreases mid - from,
{
    if from < mid {
        lemma_best_suffix(s, mid, from + 1);
        let nearer = best_suffix(s, mid, from + 1);
        if from + 1 == mid {
            assert(sum(s, from, mid) == s[from]) by {
                assert(sum(s, from, from) == 0);
            }
            assert(sum(s, from, mid) == best_suffix(s, mid, from).0);
        } else if sum(s, from, mid) > nearer.0 {
            assert(sum(s, from, mid) == best_suffix(s, mid, from).0);
        } else {
            let i = choose|i: int| from + 1 <= i < mid && #[trigger] sum(s, i, mid) == nearer.0;
            assert(sum(s, i, mid) == best_suffix(s, mid, from).0);
        }
    }
}

/// `best_prefix` bounds the sums it ranges over and names a run with its
/// sum.
pub proof fn lemma_best_prefix(s: Seq<i32>, mid: int, to: int)
    requires
        0 <= mid <= to <= s.len(),
    ensures
        forall|j: int| mid < j <= to ==> #[trigger] sum(s, mid, j) <= best_prefix(s, mid, to).0,
        best_prefix(s, mid, to).0 >= i32::MIN,
        mid < to ==> mid <= best_prefix(s, mid, to).1 < to && sum(
            s,
            mid,
            best_prefix(s, mid, to).1 + 1,
        ) == best_prefix(s, mid, to).0,
        mid == to ==> best_prefix(s, mid, to) == (i32::MIN as int, mid),
    decreases to - mid,
{
    if mid < to {
        lemma_best_prefix(s, mid, to - 1);
        if mid + 1 == to {
            assert(sum(s, mid, to) == s[mid]) by {
                assert(sum(s, mid, mid) == 0);
            }
        }
    }
}

/// The divide-and-conquer answer names a run of the sequence, carries the
/// sum of that run, and no run has a greater sum.
pub proof fn lemma_divided_is_max(s: Seq<i32>)
    requires
        s.len() >= 1,
    ensures
        0 <= divided(s).1 <= divided(s).2 < s.len(),
        sum(s, divided(s).1, divided(s).2 + 1) == divided(s).0,
        is_max_sum(s, divided(s).0),
    decreases s.len(),
{
    if s.len() == 1 {
        assert(sum(s, 0, 1) == s[0]) by {
            assert(sum(s, 0, 0) == 0);
        }
        assert forall|i: int, j: int| 0 <= i <= j < s.len() implies #[trigger] sum(s, i, j + 1)
            <= divided(s).0 by {}
    } else {
        let n = s.len() as int;
        let mid = n / 2;
        let front = s.take(mid);
        let back = s.skip(mid);
        let left = divided(front);
        let right = divided(back);
        let cross = crossing(s, mid);
        lemma_divided_is_max(front);
        lemma_divided_is_max(back);
        lemma_best_suffix(s, mid, 0);
        lemma_best_prefix(s, mid, n);
        lemma_sum_of_part(s, mid, left.1, left.2 + 1);
        lemma_sum_of_part(s, mid, right.1, right.2 + 1);
        // The left half holds the run that ends just before the middle with
        // the greatest sum, the right half the one that starts there.
        let near = choose|i: int| 0 <= i < mid && #[trigger] sum(s, i, mid) == best_suffix(s, mid, 0).0;
        lemma_sum_of_part(s, mid, near, mid);
        assert(sum(front, near, mid - 1 + 1) <= left.0);
        let far = best_prefix(s, mid, n).1;
        lemma_sum_of_part(s, mid, 0, far + 1 - mid);
        assert(sum(back, 0, far - mid + 1) <= right.0);
        let best = divided(s).0;
        assert(best >= left.0 && best >= right.0 && best >= cross.0);
        if !(left.0 >= right.0 && left.0 >= cross.0) && !(right.0 >= left.0 && right.0 >= cross.0) {
            assert(best_suffix(s, mid, 0).0 > i32::MIN);
            lemma_sum_split(s, cross.1, mid, cross.2 + 1);
        }
        assert forall|i: int, j: int| 0 <= i <= j < n implies #[trigger] sum(s, i, j + 1)
            <= best by {
            if j < mid {
                lemma_sum_of_part(s, mid, i, j + 1);
                assert(sum(front, i, j + 1) <= left.0);
            } else if i >= mid {
                lemma_sum_of_part(s, mid, i - mid, j + 1 - mid);
                assert(sum(back, i - mid, j - mid + 1) <= right.0);
            } else {
                lemma_sum_split(s, i, mid, j + 1);
                assert(sum(s, i, mid) <= best_suffix(s, mid, 0).0);
                assert(sum(s, mid, j + 1) <= best_prefix(s, mid, n).0);
            }
        }
    }
    let answer = divided(s);
    assert(0 <= answer.1 <= answer.2 < s.len() && sum(s, answer.1, answer.2 + 1) == answer.0);
}

/// Finds the crossing candidate at `mid`: scans from `mid` to the left for
/// the best run that ends just before `mid`, and to the right for the best
/// run that starts there. Returns `(sum, low, high)`.
fn find_maximum_crossing_subarray(arr: &[i32], mid: usize) -> (result: (i32, usize, usize))
    requires
        mid <= arr@.len(),
        crossing_fits(arr@, mid as int),
    ensures
        (result.0 as int, result.1 as int, result.2 as int) == crossing(arr@, mid as int),
{
    let n = arr.len();
    let mut left_sum: i32 = i32::MIN;
    let mut left_index: usize = mid;
    let mut sum_so_far: i32 = 0;
    let mut i: usize = mid;
    while i > 0
        invariant
            i <= mid <= n,
            n == arr@.len(),
            crossing_fits(arr@, mid as int),
            sum_so_far == sum(arr@, i as int, mid as int),
            (left_sum as int, left_index as int) == best_suffix(arr@, mid as int, i as int),
        decreases i,
    {
        i -= 1;
        proof {
            lemma_sum_split(arr@, i as int, i + 1, mid as int);
            assert(sum(arr@, i as int, i + 1) == arr@[i as int]) by {
                assert(sum(arr@, i as int, i as int) == 0);
            }
            assert(fits(sum(arr@, i as int, mid as int)));
        }
        sum_so_far = sum_so_far + arr[i];
        if sum_so_far > left_sum {
            left_sum = sum_so_far;
            left_index = i;
        }
    }

    let mut right_sum: i32 = i32::MIN;
    let mut right_index: usize = mid;
    sum_so_far = 0;
    let mut j: usize = mid;
    while j < n
        invariant
            mid <= j <= n,
            n == arr@.len(),
            crossing_fits(arr@, mid as int),
            sum_so_far == sum(arr@, mid as int, j as int),
            (right_sum as int, right_index as int) == best_prefix(arr@, mid as int, j as int),
        decreases n - j,
    {
        assert(fits(sum(arr@, mid as int, j + 1)));
        sum_so_far = sum_so_far + arr[j];
        if sum_so_far > right_sum {
            right_sum = sum_so_far;
            right_index = j;
        }
        j += 1;
    }

    (left_sum + right_sum, left_index, right_index)
}

/// Finds a run of `arr` with the greatest sum by divide and conquer.
/// Returns `(sum, low, high)`, the bounds inclusive.
///
/// The slice is cut in the middle and both halves are searched in the same
/// way; among the two answers and the best run that crosses the middle, the
/// left answer wins a tie, then the right one.
///
/// `arr` must not be empty, and the sums that the search forms must fit in
/// an `i32`.
pub fn divide_conquer_find_maximum_subarray(arr: &[i32]) -> (result: (i32, usize, usize))
    requires
        arr@.len() >= 1,
        divided_fits(arr@),
    ensures
        (result.0 as int, result.1 as int, result.2 as int) == divided(arr@),
        result.1 <= result.2 < arr@.len(),
        sum(arr@, result.1 as int, result.2 + 1) == result.0,
        is_max_sum(arr@, result.0 as int),
    decreases arr@.len(),
{
    proof {
        lemma_divided_is_max(arr@);
    }
    let n = arr.len();
    if n == 1 {
        return (arr[0], 0, 0);
    }
    let mid = n / 2;
    let (front, back) = arr.split_at(mid);
    assert(front@ == arr@.take(mid as int));
    assert(back@ == arr@.skip(mid as int));
    let (left_sum, left_low, left_high) = divide_conquer_find_maximum_subarray(front);
    let (right_sum, right_low, right_high) = divide_conquer_find_maximum_subarray(back);
    let (cross_sum, cross_low, cross_high) = find_maximum_crossing_subarray(arr, mid);

    if left_sum >= right_sum && left_sum >= cross_sum {
        (left_sum, left_low, left_high)
    } else if right_sum >= left_sum && right_sum >= cross_sum {
        (right_sum, right_low + mid, right_high + mid)
    } else {
        (cross_sum, cross_low, cross_high)
    }
}

} // verus!
