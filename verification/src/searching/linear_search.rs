//! Linear search.

use vstd::prelude::*;
use vstd::std_specs::cmp::PartialEqSpec;

verus! {

/// `target` does not occur among the first `n` elements of `s`.
pub open spec fn absent_before<T: PartialEq>(s: Seq<T>, n: int, target: T) -> bool {
    forall|k: int| 0 <= k < n && k < s.len() ==> !(#[trigger] s[k]).eq_spec(&target)
}

/// Finds the first position of `arr` whose element equals `target`.
///
/// The result is always a position of `arr`. Where `==` on `T` decides the
/// equality that `T` declares, it is the first position that holds
/// `target`, and `None` exactly if no position does.
pub fn linear_search<T: PartialEq>(arr: &[T], target: T) -> (result: Option<usize>)
    ensures
        match result {
            Some(index) => index < arr@.len() && (T::obeys_eq_spec() ==> arr@[index as int].eq_spec(
                &target,
            ) && absent_before(arr@, index as int, target)),
            None => T::obeys_eq_spec() ==> absent_before(arr@, arr@.len() as int, target),
        },
{
    let n = arr.len();
    let mut index: usize = 0;
    while index < n
        invariant
            n == arr@.len(),
            index <= n,
            T::obeys_eq_spec() ==> absent_before(arr@, index as int, target),
        decreases n - index,
    {
        if arr[index] == target {
            return Some(index);
        }
        index += 1;
    }
    None
}

} // verus!
