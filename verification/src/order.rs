//! Comparison of values of a generic type: what `<`, `>` and `<=` mean, when
//! they order the type totally, and what it means for a sequence to be
//! sorted.

use core::cmp::Ordering;
use vstd::prelude::*;
use vstd::std_specs::cmp::PartialOrdSpec;

verus! {

/// `a < b` as the comparison of `T` defines it.
pub open spec fn lt<T: PartialOrd>(a: T, b: T) -> bool {
    a.partial_cmp_spec(&b) == Some(Ordering::Less)
}

/// `a > b` as the comparison of `T` defines it.
pub open spec fn gt<T: PartialOrd>(a: T, b: T) -> bool {
    a.partial_cmp_spec(&b) == Some(Ordering::Greater)
}

/// `a <= b` as the comparison of `T` defines it.
pub open spec fn le<T: PartialOrd>(a: T, b: T) -> bool {
    a.partial_cmp_spec(&b) == Some(Ordering::Less) || a.partial_cmp_spec(&b) == Some(
        Ordering::Equal,
    )
}

/// The comparison operators of `T` do what its comparison defines.
pub open spec fn operators_follow_comparison<T: PartialOrd>() -> bool {
    T::obeys_partial_cmp_spec()
}

/// The comparison operators of `T` do what its comparison defines, and that
/// comparison is a total preorder: any two values are comparable, `<=` is
/// transitive, and `<` and `>` are the strict parts of `<=`.
pub open spec fn total_order<T: PartialOrd>() -> bool {
    &&& T::obeys_partial_cmp_spec()
    &&& forall|a: T, b: T| #[trigger] le(a, b) || le(b, a)
    &&& forall|a: T, b: T, c: T| #[trigger] le(a, b) && #[trigger] le(b, c) ==> le(a, c)
    &&& forall|a: T, b: T| #[trigger] gt(a, b) <==> !le(a, b)
    &&& forall|a: T, b: T| #[trigger] lt(a, b) <==> !le(b, a)
}

/// Among the first `n` elements, each is `<=` every later one.
pub open spec fn sorted_prefix<T: PartialOrd>(s: Seq<T>, n: int) -> bool {
    forall|i: int, j: int| 0 <= i <= j < n && j < s.len() ==> le(#[trigger] s[i], #[trigger] s[j])
}

/// Each element is `<=` every later one.
pub open spec fn sorted<T: PartialOrd>(s: Seq<T>) -> bool {
    sorted_prefix(s, s.len() as int)
}

/// The comparison of `i32` is a total order, so a sort of `i32` values
/// gives a sorted result.
pub proof fn law_i32_total_order()
    ensures
        total_order::<i32>(),
{
}

} // verus!
