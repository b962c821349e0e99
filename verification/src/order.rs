//! The order on keys that decides where an entry goes, and equality on values.
//!
//! A tree calls `>=` on its keys and `==` on its values. For the built-in types `vstd` says
//! what these return; for a type of a user it may not. The contracts of the tree therefore
//! speak of the answers that a call may give, and of the one answer it gives where `vstd`
//! fixes it.

use vstd::prelude::*;
use vstd::std_specs::cmp::PartialEqSpec;
use vstd::std_specs::cmp::PartialOrdIs;
use vstd::std_specs::cmp::PartialOrdSpec;

verus! {

/// `vstd` fixes what comparisons on `K` return.
pub open spec fn compares_as_specified<K: PartialOrd>() -> bool {
    K::obeys_partial_cmp_spec()
}

/// `vstd` fixes what `==` on `V` returns.
pub open spec fn equality_as_specified<V: PartialEq>() -> bool {
    V::obeys_eq_spec()
}

/// `a` equals `b` as `==` on `V` sees it.
pub open spec fn same_value<V: PartialEq>(a: V, b: V) -> bool {
    a.eq_spec(&b)
}

/// `a` is greater than or equal to `b`: an entry with key `a` goes to the right of `b`.
pub open spec fn at_least<K: PartialOrd>(a: K, b: K) -> bool {
    a.is_ge(&b)
}

/// `==` on `V`, asked whether `a` equals `b`, may answer `answer`.
pub open spec fn may_equal<V: PartialEq>(a: V, b: V, answer: bool) -> bool {
    call_ensures(V::eq, (&a, &b), answer)
}

/// `>=` on `K`, asked whether `key` is at least `at`, may answer `answer`.
pub open spec fn may_go_right<K: PartialOrd>(key: K, at: K, answer: bool) -> bool {
    call_ensures(K::ge, (&key, &at), answer)
}

/// Where `vstd` fixes `==` on `V`, the only answer it may give is whether the two are the
/// same value.
pub proof fn lemma_equal_is_fixed<V: PartialEq>(a: V, b: V, answer: bool)
    requires
        equality_as_specified::<V>(),
        may_equal(a, b, answer),
    ensures
        answer == same_value(a, b),
{
}

/// Where `vstd` fixes comparisons on `K`, the only answer `>=` may give is whether the
/// first key is at least the second.
pub proof fn lemma_turn_is_fixed<K: PartialOrd>(key: K, at: K, answer: bool)
    requires
        compares_as_specified::<K>(),
        may_go_right(key, at, answer),
    ensures
        answer == at_least(key, at),
{
}

/// Any two keys compare one way or the other, and the comparison chains.
pub open spec fn total_order<K: PartialOrd>() -> bool {
    &&& forall|a: K, b: K| #[trigger] at_least(a, b) || at_least(b, a)
    &&& forall|a: K, b: K, c: K|
        #[trigger] at_least(a, b) && #[trigger] at_least(b, c) ==> at_least(a, c)
}

/// The built-in integers are totally ordered, and `vstd` fixes their comparisons.
pub proof fn lemma_integers_are_totally_ordered()
    ensures
        total_order::<u8>() && compares_as_specified::<u8>(),
        total_order::<u16>() && compares_as_specified::<u16>(),
        total_order::<u32>() && compares_as_specified::<u32>(),
        total_order::<u64>() && compares_as_specified::<u64>(),
        total_order::<u128>() && compares_as_specified::<u128>(),
        total_order::<usize>() && compares_as_specified::<usize>(),
        total_order::<i8>() && compares_as_specified::<i8>(),
        total_order::<i16>() && compares_as_specified::<i16>(),
        total_order::<i32>() && compares_as_specified::<i32>(),
        total_order::<i64>() && compares_as_specified::<i64>(),
        total_order::<i128>() && compares_as_specified::<i128>(),
        total_order::<isize>() && compares_as_specified::<isize>(),
{
}

} // verus!
