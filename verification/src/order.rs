use std::cmp::Ordering;
use vstd::prelude::*;
use vstd::std_specs::cmp::{OrdSpec, PartialEqIs, PartialEqSpec, PartialOrdIs, PartialOrdSpec};

verus! {

/// The comparison of `T` is one that contracts can speak of: what `cmp`
/// returns is `cmp_spec`, `partial_cmp` and `==` agree with it, and it orders
/// the values of `T` totally. All integer types qualify.
pub open spec fn totally_ordered<T: Ord>() -> bool {
    vstd::laws_cmp::obeys_cmp::<T>()
}

/// `a` is ordered before `b`, or beside it.
pub open spec fn le<T: Ord>(a: T, b: T) -> bool {
    a.cmp_spec(&b) != Ordering::Greater
}

/// `a` is ordered strictly before `b`.
pub open spec fn lt<T: Ord>(a: T, b: T) -> bool {
    a.cmp_spec(&b) == Ordering::Less
}

/// `a` and `b` share a rank: neither is ordered strictly before the other.
pub open spec fn same_rank<T: Ord>(a: T, b: T) -> bool {
    a.cmp_spec(&b) == Ordering::Equal
}

/// Values of the same rank are the same value: the order tells any two
/// different values apart, as the order of the integers does.
pub open spec fn strictly_ordered<T: Ord>() -> bool {
    forall|a: T, b: T| #[trigger] same_rank(a, b) ==> a == b
}

/// What a total order gives, read from vstd's hidden definitions.
pub(crate) proof fn lemma_order_facts<T: Ord>()
    requires
        totally_ordered::<T>(),
    ensures
        T::obeys_cmp_spec(),
        T::obeys_partial_cmp_spec(),
        T::obeys_eq_spec(),
        forall|a: T, b: T| #[trigger] a.partial_cmp_spec(&b) == Some(a.cmp_spec(&b)),
        forall|a: T, b: T| #[trigger] a.eq_spec(&b) <==> same_rank(a, b),
        forall|a: T, b: T| #[trigger] lt(a, b) <==> b.cmp_spec(&a) == Ordering::Greater,
{
    reveal(vstd::laws_cmp::obeys_cmp_partial_ord);
    reveal(vstd::laws_cmp::obeys_cmp_ord);
    reveal(vstd::laws_cmp::obeys_partial_cmp_spec_properties);
    assert forall|a: T, b: T| #[trigger] lt(a, b) <==> b.cmp_spec(&a) == Ordering::Greater by {
        assert(a.partial_cmp_spec(&b) == Some(a.cmp_spec(&b)));
    }
}

/// What the comparison operators of a totally ordered type return: `<`, `<=`,
/// `>`, `>=` and `==` on `a` and `b` go by `lt`, `le` and `same_rank`.
pub proof fn lemma_operators<T: Ord>(a: T, b: T)
    requires
        totally_ordered::<T>(),
    ensures
        T::obeys_partial_cmp_spec(),
        T::obeys_eq_spec(),
        a.is_lt(&b) <==> lt(a, b),
        a.is_le(&b) <==> le(a, b),
        a.is_gt(&b) <==> lt(b, a),
        a.is_ge(&b) <==> le(b, a),
        a.is_eq(&b) <==> same_rank(a, b),
{
    lemma_order_facts::<T>();
    assert(lt(a, b) <==> b.cmp_spec(&a) == Ordering::Greater);
}

/// Every value is ordered beside itself.
pub proof fn lemma_le_reflexive<T: Ord>(a: T)
    requires
        totally_ordered::<T>(),
    ensures
        le(a, a),
        same_rank(a, a),
{
    lemma_order_facts::<T>();
    assert(lt(a, a) <==> a.cmp_spec(&a) == Ordering::Greater);
}

/// Of two values, one is ordered before or beside the other.
pub proof fn lemma_le_total<T: Ord>(a: T, b: T)
    requires
        totally_ordered::<T>(),
    ensures
        le(a, b) || le(b, a),
        lt(a, b) <==> !le(b, a),
        same_rank(a, b) <==> le(a, b) && le(b, a),
{
    lemma_order_facts::<T>();
    assert(lt(b, a) <==> a.cmp_spec(&b) == Ordering::Greater);
    reveal(vstd::laws_eq::obeys_eq_spec_properties);
    assert(b.eq_spec(&a) <==> same_rank(b, a));
}

/// The order passes along a chain.
pub proof fn lemma_le_transitive<T: Ord>(a: T, b: T, c: T)
    requires
        totally_ordered::<T>(),
        le(a, b),
        le(b, c),
    ensures
        le(a, c),
{
    lemma_order_facts::<T>();
    reveal(vstd::laws_cmp::obeys_partial_cmp_spec_properties);
    reveal(vstd::laws_eq::obeys_eq_spec_properties);
    if !le(a, c) && lt(a, b) {
        // then c comes strictly before a, and a strictly before b
        assert(a.partial_cmp_spec(&b) == Some(Ordering::Less));
        assert(c.partial_cmp_spec(&b) == Some(Ordering::Less));
    }
}

} // verus!
