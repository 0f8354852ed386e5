use crate::order::{le, totally_ordered};
use std::hash::Hash;
use vstd::prelude::*;
use vstd::std_specs::hash::obeys_key_model;

verus! {

/// A fixed-width type of natural numbers: what the sieve counts in.
///
/// A value stands for a number between 0 and `limit()`. The type's own order,
/// equality and hashing go by that number.
pub trait Natural: Copy + Ord + Hash {
    /// The number that a value stands for.
    spec fn value(self) -> nat;

    /// The largest number that the type can hold.
    spec fn limit() -> nat;

    /// The type's order and equality are those of the numbers, no value lies
    /// beyond the limit, and the type can key a hash map.
    proof fn lemma_natural()
        ensures
            totally_ordered::<Self>(),
            obeys_key_model::<Self>(),
            forall|a: Self| #[trigger] a.value() <= Self::limit(),
            forall|a: Self, b: Self| #[trigger] le(a, b) <==> a.value() <= b.value(),
            forall|a: Self, b: Self| a.value() == b.value() ==> a == b,
    ;

    /// The number one.
    fn one() -> (r: Self)
        ensures
            r.value() == 1,
    ;

    /// The sum of two numbers, or `None` where it lies beyond the limit.
    fn checked_sum(self, rhs: Self) -> (r: Option<Self>)
        ensures
            match r {
                Some(sum) => sum.value() == self.value() + rhs.value(),
                None => self.value() + rhs.value() > Self::limit(),
            },
    ;
}

/// The numbers that a sequence of values stands for, place by place.
pub open spec fn values<N: Natural>(s: Seq<N>) -> Seq<nat> {
    s.map_values(|x: N| x.value())
}

/// `<u8 as num::One>::one()`: the multiplicative identity of `u8`, the
/// number 1.
#[verifier::external_body]
fn one_u8() -> (r: u8)
    ensures
        r == 1,
{
    <u8 as num::One>::one()
}

/// `<u32 as num::One>::one()`: the multiplicative identity of `u32`, the
/// number 1.
#[verifier::external_body]
fn one_u32() -> (r: u32)
    ensures
        r == 1,
{
    <u32 as num::One>::one()
}

/// `<u64 as num::One>::one()`: the multiplicative identity of `u64`, the
/// number 1.
#[verifier::external_body]
fn one_u64() -> (r: u64)
    ensures
        r == 1,
{
    <u64 as num::One>::one()
}

impl Natural for u8 {
    open spec fn value(self) -> nat {
        self as nat
    }

    open spec fn limit() -> nat {
        u8::MAX as nat
    }

    proof fn lemma_natural() {
        broadcast use vstd::laws_cmp::group_laws_cmp;
        broadcast use vstd::std_specs::hash::group_hash_axioms;
    }

    fn one() -> (r: u8) {
        one_u8()
    }

    fn checked_sum(self, rhs: u8) -> (r: Option<u8>) {
        self.checked_add(rhs)
    }
}

impl Natural for u32 {
    open spec fn value(self) -> nat {
        self as nat
    }

    open spec fn limit() -> nat {
        u32::MAX as nat
    }

    proof fn lemma_natural() {
        broadcast use vstd::laws_cmp::group_laws_cmp;
        broadcast use vstd::std_specs::hash::group_hash_axioms;
    }

    fn one() -> (r: u32) {
        one_u32()
    }

    fn checked_sum(self, rhs: u32) -> (r: Option<u32>) {
        self.checked_add(rhs)
    }
}

impl Natural for u64 {
    open spec fn value(self) -> nat {
        self as nat
    }

    open spec fn limit() -> nat {
        u64::MAX as nat
    }

    proof fn lemma_natural() {
        broadcast use vstd::laws_cmp::group_laws_cmp;
        broadcast use vstd::std_specs::hash::group_hash_axioms;
    }

    fn one() -> (r: u64) {
        one_u64()
    }

    fn checked_sum(self, rhs: u64) -> (r: Option<u64>) {
        self.checked_add(rhs)
    }
}

} // verus!
