//! Equality and order: by value, decided at the highest digit that differs.
use crate::buint::BUint;
use crate::model::{lemma_value_injective, lemma_value_less};
use core::cmp::Ordering;
use vstd::prelude::*;
use vstd::std_specs::cmp::{PartialEqSpecImpl, PartialOrdSpecImpl};

verus! {

/// How one value stands to another.
#[derive(Clone, Copy, Debug)]
pub enum Relation {
    Less,
    Equal,
    Greater,
}

/// How the number `a` stands to the number `b`.
pub open spec fn relation_of(a: nat, b: nat) -> Relation {
    if a < b {
        Relation::Less
    } else if a == b {
        Relation::Equal
    } else {
        Relation::Greater
    }
}

impl<const N: usize> BUint<N> {
    /// Compares the values, from the most significant digit down, stopping at
    /// the first digit that differs.
    pub fn compare(&self, other: &Self) -> (r: Relation)
        ensures
            r == relation_of(self.value(), other.value()),
            r is Equal <==> self@ == other@,
    {
        let mut i: usize = N;
        while i > 0
            invariant
                i <= N,
                forall|j: int| i <= j < N ==> self@[j] == other@[j],
            decreases i,
        {
            i -= 1;
            let a = self.digits[i];
            let b = other.digits[i];
            if a < b {
                proof {
                    lemma_value_less(self@, other@, i as int);
                }
                return Relation::Less;
            }
            if a > b {
                proof {
                    lemma_value_less(other@, self@, i as int);
                }
                return Relation::Greater;
            }
        }
        assert(self@ =~= other@);
        Relation::Equal
    }

    /// Whether `self` is below `other`.
    pub fn lt(&self, other: &Self) -> (r: bool)
        ensures
            r == (self.value() < other.value()),
    {
        match self.compare(other) {
            Relation::Less => true,
            _ => false,
        }
    }

    /// Whether `self` is not above `other`.
    pub fn le(&self, other: &Self) -> (r: bool)
        ensures
            r == (self.value() <= other.value()),
    {
        match self.compare(other) {
            Relation::Greater => false,
            _ => true,
        }
    }

    /// The order of `self` and `other` by value.
    pub fn cmp(&self, other: &Self) -> (r: Ordering)
        ensures
            r == Ordering::Less <==> self.value() < other.value(),
            r == Ordering::Equal <==> self.value() == other.value(),
            r == Ordering::Greater <==> self.value() > other.value(),
    {
        match self.compare(other) {
            Relation::Less => Ordering::Less,
            Relation::Equal => Ordering::Equal,
            Relation::Greater => Ordering::Greater,
        }
    }

    /// The smaller of `self` and `other`.
    pub fn min(&self, other: &Self) -> (r: Self)
        ensures
            r == (if self.value() <= other.value() {
                *self
            } else {
                *other
            }),
    {
        match self.compare(other) {
            Relation::Greater => *other,
            _ => *self,
        }
    }

    /// The larger of `self` and `other`.
    pub fn max(&self, other: &Self) -> (r: Self)
        ensures
            r == (if self.value() >= other.value() {
                *self
            } else {
                *other
            }),
    {
        match self.compare(other) {
            Relation::Less => *other,
            _ => *self,
        }
    }
}

impl<const N: usize> PartialEq for BUint<N> {
    fn eq(&self, other: &Self) -> (r: bool) {
        let r = match self.compare(other) {
            Relation::Equal => true,
            _ => false,
        };
        proof {
            if self@ == other@ {
                assert(self.digits =~= other.digits);
            }
        }
        r
    }
}

impl<const N: usize> PartialEqSpecImpl for BUint<N> {
    open spec fn obeys_eq_spec() -> bool {
        true
    }

    open spec fn eq_spec(&self, other: &Self) -> bool {
        self@ == other@
    }
}

impl<const N: usize> Eq for BUint<N> {

}

impl<const N: usize> PartialOrd for BUint<N> {
    fn partial_cmp(&self, other: &Self) -> (r: Option<Ordering>) {
        Some(self.cmp(other))
    }
}

impl<const N: usize> PartialOrdSpecImpl for BUint<N> {
    open spec fn obeys_partial_cmp_spec() -> bool {
        true
    }

    open spec fn partial_cmp_spec(&self, other: &Self) -> Option<Ordering> {
        if self.value() < other.value() {
            Some(Ordering::Less)
        } else if self.value() == other.value() {
            Some(Ordering::Equal)
        } else {
            Some(Ordering::Greater)
        }
    }
}

/// Values of one width are equal exactly when they stand for the same number.
pub proof fn lemma_equal_by_value<const N: usize>(a: BUint<N>, b: BUint<N>)
    ensures
        a.value() == b.value() <==> a@ == b@,
        a@ == b@ <==> a == b,
{
    if a.value() == b.value() {
        lemma_value_injective(a@, b@);
    }
    if a@ == b@ {
        assert(a.digits =~= b.digits);
    }
}

} // verus!
