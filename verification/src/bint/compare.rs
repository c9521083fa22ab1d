//! Equality of signed values: that of their bits.
use crate::bint::BInt;
use vstd::prelude::*;
use vstd::std_specs::cmp::PartialEqSpecImpl;

verus! {

impl<const N: usize> PartialEq for BInt<N> {
    fn eq(&self, other: &Self) -> (r: bool) {
        let r = self.bits == other.bits;
        proof {
            if self.bits@ == other.bits@ {
                assert(self.bits.digits =~= other.bits.digits);
            }
        }
        r
    }
}

impl<const N: usize> PartialEqSpecImpl for BInt<N> {
    open spec fn obeys_eq_spec() -> bool {
        true
    }

    open spec fn eq_spec(&self, other: &Self) -> bool {
        self.bits@ == other.bits@
    }
}

impl<const N: usize> Eq for BInt<N> {

}

} // verus!
