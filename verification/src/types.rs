//! The named widths, and the conversions between 256 and 512 bits.
use crate::buint::arith::modulus;
use crate::buint::convert::resized;
use crate::bint::BInt;
use crate::buint::BUint;
use crate::errors::TryFromIntError;
use vstd::prelude::*;
use vstd::std_specs::convert::{FromSpecImpl, TryFromSpecImpl};

verus! {

/// 128-bit unsigned integer type.
pub type U128 = BUint<2>;

/// 128-bit signed integer type.
pub type I128 = BInt<2>;

/// 256-bit unsigned integer type.
pub type U256 = BUint<4>;

/// 256-bit signed integer type.
pub type I256 = BInt<4>;

/// 512-bit unsigned integer type.
pub type U512 = BUint<8>;

/// 512-bit signed integer type.
pub type I512 = BInt<8>;

/// 1024-bit unsigned integer type.
pub type U1024 = BUint<16>;

/// 1024-bit signed integer type.
pub type I1024 = BInt<16>;

/// 2048-bit unsigned integer type.
pub type U2048 = BUint<32>;

/// 2048-bit signed integer type.
pub type I2048 = BInt<32>;

/// 4096-bit unsigned integer type.
pub type U4096 = BUint<64>;

/// 4096-bit signed integer type.
pub type I4096 = BInt<64>;

/// 8192-bit unsigned integer type.
pub type U8192 = BUint<128>;

/// 8192-bit signed integer type.
pub type I8192 = BInt<128>;

impl From<BUint<4>> for BUint<8> {
    /// The same value at 512 bits.
    fn from(value: BUint<4>) -> (r: Self) {
        let r = value.widen::<8>();
        proof {
            r.lemma_of_digits();
        }
        r
    }
}

impl FromSpecImpl<BUint<4>> for BUint<8> {
    open spec fn obeys_from_spec() -> bool {
        true
    }

    open spec fn from_spec(value: BUint<4>) -> Self {
        Self::of_digits(resized(value@, 8))
    }
}

impl TryFrom<BUint<8>> for BUint<4> {
    type Error = TryFromIntError;

    /// The same value at 256 bits, or an error where it does not fit.
    fn try_from(value: BUint<8>) -> (r: Result<Self, TryFromIntError>) {
        let r = value.try_narrow::<4>();
        proof {
            match r {
                Ok(v) => {
                    v.lemma_of_digits();
                    assert(r == narrowed_512(value));
                },
                Err(e) => {
                    assert(e == TryFromIntError);
                    assert(r == narrowed_512(value));
                },
            }
        }
        r
    }
}

impl TryFromSpecImpl<BUint<8>> for BUint<4> {
    open spec fn obeys_try_from_spec() -> bool {
        true
    }

    open spec fn try_from_spec(value: BUint<8>) -> Result<Self, TryFromIntError> {
        narrowed_512(value)
    }
}

/// A 512-bit value at 256 bits: the same value, or an error where it does
/// not fit.
pub open spec fn narrowed_512(value: BUint<8>) -> Result<BUint<4>, TryFromIntError> {
    if value.value() < modulus(4) {
        Ok(BUint::<4>::of_digits(resized(value@, 4)))
    } else {
        Err(TryFromIntError)
    }
}

} // verus!
