//! Text of signed values: a minus sign where the value is negative, then the
//! text of the magnitude.
use crate::bint::arith::magnitude;
use crate::bint::{BInt, half_modulus};
use crate::buint::radix::{is_text_of, parse_outcome};
use crate::buint::{BUint, MAX_DIGITS};
use crate::errors::ParseIntError;
use vstd::prelude::*;
use vstd::slice::slice_subrange;

verus! {

/// The ASCII minus sign.
pub const MINUS: u8 = 45;

/// `s` is the text of the integer `x` in the radix: the text of its
/// magnitude, behind a minus sign where `x` is negative.
pub open spec fn is_signed_text_of(s: Seq<u8>, radix: nat, x: int) -> bool {
    if x < 0 {
        s.len() > 0 && s[0] == MINUS && is_text_of(s.skip(1), radix, magnitude(x))
    } else {
        is_text_of(s, radix, magnitude(x))
    }
}

/// What reading `s` as a signed number of `n` digits of 64 bits gives. Behind
/// a minus sign the magnitude may be `2^(64 n - 1)` at most, else one less;
/// the text is read from the left, and what is met first decides the error.
pub open spec fn signed_parse_outcome(s: Seq<u8>, radix: nat, n: nat) -> Result<
    int,
    ParseIntError,
> {
    if s.len() == 0 {
        Err(ParseIntError::Empty)
    } else if s[0] == MINUS {
        if s.len() == 1 {
            Err(ParseIntError::InvalidDigit)
        } else {
            match parse_outcome(s.skip(1), radix, half_modulus(n)) {
                Ok(m) => Ok(-(m as int)),
                Err(ParseIntError::PosOverflow) => Err(ParseIntError::NegOverflow),
                Err(e) => Err(e),
            }
        }
    } else {
        match parse_outcome(s, radix, (half_modulus(n) - 1) as nat) {
            Ok(m) => Ok(m as int),
            Err(e) => Err(e),
        }
    }
}

/// `r` is what reading `s` as a signed number of `N` digits gives.
pub open spec fn is_signed_parse_of<const N: usize>(
    r: Result<BInt<N>, ParseIntError>,
    s: Seq<u8>,
    radix: nat,
) -> bool {
    match r {
        Ok(v) => signed_parse_outcome(s, radix, N as nat) == Ok::<int, ParseIntError>(v@),
        Err(e) => signed_parse_outcome(s, radix, N as nat) == Err::<int, ParseIntError>(e),
    }
}

/// Reading the text of a signed value gives the value back.
pub proof fn lemma_signed_parse_of_text<const N: usize>(
    x: BInt<N>,
    s: Seq<u8>,
    radix: nat,
    r: Result<BInt<N>, ParseIntError>,
)
    requires
        N > 0,
        is_signed_text_of(s, radix, x@),
        is_signed_parse_of(r, s, radix),
    ensures
        r == Ok::<BInt<N>, ParseIntError>(x),
{
    x.lemma_range();
    let t = if x@ < 0 {
        s.skip(1)
    } else {
        s
    };
    crate::buint::radix::lemma_valid_prefix_all(t, radix);
    assert(t.take(t.len() as int) =~= t);
    assert(is_text_of(t, radix, magnitude(x@)));
    if x@ >= 0 {
        // the text of a number begins with a digit, which is no minus sign
        assert(crate::buint::radix::is_radix_digit(s[0], radix));
    }
    match r {
        Ok(v) => {
            crate::bint::convert::lemma_signed_equal(v, x);
        },
        Err(e) => {},
    }
}

impl<const N: usize> BInt<N> {
    /// The text of the value in the radix, as ASCII characters.
    pub fn to_radix_bytes(&self, radix: u32) -> (out: Vec<u8>)
        requires
            N > 0,
            N <= MAX_DIGITS,
            2 <= radix <= 36,
        ensures
            is_signed_text_of(out@, radix as nat, self@),
    {
        let digits = self.unsigned_abs().to_radix_bytes(radix);
        if !self.is_negative() {
            return digits;
        }
        let mut out: Vec<u8> = Vec::new();
        out.push(MINUS);
        let mut i: usize = 0;
        while i < digits.len()
            invariant
                i <= digits@.len(),
                out@.len() == i + 1,
                out@[0] == MINUS,
                forall|j: int| 0 <= j < i ==> out@[j + 1] == digits@[j],
            decreases digits@.len() - i,
        {
            out.push(digits[i]);
            i += 1;
        }
        proof {
            assert(out@.skip(1) =~= digits@);
        }
        out
    }

    /// Reads a signed number from its text in the radix, given as ASCII
    /// characters.
    pub fn from_radix_bytes(src: &[u8], radix: u32) -> (r: Result<Self, ParseIntError>)
        requires
            N > 0,
            2 <= radix <= 36,
        ensures
            is_signed_parse_of(r, src@, radix as nat),
    {
        if src.len() == 0 {
            return Err(ParseIntError::Empty);
        }
        if src[0] == MINUS {
            if src.len() == 1 {
                return Err(ParseIntError::InvalidDigit);
            }
            let rest = slice_subrange(src, 1, src.len());
            proof {
                assert(rest@ =~= src@.skip(1));
            }
            let lowest = Self::min_value();
            proof {
                lowest.lemma_range();
            }
            match BUint::<N>::from_radix_bytes_up_to(rest, radix, &lowest.bits) {
                Ok(mag) => match Self::from_magnitude(mag, true) {
                    Some(v) => Ok(v),
                    None => Err(ParseIntError::NegOverflow),
                },
                Err(ParseIntError::PosOverflow) => Err(ParseIntError::NegOverflow),
                Err(e) => Err(e),
            }
        } else {
            let highest = Self::max_value();
            proof {
                highest.lemma_range();
            }
            match BUint::<N>::from_radix_bytes_up_to(src, radix, &highest.bits) {
                Ok(mag) => match Self::from_magnitude(mag, false) {
                    Some(v) => Ok(v),
                    None => Err(ParseIntError::PosOverflow),
                },
                Err(e) => Err(e),
            }
        }
    }
}

} // verus!
