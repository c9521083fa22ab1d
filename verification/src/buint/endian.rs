//! The value as bytes, least or most significant byte first.
use crate::buint::bits::seq_byte;
use crate::buint::{BUint, MAX_DIGITS};
use crate::digit::digit_byte;
use vstd::prelude::*;

verus! {

/// Byte `k` of a number given as bytes, least significant first; zero beyond
/// the bytes given.
pub open spec fn le_byte_at(bytes: Seq<u8>, k: int) -> u8 {
    if k < bytes.len() {
        bytes[k]
    } else {
        0
    }
}

/// Byte `k` of a number given as bytes, most significant first; zero beyond
/// the bytes given.
pub open spec fn be_byte_at(bytes: Seq<u8>, k: int) -> u8 {
    if k < bytes.len() {
        bytes[bytes.len() - 1 - k]
    } else {
        0
    }
}

/// The digit made of eight bytes, least significant first.
pub fn digit_from_bytes(b: [u8; 8]) -> (d: u64)
    ensures
        forall|k: int| 0 <= k < 8 ==> #[trigger] digit_byte(d, k) == b@[k],
{
    let b0 = b[0] as u64;
    let b1 = b[1] as u64;
    let b2 = b[2] as u64;
    let b3 = b[3] as u64;
    let b4 = b[4] as u64;
    let b5 = b[5] as u64;
    let b6 = b[6] as u64;
    let b7 = b[7] as u64;
    let d = b0 | (b1 << 8) | (b2 << 16) | (b3 << 24) | (b4 << 32) | (b5 << 40) | (b6 << 48) | (b7
        << 56);
    assert((d >> 0) & 0xff == b0 && (d >> 8) & 0xff == b1 && (d >> 16) & 0xff == b2 && (d >> 24)
        & 0xff == b3 && (d >> 32) & 0xff == b4 && (d >> 40) & 0xff == b5 && (d >> 48) & 0xff == b6
        && (d >> 56) & 0xff == b7) by (bit_vector)
        requires
            d == b0 | (b1 << 8) | (b2 << 16) | (b3 << 24) | (b4 << 32) | (b5 << 40) | (b6 << 48)
                | (b7 << 56),
            b0 < 256,
            b1 < 256,
            b2 < 256,
            b3 < 256,
            b4 < 256,
            b5 < 256,
            b6 < 256,
            b7 < 256,
    ;
    assert forall|k: int| 0 <= k < 8 implies #[trigger] digit_byte(d, k) == b@[k] by {
        assert(k == 0 || k == 1 || k == 2 || k == 3 || k == 4 || k == 5 || k == 6 || k == 7);
    }
    d
}

/// Byte `k` of a digit, counted from the least significant.
pub fn byte_of_digit(d: u64, k: usize) -> (r: u8)
    requires
        k < 8,
    ensures
        r == digit_byte(d, k as int),
{
    let s: u64 = 8 * (k as u64);
    assert((d >> s) & 0xff <= 0xff) by (bit_vector);
    ((d >> s) & 0xff) as u8
}

impl<const N: usize> BUint<N> {
    /// The bytes of the value, least significant first.
    pub fn to_le_bytes(&self) -> (out: Vec<u8>)
        requires
            Self::width_ok(),
        ensures
            out@.len() == 8 * N,
            forall|k: int| 0 <= k < 8 * N ==> out@[k] == seq_byte(self@, k),
    {
        let mut out: Vec<u8> = Vec::new();
        let mut k: usize = 0;
        while k < 8 * N
            invariant
                N <= MAX_DIGITS,
                k <= 8 * N,
                out@.len() == k,
                forall|m: int| 0 <= m < k ==> out@[m] == seq_byte(self@, m),
            decreases 8 * N - k,
        {
            out.push(byte_of_digit(self.digits[k / 8], k % 8));
            k += 1;
        }
        out
    }

    /// The bytes of the value, most significant first.
    pub fn to_be_bytes(&self) -> (out: Vec<u8>)
        requires
            Self::width_ok(),
        ensures
            out@.len() == 8 * N,
            forall|k: int| 0 <= k < 8 * N ==> out@[k] == seq_byte(self@, 8 * N - 1 - k),
    {
        let mut out: Vec<u8> = Vec::new();
        let mut k: usize = 0;
        while k < 8 * N
            invariant
                N <= MAX_DIGITS,
                k <= 8 * N,
                out@.len() == k,
                forall|m: int| 0 <= m < k ==> out@[m] == seq_byte(self@, 8 * N - 1 - m),
            decreases 8 * N - k,
        {
            let from = 8 * N - 1 - k;
            out.push(byte_of_digit(self.digits[from / 8], from % 8));
            k += 1;
        }
        out
    }

    /// The value of the bytes, least significant first, or `None` where a
    /// byte beyond the width is not zero. Bytes that the slice lacks are
    /// zero.
    pub fn from_le_slice(bytes: &[u8]) -> (r: Option<Self>)
        requires
            Self::width_ok(),
        ensures
            r is Some <==> forall|k: int| 8 * N <= k < bytes@.len() ==> bytes@[k] == 0,
            r is Some ==> forall|k: int|
                0 <= k < 8 * N ==> seq_byte(r->0@, k) == le_byte_at(bytes@, k),
    {
        let mut k: usize = 8 * N;
        while k < bytes.len()
            invariant
                8 * N <= k,
                forall|m: int| 8 * N <= m < k && m < bytes@.len() ==> bytes@[m] == 0,
            decreases bytes@.len() - k,
        {
            if bytes[k] != 0 {
                return None;
            }
            k += 1;
        }
        let mut out = Self::zero();
        let mut i: usize = 0;
        while i < N
            invariant
                N <= MAX_DIGITS,
                i <= N,
                forall|m: int| 0 <= m < 8 * i ==> seq_byte(out@, m) == le_byte_at(bytes@, m),
            decreases N - i,
        {
            let mut b: [u8; 8] = [0; 8];
            let mut j: usize = 0;
            while j < 8
                invariant
                    N <= MAX_DIGITS,
                    i < N,
                    j <= 8,
                    forall|m: int| 0 <= m < j ==> b@[m] == le_byte_at(bytes@, 8 * i + m),
                decreases 8 - j,
            {
                let at = 8 * i + j;
                let ghost before = b@;
                let v = if at < bytes.len() {
                    bytes[at]
                } else {
                    0
                };
                b[j] = v;
                assert(b@ == before.update(j as int, v));
                j += 1;
            }
            let d = digit_from_bytes(b);
            let ghost before = out@;
            out.digits[i] = d;
            proof {
                assert(out@ == before.update(i as int, d));
                assert forall|m: int| 0 <= m < 8 * (i + 1) implies seq_byte(out@, m) == le_byte_at(
                    bytes@,
                    m,
                ) by {
                    if m < 8 * i {
                        assert(seq_byte(out@, m) == seq_byte(before, m));
                    } else {
                        assert(digit_byte(d, m % 8) == b@[m % 8]);
                    }
                }
            }
            i += 1;
        }
        Some(out)
    }

    /// The value of the bytes, most significant first, or `None` where a
    /// byte beyond the width is not zero. Bytes that the slice lacks are
    /// zero.
    pub fn from_be_slice(bytes: &[u8]) -> (r: Option<Self>)
        requires
            Self::width_ok(),
        ensures
            r is Some <==> forall|k: int|
                8 * N <= k < bytes@.len() ==> #[trigger] be_byte_at(bytes@, k) == 0,
            r is Some ==> forall|k: int|
                0 <= k < 8 * N ==> seq_byte(r->0@, k) == be_byte_at(bytes@, k),
    {
        let len = bytes.len();
        let mut k: usize = 8 * N;
        while k < len
            invariant
                8 * N <= k,
                len == bytes@.len(),
                forall|m: int| 8 * N <= m < k && m < len ==> #[trigger] be_byte_at(bytes@, m) == 0,
            decreases len - k,
        {
            if bytes[len - 1 - k] != 0 {
                assert(be_byte_at(bytes@, k as int) != 0);
                return None;
            }
            k += 1;
        }
        let mut out = Self::zero();
        let mut i: usize = 0;
        while i < N
            invariant
                N <= MAX_DIGITS,
                i <= N,
                len == bytes@.len(),
                forall|m: int| 0 <= m < 8 * i ==> seq_byte(out@, m) == be_byte_at(bytes@, m),
            decreases N - i,
        {
            let mut b: [u8; 8] = [0; 8];
            let mut j: usize = 0;
            while j < 8
                invariant
                    N <= MAX_DIGITS,
                    i < N,
                    j <= 8,
                    len == bytes@.len(),
                    forall|m: int| 0 <= m < j ==> b@[m] == be_byte_at(bytes@, 8 * i + m),
                decreases 8 - j,
            {
                let at = 8 * i + j;
                let ghost before = b@;
                let v = if at < len {
                    bytes[len - 1 - at]
                } else {
                    0
                };
                b[j] = v;
                assert(b@ == before.update(j as int, v));
                j += 1;
            }
            let d = digit_from_bytes(b);
            let ghost before = out@;
            out.digits[i] = d;
            proof {
                assert(out@ == before.update(i as int, d));
                assert forall|m: int| 0 <= m < 8 * (i + 1) implies seq_byte(out@, m) == be_byte_at(
                    bytes@,
                    m,
                ) by {
                    if m < 8 * i {
                        assert(seq_byte(out@, m) == seq_byte(before, m));
                    } else {
                        assert(digit_byte(d, m % 8) == b@[m % 8]);
                    }
                }
            }
            i += 1;
        }
        Some(out)
    }
}

} // verus!
