//! Text in the radixes 2 to 36: the digits `0` to `9` and then the letters,
//! most significant first.
use crate::buint::arith::modulus;
use crate::buint::compare::Relation;
use crate::buint::BUint;
use crate::errors::ParseIntError;
use crate::model::lemma_value_bound;
use vstd::prelude::*;
use vstd::string::StringSliceAdditionalSpecFns;
use vstd::utf8::encode_utf8;

verus! {

/// The value of the ASCII character `c` as a digit, if it is one: `0` to `9`
/// stand for themselves, the letters of either case for 10 to 35.
pub open spec fn char_digit(c: u8) -> Option<nat> {
    if 48 <= c <= 57 {
        Some((c - 48) as nat)
    } else if 97 <= c <= 122 {
        Some((c - 97 + 10) as nat)
    } else if 65 <= c <= 90 {
        Some((c - 65 + 10) as nat)
    } else {
        None
    }
}

/// Whether `c` is a digit of the radix.
pub open spec fn is_radix_digit(c: u8, radix: nat) -> bool {
    char_digit(c) is Some && char_digit(c)->0 < radix
}

/// The number that the digits `s` stand for when `seed` stands before them.
pub open spec fn text_value_from(seed: nat, s: Seq<u8>, radix: nat) -> nat
    decreases s.len(),
{
    if s.len() == 0 {
        seed
    } else {
        text_value_from(seed, s.drop_last(), radix) * radix + (match char_digit(s.last()) {
            Some(d) => d,
            None => 0,
        })
    }
}

/// The number that the digits `s` stand for in the radix, most significant
/// digit first.
pub open spec fn text_value(s: Seq<u8>, radix: nat) -> nat {
    text_value_from(0, s, radix)
}

/// The length of the longest prefix of `s` made of digits of the radix.
pub open spec fn valid_prefix_len(s: Seq<u8>, radix: nat) -> nat
    decreases s.len(),
{
    if s.len() == 0 {
        0
    } else {
        let p = valid_prefix_len(s.drop_last(), radix);
        if p == s.len() - 1 && is_radix_digit(s.last(), radix) {
            s.len()
        } else {
            p
        }
    }
}

/// What reading `s` as a number that may be `max` at most gives. The text is
/// read from the left: what is met first, a character that is no digit or a
/// number that has grown past `max`, decides the error.
pub open spec fn parse_outcome(s: Seq<u8>, radix: nat, max: nat) -> Result<nat, ParseIntError> {
    let k = valid_prefix_len(s, radix);
    let v = text_value(s.take(k as int), radix);
    if s.len() == 0 {
        Err(ParseIntError::Empty)
    } else if v > max {
        Err(ParseIntError::PosOverflow)
    } else if k < s.len() {
        Err(ParseIntError::InvalidDigit)
    } else {
        Ok(v)
    }
}

/// `s` is the text of the number `x` in the radix: digits of the radix only,
/// letters in lower case, at least one digit, and no leading zero but for
/// zero itself.
pub open spec fn is_text_of(s: Seq<u8>, radix: nat, x: nat) -> bool {
    &&& s.len() > 0
    &&& forall|i: int| 0 <= i < s.len() ==> is_radix_digit(#[trigger] s[i], radix) && !(65 <= s[i] <= 90)
    &&& text_value(s, radix) == x
    &&& (s.len() > 1 ==> s[0] != 48)
}

/// The digits that a buffer holds, least significant first, put behind the
/// number `high`.
pub open spec fn joined(high: nat, buf: Seq<u8>, radix: nat) -> nat
    decreases buf.len(),
{
    if buf.len() == 0 {
        high
    } else {
        joined(
            high * radix + (match char_digit(buf.last()) {
                Some(d) => d,
                None => 0,
            }),
            buf.drop_last(),
            radix,
        )
    }
}

/// A text made of digits only is its own longest prefix of digits.
pub proof fn lemma_valid_prefix_all(s: Seq<u8>, radix: nat)
    requires
        forall|i: int| 0 <= i < s.len() ==> is_radix_digit(#[trigger] s[i], radix),
    ensures
        valid_prefix_len(s, radix) == s.len(),
    decreases s.len(),
{
    if s.len() > 0 {
        lemma_valid_prefix_all(s.drop_last(), radix);
    }
}

/// The longest prefix of digits ends at the first character that is no
/// digit.
pub proof fn lemma_valid_prefix_stops(s: Seq<u8>, radix: nat, k: int)
    requires
        0 <= k < s.len(),
        forall|i: int| 0 <= i < k ==> is_radix_digit(#[trigger] s[i], radix),
        !is_radix_digit(s[k], radix),
    ensures
        valid_prefix_len(s, radix) == k,
    decreases s.len(),
{
    if s.len() - 1 == k {
        lemma_valid_prefix_all(s.drop_last(), radix);
    } else {
        lemma_valid_prefix_stops(s.drop_last(), radix, k);
    }
}

/// The longest prefix of digits is made of digits, and the character behind
/// it, if there is one, is no digit.
pub proof fn lemma_valid_prefix_props(s: Seq<u8>, radix: nat)
    ensures
        valid_prefix_len(s, radix) <= s.len(),
        forall|j: int|
            0 <= j < valid_prefix_len(s, radix) ==> is_radix_digit(#[trigger] s[j], radix),
        valid_prefix_len(s, radix) < s.len() ==> !is_radix_digit(
            s[valid_prefix_len(s, radix) as int],
            radix,
        ),
    decreases s.len(),
{
    if s.len() > 0 {
        let t = s.drop_last();
        lemma_valid_prefix_props(t, radix);
        let p = valid_prefix_len(t, radix);
        assert forall|j: int| 0 <= j < valid_prefix_len(s, radix) implies is_radix_digit(
            #[trigger] s[j],
            radix,
        ) by {
            if j < t.len() {
                assert(t[j] == s[j]);
            }
        }
        if p < t.len() {
            assert(t[p as int] == s[p as int]);
        }
    }
}

/// A longer text of digits does not stand for a smaller number.
pub proof fn lemma_text_value_grows(s: Seq<u8>, radix: nat, i: int)
    requires
        radix >= 1,
        0 <= i <= s.len(),
    ensures
        text_value(s.take(i), radix) <= text_value(s, radix),
    decreases s.len() - i,
{
    if i == s.len() {
        assert(s.take(i) =~= s);
    } else {
        lemma_text_value_grows(s, radix, i + 1);
        assert(s.take(i + 1).drop_last() =~= s.take(i));
        let v = text_value(s.take(i), radix);
        assert(v * radix >= v) by (nonlinear_arith)
            requires
                radix >= 1,
        ;
    }
}

/// `r` is what reading `s` as a number that may be `max` at most gives.
pub open spec fn is_parse_up_to<const N: usize>(
    r: Result<BUint<N>, ParseIntError>,
    s: Seq<u8>,
    radix: nat,
    max: nat,
) -> bool {
    match r {
        Ok(v) => parse_outcome(s, radix, max) == Ok::<nat, ParseIntError>(v.value()),
        Err(e) => parse_outcome(s, radix, max) == Err::<nat, ParseIntError>(e),
    }
}

/// `r` is what reading `s` as a number of `N` digits gives.
pub open spec fn is_parse_of<const N: usize>(
    r: Result<BUint<N>, ParseIntError>,
    s: Seq<u8>,
    radix: nat,
) -> bool {
    is_parse_up_to(r, s, radix, (modulus(N as nat) - 1) as nat)
}

/// Reading the text of a value gives the value back.
pub proof fn lemma_parse_of_text<const N: usize>(
    x: BUint<N>,
    s: Seq<u8>,
    radix: nat,
    r: Result<BUint<N>, ParseIntError>,
)
    requires
        is_text_of(s, radix, x.value()),
        is_parse_of(r, s, radix),
    ensures
        r == Ok::<BUint<N>, ParseIntError>(x),
{
    lemma_valid_prefix_all(s, radix);
    assert(s.take(s.len() as int) =~= s);
    lemma_value_bound(x@);
    match r {
        Ok(v) => {
            crate::buint::compare::lemma_equal_by_value(v, x);
        },
        Err(e) => {},
    }
}

/// The ASCII character of the digit `d`, letters in lower case.
pub fn digit_char(d: u8) -> (c: u8)
    requires
        d < 36,
    ensures
        char_digit(c) == Some(d as nat),
        !(65 <= c <= 90),
        c == 48 <==> d == 0,
{
    if d < 10 {
        48 + d
    } else {
        97 + (d - 10)
    }
}

/// The value of the ASCII character `c` as a digit of the radix, or `None`
/// where it is none.
pub fn digit_of_char(c: u8, radix: u32) -> (r: Option<u8>)
    requires
        2 <= radix <= 36,
    ensures
        r is Some <==> is_radix_digit(c, radix as nat),
        r is Some ==> char_digit(c) == Some(r->0 as nat),
{
    let d: u8 = if 48 <= c && c <= 57 {
        c - 48
    } else if 97 <= c && c <= 122 {
        c - 97 + 10
    } else if 65 <= c && c <= 90 {
        c - 65 + 10
    } else {
        return None;
    };
    if (d as u32) < radix {
        Some(d)
    } else {
        None
    }
}

/// `String::from_utf8` of std, on ASCII characters. Such bytes are valid
/// UTF-8, so the call succeeds, and the bytes of the string it gives are the
/// bytes it was given.
#[verifier::external_body]
fn ascii_string(bytes: Vec<u8>) -> (s: String)
    requires
        forall|i: int| 0 <= i < bytes@.len() ==> bytes@[i] < 128,
    ensures
        encode_utf8(s@) == bytes@,
{
    match String::from_utf8(bytes) {
        Ok(s) => s,
        Err(_) => String::new(),
    }
}

impl<const N: usize> BUint<N> {
    /// The text of the value in the radix.
    pub fn to_str_radix(&self, radix: u32) -> (out: String)
        requires
            Self::width_ok(),
            N > 0,
            2 <= radix <= 36,
        ensures
            is_text_of(encode_utf8(out@), radix as nat, self.value()),
    {
        let bytes = self.to_radix_bytes(radix);
        proof {
            assert forall|i: int| 0 <= i < bytes@.len() implies bytes@[i] < 128 by {
                assert(is_radix_digit(bytes@[i], radix as nat));
            }
        }
        ascii_string(bytes)
    }

    /// The text of the value in the radix, as ASCII characters.
    pub fn to_radix_bytes(&self, radix: u32) -> (out: Vec<u8>)
        requires
            Self::width_ok(),
            N > 0,
            2 <= radix <= 36,
        ensures
            is_text_of(out@, radix as nat, self.value()),
    {
        let ghost rx = radix as nat;
        let big_radix = Self::from_digit(radix as u64);
        let mut buf: Vec<u8> = Vec::new();
        let mut n = *self;
        if n.is_zero() {
            buf.push(48);
            proof {
                assert(buf@.drop_last().len() == 0);
                assert(buf@.last() == 48);
                assert(text_value_from(0, buf@.drop_last(), rx) == 0);
                assert(0 * rx == 0) by (nonlinear_arith);
                assert(text_value(buf@, rx) == 0);
                assert(is_radix_digit(buf@[0], rx));
            }
            return buf;
        }
        while !n.is_zero()
            invariant
                Self::width_ok(),
                N > 0,
                rx == radix,
                2 <= radix <= 36,
                big_radix.value() == radix,
                joined(n.value(), buf@, rx) == self.value(),
                forall|i: int| 0 <= i < buf@.len() ==> is_radix_digit(#[trigger] buf@[i], rx) && !(65
                    <= buf@[i] <= 90),
                n.value() == 0 ==> buf@.len() > 0 && buf@.last() != 48,
                self.value() != 0,
            decreases n.value(),
        {
            let (q, r) = n.div_rem(big_radix);
            let d = match r.to_exp_type() {
                Some(d) => d,
                None => 0,
            };
            let c = digit_char(d as u8);
            let ghost before = buf@;
            buf.push(c);
            proof {
                assert(buf@.drop_last() =~= before);
                assert(q.value() * rx + d == n.value());
                if q.value() == 0 {
                    assert(0 * rx == 0) by (nonlinear_arith);
                } else {
                    assert(q.value() * rx > q.value()) by (nonlinear_arith)
                        requires
                            q.value() > 0,
                            rx >= 2,
                    ;
                }
            }
            n = q;
        }
        let mut out: Vec<u8> = Vec::new();
        let mut j: usize = buf.len();
        proof {
            assert(buf@.take(buf@.len() as int) =~= buf@);
        }
        while j > 0
            invariant
                j <= buf@.len(),
                buf@.len() > 0,
                out@.len() == buf@.len() - j,
                joined(text_value(out@, rx), buf@.take(j as int), rx) == self.value(),
                forall|i: int| 0 <= i < buf@.len() ==> is_radix_digit(#[trigger] buf@[i], rx) && !(65
                    <= buf@[i] <= 90),
                forall|i: int| 0 <= i < out@.len() ==> is_radix_digit(#[trigger] out@[i], rx) && !(65
                    <= out@[i] <= 90),
                out@.len() > 0 ==> out@[0] == buf@.last(),
            decreases j,
        {
            j -= 1;
            let ghost before = out@;
            out.push(buf[j]);
            proof {
                assert(out@.drop_last() =~= before);
                assert(buf@.take(j + 1).drop_last() =~= buf@.take(j as int));
                assert(buf@.take(j + 1).last() == buf@[j as int]);
            }
        }
        proof {
            assert(buf@.take(0).len() == 0);
        }
        out
    }

    /// Reads a number from its text in the radix, given as ASCII characters.
    pub fn from_radix_bytes(src: &[u8], radix: u32) -> (r: Result<Self, ParseIntError>)
        requires
            N > 0,
            2 <= radix <= 36,
        ensures
            is_parse_of(r, src@, radix as nat),
    {
        let max = Self::max_value();
        Self::from_radix_bytes_up_to(src, radix, &max)
    }

    /// Reads a number that may be `max` at most from its text in the radix,
    /// given as ASCII characters. A larger number is an overflow.
    pub fn from_radix_bytes_up_to(src: &[u8], radix: u32, max: &Self) -> (r: Result<
        Self,
        ParseIntError,
    >)
        requires
            N > 0,
            2 <= radix <= 36,
        ensures
            is_parse_up_to(r, src@, radix as nat, max.value()),
    {
        let ghost rx = radix as nat;
        if src.len() == 0 {
            return Err(ParseIntError::Empty);
        }
        let big_radix = Self::from_digit(radix as u64);
        let mut acc = Self::zero();
        let mut i: usize = 0;
        proof {
            assert(src@.take(0).len() == 0);
        }
        while i < src.len()
            invariant
                N > 0,
                i <= src@.len(),
                src@.len() > 0,
                rx == radix,
                2 <= radix <= 36,
                big_radix.value() == radix,
                forall|j: int| 0 <= j < i ==> is_radix_digit(#[trigger] src@[j], rx),
                acc.value() == text_value(src@.take(i as int), rx),
                acc.value() <= max.value(),
            decreases src@.len() - i,
        {
            let ghost prefix = src@.take(i as int);
            let ghost longer = src@.take(i + 1);
            proof {
                lemma_value_bound(acc@);
                lemma_value_bound(max@);
                assert(longer.drop_last() =~= prefix);
            }
            let d = match digit_of_char(src[i], radix) {
                Some(d) => d,
                None => {
                    proof {
                        lemma_valid_prefix_stops(src@, rx, i as int);
                    }
                    return Err(ParseIntError::InvalidDigit);
                },
            };
            proof {
                let k = valid_prefix_len(src@, rx);
                lemma_valid_prefix_props(src@, rx);
                if k < i + 1 {
                    assert(is_radix_digit(src@[k as int], rx));
                }
                assert(k >= i + 1);
                lemma_text_value_grows(src@.take(k as int), rx, i + 1);
                assert(src@.take(k as int).take(i + 1) =~= longer);
            }
            let shifted = match acc.checked_mul(big_radix) {
                Some(v) => v,
                None => {
                    return Err(ParseIntError::PosOverflow);
                },
            };
            let next = match shifted.checked_add(Self::from_digit(d as u64)) {
                Some(v) => v,
                None => {
                    return Err(ParseIntError::PosOverflow);
                },
            };
            if let Relation::Greater = next.compare(max) {
                return Err(ParseIntError::PosOverflow);
            }
            acc = next;
            i += 1;
        }
        proof {
            lemma_valid_prefix_all(src@, rx);
            assert(src@.take(src@.len() as int) =~= src@);
            lemma_value_bound(acc@);
        }
        Ok(acc)
    }

    /// Reads a number from its text in the radix.
    pub fn from_str_radix(src: &str, radix: u32) -> (r: Result<Self, ParseIntError>)
        requires
            N > 0,
            2 <= radix <= 36,
        ensures
            is_parse_of(r, src.spec_bytes(), radix as nat),
    {
        Self::from_radix_bytes(src.as_bytes(), radix)
    }
}

} // verus!
