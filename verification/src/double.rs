//! Doubles. The library holds a double as the numeral that stands on the
//! wire, and decides from the bits of the number which numeral that is; the
//! digits themselves are written by the caller.

use crate::decimal::PLUS;
use crate::encode::push_bytes;
use crate::scalar::RespDouble;
use crate::text::is_text;
use vstd::prelude::*;
use vstd::utf8::encode_utf8;

verus! {

/// The sign bit of a double.
pub const SIGN_BIT: u64 = 0x8000_0000_0000_0000;

/// The bits of a double without its sign.
pub const MAGNITUDE_BITS: u64 = 0x7fff_ffff_ffff_ffff;

/// The bits of positive infinity; a magnitude above them is not a number.
pub const INFINITY: u64 = 0x7ff0_0000_0000_0000;

/// The bits of `1e8`, above which a double is written with an exponent.
pub const THRESHOLD: u64 = 0x4197_d784_0000_0000;

/// The bits of the double without its sign. Of two doubles that are
/// numbers, the one of greater magnitude has the greater bits.
pub open spec fn magnitude(bits: u64) -> u64 {
    bits & MAGNITUDE_BITS
}

/// The double is not a number.
pub open spec fn is_nan(bits: u64) -> bool {
    magnitude(bits) > INFINITY
}

/// The double is less than zero. Negative zero is not, nor is what is not
/// a number.
pub open spec fn is_negative(bits: u64) -> bool {
    bits & SIGN_BIT != 0 && 0 < magnitude(bits) <= INFINITY
}

/// The magnitude of the double is greater than `1e8`. Both infinities are
/// so; what is not a number is not.
pub open spec fn is_large(bits: u64) -> bool {
    THRESHOLD < magnitude(bits) <= INFINITY
}

/// The numeral of the double with the bits `bits`, whose plain decimal
/// form is `plain` and whose exponential form, sign always shown, is
/// `exponential`: the exponential form where the magnitude is above `1e8`;
/// else the plain form, with a `+` before it unless the double is less than
/// zero.
pub open spec fn numeral(bits: u64, plain: Seq<u8>, exponential: Seq<u8>) -> Seq<u8> {
    if is_large(bits) {
        exponential
    } else if is_negative(bits) {
        plain
    } else {
        seq![PLUS] + plain
    }
}

/// Tells whether the double with the bits `bits` is less than zero.
pub fn negative(bits: u64) -> (yes: bool)
    ensures
        yes == is_negative(bits),
{
    let m = bits & MAGNITUDE_BITS;
    bits & SIGN_BIT != 0 && 0 < m && m <= INFINITY
}

/// Tells whether the magnitude of the double with the bits `bits` is
/// greater than `1e8`.
pub fn large(bits: u64) -> (yes: bool)
    ensures
        yes == is_large(bits),
{
    let m = bits & MAGNITUDE_BITS;
    THRESHOLD < m && m <= INFINITY
}

impl RespDouble {
    /// The double with the bits `bits`, given its two written forms: the
    /// plain decimal one and the exponential one with its sign. Nothing is
    /// made where the numeral would hold a carriage return or a line feed.
    pub fn from_parts(bits: u64, plain: &str, exponential: &str) -> (made: Option<RespDouble>)
        ensures
            made is Some <==> is_text(
                numeral(bits, encode_utf8(plain@), encode_utf8(exponential@)),
            ),
            made is Some ==> made->0@ == numeral(
                bits,
                encode_utf8(plain@),
                encode_utf8(exponential@),
            ),
    {
        let mut text: Vec<u8> = Vec::new();
        if large(bits) {
            push_bytes(&mut text, exponential.as_bytes());
        } else {
            if !negative(bits) {
                text.push(PLUS);
            }
            push_bytes(&mut text, plain.as_bytes());
        }
        assert(text@ =~= numeral(bits, encode_utf8(plain@), encode_utf8(exponential@)));
        RespDouble::from_utf8(text)
    }
}

} // verus!
