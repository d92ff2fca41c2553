//! Base62 positional decoding: a string over the 62-symbol alphabet
//! `0-9A-Za-z` (digits first, then uppercase, then lowercase, case-sensitive)
//! denotes a non-negative integer, most significant digit first.

use vstd::prelude::*;

use crate::error::DecodeError;
use num_bigint::BigUint;
use vstd::string::StringSliceAdditionalSpecFns;

verus! {

/// Whether a byte is one of the 62 alphabet symbols (ASCII `0-9A-Za-z`).
pub open spec fn is_b62_byte(b: u8) -> bool {
    (48 <= b && b <= 57) || (65 <= b && b <= 90) || (97 <= b && b <= 122)
}

/// Digit value of an alphabet byte: its position in `0-9A-Za-z`.
pub open spec fn b62_digit_val(b: u8) -> nat
    recommends
        is_b62_byte(b),
{
    if 48 <= b && b <= 57 {
        (b - 48) as nat
    } else if 65 <= b && b <= 90 {
        (b - 55) as nat
    } else {
        (b - 61) as nat
    }
}

/// Value of a digit string, most significant digit first.
pub open spec fn b62_val(s: Seq<u8>) -> nat
    decreases s.len(),
{
    if s.len() == 0 {
        0
    } else {
        b62_val(s.drop_last()) * 62 + b62_digit_val(s.last())
    }
}

/// Digit value of a byte, or `None` if it is outside the alphabet.
fn digit_value(b: u8) -> (r: Option<u8>)
    ensures
        r is Some <==> is_b62_byte(b),
        r matches Some(v) ==> v == b62_digit_val(b),
{
    if 48 <= b && b <= 57 {
        Some(b - 48)
    } else if 65 <= b && b <= 90 {
        Some(b - 55)
    } else if 97 <= b && b <= 122 {
        Some(b - 61)
    } else {
        None
    }
}

#[verifier::external_type_specification]
#[verifier::external_body]
pub struct ExBigUint(BigUint);

/// The non-negative integer a `BigUint` holds.
pub uninterp spec fn big_val(b: BigUint) -> nat;

/// Relies on `<BigUint as From<u32>>::from`: the big integer with exactly
/// that value.
#[verifier::external_body]
fn big_from_u32(d: u32) -> (r: BigUint)
    ensures
        big_val(r) == d,
{
    BigUint::from(d)
}

/// Relies on `<BigUint as core::ops::Mul<u32>>::mul`: the exact product of
/// the big integer and the scalar.
#[verifier::external_body]
fn big_mul_u32(a: BigUint, m: u32) -> (r: BigUint)
    ensures
        big_val(r) == big_val(a) * m,
{
    a * m
}

/// Relies on `<BigUint as core::ops::Add<u32>>::add`: the exact sum of the
/// big integer and the scalar.
#[verifier::external_body]
fn big_add_u32(a: BigUint, d: u32) -> (r: BigUint)
    ensures
        big_val(r) == big_val(a) + d,
{
    a + d
}

/// Relies on `num_traits::ToPrimitive::to_u64` for `BigUint`: `Some` exactly
/// when the value fits in a `u64`, and then the value itself.
#[verifier::external_body]
pub(crate) fn big_to_u64(a: &BigUint) -> (r: Option<u64>)
    ensures
        r is Some <==> big_val(*a) <= u64::MAX,
        r matches Some(v) ==> v == big_val(*a),
{
    num_traits::ToPrimitive::to_u64(a)
}

/// Decodes a big-endian base62 digit string given as raw bytes.
///
/// Succeeds exactly when every byte is an alphabet symbol (the empty string
/// decodes to zero); otherwise reports the first foreign byte.
pub fn from_base62_bytes(digits: &[u8]) -> (r: Result<BigUint, DecodeError>)
    ensures
        r is Ok <==> (forall|j: int| 0 <= j < digits@.len() ==> is_b62_byte(digits@[j])),
        r matches Ok(n) ==> big_val(n) == b62_val(digits@),
        r matches Err(e) ==> exists|j: int|
            0 <= j < digits@.len() && !is_b62_byte(digits@[j]) && e == (DecodeError::InvalidCharacter { byte: digits@[j] })
                && (forall|m: int| 0 <= m < j ==> is_b62_byte(digits@[m])),
{
    let mut num = big_from_u32(0);
    let n: usize = digits.len();
    let mut i: usize = 0;
    while i < n
        invariant
            0 <= i <= n,
            n == digits@.len(),
            forall|j: int| 0 <= j < i ==> is_b62_byte(digits@[j]),
            big_val(num) == b62_val(digits@.take(i as int)),
        decreases n - i,
    {
        let b = digits[i];
        match digit_value(b) {
            Some(dv) => {
                num = big_add_u32(big_mul_u32(num, 62), dv as u32);
                proof {
                    assert(digits@.take(i + 1).drop_last() =~= digits@.take(i as int));
                    assert(digits@.take(i + 1).last() == digits@[i as int]);
                }
            },
            None => {
                return Err(DecodeError::InvalidCharacter { byte: b });
            },
        }
        i += 1;
    }
    proof {
        assert(digits@.take(n as int) =~= digits@);
    }
    Ok(num)
}

/// Decodes a base62 string into an arbitrary-precision non-negative integer.
///
/// Succeeds exactly when every byte of the string is one of the 62 alphabet
/// symbols; the empty string decodes to zero. On the first foreign byte it
/// fails with [`DecodeError::InvalidCharacter`] naming that byte, and no
/// partial result is returned.
pub fn from_base62(s: &str) -> (r: Result<BigUint, DecodeError>)
    ensures
        r is Ok <==> (forall|j: int|
            0 <= j < s.spec_bytes().len() ==> is_b62_byte(s.spec_bytes()[j])),
        r matches Ok(n) ==> big_val(n) == b62_val(s.spec_bytes()),
        r matches Err(e) ==> exists|j: int|
            0 <= j < s.spec_bytes().len() && !is_b62_byte(s.spec_bytes()[j]) && e == (DecodeError::InvalidCharacter {
                byte: s.spec_bytes()[j],
            }) && (forall|m: int| 0 <= m < j ==> is_b62_byte(s.spec_bytes()[m])),
{
    from_base62_bytes(s.as_bytes())
}

} // verus!
