// Decoding: base62 magnitudes, signed tokens, and the failure paths.

use num_traits::ToPrimitive;
use query_curve::decode;
use query_curve::from_base62;
use query_curve::get_encoded_curve_query_function;
use query_curve::DecodeError;

#[test]
fn test_from_base62_values() {
    assert_eq!(from_base62("0").unwrap().to_u64(), Some(0));
    assert_eq!(from_base62("9").unwrap().to_u64(), Some(9));
    assert_eq!(from_base62("A").unwrap().to_u64(), Some(10));
    assert_eq!(from_base62("Z").unwrap().to_u64(), Some(35));
    assert_eq!(from_base62("a").unwrap().to_u64(), Some(36));
    assert_eq!(from_base62("z").unwrap().to_u64(), Some(61));
    assert_eq!(from_base62("10").unwrap().to_u64(), Some(62));
    assert_eq!(from_base62("fxSK").unwrap().to_u64(), Some(10000000));
    assert_eq!(from_base62("KyjA").unwrap().to_u64(), Some(5000000));
    assert_eq!(from_base62("").unwrap().to_u64(), Some(0));
}

#[test]
fn test_from_base62_rejects_foreign_character() {
    assert_eq!(
        from_base62("fx!K"),
        Err(DecodeError::InvalidCharacter { byte: b'!' })
    );
    assert_eq!(
        from_base62("-12"),
        Err(DecodeError::InvalidCharacter { byte: b'-' })
    );
}

#[test]
fn test_decode_values() {
    assert_eq!(
        decode("fxSK--KyjA-0").unwrap(),
        vec![10000000, -5000000, 0]
    );
    assert_eq!(decode("0-0-0-0").unwrap(), vec![0, 0, 0, 0]);
    assert_eq!(decode("-fxSK"), Ok(vec![-10000000]));
    assert_eq!(decode(""), Ok(vec![]));
}

#[test]
fn test_decode_rejects_foreign_character() {
    assert_eq!(
        decode("fxS!K"),
        Err(DecodeError::InvalidCharacter { byte: b'!' })
    );
    assert_eq!(
        decode("fxSK fxSK"),
        Err(DecodeError::InvalidCharacter { byte: b' ' })
    );
    assert!(decode("caf\u{e9}").is_err());
}

#[test]
fn test_decode_rejects_malformed_hyphens() {
    assert_eq!(decode("--"), Err(DecodeError::MalformedToken));
    assert_eq!(decode("fxSK-"), Err(DecodeError::MalformedToken));
    assert_eq!(decode("fxSK---0"), Err(DecodeError::MalformedToken));
}

#[test]
fn test_decode_rejects_oversized_magnitude() {
    // nine z digits exceed the exactly-representable fixed-point range
    assert_eq!(decode("zzzzzzzzz"), Err(DecodeError::PrecisionLoss));
    assert_eq!(decode("0-zzzzzzzzz-0"), Err(DecodeError::PrecisionLoss));
    // the largest power of 62 still in range decodes fine
    assert_eq!(decode("100000000").unwrap(), vec![62i64.pow(8)]);
}

#[test]
fn test_query_function_absent_on_bad_encoding() {
    assert!(get_encoded_curve_query_function("fxSK-fx!K-0-0").is_none());
    assert!(get_encoded_curve_query_function("fxSK--").is_none());
    assert!(get_encoded_curve_query_function("0-zzzzzzzzz").is_none());
}
