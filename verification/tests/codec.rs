//! The alphabet codec on known values.

use tagid::codec::AlphabetCodec;
use tagid::codec::Codec;

#[test]
fn test_encode_value() {
    let codec = AlphabetCodec::default();
    assert_eq!(codec.encode(23), "BA".to_string());
    assert_eq!(codec.encode(529), "BAA".to_string());
    assert_eq!(codec.encode(12167), "BAAA".to_string());
}

#[test]
fn test_decode_value() {
    let codec = AlphabetCodec::default();
    assert_eq!(codec.decode("BA").unwrap(), 23);
    assert_eq!(codec.decode("ABA").unwrap(), 23);
    assert_eq!(codec.decode("BAA").unwrap(), 529);
    assert_eq!(codec.decode("BAB").unwrap(), 530);
    assert_eq!(codec.decode("BAAA").unwrap(), 12167);
    assert_eq!(codec.decode("HAPK").unwrap(), 85477);
    assert_eq!(codec.decode("HPJD").unwrap(), 92233);
}

#[test]
fn test_encode_zero_and_one() {
    let codec = AlphabetCodec::default();
    assert_eq!(codec.encode(0), "A".to_string());
    assert_eq!(codec.encode(1), "B".to_string());
    assert_eq!(codec.encode(22), "Z".to_string());
}

#[test]
fn test_decode_empty_is_zero() {
    let codec = AlphabetCodec::default();
    assert_eq!(codec.decode("").unwrap(), 0);
    assert_eq!(codec.decode("AAAA").unwrap(), 0);
}

#[test]
fn test_decode_rejects_foreign_character() {
    let codec = AlphabetCodec::default();
    assert!(codec.decode("AB-C").is_err());
    assert!(codec.decode("abc").is_err());
    assert!(codec.decode("AB0").is_err());
}

#[test]
fn test_decode_rejects_overflow() {
    let codec = AlphabetCodec::default();
    // 23^14 already exceeds the 64-bit signed range.
    assert!(codec.decode("BAAAAAAAAAAAAAA").is_err());
}

#[test]
fn test_codec_round_trip_samples() {
    let codec = AlphabetCodec::default();
    for n in [0i64, 1, 22, 23, 529, 12167, 99999, 279840, 1_000_000_007] {
        let encoded = codec.encode(n);
        assert_eq!(codec.decode(&encoded).unwrap(), n);
    }
}

#[test]
fn test_alphabet_lookups() {
    let alphabet = tagid::alphabet::Alphabet::new("ABCDEF");
    assert_eq!(alphabet.base, 6);
    assert_eq!(alphabet.value_of(2), 'C');
    assert_eq!(alphabet.index_of('C'), 2);
    assert_eq!(alphabet.try_index_of('F'), Some(5));
    assert_eq!(alphabet.try_index_of('G'), None);
}
