//! Round trips, tamper detection and error reporting end to end.

use tagid::prettifier::ConversionError;
use tagid::prettifier::IdPrettifier;

#[test]
fn test_round_trip_samples() {
    let prettifier = IdPrettifier::default();
    for seed in [
        0i64,
        1,
        13,
        5724,
        99999,
        100000,
        824227036833910784,
        i64::MAX,
    ] {
        let pretty = prettifier.prettify(seed);
        assert_eq!(prettifier.to_id_seed(&pretty).unwrap(), seed);
        assert!(prettifier.is_valid(&pretty));
    }
}

#[test]
fn test_round_trip_alternate_configurations() {
    let by_8 = IdPrettifier {
        parts_size: 8,
        ..IdPrettifier::default()
    };
    let plain = IdPrettifier {
        leading_zeros: false,
        ..IdPrettifier::default()
    };
    for seed in [0i64, 1, 1007, 824227036833910784, i64::MAX] {
        assert_eq!(by_8.to_id_seed(&by_8.prettify(seed)).unwrap(), seed);
        assert_eq!(plain.to_id_seed(&plain.prettify(seed)).unwrap(), seed);
    }
}

#[test]
fn test_tamper_direct_digit_rejected() {
    let prettifier = IdPrettifier::default();
    let pretty = prettifier.prettify(824227036833910784);
    assert_eq!(&pretty, "ARPJ-27036-GVQS-07849");
    // Mutate every digit of every direct segment to every other digit.
    let bytes = pretty.as_bytes();
    for i in 0..bytes.len() {
        if !bytes[i].is_ascii_digit() {
            continue;
        }
        for replacement in b'0'..=b'9' {
            if replacement == bytes[i] {
                continue;
            }
            let mut corrupted = bytes.to_vec();
            corrupted[i] = replacement;
            let corrupted = String::from_utf8(corrupted).unwrap();
            assert!(matches!(
                prettifier.to_id_seed(&corrupted),
                Err(ConversionError::InvalidId(_))
            ));
            assert!(!prettifier.is_valid(&corrupted));
        }
    }
}

#[test]
fn test_tamper_encoded_char_outside_alphabet_rejected() {
    let prettifier = IdPrettifier::default();
    let pretty = prettifier.prettify(1);
    assert_eq!(&pretty, "AAAA-00000-AAAA-00013");
    // 'I', 'O' and 'L' are left out of the alphabet on purpose.
    for corrupted in ["IAAA-00000-AAAA-00013", "AAAO-00000-AAAA-00013"] {
        assert!(matches!(
            prettifier.to_id_seed(corrupted),
            Err(ConversionError::InvalidId(_))
        ));
    }
}

#[test]
fn test_truncation_rejected() {
    let prettifier = IdPrettifier::default();
    assert!(matches!(
        prettifier.to_id_seed("ARPJ-27036-GVQS"),
        Err(ConversionError::InvalidId(_))
    ));
    assert!(matches!(
        prettifier.to_id_seed(""),
        Err(ConversionError::InvalidId(_))
    ));
    // A digit-free string passes the checksum vacuously — the Damm scan
    // skips non-digits — and only fails at integer parsing.
    assert!(matches!(
        prettifier.to_id_seed("garbage"),
        Err(ConversionError::ParseIntError(_))
    ));
}

#[test]
fn test_parse_int_error_on_oversized_digits() {
    // Segments of maximal decimal value reassemble into a digit string
    // whose checksum can be made valid, yet whose value cannot fit.
    let prettifier = IdPrettifier::default();
    // Five segments put the encoded role on the second and fourth; "BAAAA"
    // decodes to 279841, six digits, so the digit string grows to 27
    // digits.  Exactly one trailing check digit validates it, and that one
    // must fail integer parsing rather than be accepted.
    let mut hit_parse_error = false;
    for check in 0..10 {
        let candidate = format!("99999-BAAAA-99999-BAAAA-9999{}", check);
        match prettifier.to_id_seed(&candidate) {
            Err(ConversionError::ParseIntError(_)) => {
                hit_parse_error = true;
            }
            Err(ConversionError::InvalidId(_)) => {}
            Ok(_) => panic!("a 27-digit value cannot fit a 64-bit id"),
        }
    }
    assert!(hit_parse_error);
}

#[test]
fn test_error_payload_names_input() {
    let prettifier = IdPrettifier::default();
    match prettifier.to_id_seed("not-a-pretty-id") {
        Err(ConversionError::InvalidId(p)) => assert_eq!(p, "not-a-pretty-id"),
        other => panic!("expected InvalidId, got {:?}", other),
    }
}
