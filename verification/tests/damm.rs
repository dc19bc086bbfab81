//! The Damm check digit on known values.

use tagid::damm;

#[test]
fn test_calculate_check_digit() {
    let actual = damm::encode("572");
    assert_eq!(&actual, "5724");
    let actual = damm::encode("43881234567");
    assert_eq!(&actual, "438812345679");
    let with_checksum = damm::encode(&format!("{}", i64::MAX));
    assert_eq!(damm::is_valid(&with_checksum), true);
}

#[test]
fn test_fail_on_checking_check_digit() {
    let with_checksum = damm::encode(&format!("{}", i64::MAX));

    for i in 0..with_checksum.len() {
        let mut sb_bytes: Vec<u8> = with_checksum.as_bytes().to_vec();
        let old_char = sb_bytes[i];
        let new_char = 47 + ((old_char + 1) % 10);
        let item = &mut sb_bytes[i];
        *item = new_char;
        let corrupted = String::from_utf8_lossy(sb_bytes.as_slice());
        assert_eq!(damm::is_valid(corrupted.as_ref()), false);
    }
}

#[test]
fn test_known_check_values() {
    assert_eq!(damm::encode("572"), "5724");
    assert!(damm::is_valid("5724"));
    assert!(!damm::is_valid("5723"));
}

#[test]
fn test_every_substitution_of_each_digit_detected() {
    let checked = damm::encode("9081726354");
    assert!(damm::is_valid(&checked));
    let bytes = checked.as_bytes();
    for i in 0..bytes.len() {
        for replacement in b'0'..=b'9' {
            if replacement == bytes[i] {
                continue;
            }
            let mut corrupted = bytes.to_vec();
            corrupted[i] = replacement;
            let corrupted = String::from_utf8(corrupted).unwrap();
            assert!(!damm::is_valid(&corrupted));
        }
    }
}

#[test]
fn test_non_digits_pass_through() {
    // Non-digit characters do not alter the state, so the check digit of a
    // delimited string matches that of its digits alone.
    assert_eq!(damm::encode("5-7-2"), "5-7-24");
    assert!(damm::is_valid("x5724x"));
}

#[test]
fn test_decode_strips_valid_checksum() {
    assert_eq!(damm::decode("5724"), Some("572"));
    assert_eq!(damm::decode("5723"), None);
    assert_eq!(damm::decode(""), None);
}

#[test]
fn test_self_validation_of_empty_and_zero() {
    assert!(damm::is_valid(&damm::encode("")));
    assert!(damm::is_valid(&damm::encode("0")));
    assert_eq!(damm::checksum("572"), 4);
}
