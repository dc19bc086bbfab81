//! Generators, machine nodes, ULIDs and labels.

use tagid::generator::CuidGenerator;
use tagid::generator::IdGenerator;
use tagid::generator::UuidGenerator;
use tagid::labeling::CustomLabeling;
use tagid::labeling::Label;
use tagid::labeling::Labeling;
use tagid::labeling::NoLabeling;
use tagid::machine_node::MachineNode;
use tagid::machine_node::MachineNodeError;
use tagid::ulid_id::DecodeError;
use tagid::ulid_id::Ulid;
use tagid::ulid_id::UlidGenerator;
use tagid::digits::parse_i64;
use tagid::digits::render_decimal;

#[test]
fn test_cuid_generator_shape() {
    let a = CuidGenerator::next_id_rep();
    let b = CuidGenerator::next_id_rep();
    assert!(1 <= a.len() && a.len() <= 24);
    assert!(a.chars().all(|c| c.is_ascii_alphanumeric()));
    assert_ne!(a, b);
}

#[test]
fn test_uuid_generator_is_v4() {
    let id = UuidGenerator::next_id_rep();
    assert_eq!(id.get_version_num(), 4);
    assert_ne!(id, UuidGenerator::next_id_rep());
}

#[test]
fn test_machine_node_validation() {
    let node = MachineNode::new(3, 7).unwrap();
    assert_eq!(node.machine_id, 3);
    assert_eq!(node.node_id, 7);
    assert_eq!(MachineNode::default(), MachineNode::new(1, 1).unwrap());
    assert_eq!(
        MachineNode::new(32, 0),
        Err(MachineNodeError::MachineIdOutOfRange)
    );
    assert_eq!(
        MachineNode::new(-1, 0),
        Err(MachineNodeError::MachineIdOutOfRange)
    );
    assert_eq!(
        MachineNode::new(0, 32),
        Err(MachineNodeError::NodeIdOutOfRange)
    );
}

#[test]
fn test_ulid_from_parts_layout() {
    let u = Ulid::from_parts(0, 0);
    assert_eq!(u.0, 0);
    assert_eq!(Ulid::nil().0, 0);
    // The timestamp occupies the bits above the 80 random ones.
    let t = Ulid::from_parts(1, 0);
    assert_eq!(t.0, 1u128 << 80);
    // Out-of-range bits of both parts are masked off.
    let masked = Ulid::from_parts(u64::MAX, u128::MAX);
    assert_eq!(masked.0, ((0xFFFF_FFFF_FFFFu128) << 80) | ((1u128 << 80) - 1));
    // Cross-check the layout against the ulid crate itself.
    let theirs = ulid::Ulid::from_parts(1469922850259, 1012768647078601740696923);
    let ours = Ulid::from_parts(1469922850259, 1012768647078601740696923);
    assert_eq!(ours.0, theirs.0);
}

#[test]
fn test_ulid_from_bytes() {
    let bytes: [u8; 16] = [
        0x01, 0x02, 0x03, 0x04, 0x05, 0x06, 0x07, 0x08, 0x09, 0x0A, 0x0B, 0x0C, 0x0D, 0x0E,
        0x0F, 0x10,
    ];
    let ours = Ulid::from_bytes(bytes);
    let theirs = ulid::Ulid::from_bytes(bytes);
    assert_eq!(ours.0, theirs.0);
    assert_eq!(ours.into_inner(), theirs.0);
}

#[test]
fn test_ulid_from_string() {
    let text = "01D39ZY06FGSCTVN4T2V9PKHFZ";
    let ours = Ulid::from_string(text).unwrap();
    let theirs = ulid::Ulid::from_string(text).unwrap();
    assert_eq!(ours.0, theirs.0);
    // Lower case decodes to the same value.
    let lower = text.to_lowercase();
    assert_eq!(Ulid::from_string(&lower).unwrap(), ours);
    assert_eq!(Ulid::from_string("short"), Err(DecodeError::InvalidLength));
    assert_eq!(
        Ulid::from_string("0000000000000000000000000!"),
        Err(DecodeError::InvalidChar)
    );
}

#[test]
fn test_ulid_new_is_recent_and_random() {
    let a = Ulid::new();
    let b = Ulid::new();
    assert_ne!(a, b);
    let c = UlidGenerator::next_id_rep();
    assert_ne!(c, a);
    let fixed = Ulid::from_datetime(1469922850259);
    assert_eq!(fixed.0 >> 80, 1469922850259u128);
}

#[test]
fn test_labeling() {
    let custom = CustomLabeling::new("MyLabel");
    assert_eq!(custom.label(), "MyLabel");
    assert_eq!(NoLabeling.label(), "");
    let unit_labeler = <() as Label>::labeler();
    assert_eq!(unit_labeler.label(), "");
}

#[test]
fn test_parse_i64_sign_and_range() {
    assert_eq!(parse_i64("0"), Some(0));
    assert_eq!(parse_i64("0013"), Some(13));
    assert_eq!(parse_i64("+5"), Some(5));
    assert_eq!(parse_i64("-5"), Some(-5));
    assert_eq!(parse_i64("9223372036854775807"), Some(i64::MAX));
    assert_eq!(parse_i64("9223372036854775808"), None);
    assert_eq!(parse_i64("-9223372036854775808"), Some(i64::MIN));
    assert_eq!(parse_i64("-9223372036854775809"), None);
    assert_eq!(parse_i64(""), None);
    assert_eq!(parse_i64("+"), None);
    assert_eq!(parse_i64("12a3"), None);
}

#[test]
fn test_render_decimal() {
    assert_eq!(render_decimal(0), "0");
    assert_eq!(render_decimal(7), "7");
    assert_eq!(render_decimal(1007), "1007");
    assert_eq!(render_decimal(i64::MAX), "9223372036854775807");
}
