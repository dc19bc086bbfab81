//! The prettifier on known values.

use tagid::damm;
use tagid::prettifier::IdPrettifier;

const EXAMPLE_ID: i64 = 824227036833910784;
const EXAMPLE_REP: &str = "824227036833910784";

#[test]
fn test_divide() {
    let prettifier = IdPrettifier::default();

    let damm_encoded = damm::encode("100");
    assert_eq!(&damm_encoded, "1007");
    let actual = prettifier.divide(damm_encoded);
    assert_eq!(actual, vec!["1007".to_string()]);

    let damm_encoded = damm::encode(EXAMPLE_REP);
    assert_eq!(damm_encoded, format!("{}9", EXAMPLE_REP));
    let actual = prettifier.divide(damm_encoded);
    assert_eq!(
        actual,
        vec![
            "8242".to_string(),
            "27036".to_string(),
            "83391".to_string(),
            "07849".to_string(),
        ]
    );
}

#[test]
fn test_add_leading_zeros_parts() {
    let prettifier = IdPrettifier::default();

    let actual = prettifier.add_leading_zeros_parts(vec!["1007".to_string()]);
    assert_eq!(
        actual,
        vec![
            "0".to_string(),
            "0".to_string(),
            "0".to_string(),
            "1007".to_string(),
        ]
    );

    let actual = prettifier.add_leading_zeros_parts(vec![
        "8242".to_string(),
        "27036".to_string(),
        "83391".to_string(),
        "07849".to_string(),
    ]);
    assert_eq!(
        actual,
        vec![
            "8242".to_string(),
            "27036".to_string(),
            "83391".to_string(),
            "07849".to_string(),
        ]
    );
}

#[test]
fn test_convert_parts() {
    let prettifier = IdPrettifier::default();

    let parts = vec!["0", "0", "0", "1007"]
        .into_iter()
        .map(|s| s.to_string())
        .collect();
    let actual = prettifier.convert_parts(parts);
    assert_eq!(actual, "AAAA-00000-AAAA-01007".to_string());

    let parts = vec![
        "8242".to_string(),
        "27036".to_string(),
        "83391".to_string(),
        "07849".to_string(),
    ]
    .into_iter()
    .map(|s| s.to_string())
    .collect();
    let actual = prettifier.convert_parts(parts);
    assert_eq!(actual, "ARPJ-27036-GVQS-07849".to_string());
}

#[test]
fn test_generate_pretty_ids_with_leading_zeros() {
    let default = IdPrettifier::default();
    println!("### default: {:?}", default);

    let max_pretty_id = default.prettify(i64::MAX);
    assert_eq!(&max_pretty_id, "HPJD-72036-HAPK-58077");

    let example_pretty_id = default.prettify(EXAMPLE_ID);
    assert_eq!(&example_pretty_id, "ARPJ-27036-GVQS-07849");
    assert_eq!(&default.prettify(1), "AAAA-00000-AAAA-00013");

    let prettifier_by_8 = IdPrettifier {
        parts_size: 8,
        leading_zeros: true,
        ..default
    };
    println!("### prettifier_by_8: {:?}", prettifier_by_8);
    assert_eq!(&prettifier_by_8.prettify(1), "00000000-AAAA-00000013");
    assert_eq!(
        &prettifier_by_8.prettify(i64::MAX),
        "00009223-FTYTHN-47758077"
    );
}
