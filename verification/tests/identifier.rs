use lk_canon::canon::canonicalize;
use lk_canon::digest::identify;
use lk_canon::policy::validate;
use lk_canon::value::{CanonError, Value};

fn obj(members: Vec<(&str, Value)>) -> Value {
    Value::Object(members.into_iter().map(|(k, v)| (k.to_string(), v)).collect())
}

fn text(s: &str) -> Value {
    Value::Text(s.to_string())
}

#[test]
fn end_to_end_example() {
    let entry = obj(vec![
        ("name", text("a")),
        ("attestations", Value::Array(vec![text("x")])),
        ("value", Value::Int(1)),
    ]);
    let stripped = obj(vec![("name", text("a")), ("value", Value::Int(1))]);
    let expected_preimage = canonicalize(&stripped).unwrap();
    assert_eq!(expected_preimage, "{\"name\":\"a\",\"value\":1}");
    assert_eq!(
        lk_canon::canon::preimage(&entry).unwrap(),
        expected_preimage
    );
    let id = identify(&entry).unwrap();
    // the identifier is blake3 of the preimage bytes, as lowercase hex
    assert_eq!(
        id,
        "3f4bf0cb738c44e8eb28985fccb6a2a596a712f5c9bcbc3814523a763f723275"
    );
    assert_eq!(identify(&stripped).unwrap(), id);
}

#[test]
fn attestation_exclusion_leaves_identifier_unchanged() {
    let with = obj(vec![
        ("x", Value::Int(1)),
        ("attestations", Value::Array(vec![text("s1"), text("s2")])),
    ]);
    let without = obj(vec![("x", Value::Int(1))]);
    assert_eq!(identify(&with).unwrap(), identify(&without).unwrap());
}

#[test]
fn identifier_shape() {
    let id = identify(&obj(vec![])).unwrap();
    assert_eq!(id.len(), 64);
    assert!(id.chars().all(|c| c.is_ascii_hexdigit() && !c.is_ascii_uppercase()));
}

#[test]
fn identify_errors() {
    assert_eq!(
        identify(&Value::Int(3)).unwrap_err(),
        CanonError::InvalidEntryShape
    );
    assert_eq!(
        identify(&obj(vec![("x", Value::NonIntNumber)])).unwrap_err(),
        CanonError::NonCanonicalNumber
    );
}

#[test]
fn validate_parity_check() {
    let (code, msg) = validate(&vec![0u8; 4], &vec![0u8; 2], 64);
    assert_eq!(code, 0);
    assert_eq!(msg, b"ACCEPT\n".to_vec());
    let (code, msg) = validate(&vec![0u8; 3], &vec![0u8; 2], 64);
    assert_ne!(code, 0);
    assert_eq!(msg, b"REJECT\n".to_vec());
}

#[test]
fn validate_truncates_to_capacity() {
    let (code, msg) = validate(&vec![0u8; 0], &vec![0u8; 0], 3);
    assert_eq!(code, 0);
    assert_eq!(msg, b"ACC".to_vec());
    let (code, msg) = validate(&vec![0u8; 1], &vec![0u8; 1], 0);
    assert_ne!(code, 0);
    assert!(msg.is_empty());
}
