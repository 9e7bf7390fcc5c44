use lk_canon::canon::{canonicalize, preimage};
use lk_canon::value::{CanonError, Value};

fn obj(members: Vec<(&str, Value)>) -> Value {
    Value::Object(members.into_iter().map(|(k, v)| (k.to_string(), v)).collect())
}

fn text(s: &str) -> Value {
    Value::Text(s.to_string())
}

#[test]
fn canonical_scalars() {
    assert_eq!(canonicalize(&Value::Null).unwrap(), "null");
    assert_eq!(canonicalize(&Value::Bool(true)).unwrap(), "true");
    assert_eq!(canonicalize(&Value::Bool(false)).unwrap(), "false");
    assert_eq!(canonicalize(&Value::Int(0)).unwrap(), "0");
    assert_eq!(canonicalize(&Value::Int(42)).unwrap(), "42");
    assert_eq!(canonicalize(&Value::Int(-5)).unwrap(), "-5");
    assert_eq!(
        canonicalize(&Value::Int(i64::MAX)).unwrap(),
        "9223372036854775807"
    );
    assert_eq!(
        canonicalize(&Value::Int(i64::MIN)).unwrap(),
        "-9223372036854775808"
    );
}

#[test]
fn canonical_strings() {
    assert_eq!(canonicalize(&text("")).unwrap(), "\"\"");
    assert_eq!(canonicalize(&text("abc")).unwrap(), "\"abc\"");
    assert_eq!(canonicalize(&text("a\"b")).unwrap(), "\"a\\\"b\"");
    assert_eq!(canonicalize(&text("a\\b")).unwrap(), "\"a\\\\b\"");
    assert_eq!(
        canonicalize(&text("\u{8}\t\n\u{c}\r")).unwrap(),
        "\"\\b\\t\\n\\f\\r\""
    );
    assert_eq!(canonicalize(&text("\u{1}\u{1f}")).unwrap(), "\"\\u0001\\u001f\"");
    // characters at and above the space are not escaped
    assert_eq!(canonicalize(&text("é λ")).unwrap(), "\"é λ\"");
}

#[test]
fn canonical_arrays_and_objects() {
    assert_eq!(canonicalize(&Value::Array(vec![])).unwrap(), "[]");
    assert_eq!(
        canonicalize(&Value::Array(vec![Value::Int(1), Value::Null, Value::Bool(true)]))
            .unwrap(),
        "[1,null,true]"
    );
    assert_eq!(canonicalize(&obj(vec![])).unwrap(), "{}");
    let nested = obj(vec![
        ("z", Value::Array(vec![Value::Int(1), Value::Int(2)])),
        ("a", obj(vec![("c", Value::Int(1)), ("b", Value::Int(2))])),
    ]);
    assert_eq!(
        canonicalize(&nested).unwrap(),
        "{\"a\":{\"b\":2,\"c\":1},\"z\":[1,2]}"
    );
}

#[test]
fn keys_sort_by_scalar_value() {
    // 'z' is below 'é' in scalar order, and multi-character keys compare
    // lexicographically with a shorter prefix first
    let v = obj(vec![
        ("é", Value::Int(1)),
        ("z", Value::Int(2)),
        ("ab", Value::Int(3)),
        ("a", Value::Int(4)),
    ]);
    assert_eq!(
        canonicalize(&v).unwrap(),
        "{\"a\":4,\"ab\":3,\"z\":2,\"é\":1}"
    );
}

#[test]
fn determinism_two_calls_agree() {
    let v = obj(vec![
        ("k", Value::Array(vec![text("x"), Value::Int(-7)])),
        ("a", Value::Null),
    ]);
    let first = canonicalize(&v).unwrap();
    let second = canonicalize(&v).unwrap();
    assert_eq!(first, second);
}

#[test]
fn key_order_invariance() {
    let one = obj(vec![("b", Value::Int(1)), ("a", Value::Int(2))]);
    let two = obj(vec![("a", Value::Int(2)), ("b", Value::Int(1))]);
    let c1 = canonicalize(&one).unwrap();
    let c2 = canonicalize(&two).unwrap();
    assert_eq!(c1, "{\"a\":2,\"b\":1}");
    assert_eq!(c1, c2);
}

#[test]
fn array_order_is_significant() {
    let c1 = canonicalize(&Value::Array(vec![Value::Int(1), Value::Int(2)])).unwrap();
    let c2 = canonicalize(&Value::Array(vec![Value::Int(2), Value::Int(1)])).unwrap();
    assert_eq!(c1, "[1,2]");
    assert_eq!(c2, "[2,1]");
    assert_ne!(c1, c2);
}

#[test]
fn fractional_numbers_are_rejected() {
    assert_eq!(canonicalize(&Value::Int(3)).unwrap(), "3");
    // the model of 3.0: a number with no signed 64-bit integer representation
    assert_eq!(
        canonicalize(&Value::NonIntNumber).unwrap_err(),
        CanonError::NonCanonicalNumber
    );
    let buried = obj(vec![("x", Value::Array(vec![Value::Int(1), Value::NonIntNumber]))]);
    assert_eq!(
        canonicalize(&buried).unwrap_err(),
        CanonError::NonCanonicalNumber
    );
}

#[test]
fn escaping_round_trips_through_a_parser() {
    let original = "q\"b\\s\nc\u{1}end";
    let token = canonicalize(&text(original)).unwrap();
    let parsed: serde_json::Value = serde_json::from_str(&token).unwrap();
    assert_eq!(parsed.as_str().unwrap(), original);
}

#[test]
fn preimage_strips_top_level_attestations_only() {
    let entry = obj(vec![
        ("x", Value::Int(1)),
        ("attestations", Value::Array(vec![text("sig")])),
        ("nested", obj(vec![("attestations", Value::Int(9))])),
    ]);
    assert_eq!(
        preimage(&entry).unwrap(),
        "{\"nested\":{\"attestations\":9},\"x\":1}"
    );
    // absence of the member is a no-op
    let plain = obj(vec![("x", Value::Int(1))]);
    assert_eq!(preimage(&plain).unwrap(), "{\"x\":1}");
}

#[test]
fn preimage_rejects_non_objects() {
    assert_eq!(
        preimage(&Value::Int(7)).unwrap_err(),
        CanonError::InvalidEntryShape
    );
    assert_eq!(
        preimage(&Value::Array(vec![])).unwrap_err(),
        CanonError::InvalidEntryShape
    );
}

#[test]
fn preimage_rejects_kept_fractional_numbers() {
    let bad = obj(vec![("x", Value::NonIntNumber)]);
    assert_eq!(preimage(&bad).unwrap_err(), CanonError::NonCanonicalNumber);
    // a rejected number inside the stripped member is no failure
    let shielded = obj(vec![
        ("x", Value::Int(1)),
        ("attestations", Value::Array(vec![Value::NonIntNumber])),
    ]);
    assert_eq!(preimage(&shielded).unwrap(), "{\"x\":1}");
}
