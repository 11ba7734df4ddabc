use pintail_exec::json_order::{compare_json_values, json_sort_key, JsonMember, JsonValue};
use std::cmp::Ordering;

fn to_json(value: &serde_json::Value) -> JsonValue {
    match value {
        serde_json::Value::Null => JsonValue::Null,
        serde_json::Value::Bool(flag) => JsonValue::Bool(*flag),
        serde_json::Value::Number(number) => {
            JsonValue::Number(number.as_f64().unwrap_or(0.0).to_bits())
        }
        serde_json::Value::String(text) => JsonValue::Text(text.as_bytes().to_vec()),
        serde_json::Value::Array(items) => JsonValue::Array(items.iter().map(to_json).collect()),
        serde_json::Value::Object(members) => JsonValue::Object(
            members
                .iter()
                .map(|(key, value)| JsonMember {
                    key: key.as_bytes().to_vec(),
                    value: to_json(value),
                })
                .collect(),
        ),
    }
}

fn parse(text: &str) -> JsonValue {
    to_json(&serde_json::from_str::<serde_json::Value>(text).expect("valid JSON"))
}

fn cmp(left: &str, right: &str) -> Ordering {
    compare_json_values(&parse(left), &parse(right))
}

#[test]
fn the_type_ladder_holds() {
    // NULL < NUMBER < STRING < OBJECT < ARRAY < BOOLEAN, low to high.
    let ladder = ["null", "999", r#""zzz""#, r#"{"a":1}"#, "[1]", "false"];
    for pair in ladder.windows(2) {
        assert_eq!(cmp(pair[0], pair[1]), Ordering::Less, "{pair:?}");
    }
}

#[test]
fn numbers_compare_numerically_across_forms() {
    assert_eq!(cmp("1", "1.0"), Ordering::Equal);
    assert_eq!(cmp("-1", "0.5"), Ordering::Less);
    assert_eq!(cmp("10", "9"), Ordering::Greater);
    assert_eq!(cmp("-0.0", "0"), Ordering::Equal);
}

#[test]
fn strings_compare_by_bytes() {
    assert_eq!(cmp(r#""a""#, r#""ab""#), Ordering::Less);
    assert_eq!(cmp(r#""A""#, r#""a""#), Ordering::Less);
    assert_eq!(cmp(r#""b""#, r#""b""#), Ordering::Equal);
}

#[test]
fn arrays_compare_element_wise_with_prefix_rule() {
    assert_eq!(cmp("[1,2]", "[1,3]"), Ordering::Less);
    assert_eq!(cmp("[1,2]", "[1,2,0]"), Ordering::Less);
    assert_eq!(cmp("[2]", "[1,9,9]"), Ordering::Greater);
}

#[test]
fn objects_are_equal_regardless_of_member_order() {
    assert_eq!(cmp(r#"{"a":1,"b":2}"#, r#"{"b":2,"a":1}"#), Ordering::Equal);
    assert_ne!(cmp(r#"{"a":1,"b":2}"#, r#"{"a":1,"b":3}"#), Ordering::Equal);
}

#[test]
fn booleans_order_false_before_true() {
    assert_eq!(cmp("false", "true"), Ordering::Less);
}

#[test]
fn object_members_given_out_of_order_get_one_key() {
    let forward = JsonValue::Object(vec![
        JsonMember { key: b"a".to_vec(), value: JsonValue::Null },
        JsonMember { key: b"b".to_vec(), value: JsonValue::Bool(true) },
    ]);
    let backward = JsonValue::Object(vec![
        JsonMember { key: b"b".to_vec(), value: JsonValue::Bool(true) },
        JsonMember { key: b"a".to_vec(), value: JsonValue::Null },
    ]);
    let key = json_sort_key(&forward);
    assert_eq!(key, json_sort_key(&backward));
    assert_eq!(
        key,
        vec![0x04, 0, 0, 0, 2, b'a', 0, 0, 0x01, b'b', 0, 0, 0x06, 1]
    );
}

#[test]
fn an_embedded_zero_byte_is_escaped() {
    let key = json_sort_key(&JsonValue::Text(vec![b'x', 0, b'y']));
    assert_eq!(key, vec![0x03, b'x', 0, 1, b'y', 0, 0]);
}

#[test]
fn negative_zero_and_zero_share_a_key() {
    let zero = json_sort_key(&JsonValue::Number(0.0f64.to_bits()));
    let negative = json_sort_key(&JsonValue::Number((-0.0f64).to_bits()));
    assert_eq!(zero, negative);
    assert_eq!(zero, vec![0x02, 0x80, 0, 0, 0, 0, 0, 0, 0]);
}
