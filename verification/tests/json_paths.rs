use pintail_exec::decimal::ExecError;
use pintail_exec::json_order::{JsonMember, JsonValue};
use pintail_exec::json_path::{json_extract_targets, json_path_lookup, json_path_steps, JsonStep};

fn member(key: &str, value: JsonValue) -> JsonMember {
    JsonMember { key: key.as_bytes().to_vec(), value }
}

fn document() -> JsonValue {
    JsonValue::Object(vec![
        member("a", JsonValue::Array(vec![JsonValue::Bool(true), JsonValue::Text(b"x".to_vec())])),
        member("b c", JsonValue::Null),
    ])
}

#[test]
fn paths_parse_into_member_and_index_steps() {
    assert_eq!(
        json_path_steps("$.a[0].\"b c\""),
        Ok(vec![JsonStep::Member("a".to_owned()), JsonStep::Index(0), JsonStep::Member("b c".to_owned())])
    );
    assert_eq!(json_path_steps("$"), Ok(Vec::new()));
    assert_eq!(json_path_steps("$[ 2 ]"), Ok(vec![JsonStep::Index(2)]));
    assert_eq!(
        json_path_steps("$.a.b"),
        Ok(vec![JsonStep::Member("a".to_owned()), JsonStep::Member("b".to_owned())])
    );
}

#[test]
fn malformed_paths_are_refused() {
    assert_eq!(json_path_steps("a"), Err(ExecError::InvalidExpressionType));
    assert_eq!(json_path_steps(""), Err(ExecError::InvalidExpressionType));
    assert_eq!(json_path_steps("$.*"), Err(ExecError::InvalidExpressionType));
    assert_eq!(json_path_steps("$."), Err(ExecError::InvalidExpressionType));
    assert_eq!(json_path_steps("$[x]"), Err(ExecError::InvalidExpressionType));
    assert_eq!(json_path_steps("$x"), Err(ExecError::InvalidExpressionType));
}

#[test]
fn lookups_walk_members_and_elements() {
    let doc = document();
    assert!(matches!(json_path_lookup(&doc, "$.a[0]"), Ok(Some(JsonValue::Bool(true)))));
    assert!(matches!(json_path_lookup(&doc, "$.a[1]"), Ok(Some(JsonValue::Text(t))) if t == b"x"));
    assert!(matches!(json_path_lookup(&doc, "$.\"b c\""), Ok(Some(JsonValue::Null))));
    assert!(matches!(json_path_lookup(&doc, "$.a[2]"), Ok(None)));
    assert!(matches!(json_path_lookup(&doc, "$.z"), Ok(None)));
    assert!(matches!(json_path_lookup(&doc, "$[0]"), Ok(None)));
    assert!(matches!(json_path_lookup(&doc, "$"), Ok(Some(JsonValue::Object(_)))));
    assert!(matches!(json_path_lookup(&doc, "$.*"), Err(ExecError::InvalidExpressionType)));
}

#[test]
fn json_extract_selects_each_found_path_in_order() {
    let doc = document();
    let paths = vec!["$.a[1]".to_owned(), "$.missing".to_owned(), "$.a[0]".to_owned()];
    let found = json_extract_targets(&doc, &paths).expect("well-formed paths");
    assert_eq!(found.len(), 2);
    assert!(matches!(found[0], JsonValue::Text(t) if t == b"x"));
    assert!(matches!(found[1], JsonValue::Bool(true)));
    // A malformed path fails the call even after another path found a value.
    let bad = vec!["$.a[0]".to_owned(), "a".to_owned()];
    assert!(matches!(json_extract_targets(&doc, &bad), Err(ExecError::InvalidExpressionType)));
    assert_eq!(json_extract_targets(&doc, &vec!["$.nothing".to_owned()]).map(|f| f.len()), Ok(0));
}
