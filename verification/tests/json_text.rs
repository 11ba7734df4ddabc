use pintail_exec::json_text::{
    json_scalar_text, mysql_json_array_text, mysql_json_object_text, mysql_json_text, JsonDoc,
    JsonDocMember, JsonScalar,
};

fn member(key: &str, value: JsonDoc) -> JsonDocMember {
    JsonDocMember { key: key.to_string(), value }
}

#[test]
fn documents_print_with_mysql_spacing() {
    let doc = JsonDoc::Array(vec![
        JsonDoc::Number("1".to_string()),
        JsonDoc::Bool(true),
        JsonDoc::Null,
        JsonDoc::Text("x".to_string()),
    ]);
    assert_eq!(mysql_json_text(&doc), r#"[1, true, null, "x"]"#);
    assert_eq!(mysql_json_text(&JsonDoc::Array(Vec::new())), "[]");
    assert_eq!(mysql_json_text(&JsonDoc::Object(Vec::new())), "{}");
}

#[test]
fn object_keys_print_shortest_first_then_by_bytes() {
    let doc = JsonDoc::Object(vec![
        member("bb", JsonDoc::Number("2".to_string())),
        member("a", JsonDoc::Number("1".to_string())),
        member("ab", JsonDoc::Object(vec![member("z", JsonDoc::Null)])),
    ]);
    assert_eq!(mysql_json_text(&doc), r#"{"a": 1, "ab": {"z": null}, "bb": 2}"#);
}

#[test]
fn strings_are_quoted_and_escaped() {
    let doc = JsonDoc::Text("say \"hi\"\n".to_string());
    assert_eq!(mysql_json_text(&doc), r#""say \"hi\"\n""#);
}

#[test]
fn constructed_documents_keep_decimal_text_verbatim() {
    assert_eq!(json_scalar_text(&JsonScalar::Number("10.50".to_string())), "10.50");
    assert_eq!(
        json_scalar_text(&JsonScalar::Value(JsonDoc::Text("10.50".to_string()))),
        r#""10.50""#
    );
    let object = mysql_json_object_text(&[
        ("price".to_string(), JsonScalar::Number("10.50".to_string())),
        ("id".to_string(), JsonScalar::Value(JsonDoc::Number("7".to_string()))),
    ]);
    assert_eq!(object, r#"{"id": 7, "price": 10.50}"#);
    let array = mysql_json_array_text(&[
        JsonScalar::Number("1.0".to_string()),
        JsonScalar::Value(JsonDoc::Null),
    ]);
    assert_eq!(array, "[1.0, null]");
    assert_eq!(mysql_json_array_text(&[]), "[]");
}
