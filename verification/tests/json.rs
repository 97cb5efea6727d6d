use mdcore::json::{json_to_md, json_value_to_md, JsonValue};

#[test]
fn array_of_objects_is_a_table() {
    assert_eq!(
        json_to_md(r#"[{"n":"x","v":1},{"n":"y","v":2}]"#).unwrap(),
        "| n | v |\n| --- | --- |\n| x | 1 |\n| y | 2 |\n"
    );
}

#[test]
fn missing_keys_and_nested_values_in_cells() {
    assert_eq!(
        json_to_md(r#"[{"a":1,"b":{"c":true}},{"a":null}]"#).unwrap(),
        "| a | b |\n| --- | --- |\n| 1 | {\"c\":true} |\n|  |  |\n"
    );
}

#[test]
fn object_becomes_nested_list() {
    assert_eq!(
        json_to_md("  {\"k\": \"v\", \"o\": {\"x\": [1, \"s\"]}, \"z\": false}\n").unwrap(),
        "- **k**: v\n- **o**\n  - **x**\n    - 1\n    - s\n- **z**: false\n"
    );
}

#[test]
fn mixed_array_is_a_list() {
    assert_eq!(json_to_md(r#"[1, {"a": 2}, null]"#).unwrap(), "- 1\n-\n  - **a**: 2\n- \n");
}

#[test]
fn scalar_document() {
    assert_eq!(json_to_md("3.5").unwrap(), "3.5\n");
    assert_eq!(json_to_md("\"s\"").unwrap(), "s\n");
}

#[test]
fn invalid_json_fails() {
    assert!(json_to_md("{nope").is_err());
}

#[test]
fn value_rendering_from_library_values() {
    let v = JsonValue::Object(
        vec![
            ("a".to_string(), JsonValue::Bool(true)),
            ("b".to_string(), JsonValue::Array(vec![JsonValue::Null], "[null]".to_string())),
        ],
        "{\"a\":true,\"b\":[null]}".to_string(),
    );
    assert_eq!(json_value_to_md(&v), "- **a**: true\n- **b**\n  - \n");
}

#[test]
fn json_failures_and_simple_shapes() {
    assert!(json_to_md("{").is_err());
    assert!(json_to_md("a,b").is_err());
    assert_eq!(json_to_md(" \"s\" ").unwrap(), "s\n");
    assert_eq!(json_to_md("[]").unwrap(), "");
    assert_eq!(json_to_md("  7 \n").unwrap(), "7\n");
}

#[test]
fn list_lines_carry_their_depth() {
    let md = json_to_md(r#"{"a":{"b":[1,{"c":"x"},[true,null]]},"d":"e"}"#).unwrap();
    assert_eq!(
        md,
        "- **a**\n  - **b**\n    - 1\n    -\n      - **c**: x\n    -\n      - true\n      - \n- **d**: e\n"
    );
    let inner = json_to_md(r#"[[1,[2]]]"#).unwrap();
    for line in inner.lines().skip(1) {
        assert!(line.starts_with("  "), "{line:?}");
    }
}
