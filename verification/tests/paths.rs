use env_json::keypath::JsonIndex;
use env_json::parser::Parser;
use env_json::value::Value;
use env_json::value::value_eq;

#[test]
fn pieces_classify_as_fields_or_indices() {
    let segs = JsonIndex::from_vec(vec!["a", "0", "007", "+9", "a1", "-1"]);
    assert!(matches!(&segs[0], JsonIndex::Field(s) if s == "a"));
    assert!(matches!(segs[1], JsonIndex::Index(0)));
    assert!(matches!(segs[2], JsonIndex::Index(7)));
    assert!(matches!(segs[3], JsonIndex::Index(9)));
    assert!(matches!(&segs[4], JsonIndex::Field(s) if s == "a1"));
    assert!(matches!(&segs[5], JsonIndex::Field(s) if s == "-1"));
}

#[test]
fn oversized_number_is_a_field() {
    let segs = JsonIndex::from_vec(vec!["18446744073709551616"]);
    assert!(matches!(&segs[0], JsonIndex::Field(_)));
}

#[test]
fn cursor_resolves_existing_paths() {
    let tree = Value::Object(vec![(
        "a".to_string(),
        Value::Array(vec![Value::Int(10), Value::Int(20)]),
    )]);
    let path = JsonIndex::from_vec(vec!["a", "1"]);
    let got = Parser::json_get(&tree, &path).unwrap();
    assert!(value_eq(got, &Value::Int(20)));
}

#[test]
fn cursor_refuses_missing_or_mismatched_paths() {
    let tree = Value::Object(vec![("a".to_string(), Value::Int(1))]);
    assert!(Parser::json_get(&tree, &JsonIndex::from_vec(vec!["b"])).is_none());
    assert!(Parser::json_get(&tree, &JsonIndex::from_vec(vec!["a", "0"])).is_none());
    assert!(Parser::json_get(&tree, &JsonIndex::from_vec(vec!["0"])).is_none());
}

#[test]
fn empty_separator_splits_between_characters() {
    // An empty separator cuts before every character and after the last,
    // the way the standard library splits on an empty pattern.
    let parser = Parser::default().with_separator("");
    let out = parser
        .parse_iter(vec![("ab".to_string(), "1".to_string())])
        .unwrap();
    let expected = Value::Object(vec![(
        "".to_string(),
        Value::Object(vec![(
            "a".to_string(),
            Value::Object(vec![(
                "b".to_string(),
                Value::Object(vec![("".to_string(), Value::Int(1))]),
            )]),
        )]),
    )]);
    assert!(value_eq(&out, &expected));
}

#[test]
fn prefix_filters_and_strips() {
    let parser = Parser::default().with_prefix("P__");
    let out = parser
        .parse_iter(vec![
            ("P__A".to_string(), "1".to_string()),
            ("X__B".to_string(), "2".to_string()),
        ])
        .unwrap();
    let expected = Value::Object(vec![("a".to_string(), Value::Int(1))]);
    assert!(value_eq(&out, &expected));
}

#[test]
fn empty_path_resolves_to_the_root() {
    let tree = Value::Int(3);
    let empty: Vec<JsonIndex> = Vec::new();
    let got = Parser::json_get(&tree, &empty).unwrap();
    assert!(value_eq(got, &Value::Int(3)));
}
