use env_json::parser::Parser;
use env_json::splice::splice;
use env_json::value::Value;
use env_json::value::value_eq;
use env_json::Error;

fn obj(fields: Vec<(&str, Value)>) -> Value {
    Value::Object(fields.into_iter().map(|(k, v)| (k.to_string(), v)).collect())
}

fn arr(items: Vec<Value>) -> Value {
    Value::Array(items)
}

fn text(s: &str) -> Value {
    Value::Text(s.to_string())
}

fn float(x: &str) -> Value {
    Value::Float(x.parse::<f64>().unwrap().to_bits())
}

fn pairs(kv: &[(&str, &str)]) -> Vec<(String, String)> {
    kv.iter().map(|(k, v)| (k.to_string(), v.to_string())).collect()
}

/// Object field order carries no meaning; sort fields by key before
/// comparing trees.
fn canon(v: Value) -> Value {
    match v {
        Value::Object(fields) => {
            let mut fields: Vec<(String, Value)> =
                fields.into_iter().map(|(k, x)| (k, canon(x))).collect();
            fields.sort_by(|a, b| a.0.cmp(&b.0));
            Value::Object(fields)
        }
        Value::Array(items) => Value::Array(items.into_iter().map(canon).collect()),
        other => other,
    }
}

fn same_tree(a: Value, b: Value) -> bool {
    value_eq(&canon(a), &canon(b))
}

#[test]
fn nested_object_scenario() {
    let parser = Parser::default().with_prefix("PREFIX__");
    let out = parser
        .parse_iter(pairs(&[
            ("PREFIX__STRUCT__INT", "1"),
            ("PREFIX__STRUCT__STRING", "string"),
        ]))
        .unwrap();
    let expected = obj(vec![(
        "struct",
        obj(vec![("int", Value::Int(1)), ("string", text("string"))]),
    )]);
    assert!(same_tree(out, expected));
}

#[test]
fn seed_array_overwrite_in_place() {
    let seed = obj(vec![(
        "int_list",
        arr(vec![Value::Int(1), Value::Int(0), Value::Int(3)]),
    )]);
    let parser = Parser::default().with_prefix("PREFIX__").with_json(seed);
    let out = parser
        .parse_iter(pairs(&[("PREFIX__INT_LIST__1", "2")]))
        .unwrap();
    let expected = obj(vec![(
        "int_list",
        arr(vec![Value::Int(1), Value::Int(2), Value::Int(3)]),
    )]);
    assert!(same_tree(out, expected));
}

#[test]
fn sparse_array_backfill() {
    let parser = Parser::default().with_prefix("PREFIX__");
    let out = parser
        .parse_iter(pairs(&[("PREFIX__LIST__3", "7")]))
        .unwrap();
    let expected = obj(vec![(
        "list",
        arr(vec![Value::Null, Value::Null, Value::Null, Value::Int(7)]),
    )]);
    assert!(same_tree(out, expected));
}

#[test]
fn root_numeric_key_rejected() {
    let parser = Parser::default().with_prefix("PREFIX__");
    let err = parser.parse_iter(pairs(&[("PREFIX__42", "x")])).unwrap_err();
    assert_eq!(err, Error::MalformedPath);
}

#[test]
fn deep_nesting_scenario() {
    let parser = Parser::default().with_prefix("PREFIX__");
    let out = parser
        .parse_iter(pairs(&[
            ("PREFIX__INT_LIST__0", "1"),
            ("PREFIX__INT_LIST__1", "2"),
            ("PREFIX__STRUCT__INT", "1"),
            ("PREFIX__STRUCT__STRING", "string"),
            ("PREFIX__STRUCT__BOOL_LIST__0", "true"),
            ("PREFIX__STRUCT__BOOL_LIST__1", "false"),
            ("PREFIX__STRUCT__STRUCT__INT", "1"),
            ("PREFIX__STRUCT__STRUCT__STRING", "string"),
            ("PREFIX__STRUCT__STRUCT__BOOL_LIST__0", "true"),
            ("PREFIX__STRUCT__STRUCT__BOOL_LIST__1", "false"),
            ("PREFIX__BOOL_LIST__3", "true"),
            ("PREFIX__STRUCT__FLOAT", "1.1"),
            ("PREFIX__BOOL_LIST__0", "false"),
            ("PREFIX__STRING_LIST__0", "string0"),
        ]))
        .unwrap();
    let expected = obj(vec![
        ("int_list", arr(vec![Value::Int(1), Value::Int(2)])),
        (
            "struct",
            obj(vec![
                ("int", Value::Int(1)),
                ("float", float("1.1")),
                ("string", text("string")),
                ("bool_list", arr(vec![Value::Bool(true), Value::Bool(false)])),
                (
                    "struct",
                    obj(vec![
                        ("int", Value::Int(1)),
                        ("string", text("string")),
                        ("bool_list", arr(vec![Value::Bool(true), Value::Bool(false)])),
                    ]),
                ),
            ]),
        ),
        (
            "bool_list",
            arr(vec![Value::Bool(false), Value::Null, Value::Null, Value::Bool(true)]),
        ),
        ("string_list", arr(vec![text("string0")])),
    ]);
    assert!(same_tree(out, expected));
}

#[test]
fn filter_composition_exclude_wins() {
    let parser = Parser::default()
        .with_prefix("PREFIX__")
        .with_allow(&[".*INT.*"])
        .unwrap()
        .with_exclude(&[".*BOOL.*"])
        .unwrap();
    // This key matches both lists: the exclusion wins and it is dropped.
    let out = parser
        .parse_iter(pairs(&[
            ("PREFIX__INT_BOOL", "1"),
            ("PREFIX__INT_ONLY", "2"),
        ]))
        .unwrap();
    let expected = obj(vec![("int_only", Value::Int(2))]);
    assert!(same_tree(out, expected));
}

#[test]
fn allow_list_drops_everything_else() {
    let parser = Parser::default()
        .with_prefix("PREFIX__")
        .with_allow(&[".*INT_LIST.*"])
        .unwrap();
    let out = parser
        .parse_iter(pairs(&[
            ("PREFIX__INT_LIST__0", "1"),
            ("PREFIX__STRUCT__INT", "1"),
        ]))
        .unwrap();
    let expected = obj(vec![("int_list", arr(vec![Value::Int(1)]))]);
    assert!(same_tree(out, expected));
}

#[test]
fn filters_apply_without_a_prefix() {
    // The allow and exclude filters are independent of the prefix: they
    // drop failing keys even when no prefix is configured.
    let parser = Parser::default()
        .with_allow(&[".*INT.*"])
        .unwrap()
        .with_exclude(&[".*BOOL.*"])
        .unwrap();
    let out = parser
        .parse_iter(pairs(&[
            ("INT_A", "1"),
            ("INT_BOOL", "2"),
            ("OTHER", "3"),
        ]))
        .unwrap();
    let expected = obj(vec![("int_a", Value::Int(1))]);
    assert!(same_tree(out, expected));
}

#[test]
fn exclude_alone_applies_without_a_prefix() {
    let parser = Parser::default().with_exclude(&["^drop.*"]).unwrap();
    let out = parser
        .parse_iter(pairs(&[("drop_me", "1"), ("keep_me", "2")]))
        .unwrap();
    let expected = obj(vec![("keep_me", Value::Int(2))]);
    assert!(same_tree(out, expected));
}

#[test]
fn key_validity_composes() {
    let parser = Parser::default()
        .with_allow(&[".*INT.*"])
        .unwrap()
        .with_exclude(&[".*BOOL.*"])
        .unwrap();
    assert!(parser.is_key_valid("MY_INT"));
    assert!(!parser.is_key_valid("INT_BOOL"));
    assert!(!parser.is_key_valid("OTHER"));
    let no_filters = Parser::default();
    assert!(no_filters.is_key_valid("ANYTHING"));
}

#[test]
fn bad_pattern_refused() {
    assert!(Parser::default().with_allow(&["("]).is_none());
    assert!(Parser::default().with_exclude(&["["]).is_none());
}

#[test]
fn order_is_enforced_by_sorting() {
    // Splicing the longer key first and the shorter key second lets the
    // shorter one overwrite the slot; the opposite order keeps the nested
    // structure. The parser sorts descending, so the first outcome is what
    // a parse yields whatever the input order was.
    let longer = vec!["struct".to_string(), "int".to_string()];
    let shorter = vec!["struct".to_string()];
    let t1 = splice(Value::Object(Vec::new()), &longer, Value::Int(1)).unwrap();
    let longer_first = splice(t1, &shorter, Value::Text("x".to_string())).unwrap();
    let t2 = splice(Value::Object(Vec::new()), &shorter, Value::Text("x".to_string())).unwrap();
    let shorter_first = splice(t2, &longer, Value::Int(1)).unwrap();
    assert!(!same_tree(longer_first.duplicate(), shorter_first));
    let parsed = Parser::default()
        .parse_iter(pairs(&[("struct", "x"), ("struct__int", "1")]))
        .unwrap();
    assert!(same_tree(parsed, longer_first.duplicate()));
    let parsed_other_order = Parser::default()
        .parse_iter(pairs(&[("struct__int", "1"), ("struct", "x")]))
        .unwrap();
    assert!(same_tree(parsed_other_order, longer_first));
}

#[test]
fn resplicing_is_idempotent() {
    let parts = vec!["a".to_string(), "list".to_string(), "2".to_string()];
    let once = splice(Value::Object(Vec::new()), &parts, Value::Int(5)).unwrap();
    let twice = splice(once.duplicate(), &parts, Value::Int(5)).unwrap();
    assert!(value_eq(&once, &twice));
}

#[test]
fn shape_conflict_scalar_onto_object() {
    let parser = Parser::default();
    let err = parser
        .parse_iter(pairs(&[("a__b", "x"), ("a__b__c", "1")]))
        .unwrap_err();
    assert_eq!(err, Error::ShapeConflict);
}

#[test]
fn shape_conflict_array_item_into_object() {
    let seed = obj(vec![("a", obj(vec![("b", Value::Int(1))]))]);
    let parser = Parser::default().with_json(seed);
    let err = parser.parse_iter(pairs(&[("a__0", "x")])).unwrap_err();
    assert_eq!(err, Error::ShapeConflict);
}

#[test]
fn custom_separator() {
    let parser = Parser::default().with_separator(".");
    let out = parser.parse_iter(pairs(&[("app.port", "80")])).unwrap();
    let expected = obj(vec![("app", obj(vec![("port", Value::Int(80))]))]);
    assert!(same_tree(out, expected));
}

#[test]
fn keys_are_lowercased() {
    let parser = Parser::default();
    let out = parser.parse_iter(pairs(&[("StRuCt__InT", "1")])).unwrap();
    let expected = obj(vec![("struct", obj(vec![("int", Value::Int(1))]))]);
    assert!(same_tree(out, expected));
}

#[test]
fn no_prefix_keeps_every_pair() {
    let parser = Parser::default();
    let out = parser.parse_iter(pairs(&[("a", "1"), ("b", "x")])).unwrap();
    let expected = obj(vec![("b", text("x")), ("a", Value::Int(1))]);
    assert!(same_tree(out, expected));
}
