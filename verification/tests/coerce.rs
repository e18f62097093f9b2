use env_json::scalar::coerce;
use env_json::value::Value;
use env_json::Error;

#[test]
fn integer_wins_over_float() {
    let v = coerce(&"1".to_string()).unwrap();
    assert!(matches!(v, Value::Int(1)));
}

#[test]
fn float_literal() {
    let v = coerce(&"1.5".to_string()).unwrap();
    match v {
        Value::Float(bits) => assert_eq!(f64::from_bits(bits), 1.5),
        other => panic!("expected a float, got {:?}", other),
    }
}

#[test]
fn float_with_exponent_and_sign() {
    let v = coerce(&"+2.5e2".to_string()).unwrap();
    match v {
        Value::Float(bits) => assert_eq!(f64::from_bits(bits), 250.0),
        other => panic!("expected a float, got {:?}", other),
    }
}

#[test]
fn leading_dot_float() {
    let v = coerce(&".25".to_string()).unwrap();
    match v {
        Value::Float(bits) => assert_eq!(f64::from_bits(bits), 0.25),
        other => panic!("expected a float, got {:?}", other),
    }
}

#[test]
fn booleans_are_case_sensitive() {
    assert!(matches!(coerce(&"true".to_string()).unwrap(), Value::Bool(true)));
    assert!(matches!(coerce(&"false".to_string()).unwrap(), Value::Bool(false)));
    assert!(matches!(coerce(&"True".to_string()).unwrap(), Value::Text(_)));
}

#[test]
fn everything_else_is_text_unchanged() {
    match coerce(&"MixedCase Words".to_string()).unwrap() {
        Value::Text(s) => assert_eq!(s, "MixedCase Words"),
        other => panic!("expected text, got {:?}", other),
    }
}

#[test]
fn negative_integer() {
    assert!(matches!(coerce(&"-42".to_string()).unwrap(), Value::Int(-42)));
    assert!(matches!(coerce(&"+7".to_string()).unwrap(), Value::Int(7)));
}

#[test]
fn integer_overflow_falls_to_float() {
    let v = coerce(&"9999999999999999999".to_string()).unwrap();
    match v {
        Value::Float(bits) => assert_eq!(f64::from_bits(bits), 9999999999999999999f64),
        other => panic!("expected a float, got {:?}", other),
    }
}

#[test]
fn non_finite_literals_are_errors() {
    assert_eq!(coerce(&"inf".to_string()).unwrap_err(), Error::InvalidScalar);
    assert_eq!(coerce(&"-Infinity".to_string()).unwrap_err(), Error::InvalidScalar);
    assert_eq!(coerce(&"NaN".to_string()).unwrap_err(), Error::InvalidScalar);
}

#[test]
fn overflowing_float_is_an_error() {
    assert_eq!(coerce(&"1e999".to_string()).unwrap_err(), Error::InvalidScalar);
}

#[test]
fn underflowing_float_is_zero() {
    match coerce(&"1e-999".to_string()).unwrap() {
        Value::Float(bits) => assert_eq!(f64::from_bits(bits), 0.0),
        other => panic!("expected a float, got {:?}", other),
    }
}

#[test]
fn not_quite_numbers_are_text() {
    assert!(matches!(coerce(&"1.2.3".to_string()).unwrap(), Value::Text(_)));
    assert!(matches!(coerce(&"0x10".to_string()).unwrap(), Value::Text(_)));
    assert!(matches!(coerce(&"1e".to_string()).unwrap(), Value::Text(_)));
    assert!(matches!(coerce(&"".to_string()).unwrap(), Value::Text(_)));
    assert!(matches!(coerce(&".".to_string()).unwrap(), Value::Text(_)));
}
