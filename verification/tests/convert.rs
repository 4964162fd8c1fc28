use bevy_vm::document::parse_json;
use bevy_vm::system::script::convert::{from_dynamic, to_dynamic, ConvertError};
use bevy_vm::system::script::dynamic::Dynamic;
use bevy_vm::value::{Number, Value};

fn value(text: &str) -> Value {
    parse_json(text).expect("test value should be valid JSON")
}

fn round_trip(text: &str) -> Value {
    from_dynamic(to_dynamic(&value(text))).expect("应能往返转换")
}

#[test]
fn integer_round_trips_as_integer() {
    assert_eq!(round_trip("42"), value("42"));
}

#[test]
fn float_round_trips_as_float() {
    assert_eq!(round_trip("3.5"), value("3.5"));
}

#[test]
fn string_round_trips() {
    assert_eq!(round_trip("\"hello\""), value("\"hello\""));
}

#[test]
fn bool_and_null_round_trip() {
    assert_eq!(round_trip("true"), value("true"));
    assert_eq!(round_trip("null"), value("null"));
}

#[test]
fn nested_object_and_array_round_trip() {
    let original = value(r#"{"stats": {"hp": 10, "mp": 5}, "bag": ["a", "b"]}"#);
    let restored = from_dynamic(to_dynamic(&original)).expect("应能往返");
    assert_eq!(restored, original);
}

#[test]
fn number_exposed_as_plain_scalar_not_tagged() {
    let dynamic = to_dynamic(&value("7"));
    assert_eq!(dynamic.as_int().expect("应为整数"), 7);
}

#[test]
fn negative_integers_round_trip() {
    assert_eq!(round_trip("-9223372036854775808"), value("-9223372036854775808"));
    assert_eq!(round_trip("-1"), value("-1"));
}

#[test]
fn integers_above_the_signed_range_become_the_nearest_double() {
    for n in [
        1u64 << 63,
        (1u64 << 63) + 1,
        (1u64 << 63) + 1024,
        (1u64 << 63) + 1025,
        (1u64 << 63) + 3072,
        u64::MAX - 1023,
        u64::MAX,
    ] {
        let dynamic = to_dynamic(&Value::Number(Number::PosInt(n)));
        assert_eq!(dynamic, Dynamic::Float((n as f64).to_bits()));
    }
}

#[test]
fn what_is_no_number_becomes_null() {
    for f in [f64::NAN, f64::INFINITY, f64::NEG_INFINITY] {
        assert_eq!(from_dynamic(Dynamic::Float(f.to_bits())), Ok(Value::Null));
    }
    assert_eq!(
        from_dynamic(Dynamic::Float(f64::MAX.to_bits())),
        Ok(Value::Number(Number::Float(f64::MAX.to_bits())))
    );
}

#[test]
fn characters_become_strings() {
    assert_eq!(from_dynamic(Dynamic::Char('é')), Ok(Value::String("é".to_owned())));
}

#[test]
fn unknown_types_are_refused() {
    let error = from_dynamic(Dynamic::Array(vec![Dynamic::Other("FnPtr".to_owned())]));
    assert_eq!(error, Err(ConvertError::Unsupported { kind: "FnPtr".to_owned() }));
    assert_eq!(
        ConvertError::Unsupported { kind: "FnPtr".to_owned() }.message(),
        "script value of type `FnPtr` cannot be converted to a JSON value"
    );
    assert_eq!(
        ConvertError::String { kind: "x".to_owned() }.message(),
        "failed to read string value: x"
    );
    assert_eq!(
        ConvertError::Array { kind: "x".to_owned() }.message(),
        "failed to read array value: x"
    );
}
