use zero2prod::serialize::{supports, EnvSerializer};
use zero2prod::value::Value;

fn field(name: &str, value: Value) -> (String, Value) {
    (name.to_string(), value)
}

fn assignments(serializer: &EnvSerializer, value: &Value) -> Vec<(String, String)> {
    assert!(supports(value));
    serializer.serialize(value).into_iter().map(|v| (v.key, v.value)).collect()
}

fn pair(k: &str, v: &str) -> (String, String) {
    (k.to_string(), v.to_string())
}

#[test]
fn env_serialize_struct() {
    let value = Value::Struct(vec![field("bazz", Value::U64(42))]);
    assert_eq!(assignments(&EnvSerializer::default(), &value), vec![pair("BAZZ", "42")]);
}

#[test]
fn env_serialize_struct_nested() {
    let value = Value::Struct(vec![field("bazz", Value::Struct(vec![field("val", Value::U64(42))]))]);
    assert_eq!(assignments(&EnvSerializer::default(), &value), vec![pair("BAZZ_VAL", "42")]);
}

#[test]
fn env_serialize_prefix() {
    let value = Value::Struct(vec![field("bazz", Value::U64(42))]);
    let serializer = EnvSerializer::default().with_prefix("foo");
    assert_eq!(assignments(&serializer, &value), vec![pair("FOO_BAZZ", "42")]);
}

#[test]
fn env_scalars_and_units() {
    let value = Value::Struct(vec![
        field("t", Value::Bool(true)),
        field("f", Value::Bool(false)),
        field("i", Value::I64(-3)),
        field("c", Value::Char('x')),
        field("s", Value::Str("text".to_string())),
        field("n", Value::Unit),
        field("u", Value::UnitStruct("U".to_string())),
        field("v", Value::UnitVariant("V".to_string())),
        field("w", Value::NewtypeVariant("W".to_string(), Box::new(Value::U64(7)))),
    ]);
    let serializer = EnvSerializer::new().with_separator(",");
    assert_eq!(
        assignments(&serializer, &value),
        vec![pair("T", "1"), pair("F", "2"), pair("I", "-3"), pair("C", "x"), pair("S", "text"), pair("W", "7")]
    );
}

#[test]
fn env_unsupported_values() {
    assert!(!supports(&Value::Sequence(vec![])));
    assert!(!supports(&Value::Bytes(vec![1])));
    assert!(!supports(&Value::Mapping(vec![])));
    assert!(!supports(&Value::TupleVariant("A".to_string(), vec![])));
    assert!(!supports(&Value::StructVariant("A".to_string(), vec![])));
    assert!(!supports(&Value::Struct(vec![field("a", Value::U64(1)), field("b", Value::Sequence(vec![]))])));
    assert!(supports(&Value::Struct(vec![field("a", Value::Struct(vec![]))])));
    assert!(supports(&Value::U64(1)));
}

#[test]
fn env_prefix_equals_outer_field() {
    let inner = || Value::Struct(vec![field("val", Value::U64(1))]);
    let prefixed = assignments(&EnvSerializer::new().with_prefix("outer"), &inner());
    let wrapped = assignments(&EnvSerializer::new(), &Value::Struct(vec![field("outer", inner())]));
    assert_eq!(prefixed, wrapped);
    assert_eq!(prefixed, vec![pair("OUTER_VAL", "1")]);
}
