use std::collections::HashMap;

use zero2prod::serializer::EnvSerializerBuilder;
use zero2prod::value::Value;

fn s(text: &str) -> String {
    text.to_string()
}

fn field(name: &str, value: Value) -> (String, Value) {
    (name.to_string(), value)
}

/// `struct Foo { bazz: <value> }`
fn foo(bazz: Value) -> Value {
    Value::Struct(vec![field("bazz", bazz)])
}

/// Reads `KEY=value` lines as a `.env` loader does: a value in double quotes
/// loses its quotes, and a later line for a key wins.
fn load(contents: &str) -> HashMap<String, String> {
    let mut vars = HashMap::new();
    for line in contents.lines() {
        let (k, v) = line.split_once('=').expect("line without '='");
        let v = if v.len() >= 2 && v.starts_with('"') && v.ends_with('"') { &v[1..v.len() - 1] } else { v };
        vars.insert(k.to_string(), v.to_string());
    }
    vars
}

fn serialize(builder: EnvSerializerBuilder, value: &Value) -> HashMap<String, String> {
    let file = builder.serialize(value);
    assert!(file.contents.is_empty() || file.contents.ends_with('\n'));
    load(&file.contents)
}

fn bytes_seq(items: &[u64]) -> Value {
    Value::Sequence(items.iter().map(|&i| Value::U64(i)).collect())
}

#[test]
fn serialize_unit_struct() {
    let vars = serialize(EnvSerializerBuilder::new(), &foo(Value::UnitStruct(s("Bazz"))));
    assert_eq!(vars.get("BAZZ").unwrap(), "Bazz");
}

#[test]
fn serialize_unit_variant() {
    let vars = serialize(EnvSerializerBuilder::new(), &foo(Value::UnitVariant(s("A"))));
    assert_eq!(vars.get("BAZZ").unwrap(), "A");
}

#[test]
fn serialize_newtype_struct() {
    // `Bazz(42)` is serialized as its content.
    let vars = serialize(EnvSerializerBuilder::new(), &foo(Value::U64(42)));
    assert_eq!(vars.get("BAZZ").unwrap(), "42");
}

#[test]
fn serialize_newtype_variant() {
    let vars = serialize(
        EnvSerializerBuilder::new(),
        &foo(Value::NewtypeVariant(s("A"), Box::new(Value::U64(42)))),
    );
    assert_eq!(vars.get("BAZZ").unwrap(), "A_42");
}

#[test]
fn serialize_sequence() {
    let vars = serialize(EnvSerializerBuilder::new(), &foo(bytes_seq(&[0, 1, 2, 3, 4, 5, 6, 7, 8, 9])));
    assert_eq!(vars.get("BAZZ").unwrap(), "0 1 2 3 4 5 6 7 8 9");
}

#[test]
fn serialize_sequence_sep() {
    let vars = serialize(
        EnvSerializerBuilder::new().with_separator(","),
        &foo(bytes_seq(&[0, 1, 2, 3, 4, 5, 6, 7, 8, 9])),
    );
    assert_eq!(vars.get("BAZZ").unwrap(), "0,1,2,3,4,5,6,7,8,9");
}

#[test]
fn serialize_sequence_empty() {
    let vars = serialize(EnvSerializerBuilder::new(), &foo(bytes_seq(&[])));
    assert_eq!(vars.get("BAZZ"), None);
}

#[test]
fn serialize_tuple() {
    let value = foo(Value::Sequence(vec![Value::Str(s("Hello")), Value::Str(s("World"))]));
    let vars = serialize(EnvSerializerBuilder::new(), &value);
    assert_eq!(vars.get("BAZZ").unwrap(), "Hello World");
}

#[test]
fn serialize_tuple_sep() {
    let value = foo(Value::Sequence(vec![Value::Str(s("Hello")), Value::Str(s("World"))]));
    let vars = serialize(EnvSerializerBuilder::new().with_separator(","), &value);
    assert_eq!(vars.get("BAZZ").unwrap(), "Hello,World");
}

#[test]
fn serialize_tuple_unit() {
    let vars = serialize(EnvSerializerBuilder::new(), &foo(Value::Unit));
    assert_eq!(vars.get("BAZZ"), None);
}

#[test]
fn serialize_tuple_struct() {
    let value = foo(Value::Sequence(vec![Value::Char('a'), Value::Char('b'), Value::Char('c')]));
    let vars = serialize(EnvSerializerBuilder::new(), &value);
    assert_eq!(vars.get("BAZZ").unwrap(), "a b c");
}

#[test]
fn serialize_tuple_struct_sep() {
    let value = foo(Value::Sequence(vec![Value::Char('a'), Value::Char('b'), Value::Char('c')]));
    let vars = serialize(EnvSerializerBuilder::new().with_separator(","), &value);
    assert_eq!(vars.get("BAZZ").unwrap(), "a,b,c");
}

#[test]
fn serialize_tuple_variant() {
    let value = foo(Value::TupleVariant(s("A"), vec![Value::Char('a'), Value::Char('b'), Value::Char('c')]));
    let vars = serialize(EnvSerializerBuilder::new(), &value);
    assert_eq!(vars.get("BAZZ").unwrap(), "A_a_b_c");
}

#[test]
fn serialize_map() {
    let value = foo(Value::Mapping(vec![
        (Value::Str(s("Hello")), Value::Str(s("World"))),
        (Value::Str(s("From")), Value::Str(s("Trantorian"))),
    ]));
    let vars = serialize(EnvSerializerBuilder::new(), &value);
    assert_eq!(vars.get("BAZZ_HELLO").unwrap(), "World");
    assert_eq!(vars.get("BAZZ_FROM").unwrap(), "Trantorian");
}

#[test]
fn serialize_struct() {
    let vars = serialize(EnvSerializerBuilder::new(), &foo(Value::U64(42)));
    assert_eq!(vars.get("BAZZ").unwrap(), "42");
}

#[test]
fn serialize_struct_nested() {
    let value = foo(Value::Struct(vec![field("val", Value::U64(42))]));
    let vars = serialize(EnvSerializerBuilder::new(), &value);
    assert_eq!(vars.get("BAZZ_VAL").unwrap(), "42");
}

#[test]
fn serialize_struct_variant() {
    let value = foo(Value::StructVariant(
        s("Abc"),
        vec![field("a", Value::Char('a')), field("b", Value::Char('b')), field("c", Value::Char('c'))],
    ));
    let vars = serialize(EnvSerializerBuilder::new(), &value);
    assert_eq!(vars.get("BAZZ_ABC_A").unwrap(), "a");
    assert_eq!(vars.get("BAZZ_ABC_B").unwrap(), "b");
    assert_eq!(vars.get("BAZZ_ABC_C").unwrap(), "c");
}

#[test]
fn serialize_prefix() {
    let vars = serialize(EnvSerializerBuilder::new().with_prefix("foo"), &foo(Value::U64(42)));
    assert_eq!(vars.get("FOO_BAZZ").unwrap(), "42");
}

// The exact file contents.

#[test]
fn file_contents_are_lines_in_order() {
    let value = Value::Struct(vec![
        field("a", Value::U64(1)),
        field("b", Value::Sequence(vec![Value::U64(2), Value::U64(3)])),
        field("c", Value::Struct(vec![field("d", Value::Str(s("x y")))])),
    ]);
    let file = EnvSerializerBuilder::new().serialize(&value);
    assert_eq!(file.contents, "A=1\nB=\"2 3\"\nC_D=x y\n");
    assert_eq!(file.path, ".env");
}

#[test]
fn builder_defaults_and_setters() {
    let b = EnvSerializerBuilder::new();
    assert_eq!(b.clone(), EnvSerializerBuilder::default());
    let file = b.with_path("/tmp/out.env").serialize(&foo(Value::Bool(true)));
    assert_eq!(file.path, "/tmp/out.env");
    assert_eq!(file.contents, "BAZZ=0\n");
    // The setters commute: each sets its own part only.
    let x = EnvSerializerBuilder::new().with_prefix("p").with_separator(";").with_path("f");
    let y = EnvSerializerBuilder::new().with_path("f").with_separator(";").with_prefix("p");
    assert_eq!(x, y);
}

#[test]
fn booleans_are_zero_and_one() {
    let value = Value::Struct(vec![field("t", Value::Bool(true)), field("f", Value::Bool(false))]);
    assert_eq!(EnvSerializerBuilder::new().serialize(&value).contents, "T=0\nF=1\n");
}

#[test]
fn integers_and_bytes() {
    let value = Value::Struct(vec![
        field("neg", Value::I64(-1234)),
        field("big", Value::U64(u64::MAX)),
        field("min", Value::I64(i64::MIN)),
        field("raw", Value::Bytes(vec![0xde, 0xad, 0x0f, 0x10])),
        field("float", Value::Float(s("1.5"))),
    ]);
    assert_eq!(
        EnvSerializerBuilder::new().serialize(&value).contents,
        "NEG=-1234\nBIG=18446744073709551615\nMIN=-9223372036854775808\nRAW=dead0f10\nFLOAT=1.5\n"
    );
}

#[test]
fn scalar_at_top_writes_nothing() {
    assert_eq!(EnvSerializerBuilder::new().serialize(&Value::U64(7)).contents, "");
    assert_eq!(EnvSerializerBuilder::new().with_prefix("p").serialize(&Value::Str(s("x"))).contents, "");
}

#[test]
fn sequence_at_top_uses_prefix() {
    let file = EnvSerializerBuilder::new().with_prefix("list").serialize(&bytes_seq(&[1, 2]));
    assert_eq!(file.contents, "LIST=\"1 2\"\n");
}

#[test]
fn prefix_equals_outer_field() {
    // Law: serializing with a prefix is serializing the value as that field.
    let inner = || Value::Struct(vec![field("val", Value::U64(42)), field("xs", bytes_seq(&[1, 2]))]);
    let prefixed = EnvSerializerBuilder::new().with_prefix("outer").serialize(&inner());
    let wrapped = EnvSerializerBuilder::new().serialize(&Value::Struct(vec![field("outer", inner())]));
    assert_eq!(prefixed.contents, wrapped.contents);
    assert_eq!(prefixed.contents, "OUTER_VAL=42\nOUTER_XS=\"1 2\"\n");
}

#[test]
fn keys_stay_under_prefix() {
    // Law: every variable is named below the prefix.
    let value = foo(Value::Mapping(vec![(Value::Str(s("k")), Value::Str(s("v")))]));
    let vars = EnvSerializerBuilder::new().with_prefix("app").variables(&value);
    assert!(!vars.is_empty());
    for var in &vars {
        assert!(var.key.starts_with("app"));
    }
}

#[test]
fn map_last_entry_wins() {
    // Law: one variable per key, holding the value of the key's last entry.
    let value = foo(Value::Mapping(vec![
        (Value::Str(s("a")), Value::U64(1)),
        (Value::Str(s("b")), Value::U64(2)),
        (Value::Str(s("a")), Value::U64(3)),
        (Value::Unit, Value::U64(4)),
        (Value::Str(s("c")), Value::Unit),
    ]));
    let vars = EnvSerializerBuilder::new().variables(&value);
    let pairs: Vec<(&str, &str)> = vars.iter().map(|v| (v.key.as_str(), v.value.as_str())).collect();
    assert_eq!(pairs, vec![("bazz_a", "3"), ("bazz_b", "2")]);
}

#[test]
fn nested_values_in_sequences() {
    // A struct inside a sequence writes its fields under the sequence's key
    // and hands nothing to the sequence.
    let value = foo(Value::Sequence(vec![
        Value::U64(1),
        Value::Struct(vec![field("x", Value::U64(2))]),
        Value::NewtypeVariant(s("V"), Box::new(Value::U64(3))),
    ]));
    assert_eq!(EnvSerializerBuilder::new().serialize(&value).contents, "BAZZ_X=2\nBAZZ=\"1 V_3\"\n");
}

#[test]
fn struct_variant_fields_render_under_outer_key() {
    let value = foo(Value::StructVariant(
        s("V"),
        vec![field("inner", Value::Struct(vec![field("x", Value::U64(1))])), field("y", Value::U64(2))],
    ));
    assert_eq!(EnvSerializerBuilder::new().serialize(&value).contents, "BAZZ_X=1\nBAZZ_V_Y=2\n");
}

#[test]
fn tuple_variant_without_texts_writes_nothing() {
    let value = foo(Value::TupleVariant(s("A"), vec![Value::Unit]));
    assert_eq!(EnvSerializerBuilder::new().serialize(&value).contents, "");
}

#[test]
fn empty_key_map_entries_keep_underscore() {
    let value = Value::Mapping(vec![(Value::Str(s("k")), Value::Str(s("v")))]);
    assert_eq!(EnvSerializerBuilder::new().serialize(&value).contents, "_K=v\n");
}

#[test]
fn keys_are_upper_cased_per_unicode() {
    let value = Value::Struct(vec![field("straße", Value::U64(1))]);
    assert_eq!(EnvSerializerBuilder::new().serialize(&value).contents, "STRASSE=1\n");
}

#[test]
fn separator_keeps_keys() {
    // Law: the separator changes values only, never which keys are written.
    let value = Value::Struct(vec![
        field("xs", Value::Sequence(vec![Value::U64(1), Value::U64(2)])),
        field("m", Value::Mapping(vec![(Value::Str(s("k")), Value::Sequence(vec![Value::U64(3)]))])),
    ]);
    let keys = |sep: &str| -> Vec<String> {
        EnvSerializerBuilder::new().with_separator(sep).variables(&value).into_iter().map(|v| v.key).collect()
    };
    assert_eq!(keys(" "), keys(","));
    let values: Vec<String> =
        EnvSerializerBuilder::new().with_separator(",").variables(&value).into_iter().map(|v| v.value).collect();
    assert_eq!(values, vec!["\"1,2\"".to_string(), "\"3\"".to_string()]);
}
