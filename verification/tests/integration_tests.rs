use borsh::to_vec;
use borsh_serde_adapter::deserialize_adapter::deserialize_from_schema;
use borsh_serde_adapter::errors::{CodecError, ErrorKind, ExpectationError};
use borsh_serde_adapter::json::{JsonNumber, JsonValue};
use borsh_serde_adapter::schema::{Definition, Fields, LengthRange, Primitive, Schema};
use borsh_serde_adapter::serialize_adapter::serialize_serde_json_to_borsh;
use serde_json::{Number, Value};

fn to_serde(value: &JsonValue) -> Value {
    match value {
        JsonValue::Null => Value::Null,
        JsonValue::Bool(b) => Value::Bool(*b),
        JsonValue::Number(JsonNumber::PosInt(n)) => Value::Number(Number::from(*n)),
        JsonValue::Number(JsonNumber::NegInt(n)) => Value::Number(Number::from(*n)),
        JsonValue::Number(JsonNumber::Float(bits)) => Value::from(f64::from_bits(*bits)),
        JsonValue::String(s) => Value::String(s.clone()),
        JsonValue::Array(items) => Value::Array(items.iter().map(to_serde).collect()),
        JsonValue::Object(entries) => {
            let mut map = serde_json::Map::new();
            for (key, member) in entries {
                if !map.contains_key(key) {
                    map.insert(key.clone(), to_serde(member));
                }
            }
            Value::Object(map)
        }
    }
}

fn from_serde(value: &Value) -> JsonValue {
    match value {
        Value::Null => JsonValue::Null,
        Value::Bool(b) => JsonValue::Bool(*b),
        Value::Number(n) => {
            if let Some(u) = n.as_u64() {
                JsonValue::Number(JsonNumber::PosInt(u))
            } else if let Some(i) = n.as_i64() {
                JsonValue::Number(JsonNumber::NegInt(i))
            } else {
                JsonValue::Number(JsonNumber::Float(n.as_f64().unwrap().to_bits()))
            }
        }
        Value::String(s) => JsonValue::String(s.clone()),
        Value::Array(items) => JsonValue::Array(items.iter().map(from_serde).collect()),
        Value::Object(map) => {
            JsonValue::Object(map.iter().map(|(k, v)| (k.clone(), from_serde(v))).collect())
        }
    }
}

fn object(members: Vec<(&str, Value)>) -> Value {
    let mut map = serde_json::Map::new();
    for (key, member) in members {
        map.insert(key.to_string(), member);
    }
    Value::Object(map)
}

fn text(s: &str) -> Value {
    Value::String(s.to_string())
}

fn named(fields: &[(&str, &str)]) -> Definition {
    Definition::Struct {
        fields: Fields::NamedFields(
            fields.iter().map(|(name, decl)| (name.to_string(), decl.to_string())).collect(),
        ),
    }
}

fn unnamed(fields: &[&str]) -> Definition {
    Definition::Struct {
        fields: Fields::UnnamedFields(fields.iter().map(|decl| decl.to_string()).collect()),
    }
}

fn sequence(length_width: u8, start: u64, end: u64, elements: &str) -> Definition {
    Definition::Sequence {
        length_width,
        length_range: LengthRange { start, end },
        elements: elements.to_string(),
    }
}

fn tuple(elements: &[&str]) -> Definition {
    Definition::Tuple { elements: elements.iter().map(|decl| decl.to_string()).collect() }
}

fn enumeration(tag_width: u8, variants: &[(i64, &str, &str)]) -> Definition {
    Definition::Enum {
        tag_width,
        variants: variants
            .iter()
            .map(|(discriminant, name, decl)| (*discriminant, name.to_string(), decl.to_string()))
            .collect(),
    }
}

fn schema(declaration: &str, definitions: Vec<(&str, Definition)>) -> Schema {
    let mut schema = Schema::new(declaration.to_string());
    for (name, definition) in definitions {
        schema.insert(name.to_string(), definition);
    }
    schema
}

fn person_schema() -> Schema {
    schema(
        "Person",
        vec![
            ("Person", named(&[("first_name", "String"), ("last_name", "String")])),
            ("String", sequence(4, 0, u32::MAX as u64, "u8")),
            ("u8", Definition::Primitive(1)),
        ],
    )
}

fn test_enum_schema() -> Schema {
    schema(
        "E",
        vec![("E", enumeration(1, &[(0, "One", "u8"), (1, "Two", "u8"), (2, "Three", "u8")]))],
    )
}

const TUPLE: &str = "(u8, u16, u32, u64, u128, i8, i16, i32, i64, i128, f32, f64, String, bool)";
const TUPLE_EXCEPT_128: &str = "(u8, u16, u32, u64, i8, i16, i32, i64, f32, f64, String, bool)";

fn shared_definitions() -> Vec<(&'static str, Definition)> {
    vec![
        ("Person", named(&[("first_name", "String"), ("last_name", "String")])),
        (
            "TestEnum",
            enumeration(
                1,
                &[(0, "One", "TestEnumOne"), (1, "Two", "TestEnumTwo"), (2, "Three", "TestEnumThree")],
            ),
        ),
        ("TestEnumOne", unnamed(&["u8"])),
        ("TestEnumTwo", unnamed(&["u8"])),
        ("TestEnumThree", unnamed(&["u8"])),
        ("[u8; 3]", sequence(0, 3, 3, "u8")),
        ("Vec<String>", sequence(4, 0, u32::MAX as u64, "String")),
        ("String", sequence(4, 0, u32::MAX as u64, "u8")),
        ("bool", Definition::Primitive(1)),
        ("f32", Definition::Primitive(4)),
        ("f64", Definition::Primitive(8)),
        ("i8", Definition::Primitive(1)),
        ("i16", Definition::Primitive(2)),
        ("i32", Definition::Primitive(4)),
        ("i64", Definition::Primitive(8)),
        ("u8", Definition::Primitive(1)),
        ("u16", Definition::Primitive(2)),
        ("u32", Definition::Primitive(4)),
        ("u64", Definition::Primitive(8)),
    ]
}

fn all_types_schema() -> Schema {
    let mut definitions = shared_definitions();
    definitions.push((
        "AllTypes",
        named(&[
            ("type_u8", "u8"),
            ("type_u16", "u16"),
            ("type_u32", "u32"),
            ("type_u64", "u64"),
            ("type_u128", "u128"),
            ("type_i8", "i8"),
            ("type_i16", "i16"),
            ("type_i32", "i32"),
            ("type_i64", "i64"),
            ("type_i128", "i128"),
            ("type_f32", "f32"),
            ("type_f64", "f64"),
            ("type_string", "String"),
            ("type_bool", "bool"),
            ("type_array", "[u8; 3]"),
            ("type_sequence", "Vec<String>"),
            ("type_tuple", TUPLE),
            ("type_enum", "TestEnum"),
            ("type_struct", "Person"),
        ]),
    ));
    definitions.push((
        TUPLE,
        tuple(&[
            "u8", "u16", "u32", "u64", "u128", "i8", "i16", "i32", "i64", "i128", "f32", "f64",
            "String", "bool",
        ]),
    ));
    definitions.push(("i128", Definition::Primitive(16)));
    definitions.push(("u128", Definition::Primitive(16)));
    schema("AllTypes", definitions)
}

fn all_types_except_128_schema() -> Schema {
    let mut definitions = shared_definitions();
    definitions.push((
        "AllTypesExcept128",
        named(&[
            ("type_u8", "u8"),
            ("type_u16", "u16"),
            ("type_u32", "u32"),
            ("type_u64", "u64"),
            ("type_i8", "i8"),
            ("type_i16", "i16"),
            ("type_i32", "i32"),
            ("type_i64", "i64"),
            ("type_f32", "f32"),
            ("type_f64", "f64"),
            ("type_string", "String"),
            ("type_bool", "bool"),
            ("type_array", "[u8; 3]"),
            ("type_sequence", "Vec<String>"),
            ("type_tuple", TUPLE_EXCEPT_128),
            ("type_enum", "TestEnum"),
            ("type_struct", "Person"),
        ]),
    ));
    definitions.push((
        TUPLE_EXCEPT_128,
        tuple(&[
            "u8", "u16", "u32", "u64", "i8", "i16", "i32", "i64", "f32", "f64", "String", "bool",
        ]),
    ));
    schema("AllTypesExcept128", definitions)
}

fn person_bytes() -> Vec<u8> {
    to_vec(&("John".to_string(), "Doe".to_string())).expect("Error trying to seralize Person")
}

/// The bytes of the value with every kind of field: each field written by `borsh`.
fn all_types_bytes() -> Vec<u8> {
    let mut bytes = Vec::new();
    bytes.extend(to_vec(&u8::MAX).unwrap());
    bytes.extend(to_vec(&u16::MAX).unwrap());
    bytes.extend(to_vec(&u32::MAX).unwrap());
    bytes.extend(to_vec(&u64::MAX).unwrap());
    bytes.extend(to_vec(&u128::MAX).unwrap());
    bytes.extend(to_vec(&i8::MIN).unwrap());
    bytes.extend(to_vec(&i16::MIN).unwrap());
    bytes.extend(to_vec(&i32::MIN).unwrap());
    bytes.extend(to_vec(&i64::MIN).unwrap());
    bytes.extend(to_vec(&i128::MIN).unwrap());
    bytes.extend(to_vec(&f32::MIN).unwrap());
    bytes.extend(to_vec(&f64::MIN).unwrap());
    bytes.extend(to_vec(&"abc".to_string()).unwrap());
    bytes.extend(to_vec(&false).unwrap());
    bytes.extend(to_vec(&[b'a', b'b', b'c']).unwrap());
    bytes.extend(to_vec(&vec!["a".to_string(), "b".to_string(), "c".to_string()]).unwrap());
    bytes.extend(
        to_vec(&(
            u8::MAX,
            u16::MAX,
            u32::MAX,
            u64::MAX,
            u128::MAX,
            i8::MIN,
            i16::MIN,
            i32::MIN,
            i64::MIN,
            i128::MIN,
            f32::MAX,
            f64::MAX,
            "xyz".to_string(),
            true,
        ))
        .unwrap(),
    );
    bytes.extend(to_vec(&(0u8, 1u8)).unwrap());
    bytes.extend(person_bytes());
    bytes
}

fn all_types_except_128_bytes() -> Vec<u8> {
    let mut bytes = Vec::new();
    bytes.extend(to_vec(&u8::MAX).unwrap());
    bytes.extend(to_vec(&u16::MAX).unwrap());
    bytes.extend(to_vec(&u32::MAX).unwrap());
    bytes.extend(to_vec(&u64::MAX).unwrap());
    bytes.extend(to_vec(&i8::MIN).unwrap());
    bytes.extend(to_vec(&i16::MIN).unwrap());
    bytes.extend(to_vec(&i32::MIN).unwrap());
    bytes.extend(to_vec(&i64::MIN).unwrap());
    bytes.extend(to_vec(&f32::MIN).unwrap());
    bytes.extend(to_vec(&f64::MIN).unwrap());
    bytes.extend(to_vec(&"abc".to_string()).unwrap());
    bytes.extend(to_vec(&false).unwrap());
    bytes.extend(to_vec(&[b'a', b'b', b'c']).unwrap());
    bytes.extend(to_vec(&vec!["a".to_string(), "b".to_string(), "c".to_string()]).unwrap());
    bytes.extend(
        to_vec(&(
            u8::MAX,
            u16::MAX,
            u32::MAX,
            u64::MAX,
            i8::MIN,
            i16::MIN,
            i32::MIN,
            i64::MIN,
            f32::MAX,
            f64::MAX,
            "xyz".to_string(),
            true,
        ))
        .unwrap(),
    );
    bytes.extend(to_vec(&(0u8, 1u8)).unwrap());
    bytes.extend(person_bytes());
    bytes
}

/// The JSON value of the value with every kind of field but the 128-bit integers.
fn all_types_except_128_value() -> Value {
    object(vec![
        ("type_u8", Value::from(u8::MAX)),
        ("type_u16", Value::from(u16::MAX)),
        ("type_u32", Value::from(u32::MAX)),
        ("type_u64", Value::from(u64::MAX)),
        ("type_i8", Value::from(i8::MIN)),
        ("type_i16", Value::from(i16::MIN)),
        ("type_i32", Value::from(i32::MIN)),
        ("type_i64", Value::from(i64::MIN)),
        ("type_f32", Value::from(f32::MIN)),
        ("type_f64", Value::from(f64::MIN)),
        ("type_string", text("abc")),
        ("type_bool", Value::Bool(false)),
        ("type_array", Value::Array(vec![Value::from(97), Value::from(98), Value::from(99)])),
        ("type_sequence", Value::Array(vec![text("a"), text("b"), text("c")])),
        (
            "type_tuple",
            Value::Array(vec![
                Value::from(u8::MAX),
                Value::from(u16::MAX),
                Value::from(u32::MAX),
                Value::from(u64::MAX),
                Value::from(i8::MIN),
                Value::from(i16::MIN),
                Value::from(i32::MIN),
                Value::from(i64::MIN),
                Value::from(f32::MAX),
                Value::from(f64::MAX),
                text("xyz"),
                Value::Bool(true),
            ]),
        ),
        ("type_enum", object(vec![("One", Value::from(1))])),
        ("type_struct", object(vec![("first_name", text("John")), ("last_name", text("Doe"))])),
    ])
}

fn decode(bytes: &[u8], schema: &Schema) -> Result<Value, CodecError> {
    let mut cursor = bytes;
    deserialize_from_schema(&mut cursor, schema).map(|value| to_serde(&value))
}

fn decode_all(bytes: &[u8], schema: &Schema) -> Value {
    let mut cursor = bytes;
    let value = deserialize_from_schema(&mut cursor, schema).expect("Deserialization failed");
    assert!(cursor.is_empty(), "bytes left over");
    to_serde(&value)
}

fn encode(value: &Value, schema: &Schema) -> Result<Vec<u8>, CodecError> {
    let mut writer = Vec::new();
    serialize_serde_json_to_borsh(&mut writer, &from_serde(value), schema)?;
    Ok(writer)
}

#[test]
fn deserialize_from_borsh_schema() {
    let container = person_schema();

    let person_ser = person_bytes();

    let result = deserialize_from_schema(&mut person_ser.as_slice(), &container)
        .expect("Deserialization from schema failed");
    assert_eq!(
        to_serde(&result),
        object(vec![("first_name", text("John")), ("last_name", text("Doe"))])
    );
}

#[test]
fn serialize_from_borsh_schema() {
    let container = person_schema();

    let person_value = from_serde(&object(vec![
        ("first_name", text("John")),
        ("last_name", text("Doe")),
    ]));
    let mut person_writer = Vec::new();
    assert!(person_writer.len() == 0);

    let _ = serialize_serde_json_to_borsh(&mut person_writer, &person_value, &container)
        .expect("Serialization failed");
    assert!(person_writer.len() > 0);

    let result = deserialize_from_schema(&mut person_writer.as_slice(), &container)
        .expect("Deserialization failed");
    assert_eq!(
        to_serde(&result),
        object(vec![("first_name", text("John")), ("last_name", text("Doe"))])
    );
}

#[test]
fn all_types_deserialize_test() {
    let container = all_types_schema();

    let all_types_ser = all_types_bytes();

    let result = deserialize_from_schema(&mut all_types_ser.as_slice(), &container)
        .expect("Deserialization from schema failed");
    let result = to_serde(&result);
    println!("{:?}", result);

    assert_eq!(
        result["type_array"],
        Value::Array(vec![Value::from(97), Value::from(98), Value::from(99)])
    );
    assert_eq!(result["type_bool"], Value::Bool(false));
    // a struct with one unnamed field is transparent: the payload is not wrapped
    assert_eq!(result["type_enum"], object(vec![("One", Value::from(1))]));
    assert_eq!(result["type_f32"], Value::from(f32::MIN));
    assert_eq!(result["type_f64"], Value::from(f64::MIN));
    assert_eq!(result["type_i128"], text("-170141183460469231731687303715884105728"));
    assert_eq!(result["type_i16"], Value::from(i16::MIN));
    assert_eq!(result["type_i32"], Value::from(i32::MIN));
    assert_eq!(result["type_i64"], Value::from(i64::MIN));
    assert_eq!(result["type_i8"], Value::from(i8::MIN));
    assert_eq!(result["type_sequence"], Value::Array(vec![text("a"), text("b"), text("c")]));
    assert_eq!(result["type_string"], text("abc"));
    assert_eq!(
        result["type_struct"],
        object(vec![("first_name", text("John")), ("last_name", text("Doe"))])
    );
    assert_eq!(
        result["type_tuple"],
        Value::Array(vec![
            Value::from(u8::MAX),
            Value::from(u16::MAX),
            Value::from(u32::MAX),
            Value::from(u64::MAX),
            Value::from(u128::MAX.to_string()),
            Value::from(i8::MIN),
            Value::from(i16::MIN),
            Value::from(i32::MIN),
            Value::from(i64::MIN),
            Value::from(i128::MIN.to_string()),
            Value::from(f32::MAX),
            Value::from(f64::MAX),
            Value::from("xyz".to_string()),
            Value::from(true),
        ])
    );
    assert_eq!(result["type_u128"], Value::from(u128::MAX.to_string()));
    assert_eq!(result["type_u16"], Value::from(u16::MAX));
    assert_eq!(result["type_u32"], Value::from(u32::MAX));
    assert_eq!(result["type_u64"], Value::from(u64::MAX));
    assert_eq!(result["type_u8"], Value::from(u8::MAX));

    println!("{}", result.to_string());
}

#[test]
fn all_types_serialize_test() {
    let container = all_types_except_128_schema();
    let all_types_value = from_serde(&all_types_except_128_value());
    let mut all_types_writer = Vec::new();
    assert_eq!(all_types_writer.len(), 0);

    serialize_serde_json_to_borsh(&mut all_types_writer, &all_types_value, &container)
        .expect("Serialization failed");

    assert!(all_types_writer.len() > 0);

    let vec = all_types_except_128_bytes();
    assert_eq!(all_types_writer.len(), vec.len());
    assert_eq!(all_types_writer, vec);

    let result = deserialize_from_schema(&mut all_types_writer.as_slice(), &container)
        .expect("Deserialization failed");
    let result = to_serde(&result);
    println!("{}", result.to_string());

    assert_eq!(
        result["type_array"],
        Value::Array(vec![Value::from(97), Value::from(98), Value::from(99)])
    );
    assert_eq!(result["type_bool"], Value::Bool(false));
    // a struct with one unnamed field is transparent: the payload is not wrapped
    assert_eq!(result["type_enum"], object(vec![("One", Value::from(1))]));
    assert_eq!(result["type_f32"], Value::from(f32::MIN));
    assert_eq!(result["type_f64"], Value::from(f64::MIN));
    assert_eq!(result["type_i16"], Value::from(i16::MIN));
    assert_eq!(result["type_i32"], Value::from(i32::MIN));
    assert_eq!(result["type_i64"], Value::from(i64::MIN));
    assert_eq!(result["type_i8"], Value::from(i8::MIN));
    assert_eq!(result["type_sequence"], Value::Array(vec![text("a"), text("b"), text("c")]));
    assert_eq!(result["type_string"], text("abc"));
    assert_eq!(
        result["type_struct"],
        object(vec![("first_name", text("John")), ("last_name", text("Doe"))])
    );
    assert_eq!(
        result["type_tuple"],
        Value::Array(vec![
            Value::from(u8::MAX),
            Value::from(u16::MAX),
            Value::from(u32::MAX),
            Value::from(u64::MAX),
            Value::from(i8::MIN),
            Value::from(i16::MIN),
            Value::from(i32::MIN),
            Value::from(i64::MIN),
            Value::from(f32::MAX),
            Value::from(f64::MAX),
            Value::from("xyz".to_string()),
            Value::from(true),
        ])
    );
    assert_eq!(result["type_u16"], Value::from(u16::MAX));
    assert_eq!(result["type_u32"], Value::from(u32::MAX));
    assert_eq!(result["type_u64"], Value::from(u64::MAX));
    assert_eq!(result["type_u8"], Value::from(u8::MAX));
    assert_eq!(result, all_types_except_128_value());
}

#[test]
fn person_struct_round_trip() {
    let schema = person_schema();
    let value = object(vec![("first_name", text("John")), ("last_name", text("Doe"))]);
    let bytes = encode(&value, &schema).unwrap();
    assert_eq!(
        bytes,
        vec![
            0x04, 0x00, 0x00, 0x00, 0x4A, 0x6F, 0x68, 0x6E, 0x03, 0x00, 0x00, 0x00, 0x44, 0x6F,
            0x65
        ]
    );
    assert_eq!(decode_all(&bytes, &schema), value);
}

#[test]
fn enum_is_written_by_position() {
    let schema = test_enum_schema();
    let value = object(vec![("One", Value::from(1))]);
    assert_eq!(encode(&value, &schema).unwrap(), vec![0x00, 0x01]);
    assert_eq!(decode_all(&[0x00, 0x01], &schema), value);
    assert_eq!(encode(&object(vec![("Two", Value::from(7))]), &schema).unwrap(), vec![1, 7]);
    assert_eq!(encode(&object(vec![("Three", Value::from(9))]), &schema).unwrap(), vec![2, 9]);
    assert_eq!(decode_all(&[2, 9], &schema), object(vec![("Three", Value::from(9))]));
}

#[test]
fn enum_string_form_needs_an_empty_payload() {
    let schema = test_enum_schema();
    let error = encode(&text("One"), &schema).unwrap_err();
    assert_eq!(error, CodecError::Expectation(ExpectationError::Number));
    assert_eq!(error.kind(), ErrorKind::ShapeMismatch);

    let unit = schema_of(
        "E",
        vec![
            ("E", enumeration(1, &[(0, "A", "Nothing"), (1, "B", "Nothing")])),
            ("Nothing", Definition::Struct { fields: Fields::Empty }),
        ],
    );
    assert_eq!(encode(&text("B"), &unit).unwrap(), vec![1]);
    assert_eq!(encode(&text("A"), &unit).unwrap(), vec![0]);
    assert_eq!(encode(&text("C"), &unit).unwrap_err(), CodecError::UnknownVariant);
    assert_eq!(
        decode_all(&[1], &unit),
        object(vec![("B", Value::Array(vec![]))])
    );
}

fn schema_of(declaration: &str, definitions: Vec<(&str, Definition)>) -> Schema {
    schema(declaration, definitions)
}

#[test]
fn u128_is_decode_only() {
    let schema = schema_of("u128", vec![]);
    let bytes = [0xFFu8; 16];
    assert_eq!(decode_all(&bytes, &schema), text("340282366920938463463374607431768211455"));
    let error = encode(&text("340282366920938463463374607431768211455"), &schema).unwrap_err();
    assert_eq!(error, CodecError::Unsupported(Primitive::U128));
    assert_eq!(error.kind(), ErrorKind::Unsupported);

    let signed = schema_of("i128", vec![]);
    assert_eq!(decode_all(&bytes, &signed), text("-1"));
    assert_eq!(decode_all(&to_vec(&i128::MAX).unwrap(), &signed), text(&i128::MAX.to_string()));
    assert_eq!(decode_all(&to_vec(&i128::MIN).unwrap(), &signed), text(&i128::MIN.to_string()));
    assert_eq!(decode_all(&to_vec(&0i128).unwrap(), &signed), text("0"));
    assert_eq!(decode_all(&to_vec(&0u128).unwrap(), &schema), text("0"));
    assert_eq!(
        decode_all(&to_vec(&12345678901234567890123u128).unwrap(), &schema),
        text("12345678901234567890123")
    );
    assert_eq!(
        encode(&Value::from(1), &signed).unwrap_err(),
        CodecError::Unsupported(Primitive::I128)
    );
}

#[test]
fn fixed_size_array() {
    let schema = schema_of("A", vec![("A", sequence(0, 3, 3, "u8"))]);
    let three = Value::Array(vec![Value::from(97), Value::from(98), Value::from(99)]);
    assert_eq!(encode(&three, &schema).unwrap(), vec![0x61, 0x62, 0x63]);
    assert_eq!(decode_all(&[0x61, 0x62, 0x63], &schema), three);
    let two = Value::Array(vec![Value::from(97), Value::from(98)]);
    let error = encode(&two, &schema).unwrap_err();
    assert_eq!(error, CodecError::Expectation(ExpectationError::ArrayOfLength(3)));
    assert_eq!(error.kind(), ErrorKind::ShapeMismatch);
    let four = Value::Array(vec![Value::from(1), Value::from(2), Value::from(3), Value::from(4)]);
    assert_eq!(encode(&four, &schema).unwrap_err().kind(), ErrorKind::ShapeMismatch);
    assert_eq!(encode(&Value::Array(vec![]), &schema).unwrap_err().kind(), ErrorKind::ShapeMismatch);
    assert_eq!(
        encode(&text("abc"), &schema).unwrap_err(),
        CodecError::Expectation(ExpectationError::Array)
    );
    assert_eq!(decode(&[0x61, 0x62], &schema).unwrap_err(), CodecError::InvalidData(Primitive::U8));
}

#[test]
fn dynamic_sequence() {
    let schema = schema_of("V", vec![("V", sequence(4, 0, u32::MAX as u64, "String"))]);
    let value = Value::Array(vec![text("a"), text("b"), text("c")]);
    let bytes = vec![
        0x03, 0x00, 0x00, 0x00, 0x01, 0x00, 0x00, 0x00, 0x61, 0x01, 0x00, 0x00, 0x00, 0x62, 0x01,
        0x00, 0x00, 0x00, 0x63,
    ];
    assert_eq!(encode(&value, &schema).unwrap(), bytes);
    assert_eq!(decode_all(&bytes, &schema), value);
    assert_eq!(encode(&Value::Array(vec![]), &schema).unwrap(), vec![0, 0, 0, 0]);
    assert_eq!(decode_all(&[0, 0, 0, 0], &schema), Value::Array(vec![]));
}

#[test]
fn shape_mismatch() {
    let schema = schema_of("u32", vec![]);
    let error = encode(&text("abc"), &schema).unwrap_err();
    assert_eq!(error, CodecError::Expectation(ExpectationError::Number));
    assert_eq!(error.kind(), ErrorKind::ShapeMismatch);
    assert_eq!(error.to_string(), "Expected number");
}
