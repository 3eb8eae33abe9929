use borsh_serde_adapter::errors::{CodecError, ErrorKind, ExpectationError};
use borsh_serde_adapter::schema::Primitive;

#[test]
fn test_error_messages() {
    assert_eq!(ExpectationError::Null.to_string(), "Expected null");
    assert_eq!(ExpectationError::Array.to_string(), "Expected array");
    assert_eq!(ExpectationError::ArrayOfLength(5).to_string(), "Expected array of length 5");
    assert_eq!(ExpectationError::Number.to_string(), "Expected number");
    assert_eq!(ExpectationError::String.to_string(), "Expected string");
    assert_eq!(ExpectationError::Boolean.to_string(), "Expected boolean");
    assert_eq!(ExpectationError::Object.to_string(), "Expected object");
}

#[test]
fn array_length_message_writes_every_digit() {
    assert_eq!(ExpectationError::ArrayOfLength(0).to_string(), "Expected array of length 0");
    assert_eq!(ExpectationError::ArrayOfLength(10).to_string(), "Expected array of length 10");
    assert_eq!(
        ExpectationError::ArrayOfLength(u32::MAX).to_string(),
        "Expected array of length 4294967295"
    );
    assert_eq!(
        ExpectationError::ArrayOfLength(1234567890).to_string(),
        "Expected array of length 1234567890"
    );
}

#[test]
fn every_error_has_its_kind() {
    assert_eq!(CodecError::InvalidData(Primitive::Bool).kind(), ErrorKind::Malformed);
    assert_eq!(CodecError::Underflow.kind(), ErrorKind::Malformed);
    assert_eq!(CodecError::TagOutOfRange.kind(), ErrorKind::Malformed);
    assert_eq!(CodecError::LengthOutOfRange.kind(), ErrorKind::Malformed);
    assert_eq!(CodecError::DepthExceeded.kind(), ErrorKind::Malformed);
    assert_eq!(CodecError::EmptyEnum.kind(), ErrorKind::Schema);
    assert_eq!(CodecError::DuplicateField.kind(), ErrorKind::Schema);
    assert_eq!(CodecError::MissingField.kind(), ErrorKind::Schema);
    assert_eq!(CodecError::InvalidWidth.kind(), ErrorKind::Schema);
    assert_eq!(CodecError::UnknownVariant.kind(), ErrorKind::ShapeMismatch);
    assert_eq!(CodecError::LengthMismatch.kind(), ErrorKind::ShapeMismatch);
    assert_eq!(
        CodecError::Expectation(ExpectationError::Number).kind(),
        ErrorKind::ShapeMismatch
    );
    assert_eq!(CodecError::OutOfRange(Primitive::U8).kind(), ErrorKind::Range);
    assert_eq!(CodecError::Unsupported(Primitive::U128).kind(), ErrorKind::Unsupported);
}

#[test]
fn codec_error_messages() {
    assert_eq!(CodecError::InvalidData(Primitive::U16).to_string(), "invalid data: u16");
    assert_eq!(CodecError::InvalidData(Primitive::String).to_string(), "invalid data: String");
    assert_eq!(CodecError::Underflow.to_string(), "unexpected end of input");
    assert_eq!(CodecError::TagOutOfRange.to_string(), "enum tag out of range");
    assert_eq!(CodecError::LengthOutOfRange.to_string(), "length out of range");
    assert_eq!(CodecError::DepthExceeded.to_string(), "nesting too deep");
    assert_eq!(CodecError::EmptyEnum.to_string(), "enum without variants");
    assert_eq!(CodecError::DuplicateField.to_string(), "duplicate field name");
    assert_eq!(CodecError::MissingField.to_string(), "missing field");
    assert_eq!(CodecError::InvalidWidth.to_string(), "invalid prefix width");
    assert_eq!(CodecError::UnknownVariant.to_string(), "unknown variant");
    assert_eq!(CodecError::LengthMismatch.to_string(), "length not permitted");
    assert_eq!(
        CodecError::Expectation(ExpectationError::ArrayOfLength(3)).to_string(),
        "Expected array of length 3"
    );
    assert_eq!(
        CodecError::OutOfRange(Primitive::I8).to_string(),
        "number out of range: i8"
    );
    assert_eq!(
        CodecError::Unsupported(Primitive::I128).to_string(),
        "encoding not supported: i128"
    );
}

#[test]
fn primitives_are_found_by_name() {
    let all = [
        (Primitive::U8, "u8"),
        (Primitive::U16, "u16"),
        (Primitive::U32, "u32"),
        (Primitive::U64, "u64"),
        (Primitive::U128, "u128"),
        (Primitive::I8, "i8"),
        (Primitive::I16, "i16"),
        (Primitive::I32, "i32"),
        (Primitive::I64, "i64"),
        (Primitive::I128, "i128"),
        (Primitive::Float32, "f32"),
        (Primitive::Float64, "f64"),
        (Primitive::String, "String"),
        (Primitive::Bool, "bool"),
    ];
    for (p, name) in all {
        assert_eq!(p.name(), name);
        assert_eq!(Primitive::from_name(name), Some(p));
    }
    assert_eq!(Primitive::from_name("string"), None);
    assert_eq!(Primitive::from_name("u"), None);
    assert_eq!(Primitive::from_name(""), None);
    assert_eq!(Primitive::from_name("u88"), None);
    assert_eq!(Primitive::from_name("Person"), None);
}
