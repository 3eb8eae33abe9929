//! The errors of the codec.
use crate::decimal::{append_decimal, decimal};
use crate::schema::Primitive;
use vstd::prelude::*;
use vstd::string::*;

verus! {

/// A JSON value does not have the shape that its declaration asks for.
#[derive(Clone, Copy, Debug, PartialEq, Eq, Structural)]
pub enum ExpectationError {
    Null,
    Array,
    ArrayOfLength(u32),
    Number,
    String,
    Boolean,
    Object,
}

impl ExpectationError {
    /// The text of the error.
    pub open spec fn message(self) -> Seq<char> {
        match self {
            ExpectationError::Null => "Expected null"@,
            ExpectationError::Array => "Expected array"@,
            ExpectationError::ArrayOfLength(n) => "Expected array of length "@ + decimal(n as nat),
            ExpectationError::Number => "Expected number"@,
            ExpectationError::String => "Expected string"@,
            ExpectationError::Boolean => "Expected boolean"@,
            ExpectationError::Object => "Expected object"@,
        }
    }

    /// The text of the error.
    pub fn to_string(&self) -> (r: String)
        ensures
            r@ == self.message(),
    {
        match self {
            ExpectationError::Null => String::from_str("Expected null"),
            ExpectationError::Array => String::from_str("Expected array"),
            ExpectationError::ArrayOfLength(n) => {
                let mut s = String::from_str("Expected array of length ");
                append_decimal(&mut s, *n as u128);
                s
            },
            ExpectationError::Number => String::from_str("Expected number"),
            ExpectationError::String => String::from_str("Expected string"),
            ExpectationError::Boolean => String::from_str("Expected boolean"),
            ExpectationError::Object => String::from_str("Expected object"),
        }
    }
}

/// The kinds of error that the codec tells apart.
#[derive(Clone, Copy, Debug, PartialEq, Eq, Structural)]
pub enum ErrorKind {
    /// The bytes are malformed.
    Malformed,
    /// The schema is ill-formed.
    Schema,
    /// The JSON value does not have the declared shape.
    ShapeMismatch,
    /// A JSON number does not fit the declared primitive.
    Range,
    /// The declaration cannot be encoded.
    Unsupported,
}

/// Why a value could not be decoded or encoded.
#[derive(Clone, Copy, Debug, PartialEq, Eq, Structural)]
pub enum CodecError {
    /// The bytes do not hold a value of this primitive: they end too early, a boolean
    /// byte is neither 0 nor 1, a string is not UTF-8, a float is not a number.
    InvalidData(Primitive),
    /// The bytes end inside a length prefix or an enum tag.
    Underflow,
    /// The bytes hold an enum tag that names no variant.
    TagOutOfRange,
    /// The bytes hold an element count outside the sequence's length range.
    LengthOutOfRange,
    /// The value nests deeper than [`crate::codec::MAX_DEPTH`] definitions.
    DepthExceeded,
    /// An enum without variants was met while decoding.
    EmptyEnum,
    /// A struct declares two fields of one name.
    DuplicateField,
    /// A JSON object lacks a field that the struct declares.
    MissingField,
    /// A length prefix or an enum tag has a width that the wire format does not know,
    /// or a tag is too narrow for the position of a variant.
    InvalidWidth,
    /// A JSON value names a variant that the enum does not have.
    UnknownVariant,
    /// An array has a length that the sequence's range or prefix does not permit, or
    /// a string or a list is too long for its length prefix.
    LengthMismatch,
    /// The JSON value does not have the declared shape.
    Expectation(ExpectationError),
    /// A JSON number does not fit this primitive.
    OutOfRange(Primitive),
    /// Values of this primitive cannot be encoded.
    Unsupported(Primitive),
}

impl CodecError {
    /// The kind of the error.
    pub open spec fn spec_kind(self) -> ErrorKind {
        match self {
            CodecError::InvalidData(_) => ErrorKind::Malformed,
            CodecError::Underflow => ErrorKind::Malformed,
            CodecError::TagOutOfRange => ErrorKind::Malformed,
            CodecError::LengthOutOfRange => ErrorKind::Malformed,
            CodecError::DepthExceeded => ErrorKind::Malformed,
            CodecError::EmptyEnum => ErrorKind::Schema,
            CodecError::DuplicateField => ErrorKind::Schema,
            CodecError::MissingField => ErrorKind::Schema,
            CodecError::InvalidWidth => ErrorKind::Schema,
            CodecError::UnknownVariant => ErrorKind::ShapeMismatch,
            CodecError::LengthMismatch => ErrorKind::ShapeMismatch,
            CodecError::Expectation(_) => ErrorKind::ShapeMismatch,
            CodecError::OutOfRange(_) => ErrorKind::Range,
            CodecError::Unsupported(_) => ErrorKind::Unsupported,
        }
    }

    /// The text of the error.
    pub open spec fn message(self) -> Seq<char> {
        match self {
            CodecError::InvalidData(p) => "invalid data: "@ + p.spec_name(),
            CodecError::Underflow => "unexpected end of input"@,
            CodecError::TagOutOfRange => "enum tag out of range"@,
            CodecError::LengthOutOfRange => "length out of range"@,
            CodecError::DepthExceeded => "nesting too deep"@,
            CodecError::EmptyEnum => "enum without variants"@,
            CodecError::DuplicateField => "duplicate field name"@,
            CodecError::MissingField => "missing field"@,
            CodecError::InvalidWidth => "invalid prefix width"@,
            CodecError::UnknownVariant => "unknown variant"@,
            CodecError::LengthMismatch => "length not permitted"@,
            CodecError::Expectation(e) => e.message(),
            CodecError::OutOfRange(p) => "number out of range: "@ + p.spec_name(),
            CodecError::Unsupported(p) => "encoding not supported: "@ + p.spec_name(),
        }
    }

    /// The kind of the error.
    pub fn kind(&self) -> (r: ErrorKind)
        ensures
            r == self.spec_kind(),
    {
        match self {
            CodecError::InvalidData(_) => ErrorKind::Malformed,
            CodecError::Underflow => ErrorKind::Malformed,
            CodecError::TagOutOfRange => ErrorKind::Malformed,
            CodecError::LengthOutOfRange => ErrorKind::Malformed,
            CodecError::DepthExceeded => ErrorKind::Malformed,
            CodecError::EmptyEnum => ErrorKind::Schema,
            CodecError::DuplicateField => ErrorKind::Schema,
            CodecError::MissingField => ErrorKind::Schema,
            CodecError::InvalidWidth => ErrorKind::Schema,
            CodecError::UnknownVariant => ErrorKind::ShapeMismatch,
            CodecError::LengthMismatch => ErrorKind::ShapeMismatch,
            CodecError::Expectation(_) => ErrorKind::ShapeMismatch,
            CodecError::OutOfRange(_) => ErrorKind::Range,
            CodecError::Unsupported(_) => ErrorKind::Unsupported,
        }
    }

    /// The text of the error.
    pub fn to_string(&self) -> (r: String)
        ensures
            r@ == self.message(),
    {
        match self {
            CodecError::InvalidData(p) => String::from_str("invalid data: ").concat(p.name()),
            CodecError::Underflow => String::from_str("unexpected end of input"),
            CodecError::TagOutOfRange => String::from_str("enum tag out of range"),
            CodecError::LengthOutOfRange => String::from_str("length out of range"),
            CodecError::DepthExceeded => String::from_str("nesting too deep"),
            CodecError::EmptyEnum => String::from_str("enum without variants"),
            CodecError::DuplicateField => String::from_str("duplicate field name"),
            CodecError::MissingField => String::from_str("missing field"),
            CodecError::InvalidWidth => String::from_str("invalid prefix width"),
            CodecError::UnknownVariant => String::from_str("unknown variant"),
            CodecError::LengthMismatch => String::from_str("length not permitted"),
            CodecError::Expectation(e) => e.to_string(),
            CodecError::OutOfRange(p) => String::from_str("number out of range: ").concat(
                p.name(),
            ),
            CodecError::Unsupported(p) => String::from_str("encoding not supported: ").concat(
                p.name(),
            ),
        }
    }
}

} // verus!
