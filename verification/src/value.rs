//! The values a page stores, and the type byte that tells their kinds apart.

use vstd::prelude::*;
use vstd::std_specs::convert::TryFromSpecImpl;
use vstd::utf8::{decode_utf8, valid_utf8};
use crate::errors::InvalidDataTypeError;
use crate::format::{be_value, lemma_be_round_trip, ValueView, TAG_BLOB, TAG_INTEGER, TAG_STRING};

verus! {

/// Kind of a stored value, as the header's type byte names it.
#[derive(Copy, Clone, Debug, PartialEq, Eq, Structural)]
pub enum ValueDataType {
    String,
    Integer,
    Blob,
}

impl ValueDataType {
    /// The type byte of this kind.
    pub open spec fn tag(self) -> u8 {
        match self {
            ValueDataType::String => TAG_STRING,
            ValueDataType::Integer => TAG_INTEGER,
            ValueDataType::Blob => TAG_BLOB,
        }
    }

    /// The kind of `value`.
    pub open spec fn of(value: ValueView) -> ValueDataType {
        match value {
            ValueView::String(_) => ValueDataType::String,
            ValueView::Integer(_) => ValueDataType::Integer,
            ValueView::Blob(_) => ValueDataType::Blob,
        }
    }

    /// The value of this kind that the payload `data` spells: text must be
    /// valid UTF-8 and an integer eight bytes long; any bytes are a blob.
    pub open spec fn decode(self, data: Seq<u8>) -> Option<ValueView> {
        match self {
            ValueDataType::String => if valid_utf8(data) {
                Some(ValueView::String(decode_utf8(data)))
            } else {
                None
            },
            ValueDataType::Integer => if data.len() == 8 {
                Some(ValueView::Integer(be_value(data)))
            } else {
                None
            },
            ValueDataType::Blob => Some(ValueView::Blob(data)),
        }
    }

    /// A value's payload decodes to the value.
    pub proof fn lemma_decode_encoded(value: ValueView)
        ensures
            ValueDataType::of(value).tag() == value.tag(),
            ValueDataType::of(value).decode(value.bytes()) == Some(value),
    {
        broadcast use vstd::utf8::encode_utf8_valid_utf8, vstd::utf8::encode_utf8_decode_utf8;

        match value {
            ValueView::String(text) => {},
            ValueView::Integer(number) => {
                lemma_be_round_trip(number);
            },
            ValueView::Blob(_) => {},
        }
    }

    /// The type byte of this kind.
    pub fn to_byte(self) -> (byte: u8)
        ensures
            byte == self.tag(),
    {
        match self {
            ValueDataType::String => TAG_STRING,
            ValueDataType::Integer => TAG_INTEGER,
            ValueDataType::Blob => TAG_BLOB,
        }
    }
}

impl TryFrom<u8> for ValueDataType {
    type Error = InvalidDataTypeError;

    /// The kind that a type byte names: 1 text, 2 integer, 3 blob. Any other
    /// byte names none.
    fn try_from(from_value: u8) -> (kind: Result<Self, Self::Error>)
    {
        match from_value {
            TAG_STRING => Ok(ValueDataType::String),
            TAG_INTEGER => Ok(ValueDataType::Integer),
            TAG_BLOB => Ok(ValueDataType::Blob),
            _ => Err(InvalidDataTypeError),
        }
    }
}

impl TryFromSpecImpl<u8> for ValueDataType {
    open spec fn obeys_try_from_spec() -> bool {
        true
    }

    /// What `try_from` returns.
    open spec fn try_from_spec(from_value: u8) -> Result<Self, Self::Error> {
        if from_value == TAG_STRING {
            Ok(ValueDataType::String)
        } else if from_value == TAG_INTEGER {
            Ok(ValueDataType::Integer)
        } else if from_value == TAG_BLOB {
            Ok(ValueDataType::Blob)
        } else {
            Err(InvalidDataTypeError)
        }
    }
}

/// A value of one of the three kinds a page stores.
#[derive(Debug, Clone, PartialEq, Eq)]
pub enum Value {
    String(String),
    Integer(u64),
    Blob(Vec<u8>),
}

impl View for Value {
    type V = ValueView;

    open spec fn view(&self) -> ValueView {
        match self {
            Value::String(text) => ValueView::String(text@),
            Value::Integer(number) => ValueView::Integer(*number),
            Value::Blob(bytes) => ValueView::Blob(bytes@),
        }
    }
}

impl Value {
    /// Number of payload bytes the value takes in a page.
    pub fn get_bytes_length(&self) -> (length: usize)
        ensures
            length == self@.bytes().len(),
    {
        match self {
            Value::String(text) => text.as_str().as_bytes().len(),
            Value::Integer(_) => 8,
            Value::Blob(bytes) => bytes.len(),
        }
    }

    /// Kind of the value.
    pub fn get_data_type(&self) -> (kind: ValueDataType)
        ensures
            kind == ValueDataType::of(self@),
    {
        match self {
            Value::String(_) => ValueDataType::String,
            Value::Integer(_) => ValueDataType::Integer,
            Value::Blob(_) => ValueDataType::Blob,
        }
    }
}

} // verus!
