//! A compact binary serialization format for a JSON-like value tree, paired
//! with a run-length compression pass specialized for zero bytes.
//!
//! `encode` walks a [`Value`] tree into a tagged byte layout and compresses
//! the result; `decode` reverses both steps. Numbers and oversized length
//! fields travel as IEEE-754 double bit patterns, held here as their raw
//! `u64` bits so that every step of the codec is plain integer logic.

use vstd::prelude::*;

pub mod deserializer;
pub mod numbits;
pub mod rle;
pub mod serializer;

verus! {

/// Tag byte for a `false` boolean value.
pub const FALSE: u8 = 0;

/// Tag byte for a `true` boolean value.
pub const TRUE: u8 = 1;

/// Tag byte for the null value.
pub const NULL: u8 = 2;

/// Tag byte for a number; payload is an 8-byte little-endian IEEE-754 double.
pub const NUMBER: u8 = 3;

/// Tag byte for a string; payload is a length field plus UTF-8 bytes.
pub const STRING: u8 = 4;

/// Tag byte for an array; payload is a length field plus that many values.
pub const ARRAY: u8 = 5;

/// Tag byte for an object; payload is a length field plus key/value entries.
pub const OBJECT: u8 = 6;

/// A JSON-like value tree.
///
/// Numbers carry the raw bits of an IEEE-754 double; string contents and
/// object keys carry UTF-8 bytes. Objects keep entries in insertion order
/// and do not reject duplicate keys.
#[derive(Debug, PartialEq)]
pub enum Value {
    Boolean(bool),
    Null,
    Number(u64),
    String(Vec<u8>),
    Array(Vec<Value>),
    Object(Vec<(Vec<u8>, Value)>),
}

/// The mathematical shape of a [`Value`] tree, with sequences in place of
/// vectors; contracts speak of values through this model.
#[verifier::ext_equal]
pub enum SpecValue {
    Boolean(bool),
    Null,
    Number(u64),
    String(Seq<u8>),
    Array(Seq<SpecValue>),
    Object(Seq<(Seq<u8>, SpecValue)>),
}

/// The ways a decode can fail; encoding of a well-formed tree cannot fail.
#[derive(Clone, Copy, Debug, PartialEq, Eq, Structural)]
pub enum Error {
    /// Fewer bytes remain than a field requires.
    BufferUnderrun,
    /// An unrecognized tag byte.
    InvalidType,
    /// The wire buffer has an impossible shape for a fixed-shape tag.
    InvalidLength,
}

impl Error {
    /// A short description of the error.
    pub fn message(&self) -> (m: &'static str)
        ensures
            m@ == self.message_spec(),
    {
        match self {
            Error::BufferUnderrun => "No more data remaining",
            Error::InvalidType => "Invalid type",
            Error::InvalidLength => "Invalid length",
        }
    }

    /// What [`Error::message`] returns for each variant.
    pub open spec fn message_spec(&self) -> Seq<char> {
        match self {
            Error::BufferUnderrun => "No more data remaining"@,
            Error::InvalidType => "Invalid type"@,
            Error::InvalidLength => "Invalid length"@,
        }
    }
}

/// The model of a value tree: vectors become sequences, entry by entry.
pub open spec fn value_model(v: Value) -> SpecValue
    decreases v, 1int,
{
    match v {
        Value::Boolean(b) => SpecValue::Boolean(b),
        Value::Null => SpecValue::Null,
        Value::Number(bits) => SpecValue::Number(bits),
        Value::String(s) => SpecValue::String(s@),
        Value::Array(a) => SpecValue::Array(array_model(a)),
        Value::Object(o) => SpecValue::Object(entries_model(o)),
    }
}

/// The models of an array's elements, in order.
pub open spec fn array_model(a: Vec<Value>) -> Seq<SpecValue>
    decreases a, 0int,
{
    Seq::new(
        a@.len(),
        |i: int| if 0 <= i < a@.len() {
            value_model(a[i])
        } else {
            SpecValue::Null
        },
    )
}

/// The models of an object's entries, in order: key bytes and value model.
pub open spec fn entries_model(o: Vec<(Vec<u8>, Value)>) -> Seq<(Seq<u8>, SpecValue)>
    decreases o, 0int,
{
    Seq::new(
        o@.len(),
        |i: int| if 0 <= i < o@.len() {
            (o[i].0@, value_model(o[i].1))
        } else {
            (Seq::empty(), SpecValue::Null)
        },
    )
}

} // verus!
