//! Writer for the tagged byte layout.
//!
//! The wire shape of a tree is fixed by the spec functions here: one tag
//! byte per value, a length field per string, array and object, and the
//! payload after it. `serialize` emits exactly that layout and compresses
//! it with the run-length pass.

use vstd::prelude::*;
use vstd::arithmetic::power2::pow2;
use crate::numbits::{le8, length_bits, length_bits_exec};
use crate::rle::{self, rle_enc};
use crate::{Value, ARRAY, FALSE, NULL, NUMBER, OBJECT, STRING, TRUE};

verus! {

broadcast use vstd::std_specs::vec::group_vec_axioms;

/// The wire form of a count: one byte up to 254, else the sentinel 255
/// followed by the count's 8-byte double encoding.
pub open spec fn len_field(n: nat) -> Seq<u8> {
    if n <= 254 {
        seq![n as u8]
    } else {
        seq![255u8] + le8(length_bits(n))
    }
}

/// The wire form of an object key: a length field and the bytes, no tag.
pub open spec fn key_field(k: Seq<u8>) -> Seq<u8> {
    len_field(k.len()) + k
}

/// The tagged byte layout of `v`, before compression.
pub open spec fn wire_bytes(v: Value) -> Seq<u8>
    decreases v, 0int,
{
    match v {
        Value::Boolean(b) => if b {
            seq![TRUE]
        } else {
            seq![FALSE]
        },
        Value::Null => seq![NULL],
        Value::Number(bits) => seq![NUMBER] + le8(bits),
        Value::String(s) => seq![STRING] + len_field(s@.len()) + s@,
        Value::Array(a) => seq![ARRAY] + len_field(a@.len()) + wire_elems(a, 0),
        Value::Object(o) => seq![OBJECT] + len_field(o@.len()) + wire_entries(o, 0),
    }
}

/// The wire bytes of the elements of `a` from position `i` on.
pub open spec fn wire_elems(a: Vec<Value>, i: int) -> Seq<u8>
    decreases a, a@.len() - i,
{
    if i < 0 || i >= a@.len() {
        Seq::empty()
    } else {
        wire_bytes(a[i]) + wire_elems(a, i + 1)
    }
}

/// The wire bytes of the entries of `o` from position `i` on: each a key
/// field followed by the entry's value.
pub open spec fn wire_entries(o: Vec<(Vec<u8>, Value)>, i: int) -> Seq<u8>
    decreases o, o@.len() - i,
{
    if i < 0 || i >= o@.len() {
        Seq::empty()
    } else {
        key_field(o[i].0@) + wire_bytes(o[i].1) + wire_entries(o, i + 1)
    }
}

/// Every count in the tree is below `2^53`, so its length field is exact.
/// Any tree a machine can hold satisfies this; the bound is the range in
/// which the double encoding of a length is one-to-one.
pub open spec fn lengths_ok(v: Value) -> bool
    decreases v,
{
    match v {
        Value::Boolean(_) => true,
        Value::Null => true,
        Value::Number(_) => true,
        Value::String(s) => s@.len() < pow2(53),
        Value::Array(a) => a@.len() < pow2(53) && (forall|i: int|
            0 <= i < a@.len() ==> lengths_ok(#[trigger] a[i])),
        Value::Object(o) => o@.len() < pow2(53) && (forall|i: int|
            0 <= i < o@.len() ==> o[i].0@.len() < pow2(53) && lengths_ok(#[trigger] o[i].1)),
    }
}

/// What `serialize` returns: the compressed tagged layout.
pub open spec fn spec_serialize(v: Value) -> Seq<u8> {
    rle_enc(wire_bytes(v))
}

/// Walks a value tree and appends its tagged byte layout to a buffer.
pub struct Serializer {
    pub buffer: Vec<u8>,
}

impl Serializer {
    /// A serializer with an empty output buffer.
    pub fn new() -> (s: Serializer)
        ensures
            s.buffer@ == Seq::<u8>::empty(),
    {
        Serializer { buffer: Vec::new() }
    }

    /// Append raw bytes.
    pub fn write(&mut self, b: &[u8])
        ensures
            final(self).buffer@ == old(self).buffer@ + b@,
    {
        self.buffer.extend_from_slice(b);
    }

    /// Append the tag of a boolean.
    pub fn write_boolean(&mut self, boolean: &bool)
        ensures
            final(self).buffer@ == old(self).buffer@ + wire_bytes(Value::Boolean(*boolean)),
    {
        if *boolean {
            self.buffer.push(TRUE);
        } else {
            self.buffer.push(FALSE);
        }
        proof {
            assert(self.buffer@ =~= old(self).buffer@ + wire_bytes(
                Value::Boolean(*boolean),
            ));
        }
    }

    /// Append the tag of null.
    pub fn write_null(&mut self)
        ensures
            final(self).buffer@ == old(self).buffer@ + wire_bytes(Value::Null),
    {
        self.buffer.push(NULL);
        proof {
            assert(self.buffer@ =~= old(self).buffer@ + wire_bytes(Value::Null));
        }
    }

    /// Append the 8 little-endian bytes of a double bit pattern.
    pub fn write_number_inner(&mut self, bits: u64)
        ensures
            final(self).buffer@ == old(self).buffer@ + le8(bits),
    {
        self.buffer.push((bits & 0xff) as u8);
        self.buffer.push(((bits >> 8) & 0xff) as u8);
        self.buffer.push(((bits >> 16) & 0xff) as u8);
        self.buffer.push(((bits >> 24) & 0xff) as u8);
        self.buffer.push(((bits >> 32) & 0xff) as u8);
        self.buffer.push(((bits >> 40) & 0xff) as u8);
        self.buffer.push(((bits >> 48) & 0xff) as u8);
        self.buffer.push(((bits >> 56) & 0xff) as u8);
        proof {
            assert(self.buffer@ =~= old(self).buffer@ + le8(bits));
        }
    }

    /// Append a number: its tag, then its bits little-endian.
    pub fn write_number(&mut self, bits: u64)
        ensures
            final(self).buffer@ == old(self).buffer@ + wire_bytes(Value::Number(bits)),
    {
        self.buffer.push(NUMBER);
        self.write_number_inner(bits);
        proof {
            assert(self.buffer@ =~= old(self).buffer@ + wire_bytes(Value::Number(bits)));
        }
    }

    /// Append a length field.
    pub fn write_length(&mut self, length: usize)
        requires
            (length as nat) < pow2(53),
        ensures
            final(self).buffer@ == old(self).buffer@ + len_field(length as nat),
    {
        if length <= 254 {
            self.buffer.push(length as u8);
            proof {
                assert(self.buffer@ =~= old(self).buffer@ + len_field(length as nat));
            }
        } else {
            self.buffer.push(255);
            let bits = length_bits_exec(length);
            self.write_number_inner(bits);
            proof {
                assert(self.buffer@ =~= old(self).buffer@ + len_field(length as nat));
            }
        }
    }

    /// Append a string payload without its tag: length field, then bytes.
    /// Object keys use this form directly.
    pub fn write_string_inner(&mut self, string: &Vec<u8>)
        requires
            string@.len() < pow2(53),
        ensures
            final(self).buffer@ == old(self).buffer@ + key_field(string@),
    {
        self.write_length(string.len());
        self.write(string.as_slice());
    }

    /// Append a string value: tag, length field, bytes.
    pub fn write_string(&mut self, string: &Vec<u8>)
        requires
            string@.len() < pow2(53),
        ensures
            final(self).buffer@ == old(self).buffer@ + wire_bytes(Value::String(*string)),
    {
        self.buffer.push(STRING);
        self.write_string_inner(string);
        proof {
            assert(self.buffer@ =~= old(self).buffer@ + wire_bytes(Value::String(*string)));
        }
    }

    /// Append an array: tag, element count, then each element in order.
    pub fn write_array(&mut self, array: &Vec<Value>)
        requires
            lengths_ok(Value::Array(*array)),
        ensures
            final(self).buffer@ == old(self).buffer@ + wire_bytes(Value::Array(*array)),
        decreases *array,
    {
        self.buffer.push(ARRAY);
        self.write_length(array.len());
        let ghost start = self.buffer@;
        let mut i: usize = 0;
        while i < array.len()
            invariant
                i <= array@.len(),
                lengths_ok(Value::Array(*array)),
                start + wire_elems(*array, 0) == self.buffer@ + wire_elems(*array, i as int),
            decreases array@.len() - i,
        {
            self.write_value(&array[i]);
            i = i + 1;
            proof {
                assert(start + wire_elems(*array, 0) =~= self.buffer@ + wire_elems(
                    *array,
                    i as int,
                ));
            }
        }
        proof {
            assert(self.buffer@ =~= start + wire_elems(*array, 0));
            assert(final(self).buffer@ =~= old(self).buffer@ + wire_bytes(Value::Array(*array)));
        }
    }

    /// Append an object: tag, entry count, then each key field and value
    /// in enumeration order. Keys carry no string tag.
    pub fn write_object(&mut self, object: &Vec<(Vec<u8>, Value)>)
        requires
            lengths_ok(Value::Object(*object)),
        ensures
            final(self).buffer@ == old(self).buffer@ + wire_bytes(Value::Object(*object)),
        decreases *object,
    {
        self.buffer.push(OBJECT);
        self.write_length(object.len());
        let ghost start = self.buffer@;
        let mut i: usize = 0;
        while i < object.len()
            invariant
                i <= object@.len(),
                lengths_ok(Value::Object(*object)),
                start + wire_entries(*object, 0) == self.buffer@ + wire_entries(*object, i as int),
            decreases object@.len() - i,
        {
            self.write_string_inner(&object[i].0);
            self.write_value(&object[i].1);
            i = i + 1;
            proof {
                assert(start + wire_entries(*object, 0) =~= self.buffer@ + wire_entries(
                    *object,
                    i as int,
                ));
            }
        }
        proof {
            assert(self.buffer@ =~= start + wire_entries(*object, 0));
            assert(final(self).buffer@ =~= old(self).buffer@ + wire_bytes(Value::Object(*object)));
        }
    }

    /// Append any value by dispatching on its variant.
    pub fn write_value(&mut self, value: &Value)
        requires
            lengths_ok(*value),
        ensures
            final(self).buffer@ == old(self).buffer@ + wire_bytes(*value),
        decreases *value,
    {
        match value {
            Value::Boolean(v) => self.write_boolean(v),
            Value::Null => self.write_null(),
            Value::Number(v) => self.write_number(*v),
            Value::String(v) => self.write_string(v),
            Value::Array(v) => self.write_array(v),
            Value::Object(v) => self.write_object(v),
        }
    }

    /// Encode a whole tree: its tagged layout, run-length compressed.
    pub fn serialize(value: &Value) -> (r: Vec<u8>)
        requires
            lengths_ok(*value),
        ensures
            r@ == spec_serialize(*value),
    {
        let mut serializer = Serializer::new();
        serializer.write_value(value);
        rle::encode(serializer.buffer.as_slice())
    }
}

} // verus!
