//! Reader for the tagged byte layout.
//!
//! The spec parser here fixes, byte for byte, which inputs decode to which
//! tree and which error comes out of every malformed input. The executable
//! reader is proved to return exactly what the spec parser says.

use vstd::prelude::*;
use vstd::arithmetic::power2::pow2;
use vstd::slice::{slice_index_get, slice_subrange, slice_to_vec};
use crate::numbits::{
    decode_length_bits, decoded_len, from_le8, le8, lemma_le8_round_trip,
    lemma_length_bits_round_trip,
};
use crate::rle::{self, lemma_rle_round_trip, rle_dec, rle_enc};
use crate::serializer::{
    key_field, len_field, lengths_ok, spec_serialize, wire_bytes, wire_elems, wire_entries,
};
use crate::{
    array_model, entries_model, value_model, Error, SpecValue, Value, ARRAY, FALSE, NULL, NUMBER,
    OBJECT, STRING, TRUE,
};

verus! {

broadcast use vstd::std_specs::vec::group_vec_axioms;

/// What reading a length field at `pos` yields: the byte itself up to 254,
/// else the truncated value of the 8-byte double after the sentinel.
pub open spec fn spec_read_length(b: Seq<u8>, pos: nat) -> Result<(nat, nat), Error> {
    if pos + 1 > b.len() {
        Err(Error::BufferUnderrun)
    } else {
        let x = b[pos as int];
        if x <= 254 {
            Ok((x as nat, (pos + 1) as nat))
        } else if pos + 9 <= b.len() {
            Ok(
                (
                    decoded_len(from_le8(b.subrange(pos as int + 1, pos as int + 9))),
                    (pos + 9) as nat,
                ),
            )
        } else {
            Err(Error::BufferUnderrun)
        }
    }
}

/// What reading a length-prefixed byte string at `pos` yields.
pub open spec fn spec_read_string(b: Seq<u8>, pos: nat) -> Result<(Seq<u8>, nat), Error> {
    match spec_read_length(b, pos) {
        Err(e) => Err(e),
        Ok((n, p)) => if p + n <= b.len() {
            Ok((b.subrange(p as int, (p + n) as int), (p + n) as nat))
        } else {
            Err(Error::BufferUnderrun)
        },
    }
}

/// What parsing one value at `pos` yields: the model of the value and the
/// position after it, or the first error.
pub open spec fn spec_read_value(b: Seq<u8>, pos: nat) -> Result<(SpecValue, nat), Error>
    decreases b.len() - pos, 0int, 0int,
{
    if pos >= b.len() {
        Err(Error::BufferUnderrun)
    } else {
        let tag = b[pos as int];
        if tag == FALSE {
            Ok((SpecValue::Boolean(false), (pos + 1) as nat))
        } else if tag == TRUE {
            Ok((SpecValue::Boolean(true), (pos + 1) as nat))
        } else if tag == NULL {
            Ok((SpecValue::Null, (pos + 1) as nat))
        } else if tag == NUMBER {
            if pos + 9 <= b.len() {
                Ok(
                    (
                        SpecValue::Number(from_le8(b.subrange(pos as int + 1, pos as int + 9))),
                        (pos + 9) as nat,
                    ),
                )
            } else {
                Err(Error::BufferUnderrun)
            }
        } else if tag == STRING {
            match spec_read_string(b, (pos + 1) as nat) {
                Err(e) => Err(e),
                Ok((s, p)) => Ok((SpecValue::String(s), p)),
            }
        } else if tag == ARRAY {
            match spec_read_array(b, (pos + 1) as nat) {
                Err(e) => Err(e),
                Ok((vs, p)) => Ok((SpecValue::Array(vs), p)),
            }
        } else if tag == OBJECT {
            match spec_read_object(b, (pos + 1) as nat) {
                Err(e) => Err(e),
                Ok((es, p)) => Ok((SpecValue::Object(es), p)),
            }
        } else {
            Err(Error::InvalidType)
        }
    }
}

/// What parsing an array body (count, then that many values) yields.
pub open spec fn spec_read_array(b: Seq<u8>, pos: nat) -> Result<(Seq<SpecValue>, nat), Error>
    decreases b.len() - pos, 0int, 1int,
{
    match spec_read_length(b, pos) {
        Err(e) => Err(e),
        Ok((n, p)) => spec_read_elems(b, p, n),
    }
}

/// What parsing `n` consecutive values from `pos` yields.
pub open spec fn spec_read_elems(b: Seq<u8>, pos: nat, n: nat) -> Result<
    (Seq<SpecValue>, nat),
    Error,
>
    decreases b.len() - pos, 1int, n,
{
    if n == 0 {
        Ok((Seq::empty(), pos))
    } else {
        match spec_read_value(b, pos) {
            Err(e) => Err(e),
            Ok((v, p)) => if p <= pos || p > b.len() {
                Err(Error::BufferUnderrun)
            } else {
                match spec_read_elems(b, p, (n - 1) as nat) {
                    Err(e) => Err(e),
                    Ok((vs, p2)) => Ok((seq![v] + vs, p2)),
                }
            },
        }
    }
}

/// What parsing an object body (count, then that many key/value entries)
/// yields.
pub open spec fn spec_read_object(b: Seq<u8>, pos: nat) -> Result<
    (Seq<(Seq<u8>, SpecValue)>, nat),
    Error,
>
    decreases b.len() - pos, 0int, 1int,
{
    match spec_read_length(b, pos) {
        Err(e) => Err(e),
        Ok((n, p)) => spec_read_entries(b, p, n),
    }
}

/// What parsing `n` consecutive key/value entries from `pos` yields.
pub open spec fn spec_read_entries(b: Seq<u8>, pos: nat, n: nat) -> Result<
    (Seq<(Seq<u8>, SpecValue)>, nat),
    Error,
>
    decreases b.len() - pos, 1int, n,
{
    if n == 0 {
        Ok((Seq::empty(), pos))
    } else {
        match spec_read_string(b, pos) {
            Err(e) => Err(e),
            Ok((k, pk)) => if pk <= pos || pk > b.len() {
                Err(Error::BufferUnderrun)
            } else {
                match spec_read_value(b, pk) {
                    Err(e) => Err(e),
                    Ok((v, pv)) => if pv <= pos || pv > b.len() {
                        Err(Error::BufferUnderrun)
                    } else {
                        match spec_read_entries(b, pv, (n - 1) as nat) {
                            Err(e) => Err(e),
                            Ok((es, p2)) => Ok((seq![(k, v)] + es, p2)),
                        }
                    },
                }
            },
        }
    }
}

/// The structural pre-check on the compressed wire buffer: empty input and
/// wrong shapes for the three fixed-shape tags are rejected before any
/// decompression, as is an unknown leading tag.
pub open spec fn spec_check_buffer(b: Seq<u8>) -> Result<(), Error> {
    if b.len() == 0 || ((b[0] == TRUE || b[0] == NULL) && b.len() != 1) || (b[0] == FALSE && (
    b.len() != 2 || b[1] != 1)) {
        Err(Error::InvalidLength)
    } else if b[0] != NULL && b[0] != TRUE && b[0] != FALSE && b[0] != NUMBER && b[0] != STRING
        && b[0] != ARRAY && b[0] != OBJECT {
        Err(Error::InvalidType)
    } else {
        Ok(())
    }
}

/// What `deserialize` returns on every input: pre-check the compressed
/// buffer, decompress, then parse one value from the front.
pub open spec fn spec_deserialize(b: Seq<u8>) -> Result<SpecValue, Error> {
    match spec_check_buffer(b) {
        Err(e) => Err(e),
        Ok(u) => match spec_read_value(rle_dec(b), 0) {
            Err(e) => Err(e),
            Ok((v, p)) => Ok(v),
        },
    }
}

/// Walks a decompressed buffer with a read cursor and rebuilds the tree.
pub struct Deserializer {
    pub buffer: Vec<u8>,
    pub offset: usize,
}

impl Deserializer {
    /// A reader over a copy of `buffer`, cursor at the start.
    pub fn new(buffer: &[u8]) -> (d: Deserializer)
        ensures
            d.buffer@ == buffer@,
            d.offset == 0,
    {
        Deserializer { buffer: slice_to_vec(buffer), offset: 0 }
    }

    /// Take the next `count` bytes and advance, or report an underrun and
    /// stay put.
    pub fn read(&mut self, count: usize) -> (r: Result<Vec<u8>, Error>)
        ensures
            final(self).buffer@ == old(self).buffer@,
            match r {
                Ok(bytes) => old(self).offset + count <= old(self).buffer@.len() && bytes@ == old(self).buffer@.subrange(
                    old(self).offset as int,
                    old(self).offset + count,
                ) && final(self).offset == old(self).offset + count,
                Err(e) => e == Error::BufferUnderrun && old(self).offset + count > old(self).buffer@.len() && final(self).offset == old(self).offset,
            },
    {
        if count > self.buffer.len() || self.offset > self.buffer.len() - count {
            Err(Error::BufferUnderrun)
        } else {
            let s = slice_subrange(self.buffer.as_slice(), self.offset, self.offset + count);
            let v = slice_to_vec(s);
            self.offset = self.offset + count;
            Ok(v)
        }
    }

    /// Read the 8 little-endian bytes of a double and return its bits.
    pub fn read_number_inner(&mut self) -> (r: Result<u64, Error>)
        ensures
            final(self).buffer@ == old(self).buffer@,
            match r {
                Ok(bits) => old(self).offset + 8 <= old(self).buffer@.len() && bits == from_le8(
                    old(self).buffer@.subrange(old(self).offset as int, old(self).offset + 8),
                ) && final(self).offset == old(self).offset + 8,
                Err(e) => e == Error::BufferUnderrun && old(self).offset + 8 > old(self).buffer@.len() && final(self).offset == old(self).offset,
            },
    {
        let b = match self.read(8) {
            Ok(b) => b,
            Err(e) => {
                return Err(e);
            },
        };
        let bits = (b[0] as u64) | ((b[1] as u64) << 8) | ((b[2] as u64) << 16) | ((b[3]
            as u64) << 24) | ((b[4] as u64) << 32) | ((b[5] as u64) << 40) | ((b[6] as u64) << 48)
            | ((b[7] as u64) << 56);
        Ok(bits)
    }

    /// Read a length field, the short or the double-encoded form.
    pub fn read_length(&mut self) -> (r: Result<usize, Error>)
        ensures
            final(self).buffer@ == old(self).buffer@,
            match r {
                Ok(n) => spec_read_length(old(self).buffer@, old(self).offset as nat) == Ok::<
                    (nat, nat),
                    Error,
                >((n as nat, final(self).offset as nat)) && old(self).offset < final(self).offset
                    <= old(self).buffer@.len(),
                Err(e) => spec_read_length(old(self).buffer@, old(self).offset as nat) == Err::<
                    (nat, nat),
                    Error,
                >(e),
            },
    {
        let b = match self.read(1) {
            Ok(b) => b,
            Err(e) => {
                return Err(e);
            },
        };
        let x = b[0];
        if x <= 254 {
            Ok(x as usize)
        } else {
            match self.read_number_inner() {
                Ok(bits) => Ok(decode_length_bits(bits)),
                Err(e) => Err(e),
            }
        }
    }

    /// Read a length-prefixed byte string; object keys use this form.
    pub fn read_string(&mut self) -> (r: Result<Vec<u8>, Error>)
        ensures
            final(self).buffer@ == old(self).buffer@,
            match r {
                Ok(s) => spec_read_string(old(self).buffer@, old(self).offset as nat) == Ok::<
                    (Seq<u8>, nat),
                    Error,
                >((s@, final(self).offset as nat)) && old(self).offset < final(self).offset <= old(self).buffer@.len(),
                Err(e) => spec_read_string(old(self).buffer@, old(self).offset as nat) == Err::<
                    (Seq<u8>, nat),
                    Error,
                >(e),
            },
    {
        let length = match self.read_length() {
            Ok(n) => n,
            Err(e) => {
                return Err(e);
            },
        };
        match self.read(length) {
            Ok(v) => Ok(v),
            Err(e) => Err(e),
        }
    }

    /// Read an array body: a count, then that many values.
    #[verifier::loop_isolation(false)]
    #[verifier::rlimit(50)]
    pub fn read_array(&mut self) -> (r: Result<Vec<Value>, Error>)
        ensures
            final(self).buffer@ == old(self).buffer@,
            match r {
                Ok(a) => spec_read_array(old(self).buffer@, old(self).offset as nat) == Ok::<
                    (Seq<SpecValue>, nat),
                    Error,
                >((array_model(a), final(self).offset as nat)) && old(self).offset < final(self).offset <= old(self).buffer@.len(),
                Err(e) => spec_read_array(old(self).buffer@, old(self).offset as nat) == Err::<
                    (Seq<SpecValue>, nat),
                    Error,
                >(e),
            },
        decreases self.buffer@.len() - self.offset, 1int,
    {
        let ghost b = self.buffer@;
        let ghost pos = self.offset as nat;
        let n = match self.read_length() {
            Ok(n) => n,
            Err(e) => {
                return Err(e);
            },
        };
        let ghost p0 = self.offset as nat;
        let mut array: Vec<Value> = Vec::new();
        let mut j: usize = 0;
        proof {
            assert(array_model(array) + Seq::<SpecValue>::empty() =~= array_model(array));
        }
        while j < n
            invariant
                j <= n,
                self.buffer@ == b,
                pos < p0 <= self.offset <= b.len(),
                array@.len() == j,
                spec_read_array(b, pos) == match spec_read_elems(
                    b,
                    self.offset as nat,
                    (n - j) as nat,
                ) {
                    Ok(t) => Ok::<(Seq<SpecValue>, nat), Error>((array_model(array) + t.0, t.1)),
                    Err(e) => Err::<(Seq<SpecValue>, nat), Error>(e),
                },
            decreases n - j,
        {
            let ghost arr0 = array;
            match self.read_value() {
                Ok(v) => {
                    array.push(v);
                    j = j + 1;
                    proof {
                        assert(array_model(array) =~= array_model(arr0).push(value_model(v)));
                        assert forall|t: (Seq<SpecValue>, nat)|
                            spec_read_elems(b, self.offset as nat, (n - j) as nat) == Ok::<
                                (Seq<SpecValue>, nat),
                                Error,
                            >(t) implies spec_read_array(b, pos) == Ok::<
                            (Seq<SpecValue>, nat),
                            Error,
                        >((array_model(array) + t.0, t.1)) by {
                            assert(array_model(arr0) + (seq![value_model(v)] + t.0) =~= array_model(
                                array,
                            ) + t.0);
                        }
                    }
                },
                Err(e) => {
                    return Err(e);
                },
            }
        }
        proof {
            assert(spec_read_elems(b, self.offset as nat, 0) == Ok::<(Seq<SpecValue>, nat), Error>(
                (Seq::<SpecValue>::empty(), self.offset as nat),
            ));
            assert(array_model(array) + Seq::<SpecValue>::empty() =~= array_model(array));
        }
        Ok(array)
    }

    /// Read an object body: a count, then that many key/value entries.
    #[verifier::loop_isolation(false)]
    #[verifier::rlimit(50)]
    pub fn read_object(&mut self) -> (r: Result<Vec<(Vec<u8>, Value)>, Error>)
        ensures
            final(self).buffer@ == old(self).buffer@,
            match r {
                Ok(o) => spec_read_object(old(self).buffer@, old(self).offset as nat) == Ok::<
                    (Seq<(Seq<u8>, SpecValue)>, nat),
                    Error,
                >((entries_model(o), final(self).offset as nat)) && old(self).offset < final(self).offset <= old(self).buffer@.len(),
                Err(e) => spec_read_object(old(self).buffer@, old(self).offset as nat) == Err::<
                    (Seq<(Seq<u8>, SpecValue)>, nat),
                    Error,
                >(e),
            },
        decreases self.buffer@.len() - self.offset, 1int,
    {
        let ghost b = self.buffer@;
        let ghost pos = self.offset as nat;
        let n = match self.read_length() {
            Ok(n) => n,
            Err(e) => {
                return Err(e);
            },
        };
        let ghost p0 = self.offset as nat;
        let mut entries: Vec<(Vec<u8>, Value)> = Vec::new();
        let mut j: usize = 0;
        proof {
            assert(entries_model(entries) + Seq::<(Seq<u8>, SpecValue)>::empty() =~= entries_model(
                entries,
            ));
        }
        while j < n
            invariant
                j <= n,
                self.buffer@ == b,
                pos < p0 <= self.offset <= b.len(),
                entries@.len() == j,
                spec_read_object(b, pos) == match spec_read_entries(
                    b,
                    self.offset as nat,
                    (n - j) as nat,
                ) {
                    Ok(t) => Ok::<(Seq<(Seq<u8>, SpecValue)>, nat), Error>(
                        (entries_model(entries) + t.0, t.1),
                    ),
                    Err(e) => Err::<(Seq<(Seq<u8>, SpecValue)>, nat), Error>(e),
                },
            decreases n - j,
        {
            let ghost pj = self.offset as nat;
            let ghost ent0 = entries;
            let key = match self.read_string() {
                Ok(k) => k,
                Err(e) => {
                    return Err(e);
                },
            };
            let value = match self.read_value() {
                Ok(v) => v,
                Err(e) => {
                    return Err(e);
                },
            };
            proof {
                let km = key@;
                let vm = value_model(value);
                assert(spec_read_entries(b, pj, (n - j) as nat) == match spec_read_entries(
                    b,
                    self.offset as nat,
                    (n - j - 1) as nat,
                ) {
                    Ok(t) => Ok::<(Seq<(Seq<u8>, SpecValue)>, nat), Error>(
                        (seq![(km, vm)] + t.0, t.1),
                    ),
                    Err(e) => Err::<(Seq<(Seq<u8>, SpecValue)>, nat), Error>(e),
                });
            }
            entries.push((key, value));
            j = j + 1;
            proof {
                assert(entries_model(entries) =~= entries_model(ent0).push(
                    (entries@[j - 1].0@, value_model(entries@[j - 1].1)),
                ));
                assert forall|t: (Seq<(Seq<u8>, SpecValue)>, nat)|
                    spec_read_entries(b, self.offset as nat, (n - j) as nat) == Ok::<
                        (Seq<(Seq<u8>, SpecValue)>, nat),
                        Error,
                    >(t) implies spec_read_object(b, pos) == Ok::<
                    (Seq<(Seq<u8>, SpecValue)>, nat),
                    Error,
                >((entries_model(entries) + t.0, t.1)) by {
                    assert(entries_model(ent0) + (seq![(entries@[j - 1].0@, value_model(
                        entries@[j - 1].1,
                    ))] + t.0) =~= entries_model(entries) + t.0);
                }
            }
        }
        proof {
            assert(spec_read_entries(b, self.offset as nat, 0) == Ok::<
                (Seq<(Seq<u8>, SpecValue)>, nat),
                Error,
            >((Seq::<(Seq<u8>, SpecValue)>::empty(), self.offset as nat)));
            assert(entries_model(entries) + Seq::<(Seq<u8>, SpecValue)>::empty() =~= entries_model(
                entries,
            ));
        }
        Ok(entries)
    }

    /// Read one value: dispatch on the leading tag byte.
    pub fn read_value(&mut self) -> (r: Result<Value, Error>)
        ensures
            final(self).buffer@ == old(self).buffer@,
            match r {
                Ok(v) => spec_read_value(old(self).buffer@, old(self).offset as nat) == Ok::<
                    (SpecValue, nat),
                    Error,
                >((value_model(v), final(self).offset as nat)) && old(self).offset < final(self).offset <= old(self).buffer@.len(),
                Err(e) => spec_read_value(old(self).buffer@, old(self).offset as nat) == Err::<
                    (SpecValue, nat),
                    Error,
                >(e),
            },
        decreases self.buffer@.len() - self.offset, 0int,
    {
        let b = match self.read(1) {
            Ok(b) => b,
            Err(e) => {
                return Err(e);
            },
        };
        let tag = b[0];
        if tag == FALSE {
            Ok(Value::Boolean(false))
        } else if tag == TRUE {
            Ok(Value::Boolean(true))
        } else if tag == NULL {
            Ok(Value::Null)
        } else if tag == NUMBER {
            match self.read_number_inner() {
                Ok(bits) => Ok(Value::Number(bits)),
                Err(e) => Err(e),
            }
        } else if tag == STRING {
            match self.read_string() {
                Ok(s) => Ok(Value::String(s)),
                Err(e) => Err(e),
            }
        } else if tag == ARRAY {
            match self.read_array() {
                Ok(a) => Ok(Value::Array(a)),
                Err(e) => Err(e),
            }
        } else if tag == OBJECT {
            match self.read_object() {
                Ok(o) => Ok(Value::Object(o)),
                Err(e) => Err(e),
            }
        } else {
            Err(Error::InvalidType)
        }
    }

    /// The cheap structural pre-check on the compressed wire buffer.
    pub fn check_buffer(buffer: &[u8]) -> (r: Result<(), Error>)
        ensures
            r == spec_check_buffer(buffer@),
    {
        if buffer.len() == 0 {
            return Err(Error::InvalidLength);
        }
        let b0 = *slice_index_get(buffer, 0);
        if (b0 == TRUE || b0 == NULL) && buffer.len() != 1 {
            Err(Error::InvalidLength)
        } else if b0 == FALSE && (buffer.len() != 2 || *slice_index_get(buffer, 1) != 1) {
            Err(Error::InvalidLength)
        } else if b0 != NULL && b0 != TRUE && b0 != FALSE && b0 != NUMBER && b0 != STRING && b0
            != ARRAY && b0 != OBJECT {
            Err(Error::InvalidType)
        } else {
            Ok(())
        }
    }

    /// Decode a whole wire buffer: pre-check, decompress, parse one value.
    pub fn deserialize(buffer: &[u8]) -> (r: Result<Value, Error>)
        ensures
            match r {
                Ok(v) => spec_deserialize(buffer@) == Ok::<SpecValue, Error>(value_model(v)),
                Err(e) => spec_deserialize(buffer@) == Err::<SpecValue, Error>(e),
            },
    {
        if let Err(e) = Deserializer::check_buffer(buffer) {
            return Err(e);
        }
        let decoded = rle::decode(buffer);
        let mut deserializer = Deserializer::new(decoded.as_slice());
        match deserializer.read_value() {
            Ok(v) => Ok(v),
            Err(e) => Err(e),
        }
    }
}


/// Every value occupies at least one wire byte: its tag.
pub proof fn lemma_wire_nonempty(v: Value)
    ensures
        wire_bytes(v).len() >= 1,
{
    match v {
        Value::Boolean(_) => {},
        Value::Null => {},
        Value::Number(_) => {},
        Value::String(_) => {},
        Value::Array(_) => {},
        Value::Object(_) => {},
    }
}

/// A length field written for `n` reads back as `n`.
proof fn lemma_parse_len(n: nat, b: Seq<u8>, pos: int)
    requires
        n < pow2(53),
        n <= usize::MAX as nat,
        0 <= pos,
        pos + len_field(n).len() <= b.len(),
        b.subrange(pos, pos + len_field(n).len()) == len_field(n),
    ensures
        spec_read_length(b, pos as nat) == Ok::<(nat, nat), Error>(
            (n, (pos + len_field(n).len()) as nat),
        ),
{
    if n <= 254 {
        assert(b[pos] == len_field(n)[0]);
    } else {
        let bits = crate::numbits::length_bits(n);
        assert(len_field(n).len() == 9);
        assert(b[pos] == len_field(n)[0]);
        assert(len_field(n)[0] == 255);
        assert(b.subrange(pos + 1, pos + 9) =~= le8(bits)) by {
            assert forall|i: int| 0 <= i < 8 implies b.subrange(pos + 1, pos + 9)[i] == le8(
                bits,
            )[i] by {
                assert(b.subrange(pos, pos + len_field(n).len())[i + 1] == le8(bits)[i]);
            }
        }
        lemma_le8_round_trip(bits);
        lemma_length_bits_round_trip(n);
    }
}

/// A key field written for `k` reads back as `k`.
proof fn lemma_parse_key(k: Seq<u8>, b: Seq<u8>, pos: int)
    requires
        k.len() < pow2(53),
        k.len() <= usize::MAX as nat,
        0 <= pos,
        pos + key_field(k).len() <= b.len(),
        b.subrange(pos, pos + key_field(k).len()) == key_field(k),
    ensures
        spec_read_string(b, pos as nat) == Ok::<(Seq<u8>, nat), Error>(
            (k, (pos + key_field(k).len()) as nat),
        ),
{
    let lf = len_field(k.len());
    assert(b.subrange(pos, pos + lf.len()) =~= lf) by {
        assert forall|i: int| 0 <= i < lf.len() implies b.subrange(pos, pos + lf.len())[i] == lf[i]
        by {
            assert(b.subrange(pos, pos + key_field(k).len())[i] == key_field(k)[i]);
        }
    }
    lemma_parse_len(k.len(), b, pos);
    let p = pos + lf.len();
    assert(b.subrange(p, p + k.len()) =~= k) by {
        assert forall|i: int| 0 <= i < k.len() implies b.subrange(p, p + k.len())[i] == k[i] by {
            assert(b.subrange(pos, pos + key_field(k).len())[lf.len() + i] == key_field(k)[lf.len()
                + i]);
        }
    }
}

/// Parsing the wire bytes of `v` inside any larger buffer yields the model
/// of `v` and ends right after them.
pub proof fn lemma_parse_wire(v: Value, b: Seq<u8>, pos: int)
    requires
        lengths_ok(v),
        0 <= pos,
        pos + wire_bytes(v).len() <= b.len(),
        b.subrange(pos, pos + wire_bytes(v).len()) == wire_bytes(v),
    ensures
        spec_read_value(b, pos as nat) == Ok::<(SpecValue, nat), Error>(
            (value_model(v), (pos + wire_bytes(v).len()) as nat),
        ),
    decreases v, 0int, 0int,
{
    let w = wire_bytes(v);
    assert(b[pos] == w[0]);
    match v {
        Value::Boolean(bb) => {},
        Value::Null => {},
        Value::Number(bits) => {
            assert(b.subrange(pos + 1, pos + 9) =~= le8(bits)) by {
                assert forall|i: int| 0 <= i < 8 implies b.subrange(pos + 1, pos + 9)[i] == le8(
                    bits,
                )[i] by {
                    assert(b.subrange(pos, pos + w.len())[i + 1] == w[i + 1]);
                }
            }
            lemma_le8_round_trip(bits);
        },
        Value::String(s) => {
            assert(s.len() == s@.len());
            let kf = key_field(s@);
            assert(w =~= seq![STRING] + kf);
            assert(b.subrange(pos + 1, pos + 1 + kf.len()) =~= kf) by {
                assert forall|i: int| 0 <= i < kf.len() implies b.subrange(
                    pos + 1,
                    pos + 1 + kf.len(),
                )[i] == kf[i] by {
                    assert(b.subrange(pos, pos + w.len())[i + 1] == w[i + 1]);
                }
            }
            lemma_parse_key(s@, b, pos + 1);
        },
        Value::Array(a) => {
            assert(a.len() == a@.len());
            let lf = len_field(a@.len());
            let we = wire_elems(a, 0);
            assert(w =~= seq![ARRAY] + lf + we);
            assert(b.subrange(pos + 1, pos + 1 + lf.len()) =~= lf) by {
                assert forall|i: int| 0 <= i < lf.len() implies b.subrange(
                    pos + 1,
                    pos + 1 + lf.len(),
                )[i] == lf[i] by {
                    assert(b.subrange(pos, pos + w.len())[i + 1] == w[i + 1]);
                }
            }
            lemma_parse_len(a@.len(), b, pos + 1);
            let p = pos + 1 + lf.len();
            assert(b.subrange(p, p + we.len()) =~= we) by {
                assert forall|i: int| 0 <= i < we.len() implies b.subrange(p, p + we.len())[i]
                    == we[i] by {
                    assert(b.subrange(pos, pos + w.len())[1 + lf.len() + i] == w[1 + lf.len() + i]);
                }
            }
            lemma_parse_elems(a, 0, b, p);
            assert(array_model(a).skip(0) =~= array_model(a));
        },
        Value::Object(o) => {
            assert(o.len() == o@.len());
            let lf = len_field(o@.len());
            let we = wire_entries(o, 0);
            assert(w =~= seq![OBJECT] + lf + we);
            assert(b.subrange(pos + 1, pos + 1 + lf.len()) =~= lf) by {
                assert forall|i: int| 0 <= i < lf.len() implies b.subrange(
                    pos + 1,
                    pos + 1 + lf.len(),
                )[i] == lf[i] by {
                    assert(b.subrange(pos, pos + w.len())[i + 1] == w[i + 1]);
                }
            }
            lemma_parse_len(o@.len(), b, pos + 1);
            let p = pos + 1 + lf.len();
            assert(b.subrange(p, p + we.len()) =~= we) by {
                assert forall|i: int| 0 <= i < we.len() implies b.subrange(p, p + we.len())[i]
                    == we[i] by {
                    assert(b.subrange(pos, pos + w.len())[1 + lf.len() + i] == w[1 + lf.len() + i]);
                }
            }
            lemma_parse_entries(o, 0, b, p);
            assert(entries_model(o).skip(0) =~= entries_model(o));
        },
    }
}

/// Parsing the wire bytes of the elements of `a` from `i` on yields their
/// models in order.
proof fn lemma_parse_elems(a: Vec<Value>, i: int, b: Seq<u8>, pos: int)
    requires
        lengths_ok(Value::Array(a)),
        0 <= i <= a@.len(),
        0 <= pos,
        pos + wire_elems(a, i).len() <= b.len(),
        b.subrange(pos, pos + wire_elems(a, i).len()) == wire_elems(a, i),
    ensures
        spec_read_elems(b, pos as nat, (a@.len() - i) as nat) == Ok::<
            (Seq<SpecValue>, nat),
            Error,
        >((array_model(a).skip(i), (pos + wire_elems(a, i).len()) as nat)),
    decreases a, 1int, a@.len() - i,
{
    if i == a@.len() {
        assert(array_model(a).skip(i) =~= Seq::<SpecValue>::empty());
    } else {
        let w = wire_bytes(a[i]);
        let rest = wire_elems(a, i + 1);
        let whole = wire_elems(a, i);
        assert(whole == w + rest);
        assert(b.subrange(pos, pos + w.len()) =~= w) by {
            assert forall|j: int| 0 <= j < w.len() implies b.subrange(pos, pos + w.len())[j]
                == w[j] by {
                assert(b.subrange(pos, pos + whole.len())[j] == whole[j]);
            }
        }
        lemma_parse_wire(a[i], b, pos);
        lemma_wire_nonempty(a[i]);
        let p = pos + w.len();
        assert(b.subrange(p, p + rest.len()) =~= rest) by {
            assert forall|j: int| 0 <= j < rest.len() implies b.subrange(p, p + rest.len())[j]
                == rest[j] by {
                assert(b.subrange(pos, pos + whole.len())[w.len() + j] == whole[w.len() + j]);
            }
        }
        lemma_parse_elems(a, i + 1, b, p);
        assert(array_model(a).skip(i) =~= seq![value_model(a[i])] + array_model(a).skip(i + 1));
    }
}

/// Parsing the wire bytes of the entries of `o` from `i` on yields their
/// models in order.
proof fn lemma_parse_entries(o: Vec<(Vec<u8>, Value)>, i: int, b: Seq<u8>, pos: int)
    requires
        lengths_ok(Value::Object(o)),
        0 <= i <= o@.len(),
        0 <= pos,
        pos + wire_entries(o, i).len() <= b.len(),
        b.subrange(pos, pos + wire_entries(o, i).len()) == wire_entries(o, i),
    ensures
        spec_read_entries(b, pos as nat, (o@.len() - i) as nat) == Ok::<
            (Seq<(Seq<u8>, SpecValue)>, nat),
            Error,
        >((entries_model(o).skip(i), (pos + wire_entries(o, i).len()) as nat)),
    decreases o, 1int, o@.len() - i,
{
    if i == o@.len() {
        assert(entries_model(o).skip(i) =~= Seq::<(Seq<u8>, SpecValue)>::empty());
    } else {
        let k = o[i].0@;
        let kf = key_field(k);
        let w = wire_bytes(o[i].1);
        let rest = wire_entries(o, i + 1);
        let whole = wire_entries(o, i);
        assert(whole == kf + w + rest);
        assert(o[i].0.len() == k.len());
        assert(b.subrange(pos, pos + kf.len()) =~= kf) by {
            assert forall|j: int| 0 <= j < kf.len() implies b.subrange(pos, pos + kf.len())[j]
                == kf[j] by {
                assert(b.subrange(pos, pos + whole.len())[j] == whole[j]);
            }
        }
        lemma_parse_key(k, b, pos);
        let pk = pos + kf.len();
        assert(kf.len() >= 1);
        assert(b.subrange(pk, pk + w.len()) =~= w) by {
            assert forall|j: int| 0 <= j < w.len() implies b.subrange(pk, pk + w.len())[j] == w[j]
            by {
                assert(b.subrange(pos, pos + whole.len())[kf.len() + j] == whole[kf.len() + j]);
            }
        }
        lemma_parse_wire(o[i].1, b, pk);
        lemma_wire_nonempty(o[i].1);
        let pv = pk + w.len();
        assert(b.subrange(pv, pv + rest.len()) =~= rest) by {
            assert forall|j: int| 0 <= j < rest.len() implies b.subrange(pv, pv + rest.len())[j]
                == rest[j] by {
                assert(b.subrange(pos, pos + whole.len())[kf.len() + w.len() + j] == whole[kf.len()
                    + w.len() + j]);
            }
        }
        lemma_parse_entries(o, i + 1, b, pv);
        assert(entries_model(o).skip(i) =~= seq![(k, value_model(o[i].1))] + entries_model(o).skip(
            i + 1,
        ));
    }
}

/// The structural pre-check accepts every encoded tree: the three
/// fixed-shape tags compress to exactly the shapes it demands, and the
/// other tags are non-zero bytes that compression leaves in front.
pub proof fn lemma_check_encoded(v: Value)
    ensures
        spec_check_buffer(rle_enc(wire_bytes(v))) == Ok::<(), Error>(()),
{
    let w = wire_bytes(v);
    lemma_wire_nonempty(v);
    assert(rle_enc(Seq::<u8>::empty()) =~= Seq::<u8>::empty());
    match v {
        Value::Boolean(bb) => {
            if !bb {
                assert(w =~= seq![0u8]);
                assert(w.skip(1) =~= Seq::<u8>::empty());
                crate::rle::lemma_lead_zeros(w);
                assert(crate::rle::lead_zeros(w) == 1);
                assert(crate::rle::zero_run(w) == 1);
                assert(rle_enc(w) == seq![0u8, 1u8] + rle_enc(w.skip(1)));
                assert(rle_enc(w) =~= seq![0u8, 1u8]);
            } else {
                assert(w =~= seq![1u8]);
                assert(w.skip(1) =~= Seq::<u8>::empty());
                assert(rle_enc(w) =~= seq![1u8]);
            }
        },
        Value::Null => {
            assert(w =~= seq![2u8]);
            assert(w.skip(1) =~= Seq::<u8>::empty());
            assert(rle_enc(w) =~= seq![2u8]);
        },
        Value::Number(bits) => {
            assert(w[0] == NUMBER);
            assert(rle_enc(w)[0] == NUMBER && rle_enc(w).len() >= 1);
        },
        Value::String(s) => {
            assert(w[0] == STRING);
            assert(rle_enc(w)[0] == STRING && rle_enc(w).len() >= 1);
        },
        Value::Array(a) => {
            assert(w[0] == ARRAY);
            assert(rle_enc(w)[0] == ARRAY && rle_enc(w).len() >= 1);
        },
        Value::Object(o) => {
            assert(w[0] == OBJECT);
            assert(rle_enc(w)[0] == OBJECT && rle_enc(w).len() >= 1);
        },
    }
}

/// Round trip: decoding the encoding of any tree yields the tree's model,
/// whatever its depth and whatever values it holds.
pub proof fn lemma_round_trip(v: Value)
    requires
        lengths_ok(v),
    ensures
        spec_deserialize(spec_serialize(v)) == Ok::<SpecValue, Error>(value_model(v)),
{
    let w = wire_bytes(v);
    lemma_check_encoded(v);
    lemma_rle_round_trip(w);
    assert(w.subrange(0, w.len() as int) =~= w);
    lemma_parse_wire(v, w, 0);
}

} // verus!
