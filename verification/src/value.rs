//! Values: user data or a tombstone.
//!
//! A tombstone records that a user key was deleted as of some sequence
//! number; it occupies a key slot but carries no payload.

use vstd::prelude::*;

use crate::codec::{clone_bytes, push_bytes, push_range, push_u32_le, read_u32_le, u32_from_le, u32_le};
use crate::StoreError;

verus! {

/// The tag that opens a value's byte encoding.
#[derive(Debug, Clone, Copy, PartialEq, Eq, Structural)]
pub enum ValueType {
    Data,
    Tombstone,
}

/// The tag byte of each value kind: data is 0, a tombstone is 1.
pub open spec fn value_tag(t: ValueType) -> u8 {
    match t {
        ValueType::Data => 0,
        ValueType::Tombstone => 1,
    }
}

impl ValueType {
    /// The value kind encoded by a tag byte, if any.
    pub fn from_u8(value: u8) -> (r: Option<ValueType>)
        ensures
            r == if value == value_tag(ValueType::Data) {
                Some(ValueType::Data)
            } else if value == value_tag(ValueType::Tombstone) {
                Some(ValueType::Tombstone)
            } else {
                None::<ValueType>
            },
    {
        if value == 0 {
            Some(ValueType::Data)
        } else if value == 1 {
            Some(ValueType::Tombstone)
        } else {
            None
        }
    }

    /// This kind's tag byte.
    pub fn as_u8(&self) -> (r: u8)
        ensures
            r == value_tag(*self),
    {
        match self {
            ValueType::Data => 0,
            ValueType::Tombstone => 1,
        }
    }
}

/// The mathematical content of a value.
#[verifier::ext_equal]
pub enum ValueV {
    Data(Seq<u8>),
    Tombstone,
}

/// A stored value: either user data or a tombstone.
#[derive(Debug)]
pub enum Value {
    Data(Vec<u8>),
    Tombstone,
}

impl View for Value {
    type V = ValueV;

    open spec fn view(&self) -> ValueV {
        match self {
            Value::Data(d) => ValueV::Data(d@),
            Value::Tombstone => ValueV::Tombstone,
        }
    }
}

/// The number of payload bytes a value contributes to size estimates:
/// tombstones count as zero.
pub open spec fn payload_len(v: ValueV) -> int {
    match v {
        ValueV::Data(d) => d.len() as int,
        ValueV::Tombstone => 0,
    }
}

/// A value is encodable when its payload fits the 32-bit length prefix.
pub open spec fn value_wf(v: ValueV) -> bool {
    payload_len(v) <= u32::MAX
}

/// The byte encoding of a value: a tag byte, then for data a 32-bit
/// little-endian payload length and the payload itself.
pub open spec fn value_enc(v: ValueV) -> Seq<u8> {
    match v {
        ValueV::Data(d) => seq![0u8] + u32_le(d.len() as u32) + d,
        ValueV::Tombstone => seq![1u8],
    }
}

pub open spec fn value_enc_len(v: ValueV) -> int {
    match v {
        ValueV::Data(d) => 5 + d.len() as int,
        ValueV::Tombstone => 1,
    }
}

/// Decoding a value at position `pos`: the decoded value and the position
/// just past it, or nothing if the bytes are short or the tag is unknown.
pub open spec fn value_dec(b: Seq<u8>, pos: int) -> Option<(ValueV, int)> {
    if pos + 1 > b.len() {
        None
    } else if b[pos] == 1 {
        Some((ValueV::Tombstone, pos + 1))
    } else if b[pos] == 0 {
        if pos + 5 > b.len() {
            None
        } else {
            let vlen = u32_from_le(b.subrange(pos + 1, pos + 5)) as int;
            if pos + 5 + vlen > b.len() {
                None
            } else {
                Some((ValueV::Data(b.subrange(pos + 5, pos + 5 + vlen)), pos + 5 + vlen))
            }
        }
    } else {
        None
    }
}

/// Decoding an encoded value out of any surrounding buffer restores it.
pub proof fn lemma_value_round_trip(b: Seq<u8>, pos: int, v: ValueV)
    requires
        value_wf(v),
        0 <= pos,
        pos + value_enc_len(v) <= b.len(),
        b.subrange(pos, pos + value_enc_len(v)) == value_enc(v),
    ensures
        value_dec(b, pos) == Some((v, pos + value_enc_len(v))),
{
    let e = value_enc(v);
    assert(b.subrange(pos, pos + value_enc_len(v))[0] == b[pos]);
    match v {
        ValueV::Tombstone => {
            assert(b[pos] == 1);
        },
        ValueV::Data(d) => {
            let vlen = d.len() as int;
            assert(b[pos] == 0);
            crate::codec::lemma_u32_le_round_trip(d.len() as u32);
            assert(b.subrange(pos + 1, pos + 5) =~= u32_le(d.len() as u32)) by {
                assert(forall|j: int|
                    0 <= j < 4 ==> #[trigger] b.subrange(pos + 1, pos + 5)[j] == b.subrange(
                        pos,
                        pos + value_enc_len(v),
                    )[j + 1]);
            }
            assert(b.subrange(pos + 5, pos + 5 + vlen) =~= d) by {
                assert(forall|j: int|
                    0 <= j < vlen ==> #[trigger] b.subrange(pos + 5, pos + 5 + vlen)[j]
                        == b.subrange(pos, pos + value_enc_len(v))[j + 5]);
            }
            assert(value_dec(b, pos).unwrap().0 =~= v);
        },
    }
}

impl Value {
    /// The kind of this value.
    pub fn value_type(&self) -> (r: ValueType)
        ensures
            r == ValueType::Data <==> self@ is Data,
            r == ValueType::Tombstone <==> self@ is Tombstone,
    {
        match self {
            Value::Data(_) => ValueType::Data,
            Value::Tombstone => ValueType::Tombstone,
        }
    }

    /// The number of payload bytes this value carries.
    pub fn payload_len(&self) -> (r: usize)
        ensures
            r == payload_len(self@),
    {
        match self {
            Value::Data(d) => d.len(),
            Value::Tombstone => 0,
        }
    }

    /// A fresh value with the same contents.
    pub fn duplicate(&self) -> (r: Value)
        ensures
            r@ == self@,
    {
        match self {
            Value::Data(d) => Value::Data(clone_bytes(d)),
            Value::Tombstone => Value::Tombstone,
        }
    }

    /// Appends the byte encoding of this value to `buf`.
    pub fn encode_into(&self, buf: &mut Vec<u8>)
        requires
            value_wf(self@),
        ensures
            final(buf)@ == old(buf)@ + value_enc(self@),
    {
        match self {
            Value::Data(d) => {
                buf.push(0);
                push_u32_le(buf, d.len() as u32);
                push_bytes(buf, d);
                assert(buf@ =~= old(buf)@ + value_enc(self@));
            },
            Value::Tombstone => {
                buf.push(1);
                assert(buf@ =~= old(buf)@ + value_enc(self@));
            },
        }
    }

    /// Decodes a value at position `pos` of `buf`, returning the value and
    /// the position just past it.
    pub fn decode_from(buf: &[u8], pos: usize) -> (r: Result<(Value, usize), StoreError>)
        requires
            pos <= buf@.len(),
        ensures
            match r {
                Ok((v, next)) => value_dec(buf@, pos as int) == Some((v@, next as int)) && next
                    <= buf@.len(),
                Err(e) => value_dec(buf@, pos as int) is None && e == StoreError::CorruptRecord,
            },
    {
        if buf.len() - pos < 1 {
            return Err(StoreError::CorruptRecord);
        }
        let tag = buf[pos];
        if tag == 1 {
            return Ok((Value::Tombstone, pos + 1));
        }
        if tag != 0 {
            return Err(StoreError::CorruptRecord);
        }
        if buf.len() - pos - 1 < 4 {
            return Err(StoreError::CorruptRecord);
        }
        let vlen = read_u32_le(buf, pos + 1) as usize;
        assert(buf@.subrange(pos + 1, pos + 1 + 4) =~= buf@.subrange(pos + 1, pos + 5));
        if buf.len() - pos - 5 < vlen {
            return Err(StoreError::CorruptRecord);
        }
        let mut data: Vec<u8> = Vec::new();
        push_range(&mut data, buf, pos + 5, pos + 5 + vlen);
        let r = Value::Data(data);
        assert(value_dec(buf@, pos as int).unwrap().0 =~= r@);
        Ok((r, pos + 5 + vlen))
    }
}

} // verus!
