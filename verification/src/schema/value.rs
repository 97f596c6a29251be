//! Typed column values and their encoding.

use vstd::prelude::*;
use vstd::slice::slice_to_vec;
use vstd::utf8::encode_utf8;
use crate::codec::{append_bytes, append_i64, append_u8, be_bytes, be_value, i64_bits, i64_of_bits,
    lemma_be_bytes_len, lemma_be_value_of_bytes, lemma_i64_bits, lemma_pow256_values, Cursor};
use crate::error::{eof, DbError, DbErrorView, DbResult, Decoded};
use crate::text::{decimal, push_decimal, string_of};

verus! {

#[derive(Debug, Clone, Copy, PartialEq, Eq, Structural)]
pub enum ValueType {
    Bytes,
    Int64,
}

/// The message of the error for an unknown value type byte.
pub open spec fn value_type_message(v: u8) -> Seq<char> {
    "Invalid value type: "@ + decimal(v as nat)
}

impl ValueType {
    /// The byte that stands for the type on disk.
    pub open spec fn spec_code(self) -> u8 {
        match self {
            ValueType::Bytes => 1,
            ValueType::Int64 => 2,
        }
    }

    /// The type that a byte stands for, or the error for an unknown byte.
    pub open spec fn spec_from_code(value: u8) -> Result<ValueType, DbErrorView> {
        if value == 1 {
            Ok(ValueType::Bytes)
        } else if value == 2 {
            Ok(ValueType::Int64)
        } else {
            Err(DbErrorView::InvalidFormat(value_type_message(value)))
        }
    }

    pub fn code(self) -> (r: u8)
        ensures
            r == self.spec_code(),
    {
        match self {
            ValueType::Bytes => 1,
            ValueType::Int64 => 2,
        }
    }

    pub fn try_from_u8(value: u8) -> (r: DbResult<ValueType>)
        ensures
            match ValueType::spec_from_code(value) {
                Ok(t) => r == Ok::<ValueType, DbError>(t),
                Err(e) => r matches Err(x) && x@ == e,
            },
    {
        match value {
            1 => Ok(ValueType::Bytes),
            2 => Ok(ValueType::Int64),
            _ => {
                let mut msg = string_of("Invalid value type: ");
                push_decimal(&mut msg, value as u64);
                Err(DbError::InvalidFormat(msg))
            },
        }
    }
}

/// A value as a mathematical value.
pub enum ValueView {
    Bytes(Seq<u8>),
    Int64(i64),
}

#[derive(Debug, Clone, PartialEq, Eq)]
pub enum Value {
    Bytes(Vec<u8>),
    Int64(i64),
}

impl View for Value {
    type V = ValueView;

    open spec fn view(&self) -> ValueView {
        match self {
            Value::Bytes(b) => ValueView::Bytes(b@),
            Value::Int64(i) => ValueView::Int64(*i),
        }
    }
}

/// The bytes of a value on disk: its type byte, then eight big-endian bytes for a
/// number, or a length byte (the length modulo 256) and the bytes.
pub open spec fn encode_value(v: ValueView) -> Seq<u8> {
    match v {
        ValueView::Int64(i) => seq![2u8] + be_bytes(i64_bits(i), 8),
        ValueView::Bytes(b) => seq![1u8, (b.len() % 256) as u8] + b,
    }
}

/// The value at the front of `s` and the bytes it takes, or the error that reading
/// it meets.
pub open spec fn decode_value(s: Seq<u8>) -> Decoded<ValueView> {
    if s.len() < 1 {
        Err(eof()@)
    } else {
        match ValueType::spec_from_code(s[0]) {
            Err(e) => Err(e),
            Ok(ValueType::Int64) => if s.len() < 9 {
                Err(eof()@)
            } else {
                Ok((ValueView::Int64(i64_of_bits(be_value(s.subrange(1, 9))) as i64), 9))
            },
            Ok(ValueType::Bytes) => if s.len() < 2 {
                Err(eof()@)
            } else if s.len() < 2 + s[1] {
                Err(eof()@)
            } else {
                Ok((ValueView::Bytes(s.subrange(2, 2 + s[1])), (2 + s[1]) as nat))
            },
        }
    }
}

/// The value fits its encoding: bytes no longer than 255.
pub open spec fn value_fits(v: ValueView) -> bool {
    match v {
        ValueView::Bytes(b) => b.len() <= 255,
        ValueView::Int64(_) => true,
    }
}

impl Value {
    pub fn value_type(&self) -> (r: ValueType)
        ensures
            r == (match self@ {
                ValueView::Bytes(_) => ValueType::Bytes,
                ValueView::Int64(_) => ValueType::Int64,
            }),
    {
        match self {
            Value::Bytes(_) => ValueType::Bytes,
            Value::Int64(_) => ValueType::Int64,
        }
    }

    pub fn as_bytes(&self) -> (r: Option<&[u8]>)
        ensures
            match self@ {
                ValueView::Bytes(b) => r matches Some(x) && x@ == b,
                ValueView::Int64(_) => r is None,
            },
    {
        match self {
            Value::Bytes(b) => Some(b.as_slice()),
            _ => None,
        }
    }

    pub fn as_i64(&self) -> (r: Option<i64>)
        ensures
            match self@ {
                ValueView::Int64(i) => r == Some(i),
                ValueView::Bytes(_) => r is None,
            },
    {
        match self {
            Value::Int64(i) => Some(*i),
            _ => None,
        }
    }

    /// A copy of the value.
    pub fn copy(&self) -> (r: Value)
        ensures
            r@ == self@,
    {
        match self {
            Value::Bytes(b) => Value::Bytes(slice_to_vec(b.as_slice())),
            Value::Int64(i) => Value::Int64(*i),
        }
    }

    pub fn write_to(&self, writer: &mut Vec<u8>) -> (r: DbResult<()>)
        ensures
            r is Ok,
            final(writer)@ == old(writer)@ + encode_value(self@),
    {
        append_u8(writer, self.value_type().code());
        match self {
            Value::Int64(val) => {
                append_i64(writer, *val);
            },
            Value::Bytes(val) => {
                append_u8(writer, (val.len() % 256) as u8);
                append_bytes(writer, val.as_slice());
            },
        }
        assert(writer@ =~= old(writer)@ + encode_value(self@));
        Ok(())
    }

    pub fn read_from(reader: &mut Cursor) -> (r: DbResult<Self>)
        ensures
            match decode_value(old(reader).remaining()) {
                Ok((v, n)) => r matches Ok(x) && x@ == v && final(reader).remaining() == old(
                    reader,
                ).remaining().skip(n as int),
                Err(e) => r matches Err(x) && x@ == e,
            },
    {
        let ghost s = reader.remaining();
        let code = reader.read_u8()?;
        let value_type = ValueType::try_from_u8(code)?;
        match value_type {
            ValueType::Int64 => {
                let val = match reader.read_i64_be() {
                    Ok(x) => x,
                    Err(e) => {
                        return Err(e);
                    },
                };
                assert(s.skip(1).take(8) =~= s.subrange(1, 9));
                assert(s.skip(1).skip(8) =~= s.skip(9));
                Ok(Value::Int64(val))
            },
            ValueType::Bytes => {
                let len = match reader.read_u8() {
                    Ok(x) => x,
                    Err(e) => {
                        return Err(e);
                    },
                };
                let data = match reader.read_bytes(len as usize) {
                    Ok(x) => x,
                    Err(e) => {
                        return Err(e);
                    },
                };
                assert(s.skip(1).skip(1).take(len as int) =~= s.subrange(2, 2 + len));
                assert(s.skip(1).skip(1).skip(len as int) =~= s.skip(2 + len));
                Ok(Value::Bytes(data))
            },
        }
    }
}

/// Reading back the encoding of a value that fits gives the same value.
pub proof fn lemma_value_roundtrip(v: ValueView, rest: Seq<u8>)
    requires
        value_fits(v),
    ensures
        decode_value(encode_value(v) + rest) == Ok::<(ValueView, nat), DbErrorView>(
            (v, encode_value(v).len()),
        ),
{
    let s = encode_value(v) + rest;
    match v {
        ValueView::Int64(i) => {
            lemma_pow256_values();
            lemma_i64_bits(i);
            lemma_be_bytes_len(i64_bits(i), 8);
            lemma_be_value_of_bytes(i64_bits(i), 8);
            assert(s.subrange(1, 9) =~= be_bytes(i64_bits(i), 8));
        },
        ValueView::Bytes(b) => {
            assert(s.subrange(2, 2 + b.len() as int) =~= b);
        },
    }
}

impl From<i64> for Value {
    fn from(val: i64) -> (r: Self)
        ensures
            r@ == ValueView::Int64(val),
    {
        Value::Int64(val)
    }
}

impl vstd::std_specs::convert::FromSpecImpl<i64> for Value {
    open spec fn obeys_from_spec() -> bool {
        true
    }

    open spec fn from_spec(v: i64) -> Value {
        Value::Int64(v)
    }
}

impl From<Vec<u8>> for Value {
    fn from(val: Vec<u8>) -> (r: Self)
        ensures
            r@ == ValueView::Bytes(val@),
    {
        Value::Bytes(val)
    }
}

impl vstd::std_specs::convert::FromSpecImpl<Vec<u8>> for Value {
    open spec fn obeys_from_spec() -> bool {
        true
    }

    open spec fn from_spec(v: Vec<u8>) -> Value {
        Value::Bytes(v)
    }
}

impl From<&[u8]> for Value {
    fn from(val: &[u8]) -> (r: Self)
        ensures
            r@ == ValueView::Bytes(val@),
    {
        Value::Bytes(slice_to_vec(val))
    }
}

impl From<String> for Value {
    fn from(val: String) -> (r: Self)
        ensures
            r@ == ValueView::Bytes(encode_utf8(val@)),
    {
        Value::Bytes(slice_to_vec(val.as_str().as_bytes()))
    }
}

impl From<&str> for Value {
    fn from(val: &str) -> (r: Self)
        ensures
            r@ == ValueView::Bytes(encode_utf8(val@)),
    {
        Value::Bytes(slice_to_vec(val.as_bytes()))
    }
}

impl vstd::std_specs::convert::FromSpecImpl<&[u8]> for Value {
    /// The conversion is stated on `from` itself, as the view of its result: the
    /// value holds the bytes of the argument. No spec function here can build the
    /// `Vec` that the result holds from those bytes, so the generic form is not
    /// claimed.
    open spec fn obeys_from_spec() -> bool {
        false
    }

    open spec fn from_spec(v: &[u8]) -> Value {
        arbitrary()
    }
}

impl vstd::std_specs::convert::FromSpecImpl<String> for Value {
    /// The conversion is stated on `from` itself, as the view of its result: the
    /// value holds the bytes of the argument. No spec function here can build the
    /// `Vec` that the result holds from those bytes, so the generic form is not
    /// claimed.
    open spec fn obeys_from_spec() -> bool {
        false
    }

    open spec fn from_spec(v: String) -> Value {
        arbitrary()
    }
}

impl vstd::std_specs::convert::FromSpecImpl<&str> for Value {
    /// The conversion is stated on `from` itself, as the view of its result: the
    /// value holds the bytes of the argument. No spec function here can build the
    /// `Vec` that the result holds from those bytes, so the generic form is not
    /// claimed.
    open spec fn obeys_from_spec() -> bool {
        false
    }

    open spec fn from_spec(v: &str) -> Value {
        arbitrary()
    }
}

} // verus!
