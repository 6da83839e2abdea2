//! The value of a variable, and its message form.
use vstd::prelude::*;

use crate::errors::UnpackError;
use crate::wire;

verus! {

/// A value; floats are kept as their IEEE-754 bit patterns.
#[derive(Debug, Clone, Copy, PartialEq, Eq, Structural)]
pub enum Value {
    Invalid,
    Null,
    Enum(u8),
    Bool(bool),
    Uint8(u8),
    Uint16(u16),
    Uint32(u32),
    Uint64(u64),
    Int8(i8),
    Int16(i16),
    Int32(i32),
    Int64(i64),
    Float(u32),
    Double(u64),
}

/// The message form of `v`.
pub open spec fn pack_spec(v: Value) -> wire::Value {
    wire::Value {
        value_type: Some(
            match v {
                Value::Invalid => wire::ValueType::Invalid(wire::Empty {  }),
                Value::Null => wire::ValueType::Null(wire::Empty {  }),
                Value::Enum(e) => wire::ValueType::En(e as i32),
                Value::Bool(b) => wire::ValueType::B(b),
                Value::Uint8(u) => wire::ValueType::U8(u as u32),
                Value::Uint16(u) => wire::ValueType::U16(u as u32),
                Value::Uint32(u) => wire::ValueType::U32(u),
                Value::Uint64(u) => wire::ValueType::U64(u),
                Value::Int8(i) => wire::ValueType::I8(i as i32),
                Value::Int16(i) => wire::ValueType::I16(i as i32),
                Value::Int32(i) => wire::ValueType::I32(i),
                Value::Int64(i) => wire::ValueType::I64(i),
                Value::Float(f) => wire::ValueType::F(f),
                Value::Double(d) => wire::ValueType::D(d),
            },
        ),
    }
}

/// `x` kept to its low byte.
pub open spec fn low_u8(x: int) -> u8 {
    (x % 0x100) as u8
}

/// `x` kept to its low byte, read as two's complement.
pub open spec fn low_i8(x: int) -> i8 {
    let b = x % 0x100;
    (if b >= 0x80 {
        b - 0x100
    } else {
        b
    }) as i8
}

/// `x` kept to its low 16 bits, read as two's complement.
pub open spec fn low_i16(x: int) -> i16 {
    let b = x % 0x1_0000;
    (if b >= 0x8000 {
        b - 0x1_0000
    } else {
        b
    }) as i16
}

/// The value a message holds; narrower integers keep the low bits, as a
/// cast does.
pub open spec fn unpack_spec(m: wire::Value) -> Result<Value, UnpackError> {
    match m.value_type {
        None => Err(UnpackError::NullFieldError),
        Some(t) => Ok(
            match t {
                wire::ValueType::Invalid(_) => Value::Invalid,
                wire::ValueType::Null(_) => Value::Null,
                wire::ValueType::En(e) => Value::Enum(low_u8(e as int)),
                wire::ValueType::B(b) => Value::Bool(b),
                wire::ValueType::U8(u) => Value::Uint8(low_u8(u as int)),
                wire::ValueType::U16(u) => Value::Uint16((u as int % 0x1_0000) as u16),
                wire::ValueType::U32(u) => Value::Uint32(u),
                wire::ValueType::U64(u) => Value::Uint64(u),
                wire::ValueType::I8(i) => Value::Int8(low_i8(i as int)),
                wire::ValueType::I16(i) => Value::Int16(low_i16(i as int)),
                wire::ValueType::I32(i) => Value::Int32(i),
                wire::ValueType::I64(i) => Value::Int64(i),
                wire::ValueType::F(f) => Value::Float(f),
                wire::ValueType::D(d) => Value::Double(d),
            },
        ),
    }
}

fn low_u8_of(x: i64) -> (r: u8)
    ensures
        r == low_u8(x as int),
{
    let b = x % 0x100;
    let b = if b < 0 { b + 0x100 } else { b };
    proof {
        assert(b == x as int % 0x100);
    }
    b as u8
}

fn low_i8_of(x: i32) -> (r: i8)
    ensures
        r == low_i8(x as int),
{
    let b = low_u8_of(x as i64) as i32;
    if b >= 0x80 {
        (b - 0x100) as i8
    } else {
        b as i8
    }
}

fn low_i16_of(x: i32) -> (r: i16)
    ensures
        r == low_i16(x as int),
{
    let b = x % 0x1_0000;
    let b = if b < 0 { b + 0x1_0000 } else { b };
    proof {
        assert(b == x as int % 0x1_0000);
    }
    if b >= 0x8000 {
        (b - 0x1_0000) as i16
    } else {
        b as i16
    }
}

impl Value {
    /// The message form of this value.
    pub fn pack(&self) -> (r: wire::Value)
        ensures
            r == pack_spec(*self),
    {
        wire::Value {
            value_type: Some(
                match *self {
                    Value::Invalid => wire::ValueType::Invalid(wire::Empty {  }),
                    Value::Null => wire::ValueType::Null(wire::Empty {  }),
                    Value::Enum(e) => wire::ValueType::En(e as i32),
                    Value::Bool(b) => wire::ValueType::B(b),
                    Value::Uint8(u) => wire::ValueType::U8(u as u32),
                    Value::Uint16(u) => wire::ValueType::U16(u as u32),
                    Value::Uint32(u) => wire::ValueType::U32(u),
                    Value::Uint64(u) => wire::ValueType::U64(u),
                    Value::Int8(i) => wire::ValueType::I8(i as i32),
                    Value::Int16(i) => wire::ValueType::I16(i as i32),
                    Value::Int32(i) => wire::ValueType::I32(i),
                    Value::Int64(i) => wire::ValueType::I64(i),
                    Value::Float(f) => wire::ValueType::F(f),
                    Value::Double(d) => wire::ValueType::D(d),
                },
            ),
        }
    }

    /// The value a message holds, or `NullFieldError` where it holds none.
    pub fn unpack(value: &wire::Value) -> (r: Result<Value, UnpackError>)
        ensures
            r == unpack_spec(*value),
    {
        match value.value_type {
            None => Err(UnpackError::NullFieldError),
            Some(wire::ValueType::Invalid(_)) => Ok(Value::Invalid),
            Some(wire::ValueType::Null(_)) => Ok(Value::Null),
            Some(wire::ValueType::En(e)) => Ok(Value::Enum(low_u8_of(e as i64))),
            Some(wire::ValueType::B(b)) => Ok(Value::Bool(b)),
            Some(wire::ValueType::U8(u)) => Ok(Value::Uint8(low_u8_of(u as i64))),
            Some(wire::ValueType::U16(u)) => Ok(Value::Uint16((u % 0x1_0000) as u16)),
            Some(wire::ValueType::U32(u)) => Ok(Value::Uint32(u)),
            Some(wire::ValueType::U64(u)) => Ok(Value::Uint64(u)),
            Some(wire::ValueType::I8(i)) => Ok(Value::Int8(low_i8_of(i))),
            Some(wire::ValueType::I16(i)) => Ok(Value::Int16(low_i16_of(i))),
            Some(wire::ValueType::I32(i)) => Ok(Value::Int32(i)),
            Some(wire::ValueType::I64(i)) => Ok(Value::Int64(i)),
            Some(wire::ValueType::F(f)) => Ok(Value::Float(f)),
            Some(wire::ValueType::D(d)) => Ok(Value::Double(d)),
        }
    }
}

/// Unpacking what `pack` wrote gives the value back.
pub proof fn lemma_value_pack_round_trip(v: Value)
    ensures
        unpack_spec(pack_spec(v)) == Ok::<Value, UnpackError>(v),
{
    match v {
        Value::Int8(i) => {
            assert(low_i8(i as int) == i);
        },
        Value::Int16(i) => {
            assert(low_i16(i as int) == i);
        },
        _ => {},
    }
}

/// An enum value with the given index.
pub fn enum_value(v: u8) -> (r: Value)
    ensures
        r == Value::Enum(v),
{
    Value::Enum(v)
}

} // verus!
