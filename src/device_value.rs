//! The variables a device reports over the serial link, each in a slot
//! addressed by its sub-message id.
use vstd::prelude::*;

use crate::can::le_value;

verus! {

/// The primitive type of a device variable.
#[derive(Debug, Clone, Copy, PartialEq, Eq, Structural)]
pub enum Type {
    Bool,
    UInt8,
    UInt16,
    UInt32,
    UInt64,
    Int8,
    Int16,
    Int32,
    Int64,
    Float,
    Double,
}

/// The number of payload bytes a value of type `t` takes.
pub open spec fn size_spec(t: Type) -> nat {
    match t {
        Type::Bool | Type::UInt8 | Type::Int8 => 1,
        Type::UInt16 | Type::Int16 => 2,
        Type::UInt32 | Type::Int32 | Type::Float => 4,
        Type::UInt64 | Type::Int64 | Type::Double => 8,
    }
}

impl Type {
    /// The number of payload bytes a value of this type takes.
    pub fn size(&self) -> (r: usize)
        ensures
            r == size_spec(*self),
    {
        match self {
            Type::Bool | Type::UInt8 | Type::Int8 => 1,
            Type::UInt16 | Type::Int16 => 2,
            Type::UInt32 | Type::Int32 | Type::Float => 4,
            Type::UInt64 | Type::Int64 | Type::Double => 8,
        }
    }
}

/// A value read from a device; floats are kept as their IEEE-754 bit
/// patterns.
#[derive(Debug, Clone, Copy, PartialEq, Eq, Structural)]
pub enum Reading {
    Bool(bool),
    UInt8(u8),
    UInt16(u16),
    UInt32(u32),
    UInt64(u64),
    Int8(i8),
    Int16(i16),
    Int32(i32),
    Int64(i64),
    Float(u32),
    Double(u64),
}

/// `u` read as a two's complement number of `bytes` bytes.
pub open spec fn twos(u: int, bytes: nat) -> int {
    let half = vstd::arithmetic::power2::pow2((8 * bytes - 1) as nat);
    if u >= half {
        u - 2 * half
    } else {
        u
    }
}

/// The value of type `t` that the little-endian payload `p` holds.
pub open spec fn reading_of(t: Type, p: Seq<u8>) -> Reading {
    let u = le_value(p);
    match t {
        Type::Bool => Reading::Bool(p[0] % 2 == 1),
        Type::UInt8 => Reading::UInt8(u as u8),
        Type::UInt16 => Reading::UInt16(u as u16),
        Type::UInt32 => Reading::UInt32(u as u32),
        Type::UInt64 => Reading::UInt64(u as u64),
        Type::Int8 => Reading::Int8(twos(u, 1) as i8),
        Type::Int16 => Reading::Int16(twos(u, 2) as i16),
        Type::Int32 => Reading::Int32(twos(u, 4) as i32),
        Type::Int64 => Reading::Int64(twos(u, 8) as i64),
        Type::Float => Reading::Float(u as u32),
        Type::Double => Reading::Double(u as u64),
    }
}

/// One variable of a device: its type, where it sits in the tree, and the
/// last value received.
#[derive(Debug, Clone)]
pub struct PerDosValue {
    pub ty: Type,
    pub access_string: String,
    pub value: Option<Reading>,
}

impl PerDosValue {
    /// A slot for a variable of type `ty` at `access_string`, with no value.
    pub fn new(ty: Type, access_string: String) -> (r: Self)
        ensures
            r.ty == ty,
            r.access_string == access_string,
            r.value is None,
    {
        PerDosValue { ty, access_string, value: None }
    }

    /// Stores the value that `payload` holds where its length fits this
    /// slot's type; returns whether it did. A payload of another length
    /// leaves the slot as it was.
    pub fn try_set(&mut self, payload: Vec<u8>) -> (r: bool)
        ensures
            r == (payload@.len() == size_spec(old(self).ty)),
            final(self).ty == old(self).ty,
            final(self).access_string == old(self).access_string,
            r ==> final(self).value == Some(reading_of(old(self).ty, payload@)),
            !r ==> final(self).value == old(self).value,
    {
        if payload.len() != self.ty.size() {
            return false;
        }
        self.set(payload);
        true
    }

    /// Stores the value that `payload` holds, read by this slot's type.
    pub fn set(&mut self, payload: Vec<u8>)
        requires
            payload@.len() == size_spec(old(self).ty),
        ensures
            final(self).ty == old(self).ty,
            final(self).access_string == old(self).access_string,
            final(self).value == Some(reading_of(old(self).ty, payload@)),
    {
        let n = self.ty.size();
        let u = crate::can::read_le(payload.as_slice(), 0, n);
        proof {
            assert(payload@.subrange(0, n as int) =~= payload@);
            vstd::arithmetic::power2::lemma2_to64();
            vstd::arithmetic::power2::lemma2_to64_rest();
            crate::can::lemma_pow256_values();
        }
        let v = match self.ty {
            Type::Bool => Reading::Bool(payload[0] % 2 == 1),
            Type::UInt8 => Reading::UInt8(u as u8),
            Type::UInt16 => Reading::UInt16(u as u16),
            Type::UInt32 => Reading::UInt32(u as u32),
            Type::UInt64 => Reading::UInt64(u),
            Type::Int8 => Reading::Int8(crate::can::signed_narrow(u, 0x80) as i8),
            Type::Int16 => Reading::Int16(crate::can::signed_narrow(u, 0x8000) as i16),
            Type::Int32 => Reading::Int32(crate::can::signed_narrow(u, 0x8000_0000) as i32),
            Type::Int64 => Reading::Int64(crate::can::signed_wide(u)),
            Type::Float => Reading::Float(u as u32),
            Type::Double => Reading::Double(u),
        };
        self.value = Some(v);
    }
}

} // verus!
