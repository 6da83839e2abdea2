//! Decoding of CAN payloads into typed values by a fixed per-id layout.
use std::collections::HashMap;

use vstd::prelude::*;

use crate::nodes::NodeID;
use crate::schema::{
    all_types_known, build_can_tree, first_clash, flat_paths, last_with_id, layout_matches,
    layouts_valid, sum_len, CanIdConfig, Entry, SchemaError, Tree, MAX_NODES,
};

verus! {

/// The primitive format of a value.
#[derive(Debug, Clone, Copy, PartialEq, Eq, Structural)]
pub enum DataType {
    Bool,
    ByteArray,
    Str,
    F32,
    F64,
    U8,
    U16,
    U32,
    U64,
    I8,
    I16,
    I32,
    I64,
}

/// A value read off the bus; floats are kept as their IEEE-754 bit patterns.
#[derive(Debug, Clone, PartialEq, Eq)]
pub enum RawValue {
    I8(i8),
    I16(i16),
    I32(i32),
    I64(i64),
    U8(u8),
    U16(u16),
    U32(u32),
    U64(u64),
    F32(u32),
    F64(u64),
    Str(String),
    Bool(bool),
    ByteArray(Vec<u8>),
}

/// A value as the query side sees it: at most one field set, the one of
/// its format; floats are kept as their IEEE-754 bit patterns.
#[derive(Debug, Clone, Default)]
pub struct Value {
    pub boolean: Option<bool>,
    pub string: Option<String>,
    pub byte_array: Option<Vec<u8>>,
    pub float32: Option<u32>,
    pub float64: Option<u64>,
    pub int8: Option<i8>,
    pub int16: Option<i16>,
    pub int32: Option<i32>,
    pub int64: Option<i64>,
    pub uint8: Option<u8>,
    pub uint16: Option<u16>,
    pub uint32: Option<u32>,
    pub uint64: Option<u64>,
}

/// A value at one point in time.
#[derive(Debug, Clone)]
pub struct Datapoint {
    pub value: Value,
}

/// The number of fields of `v` that are set.
pub open spec fn fields_set(v: Value) -> int {
    (if v.boolean is Some { 1int } else { 0 }) + (if v.string is Some { 1int } else { 0 }) + (
    if v.byte_array is Some { 1int } else { 0 }) + (if v.float32 is Some { 1int } else { 0 }) + (
    if v.float64 is Some { 1int } else { 0 }) + (if v.int8 is Some { 1int } else { 0 }) + (
    if v.int16 is Some { 1int } else { 0 }) + (if v.int32 is Some { 1int } else { 0 }) + (
    if v.int64 is Some { 1int } else { 0 }) + (if v.uint8 is Some { 1int } else { 0 }) + (
    if v.uint16 is Some { 1int } else { 0 }) + (if v.uint32 is Some { 1int } else { 0 }) + (
    if v.uint64 is Some { 1int } else { 0 })
}

/// A value with no field set.
pub open spec fn empty_value() -> Value {
    Value {
        boolean: None,
        string: None,
        byte_array: None,
        float32: None,
        float64: None,
        int8: None,
        int16: None,
        int32: None,
        int64: None,
        uint8: None,
        uint16: None,
        uint32: None,
        uint64: None,
    }
}

fn new_empty_value() -> (r: Value)
    ensures
        r == empty_value(),
{
    Value {
        boolean: None,
        string: None,
        byte_array: None,
        float32: None,
        float64: None,
        int8: None,
        int16: None,
        int32: None,
        int64: None,
        uint8: None,
        uint16: None,
        uint32: None,
        uint64: None,
    }
}

impl RawValue {
    /// The value with the one field of this value's format set.
    pub fn into_value(self) -> (r: Value)
        ensures
            fields_set(r) == 1,
            match self {
                RawValue::Str(s) => r.string == Some(s),
                RawValue::ByteArray(b) => r.byte_array == Some(b),
                RawValue::Bool(b) => r.boolean == Some(b),
                RawValue::I8(i) => r.int8 == Some(i),
                RawValue::U8(u) => r.uint8 == Some(u),
                RawValue::I16(i) => r.int16 == Some(i),
                RawValue::U16(u) => r.uint16 == Some(u),
                RawValue::I32(i) => r.int32 == Some(i),
                RawValue::U32(u) => r.uint32 == Some(u),
                RawValue::I64(i) => r.int64 == Some(i),
                RawValue::U64(u) => r.uint64 == Some(u),
                RawValue::F32(f) => r.float32 == Some(f),
                RawValue::F64(f) => r.float64 == Some(f),
            },
    {
        let mut v = new_empty_value();
        match self {
            RawValue::Str(s) => v.string = Some(s),
            RawValue::ByteArray(b) => v.byte_array = Some(b),
            RawValue::Bool(b) => v.boolean = Some(b),
            RawValue::I8(i) => v.int8 = Some(i),
            RawValue::U8(u) => v.uint8 = Some(u),
            RawValue::I16(i) => v.int16 = Some(i),
            RawValue::U16(u) => v.uint16 = Some(u),
            RawValue::I32(i) => v.int32 = Some(i),
            RawValue::U32(u) => v.uint32 = Some(u),
            RawValue::I64(i) => v.int64 = Some(i),
            RawValue::U64(u) => v.uint64 = Some(u),
            RawValue::F32(f) => v.float32 = Some(f),
            RawValue::F64(f) => v.float64 = Some(f),
        }
        v
    }
}

/// Why a payload could not be decoded.
#[derive(Debug, Clone, Copy, PartialEq, Eq, Structural)]
pub enum CanError {
    /// Strings and byte arrays have no fixed width on the bus.
    Unsupported,
    /// A field other than a boolean starts in the middle of a byte.
    Misaligned,
    /// The payload ends before the field does.
    Truncated,
    /// No layout is known for the arbitration id.
    UnknownId,
}

/// The format a type name of the configuration files stands for.
pub open spec fn perxml_format(s: Seq<char>) -> Option<DataType> {
    if s == "bool"@ {
        Some(DataType::Bool)
    } else if s == "int8"@ {
        Some(DataType::I8)
    } else if s == "uint8"@ {
        Some(DataType::U8)
    } else if s == "int16"@ {
        Some(DataType::I16)
    } else if s == "uint16"@ {
        Some(DataType::U16)
    } else if s == "int32"@ {
        Some(DataType::I32)
    } else if s == "uint32"@ {
        Some(DataType::U32)
    } else if s == "int64"@ {
        Some(DataType::I64)
    } else if s == "uint64"@ {
        Some(DataType::U64)
    } else if s == "float"@ {
        Some(DataType::F32)
    } else if s == "dobule"@ {
        Some(DataType::F64)
    } else {
        None
    }
}

/// The format a type name of the configuration files stands for, if any.
pub fn perxml_type(s: &str) -> (r: Option<DataType>)
    ensures
        r == perxml_format(s@),
{
    let owned = s.to_owned();
    if owned == "bool".to_owned() {
        Some(DataType::Bool)
    } else if owned == "int8".to_owned() {
        Some(DataType::I8)
    } else if owned == "uint8".to_owned() {
        Some(DataType::U8)
    } else if owned == "int16".to_owned() {
        Some(DataType::I16)
    } else if owned == "uint16".to_owned() {
        Some(DataType::U16)
    } else if owned == "int32".to_owned() {
        Some(DataType::I32)
    } else if owned == "uint32".to_owned() {
        Some(DataType::U32)
    } else if owned == "int64".to_owned() {
        Some(DataType::I64)
    } else if owned == "uint64".to_owned() {
        Some(DataType::U64)
    } else if owned == "float".to_owned() {
        Some(DataType::F32)
    } else if owned == "dobule".to_owned() {
        Some(DataType::F64)
    } else {
        None
    }
}

impl DataType {
    /// The format of a type name of the configuration files; the name must
    /// be one of those known.
    pub fn parse_perxml(s: &str) -> (r: Self)
        requires
            perxml_format(s@) is Some,
        ensures
            perxml_format(s@) == Some(r),
    {
        match perxml_type(s) {
            Some(t) => t,
            None => vstd::pervasive::unreached(),
        }
    }
}

/// The number of bytes a field of format `t` takes, where it has a width.
pub open spec fn width(t: DataType) -> int {
    match t {
        DataType::U8 | DataType::I8 => 1,
        DataType::U16 | DataType::I16 => 2,
        DataType::U32 | DataType::I32 | DataType::F32 => 4,
        DataType::U64 | DataType::I64 | DataType::F64 => 8,
        _ => 0,
    }
}

/// The little-endian number held by `s`.
pub open spec fn le_value(s: Seq<u8>) -> int
    decreases s.len(),
{
    if s.len() == 0 {
        0
    } else {
        s[0] as int + 256 * le_value(s.drop_first())
    }
}

/// `u`, read as a two's complement number of `bits` bits.
pub open spec fn signed(u: int, bits: nat) -> int {
    if u >= vstd::arithmetic::power2::pow2((bits - 1) as nat) {
        u - vstd::arithmetic::power2::pow2(bits)
    } else {
        u
    }
}

/// The value of a fixed-width field of format `t` whose bytes are `s`.
pub open spec fn fixed_value(t: DataType, s: Seq<u8>) -> RawValue {
    let u = le_value(s);
    match t {
        DataType::U8 => RawValue::U8(u as u8),
        DataType::U16 => RawValue::U16(u as u16),
        DataType::U32 => RawValue::U32(u as u32),
        DataType::U64 => RawValue::U64(u as u64),
        DataType::I8 => RawValue::I8(signed(u, 8) as i8),
        DataType::I16 => RawValue::I16(signed(u, 16) as i16),
        DataType::I32 => RawValue::I32(signed(u, 32) as i32),
        DataType::I64 => RawValue::I64(signed(u, 64) as i64),
        DataType::F32 => RawValue::F32(u as u32),
        _ => RawValue::F64(u as u64),
    }
}

/// Reading one field of format `t` at byte `pos`, bit `bit`: the value and
/// the cursor after it.
pub open spec fn field_spec(t: DataType, data: Seq<u8>, pos: int, bit: int) -> Result<
    (RawValue, int, int),
    CanError,
> {
    match t {
        DataType::Str | DataType::ByteArray => Err(CanError::Unsupported),
        DataType::Bool => if pos >= data.len() {
            Err(CanError::Truncated)
        } else {
            let b = (data[pos] >> (bit as u8)) & 1u8 == 1u8;
            if bit + 1 >= 8 {
                Ok((RawValue::Bool(b), pos + 1, 0))
            } else {
                Ok((RawValue::Bool(b), pos, bit + 1))
            }
        },
        _ => if bit != 0 {
            Err(CanError::Misaligned)
        } else if pos + width(t) > data.len() {
            Err(CanError::Truncated)
        } else {
            Ok((fixed_value(t, data.subrange(pos, pos + width(t))), pos + width(t), 0))
        },
    }
}

/// Reading the fields of `layout` one after the other from byte `pos`, bit
/// `bit` on: each value with its destination node.
pub open spec fn fields_spec(
    layout: Seq<(DataType, NodeID)>,
    data: Seq<u8>,
    pos: int,
    bit: int,
) -> Result<Seq<(NodeID, RawValue)>, CanError>
    decreases layout.len(),
{
    if layout.len() == 0 {
        Ok(Seq::empty())
    } else {
        match field_spec(layout[0].0, data, pos, bit) {
            Err(e) => Err(e),
            Ok((v, p, b)) => match fields_spec(layout.drop_first(), data, p, b) {
                Err(e) => Err(e),
                Ok(rest) => Ok(seq![(layout[0].1, v)] + rest),
            },
        }
    }
}

pub open spec fn pow256(k: nat) -> int
    decreases k,
{
    if k == 0 {
        1
    } else {
        256 * pow256((k - 1) as nat)
    }
}

/// The little-endian number in `data[pos..pos + n]`.
pub(crate) fn read_le(data: &[u8], pos: usize, n: usize) -> (r: u64)
    requires
        n <= 8,
        pos + n <= data@.len(),
    ensures
        r == le_value(data@.subrange(pos as int, pos + n)),
        r < pow256(n as nat),
{
    let dlen = data.len();
    let mut r: u64 = 0;
    let mut i: usize = n;
    proof {
        assert(data@.subrange(pos + n, pos + n) =~= Seq::<u8>::empty());
    }
    assert(pos + n <= dlen);
    while i > 0
        invariant
            i <= n <= 8,
            pos + n <= data@.len(),
            r == le_value(data@.subrange(pos + i, pos + n)),
            r < pow256((n - i) as nat),
            pos + n <= dlen,
        decreases i,
    {
        i = i - 1;
        proof {
            let s = data@.subrange(pos + i, pos + n);
            assert(s.drop_first() =~= data@.subrange(pos + i + 1, pos + n));
            assert(s[0] == data@[pos + i]);
            assert(pow256((n - i) as nat) == 256 * pow256((n - i - 1) as nat));
            assert(pow256(7) == 0x100_0000_0000_0000) by {
                reveal_with_fuel(pow256, 8);
            }
            lemma_pow256_mono((n - i - 1) as nat, 7);
            assert(r < 0x100_0000_0000_0000);
        }
        r = data[pos + i] as u64 + 256 * r;
    }
    r
}

/// The powers of 256 that field widths use.
pub proof fn lemma_pow256_values()
    ensures
        pow256(1) == 0x100,
        pow256(2) == 0x1_0000,
        pow256(4) == 0x1_0000_0000,
{
    reveal_with_fuel(pow256, 5);
}

proof fn lemma_pow256_mono(a: nat, b: nat)
    requires
        a <= b,
    ensures
        pow256(a) <= pow256(b),
    decreases b,
{
    if a < b {
        lemma_pow256_mono(a, (b - 1) as nat);
        assert(pow256((b - 1) as nat) >= 1) by {
            lemma_pow256_pos((b - 1) as nat);
        }
    }
}

proof fn lemma_pow256_pos(a: nat)
    ensures
        pow256(a) >= 1,
    decreases a,
{
    if a > 0 {
        lemma_pow256_pos((a - 1) as nat);
    }
}

/// `u`, read as two's complement with sign bit `half`.
pub(crate) fn signed_narrow(u: u64, half: u64) -> (r: i64)
    requires
        half == 0x80 || half == 0x8000 || half == 0x8000_0000,
        u < 2 * half,
    ensures
        r == (if u >= half {
            u - 2 * half
        } else {
            u as int
        }),
        -(half as int) <= r < half,
{
    if u >= half {
        u as i64 - (2 * half) as i64
    } else {
        u as i64
    }
}

/// `u`, read as a two's complement 64-bit number.
pub(crate) fn signed_wide(u: u64) -> (r: i64)
    ensures
        r == (if u >= 0x8000_0000_0000_0000 {
            u - 0x1_0000_0000_0000_0000
        } else {
            u as int
        }),
{
    if u >= 0x8000_0000_0000_0000 {
        -((u64::MAX - u) as i64) - 1
    } else {
        u as i64
    }
}

impl DataType {
    /// Reads one field of this format at byte `*pos`, bit `*bit_off`, and
    /// moves the cursor past it. Booleans take one bit, least significant
    /// first; every other format must start on a byte boundary.
    pub fn parse(&self, data: &[u8], pos: &mut usize, bit_off: &mut usize) -> (r: Result<
        RawValue,
        CanError,
    >)
        requires
            *old(bit_off) < 8,
        ensures
            match (r, field_spec(*self, data@, *old(pos) as int, *old(bit_off) as int)) {
                (Ok(v), Ok((sv, p, b))) => v == sv && *final(pos) == p && *final(bit_off) == b,
                (Err(e), Err(se)) => e == se && *final(pos) == *old(pos) && *final(bit_off)
                    == *old(bit_off),
                _ => false,
            },
            *final(bit_off) < 8,
    {
        match *self {
            DataType::Str => Err(CanError::Unsupported),
            DataType::ByteArray => Err(CanError::Unsupported),
            DataType::Bool => {
                if *pos >= data.len() {
                    return Err(CanError::Truncated);
                }
                let b = (data[*pos] >> (*bit_off as u8)) & 1u8 == 1u8;
                *bit_off = *bit_off + 1;
                if *bit_off >= 8 {
                    *pos = *pos + 1;
                    *bit_off = 0;
                }
                Ok(RawValue::Bool(b))
            },
            _ => {
                if *bit_off != 0 {
                    return Err(CanError::Misaligned);
                }
                let w: usize = match *self {
                    DataType::U8 | DataType::I8 => 1,
                    DataType::U16 | DataType::I16 => 2,
                    DataType::U32 | DataType::I32 | DataType::F32 => 4,
                    _ => 8,
                };
                if *pos >= data.len() || data.len() - *pos < w {
                    return Err(CanError::Truncated);
                }
                let u = read_le(data, *pos, w);
                proof {
                    lemma_pow256_values();
                    vstd::arithmetic::power2::lemma2_to64();
                    vstd::arithmetic::power2::lemma2_to64_rest();
                }
                let v = match *self {
                    DataType::U8 => RawValue::U8(u as u8),
                    DataType::U16 => RawValue::U16(u as u16),
                    DataType::U32 => RawValue::U32(u as u32),
                    DataType::U64 => RawValue::U64(u),
                    DataType::I8 => RawValue::I8(signed_narrow(u, 0x80) as i8),
                    DataType::I16 => RawValue::I16(signed_narrow(u, 0x8000) as i16),
                    DataType::I32 => RawValue::I32(signed_narrow(u, 0x8000_0000) as i32),
                    DataType::I64 => RawValue::I64(signed_wide(u)),
                    DataType::F32 => RawValue::F32(u as u32),
                    _ => RawValue::F64(u),
                };
                proof {
                    let sub = data@.subrange(*old(pos) as int, *old(pos) + w);
                    assert(w == width(*self));
                    assert(u == le_value(sub));
                    assert(v == fixed_value(*self, sub));
                }
                *pos = *pos + w;
                Ok(v)
            },
        }
    }
}

/// Reads the fields of `layout` from the start of `data`, one after the other.
pub fn decode_fields(layout: &Vec<(DataType, NodeID)>, data: &[u8]) -> (r: Result<
    Vec<(NodeID, RawValue)>,
    CanError,
>)
    ensures
        match (r, fields_spec(layout@, data@, 0, 0)) {
            (Ok(v), Ok(sv)) => v@ == sv,
            (Err(e), Err(se)) => e == se,
            _ => false,
        },
{
    let mut out: Vec<(NodeID, RawValue)> = Vec::new();
    let mut pos: usize = 0;
    let mut bit: usize = 0;
    let mut i: usize = 0;
    proof {
        assert(layout@.subrange(0, layout@.len() as int) =~= layout@);
    }
    while i < layout.len()
        invariant
            i <= layout@.len(),
            bit < 8,
            fields_spec(layout@, data@, 0, 0) == match fields_spec(
                layout@.subrange(i as int, layout@.len() as int),
                data@,
                pos as int,
                bit as int,
            ) {
                Err(e) => Err(e),
                Ok(rest) => Ok(out@ + rest),
            },
        decreases layout@.len() - i,
    {
        let ghost tail = layout@.subrange(i as int, layout@.len() as int);
        let (t, id) = layout[i];
        let v = match t.parse(data, &mut pos, &mut bit) {
            Ok(v) => v,
            Err(e) => {
                return Err(e);
            },
        };
        proof {
            assert(tail[0] == (t, id));
            assert(tail.drop_first() =~= layout@.subrange(i + 1, layout@.len() as int));
            match fields_spec(tail.drop_first(), data@, pos as int, bit as int) {
                Err(e) => {},
                Ok(rest) => {
                    assert(out@ + (seq![(id, v)] + rest) =~= out@.push((id, v)) + rest);
                },
            }
        }
        out.push((id, v));
        i = i + 1;
    }
    proof {
        assert(out@ + Seq::<(NodeID, RawValue)>::empty() =~= out@);
    }
    Ok(out)
}

/// `m` after storing each pair of `ups` in order.
pub open spec fn apply_updates(m: Map<NodeID, RawValue>, ups: Seq<(NodeID, RawValue)>) -> Map<
    NodeID,
    RawValue,
>
    decreases ups.len(),
{
    if ups.len() == 0 {
        m
    } else {
        apply_updates(m, ups.drop_last()).insert(ups.last().0, ups.last().1)
    }
}

/// The decoding side of one CAN device: the layout of each arbitration id
/// and the last value seen for each node.
pub struct CanConnection {
    tree: Tree,
    id_map: HashMap<u32, Vec<(DataType, NodeID)>>,
    last: HashMap<NodeID, RawValue>,
}

impl CanConnection {
    /// The layouts, by arbitration id.
    pub closed spec fn layouts(&self) -> Map<u32, Vec<(DataType, NodeID)>> {
        self.id_map@
    }

    /// The last value seen for each node.
    pub closed spec fn values(&self) -> Map<NodeID, RawValue> {
        self.last@
    }

    /// The device's schema tree.
    pub closed spec fn schema(&self) -> Tree {
        self.tree
    }

    /// A connection with the given tree and layouts and no values yet.
    pub fn new(tree: Tree, id_map: HashMap<u32, Vec<(DataType, NodeID)>>) -> (r: Self)
        ensures
            r.schema() == tree,
            r.layouts() == id_map@,
            r.values() == Map::<NodeID, RawValue>::empty(),
    {
        CanConnection { tree, id_map, last: HashMap::new() }
    }

    /// A connection for the device the configuration describes: its tree
    /// and layouts as `build_can_tree` makes them, and no values yet.
    pub fn from_config(name: String, ids: &Vec<CanIdConfig>) -> (r: Result<Self, SchemaError>)
        ensures
            (r is Err && r->Err_0 == SchemaError::UnknownType) == !all_types_known(ids@),
            ({
                let ps = flat_paths(ids@, ids@.len() as int);
                let fresh = Seq::<Entry>::empty();
                &&& all_types_known(ids@) && first_clash(fresh, ps, 0) is None && 1 + sum_len(
                    ps,
                    ps.len() as int,
                ) <= MAX_NODES ==> r is Ok
                &&& all_types_known(ids@) ==> match first_clash(fresh, ps, 0) {
                    Some((j, e)) => 1 + sum_len(ps, j) <= MAX_NODES ==> r is Err && r->Err_0 == e,
                    None => true,
                }
                &&& r is Err && (r->Err_0 == SchemaError::NotAGroup || r->Err_0
                    == SchemaError::DuplicatePath) ==> match first_clash(fresh, ps, 0) {
                    Some((j, e)) => r->Err_0 == e,
                    None => false,
                }
                &&& r is Err && r->Err_0 == SchemaError::TooManyNodes ==> all_types_known(ids@) && 1
                    + sum_len(ps, ps.len() as int) > MAX_NODES
            }),
            r matches Ok(c) ==> {
                &&& c.schema().wf()
                &&& c.schema().name_spec() == name@
                &&& layouts_valid(c.schema().entries(), c.layouts())
                &&& forall|k: u32| #[trigger] c.layouts().contains_key(k) <==> last_with_id(ids@, ids@.len() as int, k) >= 0
                &&& forall|k: u32| #[trigger] c.layouts().contains_key(k) ==> layout_matches(
                    c.schema().entries(),
                    c.layouts()[k]@,
                    ids@[last_with_id(ids@, ids@.len() as int, k)].values@,
                )
                &&& c.values() == Map::<NodeID, RawValue>::empty()
            },
    {
        match build_can_tree(name, ids) {
            Ok((tree, id_map)) => Ok(CanConnection::new(tree, id_map)),
            Err(e) => Err(e),
        }
    }

    /// The device's schema tree.
    pub fn tree(&self) -> (r: &Tree)
        ensures
            *r == self.schema(),
    {
        &self.tree
    }

    /// Decodes one frame and stores its values. An unknown id or a payload
    /// that does not fit its layout stores nothing.
    pub fn parse(&mut self, id: u32, data: &[u8]) -> (r: Result<(), CanError>)
        ensures
            final(self).layouts() == old(self).layouts(),
            final(self).schema() == old(self).schema(),
            !old(self).layouts().contains_key(id) ==> r == Err::<(), CanError>(
                CanError::UnknownId,
            ) && final(self).values() == old(self).values(),
            old(self).layouts().contains_key(id) ==> match fields_spec(
                old(self).layouts()[id]@,
                data@,
                0,
                0,
            ) {
                Ok(ups) => r is Ok && final(self).values() == apply_updates(
                    old(self).values(),
                    ups,
                ),
                Err(e) => r == Err::<(), CanError>(e) && final(self).values() == old(self).values(),
            },
    {
        broadcast use vstd::std_specs::hash::group_hash_axioms;

        let elems = match self.id_map.get(&id) {
            Some(e) => e,
            None => {
                return Err(CanError::UnknownId);
            },
        };
        let mut ups = decode_fields(elems, data)?;
        let ghost all = ups@;
        let n = ups.len();
        let ghost start = self.last@;
        let mut k: usize = 0;
        proof {
            assert(all.subrange(0, 0) =~= Seq::<(NodeID, RawValue)>::empty());
            assert(all.subrange(0, all.len() as int) =~= all);
        }
        while ups.len() > 0
            invariant
                k + ups@.len() == all.len(),
                n == all.len(),
                ups@ == all.subrange(k as int, all.len() as int),
                self.id_map@ == old(self).id_map@,
                self.tree == old(self).tree,
                start == old(self).last@,
                self.last@ == apply_updates(start, all.subrange(0, k as int)),
            decreases ups@.len(),
        {
            let (node, v) = ups.remove(0);
            proof {
                assert(all.subrange(0, k + 1).drop_last() =~= all.subrange(0, k as int));
                assert(all[k as int] == (node, v));
                assert(ups@ =~= all.subrange(k + 1, all.len() as int));
            }
            self.last.insert(node, v);
            k = k + 1;
        }
        Ok(())
    }

    /// Calls an action on the device; devices on the CAN bus take none.
    pub fn send_action(&self, action: NodeID, value: RawValue) -> (r: Result<Option<RawValue>, CanError>)
        ensures
            r == Err::<Option<RawValue>, CanError>(CanError::Unsupported),
    {
        Err(CanError::Unsupported)
    }

    /// The last value seen for `node`, if any.
    pub fn poll(&self, node: NodeID) -> (r: Option<&RawValue>)
        ensures
            match r {
                Some(v) => self.values().contains_key(node) && self.values()[node] == *v,
                None => !self.values().contains_key(node),
            },
    {
        broadcast use vstd::std_specs::hash::group_hash_axioms;

        self.last.get(&node)
    }
}

} // verus!
