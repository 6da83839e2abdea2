//! Base-128 variable-length unsigned integers: seven value bits per byte,
//! least significant group first, the high bit set on every byte but the last.
use vstd::prelude::*;

verus! {

/// The largest number of bytes a 32-bit varint may occupy.
pub const MAX_VARINT_LEN: usize = 5;

/// The seven value bits of one varint byte.
pub open spec fn low7(b: u8) -> int {
    b as int % 128
}

/// Whether a varint byte announces that more bytes follow.
pub open spec fn has_more(b: u8) -> bool {
    b >= 128
}

/// The number the groups in `s` stand for, least significant group first.
pub open spec fn groups_value(s: Seq<u8>) -> int
    decreases s.len(),
{
    if s.len() == 0 {
        0
    } else {
        low7(s[0]) + 128 * groups_value(s.drop_first())
    }
}

/// The bytes that encode `v`.
pub open spec fn varint_bytes(v: nat) -> Seq<u8>
    decreases v,
{
    if v < 128 {
        seq![v as u8]
    } else {
        seq![(v % 128 + 128) as u8] + varint_bytes(v / 128)
    }
}

/// The length of the varint that starts at `i`, when it ends within the
/// buffer and within `MAX_VARINT_LEN - count` bytes.
pub open spec fn varint_len_from(bytes: Seq<u8>, i: int, count: nat) -> Option<nat>
    decreases MAX_VARINT_LEN - count,
{
    if count >= MAX_VARINT_LEN || i < 0 || i >= bytes.len() {
        None
    } else if !has_more(bytes[i]) {
        Some(count + 1)
    } else {
        varint_len_from(bytes, i + 1, count + 1)
    }
}

/// What reading a varint at `start` gives: its value, kept to 32 bits, and
/// the number of bytes it occupies; `None` when the buffer ends first or the
/// varint runs past `MAX_VARINT_LEN` bytes.
pub open spec fn varint_read(bytes: Seq<u8>, start: int) -> Option<(u32, nat)> {
    match varint_len_from(bytes, start, 0) {
        None => None,
        Some(n) => Some(
            ((groups_value(bytes.subrange(start, start + n)) % 0x1_0000_0000) as u32, n),
        ),
    }
}

pub open spec fn pow128(k: nat) -> int
    decreases k,
{
    if k == 0 {
        1
    } else {
        128 * pow128((k - 1) as nat)
    }
}

proof fn lemma_groups_value_push(s: Seq<u8>, b: u8)
    ensures
        groups_value(s.push(b)) == groups_value(s) + low7(b) * pow128(s.len()),
    decreases s.len(),
{
    if s.len() == 0 {
        assert(s.push(b).drop_first() =~= Seq::<u8>::empty());
        assert(groups_value(Seq::<u8>::empty()) == 0);
        assert(groups_value(s) == 0);
        assert(pow128(0) == 1);
    } else {
        assert(s.push(b).drop_first() =~= s.drop_first().push(b));
        assert(s.push(b)[0] == s[0]);
        lemma_groups_value_push(s.drop_first(), b);
        assert(pow128(s.len()) == 128 * pow128((s.len() - 1) as nat));
        assert(128 * (groups_value(s.drop_first()) + low7(b) * pow128((s.len() - 1) as nat))
            == 128 * groups_value(s.drop_first()) + low7(b) * (128 * pow128(
            (s.len() - 1) as nat,
        ))) by (nonlinear_arith);
    }
}

proof fn lemma_len_from_bounds(bytes: Seq<u8>, i: int, count: nat)
    requires
        count <= MAX_VARINT_LEN,
    ensures
        varint_len_from(bytes, i, count) matches Some(n) ==> count < n && n <= MAX_VARINT_LEN
            && 0 <= i && i + (n - count) <= bytes.len() && !has_more(bytes[i + (n - count) - 1])
            && forall|j: int| i <= j < i + (n - count) - 1 ==> has_more(#[trigger] bytes[j]),
    decreases MAX_VARINT_LEN - count,
{
    if count >= MAX_VARINT_LEN || i < 0 || i >= bytes.len() {
    } else if !has_more(bytes[i]) {
    } else {
        lemma_len_from_bounds(bytes, i + 1, count + 1);
    }
}

/// A varint read at `start` takes between one and `MAX_VARINT_LEN` bytes,
/// all inside the buffer.
pub proof fn lemma_read_bounds(bytes: Seq<u8>, start: int)
    ensures
        varint_read(bytes, start) is Some ==> 1 <= varint_read(bytes, start).unwrap().1
            <= MAX_VARINT_LEN && 0 <= start && start + varint_read(bytes, start).unwrap().1
            <= bytes.len(),
{
    lemma_len_from_bounds(bytes, start, 0);
}

/// Reads the varint that starts at `start_idx`: its value and the number of
/// bytes it occupies.
pub fn read_from(bytes: &[u8], start_idx: usize) -> (r: Option<(u32, usize)>)
    ensures
        match (r, varint_read(bytes@, start_idx as int)) {
            (None, None) => true,
            (Some((v, n)), Some((sv, sn))) => v == sv && n == sn,
            _ => false,
        },
{
    let mut value: u64 = 0;
    let mut mult: u64 = 1;
    let mut len: usize = 0;
    if start_idx >= bytes.len() {
        return None;
    }
    proof {
        assert(bytes@.subrange(start_idx as int, start_idx as int) =~= Seq::<u8>::empty());
    }
    loop
        invariant
            len < MAX_VARINT_LEN,
            mult == pow128(len as nat),
            value < mult,
            start_idx as int + len <= bytes@.len(),
            value == groups_value(bytes@.subrange(start_idx as int, start_idx as int + len)),
            varint_len_from(bytes@, start_idx as int, 0) == varint_len_from(
                bytes@,
                start_idx + len,
                len as nat,
            ),
        decreases MAX_VARINT_LEN - len,
    {
        if start_idx >= bytes.len() || bytes.len() - start_idx <= len {
            return None;
        }
        let b = bytes[start_idx + len];
        proof {
            let s = bytes@.subrange(start_idx as int, start_idx as int + len);
            assert(bytes@.subrange(start_idx as int, start_idx as int + len + 1) =~= s.push(b));
            lemma_groups_value_push(s, b);
            assert(mult <= 0x8_0000_0000) by {
                assert(pow128(0) == 1);
                assert(pow128(1) == 128);
                assert(pow128(2) == 128 * 128);
                assert(pow128(3) == 128 * 128 * 128);
                assert(pow128(4) == 128 * 128 * 128 * 128);
            }
            assert((b % 128) as int * mult <= 127 * mult) by (nonlinear_arith)
                requires
                    (b % 128) <= 127,
            ;
        }
        value = value + (b % 128) as u64 * mult;
        len = len + 1;
        if b < 128 {
            assert(varint_len_from(bytes@, start_idx as int, 0) == Some(len as nat));
            proof {
                lemma_len_from_bounds(bytes@, start_idx as int, 0);
            }
            return Some(((value % 0x1_0000_0000) as u32, len));
        }
        if len >= MAX_VARINT_LEN {
            return None;
        }
        mult = mult * 128;
    }
}

/// The varint encoding of `value`.
pub fn to_bytes(value: u32) -> (out: Vec<u8>)
    ensures
        out@ == varint_bytes(value as nat),
{
    let mut out: Vec<u8> = Vec::new();
    let mut rest: u32 = value;
    loop
        invariant
            out@ + varint_bytes(rest as nat) == varint_bytes(value as nat),
        decreases rest,
    {
        if rest < 128 {
            out.push(rest as u8);
            proof {
                assert(varint_bytes(rest as nat) == seq![rest as u8]);
            }
            return out;
        }
        let b = (rest % 128 + 128) as u8;
        proof {
            assert(varint_bytes(rest as nat) == seq![b] + varint_bytes((rest / 128) as nat));
            assert(out@.push(b) + varint_bytes((rest / 128) as nat) =~= out@ + (seq![b]
                + varint_bytes((rest / 128) as nat)));
        }
        out.push(b);
        rest = rest / 128;
    }
}

proof fn lemma_bytes_shape(v: nat)
    ensures
        1 <= varint_bytes(v).len(),
        v < pow128(varint_bytes(v).len()),
        varint_bytes(v).len() == 1 || v >= pow128((varint_bytes(v).len() - 1) as nat),
        groups_value(varint_bytes(v)) == v,
        !has_more(varint_bytes(v).last()),
        forall|j: int| 0 <= j < varint_bytes(v).len() - 1 ==> has_more(#[trigger] varint_bytes(v)[j]),
    decreases v,
{
    if v < 128 {
        assert(varint_bytes(v).drop_first() =~= Seq::<u8>::empty());
        assert(groups_value(Seq::<u8>::empty()) == 0);
        assert(pow128(1) == 128 * pow128(0));
    } else {
        lemma_bytes_shape(v / 128);
        let t = varint_bytes(v / 128);
        let s = varint_bytes(v);
        assert(s == seq![(v % 128 + 128) as u8] + t);
        assert(s.drop_first() =~= t);
        assert(s.len() == t.len() + 1);
        assert(low7(s[0]) == v % 128);
        assert(groups_value(s) == v % 128 + 128 * (v / 128));
        assert(pow128(s.len()) == 128 * pow128(t.len()));
        assert(pow128((s.len() - 1) as nat) == pow128(t.len()));
        assert forall|j: int| 0 <= j < s.len() - 1 implies has_more(#[trigger] s[j]) by {
            if j > 0 {
                assert(s[j] == t[j - 1]);
            }
        }
        assert(s.last() == t.last());
        if t.len() == 1 {
            assert(pow128(0) == 1);
            assert(pow128(1) == 128);
        } else {
            assert(pow128((t.len() - 1) as nat) * 128 == pow128((s.len() - 1) as nat));
        }
    }
}

proof fn lemma_len_from_window(bytes: Seq<u8>, i: int, e: int, count: nat)
    requires
        0 <= i < e <= bytes.len(),
        count < MAX_VARINT_LEN,
        i + (MAX_VARINT_LEN - count) >= e,
        !has_more(bytes[e - 1]),
        forall|j: int| i <= j < e - 1 ==> has_more(#[trigger] bytes[j]),
    ensures
        varint_len_from(bytes, i, count) == Some((count + e - i) as nat),
    decreases e - i,
{
    if i < e - 1 {
        assert(has_more(bytes[i]));
        lemma_len_from_window(bytes, i + 1, e, count + 1);
    }
}

/// Where the bytes at `start` are the encoding of `v`, reading there gives
/// `v` and the length of its encoding.
pub proof fn lemma_read_encoded(bytes: Seq<u8>, start: int, v: u32)
    requires
        0 <= start,
        start + varint_bytes(v as nat).len() <= bytes.len(),
        bytes.subrange(start, start + varint_bytes(v as nat).len()) == varint_bytes(v as nat),
    ensures
        varint_read(bytes, start) == Some((v, varint_bytes(v as nat).len())),
{
    let s = varint_bytes(v as nat);
    let e = start + s.len();
    lemma_bytes_shape(v as nat);
    assert(s.len() <= MAX_VARINT_LEN) by {
        if s.len() > MAX_VARINT_LEN {
            lemma_pow128_mono((s.len() - 1) as nat, 5);
            assert(pow128(5) == 128 * 128 * 128 * 128 * 128) by {
                reveal_with_fuel(pow128, 6);
            }
        }
    }
    assert(bytes[e - 1] == s[s.len() - 1]);
    assert forall|j: int| start <= j < e - 1 implies has_more(#[trigger] bytes[j]) by {
        assert(bytes[j] == s[j - start]);
    }
    lemma_len_from_window(bytes, start, e, 0);
}

/// Reading back what `to_bytes` wrote gives the value and the whole length.
pub proof fn lemma_varint_round_trip(v: u32)
    ensures
        varint_read(varint_bytes(v as nat), 0) == Some((v, varint_bytes(v as nat).len())),
{
    let s = varint_bytes(v as nat);
    assert(s.subrange(0, s.len() as int) =~= s);
    lemma_read_encoded(s, 0, v);
}

pub proof fn lemma_pow128_mono(a: nat, b: nat)
    requires
        b <= a,
    ensures
        pow128(b) <= pow128(a),
        pow128(b) >= 1,
    decreases a,
{
    if a > b {
        lemma_pow128_mono((a - 1) as nat, b);
    } else if a > 0 {
        lemma_pow128_mono((a - 1) as nat, (a - 1) as nat);
    }
}

} // verus!
