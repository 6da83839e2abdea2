//! The serial-link frame format: three sync bytes, a length byte, the body,
//! and a little-endian Fletcher-32 trailer over the body.
use vstd::prelude::*;

use crate::fletcher32::{fletcher32, fletcher32_spec};
use crate::varint::{lemma_read_bounds, read_from, to_bytes, varint_bytes, varint_read};

verus! {

/// One sub-message of a frame: an id and its payload.
#[derive(Debug, Clone)]
pub struct PerDosMessage {
    pub id: u32,
    pub payload: Vec<u8>,
}

/// A sub-message as the contracts see it.
pub type MessageModel = (u32, Seq<u8>);

pub const HEADER_SIZE: usize = 4;

pub const FOOTER_SIZE: usize = 4;

pub const MAX_PERDOS_LENGTH: usize = 262;

/// The id that marks a filler byte which keeps the body length even.
pub const PADDING_BYTE: u8 = 0x10;

pub const SYNC_BYTE: u8 = 0xFF;

pub const MAX_PAYLOAD_LEN: usize = 255;

/// Why a frame could not be written or read.
#[derive(Debug, Clone, Copy, PartialEq, Eq)]
pub enum CodecError {
    /// A message payload is longer than one length byte can tell.
    ItemTooLarge { len: usize },
    /// The whole frame would pass `MAX_PERDOS_LENGTH` bytes.
    FrameTooLarge,
    /// A sub-message claims more bytes than its frame holds.
    DataTooLong,
}

/// The frame codec of the serial link. It counts the frames it dropped for
/// a checksum that did not match, which decoding alone reports just as it
/// reports a frame not complete yet.
pub struct PerDos {
    checksum_failures: u64,
}

pub open spec fn message_model(m: PerDosMessage) -> MessageModel {
    (m.id, m.payload@)
}

pub open spec fn messages_model(ms: Seq<PerDosMessage>) -> Seq<MessageModel> {
    ms.map_values(|m: PerDosMessage| message_model(m))
}

/// The bytes that encode one sub-message.
pub open spec fn entry_bytes(m: MessageModel) -> Seq<u8> {
    varint_bytes(m.0 as nat) + seq![m.1.len() as u8] + m.1
}

/// The sub-messages, one after the other.
pub open spec fn entries_bytes(ms: Seq<MessageModel>) -> Seq<u8>
    decreases ms.len(),
{
    if ms.len() == 0 {
        Seq::empty()
    } else {
        entries_bytes(ms.drop_last()) + entry_bytes(ms.last())
    }
}

/// The body: the sub-messages, padded to an even length.
pub open spec fn body_bytes(ms: Seq<MessageModel>) -> Seq<u8> {
    let e = entries_bytes(ms);
    if e.len() % 2 == 1 {
        e.push(PADDING_BYTE)
    } else {
        e
    }
}

/// The four little-endian bytes of `x`.
pub open spec fn le32_bytes(x: int) -> Seq<u8> {
    seq![
        (x % 0x100) as u8,
        (x / 0x100 % 0x100) as u8,
        (x / 0x10000 % 0x100) as u8,
        (x / 0x1000000 % 0x100) as u8,
    ]
}

/// The little-endian 32-bit number at byte `i`.
pub open spec fn le32_at(s: Seq<u8>, i: int) -> int {
    s[i] as int + 0x100 * s[i + 1] as int + 0x10000 * s[i + 2] as int + 0x1000000 * s[i
        + 3] as int
}

/// The whole frame that carries `ms`.
pub open spec fn frame_bytes(ms: Seq<MessageModel>) -> Seq<u8> {
    let body = body_bytes(ms);
    seq![SYNC_BYTE, SYNC_BYTE, SYNC_BYTE, body.len() as u8] + body + le32_bytes(
        fletcher32_spec(body, 0, (body.len() / 2) as nat),
    )
}

/// Whether every payload fits its length byte.
pub open spec fn payloads_fit(ms: Seq<MessageModel>) -> bool {
    forall|i: int| 0 <= i < ms.len() ==> #[trigger] ms[i].1.len() <= MAX_PAYLOAD_LEN
}

/// Whether `ms` can be sent as one frame.
pub open spec fn encodable(ms: Seq<MessageModel>) -> bool {
    payloads_fit(ms) && HEADER_SIZE + body_bytes(ms).len() + FOOTER_SIZE <= MAX_PERDOS_LENGTH
}

/// Whether a buffer starts with the three sync bytes.
pub open spec fn starts_sync(s: Seq<u8>) -> bool {
    s.len() >= 3 && s[0] == SYNC_BYTE && s[1] == SYNC_BYTE && s[2] == SYNC_BYTE
}

/// The buffer once the bytes before a sync have been dropped, one at a time,
/// for as long as a whole header could still follow.
pub open spec fn sync_skip(s: Seq<u8>) -> Seq<u8>
    decreases s.len(),
{
    if s.len() < HEADER_SIZE || starts_sync(s) {
        s
    } else {
        sync_skip(s.drop_first())
    }
}

/// `Ok(Some(..))` with `prefix` put before the messages of `r`; other
/// outcomes pass unchanged.
pub open spec fn prepend_messages(
    prefix: Seq<MessageModel>,
    r: Result<Option<Seq<MessageModel>>, CodecError>,
) -> Result<Option<Seq<MessageModel>>, CodecError> {
    match r {
        Ok(Some(rest)) => Ok(Some(prefix + rest)),
        other => other,
    }
}

/// One step of reading a body at byte `idx`: `Ok(None)` where a varint runs
/// off the frame, `Err(DataTooLong)` where a payload would pass `end`, else
/// the sub-message read (none for a filler byte) and the byte after it.
pub open spec fn parse_step(f: Seq<u8>, idx: int, end: int) -> Result<
    Option<(Option<MessageModel>, int)>,
    CodecError,
> {
    match varint_read(f, idx) {
        None => Ok(None),
        Some((code, n)) => {
            let i1 = idx + n;
            if code == PADDING_BYTE {
                Ok(Some((None, i1)))
            } else {
                match varint_read(f, i1) {
                    None => Ok(None),
                    Some((dl, n2)) => {
                        let i2 = i1 + n2;
                        if i2 + dl > end {
                            Err(CodecError::DataTooLong)
                        } else {
                            Ok(Some((Some((code, f.subrange(i2, i2 + dl))), i2 + dl)))
                        }
                    },
                }
            }
        },
    }
}

/// The sub-message `m` as a sequence of none or one.
pub open spec fn opt_seq(m: Option<MessageModel>) -> Seq<MessageModel> {
    match m {
        None => Seq::empty(),
        Some(x) => seq![x],
    }
}

/// Each step of reading a body moves forward.
pub proof fn lemma_step_advances(f: Seq<u8>, idx: int, end: int)
    ensures
        parse_step(f, idx, end) is Ok && parse_step(f, idx, end).unwrap() is Some && end
            <= f.len() ==> parse_step(f, idx, end).unwrap().unwrap().1 <= f.len(),
        parse_step(f, idx, end) is Ok && parse_step(f, idx, end).unwrap() is Some ==> idx
            < parse_step(f, idx, end).unwrap().unwrap().1,
{
    lemma_read_bounds(f, idx);
    if let Some((code, n)) = varint_read(f, idx) {
        lemma_read_bounds(f, idx + n);
    }
}

/// The sub-messages of `f` from byte `idx` up to byte `end`.
pub open spec fn parse_body(f: Seq<u8>, idx: int, end: int) -> Result<
    Option<Seq<MessageModel>>,
    CodecError,
>
    decreases end - idx,
{
    if idx >= end {
        Ok(Some(Seq::empty()))
    } else {
        match parse_step(f, idx, end) {
            Err(e) => Err(e),
            Ok(None) => Ok(None),
            Ok(Some((m, next))) => {
                proof {
                    lemma_step_advances(f, idx, end);
                }
                if next >= end {
                    Ok(Some(opt_seq(m)))
                } else {
                    prepend_messages(opt_seq(m), parse_body(f, next, end))
                }
            },
        }
    }
}

/// Whether decoding `buf` finds a whole frame and drops it for its checksum.
pub open spec fn checksum_rejected(buf: Seq<u8>) -> bool {
    let s = sync_skip(buf);
    let len = s[3] as int;
    let total = HEADER_SIZE + len + FOOTER_SIZE;
    &&& s.len() >= HEADER_SIZE
    &&& s.len() >= total
    &&& fletcher32_spec(s.subrange(0, total), HEADER_SIZE as int, (len / 2) as nat) != le32_at(
        s.subrange(0, total),
        HEADER_SIZE + len,
    )
}

/// What decoding gives for the buffer `buf`, and the bytes left in it.
pub open spec fn decode_spec(buf: Seq<u8>) -> (
    Result<Option<Seq<MessageModel>>, CodecError>,
    Seq<u8>,
) {
    let s = sync_skip(buf);
    if s.len() < HEADER_SIZE {
        (Ok(None), s)
    } else {
        let len = s[3] as int;
        let total = HEADER_SIZE + len + FOOTER_SIZE;
        if s.len() < total {
            (Ok(None), s)
        } else {
            let f = s.subrange(0, total);
            let rest = s.subrange(total, s.len() as int);
            if fletcher32_spec(f, HEADER_SIZE as int, (len / 2) as nat) != le32_at(
                f,
                HEADER_SIZE + len,
            ) {
                (Ok(None), rest)
            } else {
                (parse_body(f, HEADER_SIZE as int, HEADER_SIZE + len), rest)
            }
        }
    }
}

/// A copy of `src[from..to]`.
fn copy_range(src: &[u8], from: usize, to: usize) -> (out: Vec<u8>)
    requires
        from <= to <= src@.len(),
    ensures
        out@ == src@.subrange(from as int, to as int),
{
    let mut out: Vec<u8> = Vec::new();
    let mut i: usize = from;
    while i < to
        invariant
            from <= i <= to <= src@.len(),
            out@ == src@.subrange(from as int, i as int),
        decreases to - i,
    {
        out.push(src[i]);
        i = i + 1;
        proof {
            assert(out@ =~= src@.subrange(from as int, i as int));
        }
    }
    out
}

/// Appends `src` to `dst`.
fn append_bytes(dst: &mut Vec<u8>, src: &[u8])
    ensures
        final(dst)@ == old(dst)@ + src@,
{
    let mut i: usize = 0;
    while i < src.len()
        invariant
            i <= src@.len(),
            dst@ == old(dst)@ + src@.subrange(0, i as int),
        decreases src@.len() - i,
    {
        dst.push(src[i]);
        i = i + 1;
        proof {
            assert(dst@ =~= old(dst)@ + src@.subrange(0, i as int));
        }
    }
    proof {
        assert(src@.subrange(0, src@.len() as int) =~= src@);
    }
}

/// The little-endian 32-bit number at byte `i`.
fn read_u32_le(s: &[u8], i: usize) -> (r: u32)
    requires
        i + 4 <= s@.len(),
    ensures
        r == le32_at(s@, i as int),
{
    s[i] as u32 + 0x100 * s[i + 1] as u32 + 0x10000 * s[i + 2] as u32 + 0x1000000 * s[i
        + 3] as u32
}

/// Reads one entry of the body in `f` at byte `idx`.
fn parse_entry(f: &[u8], idx: usize, end: usize) -> (r: Result<
    Option<(Option<PerDosMessage>, usize)>,
    CodecError,
>)
    requires
        end <= f@.len(),
    ensures
        match (r, parse_step(f@, idx as int, end as int)) {
            (Ok(None), Ok(None)) => true,
            (Ok(Some((m, next))), Ok(Some((sm, snext)))) => next == snext && match (m, sm) {
                (None, None) => true,
                (Some(x), Some(sx)) => message_model(x) == sx,
                _ => false,
            },
            (Err(e), Err(se)) => e == se,
            _ => false,
        },
{
    let flen = f.len();
    proof {
        lemma_read_bounds(f@, idx as int);
    }
    let (code, skip1) = match read_from(f, idx) {
        Some(o) => o,
        None => return Ok(None),
    };
    assert(varint_read(f@, idx as int) == Some((code, skip1 as nat)));
    let i1 = idx + skip1;
    if code == PADDING_BYTE as u32 {
        return Ok(Some((None, i1)));
    }
    proof {
        lemma_read_bounds(f@, i1 as int);
    }
    let (data_len, skip2) = match read_from(f, i1) {
        Some(o) => o,
        None => return Ok(None),
    };
    assert(varint_read(f@, i1 as int) == Some((data_len, skip2 as nat)));
    let i2 = i1 + skip2;
    if i2 > end || data_len as usize > end - i2 {
        return Err(CodecError::DataTooLong);
    }
    let payload = copy_range(f, i2, i2 + data_len as usize);
    Ok(Some((Some(PerDosMessage { id: code, payload }), i2 + data_len as usize)))
}

proof fn lemma_prepend_assoc(
    a: Seq<MessageModel>,
    b: Seq<MessageModel>,
    r: Result<Option<Seq<MessageModel>>, CodecError>,
)
    ensures
        prepend_messages(a, prepend_messages(b, r)) == prepend_messages(a + b, r),
{
    if let Ok(Some(x)) = r {
        assert(a + (b + x) =~= (a + b) + x);
    }
}

proof fn lemma_body_step(f: Seq<u8>, idx: int, end: int)
    requires
        idx < end,
        parse_step(f, idx, end) is Ok,
        parse_step(f, idx, end).unwrap() is Some,
    ensures
        ({
            let (m, next) = parse_step(f, idx, end).unwrap().unwrap();
            parse_body(f, idx, end) == prepend_messages(opt_seq(m), parse_body(f, next, end))
        }),
{
    let (m, next) = parse_step(f, idx, end).unwrap().unwrap();
    if next >= end {
        assert(opt_seq(m) + Seq::<MessageModel>::empty() =~= opt_seq(m));
    }
}

/// Reads the sub-messages of the frame `f`, whose body ends at byte `end`.
fn parse_entries(f: &[u8], end: usize) -> (r: Result<Option<Vec<PerDosMessage>>, CodecError>)
    requires
        end <= f@.len(),
    ensures
        match (r, parse_body(f@, HEADER_SIZE as int, end as int)) {
            (Ok(None), Ok(None)) => true,
            (Ok(Some(ms)), Ok(Some(sms))) => messages_model(ms@) == sms,
            (Err(e), Err(se)) => e == se,
            _ => false,
        },
{
    let mut idx: usize = HEADER_SIZE;
    let mut output: Vec<PerDosMessage> = Vec::new();
    if end <= idx {
        return Ok(Some(output));
    }
    proof {
        assert(messages_model(output@) =~= Seq::<MessageModel>::empty());
        if let Ok(Some(r)) = parse_body(f@, HEADER_SIZE as int, end as int) {
            assert(Seq::<MessageModel>::empty() + r =~= r);
        }
    }
    while idx < end
        invariant
            end <= f@.len(),
            idx <= f@.len(),
            prepend_messages(messages_model(output@), parse_body(f@, idx as int, end as int))
                == parse_body(f@, HEADER_SIZE as int, end as int),
        decreases f@.len() - idx,
    {
        proof {
            lemma_step_advances(f@, idx as int, end as int);
        }
        let step = parse_entry(f, idx, end);
        match step {
            Err(e) => {
                return Err(e);
            },
            Ok(None) => {
                return Ok(None);
            },
            Ok(Some((m, next))) => {
                let ghost before = output@;
                let ghost mm = match &m {
                    None => None::<MessageModel>,
                    Some(x) => Some(message_model(*x)),
                };
                match m {
                    Some(msg) => {
                        output.push(msg);
                    },
                    None => {},
                }
                proof {
                    assert(messages_model(output@) =~= messages_model(before) + opt_seq(mm));
                    lemma_body_step(f@, idx as int, end as int);
                    lemma_prepend_assoc(
                        messages_model(before),
                        opt_seq(mm),
                        parse_body(f@, next as int, end as int),
                    );
                }
                idx = next;
            },
        }
    }
    proof {
        assert(messages_model(output@) + Seq::<MessageModel>::empty() =~= messages_model(output@));
    }
    Ok(Some(output))
}

/// The four little-endian bytes of `x`.
fn le32_of(x: u32) -> (r: Vec<u8>)
    ensures
        r@ == le32_bytes(x as int),
{
    let mut r: Vec<u8> = Vec::new();
    r.push((x % 0x100) as u8);
    r.push((x / 0x100 % 0x100) as u8);
    r.push((x / 0x10000 % 0x100) as u8);
    r.push((x / 0x1000000 % 0x100) as u8);
    proof {
        assert(r@ =~= le32_bytes(x as int));
    }
    r
}

impl PerDos {
    /// The number of frames dropped so far for a checksum mismatch.
    pub closed spec fn failures(&self) -> u64 {
        self.checksum_failures
    }

    /// A codec that has dropped no frame yet.
    pub fn new() -> (r: Self)
        ensures
            r.failures() == 0,
    {
        PerDos { checksum_failures: 0 }
    }

    /// The number of frames dropped so far for a checksum mismatch; it
    /// stops at `u64::MAX`.
    pub fn checksum_failures(&self) -> (r: u64)
        ensures
            r == self.failures(),
    {
        self.checksum_failures
    }

    /// Takes one frame off the front of `buf`. Bytes before a sync are
    /// dropped; `Ok(None)` means that no whole frame was there yet or that
    /// its checksum did not match.
    pub fn decode(&mut self, buf: &mut Vec<u8>) -> (r: Result<
        Option<Vec<PerDosMessage>>,
        CodecError,
    >)
        ensures
            ({
                let (res, rest) = decode_spec(old(buf)@);
                &&& final(buf)@ == rest
                &&& match (r, res) {
                    (Ok(None), Ok(None)) => true,
                    (Ok(Some(ms)), Ok(Some(sms))) => messages_model(ms@) == sms,
                    (Err(e), Err(se)) => e == se,
                    _ => false,
                }
            }),
            final(self).failures() == (if checksum_rejected(old(buf)@) && old(self).failures()
                < u64::MAX {
                old(self).failures() + 1
            } else {
                old(self).failures() as int
            }),
    {
        let mut ok = false;
        let mut skip: usize = 0;
        proof {
            assert(buf@.subrange(0, buf@.len() as int) =~= buf@);
        }
        while buf.len() - skip >= HEADER_SIZE
            invariant_except_break
                !ok,
            invariant
                skip <= buf@.len(),
                buf@ == old(buf)@,
                sync_skip(buf@.subrange(skip as int, buf@.len() as int)) == sync_skip(buf@),
            ensures
                skip <= buf@.len(),
                buf@ == old(buf)@,
                sync_skip(buf@.subrange(skip as int, buf@.len() as int)) == sync_skip(buf@),
                ok ==> starts_sync(buf@.subrange(skip as int, buf@.len() as int))
                    && buf@.len() - skip >= HEADER_SIZE,
                !ok ==> buf@.len() - skip < HEADER_SIZE,
            decreases buf@.len() - skip,
        {
            if buf[skip] == SYNC_BYTE && buf[skip + 1] == SYNC_BYTE && buf[skip + 2] == SYNC_BYTE {
                ok = true;
                break;
            }
            proof {
                let s = buf@.subrange(skip as int, buf@.len() as int);
                assert(s.drop_first() =~= buf@.subrange(skip + 1, buf@.len() as int));
            }
            skip = skip + 1;
        }
        let mut tail = buf.split_off(skip);
        std::mem::swap(buf, &mut tail);
        let ghost s = buf@;
        proof {
            assert(s == old(buf)@.subrange(skip as int, old(buf)@.len() as int));
            if !ok {
                assert(s.len() < HEADER_SIZE);
            }
            assert(sync_skip(s) == s);
            assert(s == sync_skip(old(buf)@));
        }
        if !ok {
            return Ok(None);
        }
        let len = buf[3] as usize;
        if buf.len() < HEADER_SIZE + len + FOOTER_SIZE {
            return Ok(None);
        }
        let total = HEADER_SIZE + len + FOOTER_SIZE;
        let mut frame = buf.split_off(total);
        std::mem::swap(buf, &mut frame);
        let end = HEADER_SIZE + len;
        assert(frame@ == s.subrange(0, total as int));
        assert(buf@ == s.subrange(total as int, s.len() as int));
        let actual_checksum = fletcher32(frame.as_slice(), HEADER_SIZE, (len / 2) as u32);
        let expected_checksum = read_u32_le(frame.as_slice(), end);
        if expected_checksum != actual_checksum {
            if self.checksum_failures < u64::MAX {
                self.checksum_failures = self.checksum_failures + 1;
            }
            return Ok(None);
        }
        parse_entries(frame.as_slice(), end)
    }

    /// Appends to `dst` the frame that carries `items`, or fails, leaving
    /// `dst` as it was, when a payload passes `MAX_PAYLOAD_LEN` bytes or the
    /// frame passes `MAX_PERDOS_LENGTH` bytes.
    pub fn encode(&mut self, items: Vec<PerDosMessage>, dst: &mut Vec<u8>) -> (r: Result<
        (),
        CodecError,
    >)
        ensures
            ({
                let ms = messages_model(items@);
                &&& r is Ok <==> encodable(ms)
                &&& r is Ok ==> final(dst)@ == old(dst)@ + frame_bytes(ms)
                &&& r is Err ==> final(dst)@ == old(dst)@
                &&& r matches Err(CodecError::ItemTooLarge { len }) ==> exists|i: int|
                    0 <= i < ms.len() && #[trigger] ms[i].1.len() == len && len
                    > MAX_PAYLOAD_LEN && payloads_fit(ms.subrange(0, i))
                &&& r matches Err(e) ==> (e == CodecError::FrameTooLarge <==> payloads_fit(ms))
            }),
    {
        let ghost ms = messages_model(items@);
        let mut body: Vec<u8> = Vec::new();
        let mut too_long = false;
        let mut i: usize = 0;
        while i < items.len()
            invariant
                ms == messages_model(items@),
                i <= items@.len(),
                payloads_fit(ms.subrange(0, i as int)),
                !too_long ==> body@ == entries_bytes(ms.subrange(0, i as int)) && body@.len()
                    <= MAX_PERDOS_LENGTH,
                too_long ==> entries_bytes(ms.subrange(0, i as int)).len() > MAX_PERDOS_LENGTH,
            decreases items@.len() - i,
        {
            let item = &items[i];
            let plen = item.payload.len();
            if plen > MAX_PAYLOAD_LEN {
                proof {
                    assert(ms[i as int].1.len() == plen);
                    assert(!payloads_fit(ms));
                }
                return Err(CodecError::ItemTooLarge { len: plen });
            }
            let ghost prefix = ms.subrange(0, i as int);
            proof {
                assert(ms.subrange(0, i + 1).drop_last() =~= prefix);
                assert(ms.subrange(0, i + 1).last() == ms[i as int]);
                assert forall|j: int| 0 <= j < i + 1 implies #[trigger] ms.subrange(
                    0,
                    i + 1,
                )[j].1.len() <= MAX_PAYLOAD_LEN by {
                    if j < i {
                        assert(ms.subrange(0, i + 1)[j] == prefix[j]);
                    }
                }
            }
            if !too_long {
                let id_bytes = to_bytes(item.id);
                append_bytes(&mut body, id_bytes.as_slice());
                body.push(plen as u8);
                append_bytes(&mut body, item.payload.as_slice());
                proof {
                    assert(body@ =~= entries_bytes(prefix) + entry_bytes(ms[i as int]));
                }
                if body.len() > MAX_PERDOS_LENGTH {
                    too_long = true;
                }
            }
            i = i + 1;
        }
        proof {
            assert(ms.subrange(0, items@.len() as int) =~= ms);
        }
        if too_long {
            return Err(CodecError::FrameTooLarge);
        }
        if body.len() % 2 != 0 {
            body.push(PADDING_BYTE);
        }
        let total_len = body.len() + HEADER_SIZE + FOOTER_SIZE;
        if total_len > MAX_PERDOS_LENGTH {
            return Err(CodecError::FrameTooLarge);
        }
        dst.push(SYNC_BYTE);
        dst.push(SYNC_BYTE);
        dst.push(SYNC_BYTE);
        dst.push(body.len() as u8);
        append_bytes(dst, body.as_slice());
        let checksum = fletcher32(body.as_slice(), 0, (body.len() / 2) as u32);
        append_bytes(dst, le32_of(checksum).as_slice());
        proof {
            assert(body@ == body_bytes(ms));
            assert(dst@ =~= old(dst)@ + frame_bytes(ms));
        }
        Ok(())
    }
}


/// Whether the decoder reads `ms` back as written: no id is the filler id,
/// and every length byte reads as a one-byte varint.
pub open spec fn reads_back(ms: Seq<MessageModel>) -> bool {
    forall|i: int|
        0 <= i < ms.len() ==> #[trigger] ms[i].0 != PADDING_BYTE && ms[i].1.len() < 128
}

proof fn lemma_entries_cons(m: MessageModel, rest: Seq<MessageModel>)
    ensures
        entries_bytes(seq![m] + rest) == entry_bytes(m) + entries_bytes(rest),
    decreases rest.len(),
{
    if rest.len() == 0 {
        assert(seq![m] + rest =~= seq![m]);
        assert(seq![m].drop_last() =~= Seq::<MessageModel>::empty());
        assert(entries_bytes(rest) == Seq::<u8>::empty());
        assert(entries_bytes(seq![m]) == entries_bytes(Seq::<MessageModel>::empty())
            + entry_bytes(m));
        assert(entry_bytes(m) + Seq::<u8>::empty() =~= entry_bytes(m));
        assert(Seq::<u8>::empty() + entry_bytes(m) =~= entry_bytes(m));
    } else {
        assert((seq![m] + rest).drop_last() =~= seq![m] + rest.drop_last());
        assert((seq![m] + rest).last() == rest.last());
        lemma_entries_cons(m, rest.drop_last());
        assert(entry_bytes(m) + entries_bytes(rest.drop_last()) + entry_bytes(rest.last())
            =~= entry_bytes(m) + (entries_bytes(rest.drop_last()) + entry_bytes(rest.last())));
    }
}

proof fn lemma_entries_nonempty(ms: Seq<MessageModel>)
    requires
        ms.len() > 0,
    ensures
        entries_bytes(ms).len() >= 2,
{
    crate::varint::lemma_read_bounds(varint_bytes(ms.last().0 as nat), 0);
    assert(varint_bytes(ms.last().0 as nat).len() >= 1) by {
        crate::varint::lemma_varint_round_trip(ms.last().0);
    }
}

proof fn lemma_parse_entries(f: Seq<u8>, p: int, end: int, ms: Seq<MessageModel>)
    requires
        reads_back(ms),
        0 <= p,
        p + entries_bytes(ms).len() <= end <= f.len(),
        f.subrange(p, p + entries_bytes(ms).len()) == entries_bytes(ms),
        end == p + entries_bytes(ms).len() || (end == p + entries_bytes(ms).len() + 1
            && f[p + entries_bytes(ms).len()] == PADDING_BYTE),
    ensures
        parse_body(f, p, end) == Ok::<Option<Seq<MessageModel>>, CodecError>(Some(ms)),
    decreases ms.len(),
{
    let e = entries_bytes(ms);
    if ms.len() == 0 {
        assert(ms =~= Seq::<MessageModel>::empty());
        if end == p + 1 {
            assert(varint_bytes(PADDING_BYTE as nat) == seq![PADDING_BYTE]);
            assert(f.subrange(p, p + 1) =~= seq![PADDING_BYTE]);
            crate::varint::lemma_read_encoded(f, p, PADDING_BYTE as u32);
        }
    } else {
        let m = ms[0];
        let rest = ms.drop_first();
        assert(ms =~= seq![m] + rest);
        lemma_entries_cons(m, rest);
        let er = entries_bytes(rest);
        let vb = varint_bytes(m.0 as nat);
        let k = vb.len() as int;
        let len = m.1.len();
        assert(reads_back(rest)) by {
            assert forall|i: int| 0 <= i < rest.len() implies #[trigger] rest[i].0 != PADDING_BYTE
                && rest[i].1.len() < 128 by {
                assert(rest[i] == ms[i + 1]);
            }
        }
        assert(m.0 != PADDING_BYTE && len < 128) by {
            assert(ms[0] == m);
        }
        assert(f.subrange(p, p + k) =~= e.subrange(0, k));
        assert(e.subrange(0, k) =~= vb);
        crate::varint::lemma_read_encoded(f, p, m.0);
        assert(varint_bytes(len as nat) == seq![len as u8]);
        assert(f.subrange(p + k, p + k + 1) =~= seq![len as u8]) by {
            assert(f[p + k] == e[k]);
        }
        crate::varint::lemma_read_encoded(f, p + k, len as u32);
        let i2 = p + k + 1;
        assert(f.subrange(i2, i2 + len) =~= m.1) by {
            assert forall|j: int| 0 <= j < len implies f.subrange(i2, i2 + len)[j] == m.1[j] by {
                assert(f[i2 + j] == e[k + 1 + j]);
            }
        }
        let next = i2 + len;
        assert(parse_step(f, p, end) == Ok::<Option<(Option<MessageModel>, int)>, CodecError>(
            Some((Some(m), next)),
        ));
        if next >= end {
            if rest.len() > 0 {
                lemma_entries_nonempty(rest);
            }
            assert(rest =~= Seq::<MessageModel>::empty());
            assert(opt_seq(Some(m)) =~= ms);
        } else {
            assert(f.subrange(next, next + er.len()) =~= er) by {
                assert forall|j: int| 0 <= j < er.len() implies f.subrange(next, next + er.len())[j]
                    == er[j] by {
                    assert(f[next + j] == e[entry_bytes(m).len() + j]);
                }
            }
            lemma_parse_entries(f, next, end, rest);
            assert(opt_seq(Some(m)) + rest =~= ms);
        }
    }
}

proof fn lemma_le32_round_trip(x: u32)
    ensures
        le32_at(le32_bytes(x as int), 0) == x,
{
    let b = le32_bytes(x as int);
    assert(b[0] == x % 0x100);
    assert(b[1] == x / 0x100 % 0x100);
    assert(b[2] == x / 0x10000 % 0x100);
    assert(b[3] == x / 0x1000000 % 0x100);
    assert(x % 0x100 + 0x100 * (x / 0x100 % 0x100) + 0x10000 * (x / 0x10000 % 0x100) + 0x1000000 * (
    x / 0x1000000 % 0x100) == x) by (bit_vector);
}

proof fn lemma_frame_layout(ms: Seq<MessageModel>)
    requires
        encodable(ms),
    ensures
        ({
            let body = body_bytes(ms);
            let len = body.len() as int;
            let frame = frame_bytes(ms);
            let c = fletcher32_spec(body, 0, (len / 2) as nat);
            &&& len % 2 == 0
            &&& len <= 254
            &&& frame.len() == HEADER_SIZE + len + FOOTER_SIZE
            &&& starts_sync(frame)
            &&& frame[3] as int == len
            &&& frame.subrange(4, 4 + len) == body
            &&& le32_at(frame, 4 + len) == c
        }),
{
    let body = body_bytes(ms);
    let len = body.len() as int;
    let frame = frame_bytes(ms);
    let c = fletcher32_spec(body, 0, (len / 2) as nat);
    crate::fletcher32::lemma_fletcher_bounds(body, 0, (len / 2) as nat);
    lemma_le32_round_trip(c as u32);
    let t = le32_bytes(c);
    let h = seq![SYNC_BYTE, SYNC_BYTE, SYNC_BYTE, body.len() as u8];
    assert(frame == h + body + t);
    assert(frame.subrange(4, 4 + len) =~= body);
    assert(frame[4 + len] == t[0]);
    assert(frame[4 + len + 1] == t[1]);
    assert(frame[4 + len + 2] == t[2]);
    assert(frame[4 + len + 3] == t[3]);
}

/// Decoding a frame that `encode` wrote gives back its messages and leaves
/// nothing behind, for every list that fits one frame and reads back.
pub proof fn lemma_frame_round_trip(ms: Seq<MessageModel>)
    requires
        encodable(ms),
        reads_back(ms),
    ensures
        decode_spec(frame_bytes(ms)) == (
            Ok::<Option<Seq<MessageModel>>, CodecError>(Some(ms)),
            Seq::<u8>::empty(),
        ),
{
    let body = body_bytes(ms);
    let e = entries_bytes(ms);
    let len = body.len() as int;
    let frame = frame_bytes(ms);
    lemma_frame_layout(ms);
    assert(sync_skip(frame) == frame);
    assert(frame.subrange(0, frame.len() as int) =~= frame);
    assert(frame.subrange(frame.len() as int, frame.len() as int) =~= Seq::<u8>::empty());
    assert(frame.subrange(4, 4 + len) =~= body.subrange(0, len));
    crate::fletcher32::lemma_fletcher_window(frame, 4, body, 0, (len / 2) as nat);
    assert(frame.subrange(4, 4 + e.len() as int) =~= e) by {
        assert(e =~= body.subrange(0, e.len() as int));
        assert(frame.subrange(4, 4 + e.len() as int) =~= frame.subrange(4, 4 + len).subrange(
            0,
            e.len() as int,
        ));
    }
    if e.len() < len {
        assert(frame[4 + e.len() as int] == body[e.len() as int]);
    }
    lemma_parse_entries(frame, 4, 4 + len, ms);
}

/// Changing any one body byte of an encoded frame makes decoding drop the
/// whole frame: no messages, and nothing left behind.
pub proof fn lemma_corruption_detected(ms: Seq<MessageModel>, k: int, v: u8)
    requires
        encodable(ms),
        0 <= k < body_bytes(ms).len(),
        v != frame_bytes(ms)[HEADER_SIZE + k],
    ensures
        decode_spec(frame_bytes(ms).update(HEADER_SIZE + k, v)) == (
            Ok::<Option<Seq<MessageModel>>, CodecError>(None),
            Seq::<u8>::empty(),
        ),
{
    let body = body_bytes(ms);
    let len = body.len() as int;
    let frame = frame_bytes(ms);
    let f2 = frame.update(4 + k, v);
    let body2 = body.update(k, v);
    lemma_frame_layout(ms);
    assert(body[k] == frame[4 + k]) by {
        assert(frame.subrange(4, 4 + len)[k] == frame[4 + k]);
    }
    assert(starts_sync(f2));
    assert(sync_skip(f2) == f2);
    assert(f2[3] == frame[3]);
    assert(f2.subrange(0, f2.len() as int) =~= f2);
    assert(f2.subrange(f2.len() as int, f2.len() as int) =~= Seq::<u8>::empty());
    assert(f2.subrange(4, 4 + len) =~= body2.subrange(0, len)) by {
        assert(frame.subrange(4, 4 + len) == body);
        assert forall|j: int| 0 <= j < len implies f2.subrange(4, 4 + len)[j] == body2[j] by {
            assert(frame[4 + j] == body[j]);
        }
    }
    crate::fletcher32::lemma_fletcher_window(f2, 4, body2, 0, (len / 2) as nat);
    crate::fletcher32::lemma_fletcher_detects_change(body, (len / 2) as nat, k, v);
    assert(le32_at(f2, 4 + len) == le32_at(frame, 4 + len));
}

/// Whether no sync starts at any of the first `n` bytes of `s`.
pub open spec fn no_sync_before(s: Seq<u8>, n: int) -> bool {
    forall|j: int| 0 <= j < n ==> !starts_sync(#[trigger] s.subrange(j, s.len() as int))
}

proof fn lemma_skip_garbage(g: Seq<u8>, f: Seq<u8>)
    requires
        starts_sync(f),
        f.len() >= HEADER_SIZE,
        no_sync_before(g + f, g.len() as int),
    ensures
        sync_skip(g + f) == f,
    decreases g.len(),
{
    if g.len() == 0 {
        assert(g + f =~= f);
    } else {
        let s = g + f;
        assert(s.subrange(0, s.len() as int) =~= s);
        assert(!starts_sync(s.subrange(0, s.len() as int)));
        assert(s.drop_first() =~= g.drop_first() + f);
        assert forall|j: int| 0 <= j < g.len() - 1 implies !starts_sync(
            #[trigger] s.drop_first().subrange(j, s.drop_first().len() as int),
        ) by {
            assert(s.drop_first().subrange(j, s.drop_first().len() as int) =~= s.subrange(
                j + 1,
                s.len() as int,
            ));
        }
        lemma_skip_garbage(g.drop_first(), f);
    }
}

/// Bytes before a frame that hold no sync of their own do not change what
/// decoding gives, nor what is left.
pub proof fn lemma_resync(garbage: Seq<u8>, frame: Seq<u8>)
    requires
        starts_sync(frame),
        frame.len() >= HEADER_SIZE,
        no_sync_before(garbage + frame, garbage.len() as int),
    ensures
        decode_spec(garbage + frame) == decode_spec(frame),
{
    lemma_skip_garbage(garbage, frame);
}

} // verus!
