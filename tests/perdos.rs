use telegraph::perdos::{CodecError, PerDos, PerDosMessage};

fn msg(id: u32, payload: &[u8]) -> PerDosMessage {
    PerDosMessage { id, payload: payload.to_vec() }
}

fn encode(items: Vec<PerDosMessage>) -> Result<Vec<u8>, CodecError> {
    let mut dst = Vec::new();
    PerDos::new().encode(items, &mut dst).map(|_| dst)
}

fn same(a: &[PerDosMessage], b: &[PerDosMessage]) -> bool {
    a.len() == b.len() && a.iter().zip(b).all(|(x, y)| x.id == y.id && x.payload == y.payload)
}

#[test]
fn encode_layout_of_one_message() {
    let frame = encode(vec![msg(2, &[])]).unwrap();
    // varint(2) and a zero length: an even body, so no padding
    assert_eq!(&frame[..4], &[0xFF, 0xFF, 0xFF, 2]);
    assert_eq!(&frame[4..6], &[0x02, 0x00]);
    assert_eq!(frame.len(), 4 + 2 + 4);
}

#[test]
fn encode_pads_odd_body() {
    let frame = encode(vec![msg(5, &[1])]).unwrap();
    assert_eq!(frame[3], 4);
    assert_eq!(&frame[4..8], &[0x05, 0x01, 0x01, 0x10]);
    assert_eq!(frame.len(), 12);
}

#[test]
fn encode_checksum_trailer() {
    let frame = encode(vec![msg(0x61, &[0x62, 0x63, 0x64])]).unwrap();
    let body = &frame[4..frame.len() - 4];
    let sum = telegraph::fletcher32::fletcher32(body, 0, (body.len() / 2) as u32);
    assert_eq!(&frame[frame.len() - 4..], &sum.to_le_bytes());
}

#[test]
fn frame_round_trip() {
    let items = vec![msg(1, &[1, 2, 3]), msg(300, &[]), msg(7, &[0xFF; 20])];
    let mut buf = encode(items).unwrap();
    let expected = vec![msg(1, &[1, 2, 3]), msg(300, &[]), msg(7, &[0xFF; 20])];
    let out = PerDos::new().decode(&mut buf).unwrap().unwrap();
    assert!(same(&out, &expected));
    assert!(buf.is_empty());
}

#[test]
fn frame_resynchronises_after_garbage() {
    let mut buf = vec![0x00, 0x13, 0xFF, 0x42, 0xFF, 0xFF, 0x07];
    buf.extend(encode(vec![msg(9, &[4, 5])]).unwrap());
    let mut clean = encode(vec![msg(9, &[4, 5])]).unwrap();
    let a = PerDos::new().decode(&mut buf).unwrap().unwrap();
    let b = PerDos::new().decode(&mut clean).unwrap().unwrap();
    assert!(same(&a, &b));
    assert!(buf.is_empty());
}

#[test]
fn checksum_corruption_drops_frame() {
    let good = encode(vec![msg(3, &[10, 20, 30, 40])]).unwrap();
    let body_len = good[3] as usize;
    for k in 0..body_len {
        let mut bad = good.clone();
        bad[4 + k] ^= 0x01;
        assert!(PerDos::new().decode(&mut bad).unwrap().is_none());
        assert!(bad.is_empty());
    }
}

#[test]
fn decode_needs_more_data() {
    let full = encode(vec![msg(3, &[1, 2])]).unwrap();
    let mut part = full[..full.len() - 1].to_vec();
    assert!(PerDos::new().decode(&mut part).unwrap().is_none());
    assert_eq!(part, full[..full.len() - 1].to_vec());
    let mut tiny = vec![0xFF, 0xFF];
    assert!(PerDos::new().decode(&mut tiny).unwrap().is_none());
    assert_eq!(tiny, vec![0xFF, 0xFF]);
}

#[test]
fn decode_leaves_following_frame() {
    let mut buf = encode(vec![msg(1, &[1])]).unwrap();
    let second = encode(vec![msg(2, &[2])]).unwrap();
    buf.extend(second.iter());
    let first = PerDos::new().decode(&mut buf).unwrap().unwrap();
    assert!(same(&first, &[msg(1, &[1])]));
    assert_eq!(buf, second);
}

#[test]
fn decode_data_too_long() {
    // body: id 1, declared length 5, but only 2 bytes remain in the body
    let body = [0x01u8, 0x05, 0xAA, 0xBB];
    let sum = telegraph::fletcher32::fletcher32(&body, 0, 2);
    let mut buf = vec![0xFF, 0xFF, 0xFF, 4];
    buf.extend_from_slice(&body);
    buf.extend_from_slice(&sum.to_le_bytes());
    assert!(matches!(PerDos::new().decode(&mut buf), Err(CodecError::DataTooLong)));
}

#[test]
fn encode_item_too_large() {
    let r = encode(vec![msg(1, &[0; 256])]);
    assert_eq!(r, Err(CodecError::ItemTooLarge { len: 256 }));
}

#[test]
fn encode_frame_too_large() {
    let r = encode(vec![msg(1, &[0; 200]), msg(2, &[0; 100])]);
    assert_eq!(r, Err(CodecError::FrameTooLarge));
}

#[test]
fn encode_largest_frame() {
    // 1 id byte + 1 length byte + 252 payload bytes = 254-byte body, 262 in all
    let frame = encode(vec![msg(1, &[7; 252])]).unwrap();
    assert_eq!(frame.len(), 262);
    let r = encode(vec![msg(1, &[7; 253])]);
    assert_eq!(r, Err(CodecError::FrameTooLarge));
}

#[test]
fn encode_empty_list() {
    let mut buf = encode(vec![]).unwrap();
    assert_eq!(buf.len(), 8);
    assert!(same(&PerDos::new().decode(&mut buf).unwrap().unwrap(), &[]));
}

#[test]
fn encode_leaves_dst_on_error() {
    let mut dst = vec![1, 2, 3];
    assert!(PerDos::new().encode(vec![msg(1, &[0; 300])], &mut dst).is_err());
    assert_eq!(dst, vec![1, 2, 3]);
}

#[test]
fn checksum_failures_are_counted() {
    let mut codec = PerDos::new();
    let good = encode(vec![msg(3, &[10, 20])]).unwrap();
    let mut bad = good.clone();
    bad[5] ^= 0xFF;
    let mut partial = good[..5].to_vec();
    assert!(codec.decode(&mut partial).unwrap().is_none());
    assert_eq!(codec.checksum_failures(), 0);
    assert!(codec.decode(&mut bad).unwrap().is_none());
    assert_eq!(codec.checksum_failures(), 1);
    let mut fine = good.clone();
    assert!(codec.decode(&mut fine).unwrap().is_some());
    assert_eq!(codec.checksum_failures(), 1);
}
