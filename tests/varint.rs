use telegraph::varint::{read_from, to_bytes};

#[test]
fn varint_single_byte() {
    assert_eq!(to_bytes(0), vec![0]);
    assert_eq!(to_bytes(127), vec![127]);
}

#[test]
fn varint_multi_byte() {
    assert_eq!(to_bytes(128), vec![0x80, 0x01]);
    assert_eq!(to_bytes(300), vec![0xAC, 0x02]);
    assert_eq!(to_bytes(u32::MAX), vec![0xFF, 0xFF, 0xFF, 0xFF, 0x0F]);
}

#[test]
fn varint_round_trip_values() {
    for v in [0u32, 1, 16, 127, 128, 255, 300, 16383, 16384, 1 << 21, 1 << 28, u32::MAX] {
        let b = to_bytes(v);
        assert_eq!(read_from(&b, 0), Some((v, b.len())));
    }
}

#[test]
fn varint_read_at_offset() {
    let b = [9u8, 9, 0xAC, 0x02, 7];
    assert_eq!(read_from(&b, 2), Some((300, 2)));
}

#[test]
fn varint_truncated_is_none() {
    assert_eq!(read_from(&[0x80], 0), None);
    assert_eq!(read_from(&[], 0), None);
    assert_eq!(read_from(&[1, 2], 5), None);
}

#[test]
fn varint_longer_than_five_bytes_is_none() {
    assert_eq!(read_from(&[0x80, 0x80, 0x80, 0x80, 0x80, 0x01], 0), None);
}
