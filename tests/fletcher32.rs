use telegraph::fletcher32::fletcher32;

#[test]
fn wikipedia_test_cases() {
    // "abcde" -> 4031760169 (0xF04FC729)
    let str1 = "abcde\0"; // zero-padded
    assert_eq!(fletcher32(str1.as_bytes(), 0, 3), 0xF04FC729);

    // "abcdef" -> 1448095018 (0x56502D2A)
    let str2 = "abcdef";
    assert_eq!(fletcher32(str2.as_bytes(), 0, 3), 0x56502D2A);

    // "abcdefgh" -> 3957429649 (0xEBE19591)
    let str3 = "abcdefgh";
    assert_eq!(fletcher32(str3.as_bytes(), 0, 4), 0xEBE19591);
}

#[test]
fn fletcher_of_no_words_is_folded_start() {
    assert_eq!(fletcher32(&[], 0, 0), 0xFFFF_FFFF);
}

#[test]
fn fletcher_honours_start_index() {
    let data = b"xyabcdef";
    assert_eq!(fletcher32(data, 2, 3), 0x56502D2A);
}

#[test]
fn fletcher_long_input_crosses_block_boundary() {
    // 800 words of 0xFFFF force several reductions; every sum stays congruent
    // to its plain value modulo 0xFFFF.
    let data = vec![0xFFu8; 1600];
    let r = fletcher32(&data, 0, 800);
    assert_eq!(r & 0xFFFF, 0xFFFF);
    assert_eq!(r >> 16, 0xFFFF);
}
