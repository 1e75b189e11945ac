use xoofff::block::{
    bytes_to_le_words, close_block, copy_bytes, pad10x, word_from_le_bytes, words_to_le_bytes,
    xor_into, BLOCK_SIZE, LANE_CNT,
};

#[test]
fn block_and_lane_counts() {
    assert_eq!(BLOCK_SIZE, 48);
    assert_eq!(LANE_CNT, 12);
}

#[test]
fn padding_an_empty_message() {
    let padded = pad10x(&[]);
    let mut expected = [0u8; 48];
    expected[0] = 0x01;
    assert_eq!(padded, expected);
}

#[test]
fn padding_a_short_message() {
    let padded = pad10x(&[0xaa, 0xbb, 0xcc]);
    let mut expected = [0u8; 48];
    expected[0] = 0xaa;
    expected[1] = 0xbb;
    expected[2] = 0xcc;
    expected[3] = 0x01;
    assert_eq!(padded, expected);
}

#[test]
fn padding_the_longest_message() {
    let msg = [0xffu8; 47];
    let padded = pad10x(&msg);
    let mut expected = [0xffu8; 48];
    expected[47] = 0x01;
    assert_eq!(padded, expected);
}

#[test]
fn closing_a_block_clears_what_follows() {
    let mut buf = [0x55u8; 48];
    close_block(&mut buf, 5, 0x0b);
    let mut expected = [0u8; 48];
    for i in 0..5 {
        expected[i] = 0x55;
    }
    expected[5] = 0x0b;
    assert_eq!(buf, expected);
}

#[test]
fn copying_bytes_leaves_the_rest_alone() {
    let mut dst = [0x11u8; 8];
    let src = [1u8, 2, 3, 4, 5, 6];
    copy_bytes(&mut dst, 2, &src, 1, 4);
    assert_eq!(dst, [0x11, 0x11, 2, 3, 4, 5, 0x11, 0x11]);
    copy_bytes(&mut dst, 8, &src, 6, 0);
    assert_eq!(dst, [0x11, 0x11, 2, 3, 4, 5, 0x11, 0x11]);
}

#[test]
fn a_lane_is_read_least_significant_byte_first() {
    assert_eq!(word_from_le_bytes(0x78, 0x56, 0x34, 0x12), 0x12345678);
    assert_eq!(word_from_le_bytes(0xff, 0, 0, 0), 0x000000ff);
    assert_eq!(word_from_le_bytes(0, 0, 0, 0x80), 0x80000000);
    assert_eq!(
        word_from_le_bytes(1, 2, 3, 4),
        u32::from_le_bytes([1, 2, 3, 4])
    );
}

#[test]
fn a_block_read_as_lanes() {
    let mut bytes = [0u8; 48];
    for i in 0..48 {
        bytes[i] = i as u8;
    }
    assert_eq!(
        bytes_to_le_words(&bytes),
        [
            0x03020100, 0x07060504, 0x0b0a0908, 0x0f0e0d0c, 0x13121110, 0x17161514, 0x1b1a1918,
            0x1f1e1d1c, 0x23222120, 0x27262524, 0x2b2a2928, 0x2f2e2d2c
        ]
    );
}

#[test]
fn lanes_written_as_a_block() {
    let words: [u32; 12] = [
        0x03020100, 0x07060504, 0x0b0a0908, 0x0f0e0d0c, 0x13121110, 0x17161514, 0x1b1a1918,
        0x1f1e1d1c, 0x23222120, 0x27262524, 0x2b2a2928, 0x2f2e2d2c,
    ];
    let mut bytes = [0xeeu8; 48];
    words_to_le_bytes(&words, &mut bytes);
    for i in 0..48 {
        assert_eq!(bytes[i], i as u8);
    }
}

#[test]
fn lanes_and_bytes_go_back_and_forth() {
    let mut bytes = [0u8; 48];
    for i in 0..48 {
        bytes[i] = (i as u8).wrapping_mul(37).wrapping_add(0x9c);
    }
    let words = bytes_to_le_words(&bytes);
    let mut back = [0u8; 48];
    words_to_le_bytes(&words, &mut back);
    assert_eq!(back, bytes);
    for i in 0..12 {
        assert_eq!(words[i].to_le_bytes(), [bytes[4 * i], bytes[4 * i + 1], bytes[4 * i + 2], bytes[4 * i + 3]]);
    }
}

#[test]
fn lanes_are_added_bitwise() {
    let mut a: [u32; 12] = [0xffff0000; 12];
    let mut b: [u32; 12] = [0; 12];
    for i in 0..12 {
        b[i] = 0x0f0f0f0f ^ (i as u32);
    }
    xor_into(&mut a, &b);
    for i in 0..12 {
        assert_eq!(a[i], 0xffff0000 ^ 0x0f0f0f0f ^ (i as u32));
    }
    a = b;
    xor_into(&mut a, &b);
    assert_eq!(a, [0u32; 12]);
}
