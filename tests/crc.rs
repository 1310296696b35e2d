use crc8_rs::{fetch_crc8, has_valid_crc8, insert_crc8};

#[test]
fn crc_cycle() {
    let test_vectors = [
        [0x02, 0x30, 0xf0, 0x00],
        [0xff, 0x30, 0xf0, 0x00],
        [0x02, 0x56, 0xf0, 0x00],
        [0x02, 0x30, 0x49, 0x00],
        [0xab, 0xcd, 0xef, 0x00],
    ];

    for i in 0..test_vectors.len() {
        let test_vector = test_vectors[i];

        assert!(has_valid_crc8(insert_crc8(test_vector, 0xA6), 0xA6));
    }
}

#[test]
fn end_to_end_scenario() {
    let signed = insert_crc8([0x02, 0x30, 0xf0, 0x00], 0xA6);
    assert_eq!(signed, [0x02, 0x30, 0xf0, 0xae]);
    assert!(has_valid_crc8(signed, 0xA6));
    assert_eq!(fetch_crc8(signed, 0xA6), 0);
}

#[test]
fn corrupting_second_byte_is_detected() {
    let signed = insert_crc8([0x02, 0x30, 0xf0, 0x00], 0xA6);
    for v in 0..=255u8 {
        if v == signed[1] {
            continue;
        }
        let mut corrupted = signed;
        corrupted[1] = v;
        // These three corruptions add a multiple of the generator and go unnoticed.
        let undetected = v == 0x63 || v == 0x96 || v == 0xc5;
        assert_eq!(has_valid_crc8(corrupted, 0xA6), undetected);
    }
}

#[test]
fn hello_world_message() {
    let msg = insert_crc8(*b"Hello World!\0", 0xD5);
    assert_eq!(msg[12], 216);
    assert!(has_valid_crc8(msg, 0xD5));

    let mut corrupted = msg;
    corrupted[1] = b'a';
    assert!(!has_valid_crc8(corrupted, 0xD5));
    assert_eq!(fetch_crc8(corrupted, 0xD5), 40);
}

#[test]
fn fetch_gives_remainder_byte() {
    assert_eq!(fetch_crc8([0x02, 0x30, 0xf0, 0x00], 0xA6), 8);
    assert_eq!(fetch_crc8([0xff], 0x07), 3);
    assert_eq!(fetch_crc8([0x00, 0x00], 0x07), 0);
    assert_eq!(fetch_crc8([0x01, 0x00], 0x03), 2);
}

#[test]
fn fetch_is_deterministic() {
    let data = [0x10, 0x20, 0x30, 0x40, 0x50];
    assert_eq!(fetch_crc8(data, 0xD5), fetch_crc8(data, 0xD5));
}

#[test]
fn insert_ignores_existing_last_byte() {
    assert_eq!(insert_crc8([0x02, 0x30, 0xf0, 0x55], 0xA6), [0x02, 0x30, 0xf0, 0xae]);
    assert_eq!(insert_crc8([0xff], 0x07), [0x07]);
}

#[test]
fn single_byte_buffer_round_trip() {
    for g in 1..=255u8 {
        for b in [0x00u8, 0x5a, 0xff] {
            let signed = insert_crc8([b], g);
            assert!(has_valid_crc8(signed, g));
            assert_eq!(fetch_crc8(signed, g), 0);
        }
    }
}

#[test]
fn single_bit_flips_are_detected() {
    let signed = insert_crc8([0xab, 0xcd, 0xef, 0x00], 0xA6);
    for i in 0..4 {
        for j in 0..8 {
            let mut corrupted = signed;
            corrupted[i] ^= 1 << j;
            assert!(!has_valid_crc8(corrupted, 0xA6));
        }
    }
}

#[test]
fn wide_buffer_round_trip() {
    let signed = insert_crc8([3u8; 256], 0xD5);
    assert!(has_valid_crc8(signed, 0xD5));
    assert!(has_valid_crc8(insert_crc8([0x42; 256], 0xD6), 0xD6));
}

#[test]
fn one_term_generator_misses_high_flips() {
    let signed = insert_crc8([0xab, 0xcd, 0x00], 0x04);
    assert_eq!(signed, [0xab, 0xcd, 0x04]);
    let mut high = signed;
    high[0] ^= 0x80;
    assert!(has_valid_crc8(high, 0x04));
    let mut low = signed;
    low[2] ^= 0x01;
    assert!(!has_valid_crc8(low, 0x04));
}
