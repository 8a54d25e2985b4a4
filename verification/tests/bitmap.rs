use block_prune::bitmap::{count_zeros, get_bit, is_set, set_bit};

fn naive_count_zeros(data: &Vec<u8>, offset: usize, len: usize) -> usize {
    let mut zeros: usize = 0;
    for i in offset..offset + len {
        if !get_bit(data, i) {
            zeros += 1;
        }
    }
    zeros
}

#[test]
fn set_bit_roundtrip() {
    let mut buf: Vec<u8> = vec![0, 0];
    set_bit(&mut buf, 5, true);
    assert!(get_bit(&buf, 5));
    for i in 0..16 {
        if i != 5 {
            assert!(!get_bit(&buf, i));
        }
    }
    set_bit(&mut buf, 12, true);
    set_bit(&mut buf, 5, false);
    assert!(!get_bit(&buf, 5));
    assert!(get_bit(&buf, 12));
    for i in 0..16 {
        assert_eq!(get_bit(&buf, i), i == 12);
    }
}

#[test]
fn set_and_is_set_within_byte() {
    assert_eq!(block_prune::bitmap::set(0, 3, true), 8);
    assert_eq!(block_prune::bitmap::set(0xFF, 0, false), 0xFE);
    assert!(is_set(8, 3));
    assert!(!is_set(8, 2));
    let mut b: u8 = 0;
    for i in 0..8 {
        b = block_prune::bitmap::set(b, i, true);
    }
    assert_eq!(b, 0xFF);
}

#[test]
fn count_zeros_empty_window() {
    assert_eq!(count_zeros(&vec![0xFF], 3, 0), 0);
    assert_eq!(count_zeros(&vec![], 0, 0), 0);
}

#[test]
fn count_zeros_cross_byte_window() {
    // Bits 4..12 of [0b1111_0000, 0b0000_1111] are, least-significant bit
    // first, the high nibble of the first byte and the low nibble of the
    // second: all set, so the window holds no zero.
    assert_eq!(count_zeros(&vec![0b1111_0000, 0b0000_1111], 4, 8), 0);
    // The first byte alone carries its four zeros in the low nibble.
    assert_eq!(count_zeros(&vec![0b1111_0000, 0b0000_1111], 0, 8), 4);
    // The mirrored buffer makes the cross-byte window all-zero.
    assert_eq!(count_zeros(&vec![0b0000_1111, 0b1111_0000], 4, 8), 8);
}

#[test]
fn count_zeros_single_byte_window() {
    // Window strictly inside one byte takes the shift-mask path.
    // Bits 1..5 of 0b0110_0110 are, least-significant first: 1, 1, 0, 0.
    assert_eq!(count_zeros(&vec![0b0110_0110], 1, 4), 2);
    assert_eq!(count_zeros(&vec![0b0110_0110], 0, 7), 3);
    assert_eq!(count_zeros(&vec![0xFF], 2, 5), 0);
    assert_eq!(count_zeros(&vec![0x00], 2, 5), 5);
}

#[test]
fn count_zeros_matches_naive_reference() {
    let data: Vec<u8> = vec![0b1011_0010, 0b0000_0000, 0b1111_1111, 0b0101_1100];
    let total_bits = 8 * data.len();
    for offset in 0..total_bits {
        for len in 0..=(total_bits - offset) {
            assert_eq!(
                count_zeros(&data, offset, len),
                naive_count_zeros(&data, offset, len),
                "offset {} len {}",
                offset,
                len
            );
        }
    }
}

#[test]
fn count_zeros_complements_popcount() {
    let data: Vec<u8> = vec![0b1100_1010, 0b0011_0101, 0b1110_0000];
    for offset in [0, 1, 3, 7, 8, 9, 15] {
        for len in [0, 1, 5, 8, 9, 13] {
            if offset + len <= 8 * data.len() {
                let zeros = count_zeros(&data, offset, len);
                let mut ones: usize = 0;
                for i in offset..offset + len {
                    if get_bit(&data, i) {
                        ones += 1;
                    }
                }
                assert_eq!(zeros + ones, len);
            }
        }
    }
}
