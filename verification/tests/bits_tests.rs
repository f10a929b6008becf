use sllv_core::bits::{read_3bits, write_3bits};

#[test]
fn bits_are_least_significant_first() {
    // 0b1010_1100, 0b0000_0011
    let buf = [0xACu8, 0x03];
    assert_eq!(read_3bits(&buf, 0), 0b100);
    assert_eq!(read_3bits(&buf, 3), 0b101);
    // bits 6, 7 of byte 0 and bit 0 of byte 1
    assert_eq!(read_3bits(&buf, 6), 0b110);
    assert_eq!(read_3bits(&buf, 9), 0b001);
}

#[test]
fn reading_past_the_end_gives_zero_bits() {
    let buf = [0xFFu8];
    assert_eq!(read_3bits(&buf, 5), 0b111);
    assert_eq!(read_3bits(&buf, 6), 0b011);
    assert_eq!(read_3bits(&buf, 7), 0b001);
    assert_eq!(read_3bits(&buf, 8), 0);
    assert_eq!(read_3bits(&buf, 1000), 0);
    assert_eq!(read_3bits(&[], 0), 0);
    assert_eq!(read_3bits(&buf, usize::MAX), 0);
}

#[test]
fn write_then_read_gives_the_low_three_bits() {
    for start in [0x00u8, 0xFF, 0x5A] {
        for i in 0..=21usize {
            for s in 0u8..=255 {
                let mut buf = [start; 3];
                write_3bits(&mut buf, i, s);
                assert_eq!(read_3bits(&buf, i), s & 7);
            }
        }
    }
}

#[test]
fn write_leaves_other_bits_alone() {
    let mut buf = [0xFFu8, 0xFF];
    write_3bits(&mut buf, 7, 0);
    assert_eq!(buf, [0x7F, 0xFC]);
    let mut buf = [0x00u8, 0x00];
    write_3bits(&mut buf, 7, 0b101);
    assert_eq!(buf, [0x80, 0x02]);
}

#[test]
fn writes_past_the_end_are_ignored() {
    let mut buf = [0u8; 2];
    write_3bits(&mut buf, 14, 0b111);
    assert_eq!(buf, [0x00, 0xC0]);
    write_3bits(&mut buf, 16, 0b111);
    assert_eq!(buf, [0x00, 0xC0]);
    write_3bits(&mut buf, usize::MAX - 1, 0b111);
    assert_eq!(buf, [0x00, 0xC0]);
    let mut empty: [u8; 0] = [];
    write_3bits(&mut empty, 0, 7);
}

#[test]
fn successive_symbols_pack_into_bytes() {
    let mut buf = [0u8; 3];
    for (n, s) in [1u8, 2, 3, 4, 5, 6, 7, 0].iter().enumerate() {
        write_3bits(&mut buf, 3 * n, *s);
    }
    // 001 010 011 100 101 110 111 000, least significant bit first
    assert_eq!(buf, [0b11_010_001, 0b0_101_100_0, 0b000_111_11]);
    for (n, s) in [1u8, 2, 3, 4, 5, 6, 7, 0].iter().enumerate() {
        assert_eq!(read_3bits(&buf, 3 * n), *s);
    }
}
