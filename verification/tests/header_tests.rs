use sllv_core::digest::{sha256_bytes, sha256_hex};
use sllv_core::header::ShardHeader;

fn sample_header() -> ShardHeader {
    let mut sha = [0u8; 32];
    for (i, b) in sha.iter_mut().enumerate() {
        *b = (i as u8) * 3 + 1;
    }
    ShardHeader {
        group_index: 0x0403_0201,
        shard_index: 0x0605,
        shard_len: 0x0807,
        orig_total_bytes: 0x100F_0E0D_0C0B_0A09,
        shard_sha256: sha,
        header_crc32: 0xDDCC_BBAA,
    }
}

#[test]
fn header_layout_is_little_endian() {
    let h = sample_header();
    let b = h.to_bytes();
    assert_eq!(b.len(), 52);
    assert_eq!(&b[0..16], &[1, 2, 3, 4, 5, 6, 7, 8, 9, 10, 11, 12, 13, 14, 15, 16]);
    assert_eq!(&b[16..48], &h.shard_sha256[..]);
    assert_eq!(&b[48..52], &[0xAA, 0xBB, 0xCC, 0xDD]);
    assert_eq!(&h.to_bytes_no_crc()[..], &b[0..48]);
}

#[test]
fn header_parses_back() {
    let h = sample_header();
    let b = h.to_bytes();
    let back = ShardHeader::from_bytes(&b);
    assert_eq!(back.group_index, h.group_index);
    assert_eq!(back.shard_index, h.shard_index);
    assert_eq!(back.shard_len, h.shard_len);
    assert_eq!(back.orig_total_bytes, h.orig_total_bytes);
    assert_eq!(back.shard_sha256, h.shard_sha256);
    assert_eq!(back.header_crc32, h.header_crc32);
}

#[test]
fn header_parse_reads_only_the_first_52_bytes() {
    let h = sample_header();
    let mut long = h.to_bytes().to_vec();
    long.extend_from_slice(&[0xEE; 20]);
    let back = ShardHeader::from_bytes(&long);
    assert_eq!(back.group_index, h.group_index);
    assert_eq!(back.header_crc32, h.header_crc32);
}

#[test]
fn sealed_header_passes_its_crc() {
    let h = sample_header().with_crc();
    assert_eq!(h.header_crc32, crc32fast::hash(&h.to_bytes_no_crc()));
    assert_ne!(h.header_crc32, 0xDDCC_BBAA);
    let b = h.to_bytes();
    assert!(ShardHeader::from_bytes(&b).crc_ok(&b));
}

#[test]
fn crc_of_known_bytes() {
    // all-zero header body
    let h = ShardHeader {
        group_index: 0,
        shard_index: 0,
        shard_len: 0,
        orig_total_bytes: 0,
        shard_sha256: [0; 32],
        header_crc32: 0,
    }
    .with_crc();
    assert_eq!(h.header_crc32, crc32fast::hash(&[0u8; 48]));
    assert_eq!(h.header_crc32, 0xF288_B395);
}

#[test]
fn any_changed_header_byte_fails_the_crc() {
    let h = sample_header().with_crc();
    let good = h.to_bytes();
    for i in 0..52 {
        let mut bad = good;
        bad[i] ^= 0x01;
        let parsed = ShardHeader::from_bytes(&bad);
        assert!(!parsed.crc_ok(&bad), "byte {} changed", i);
    }
}

#[test]
fn short_buffers_fail_the_crc() {
    let h = sample_header().with_crc();
    let b = h.to_bytes();
    assert!(!h.crc_ok(&b[..51]));
    assert!(!h.crc_ok(&[]));
}

#[test]
fn sha256_of_known_inputs() {
    assert_eq!(
        sha256_hex(b"abc"),
        "ba7816bf8f01cfea414140de5dae2223b00361a396177a9cb410ff61f20015ad"
    );
    assert_eq!(
        sha256_hex(b""),
        "e3b0c44298fc1c149afbf4c8996fb92427ae41e4649b934ca495991b7852b855"
    );
    let d = sha256_bytes(b"abc");
    assert_eq!(d[0], 0xba);
    assert_eq!(d[31], 0xad);
    assert_eq!(hex::encode(d), sha256_hex(b"abc"));
}
