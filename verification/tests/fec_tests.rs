use sllv_core::fec::{fec_decode_collect, fec_encode_stream, FecError, FecParams, ShardPacket};

fn sample(len: usize) -> Vec<u8> {
    let mut state: u32 = 0xDEAD_BEEF;
    let mut out = Vec::with_capacity(len);
    for _ in 0..len {
        state ^= state << 13;
        state ^= state >> 17;
        state ^= state << 5;
        out.push((state & 0xff) as u8);
    }
    out
}

#[test]
fn encode_counts_groups_and_shards() {
    let p = FecParams { data_shards: 3, parity_shards: 2, shard_bytes: 4 };
    let input = sample(25);
    let packets = fec_encode_stream(&input, &p).unwrap();
    // ceil(25 / 12) = 3 groups of 5 shards
    assert_eq!(packets.len(), 15);
    for (k, pk) in packets.iter().enumerate() {
        assert_eq!(pk.group_index as usize, k / 5);
        assert_eq!(pk.shard_index as usize, k % 5);
        assert_eq!(pk.shard_bytes.len(), 4);
    }
    assert_eq!(packets[0].shard_bytes, input[0..4].to_vec());
    assert_eq!(packets[1].shard_bytes, input[4..8].to_vec());
    assert_eq!(packets[5].shard_bytes, input[12..16].to_vec());
    // the last group is zero-padded
    assert_eq!(packets[10].shard_bytes, vec![input[24], 0, 0, 0]);
    assert_eq!(packets[11].shard_bytes, vec![0, 0, 0, 0]);
}

#[test]
fn round_trip_with_every_packet() {
    let p = FecParams { data_shards: 4, parity_shards: 2, shard_bytes: 16 };
    let input = sample(1000);
    let packets = fec_encode_stream(&input, &p).unwrap();
    let out = fec_decode_collect(packets, input.len(), &p).unwrap();
    assert_eq!(out, input);
}

#[test]
fn recovers_from_lost_and_shuffled_packets() {
    let p = FecParams { data_shards: 4, parity_shards: 4, shard_bytes: 8 };
    let input = sample(300);
    let packets = fec_encode_stream(&input, &p).unwrap();
    // keep shards 1, 3, 4, 6 of every group, last group first
    let mut kept: Vec<ShardPacket> = packets
        .into_iter()
        .filter(|pk| [1u16, 3, 4, 6].contains(&pk.shard_index))
        .collect();
    kept.reverse();
    let out = fec_decode_collect(kept, input.len(), &p).unwrap();
    assert_eq!(out, input);
}

#[test]
fn too_few_shards_is_refused() {
    let p = FecParams { data_shards: 4, parity_shards: 2, shard_bytes: 8 };
    let input = sample(64);
    let packets = fec_encode_stream(&input, &p).unwrap();
    let kept: Vec<ShardPacket> = packets
        .into_iter()
        .filter(|pk| !(pk.group_index == 1 && pk.shard_index < 3))
        .collect();
    match fec_decode_collect(kept, input.len(), &p) {
        Err(FecError::Rs(msg)) => assert_eq!(
            msg,
            "The number of shards present is smaller than number of parity shards, cannot reconstruct missing shards"
        ),
        other => panic!("unexpected result: {:?}", other),
    }
}

#[test]
fn invalid_params_are_refused() {
    let zero_data = FecParams { data_shards: 0, parity_shards: 2, shard_bytes: 8 };
    assert!(matches!(fec_encode_stream(&[1, 2, 3], &zero_data), Err(FecError::InvalidParams)));
    assert!(matches!(fec_decode_collect(Vec::new(), 0, &zero_data), Err(FecError::InvalidParams)));
    let zero_bytes = FecParams { data_shards: 2, parity_shards: 2, shard_bytes: 0 };
    assert!(matches!(fec_encode_stream(&[1, 2, 3], &zero_bytes), Err(FecError::InvalidParams)));
    let no_parity = FecParams { data_shards: 2, parity_shards: 0, shard_bytes: 8 };
    match fec_encode_stream(&[1, 2, 3], &no_parity) {
        Err(FecError::Rs(msg)) => assert_eq!(
            msg,
            "The number of provided parity shards is smaller than the one in codec"
        ),
        other => panic!("unexpected result: {:?}", other),
    }
    let too_many = FecParams { data_shards: 200, parity_shards: 57, shard_bytes: 8 };
    match fec_encode_stream(&[1, 2, 3], &too_many) {
        Err(FecError::Rs(msg)) => assert_eq!(
            msg,
            "The number of provided shards is greater than the one in codec"
        ),
        other => panic!("unexpected result: {:?}", other),
    }
}

#[test]
fn empty_input_has_no_packets() {
    let p = FecParams::default();
    assert_eq!(p.data_shards, 20);
    assert_eq!(p.parity_shards, 10);
    assert_eq!(p.shard_bytes, 1024);
    let packets = fec_encode_stream(&[], &p).unwrap();
    assert!(packets.is_empty());
    assert_eq!(fec_decode_collect(packets, 0, &p).unwrap(), Vec::<u8>::new());
}

#[test]
fn packets_with_a_wrong_digest_are_dropped() {
    let p = FecParams { data_shards: 3, parity_shards: 2, shard_bytes: 8 };
    let input = sample(24);
    let mut packets = fec_encode_stream(&input, &p).unwrap();
    // two damaged shards: the three that are left recover the group
    packets[0].shard_bytes[3] ^= 0xFF;
    packets[4].shard_sha256[0] ^= 0x01;
    assert_eq!(fec_decode_collect(packets.clone(), 24, &p).unwrap(), input);
    // a third damaged shard leaves too few
    packets[2].shard_bytes[0] ^= 0x01;
    assert!(matches!(fec_decode_collect(packets, 24, &p), Err(FecError::Rs(_))));
}

const TOO_FEW: &str = "The number of shards present is smaller than number of parity shards, cannot reconstruct missing shards";

#[test]
fn a_group_of_which_nothing_is_left_is_refused() {
    let p = FecParams { data_shards: 2, parity_shards: 1, shard_bytes: 4 };
    let input = sample(16);
    let mut packets = fec_encode_stream(&input, &p).unwrap();
    assert_eq!(packets.len(), 6);
    for pk in packets.iter_mut().take(3) {
        pk.shard_sha256[31] ^= 0x80;
    }
    // the first group is gone: the second does not come out in its place
    match fec_decode_collect(packets, 16, &p) {
        Err(FecError::Rs(msg)) => assert_eq!(msg, TOO_FEW),
        other => panic!("unexpected result: {:?}", other),
    }
    // nor is a group in the middle passed over
    let p = FecParams { data_shards: 2, parity_shards: 1, shard_bytes: 4 };
    let input = sample(24);
    let packets: Vec<ShardPacket> = fec_encode_stream(&input, &p)
        .unwrap()
        .into_iter()
        .filter(|pk| pk.group_index != 1)
        .collect();
    assert_eq!(packets.len(), 6);
    match fec_decode_collect(packets, 24, &p) {
        Err(FecError::Rs(msg)) => assert_eq!(msg, TOO_FEW),
        other => panic!("unexpected result: {:?}", other),
    }
}

#[test]
fn no_packets_for_a_length_is_refused() {
    let p = FecParams { data_shards: 2, parity_shards: 1, shard_bytes: 4 };
    match fec_decode_collect(Vec::new(), 5, &p) {
        Err(FecError::Rs(msg)) => assert_eq!(msg, TOO_FEW),
        other => panic!("unexpected result: {:?}", other),
    }
    assert_eq!(fec_decode_collect(Vec::new(), 0, &p).unwrap(), Vec::<u8>::new());
}

#[test]
fn the_output_has_the_length_asked_for() {
    let p = FecParams { data_shards: 2, parity_shards: 1, shard_bytes: 4 };
    let input = sample(20);
    let packets = fec_encode_stream(&input, &p).unwrap();
    for total in 0..=24usize {
        let out = fec_decode_collect(packets.clone(), total, &p).unwrap();
        assert_eq!(out.len(), total);
        let upto = total.min(20);
        assert_eq!(&out[..upto], &input[..upto]);
        assert!(out[upto..].iter().all(|b| *b == 0));
    }
    // a length that asks for a group that was never encoded
    assert!(matches!(fec_decode_collect(packets, 25, &p), Err(FecError::Rs(_))));
}

#[test]
fn shards_of_another_size_than_the_parameters_are_refused() {
    let wide = FecParams { data_shards: 2, parity_shards: 1, shard_bytes: 5 };
    let packets = fec_encode_stream(&sample(10), &wide).unwrap();
    let p = FecParams { data_shards: 2, parity_shards: 1, shard_bytes: 4 };
    match fec_decode_collect(packets, 8, &p) {
        Err(FecError::Rs(msg)) => {
            assert_eq!(msg, "At least one of the provided shards is not of the correct size")
        },
        other => panic!("unexpected result: {:?}", other),
    }
}

#[test]
fn later_packets_replace_earlier_ones_of_the_same_shard() {
    let p = FecParams { data_shards: 2, parity_shards: 1, shard_bytes: 4 };
    let a = fec_encode_stream(&sample(8), &p).unwrap();
    let other: Vec<u8> = sample(16)[8..16].to_vec();
    let b = fec_encode_stream(&other, &p).unwrap();
    let mut packets = a.clone();
    packets.extend(b.clone());
    assert_eq!(fec_decode_collect(packets, 8, &p).unwrap(), other);
    let mut packets = b;
    packets.extend(a);
    assert_eq!(fec_decode_collect(packets, 8, &p).unwrap(), sample(8));
}

#[test]
fn decoding_stops_at_the_length_asked_for() {
    let p = FecParams { data_shards: 2, parity_shards: 1, shard_bytes: 4 };
    let input = sample(20);
    let mut packets = fec_encode_stream(&input, &p).unwrap();
    assert_eq!(packets.len(), 9);
    // the last group cannot be recovered, and is not needed for 16 bytes
    packets.truncate(7);
    assert_eq!(fec_decode_collect(packets.clone(), 16, &p).unwrap(), input[0..16].to_vec());
    assert_eq!(fec_decode_collect(packets.clone(), 5, &p).unwrap(), input[0..5].to_vec());
    assert!(matches!(fec_decode_collect(packets, 17, &p), Err(FecError::Rs(_))));
}

#[test]
fn shards_of_different_lengths_are_refused() {
    let p = FecParams { data_shards: 2, parity_shards: 1, shard_bytes: 4 };
    let mut packets = fec_encode_stream(&sample(8), &p).unwrap();
    packets[1].shard_bytes.push(0);
    packets[1].shard_sha256 = sllv_core::digest::sha256_bytes(&packets[1].shard_bytes);
    match fec_decode_collect(packets, 8, &p) {
        Err(FecError::Rs(msg)) => {
            assert_eq!(msg, "At least one of the provided shards is not of the correct size")
        },
        other => panic!("unexpected result: {:?}", other),
    }
    let mut packets = fec_encode_stream(&sample(8), &p).unwrap();
    packets[0].shard_bytes.clear();
    packets[0].shard_sha256 = sllv_core::digest::sha256_bytes(&[]);
    match fec_decode_collect(packets, 8, &p) {
        Err(FecError::Rs(msg)) => assert_eq!(msg, "The first shard provided is of zero length"),
        other => panic!("unexpected result: {:?}", other),
    }
}

#[test]
fn scan_profile_counts_of_the_encoding() {
    let p = FecParams { data_shards: 12, parity_shards: 12, shard_bytes: 768 };
    let input = sample(200 * 1024);
    let packets = fec_encode_stream(&input, &p).unwrap();
    assert_eq!(packets.len(), 23 * 24);
    assert_eq!(packets[551].group_index, 22);
    assert_eq!(packets[551].shard_index, 23);
    for pk in &packets {
        assert_eq!(pk.shard_sha256, sllv_core::digest::sha256_bytes(&pk.shard_bytes));
    }
}
