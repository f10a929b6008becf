use sllv_core::digest::sha256_hex;
use sllv_core::manifest::EncodeManifest;
use sllv_core::palette::Palette8;
use sllv_core::pixels::FrameImage;
use sllv_core::profile::Profile;
use sllv_core::raster::{
    decode_frames_to_bytes, decode_frames_to_bytes_with_params, decode_payloads_to_bytes,
    encode_bytes_to_frames, encode_bytes_to_payloads, encode_check, frame_capacity,
    read_frame_payload, RasterError, RasterParams,
};
use sllv_core::render::{render_payload_frame, render_solid_frame};
use sllv_core::scan::decode_payload_from_rgb;
use sllv_core::FecParams;

fn pseudo_random(len: usize, seed: u32) -> Vec<u8> {
    let mut state = seed;
    let mut out = Vec::with_capacity(len);
    for _ in 0..len {
        state ^= state << 13;
        state ^= state >> 17;
        state ^= state << 5;
        out.push((state >> 8) as u8);
    }
    out
}

fn archive_64() -> RasterParams {
    let (mut p, fec) = Profile::Archive.defaults();
    assert!(fec.is_none());
    p.grid_w = 64;
    p.grid_h = 64;
    p
}

fn scan_256() -> RasterParams {
    let (p, fec) = Profile::Scan.defaults();
    assert_eq!(fec.unwrap().shard_bytes, 768);
    assert_eq!(p.grid_w, 256);
    assert_eq!(p.grid_h, 256);
    p
}

fn small_fec() -> RasterParams {
    RasterParams {
        grid_w: 32,
        grid_h: 32,
        cell_px: 2,
        chunk_bytes: 1024,
        palette: Palette8::Basic,
        sync_frames: 2,
        sync_color_symbol: 1,
        calibration_frames: 1,
        border_cells: 1,
        fiducial_size_cells: 4,
        fec: Some(FecParams { data_shards: 3, parity_shards: 2, shard_bytes: 100 }),
        deskew: false,
    }
}

fn present(frames: Vec<FrameImage>) -> Vec<Option<FrameImage>> {
    frames.into_iter().map(Some).collect()
}

fn copies(frames: &[FrameImage]) -> Vec<Option<FrameImage>> {
    frames.iter().map(|f| FrameImage::from_raw(f.width(), f.height(), f.to_raw())).collect()
}

const TOO_FEW: &str = "reed-solomon: The number of shards present is smaller than number of parity shards, cannot reconstruct missing shards";

fn padded(payload: &[u8], cap: usize) -> Vec<u8> {
    let mut v = payload.to_vec();
    v.resize(cap, 0);
    v
}

#[test]
fn archive_round_trip_of_a_tiny_input() {
    let p = archive_64();
    assert_eq!(encode_check(&p, 11), None);
    let input = b"hello world";
    let (frames, m) = encode_bytes_to_frames(input, "hello.txt", &p).unwrap();
    assert_eq!(m.magic, "SLLV");
    assert_eq!(m.version, 1);
    assert_eq!(m.file_name, "hello.txt");
    assert_eq!(m.total_bytes, 11);
    assert_eq!(m.frames, p.sync_frames + p.calibration_frames + 1);
    assert_eq!(m.frames, 32);
    assert_eq!(frames.len(), 32);
    assert_eq!((m.grid_w, m.grid_h, m.cell_px), (64, 64, 2));
    assert_eq!(m.palette, "basic8");
    // 64 * 64 * 3 / 8 - 52 = 1484, below the chunk size of the profile
    assert_eq!(m.chunk_bytes, 1484);
    assert_eq!(
        m.sha256_hex,
        "b94d27b9934d3e08a52e52d7da7dabfac484efe37a5380ee9088f7ace2efcde9"
    );
    let out = decode_frames_to_bytes_with_params(&m, &present(frames), &p).unwrap();
    assert_eq!(out, input.to_vec());
    assert_eq!(sha256_hex(&out), m.sha256_hex);
}

#[test]
fn archive_round_trip_of_an_empty_input() {
    let p = archive_64();
    let (frames, m) = encode_bytes_to_frames(&[], "empty", &p).unwrap();
    assert_eq!(m.total_bytes, 0);
    assert_eq!(m.frames, 31);
    assert_eq!(frames.len(), 31);
    let out = decode_frames_to_bytes_with_params(&m, &present(frames), &p).unwrap();
    assert!(out.is_empty());
}

#[test]
fn frames_come_in_order_sync_calibration_data() {
    let p = small_fec();
    let input = pseudo_random(250, 7);
    let (frames, m) = encode_bytes_to_frames(&input, "f", &p).unwrap();
    // one group of 300 bytes: 5 data frames
    assert_eq!(m.frames, 2 + 1 + 5);
    assert_eq!(frames.len(), 8);
    let white = Palette8::Basic.color(1).unwrap();
    for f in &frames[0..2] {
        assert_eq!(f.width(), 68);
        assert_eq!(f.height(), 68);
        assert_eq!(f.pixel(0, 0), Some(white));
        assert_eq!(f.pixel(33, 40), Some(white));
    }
    let (payloads, m2) = encode_bytes_to_payloads(&input, "f", &p).unwrap();
    assert_eq!(m2.frames, m.frames);
    assert_eq!(m2.sha256_hex, m.sha256_hex);
    for (k, payload) in payloads.iter().enumerate() {
        let want = render_payload_frame(payload, &p).to_raw();
        assert_eq!(frames[3 + k].to_raw(), want);
    }
}

#[test]
fn fec_frame_payload_is_header_shard_zeros() {
    let p = small_fec();
    let input = pseudo_random(250, 9);
    let (payloads, m) = encode_bytes_to_payloads(&input, "f", &p).unwrap();
    // 32 * 32 * 3 / 8 - 52 = 332
    assert_eq!(frame_capacity(&p), 384);
    assert_eq!(m.chunk_bytes, 332);
    assert_eq!(payloads.len(), 5);
    for (k, payload) in payloads.iter().enumerate() {
        assert_eq!(payload.len(), 332);
        let (total, packet) = read_frame_payload(payload);
        assert_eq!(total, Some(250));
        let pk = packet.unwrap();
        assert_eq!(pk.group_index, 0);
        assert_eq!(pk.shard_index as usize, k);
        assert_eq!(pk.shard_bytes.len(), 100);
        assert_eq!(&payload[52..152], &pk.shard_bytes[..]);
        assert!(payload[152..].iter().all(|b| *b == 0));
        assert_eq!(&payload[0..4], &[0, 0, 0, 0]);
        assert_eq!(&payload[4..6], &[k as u8, 0]);
        assert_eq!(&payload[6..8], &[100, 0]);
        assert_eq!(&payload[8..16], &[250, 0, 0, 0, 0, 0, 0, 0]);
        assert_eq!(&payload[48..52], &crc32fast::hash(&payload[0..48]).to_le_bytes());
    }
    assert_eq!(&payloads[0][52..152], &input[0..100]);
    assert_eq!(&payloads[2][52..102], &input[200..250]);
    assert!(payloads[2][102..152].iter().all(|b| *b == 0));
}

#[test]
fn fec_round_trip_through_frames() {
    let p = small_fec();
    let input = pseudo_random(1000, 3);
    let (frames, m) = encode_bytes_to_frames(&input, "f", &p).unwrap();
    // ceil(1000 / 300) groups of 5 shards
    assert_eq!(m.frames, 3 + 4 * 5);
    let out = decode_frames_to_bytes_with_params(&m, &present(frames), &p).unwrap();
    assert_eq!(out, input);
}

#[test]
fn fec_round_trip_with_the_scan_profile() {
    let p = scan_256();
    assert_eq!(encode_check(&p, 200 * 1024), None);
    let fec = p.fec.unwrap();
    let input = pseudo_random(200 * 1024, 0xDEAD_BEEF);
    let (payloads, m) = encode_bytes_to_payloads(&input, "blob", &p).unwrap();
    let groups = (200 * 1024 + 12 * 768 - 1) / (12 * 768);
    assert_eq!(groups, 23);
    assert_eq!(payloads.len(), groups * (fec.data_shards + fec.parity_shards));
    assert_eq!(payloads.len(), 552);
    assert_eq!(m.frames as usize, 30 + 1 + 552);
    assert_eq!(m.total_bytes, 200 * 1024);
    let cap = frame_capacity(&p);
    assert_eq!(cap, 24576);
    assert_eq!(m.chunk_bytes, 24524);
    // every frame goes through its pixels, one frame at a time
    let mut read: Vec<Vec<u8>> = Vec::new();
    for (k, payload) in payloads.iter().enumerate() {
        let img = render_payload_frame(payload, &p);
        assert_eq!(img.width(), (256 + 8) * 6);
        read.push(decode_payload_from_rgb(&img, &m, &p, Palette8::Basic));
        assert_eq!(read[k], padded(payload, cap));
    }
    let out = decode_payloads_to_bytes(&m, &read, &p).unwrap();
    assert_eq!(out, input);
}

#[test]
fn parity_recovers_every_third_frame_lost() {
    let p = scan_256();
    let input = pseudo_random(200 * 1024, 0xDEAD_BEEF);
    let (payloads, m) = encode_bytes_to_payloads(&input, "blob", &p).unwrap();
    let cap = frame_capacity(&p);
    let kept: Vec<Vec<u8>> = payloads
        .iter()
        .enumerate()
        .filter(|(k, _)| k % 3 != 2)
        .map(|(_, b)| padded(b, cap))
        .collect();
    assert_eq!(kept.len(), 368);
    let out = decode_payloads_to_bytes(&m, &kept, &p).unwrap();
    assert_eq!(out, input);
}

#[test]
fn frames_in_any_order_are_recovered() {
    let p = small_fec();
    let input = pseudo_random(1000, 11);
    let (payloads, m) = encode_bytes_to_payloads(&input, "f", &p).unwrap();
    // keep three shards of every group, last frame first, one frame twice
    let mut kept: Vec<Vec<u8>> = payloads
        .iter()
        .enumerate()
        .filter(|(k, _)| k % 5 != 0 && k % 5 != 3)
        .map(|(_, b)| b.clone())
        .collect();
    kept.reverse();
    kept.push(payloads[1].clone());
    let out = decode_payloads_to_bytes(&m, &kept, &p).unwrap();
    assert_eq!(out, input);
}

#[test]
fn unrecoverable_loss_is_a_fec_error() {
    let p = scan_256();
    let input = pseudo_random(200 * 1024, 0xDEAD_BEEF);
    let (payloads, m) = encode_bytes_to_payloads(&input, "blob", &p).unwrap();
    // 13 frames of group 5 are lost: 11 are left, 12 are needed
    let kept: Vec<Vec<u8>> = payloads
        .iter()
        .enumerate()
        .filter(|(k, _)| !(k / 24 == 5 && k % 24 < 13))
        .map(|(_, b)| b.clone())
        .collect();
    match decode_payloads_to_bytes(&m, &kept, &p) {
        Err(RasterError::Fec(text)) => assert_eq!(text, TOO_FEW),
        other => panic!("unexpected result: {:?}", other),
    }
}

#[test]
fn a_whole_group_lost_is_a_fec_error() {
    let p = small_fec();
    let input = pseudo_random(1000, 5);
    let (payloads, m) = encode_bytes_to_payloads(&input, "f", &p).unwrap();
    let kept: Vec<Vec<u8>> =
        payloads.iter().enumerate().filter(|(k, _)| k / 5 != 1).map(|(_, b)| b.clone()).collect();
    match decode_payloads_to_bytes(&m, &kept, &p) {
        Err(RasterError::Fec(text)) => assert_eq!(text, TOO_FEW),
        other => panic!("unexpected result: {:?}", other),
    }
    // and so is the last group
    let kept: Vec<Vec<u8>> = payloads[0..15].to_vec();
    match decode_payloads_to_bytes(&m, &kept, &p) {
        Err(RasterError::Fec(text)) => assert_eq!(text, TOO_FEW),
        other => panic!("unexpected result: {:?}", other),
    }
}

#[test]
fn tampered_archive_frame_is_a_hash_mismatch() {
    let p = archive_64();
    let input = b"hello world";
    let (frames, m) = encode_bytes_to_frames(input, "hello.txt", &p).unwrap();
    let mut frames = frames;
    // the payload of the data frame with its first payload bit flipped
    let data = frames.pop().unwrap();
    let mut payload = decode_payload_from_rgb(&data, &m, &p, Palette8::Basic);
    assert_eq!(&payload[0..11], input);
    payload[0] ^= 0x01;
    frames.push(render_payload_frame(&payload, &p));
    assert!(matches!(
        decode_frames_to_bytes_with_params(&m, &present(frames), &p),
        Err(RasterError::ShaMismatch)
    ));
}

#[test]
fn tampered_fec_frame_is_dropped() {
    let p = small_fec();
    let input = pseudo_random(250, 21);
    let (payloads, m) = encode_bytes_to_payloads(&input, "f", &p).unwrap();
    let mut hurt = payloads.clone();
    hurt[1][60] ^= 0x10;
    let (total, packet) = read_frame_payload(&hurt[1]);
    assert_eq!(total, Some(250));
    assert!(packet.is_none());
    // four shards are left, three are needed
    assert_eq!(decode_payloads_to_bytes(&m, &hurt, &p).unwrap(), input);
    // with two more frames lost the group cannot be recovered
    let few: Vec<Vec<u8>> = vec![hurt[0].clone(), hurt[1].clone(), hurt[2].clone()];
    assert!(matches!(decode_payloads_to_bytes(&m, &few, &p), Err(RasterError::Fec(_))));
}

#[test]
fn changed_header_bytes_never_give_wrong_output() {
    let p = small_fec();
    let input = pseudo_random(250, 33);
    let (payloads, m) = encode_bytes_to_payloads(&input, "f", &p).unwrap();
    for at in 0..52 {
        let mut hurt = payloads.clone();
        hurt[0][at] ^= 0x5A;
        assert!(read_frame_payload(&hurt[0]).1.is_none(), "byte {}", at);
        match decode_payloads_to_bytes(&m, &hurt, &p) {
            Ok(out) => assert_eq!(out, input),
            Err(_) => {},
        }
    }
}

#[test]
fn wrong_manifest_hash_is_refused() {
    let p = small_fec();
    let input = pseudo_random(250, 1);
    let (payloads, mut m) = encode_bytes_to_payloads(&input, "f", &p).unwrap();
    m.sha256_hex = sha256_hex(b"something else");
    assert!(matches!(decode_payloads_to_bytes(&m, &payloads, &p), Err(RasterError::ShaMismatch)));
}

#[test]
fn manifest_of_another_codec_is_refused() {
    let p = archive_64();
    let (frames, m) = encode_bytes_to_frames(b"abc", "a", &p).unwrap();
    let frames = present(frames);
    assert!(m.is_valid());
    let mut other = m.clone();
    other.magic = "SLLW".to_string();
    assert!(!other.is_valid());
    assert!(matches!(
        decode_frames_to_bytes_with_params(&other, &frames, &p),
        Err(RasterError::ManifestInvalid)
    ));
    let mut newer = m.clone();
    newer.version = 2;
    assert!(matches!(
        decode_frames_to_bytes_with_params(&newer, &frames, &p),
        Err(RasterError::ManifestInvalid)
    ));
}

#[test]
fn missing_data_frames_are_passed_over() {
    let p = small_fec();
    let input = pseudo_random(250, 2);
    let (frames, m) = encode_bytes_to_frames(&input, "f", &p).unwrap();
    assert_eq!(frames.len(), 8);
    // the sequence ends one frame early: four shards of five are left
    let mut short = copies(&frames);
    short.pop();
    assert_eq!(decode_frames_to_bytes_with_params(&m, &short, &p).unwrap(), input);
    // a frame in the middle and the last are absent: three are left
    let mut holes = copies(&frames);
    holes[4] = None;
    holes[7] = None;
    assert_eq!(decode_frames_to_bytes_with_params(&m, &holes, &p).unwrap(), input);
    // the first data frame is absent
    let mut headless = copies(&frames);
    headless[3] = None;
    assert_eq!(decode_frames_to_bytes_with_params(&m, &headless, &p).unwrap(), input);
    // with a third frame absent the group cannot be recovered
    holes[5] = None;
    match decode_frames_to_bytes_with_params(&m, &holes, &p) {
        Err(RasterError::Fec(text)) => assert_eq!(text, TOO_FEW),
        other => panic!("unexpected result: {:?}", other),
    }
}

#[test]
fn parity_makes_up_for_lost_frames_of_every_group() {
    let p = small_fec();
    let input = pseudo_random(1000, 17);
    let (frames, m) = encode_bytes_to_frames(&input, "f", &p).unwrap();
    assert_eq!(frames.len(), 3 + 20);
    let given: Vec<Option<FrameImage>> = frames
        .into_iter()
        .enumerate()
        .map(|(i, f)| if i >= 3 && ((i - 3) % 5 == 1 || (i - 3) % 5 == 4) { None } else { Some(f) })
        .collect();
    assert_eq!(given.iter().filter(|f| f.is_none()).count(), 8);
    let out = decode_frames_to_bytes_with_params(&m, &given, &p).unwrap();
    assert_eq!(out.len() as u64, m.total_bytes);
    assert_eq!(sha256_hex(&out), m.sha256_hex);
    assert_eq!(out, input);
}

#[test]
fn a_group_whose_frames_are_all_lost_is_a_fec_error() {
    let p = small_fec();
    let input = pseudo_random(1000, 19);
    let (frames, m) = encode_bytes_to_frames(&input, "f", &p).unwrap();
    let given: Vec<Option<FrameImage>> = frames
        .into_iter()
        .enumerate()
        .map(|(i, f)| if (13..18).contains(&i) { None } else { Some(f) })
        .collect();
    match decode_frames_to_bytes_with_params(&m, &given, &p) {
        Err(RasterError::Fec(text)) => assert_eq!(text, TOO_FEW),
        other => panic!("unexpected result: {:?}", other),
    }
}

#[test]
fn encode_refuses_a_grid_too_small_for_a_header() {
    let mut p = small_fec();
    p.grid_w = 10;
    p.grid_h = 13;
    p.fiducial_size_cells = 2;
    // 130 cells hold 48 bytes
    assert_eq!(encode_check(&p, 3).unwrap(), "frame too small for header");
    match encode_bytes_to_payloads(b"abc", "a", &p) {
        Err(RasterError::Fec(text)) => assert_eq!(text, "frame too small for header"),
        other => panic!("unexpected result: {:?}", other.map(|r| r.0.len())),
    }
    p.fec = None;
    match encode_bytes_to_frames(b"abc", "a", &p) {
        Err(RasterError::Fec(text)) => assert_eq!(text, "frame too small for header"),
        other => panic!("unexpected result: {:?}", other.map(|r| r.0.len())),
    }
}

#[test]
fn encode_refuses_a_shard_too_large_for_a_frame() {
    let mut p = small_fec();
    p.fec = Some(FecParams { data_shards: 3, parity_shards: 2, shard_bytes: 1024 });
    match encode_bytes_to_payloads(b"abc", "a", &p) {
        Err(RasterError::Fec(text)) => {
            assert_eq!(text, "fec shard_bytes 1024 exceeds frame payload capacity 332")
        },
        other => panic!("unexpected result: {:?}", other.map(|r| r.0.len())),
    }
}

#[test]
fn encode_refuses_parameters_that_the_erasure_code_refuses() {
    let mut p = small_fec();
    p.fec = Some(FecParams { data_shards: 0, parity_shards: 2, shard_bytes: 100 });
    match encode_bytes_to_payloads(b"abc", "a", &p) {
        Err(RasterError::Fec(text)) => assert_eq!(text, "invalid params"),
        other => panic!("unexpected result: {:?}", other.map(|r| r.0.len())),
    }
    p.fec = Some(FecParams { data_shards: 3, parity_shards: 0, shard_bytes: 100 });
    match encode_bytes_to_payloads(b"abc", "a", &p) {
        Err(RasterError::Fec(text)) => assert_eq!(
            text,
            "reed-solomon: The number of provided parity shards is smaller than the one in codec"
        ),
        other => panic!("unexpected result: {:?}", other.map(|r| r.0.len())),
    }
}

#[test]
fn encode_refuses_a_shard_that_leaves_no_room_for_the_header() {
    let mut p = small_fec();
    // the payload buffer has 332 bytes: 281 and a header of 52 do not fit
    p.fec = Some(FecParams { data_shards: 3, parity_shards: 2, shard_bytes: 281 });
    match encode_bytes_to_payloads(b"abc", "a", &p) {
        Err(RasterError::Fec(text)) => assert_eq!(
            text,
            "fec shard_bytes 281 and a header exceed frame payload capacity 332"
        ),
        other => panic!("unexpected result: {:?}", other.map(|r| r.0.len())),
    }
    match encode_bytes_to_frames(b"abc", "a", &p) {
        Err(RasterError::Fec(text)) => assert_eq!(
            text,
            "fec shard_bytes 281 and a header exceed frame payload capacity 332"
        ),
        other => panic!("unexpected result: {:?}", other.map(|r| r.0.len())),
    }
    p.fec = Some(FecParams { data_shards: 3, parity_shards: 2, shard_bytes: 280 });
    let (payloads, _) = encode_bytes_to_payloads(b"abc", "a", &p).unwrap();
    assert_eq!(payloads.len(), 5);
    assert_eq!(payloads[0].len(), 332);
    assert_eq!(&payloads[0][52..55], b"abc");
}

#[test]
fn encode_refuses_what_cannot_be_cut_rendered_or_counted() {
    let mut p = small_fec();
    p.fec = None;
    p.chunk_bytes = 0;
    match encode_bytes_to_payloads(b"abc", "a", &p) {
        Err(RasterError::Fec(text)) => assert_eq!(text, "chunk_bytes is zero"),
        other => panic!("unexpected result: {:?}", other.map(|r| r.0.len())),
    }
    p.chunk_bytes = 1;
    p.sync_color_symbol = 8;
    match encode_bytes_to_frames(b"abc", "a", &p) {
        Err(RasterError::Fec(text)) => assert_eq!(text, "frame cannot be rendered"),
        other => panic!("unexpected result: {:?}", other.map(|r| r.0.len())),
    }
    p.sync_color_symbol = 1;
    p.sync_frames = u32::MAX - 2;
    match encode_bytes_to_payloads(b"abc", "a", &p) {
        Err(RasterError::Fec(text)) => assert_eq!(text, "too many frames"),
        other => panic!("unexpected result: {:?}", other.map(|r| r.0.len())),
    }
}

#[test]
fn encode_refuses_a_grid_of_no_cells() {
    let mut p = small_fec();
    p.grid_w = 0;
    match encode_bytes_to_frames(b"abc", "a", &p) {
        Err(RasterError::Fec(text)) => assert_eq!(text, "frame too small for header"),
        other => panic!("unexpected result: {:?}", other.map(|r| r.0.len())),
    }
    let mut p = RasterParams::default();
    p.grid_w = 0;
    p.grid_h = 0;
    match encode_bytes_to_frames(&[], "a", &p) {
        Err(RasterError::Fec(text)) => assert_eq!(text, "frame too small for header"),
        other => panic!("unexpected result: {:?}", other.map(|r| r.0.len())),
    }
}

#[test]
fn archive_input_is_cut_into_chunks() {
    let mut p = archive_64();
    p.chunk_bytes = 100;
    let input = pseudo_random(250, 4);
    let (payloads, m) = encode_bytes_to_payloads(&input, "f", &p).unwrap();
    assert_eq!(m.chunk_bytes, 100);
    assert_eq!(payloads.len(), 3);
    assert_eq!(m.frames, 30 + 1 + 3);
    assert_eq!(&payloads[0][..], &input[0..100]);
    assert_eq!(&payloads[1][..], &input[100..200]);
    assert_eq!(&payloads[2][0..50], &input[200..250]);
    assert_eq!(&payloads[2][50..], &[0u8; 50][..]);
}

#[test]
fn archive_round_trip_of_many_chunks() {
    let mut p = archive_64();
    p.chunk_bytes = 100;
    let input = pseudo_random(250, 4);
    let (payloads, m) = encode_bytes_to_payloads(&input, "f", &p).unwrap();
    let cap = frame_capacity(&p);
    assert_eq!(cap, 1536);
    // each frame gives its 1536 bytes, of which the first 100 are its chunk
    let read: Vec<Vec<u8>> = payloads.iter().map(|b| padded(b, cap)).collect();
    assert_eq!(decode_payloads_to_bytes(&m, &read, &p).unwrap(), input);
    // one chunk alone comes back
    let (one, m1) = encode_bytes_to_payloads(&input[0..100], "f", &p).unwrap();
    let read: Vec<Vec<u8>> = one.iter().map(|b| padded(b, cap)).collect();
    assert_eq!(decode_payloads_to_bytes(&m1, &read, &p).unwrap(), input[0..100].to_vec());
    // and through the frames
    let (frames, m) = encode_bytes_to_frames(&input, "f", &p).unwrap();
    assert_eq!(frames.len(), 30 + 1 + 3);
    let out = decode_frames_to_bytes_with_params(&m, &present(frames), &p).unwrap();
    assert_eq!(out.len(), 250);
    assert_eq!(out, input);
}

#[test]
fn archive_round_trip_of_the_profile_chunks() {
    let p = archive_64();
    // 1484 bytes go into one frame: 4000 bytes take three
    let input = pseudo_random(4000, 12);
    let (frames, m) = encode_bytes_to_frames(&input, "f", &p).unwrap();
    assert_eq!(m.frames, 30 + 1 + 3);
    assert_eq!(decode_frames_to_bytes_with_params(&m, &present(frames), &p).unwrap(), input);
}

#[test]
fn a_lost_archive_frame_is_a_hash_mismatch() {
    let mut p = archive_64();
    p.chunk_bytes = 100;
    let input = pseudo_random(250, 4);
    let (frames, m) = encode_bytes_to_frames(&input, "f", &p).unwrap();
    let mut given = present(frames);
    given[32] = None;
    assert!(matches!(
        decode_frames_to_bytes_with_params(&m, &given, &p),
        Err(RasterError::ShaMismatch)
    ));
}

#[test]
fn default_parameters_round_trip() {
    let p = RasterParams::default();
    assert_eq!(p.grid_w, 256);
    assert_eq!(p.cell_px, 2);
    assert_eq!(p.chunk_bytes, 24 * 1024);
    assert_eq!(p.sync_frames, 30);
    assert_eq!(p.sync_color_symbol, 1);
    assert_eq!(p.calibration_frames, 1);
    assert_eq!(p.border_cells, 2);
    assert_eq!(p.fiducial_size_cells, 12);
    assert!(p.deskew);
    let fec = p.fec.unwrap();
    assert_eq!((fec.data_shards, fec.parity_shards, fec.shard_bytes), (20, 10, 1024));
    let input = pseudo_random(5000, 8);
    let (frames, m) = encode_bytes_to_frames(&input, "f", &p).unwrap();
    assert_eq!(m.frames, 30 + 1 + 30);
    assert_eq!(decode_frames_to_bytes(&m, &present(frames)).unwrap(), input);
}

#[test]
fn output_of_another_length_than_the_manifest_names_is_refused() {
    let p = small_fec();
    let input = pseudo_random(250, 6);
    let (payloads, mut m) = encode_bytes_to_payloads(&input, "f", &p).unwrap();
    assert_eq!(decode_payloads_to_bytes(&m, &payloads, &p).unwrap(), input);
    // the headers name 250 bytes, the manifest 3
    m.total_bytes = 3;
    assert!(matches!(decode_payloads_to_bytes(&m, &payloads, &p), Err(RasterError::ShaMismatch)));
    // with no frame at all the manifest's length is used
    let empty = encode_bytes_to_payloads(&[], "f", &p).unwrap();
    assert_eq!(decode_payloads_to_bytes(&empty.1, &empty.0, &p).unwrap(), Vec::<u8>::new());
    // and what it asks for must be there
    let mut m = empty.1;
    m.total_bytes = 1;
    match decode_payloads_to_bytes(&m, &empty.0, &p) {
        Err(RasterError::Fec(text)) => assert_eq!(text, TOO_FEW),
        other => panic!("unexpected result: {:?}", other),
    }
    // without an erasure code too
    let a = archive_64();
    let (payloads, mut m) = encode_bytes_to_payloads(b"hello world", "f", &a).unwrap();
    m.total_bytes = 2000;
    assert!(matches!(decode_payloads_to_bytes(&m, &payloads, &a), Err(RasterError::ShaMismatch)));
}

#[test]
fn solid_data_frames_do_not_move_the_data_start() {
    let p = archive_64();
    // a data frame of zeros shows one symbol, as a sync frame does
    let input = vec![0u8; 40];
    let (frames, m) = encode_bytes_to_frames(&input, "zeros", &p).unwrap();
    assert_eq!(decode_frames_to_bytes_with_params(&m, &present(frames), &p).unwrap(), input);
}

#[test]
fn a_first_chunk_of_one_symbol_is_taken_for_a_sync_frame() {
    let mut p = archive_64();
    p.chunk_bytes = 100;
    let mut input = vec![0u8; 100];
    input.extend(pseudo_random(150, 13));
    let (frames, m) = encode_bytes_to_frames(&input, "f", &p).unwrap();
    assert_eq!(frames.len(), 30 + 1 + 3);
    // the decoder goes on to the next frame that is no sync frame, and the
    // first chunk is not read: the bytes are refused, not returned
    assert!(matches!(
        decode_frames_to_bytes_with_params(&m, &present(frames), &p),
        Err(RasterError::ShaMismatch)
    ));
    // with sync frames up to the scan limit the counts of the parameters hold
    p.sync_frames = 300;
    let (frames, m) = encode_bytes_to_frames(&input, "f", &p).unwrap();
    assert_eq!(decode_frames_to_bytes_with_params(&m, &present(frames), &p).unwrap(), input);
}

#[test]
fn a_sequence_without_data_frames_is_refused() {
    let p = archive_64();
    let (_, m) = encode_bytes_to_frames(&[0u8; 40], "zeros", &p).unwrap();
    // one sync frame only: the data frames would start at 31
    let frames: Vec<Option<FrameImage>> = vec![Some(render_solid_frame(&p, 1))];
    let short = EncodeManifest { frames: 1, ..m.clone() };
    assert!(matches!(
        decode_frames_to_bytes_with_params(&short, &frames, &p),
        Err(RasterError::ShaMismatch)
    ));
    // the manifest counts frames that are not there: they are passed over,
    // and nothing is left of the 40 bytes
    assert!(matches!(
        decode_frames_to_bytes_with_params(&m, &frames, &p),
        Err(RasterError::ShaMismatch)
    ));
    assert!(matches!(
        decode_frames_to_bytes_with_params(&m, &Vec::new(), &p),
        Err(RasterError::ShaMismatch)
    ));
}

#[test]
fn encode_check_counts_the_frames() {
    let p = small_fec();
    assert_eq!(encode_check(&p, 0), None);
    assert_eq!(encode_check(&p, 1_000_000), None);
    let mut many = small_fec();
    many.sync_frames = u32::MAX - 5;
    // 2^32 - 6 sync frames, 1 calibration frame: room for 4 data frames only
    assert_eq!(encode_check(&many, 0), None);
    assert_eq!(encode_check(&many, 1).unwrap(), "too many frames");
    many.fec = None;
    assert_eq!(encode_check(&many, 4 * 332), None);
    assert_eq!(encode_check(&many, 4 * 332 + 1).unwrap(), "too many frames");
    // what the erasure code refuses is named before the count
    let mut refused = small_fec();
    refused.sync_frames = u32::MAX;
    refused.fec = Some(FecParams { data_shards: 0, parity_shards: 2, shard_bytes: 100 });
    assert_eq!(encode_check(&refused, 10).unwrap(), "invalid params");
    match encode_bytes_to_payloads(b"abc", "a", &refused) {
        Err(RasterError::Fec(text)) => assert_eq!(text, "invalid params"),
        other => panic!("unexpected result: {:?}", other.map(|r| r.0.len())),
    }
}
