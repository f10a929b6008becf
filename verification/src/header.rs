//! The shard header that opens every payload frame: 52 bytes, little-endian.
//!
//! | bytes  | field              |
//! |--------|--------------------|
//! | 0..4   | `group_index`      |
//! | 4..6   | `shard_index`      |
//! | 6..8   | `shard_len`        |
//! | 8..16  | `orig_total_bytes` |
//! | 16..48 | `shard_sha256`     |
//! | 48..52 | `header_crc32`     |
//!
//! The CRC-32 covers bytes 0..48.

use crate::digest::{crc32, crc32_hash};
use vstd::prelude::*;

verus! {

/// Coordinates and checksums of one shard.
#[derive(Clone, Copy, Debug)]
pub struct ShardHeader {
    pub group_index: u32,
    pub shard_index: u16,
    pub shard_len: u16,
    pub orig_total_bytes: u64,
    pub shard_sha256: [u8; 32],
    pub header_crc32: u32,
}

/// Byte `k` of `x`, counted from the least significant.
pub open spec fn byte_of(x: u64, k: u64) -> u8 {
    ((x >> (8 * k)) & 0xff) as u8
}

/// The `n` little-endian bytes of `x`.
pub open spec fn le_bytes(x: u64, n: nat) -> Seq<u8> {
    Seq::new(n, |k: int| byte_of(x, k as u64))
}

/// The value whose little-endian bytes are the first `n` of `b`, for `n` up
/// to 8.
pub open spec fn le_value(b: Seq<u8>, n: nat) -> u64
    decreases n,
{
    if n == 0 {
        0
    } else {
        le_value(b, (n - 1) as nat) | ((b[n - 1] as u64) << (8 * (n - 1)) as u64)
    }
}

/// The 48 bytes of the fields that the CRC-32 of a header covers.
pub open spec fn body_of(
    group_index: u32,
    shard_index: u16,
    shard_len: u16,
    orig_total_bytes: u64,
    shard_sha256: Seq<u8>,
) -> Seq<u8> {
    le_bytes(group_index as u64, 4) + le_bytes(shard_index as u64, 2) + le_bytes(
        shard_len as u64,
        2,
    ) + le_bytes(orig_total_bytes, 8) + shard_sha256
}

/// The 48 bytes that the CRC-32 of a header covers.
pub open spec fn header_body(h: ShardHeader) -> Seq<u8> {
    body_of(h.group_index, h.shard_index, h.shard_len, h.orig_total_bytes, h.shard_sha256@)
}

/// The 52 bytes of a header.
pub open spec fn header_bytes(h: ShardHeader) -> Seq<u8> {
    header_body(h) + le_bytes(h.header_crc32 as u64, 4)
}

/// The 52 bytes of the header of a shard, its CRC-32 field holding the
/// CRC-32 of the 48 bytes before it.
pub open spec fn sealed_bytes(
    group_index: u32,
    shard_index: u16,
    shard_len: u16,
    orig_total_bytes: u64,
    shard_sha256: Seq<u8>,
) -> Seq<u8> {
    let body = body_of(group_index, shard_index, shard_len, orig_total_bytes, shard_sha256);
    body + le_bytes(crc32(body) as u64, 4)
}

/// The fields that the first 52 bytes of `b` hold.
pub open spec fn header_fields_match(h: ShardHeader, b: Seq<u8>) -> bool {
    &&& h.group_index == le_value(b.subrange(0, 4), 4)
    &&& h.shard_index == le_value(b.subrange(4, 6), 2)
    &&& h.shard_len == le_value(b.subrange(6, 8), 2)
    &&& h.orig_total_bytes == le_value(b.subrange(8, 16), 8)
    &&& h.shard_sha256@ == b.subrange(16, 48)
    &&& h.header_crc32 == le_value(b.subrange(48, 52), 4)
}

/// The CRC-32 stored in a header is that of its body.
pub open spec fn header_sealed(h: ShardHeader) -> bool {
    h.header_crc32 == crc32(header_body(h))
}

proof fn lemma_le_u16(x: u16)
    by (bit_vector)
    ensures
        (byte_of(x as u64, 0) as u64) | ((byte_of(x as u64, 1) as u64) << 8) == x as u64,
        byte_of(x as u64, 0) == (x & 0xff) as u8,
        byte_of(x as u64, 1) == ((x >> 8) & 0xff) as u8,
        (x & 0xff) < 256,
        ((x >> 8) & 0xff) < 256,
{
}

proof fn lemma_le_u32(x: u32)
    by (bit_vector)
    ensures
        (byte_of(x as u64, 0) as u64) | ((byte_of(x as u64, 1) as u64) << 8) | ((byte_of(
            x as u64,
            2,
        ) as u64) << 16) | ((byte_of(x as u64, 3) as u64) << 24) == x as u64,
        byte_of(x as u64, 0) == (x & 0xff) as u8,
        byte_of(x as u64, 1) == ((x >> 8) & 0xff) as u8,
        byte_of(x as u64, 2) == ((x >> 16) & 0xff) as u8,
        byte_of(x as u64, 3) == ((x >> 24) & 0xff) as u8,
        (x & 0xff) < 256,
        ((x >> 8) & 0xff) < 256,
        ((x >> 16) & 0xff) < 256,
        ((x >> 24) & 0xff) < 256,
{
}

proof fn lemma_le_u64(x: u64)
    by (bit_vector)
    ensures
        (byte_of(x, 0) as u64) | ((byte_of(x, 1) as u64) << 8) | ((byte_of(x, 2) as u64) << 16) | ((
        byte_of(x, 3) as u64) << 24) | ((byte_of(x, 4) as u64) << 32) | ((byte_of(x, 5) as u64)
            << 40) | ((byte_of(x, 6) as u64) << 48) | ((byte_of(x, 7) as u64) << 56) == x,
        (x & 0xff) < 256,
        ((x >> 8) & 0xff) < 256,
        ((x >> 16) & 0xff) < 256,
        ((x >> 24) & 0xff) < 256,
        ((x >> 32) & 0xff) < 256,
        ((x >> 40) & 0xff) < 256,
        ((x >> 48) & 0xff) < 256,
        ((x >> 56) & 0xff) < 256,
{
}

proof fn lemma_le_fits(b0: u8, b1: u8, b2: u8, b3: u8)
    by (bit_vector)
    ensures
        (b0 as u64) | ((b1 as u64) << 8) < 0x1_0000,
        (b0 as u64) | ((b1 as u64) << 8) | ((b2 as u64) << 16) | ((b3 as u64) << 24)
            < 0x1_0000_0000,
        (b0 as u64) | ((b1 as u64) << 8) == ((b0 as u16) | ((b1 as u16) << 8)) as u64,
        (b0 as u64) | ((b1 as u64) << 8) | ((b2 as u64) << 16) | ((b3 as u64) << 24) == ((b0 as u32)
            | ((b1 as u32) << 8) | ((b2 as u32) << 16) | ((b3 as u32) << 24)) as u64,
{
}

/// The two bytes of a 16-bit value that is not 0 are not both 0, and the
/// bytes of 0 are 0.
pub proof fn lemma_nonzero_u16(x: u16)
    by (bit_vector)
    ensures
        x != 0 ==> byte_of(x as u64, 0) != 0 || byte_of(x as u64, 1) != 0,
        byte_of(0, 0) == 0,
{
}

/// `le_value` written out for the widths a header uses.
pub proof fn lemma_le_value_unfold(b: Seq<u8>)
    ensures
        le_value(b, 2) == (b[0] as u64) | ((b[1] as u64) << 8),
        le_value(b, 4) == (b[0] as u64) | ((b[1] as u64) << 8) | ((b[2] as u64) << 16) | ((
        b[3] as u64) << 24),
        le_value(b, 8) == (b[0] as u64) | ((b[1] as u64) << 8) | ((b[2] as u64) << 16) | ((
        b[3] as u64) << 24) | ((b[4] as u64) << 32) | ((b[5] as u64) << 40) | ((b[6] as u64) << 48)
            | ((b[7] as u64) << 56),
{
    reveal_with_fuel(le_value, 9);
    assert(forall|x: u64| 0u64 | x == x) by (bit_vector);
    assert(forall|x: u64| #[trigger] (x << 0u64) == x) by (bit_vector);
}

/// Decoding the little-endian bytes of a value gives the value back.
pub proof fn lemma_le_round_trip(x: u64, n: nat)
    requires
        n == 2 && x < 0x1_0000 || n == 4 && x < 0x1_0000_0000 || n == 8,
    ensures
        le_value(le_bytes(x, n), n) == x,
        le_bytes(x, n).len() == n,
{
    let b = le_bytes(x, n);
    lemma_le_value_unfold(b);
    if n == 2 {
        lemma_le_u16(x as u16);
    } else if n == 4 {
        lemma_le_u32(x as u32);
    } else {
        lemma_le_u64(x);
    }
}

/// A serialized header is 52 bytes long and parses to the header it was made
/// from.
pub proof fn lemma_header_round_trip(h: ShardHeader)
    ensures
        header_bytes(h).len() == 52,
        header_body(h).len() == 48,
        header_bytes(h).subrange(0, 48) == header_body(h),
        header_fields_match(h, header_bytes(h)),
{
    let b = header_bytes(h);
    lemma_le_round_trip(h.group_index as u64, 4);
    lemma_le_round_trip(h.shard_index as u64, 2);
    lemma_le_round_trip(h.shard_len as u64, 2);
    lemma_le_round_trip(h.orig_total_bytes, 8);
    lemma_le_round_trip(h.header_crc32 as u64, 4);
    assert(b.subrange(0, 4) =~= le_bytes(h.group_index as u64, 4));
    assert(b.subrange(4, 6) =~= le_bytes(h.shard_index as u64, 2));
    assert(b.subrange(6, 8) =~= le_bytes(h.shard_len as u64, 2));
    assert(b.subrange(8, 16) =~= le_bytes(h.orig_total_bytes, 8));
    assert(b.subrange(16, 48) =~= h.shard_sha256@);
    assert(b.subrange(48, 52) =~= le_bytes(h.header_crc32 as u64, 4));
    assert(b.subrange(0, 48) =~= header_body(h));
}

impl ShardHeader {
    /// Length of a serialized header.
    pub const BYTES: usize = 52;

    /// The header with its CRC-32 field set to the CRC-32 of its body.
    pub fn with_crc(self) -> (h: ShardHeader)
        ensures
            h == (ShardHeader { header_crc32: crc32(header_body(self)), ..self }),
            header_sealed(h),
    {
        let body = self.to_bytes_no_crc();
        let mut h = self;
        h.header_crc32 = crc32_hash(body.as_slice());
        h
    }

    /// The 48 bytes before the CRC-32 field.
    pub fn to_bytes_no_crc(&self) -> (out: [u8; 48])
        ensures
            out@ == header_body(*self),
    {
        let mut out = [0u8; 48];
        let g = self.group_index;
        let si = self.shard_index;
        let sl = self.shard_len;
        let ot = self.orig_total_bytes;
        proof {
            lemma_le_u32(g);
            lemma_le_u16(si);
            lemma_le_u16(sl);
            lemma_le_u64(ot);
        }
        out[0] = (g & 0xff) as u8;
        out[1] = ((g >> 8) & 0xff) as u8;
        out[2] = ((g >> 16) & 0xff) as u8;
        out[3] = ((g >> 24) & 0xff) as u8;
        out[4] = (si & 0xff) as u8;
        out[5] = ((si >> 8) & 0xff) as u8;
        out[6] = (sl & 0xff) as u8;
        out[7] = ((sl >> 8) & 0xff) as u8;
        out[8] = (ot & 0xff) as u8;
        out[9] = ((ot >> 8) & 0xff) as u8;
        out[10] = ((ot >> 16) & 0xff) as u8;
        out[11] = ((ot >> 24) & 0xff) as u8;
        out[12] = ((ot >> 32) & 0xff) as u8;
        out[13] = ((ot >> 40) & 0xff) as u8;
        out[14] = ((ot >> 48) & 0xff) as u8;
        out[15] = ((ot >> 56) & 0xff) as u8;
        let ghost head = out@.subrange(0, 16);
        let mut i: usize = 0;
        while i < 32
            invariant
                0 <= i <= 32,
                out@.subrange(0, 16) == head,
                forall|k: int| 0 <= k < i ==> out@[16 + k] == self.shard_sha256@[k],
            decreases 32 - i,
        {
            out[16 + i] = self.shard_sha256[i];
            assert(out@.subrange(0, 16) =~= head);
            i = i + 1;
        }
        assert(out@ =~= header_body(*self)) by {
            assert(forall|x: u64| #[trigger] (x >> 0u64) == x) by (bit_vector);
            assert forall|k: int| 0 <= k < 16 implies out@[k] == header_body(*self)[k] by {
                assert(out@[k] == head[k]);
            }
        }
        out
    }

    /// The 52 bytes of the header, CRC-32 field last.
    pub fn to_bytes(&self) -> (out: [u8; 52])
        ensures
            out@ == header_bytes(*self),
    {
        let body = self.to_bytes_no_crc();
        let mut out = [0u8; 52];
        let mut i: usize = 0;
        while i < 48
            invariant
                0 <= i <= 48,
                forall|k: int| 0 <= k < i ==> out@[k] == body@[k],
            decreases 48 - i,
        {
            out[i] = body[i];
            i = i + 1;
        }
        let c = self.header_crc32;
        proof {
            lemma_le_u32(c);
        }
        out[48] = (c & 0xff) as u8;
        out[49] = ((c >> 8) & 0xff) as u8;
        out[50] = ((c >> 16) & 0xff) as u8;
        out[51] = ((c >> 24) & 0xff) as u8;
        assert(out@ =~= header_bytes(*self)) by {
            assert(forall|x: u64| #[trigger] (x >> 0u64) == x) by (bit_vector);
        }
        out
    }

    /// Parses the first 52 bytes of `b`. No field is checked here: see
    /// `crc_ok`.
    pub fn from_bytes(b: &[u8]) -> (h: ShardHeader)
        requires
            b@.len() >= 52,
        ensures
            header_fields_match(h, b@),
    {
        proof {
            lemma_le_value_unfold(b@.subrange(0, 4));
            lemma_le_value_unfold(b@.subrange(4, 6));
            lemma_le_value_unfold(b@.subrange(6, 8));
            lemma_le_value_unfold(b@.subrange(8, 16));
            lemma_le_value_unfold(b@.subrange(48, 52));
            lemma_le_fits(b@[0], b@[1], b@[2], b@[3]);
            lemma_le_fits(b@[4], b@[5], 0, 0);
            lemma_le_fits(b@[6], b@[7], 0, 0);
            lemma_le_fits(b@[48], b@[49], b@[50], b@[51]);
        }
        let group_index: u32 = (b[0] as u32) | ((b[1] as u32) << 8) | ((b[2] as u32) << 16) | ((
        b[3] as u32) << 24);
        let shard_index: u16 = (b[4] as u16) | ((b[5] as u16) << 8);
        let shard_len: u16 = (b[6] as u16) | ((b[7] as u16) << 8);
        let orig_total_bytes: u64 = (b[8] as u64) | ((b[9] as u64) << 8) | ((b[10] as u64) << 16)
            | ((b[11] as u64) << 24) | ((b[12] as u64) << 32) | ((b[13] as u64) << 40) | ((
        b[14] as u64) << 48) | ((b[15] as u64) << 56);
        let header_crc32: u32 = (b[48] as u32) | ((b[49] as u32) << 8) | ((b[50] as u32) << 16) | ((
        b[51] as u32) << 24);
        let mut sha = [0u8; 32];
        let mut i: usize = 0;
        while i < 32
            invariant
                0 <= i <= 32,
                b@.len() >= 52,
                forall|k: int| 0 <= k < i ==> sha@[k] == b@[16 + k],
            decreases 32 - i,
        {
            sha[i] = b[16 + i];
            i = i + 1;
        }
        assert(sha@ =~= b@.subrange(16, 48));
        ShardHeader {
            group_index,
            shard_index,
            shard_len,
            orig_total_bytes,
            shard_sha256: sha,
            header_crc32,
        }
    }

    /// Whether `raw` is long enough to hold a header and the CRC-32 of its
    /// first 48 bytes is the one this header stores.
    pub fn crc_ok(&self, raw: &[u8]) -> (ok: bool)
        ensures
            ok == (raw@.len() >= 52 && crc32(raw@.subrange(0, 48)) == self.header_crc32),
    {
        if raw.len() < 52 {
            return false;
        }
        let body = vstd::slice::slice_subrange(raw, 0, 48);
        let calc = crc32_hash(body);
        calc == self.header_crc32
    }
}

} // verus!
