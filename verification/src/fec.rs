//! Erasure coding: the input is cut into groups of data shards, each group
//! gets Reed-Solomon parity shards over GF(256), and every shard travels with
//! its SHA-256.

use crate::digest::{same_bytes, sha256, sha256_digest};
use crate::text::join;
use reed_solomon_erasure::Error as RsError;
use std::collections::BTreeMap;
use vstd::prelude::*;

verus! {

/// `reed_solomon_erasure::Error`, the error of the codec. It is declared
/// with its variants, none of which carries data, so that contracts can say
/// which error the codec gives.
#[verifier::external_type_specification]
pub struct ExRsError(reed_solomon_erasure::Error);

/// Shape of the erasure code.
#[derive(Debug, Clone, Copy)]
pub struct FecParams {
    /// Number of data shards per group.
    pub data_shards: usize,
    /// Number of parity shards per group.
    pub parity_shards: usize,
    /// Size of each shard in bytes.
    pub shard_bytes: usize,
}

impl Default for FecParams {
    fn default() -> (p: FecParams)
        ensures
            p == (FecParams { data_shards: 20, parity_shards: 10, shard_bytes: 1024 }),
    {
        FecParams { data_shards: 20, parity_shards: 10, shard_bytes: 1024 }
    }
}

/// Why a stream could not be encoded or decoded.
#[derive(Debug)]
pub enum FecError {
    /// The Reed-Solomon codec refused; the text is the codec's own.
    Rs(String),
    /// No data shards, or shards of no bytes.
    InvalidParams,
}

/// The text of an error.
pub open spec fn fec_error_text(e: FecError) -> Seq<char> {
    match e {
        FecError::Rs(msg) => "reed-solomon: "@ + msg@,
        FecError::InvalidParams => "invalid params"@,
    }
}

impl FecError {
    /// The text of the error.
    pub fn message(&self) -> (text: String)
        ensures
            text@ == fec_error_text(*self),
    {
        match self {
            FecError::Rs(msg) => join("reed-solomon: ", msg.as_str()),
            FecError::InvalidParams => "invalid params".to_owned(),
        }
    }
}

/// One shard with its place in the stream and its SHA-256.
#[derive(Debug, Clone)]
pub struct ShardPacket {
    pub group_index: u32,
    pub shard_index: u16,
    pub shard_bytes: Vec<u8>,
    pub shard_sha256: [u8; 32],
}

/// What a packet holds, with its bytes as sequences.
pub struct PacketView {
    pub group_index: u32,
    pub shard_index: u16,
    pub shard_bytes: Seq<u8>,
    pub shard_sha256: Seq<u8>,
}

impl View for ShardPacket {
    type V = PacketView;

    open spec fn view(&self) -> PacketView {
        PacketView {
            group_index: self.group_index,
            shard_index: self.shard_index,
            shard_bytes: self.shard_bytes@,
            shard_sha256: self.shard_sha256@,
        }
    }
}

/// What a list of packets holds.
pub open spec fn packet_views(packets: Seq<ShardPacket>) -> Seq<PacketView> {
    Seq::new(packets.len(), |i: int| packets[i]@)
}

/// A Reed-Solomon codec over GF(256), held in a
/// `reed_solomon_erasure::galois_8::ReedSolomon`. The verifier sees nothing
/// inside it: the type of the codec is bound by a trait of its crate and
/// cannot be declared by itself.
#[verifier::external_body]
pub struct Codec {
    rs: reed_solomon_erasure::galois_8::ReedSolomon,
}

/// Number of data shards a codec was made for.
pub uninterp spec fn codec_data_shards(c: Codec) -> nat;

/// Number of parity shards a codec was made for.
pub uninterp spec fn codec_parity_shards(c: Codec) -> nat;

/// The parity shards that the codec computes for `data`, one group's data
/// shards, when it was made for `parity_shards` parity shards.
pub uninterp spec fn rs_parity(data: Seq<Seq<u8>>, parity_shards: nat) -> Seq<Seq<u8>>;

/// The text the codec gives for one of its errors.
pub uninterp spec fn rs_error_message(e: RsError) -> Seq<char>;

/// The byte strings held by a list of shards.
pub open spec fn shard_views(shards: Seq<Vec<u8>>) -> Seq<Seq<u8>> {
    Seq::new(shards.len(), |i: int| shards[i]@)
}

/// All of `shards` are `len` bytes long.
pub open spec fn shards_have_len(shards: Seq<Seq<u8>>, len: int) -> bool {
    forall|i: int| 0 <= i < shards.len() ==> (#[trigger] shards[i]).len() == len
}

/// Calls `ReedSolomon::new`. Trusted, from its source: it fails with
/// `TooFewDataShards`, `TooFewParityShards` or `TooManyShards` (more than 256
/// shards in all), tested in that order, and else gives a codec for the two
/// counts.
#[verifier::external_body]
pub(crate) fn rs_new(data_shards: usize, parity_shards: usize) -> (r: Result<Codec, RsError>)
    requires
        data_shards + parity_shards <= usize::MAX,
    ensures
        data_shards == 0 ==> r is Err && r->Err_0 == RsError::TooFewDataShards,
        data_shards != 0 && parity_shards == 0 ==> r is Err && r->Err_0
            == RsError::TooFewParityShards,
        data_shards != 0 && parity_shards != 0 && data_shards + parity_shards > 256 ==> r is Err
            && r->Err_0 == RsError::TooManyShards,
        data_shards != 0 && parity_shards != 0 && data_shards + parity_shards <= 256 ==> r is Ok
            && codec_data_shards(r->Ok_0) == data_shards && codec_parity_shards(r->Ok_0)
            == parity_shards,
{
    match reed_solomon_erasure::galois_8::ReedSolomon::new(data_shards, parity_shards) {
        Ok(rs) => Ok(Codec { rs }),
        Err(e) => Err(e),
    }
}

/// Calls `ReedSolomon::encode` on a whole group: the data shards first, then
/// one buffer for each parity shard. Trusted, from its source: given the
/// right number of shards, all of one length that is not 0, it succeeds,
/// leaves the data shards as they are and overwrites the parity buffers. What
/// it writes there is named `rs_parity` of the data shards.
#[verifier::external_body]
pub(crate) fn rs_encode(codec: &Codec, shards: &mut Vec<Vec<u8>>) -> (r: Result<(), RsError>)
    requires
        old(shards)@.len() == codec_data_shards(*codec) + codec_parity_shards(*codec),
        old(shards)@.len() > 0,
        old(shards)@[0]@.len() > 0,
        shards_have_len(shard_views(old(shards)@), old(shards)@[0]@.len() as int),
    ensures
        r is Ok,
        final(shards)@.len() == old(shards)@.len(),
        shards_have_len(shard_views(final(shards)@), old(shards)@[0]@.len() as int),
        shard_views(final(shards)@) == shard_views(old(shards)@).take(
            codec_data_shards(*codec) as int,
        ) + rs_parity(
            shard_views(old(shards)@).take(codec_data_shards(*codec) as int),
            codec_parity_shards(*codec),
        ),
{
    codec.rs.encode(shards)
}

/// Calls the `Display` of the codec's error type. Trusted: the text returned
/// is named `rs_error_message` of the error; nothing else is claimed of it.
#[verifier::external_body]
pub(crate) fn rs_error_text(e: &RsError) -> (s: String)
    ensures
        s@ == rs_error_message(*e),
{
    e.to_string()
}

/// What `ReedSolomon::reconstruct` leaves in the slots of one group when it
/// succeeds, given the codec's two counts and what the slots held.
pub uninterp spec fn rs_reconstructed(
    data_shards: nat,
    parity_shards: nat,
    slots: Seq<Option<Seq<u8>>>,
) -> Seq<Seq<u8>>;

/// The byte strings held by the slots of a group, `None` for an empty slot.
pub open spec fn slot_views(slots: Seq<Option<Vec<u8>>>) -> Seq<Option<Seq<u8>>> {
    Seq::new(
        slots.len(),
        |i: int|
            match slots[i] {
                Some(v) => Some(v@),
                None => None,
            },
    )
}

/// The byte strings held by slots that are all filled.
pub open spec fn filled_views(slots: Seq<Option<Vec<u8>>>) -> Seq<Seq<u8>> {
    Seq::new(
        slots.len(),
        |i: int|
            match slots[i] {
                Some(v) => v@,
                None => Seq::empty(),
            },
    )
}

/// The codec's test of the shards that are present, in slot order from `i`
/// on: an empty shard is `EmptyShard`, a shard whose length differs from that
/// of the present shard before it is `IncorrectShardSize`. `seen` is the
/// length of the last present shard before `i`.
pub open spec fn scan_fault(slots: Seq<Option<Seq<u8>>>, i: int, seen: Option<nat>) -> Option<
    RsError,
>
    decreases slots.len() - i,
{
    if i < 0 || i >= slots.len() {
        None
    } else {
        match slots[i] {
            None => scan_fault(slots, i + 1, seen),
            Some(s) => if s.len() == 0 {
                Some(RsError::EmptyShard)
            } else if seen is Some && seen->Some_0 != s.len() {
                Some(RsError::IncorrectShardSize)
            } else {
                scan_fault(slots, i + 1, Some(s.len()))
            },
        }
    }
}

/// Number of filled slots among the first `n`.
pub open spec fn present_count(slots: Seq<Option<Seq<u8>>>, n: int) -> int
    decreases n,
{
    if n <= 0 {
        0
    } else {
        present_count(slots, n - 1) + if slots[n - 1] is Some {
            1int
        } else {
            0int
        }
    }
}

/// Whether the codec reconstructs a group from what its slots hold: the
/// present shards must pass `scan_fault`, and at least `data_shards` of them
/// must be there.
pub open spec fn reconstruct_verdict(data_shards: int, slots: Seq<Option<Seq<u8>>>) -> Result<
    (),
    RsError,
> {
    match scan_fault(slots, 0, None) {
        Some(e) => Err(e),
        None => if present_count(slots, slots.len() as int) < data_shards {
            Err(RsError::TooFewShardsPresent)
        } else {
            Ok(())
        },
    }
}

/// Every filled slot holds the shard at its place in `shards`.
pub open spec fn agrees(slots: Seq<Option<Seq<u8>>>, shards: Seq<Seq<u8>>) -> bool {
    forall|i: int|
        0 <= i < slots.len() && (#[trigger] slots[i]) is Some ==> slots[i]->Some_0 == shards[i]
}

/// `result` is the one group of shards that `slots` can have come from: for
/// any data shards of one length whose data and parity shards the filled
/// slots hold, `result` is those data and parity shards.
pub open spec fn restores_codewords(
    data_shards: nat,
    parity_shards: nat,
    slots: Seq<Option<Seq<u8>>>,
    result: Seq<Seq<u8>>,
) -> bool {
    forall|data: Seq<Seq<u8>>, len: int|
        #![trigger shards_have_len(data, len)]
        len > 0 && data.len() == data_shards && shards_have_len(data, len) && agrees(
            slots,
            data + rs_parity(data, parity_shards),
        ) ==> result == data + rs_parity(data, parity_shards)
}

/// What a successful reconstruction leaves: every slot filled, the shards
/// that were present unchanged, all shards of one length.
pub open spec fn reconstruction_of(
    after: Seq<Option<Vec<u8>>>,
    before: Seq<Option<Vec<u8>>>,
) -> bool {
    &&& after.len() == before.len()
    &&& forall|i: int| 0 <= i < after.len() ==> (#[trigger] after[i]) is Some
    &&& agrees(slot_views(before), filled_views(after))
    &&& forall|i: int, j: int|
        0 <= i < after.len() && 0 <= j < after.len() ==> (#[trigger] filled_views(after)[i]).len()
            == (#[trigger] filled_views(after)[j]).len()
}

/// Calls `ReedSolomon::reconstruct` on the slots of one group, an empty slot
/// for each missing shard. Trusted, from its source: whether it succeeds is
/// `reconstruct_verdict`; when it fails nothing is touched; when it succeeds
/// every slot is filled, the shards that were present are unchanged, and all
/// shards have one length. What it fills in is named `rs_reconstructed`.
/// Trusted, from the crate's documentation, which says that missing shards
/// can be reconstructed where enough are left, and whose example compares
/// the reconstructed shards with the encoded ones: where the present shards
/// are data and parity shards of one encoded group, the slots hold that group
/// afterwards.
#[verifier::external_body]
pub(crate) fn rs_reconstruct(codec: &Codec, shards: &mut Vec<Option<Vec<u8>>>) -> (r: Result<(), RsError>)
    requires
        old(shards)@.len() == codec_data_shards(*codec) + codec_parity_shards(*codec),
    ensures
        r == reconstruct_verdict(codec_data_shards(*codec) as int, slot_views(old(shards)@)),
        r is Err ==> final(shards)@ == old(shards)@,
        r is Ok ==> reconstruction_of(final(shards)@, old(shards)@),
        r is Ok ==> filled_views(final(shards)@) == rs_reconstructed(
            codec_data_shards(*codec),
            codec_parity_shards(*codec),
            slot_views(old(shards)@),
        ),
        r is Ok ==> restores_codewords(
            codec_data_shards(*codec),
            codec_parity_shards(*codec),
            slot_views(old(shards)@),
            filled_views(final(shards)@),
        ),
{
    codec.rs.reconstruct(shards)
}

/// Byte `j` of the input, continued with zeros past its end.
pub open spec fn padded_at(input: Seq<u8>, j: int) -> u8 {
    if 0 <= j < input.len() {
        input[j]
    } else {
        0
    }
}

/// Data shard number `n` of the input: `shard_bytes` bytes from
/// `n * shard_bytes` on, zero-padded.
pub open spec fn data_shard(input: Seq<u8>, n: int, shard_bytes: int) -> Seq<u8> {
    Seq::new(shard_bytes as nat, |k: int| padded_at(input, n * shard_bytes + k))
}

/// The data shards of group `g`.
pub open spec fn group_data(input: Seq<u8>, g: int, p: FecParams) -> Seq<Seq<u8>> {
    Seq::new(
        p.data_shards as nat,
        |i: int| data_shard(input, g * p.data_shards + i, p.shard_bytes as int),
    )
}

/// All shards of group `g`: its data shards, then their parity shards.
pub open spec fn group_codeword(input: Seq<u8>, g: int, p: FecParams) -> Seq<Seq<u8>> {
    group_data(input, g, p) + rs_parity(group_data(input, g, p), p.parity_shards as nat)
}

/// Input bytes that one group carries.
pub open spec fn group_bytes(p: FecParams) -> int {
    p.data_shards * p.shard_bytes
}

/// Shards in one group.
pub open spec fn total_shards(p: FecParams) -> int {
    p.data_shards + p.parity_shards
}

/// Number of groups that an input of `len` bytes is cut into.
pub open spec fn group_count(len: int, p: FecParams) -> int {
    (len + group_bytes(p) - 1) / group_bytes(p)
}

/// The error with which the codec refuses the counts of `p`, if it does.
pub open spec fn codec_refusal(p: FecParams) -> Option<RsError> {
    if p.data_shards == 0 {
        Some(RsError::TooFewDataShards)
    } else if p.parity_shards == 0 {
        Some(RsError::TooFewParityShards)
    } else if p.data_shards + p.parity_shards > 256 {
        Some(RsError::TooManyShards)
    } else {
        None
    }
}

/// The error with which the codec refuses the counts of `p`, if it does.
pub fn codec_check(p: &FecParams) -> (e: Option<RsError>)
    ensures
        e == codec_refusal(*p),
{
    if p.data_shards == 0 {
        Some(RsError::TooFewDataShards)
    } else if p.parity_shards == 0 {
        Some(RsError::TooFewParityShards)
    } else if p.data_shards > 256 || p.parity_shards > 256 - p.data_shards {
        Some(RsError::TooManyShards)
    } else {
        None
    }
}

/// Parameters with which a stream can be encoded and decoded.
pub open spec fn usable_params(p: FecParams) -> bool {
    &&& p.data_shards >= 1
    &&& p.parity_shards >= 1
    &&& p.data_shards + p.parity_shards <= 256
    &&& p.shard_bytes >= 1
}

/// `pk` is shard `i` of group `g` of the encoded input.
pub open spec fn encoded_packet(pk: PacketView, input: Seq<u8>, p: FecParams, g: int, i: int) -> bool {
    &&& pk.group_index == g % 0x1_0000_0000
    &&& pk.shard_index == i
    &&& pk.shard_bytes == group_codeword(input, g, p)[i]
    &&& pk.shard_bytes.len() == p.shard_bytes
    &&& pk.shard_sha256 == sha256(pk.shard_bytes)
    &&& pk.shard_sha256.len() == 32
}

/// Packet `g * total_shards + i` is shard `i` of group `g`.
pub open spec fn encoded_at(packets: Seq<PacketView>, input: Seq<u8>, p: FecParams, g: int, i: int) -> bool {
    encoded_packet(packets[g * total_shards(p) + i], input, p, g, i)
}

/// `packets` is the encoding of `input`: every group in order, and in each
/// group every shard in order.
pub open spec fn fec_encoded(input: Seq<u8>, p: FecParams, packets: Seq<PacketView>) -> bool {
    &&& packets.len() == group_count(input.len() as int, p) * total_shards(p)
    &&& forall|g: int, i: int|
        0 <= g < group_count(input.len() as int, p) && 0 <= i < total_shards(p)
            ==> #[trigger] encoded_at(packets, input, p, g, i)
}

pub(crate) proof fn lemma_group_count(len: int, gb: int, g: int)
    by (nonlinear_arith)
    requires
        gb > 0,
        len >= 0,
        g >= 0,
        g * gb >= len,
        g > 0 ==> (g - 1) * gb < len,
    ensures
        (len + gb - 1) / gb == g,
{
}

pub(crate) proof fn lemma_mul_step(n: int, s: int)
    by (nonlinear_arith)
    ensures
        (n + 1) * s == n * s + s,
{
}

proof fn lemma_group_bound(d: int, sb: int)
    by (nonlinear_arith)
    requires
        0 <= d <= 256,
        0 <= sb <= 0xffff_ffff_ffff_ffff,
    ensures
        0 <= d * sb <= 256 * 0xffff_ffff_ffff_ffff,
        d >= 1 && sb >= 1 ==> d * sb >= 1,
{
}

/// Copies `shard_bytes` bytes of `input` from `start` on, with zeros where
/// the input has ended.
pub(crate) fn copy_shard(input: &[u8], start: u128, shard_bytes: usize) -> (shard: Vec<u8>)
    requires
        start + shard_bytes <= u128::MAX,
    ensures
        shard@ == Seq::new(shard_bytes as nat, |k: int| padded_at(input@, start + k)),
{
    let mut shard: Vec<u8> = Vec::new();
    let mut k: usize = 0;
    while k < shard_bytes
        invariant
            0 <= k <= shard_bytes,
            start + shard_bytes <= u128::MAX,
            shard@.len() == k,
            forall|j: int| 0 <= j < k ==> shard@[j] == padded_at(input@, start + j),
        decreases shard_bytes - k,
    {
        let at: u128 = start + k as u128;
        let b: u8 = if at < input.len() as u128 {
            input[at as usize]
        } else {
            0
        };
        shard.push(b);
        k = k + 1;
    }
    assert(shard@ =~= Seq::new(shard_bytes as nat, |k: int| padded_at(input@, start + k)));
    shard
}

/// One group's shards: the data shards cut from `input` at `base`, then one
/// zeroed buffer for each parity shard.
fn group_buffers(input: &[u8], base: u128, p: &FecParams, Ghost(g): Ghost<int>) -> (shards: Vec<
    Vec<u8>,
>)
    requires
        usable_params(*p),
        g >= 0,
        base == g * group_bytes(*p),
        base <= 0xffff_ffff_ffff_ffff,
    ensures
        shards@.len() == total_shards(*p),
        shards_have_len(shard_views(shards@), p.shard_bytes as int),
        shard_views(shards@).take(p.data_shards as int) == group_data(input@, g, *p),
{
    let d = p.data_shards;
    let sb = p.shard_bytes;
    let mut shards: Vec<Vec<u8>> = Vec::new();
    let mut i: usize = 0;
    let mut at: u128 = base;
    proof {
        lemma_group_bound(d as int, sb as int);
        assert(g * d * sb == g * (d * sb)) by (nonlinear_arith);
        assert((g * d + 0) * sb == g * d * sb);
    }
    while i < d
        invariant
            0 <= i <= d,
            d == p.data_shards,
            sb == p.shard_bytes,
            usable_params(*p),
            base <= 0xffff_ffff_ffff_ffff,
            at == (g * d + i) * sb,
            at <= base + i * sb,
            i * sb <= 256 * 0xffff_ffff_ffff_ffff,
            shards@.len() == i,
            forall|j: int|
                0 <= j < i ==> (#[trigger] shards@[j])@ == data_shard(
                    input@,
                    g * d + j,
                    sb as int,
                ),
        decreases d - i,
    {
        let shard = copy_shard(input, at, sb);
        shards.push(shard);
        proof {
            lemma_mul_step(g * d + i, sb as int);
            lemma_mul_step(i as int, sb as int);
            lemma_group_bound(i + 1, sb as int);
        }
        at = at + sb as u128;
        i = i + 1;
    }
    let mut j: usize = 0;
    while j < p.parity_shards
        invariant
            0 <= j <= p.parity_shards,
            d == p.data_shards,
            sb == p.shard_bytes,
            shards@.len() == d + j,
            forall|k: int|
                0 <= k < d ==> (#[trigger] shards@[k])@ == data_shard(input@, g * d + k, sb as int),
            forall|k: int| d <= k < d + j ==> (#[trigger] shards@[k])@.len() == sb,
        decreases p.parity_shards - j,
    {
        let buf: Vec<u8> = vec![0u8; sb];
        shards.push(buf);
        j = j + 1;
    }
    assert(shard_views(shards@).take(d as int) =~= group_data(input@, g, *p));
    assert(shards_have_len(shard_views(shards@), sb as int)) by {
        assert forall|k: int| 0 <= k < shards@.len() implies (#[trigger] shard_views(
            shards@,
        )[k]).len() == sb by {
            assert(shard_views(shards@)[k] == shards@[k]@);
        }
    }
    shards
}

/// Cuts `input` into groups of `data_shards` shards of `shard_bytes` bytes,
/// the last group zero-padded, adds `parity_shards` Reed-Solomon parity
/// shards to each group, and returns every shard with its SHA-256: group by
/// group, and within a group by shard index.
pub fn fec_encode_stream(input: &[u8], p: &FecParams) -> (r: Result<Vec<ShardPacket>, FecError>)
    ensures
        match r {
            Ok(packets) => usable_params(*p) && fec_encoded(input@, *p, packet_views(packets@)),
            Err(FecError::InvalidParams) => p.data_shards == 0 || p.shard_bytes == 0,
            Err(FecError::Rs(msg)) => p.data_shards != 0 && p.shard_bytes != 0 && codec_refusal(
                *p,
            ) is Some && msg@ == rs_error_message(codec_refusal(*p)->Some_0),
        },
{
    if p.data_shards == 0 || p.shard_bytes == 0 {
        return Err(FecError::InvalidParams);
    }
    let total: usize = match p.data_shards.checked_add(p.parity_shards) {
        Some(t) => t,
        None => {
            return Err(FecError::Rs(rs_error_text(&RsError::TooManyShards)));
        },
    };
    let codec = match rs_new(p.data_shards, p.parity_shards) {
        Ok(c) => c,
        Err(e) => {
            return Err(FecError::Rs(rs_error_text(&e)));
        },
    };
    let d = p.data_shards;
    let sb = p.shard_bytes;
    proof {
        lemma_group_bound(d as int, sb as int);
    }
    let gb: u128 = (d as u128) * (sb as u128);
    let len: usize = input.len();
    let mut out: Vec<ShardPacket> = Vec::new();
    let mut g: usize = 0;
    let mut base: u128 = 0;
    while base < len as u128
        invariant
            usable_params(*p),
            d == p.data_shards,
            sb == p.shard_bytes,
            total == total_shards(*p),
            gb == group_bytes(*p),
            gb > 0,
            gb <= 256 * 0xffff_ffff_ffff_ffff,
            len == input@.len(),
            codec_data_shards(codec) == d,
            codec_parity_shards(codec) == p.parity_shards,
            base == g * gb,
            g <= len,
            g > 0 ==> (g - 1) * gb < len,
            base <= len + gb,
            out@.len() == g * total,
            forall|h: int, i: int|
                0 <= h < g && 0 <= i < total ==> #[trigger] encoded_at(packet_views(out@), input@, *p, h, i),
        decreases len + gb - base,
    {
        let mut shards = group_buffers(input, base, p, Ghost(g as int));
        assert(shard_views(shards@)[0] == shards@[0]@);
        match rs_encode(&codec, &mut shards) {
            Ok(()) => {},
            Err(e) => {
                return Err(FecError::Rs(rs_error_text(&e)));
            },
        }
        proof {
            assert(shard_views(shards@) == group_codeword(input@, g as int, *p));
        }
        let group_index: u32 = (g as u64 % 0x1_0000_0000u64) as u32;
        let ghost done = out@;
        let mut si: usize = 0;
        while si < total
            invariant
                0 <= si <= total,
                total == total_shards(*p),
                total <= 256,
                sb == p.shard_bytes,
                shards@.len() == total,
                shard_views(shards@) == group_codeword(input@, g as int, *p),
                shards_have_len(shard_views(shards@), sb as int),
                group_index == (g as int) % 0x1_0000_0000,
                out@.len() == g * total + si,
                out@.take(g * total) == done,
                forall|i: int|
                    0 <= i < si ==> encoded_packet(
                        #[trigger] packet_views(out@)[g * total + i],
                        input@,
                        *p,
                        g as int,
                        i,
                    ),
            decreases total - si,
        {
            let bytes: Vec<u8> = shards[si].clone();
            assert(bytes@ =~= shards@[si as int]@);
            assert(shard_views(shards@)[si as int] == shards@[si as int]@);
            let sha = sha256_digest(bytes.as_slice());
            let ghost earlier = out@;
            out.push(
                ShardPacket {
                    group_index,
                    shard_index: si as u16,
                    shard_bytes: bytes,
                    shard_sha256: sha,
                },
            );
            assert(out@.take(g * total) =~= done);
            assert forall|i: int| 0 <= i < si implies encoded_packet(
                #[trigger] packet_views(out@)[g * total + i],
                input@,
                *p,
                g as int,
                i,
            ) by {
                assert(packet_views(out@)[g * total + i] == packet_views(earlier)[g * total + i]);
            }
            si = si + 1;
        }
        proof {
            lemma_mul_step(g as int, gb as int);
            lemma_mul_step(g as int, total as int);
            assert forall|h: int, i: int| 0 <= h < g + 1 && 0 <= i < total implies #[trigger] encoded_at(
                packet_views(out@),
                input@,
                *p,
                h,
                i,
            ) by {
                if h < g {
                    assert(encoded_at(packet_views(done), input@, *p, h, i));
                    assert(h * total + i < g * total) by (nonlinear_arith)
                        requires
                            0 <= h < g,
                            0 <= i < total,
                    ;
                    assert(out@[h * total + i] == done[h * total + i]);
                }
            }
            assert(g + 1 <= len) by (nonlinear_arith)
                requires
                    g * gb < len,
                    gb >= 1,
                    g >= 0,
            ;
        }
        base = base + gb;
        g = g + 1;
    }
    proof {
        lemma_group_count(len as int, gb as int, g as int);
    }
    Ok(out)
}

/// What the slots of group `g` hold once every packet has been filed: slot
/// `i` holds the shard of the last packet of group `g` with shard index `i`.
/// A packet whose shard index is not below `total` fills no slot.
pub open spec fn group_slots(packets: Seq<PacketView>, g: u32, total: int) -> Seq<
    Option<Seq<u8>>,
>
    decreases packets.len(),
{
    if packets.len() == 0 {
        Seq::new(total as nat, |i: int| None)
    } else {
        let rest = group_slots(packets.drop_last(), g, total);
        let pk = packets.last();
        if pk.group_index == g && (pk.shard_index as int) < total {
            rest.update(pk.shard_index as int, Some(pk.shard_bytes))
        } else {
            rest
        }
    }
}

/// Some packet belongs to group `g`.
pub open spec fn has_group(packets: Seq<PacketView>, g: u32) -> bool {
    exists|k: int| 0 <= k < packets.len() && (#[trigger] packets[k]).group_index == g
}

/// The first `n` of `shards`, one after the other.
pub open spec fn concat_shards(shards: Seq<Seq<u8>>, n: int) -> Seq<u8>
    decreases n,
{
    if n <= 0 {
        Seq::empty()
    } else {
        concat_shards(shards, n - 1) + shards[n - 1]
    }
}

/// Some filled slot holds a shard that is not `len` bytes long.
pub open spec fn wrong_size(slots: Seq<Option<Seq<u8>>>, len: int) -> bool {
    exists|i: int|
        0 <= i < slots.len() && (#[trigger] slots[i]) is Some && slots[i]->Some_0.len() != len
}

/// The data bytes recovered from group `g`, or why they cannot be: a group
/// whose number no group index can say has no shards, the codec refuses a
/// group with too few shards or with shards of different lengths, and shards
/// that are not `shard_bytes` long are of the wrong size.
pub open spec fn group_result(packets: Seq<PacketView>, g: int, p: FecParams) -> Result<
    Seq<u8>,
    RsError,
> {
    let slots = group_slots(packets, g as u32, total_shards(p));
    if g < 0 || g >= 0x1_0000_0000 {
        Err(RsError::TooFewShardsPresent)
    } else {
        match reconstruct_verdict(p.data_shards as int, slots) {
            Err(e) => Err(e),
            Ok(_) => if wrong_size(slots, p.shard_bytes as int) {
                Err(RsError::IncorrectShardSize)
            } else {
                Ok(
                    concat_shards(
                        rs_reconstructed(p.data_shards as nat, p.parity_shards as nat, slots),
                        p.data_shards as int,
                    ),
                )
            },
        }
    }
}

/// Decoding from group `g` on, with `out` recovered so far: every group that
/// `total_bytes` needs is taken, in ascending order, and the first group that
/// cannot be recovered ends the decoding. A group of which no packet came is
/// a group with too few shards.
pub open spec fn decode_from(
    packets: Seq<PacketView>,
    p: FecParams,
    total_bytes: int,
    g: int,
    out: Seq<u8>,
) -> Result<Seq<u8>, RsError>
    decreases group_count(total_bytes, p) - g,
{
    if g < 0 || g >= group_count(total_bytes, p) {
        Ok(out)
    } else {
        match group_result(packets, g, p) {
            Err(e) => Err(e),
            Ok(bytes) => decode_from(packets, p, total_bytes, g + 1, out + bytes),
        }
    }
}

/// `out` cut to at most `n` bytes.
pub open spec fn clip(out: Seq<u8>, n: int) -> Seq<u8> {
    if out.len() > n {
        out.take(n)
    } else {
        out
    }
}

/// The shard of the packet has the SHA-256 that the packet names.
pub open spec fn packet_intact(pk: PacketView) -> bool {
    sha256(pk.shard_bytes) == pk.shard_sha256
}

/// The packets whose shard has the SHA-256 that the packet names, in order.
/// The others are dropped before decoding: their shards count as missing.
pub open spec fn intact_packets(packets: Seq<PacketView>) -> Seq<PacketView>
    decreases packets.len(),
{
    if packets.len() == 0 {
        Seq::empty()
    } else {
        let rest = intact_packets(packets.drop_last());
        if packet_intact(packets.last()) {
            rest.push(packets.last())
        } else {
            rest
        }
    }
}

/// What decoding `packets` gives: the bytes recovered from the intact
/// packets, cut to `total_bytes`, or the codec's refusal of a group.
pub open spec fn fec_decoded(packets: Seq<PacketView>, total_bytes: int, p: FecParams) -> Result<
    Seq<u8>,
    RsError,
> {
    match decode_from(intact_packets(packets), p, total_bytes, 0, Seq::empty()) {
        Err(e) => Err(e),
        Ok(out) => Ok(clip(out, total_bytes)),
    }
}

/// `groups` files `packets`: one entry for each group of which a packet
/// came, holding the slots of that group.
spec fn binned(
    groups: Map<u32, Vec<Option<Vec<u8>>>>,
    packets: Seq<PacketView>,
    total: int,
) -> bool {
    &&& forall|g: u32| #[trigger] groups.contains_key(g) <==> has_group(packets, g)
    &&& forall|g: u32|
        groups.contains_key(g) ==> slot_views((#[trigger] groups[g])@) == group_slots(
            packets,
            g,
            total,
        )
}

pub(crate) proof fn lemma_group_slots_len(packets: Seq<PacketView>, g: u32, total: int)
    requires
        total >= 0,
    ensures
        group_slots(packets, g, total).len() == total,
    decreases packets.len(),
{
    if packets.len() > 0 {
        lemma_group_slots_len(packets.drop_last(), g, total);
    }
}

/// The slots of a group of which no packet came are all empty.
proof fn lemma_group_slots_absent(packets: Seq<PacketView>, g: u32, total: int)
    requires
        total >= 0,
        !has_group(packets, g),
    ensures
        group_slots(packets, g, total) == Seq::new(total as nat, |i: int| None::<Seq<u8>>),
    decreases packets.len(),
{
    if packets.len() > 0 {
        let rest = packets.drop_last();
        assert(packets[packets.len() - 1].group_index != g);
        assert forall|k: int| 0 <= k < rest.len() implies (#[trigger] rest[k]).group_index != g by {
            assert(rest[k] == packets[k]);
        }
        lemma_group_slots_absent(rest, g, total);
    }
}

/// Groups are listed by one more packet exactly if they were listed before
/// or are the packet's own group.
proof fn lemma_has_group_push(packets: Seq<PacketView>, k: int, g: u32)
    requires
        0 <= k < packets.len(),
    ensures
        has_group(packets.take(k + 1), g) <==> has_group(packets.take(k), g)
            || packets[k].group_index == g,
{
    let a = packets.take(k);
    let b = packets.take(k + 1);
    if has_group(b, g) {
        let i = choose|i: int| 0 <= i < b.len() && (#[trigger] b[i]).group_index == g;
        if i < k {
            assert(a[i].group_index == g);
        }
    }
    if has_group(a, g) {
        let i = choose|i: int| 0 <= i < a.len() && (#[trigger] a[i]).group_index == g;
        assert(b[i].group_index == g);
    }
    if packets[k].group_index == g {
        assert(b[k].group_index == g);
    }
}

/// `total` empty slots.
fn empty_slots(total: usize) -> (slots: Vec<Option<Vec<u8>>>)
    ensures
        slots@.len() == total,
        slot_views(slots@) == Seq::new(total as nat, |i: int| None::<Seq<u8>>),
{
    let mut slots: Vec<Option<Vec<u8>>> = Vec::new();
    let mut i: usize = 0;
    while i < total
        invariant
            0 <= i <= total,
            slots@.len() == i,
            forall|j: int| 0 <= j < i ==> (#[trigger] slots@[j]) is None,
        decreases total - i,
    {
        slots.push(None);
        i = i + 1;
    }
    assert(slot_views(slots@) =~= Seq::new(total as nat, |i: int| None::<Seq<u8>>));
    slots
}

/// Files every packet under its group: a later packet of a shard takes the
/// place of an earlier one.
fn bin_packets(packets: &Vec<ShardPacket>, total: usize) -> (groups: BTreeMap<
    u32,
    Vec<Option<Vec<u8>>>,
>)
    ensures
        binned(groups@, packet_views(packets@), total as int),
{
    let mut groups: BTreeMap<u32, Vec<Option<Vec<u8>>>> = BTreeMap::new();
    let mut k: usize = 0;
    let ghost all = packet_views(packets@);
    while k < packets.len()
        invariant
            0 <= k <= packets@.len(),
            all == packet_views(packets@),
            binned(groups@, all.take(k as int), total as int),
        decreases packets@.len() - k,
    {
        let g: u32 = packets[k].group_index;
        let idx: usize = packets[k].shard_index as usize;
        let ghost before = all.take(k as int);
        let ghost after = all.take(k + 1);
        let ghost filed = groups@;
        proof {
            assert(after.drop_last() =~= before);
            assert(after.last() == all[k as int]);
            lemma_group_slots_len(before, g, total as int);
            if !has_group(before, g) {
                lemma_group_slots_absent(before, g, total as int);
            }
        }
        let mut slots = match groups.remove(&g) {
            Some(slots) => slots,
            None => empty_slots(total),
        };
        assert(slot_views(slots@) == group_slots(before, g, total as int));
        if idx < total {
            let bytes: Vec<u8> = packets[k].shard_bytes.clone();
            assert(bytes@ =~= all[k as int].shard_bytes);
            slots[idx] = Some(bytes);
            assert(slot_views(slots@) =~= group_slots(before, g, total as int).update(
                idx as int,
                Some(all[k as int].shard_bytes),
            ));
        }
        assert(slot_views(slots@) == group_slots(after, g, total as int));
        groups.insert(g, slots);
        proof {
            assert forall|h: u32| #[trigger] groups@.contains_key(h) <==> has_group(after, h) by {
                lemma_has_group_push(all, k as int, h);
                assert(filed.contains_key(h) <==> has_group(before, h));
            }
            assert forall|h: u32| groups@.contains_key(h) implies slot_views(
                (#[trigger] groups@[h])@,
            ) == group_slots(after, h, total as int) by {
                if h != g {
                    assert(filed.contains_key(h));
                    assert(groups@[h] == filed[h]);
                }
            }
        }
        k = k + 1;
    }
    assert(all.take(packets@.len() as int) =~= all);
    groups
}

/// The first `n` bytes of the input continued with zeros.
pub open spec fn padded_prefix(input: Seq<u8>, n: int) -> Seq<u8> {
    Seq::new(n as nat, |k: int| padded_at(input, k))
}

/// `pk` is one of the packets of the encoded input.
pub open spec fn from_encoding(pk: PacketView, input: Seq<u8>, p: FecParams) -> bool {
    exists|g: int, i: int|
        0 <= g < group_count(input.len() as int, p) && 0 <= i < total_shards(p)
            && #[trigger] encoded_packet(pk, input, p, g, i)
}

/// Number of slots of group `g` that `packets` fill.
pub open spec fn filled_in_group(packets: Seq<PacketView>, g: int, p: FecParams) -> int {
    present_count(group_slots(packets, g as u32, total_shards(p)), total_shards(p))
}

/// `packets` holds enough of the encoded input to recover it: packets of the
/// encoding only, in any order and any number of times, and of every group at
/// least `data_shards` different shards. The encoding must not have more
/// groups than a group index can count.
pub open spec fn enough_of_encoding(packets: Seq<PacketView>, input: Seq<u8>, p: FecParams) -> bool {
    &&& usable_params(p)
    &&& group_count(input.len() as int, p) <= 0x1_0000_0000
    &&& forall|k: int| 0 <= k < packets.len() ==> from_encoding(#[trigger] packets[k], input, p)
    &&& forall|g: int|
        0 <= g < group_count(input.len() as int, p) ==> #[trigger] filled_in_group(packets, g, p)
            >= p.data_shards
}

proof fn lemma_present_none(slots: Seq<Option<Seq<u8>>>, n: int)
    requires
        0 <= n <= slots.len(),
        forall|i: int| 0 <= i < n ==> (#[trigger] slots[i]) is None,
    ensures
        present_count(slots, n) == 0,
    decreases n,
{
    if n > 0 {
        lemma_present_none(slots, n - 1);
    }
}

proof fn lemma_present_all(slots: Seq<Option<Seq<u8>>>, n: int)
    requires
        0 <= n <= slots.len(),
        forall|i: int| 0 <= i < n ==> (#[trigger] slots[i]) is Some,
    ensures
        present_count(slots, n) == n,
    decreases n,
{
    if n > 0 {
        lemma_present_all(slots, n - 1);
    }
}

/// Empty slots pass the codec's test.
proof fn lemma_scan_empty(slots: Seq<Option<Seq<u8>>>, i: int, seen: Option<nat>)
    requires
        0 <= i,
        forall|k: int| 0 <= k < slots.len() ==> (#[trigger] slots[k]) is None,
    ensures
        scan_fault(slots, i, seen) is None,
    decreases slots.len() - i,
{
    if i < slots.len() {
        lemma_scan_empty(slots, i + 1, seen);
    }
}

/// Shards that all have one length that is not 0 pass the codec's test.
proof fn lemma_scan_clean(slots: Seq<Option<Seq<u8>>>, i: int, seen: Option<nat>, len: nat)
    requires
        0 <= i <= slots.len(),
        len > 0,
        seen is Some ==> seen->Some_0 == len,
        forall|k: int|
            0 <= k < slots.len() && (#[trigger] slots[k]) is Some ==> slots[k]->Some_0.len() == len,
    ensures
        scan_fault(slots, i, seen) is None,
    decreases slots.len() - i,
{
    if i < slots.len() {
        match slots[i] {
            None => lemma_scan_clean(slots, i + 1, seen, len),
            Some(s) => lemma_scan_clean(slots, i + 1, Some(s.len()), len),
        }
    }
}

/// With packets of one encoding only, the filled slots of a group hold that
/// group's shards, each `shard_bytes` long.
proof fn lemma_slots_agree(packets: Seq<PacketView>, input: Seq<u8>, p: FecParams, g: int)
    requires
        usable_params(p),
        0 <= g < group_count(input.len() as int, p) <= 0x1_0000_0000,
        forall|k: int| 0 <= k < packets.len() ==> from_encoding(#[trigger] packets[k], input, p),
    ensures
        agrees(group_slots(packets, g as u32, total_shards(p)), group_codeword(input, g, p)),
        forall|i: int|
            0 <= i < total_shards(p) && (#[trigger] group_slots(
                packets,
                g as u32,
                total_shards(p),
            )[i]) is Some ==> group_slots(packets, g as u32, total_shards(p))[i]->Some_0.len()
                == p.shard_bytes,
    decreases packets.len(),
{
    let total = total_shards(p);
    lemma_group_slots_len(packets, g as u32, total);
    if packets.len() > 0 {
        let rest = packets.drop_last();
        let pk = packets.last();
        assert forall|k: int| 0 <= k < rest.len() implies from_encoding(
            #[trigger] rest[k],
            input,
            p,
        ) by {
            assert(rest[k] == packets[k]);
        }
        lemma_slots_agree(rest, input, p, g);
        lemma_group_slots_len(rest, g as u32, total);
        assert(from_encoding(packets[packets.len() - 1], input, p));
        if pk.group_index == g as u32 && (pk.shard_index as int) < total {
            let (h, i) = choose|h: int, i: int|
                0 <= h < group_count(input.len() as int, p) && 0 <= i < total_shards(p)
                    && #[trigger] encoded_packet(pk, input, p, h, i);
            assert(h == g);
        }
    }
}

/// A group of which packets fill a slot is a group of which a packet came.
proof fn lemma_filled_has_group(packets: Seq<PacketView>, g: u32, total: int)
    requires
        total >= 0,
        present_count(group_slots(packets, g, total), total) > 0,
    ensures
        has_group(packets, g),
{
    if !has_group(packets, g) {
        lemma_group_slots_absent(packets, g, total);
        lemma_present_none(group_slots(packets, g, total), total);
    }
}

/// The first `n` shards one after the other depend on those shards only.
proof fn lemma_concat_same(a: Seq<Seq<u8>>, b: Seq<Seq<u8>>, n: int)
    requires
        0 <= n <= a.len(),
        n <= b.len(),
        forall|i: int| 0 <= i < n ==> a[i] == b[i],
    ensures
        concat_shards(a, n) == concat_shards(b, n),
    decreases n,
{
    if n > 0 {
        lemma_concat_same(a, b, n - 1);
    }
}

proof fn lemma_shard_offset(g: int, d: int, n: int, sb: int)
    by (nonlinear_arith)
    ensures
        (g * d + n) * sb == g * (d * sb) + n * sb,
{
}

/// The first `n` data shards of a group, one after the other, are the
/// zero-padded input from the start of the group on.
proof fn lemma_concat_group(input: Seq<u8>, g: int, p: FecParams, n: int)
    requires
        0 <= n <= p.data_shards,
        0 <= g,
    ensures
        concat_shards(group_data(input, g, p), n) == Seq::new(
            (n * p.shard_bytes) as nat,
            |k: int| padded_at(input, g * group_bytes(p) + k),
        ),
    decreases n,
{
    let sb = p.shard_bytes as int;
    let want = Seq::new((n * sb) as nat, |k: int| padded_at(input, g * group_bytes(p) + k));
    if n > 0 {
        lemma_concat_group(input, g, p, n - 1);
        lemma_mul_step(n - 1, sb);
        lemma_shard_offset(g, p.data_shards as int, n - 1, sb);
        assert((n - 1) * sb >= 0) by (nonlinear_arith)
            requires
                n >= 1,
                sb >= 0,
        ;
        assert(concat_shards(group_data(input, g, p), n) =~= want);
    } else {
        assert(n * sb == 0) by (nonlinear_arith)
            requires
                n == 0,
        ;
        assert(concat_shards(group_data(input, g, p), n) =~= want);
    }
}

/// Where some slot is filled, the filled slots are counted.
proof fn lemma_present_some(slots: Seq<Option<Seq<u8>>>, n: int) -> (i: int)
    requires
        0 <= n <= slots.len(),
        present_count(slots, n) > 0,
    ensures
        0 <= i < n,
        slots[i] is Some,
    decreases n,
{
    if slots[n - 1] is Some {
        n - 1
    } else {
        lemma_present_some(slots, n - 1)
    }
}

/// The first `n` shards, each `len` bytes long, are `n * len` bytes together.
proof fn lemma_concat_len(shards: Seq<Seq<u8>>, n: int, len: int)
    requires
        0 <= n <= shards.len(),
        shards_have_len(shards, len),
    ensures
        concat_shards(shards, n).len() == n * len,
    decreases n,
{
    if n > 0 {
        lemma_concat_len(shards, n - 1, len);
        lemma_mul_step(n - 1, len);
    } else {
        assert(n * len == 0) by (nonlinear_arith)
            requires
                n == 0,
        ;
    }
}

/// How far a decoding that is fed enough of the encoding of `input` has
/// come after `g` groups: it has recovered the zero-padded input up to the
/// end of group `g - 1`.
spec fn on_track(
    packets: Seq<PacketView>,
    input: Seq<u8>,
    p: FecParams,
    total_bytes: int,
    g: int,
    out: Seq<u8>,
) -> bool {
    input.len() == total_bytes && enough_of_encoding(packets, input, p) ==> out == padded_prefix(
        input,
        g * group_bytes(p),
    )
}

/// Fed enough of the encoding of `input`, the decoder recovers group `g`: the
/// codec does not refuse it, its shards have the right size, and what the
/// codec gives is the group.
proof fn lemma_track_step(
    packets: Seq<PacketView>,
    input: Seq<u8>,
    p: FecParams,
    g: int,
    out: Seq<u8>,
    filled: Seq<Seq<u8>>,
)
    requires
        on_track(packets, input, p, input.len() as int, g, out),
        enough_of_encoding(packets, input, p),
        0 <= g < group_count(input.len() as int, p),
        reconstruct_verdict(p.data_shards as int, group_slots(packets, g as u32, total_shards(p)))
            is Ok ==> restores_codewords(
            p.data_shards as nat,
            p.parity_shards as nat,
            group_slots(packets, g as u32, total_shards(p)),
            filled,
        ),
    ensures
        has_group(packets, g as u32),
        reconstruct_verdict(p.data_shards as int, group_slots(packets, g as u32, total_shards(p)))
            is Ok,
        !wrong_size(group_slots(packets, g as u32, total_shards(p)), p.shard_bytes as int),
        on_track(
            packets,
            input,
            p,
            input.len() as int,
            g + 1,
            out + concat_shards(filled, p.data_shards as int),
        ),
{
    let gb = group_bytes(p);
    let total = total_shards(p);
    let d = p.data_shards as int;
    let sb = p.shard_bytes as int;
    lemma_group_bound(d, sb);
    assert(filled_in_group(packets, g, p) >= d);
    lemma_filled_has_group(packets, g as u32, total);
    let slots = group_slots(packets, g as u32, total);
    lemma_group_slots_len(packets, g as u32, total);
    lemma_slots_agree(packets, input, p, g);
    lemma_scan_clean(slots, 0, None, sb as nat);
    let data = group_data(input, g, p);
    assert(shards_have_len(data, sb));
    assert(filled == data + rs_parity(data, p.parity_shards as nat));
    lemma_concat_same(filled, data, d);
    lemma_concat_group(input, g, p, d);
    lemma_mul_step(g, gb);
    assert(g * gb >= 0) by (nonlinear_arith)
        requires
            g >= 0,
            gb >= 0,
    ;
    assert(out + concat_shards(filled, d) =~= padded_prefix(input, (g + 1) * gb));
}

/// A packet of group `g` with shard index `i` fills slot `i` of the group.
pub(crate) proof fn lemma_slot_filled(packets: Seq<PacketView>, g: u32, total: int, k: int)
    requires
        0 <= k < packets.len(),
        packets[k].group_index == g,
        packets[k].shard_index < total,
    ensures
        group_slots(packets, g, total)[packets[k].shard_index as int] is Some,
    decreases packets.len(),
{
    let rest = packets.drop_last();
    lemma_group_slots_len(rest, g, total);
    if k < packets.len() - 1 {
        assert(rest[k] == packets[k]);
        lemma_slot_filled(rest, g, total, k);
    }
}

proof fn lemma_packet_place(k: int, total: int, gc: int)
    by (nonlinear_arith)
    requires
        total > 0,
        0 <= k < gc * total,
    ensures
        0 <= k / total < gc,
        0 <= k % total < total,
        (k / total) * total + k % total == k,
{
}

pub(crate) proof fn lemma_packet_index(g: int, i: int, total: int, gc: int)
    by (nonlinear_arith)
    requires
        0 <= g < gc,
        0 <= i < total,
    ensures
        0 <= g * total + i < gc * total,
{
}

/// Every packet of an encoding is a packet of the encoded input.
pub proof fn lemma_packet_from_encoding(
    input: Seq<u8>,
    p: FecParams,
    packets: Seq<PacketView>,
    k: int,
)
    requires
        usable_params(p),
        fec_encoded(input, p, packets),
        0 <= k < packets.len(),
    ensures
        from_encoding(packets[k], input, p),
{
    let gc = group_count(input.len() as int, p);
    let total = total_shards(p);
    lemma_packet_place(k, total, gc);
    assert(encoded_at(packets, input, p, k / total, k % total));
    assert(encoded_packet(packets[k], input, p, k / total, k % total));
}

/// The whole encoding of an input is enough to recover it.
pub proof fn lemma_encoding_is_enough(input: Seq<u8>, p: FecParams, packets: Seq<PacketView>)
    requires
        usable_params(p),
        fec_encoded(input, p, packets),
        group_count(input.len() as int, p) <= 0x1_0000_0000,
    ensures
        enough_of_encoding(packets, input, p),
{
    let gc = group_count(input.len() as int, p);
    let total = total_shards(p);
    assert forall|k: int| 0 <= k < packets.len() implies from_encoding(
        #[trigger] packets[k],
        input,
        p,
    ) by {
        lemma_packet_place(k, total, gc);
        assert(encoded_at(packets, input, p, k / total, k % total));
        assert(encoded_packet(packets[k], input, p, k / total, k % total));
    }
    assert forall|g: int| 0 <= g < gc implies #[trigger] filled_in_group(packets, g, p)
        >= p.data_shards by {
        let slots = group_slots(packets, g as u32, total);
        lemma_group_slots_len(packets, g as u32, total);
        assert forall|i: int| 0 <= i < total implies (#[trigger] slots[i]) is Some by {
            lemma_packet_index(g, i, total, gc);
            assert(encoded_at(packets, input, p, g, i));
            lemma_slot_filled(packets, g as u32, total, g * total + i);
        }
        lemma_present_all(slots, total);
    }
}

/// Packet `k` of an encoding is the packet of some group and shard index.
pub proof fn lemma_packet_facts(input: Seq<u8>, p: FecParams, packets: Seq<PacketView>, k: int)
    requires
        usable_params(p),
        fec_encoded(input, p, packets),
        0 <= k < packets.len(),
    ensures
        packets[k].shard_sha256 == sha256(packets[k].shard_bytes),
        packets[k].shard_sha256.len() == 32,
        packets[k].shard_bytes.len() == p.shard_bytes,
        packets[k].group_index == (k / total_shards(p)) % 0x1_0000_0000,
        packets[k].shard_index == k % total_shards(p),
{
    let gc = group_count(input.len() as int, p);
    let total = total_shards(p);
    lemma_packet_place(k, total, gc);
    assert(encoded_at(packets, input, p, k / total, k % total));
}

/// Every shard of an encoding is `shard_bytes` long.
pub proof fn lemma_encoded_lengths(input: Seq<u8>, p: FecParams, packets: Seq<PacketView>)
    requires
        usable_params(p),
        fec_encoded(input, p, packets),
    ensures
        forall|k: int|
            0 <= k < packets.len() ==> (#[trigger] packets[k]).shard_bytes.len() == p.shard_bytes,
{
    let gc = group_count(input.len() as int, p);
    let total = total_shards(p);
    assert forall|k: int| 0 <= k < packets.len() implies (#[trigger] packets[k]).shard_bytes.len()
        == p.shard_bytes by {
        lemma_packet_place(k, total, gc);
        assert(encoded_at(packets, input, p, k / total, k % total));
    }
}

/// Decoding ends at the first group that cannot be recovered.
proof fn lemma_decode_stops(
    packets: Seq<PacketView>,
    p: FecParams,
    total_bytes: int,
    from: int,
    out: Seq<u8>,
    g: int,
)
    requires
        0 <= from <= g < group_count(total_bytes, p),
        group_result(packets, g, p) is Err,
    ensures
        decode_from(packets, p, total_bytes, from, out) is Err,
    decreases g - from,
{
    if from < g {
        match group_result(packets, from, p) {
            Ok(bytes) => {
                lemma_decode_stops(packets, p, total_bytes, from + 1, out + bytes, g);
            },
            Err(_) => {},
        }
    }
}

/// A group that the length asks for and of which fewer than `data_shards`
/// intact shards came ends the decoding with an error, whatever came of the
/// other groups: nothing shorter or shifted is returned in its place.
pub proof fn lemma_too_few_refused(
    packets: Seq<PacketView>,
    total_bytes: int,
    p: FecParams,
    g: int,
)
    requires
        usable_params(p),
        0 <= g < group_count(total_bytes, p),
        g < 0x1_0000_0000,
        filled_in_group(intact_packets(packets), g, p) < p.data_shards,
    ensures
        fec_decoded(packets, total_bytes, p) is Err,
{
    let kept = intact_packets(packets);
    lemma_group_slots_len(kept, g as u32, total_shards(p));
    assert(group_result(kept, g, p) is Err);
    lemma_decode_stops(kept, p, total_bytes, 0, Seq::empty(), g);
}

/// A group that the length asks for and of which no intact packet came is
/// not passed over: the decoding is refused. So it is for no packets at all
/// and a length above 0.
pub proof fn lemma_missing_group_refused(
    packets: Seq<PacketView>,
    total_bytes: int,
    p: FecParams,
    g: int,
)
    requires
        usable_params(p),
        0 <= g < group_count(total_bytes, p),
        g < 0x1_0000_0000,
        !has_group(intact_packets(packets), g as u32),
    ensures
        fec_decoded(packets, total_bytes, p) is Err,
{
    let kept = intact_packets(packets);
    let total = total_shards(p);
    lemma_group_slots_absent(kept, g as u32, total);
    lemma_present_none(group_slots(kept, g as u32, total), total);
    lemma_too_few_refused(packets, total_bytes, p, g);
}

/// Where every packet is intact, no packet is dropped.
pub proof fn lemma_intact_all(packets: Seq<PacketView>)
    requires
        forall|k: int| 0 <= k < packets.len() ==> packet_intact(#[trigger] packets[k]),
    ensures
        intact_packets(packets) == packets,
    decreases packets.len(),
{
    if packets.len() > 0 {
        let rest = packets.drop_last();
        assert forall|k: int| 0 <= k < rest.len() implies packet_intact(#[trigger] rest[k]) by {
            assert(rest[k] == packets[k]);
        }
        lemma_intact_all(rest);
        assert(packet_intact(packets[packets.len() - 1]));
        assert(rest.push(packets.last()) =~= packets);
    } else {
        assert(packets =~= Seq::<PacketView>::empty());
    }
}

/// Packets of an encoding are all intact.
proof fn lemma_all_intact(packets: Seq<PacketView>, input: Seq<u8>, p: FecParams)
    requires
        forall|k: int| 0 <= k < packets.len() ==> from_encoding(#[trigger] packets[k], input, p),
    ensures
        intact_packets(packets) == packets,
    decreases packets.len(),
{
    if packets.len() > 0 {
        let rest = packets.drop_last();
        let pk = packets.last();
        assert forall|k: int| 0 <= k < rest.len() implies from_encoding(
            #[trigger] rest[k],
            input,
            p,
        ) by {
            assert(rest[k] == packets[k]);
        }
        lemma_all_intact(rest, input, p);
        assert(from_encoding(packets[packets.len() - 1], input, p));
        let (g, i) = choose|g: int, i: int|
            0 <= g < group_count(input.len() as int, p) && 0 <= i < total_shards(p)
                && #[trigger] encoded_packet(pk, input, p, g, i);
        assert(rest.push(pk) =~= packets);
    } else {
        assert(packets =~= Seq::<PacketView>::empty());
    }
}

/// Keeps the packets whose shard has the SHA-256 that the packet names.
fn keep_intact(packets: &Vec<ShardPacket>) -> (kept: Vec<ShardPacket>)
    ensures
        packet_views(kept@) == intact_packets(packet_views(packets@)),
{
    let mut kept: Vec<ShardPacket> = Vec::new();
    let mut k: usize = 0;
    let ghost all = packet_views(packets@);
    assert(all.take(0) =~= Seq::<PacketView>::empty());
    assert(packet_views(kept@) =~= intact_packets(all.take(0)));
    while k < packets.len()
        invariant
            0 <= k <= packets@.len(),
            all == packet_views(packets@),
            packet_views(kept@) == intact_packets(all.take(k as int)),
        decreases packets@.len() - k,
    {
        let pk = &packets[k];
        let sha = sha256_digest(pk.shard_bytes.as_slice());
        proof {
            assert(all.take(k + 1).drop_last() =~= all.take(k as int));
            assert(all.take(k + 1).last() == pk@);
        }
        if same_bytes(sha.as_slice(), pk.shard_sha256.as_slice()) {
            let bytes: Vec<u8> = pk.shard_bytes.clone();
            assert(bytes@ =~= pk.shard_bytes@);
            let ghost before = packet_views(kept@);
            kept.push(
                ShardPacket {
                    group_index: pk.group_index,
                    shard_index: pk.shard_index,
                    shard_bytes: bytes,
                    shard_sha256: pk.shard_sha256,
                },
            );
            assert(packet_views(kept@) =~= before.push(pk@));
        }
        k = k + 1;
    }
    assert(all.take(packets@.len() as int) =~= all);
    kept
}

/// Appends the first `d` shards of a reconstructed group to `out`.
fn append_data(out: &mut Vec<u8>, shards: &Vec<Option<Vec<u8>>>, d: usize)
    requires
        d <= shards@.len(),
        forall|i: int| 0 <= i < shards@.len() ==> (#[trigger] shards@[i]) is Some,
    ensures
        final(out)@ == old(out)@ + concat_shards(filled_views(shards@), d as int),
{
    let mut i: usize = 0;
    assert(out@ =~= old(out)@ + concat_shards(filled_views(shards@), 0));
    while i < d
        invariant
            0 <= i <= d <= shards@.len(),
            forall|i: int| 0 <= i < shards@.len() ==> (#[trigger] shards@[i]) is Some,
            out@ == old(out)@ + concat_shards(filled_views(shards@), i as int),
        decreases d - i,
    {
        match &shards[i] {
            Some(v) => {
                out.extend_from_slice(v.as_slice());
                assert(filled_views(shards@)[i as int] == v@);
            },
            None => {},
        }
        assert(out@ =~= old(out)@ + concat_shards(filled_views(shards@), i + 1));
        i = i + 1;
    }
}

/// What the decoder answers where the codec refuses: the codec's refusal of
/// the counts, or else its refusal of a group.
pub open spec fn decode_refusal(packets: Seq<PacketView>, total_bytes: int, p: FecParams) -> Option<
    RsError,
> {
    if codec_refusal(p) is Some {
        codec_refusal(p)
    } else {
        match fec_decoded(packets, total_bytes, p) {
            Err(e) => Some(e),
            Ok(_) => None,
        }
    }
}

/// Number of groups that `total_bytes` bytes need.
fn groups_needed(total_bytes: usize, p: &FecParams) -> (n: usize)
    requires
        usable_params(*p),
    ensures
        n == group_count(total_bytes as int, *p),
        n <= total_bytes,
        n * group_bytes(*p) >= total_bytes,
{
    proof {
        lemma_group_bound(p.data_shards as int, p.shard_bytes as int);
    }
    let gb: u128 = (p.data_shards as u128) * (p.shard_bytes as u128);
    let n: u128 = (total_bytes as u128 + gb - 1) / gb;
    assert(0 <= n <= total_bytes && n * gb >= total_bytes) by (nonlinear_arith)
        requires
            n == (total_bytes + gb - 1) / (gb as int),
            gb >= 1,
            total_bytes >= 0,
    ;
    n as usize
}

/// Drops the packets whose shard does not have the SHA-256 that the packet
/// names, files the others by group and shard index, reconstructs every group
/// that `total_bytes` needs, in ascending order of group index, and returns
/// the data shards of those groups one after the other, cut to `total_bytes`.
/// A group that cannot be recovered ends the decoding with the codec's error:
/// one with fewer than `data_shards` shards, none at all among them, or with
/// shards of different lengths, or with shards that are not `shard_bytes`
/// long.
pub fn fec_decode_collect(packets: Vec<ShardPacket>, total_bytes: usize, p: &FecParams) -> (r:
    Result<Vec<u8>, FecError>)
    ensures
        match r {
            Ok(out) => usable_params(*p) && fec_decoded(
                packet_views(packets@),
                total_bytes as int,
                *p,
            ) == Ok::<Seq<u8>, RsError>(out@) && out@.len() == total_bytes,
            Err(FecError::InvalidParams) => p.data_shards == 0 || p.shard_bytes == 0,
            Err(FecError::Rs(msg)) => p.data_shards != 0 && p.shard_bytes != 0 && decode_refusal(
                packet_views(packets@),
                total_bytes as int,
                *p,
            ) is Some && msg@ == rs_error_message(
                decode_refusal(packet_views(packets@), total_bytes as int, *p)->Some_0,
            ),
        },
        forall|input: Seq<u8>|
            input.len() == total_bytes && #[trigger] enough_of_encoding(
                intact_packets(packet_views(packets@)),
                input,
                *p,
            ) ==> r is Ok && r->Ok_0@ == input,
{
    if p.data_shards == 0 || p.shard_bytes == 0 {
        return Err(FecError::InvalidParams);
    }
    let total: usize = match p.data_shards.checked_add(p.parity_shards) {
        Some(t) => t,
        None => {
            return Err(FecError::Rs(rs_error_text(&RsError::TooManyShards)));
        },
    };
    let codec = match rs_new(p.data_shards, p.parity_shards) {
        Ok(c) => c,
        Err(e) => {
            return Err(FecError::Rs(rs_error_text(&e)));
        },
    };
    let d = p.data_shards;
    let sb = p.shard_bytes;
    let kept = keep_intact(&packets);
    let mut groups = bin_packets(&kept, total);
    let needed = groups_needed(total_bytes, p);
    let ghost pv = packet_views(kept@);
    let ghost gb = group_bytes(*p);
    let ghost start = decode_from(pv, *p, total_bytes as int, 0, Seq::empty());
    let mut out: Vec<u8> = Vec::new();
    let mut g: usize = 0;
    proof {
        lemma_group_bound(d as int, sb as int);
        assert forall|input: Seq<u8>| #[trigger]
            on_track(pv, input, *p, total_bytes as int, 0, out@) by {
            assert(out@ =~= padded_prefix(input, 0 * gb));
        }
    }
    while g < needed
        invariant
            usable_params(*p),
            d == p.data_shards,
            sb == p.shard_bytes,
            total == total_shards(*p),
            gb == group_bytes(*p),
            gb >= 1,
            codec_data_shards(codec) == d,
            codec_parity_shards(codec) == p.parity_shards,
            pv == intact_packets(packet_views(packets@)),
            needed == group_count(total_bytes as int, *p),
            needed * gb >= total_bytes,
            0 <= g <= needed,
            forall|h: u32| h >= g ==> (#[trigger] groups@.contains_key(h) <==> has_group(pv, h)),
            forall|h: u32|
                h >= g && groups@.contains_key(h) ==> slot_views((#[trigger] groups@[h])@)
                    == group_slots(pv, h, total as int),
            start == decode_from(pv, *p, total_bytes as int, g as int, out@),
            start == decode_from(pv, *p, total_bytes as int, 0, Seq::empty()),
            out@.len() == g * gb,
            forall|input: Seq<u8>| #[trigger] on_track(pv, input, *p, total_bytes as int, g as int, out@),
        decreases needed - g,
    {
        let ghost slots = group_slots(pv, g as u32, total as int);
        let ghost out_before = out@;
        if g > u32::MAX as usize {
            proof {
                assert forall|input: Seq<u8>|
                    input.len() == total_bytes && #[trigger] enough_of_encoding(
                        pv,
                        input,
                        *p,
                    ) implies false by {
                }
            }
            return Err(FecError::Rs(rs_error_text(&RsError::TooFewShardsPresent)));
        }
        let key: u32 = g as u32;
        let mut shards = match groups.remove(&key) {
            Some(shards) => shards,
            None => {
                proof {
                    lemma_group_slots_absent(pv, key, total as int);
                    lemma_present_none(slots, total as int);
                    lemma_scan_empty(slots, 0, None);
                    assert forall|input: Seq<u8>|
                        input.len() == total_bytes && #[trigger] enough_of_encoding(
                            pv,
                            input,
                            *p,
                        ) implies false by {
                        assert(filled_in_group(pv, g as int, *p) >= d);
                        lemma_filled_has_group(pv, key, total as int);
                    }
                }
                return Err(FecError::Rs(rs_error_text(&RsError::TooFewShardsPresent)));
            },
        };
        proof {
            lemma_group_slots_len(pv, key, total as int);
        }
        let verdict = rs_reconstruct(&codec, &mut shards);
        let ghost filled = filled_views(shards@);
        proof {
            assert forall|input: Seq<u8>|
                input.len() == total_bytes && #[trigger] enough_of_encoding(
                    pv,
                    input,
                    *p,
                ) implies verdict is Ok && !wrong_size(slots, sb as int) && on_track(
                pv,
                input,
                *p,
                total_bytes as int,
                g + 1,
                out_before + concat_shards(filled, d as int),
            ) by {
                assert(on_track(pv, input, *p, total_bytes as int, g as int, out_before));
                lemma_track_step(pv, input, *p, g as int, out_before, filled);
            }
        }
        match verdict {
            Ok(()) => {},
            Err(e) => {
                return Err(FecError::Rs(rs_error_text(&e)));
            },
        }
        let sized = match &shards[0] {
            Some(first) => first.len() == sb,
            None => false,
        };
        proof {
            let i = lemma_present_some(slots, total as int);
            assert(slots[i]->Some_0 == filled[i]);
            assert(filled[i].len() == filled[0].len());
            if sized {
                assert forall|j: int|
                    0 <= j < slots.len() && (#[trigger] slots[j]) is Some implies slots[j]->Some_0.len()
                    == sb by {
                    assert(slots[j]->Some_0 == filled[j]);
                    assert(filled[j].len() == filled[0].len());
                }
                assert(shards_have_len(filled, sb as int)) by {
                    assert forall|j: int| 0 <= j < filled.len() implies (#[trigger] filled[j]).len()
                        == sb by {
                        assert(filled[j].len() == filled[0].len());
                    }
                }
                lemma_concat_len(filled, d as int, sb as int);
                lemma_mul_step(g as int, gb);
            }
        }
        if !sized {
            return Err(FecError::Rs(rs_error_text(&RsError::IncorrectShardSize)));
        }
        append_data(&mut out, &shards, d);
        g = g + 1;
    }
    let ghost whole = out@;
    out.truncate(total_bytes);
    assert(out@ =~= clip(whole, total_bytes as int));
    proof {
        assert forall|input: Seq<u8>|
            input.len() == total_bytes && #[trigger] enough_of_encoding(
                pv,
                input,
                *p,
            ) implies out@ == input by {
            assert(on_track(pv, input, *p, total_bytes as int, g as int, whole));
            assert(clip(whole, total_bytes as int) =~= input);
        }
    }
    Ok(out)
}

} // verus!
