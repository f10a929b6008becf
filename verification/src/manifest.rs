//! The manifest that accompanies a frame sequence.

use vstd::prelude::*;

verus! {

/// Describes one encode: what was encoded, on what grid, and into how many
/// frames.
#[derive(Debug, Clone)]
pub struct EncodeManifest {
    pub magic: String,
    pub version: u16,
    pub file_name: String,
    pub total_bytes: u64,
    pub chunk_bytes: u32,
    pub grid_w: u32,
    pub grid_h: u32,
    pub cell_px: u32,
    pub palette: String,
    pub sha256_hex: String,
    pub frames: u32,
}

pub type DecodeManifest = EncodeManifest;

/// The manifest carries the magic and the version this codec writes.
pub open spec fn manifest_valid(m: EncodeManifest) -> bool {
    m.magic@ == "SLLV"@ && m.version == 1
}

impl EncodeManifest {
    pub const MAGIC: &'static str = "SLLV";

    pub const VERSION: u16 = 1;

    /// Whether the manifest carries the magic and the version this codec
    /// writes. A decoder rejects any other.
    pub fn is_valid(&self) -> (ok: bool)
        ensures
            ok == manifest_valid(*self),
    {
        let magic: String = "SLLV".to_owned();
        self.magic == magic && self.version == 1
    }
}

} // verus!
