//! Frame codec core: bytes are mapped to grids of coloured cells, framed with
//! checksummed shard headers, protected by Reed-Solomon erasure coding, and
//! recovered again from the rendered frames.

pub mod bits;
pub mod digest;
pub mod fec;
pub mod header;
pub mod laws;
pub mod manifest;
pub mod palette;
pub mod pixels;
pub mod profile;
pub mod raster;
pub mod render;
pub mod scan;
pub mod state;
pub mod text;
pub mod ui;
pub mod warp;

pub use fec::{fec_decode_collect, fec_encode_stream, FecError, FecParams, ShardPacket};
pub use manifest::{DecodeManifest, EncodeManifest};
pub use palette::{Palette8, PaletteError, Rgb8};
pub use pixels::FrameImage;
pub use profile::Profile;
pub use raster::{
    decode_frames_to_bytes, decode_frames_to_bytes_with_params, decode_payloads_to_bytes,
    encode_bytes_to_frames, encode_bytes_to_payloads, RasterError, RasterParams,
};
pub use warp::WarpError;
