//! Parameter presets.

use crate::fec::FecParams;
use crate::palette::Palette8;
use crate::raster::RasterParams;
use vstd::prelude::*;

verus! {

/// The two operating profiles: `Archive` for pixel-exact storage, `Scan` for
/// capture by a camera.
#[derive(Debug, Clone, Copy, PartialEq, Eq, Structural)]
pub enum Profile {
    Archive,
    Scan,
}

/// The parameters of a profile.
pub open spec fn profile_params(profile: Profile) -> RasterParams {
    match profile {
        Profile::Archive => RasterParams {
            grid_w: 256,
            grid_h: 256,
            cell_px: 2,
            chunk_bytes: 24576,
            palette: Palette8::Basic,
            sync_frames: 30,
            sync_color_symbol: 1,
            calibration_frames: 1,
            border_cells: 2,
            fiducial_size_cells: 12,
            fec: None,
            deskew: false,
        },
        Profile::Scan => RasterParams {
            grid_w: 256,
            grid_h: 256,
            cell_px: 6,
            chunk_bytes: 24576,
            palette: Palette8::Basic,
            sync_frames: 30,
            sync_color_symbol: 1,
            calibration_frames: 1,
            border_cells: 4,
            fiducial_size_cells: 18,
            fec: Some(FecParams { data_shards: 12, parity_shards: 12, shard_bytes: 768 }),
            deskew: true,
        },
    }
}

impl Profile {
    /// The name of the profile.
    pub fn name(&self) -> (name: &'static str)
        ensures
            *self == Profile::Archive ==> name@ == "archive"@,
            *self == Profile::Scan ==> name@ == "scan"@,
    {
        match self {
            Profile::Archive => "archive",
            Profile::Scan => "scan",
        }
    }

    /// The parameters of the profile, and its erasure code once more beside
    /// them.
    pub fn defaults(&self) -> (r: (RasterParams, Option<FecParams>))
        ensures
            r.0 == profile_params(*self),
            r.1 == profile_params(*self).fec,
    {
        match self {
            Profile::Archive => {
                let mut p = RasterParams::default();
                p.cell_px = 2;
                p.border_cells = 2;
                p.fiducial_size_cells = 12;
                p.deskew = false;
                p.fec = None;
                (p, None)
            },
            Profile::Scan => {
                let mut p = RasterParams::default();
                p.cell_px = 6;
                p.border_cells = 4;
                p.fiducial_size_cells = 18;
                p.deskew = true;
                let fec = FecParams { data_shards: 12, parity_shards: 12, shard_bytes: 768 };
                p.fec = Some(fec);
                (p, Some(fec))
            },
        }
    }
}

} // verus!
