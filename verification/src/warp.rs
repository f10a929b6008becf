//! Outcomes of geometric rectification.

use vstd::prelude::*;

verus! {

/// Why a frame could not be rectified.
#[derive(Debug, Clone, Copy, PartialEq, Eq, Structural)]
pub enum WarpError {
    NotEnoughPoints,
    Singular,
}

} // verus!
