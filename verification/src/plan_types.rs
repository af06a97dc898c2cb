//! Small shared value types: subband orientations, code-block sizes, tile-part headers.
use vstd::prelude::*;

verus! {

/// Orientation of a wavelet subband.
#[derive(Debug, Clone, Copy, PartialEq, Eq, Structural)]
pub enum BandOrientation {
    Ll,
    Hl,
    Lh,
    Hh,
}

/// Nominal code-block size in samples.
#[derive(Debug, Clone, Copy, PartialEq, Eq, Structural)]
pub struct CodeBlockSize {
    pub width: u32,
    pub height: u32,
}

/// The fields of an SOT marker segment that identify a tile-part.
#[derive(Debug, Clone, Copy, PartialEq, Eq, Structural)]
pub struct TilePartHeader {
    pub tile_index: u16,
    pub part_index: u8,
    pub total_parts: u8,
}

/// Gain (in bits) of a subband orientation: 0 for LL, 1 for HL and LH, 2 for HH.
pub open spec fn spec_band_gain(band: BandOrientation) -> u8 {
    match band {
        BandOrientation::Ll => 0,
        BandOrientation::Hl => 1,
        BandOrientation::Lh => 1,
        BandOrientation::Hh => 2,
    }
}

/// Gain (in bits) of a subband orientation.
pub fn band_gain(band: BandOrientation) -> (g: u8)
    ensures
        g == spec_band_gain(band),
{
    match band {
        BandOrientation::Ll => 0,
        BandOrientation::Hl | BandOrientation::Lh => 1,
        BandOrientation::Hh => 2,
    }
}

} // verus!
