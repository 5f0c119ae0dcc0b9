//! Random-access binary store for Ordnance Survey Terrain 50 elevation data.
//!
//! The library models the British National Grid, parses the `.asc` tile
//! files, builds the `OSTerrain50` binary image (fixed header mapping every
//! 10 km tile to a byte offset, followed by the tile bodies), and resolves
//! an (easting, northing) coordinate back to its elevation sample through
//! pure offset arithmetic.  A polyline can be densified to ~50 m spacing
//! before the lookup.  All file and archive handling lives outside the
//! library; every function here is verified.

use vstd::prelude::*;

pub mod asc;
pub mod codec;
pub mod coords;
pub mod grid;
pub mod infill;
pub mod reader;
pub mod utils;
pub mod writer;

verus! {

/// The error taxonomy of the library.
///
/// `IoError` stands for a read that runs past the end of the data image,
/// `ParseError` for a malformed elevation token, `ShortTile` for a tile
/// file without exactly 200 usable data rows, `InvalidCoord` for a
/// coordinate string that cannot be decoded, and `InvalidArgs` for a
/// command line of the wrong shape.
#[derive(Debug, Clone, Copy, PartialEq, Eq, Structural)]
pub enum OsError {
    IoError,
    ParseError,
    ShortTile,
    InvalidCoord,
    InvalidArgs,
}

/// A British National Grid position in whole metres from the SV origin,
/// optionally carrying the elevation found for it, in decimetres.
#[derive(Debug, Clone, Copy)]
pub struct OSCoords {
    pub easting: i64,
    pub northing: i64,
    pub elevation_dm: Option<i16>,
}

} // verus!
