//! The British National Grid model.
//!
//! Great Britain is covered by a 7-column x 13-row rectangle of 91
//! 100 km x 100 km tiles.  Tile `g` (0 <= g < 91) sits at column `g % 7`
//! and row `g / 7`, counted from the SV corner (west to east, south to
//! north); this index order is the canonical header order of the binary
//! file.  A tile is named by two letters: the first names the
//! 500 km x 500 km super-tile (S, T, N, O, H, J), the second one of the
//! 25 positions inside it (the alphabet without I).

use vstd::prelude::*;

verus! {

/// The 25-letter sub-grid alphabet as ASCII bytes, row 0 = "VWXYZ" in the
/// south, up to row 4 = "ABCDE" in the north (the letter I is skipped).
pub open spec fn letters_100() -> Seq<u8> {
    seq![
        86u8, 87u8, 88u8, 89u8, 90u8,
        81u8, 82u8, 83u8, 84u8, 85u8,
        76u8, 77u8, 78u8, 79u8, 80u8,
        70u8, 71u8, 72u8, 74u8, 75u8,
        65u8, 66u8, 67u8, 68u8, 69u8,
    ]
}

/// The 500 km super-tile letter for super-column `c5` (0..2) and
/// super-row `r5` (0..3): S T / N O / H J.
pub open spec fn letter_500(c5: int, r5: int) -> u8 {
    if r5 == 0 {
        if c5 == 0 {
            83u8
        } else {
            84u8
        }
    } else if r5 == 1 {
        if c5 == 0 {
            78u8
        } else {
            79u8
        }
    } else {
        if c5 == 0 {
            72u8
        } else {
            74u8
        }
    }
}

/// First identifier letter of 100 km tile `g` in canonical order.
pub open spec fn grid_letter0(g: int) -> u8 {
    letter_500((g % 7) / 5, (g / 7) / 5)
}

/// Second identifier letter of 100 km tile `g` in canonical order.
pub open spec fn grid_letter1(g: int) -> u8 {
    letters_100()[((g / 7) % 5) * 5 + (g % 7) % 5]
}

/// The two ASCII identifier letters of 100 km tile `g`, e.g. 0 -> "SV",
/// 90 -> "JM".  The canonical header order of the binary file is exactly
/// g = 0, 1, ..., 90.
pub fn grid_id_bytes(g: usize) -> (r: (u8, u8))
    requires
        g < 91,
    ensures
        r.0 == grid_letter0(g as int),
        r.1 == grid_letter1(g as int),
{
    let col = g % 7;
    let row = g / 7;
    let b0: u8 = if row < 5 {
        if col < 5 {
            83
        } else {
            84
        }
    } else if row < 10 {
        if col < 5 {
            78
        } else {
            79
        }
    } else {
        if col < 5 {
            72
        } else {
            74
        }
    };
    let c5 = col % 5;
    let r5 = row % 5;
    let base: u8 = if r5 == 0 {
        86
    } else if r5 == 1 {
        81
    } else if r5 == 2 {
        76
    } else if r5 == 3 {
        70
    } else {
        65
    };
    let b1: u8 = if r5 == 3 && c5 >= 3 {
        base + c5 as u8 + 1
    } else {
        base + c5 as u8
    };
    proof {
        assert(b1 == grid_letter1(g as int));
    }
    (b0, b1)
}

/// South-west corner of 100 km tile `g`, in metres from the SV origin.
pub fn origin_of(g: usize) -> (r: (i64, i64))
    requires
        g < 91,
    ensures
        r.0 == 100000 * ((g as int) % 7),
        r.1 == 100000 * ((g as int) / 7),
{
    let e: i64 = 100000 * ((g % 7) as i64);
    let n: i64 = 100000 * ((g / 7) as i64);
    (e, n)
}

/// Canonical index of the 100 km tile containing the coordinate; the
/// inverse of `origin_of` over valid GB coordinates.
pub fn tile_id_containing(easting: i64, northing: i64) -> (r: usize)
    requires
        0 <= easting < 700000,
        0 <= northing < 1300000,
    ensures
        r == 7 * ((northing as int) / 100000) + (easting as int) / 100000,
        r < 91,
{
    let col = (easting / 100000) as usize;
    let row = (northing / 100000) as usize;
    7 * row + col
}

/// The tile index round-trip: the tile containing the origin of tile `g`
/// is `g` itself.
pub proof fn lemma_tile_origin_roundtrip(g: int)
    requires
        0 <= g < 91,
    ensures
        7 * ((100000 * (g / 7)) / 100000) + (100000 * (g % 7)) / 100000 == g,
{
    assert((100000 * (g / 7)) / 100000 == g / 7) by (nonlinear_arith)
        requires 0 <= g;
    assert((100000 * (g % 7)) / 100000 == g % 7) by (nonlinear_arith)
        requires 0 <= g;
}

} // verus!
