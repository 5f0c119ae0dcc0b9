//! Little-endian encodings used by the binary file: the 2-byte signed
//! decimetre sample and the 4-byte tile offset.

use vstd::prelude::*;

verus! {

/// Value of two little-endian bytes as an unsigned integer.
pub open spec fn spec_u16_of(lo: u8, hi: u8) -> int {
    lo + 256 * hi
}

/// Value of two little-endian bytes as a signed 16-bit sample
/// (elevation in decimetres).
pub open spec fn spec_dm_of(lo: u8, hi: u8) -> int {
    if spec_u16_of(lo, hi) < 32768 {
        spec_u16_of(lo, hi)
    } else {
        spec_u16_of(lo, hi) - 65536
    }
}

/// Value of four little-endian bytes as an unsigned 32-bit integer
/// (a tile body offset in the header).
pub open spec fn spec_u32_of(b0: u8, b1: u8, b2: u8, b3: u8) -> int {
    b0 + 256 * b1 + 65536 * b2 + 16777216 * b3
}

/// The signed sample encoded at position `p` of the image.
pub open spec fn spec_dm_at(d: Seq<u8>, p: int) -> int {
    spec_dm_of(d[p], d[p + 1])
}

/// The 32-bit offset encoded at position `p` of the image.
pub open spec fn spec_u32_at(d: Seq<u8>, p: int) -> int {
    spec_u32_of(d[p], d[p + 1], d[p + 2], d[p + 3])
}

/// Little-endian bytes of a signed decimetre sample.
pub fn dm_to_le(v: i16) -> (r: (u8, u8))
    ensures
        spec_dm_of(r.0, r.1) == v,
{
    let w: u16 = if v >= 0 {
        v as u16
    } else {
        ((v as i32) + 65536) as u16
    };
    let lo = (w % 256) as u8;
    let hi = (w / 256) as u8;
    proof {
        assert(w == 256 * (w as int / 256) + (w as int) % 256) by {
            vstd::arithmetic::div_mod::lemma_fundamental_div_mod(w as int, 256);
        }
    }
    (lo, hi)
}

/// Little-endian bytes of a 32-bit offset.
pub fn u32_to_le(x: u32) -> (r: (u8, u8, u8, u8))
    ensures
        spec_u32_of(r.0, r.1, r.2, r.3) == x,
{
    let b0 = (x % 256) as u8;
    let b1 = ((x / 256) % 256) as u8;
    let b2 = ((x / 65536) % 256) as u8;
    let b3 = (x / 16777216) as u8;
    proof {
        let xi = x as int;
        vstd::arithmetic::div_mod::lemma_fundamental_div_mod(xi, 256);
        vstd::arithmetic::div_mod::lemma_fundamental_div_mod(xi / 256, 256);
        vstd::arithmetic::div_mod::lemma_fundamental_div_mod(xi / 65536, 256);
        assert((xi / 256) / 256 == xi / 65536) by {
            vstd::arithmetic::div_mod::lemma_div_denominator(xi, 256, 256);
        }
        assert((xi / 65536) / 256 == xi / 16777216) by {
            vstd::arithmetic::div_mod::lemma_div_denominator(xi, 65536, 256);
        }
        assert(xi / 16777216 < 256) by (nonlinear_arith)
            requires xi <= 0xffff_ffff;
    }
    (b0, b1, b2, b3)
}

/// Decodes the 32-bit little-endian offset at `p` in the image.
pub fn read_u32_at(d: &Vec<u8>, p: usize) -> (r: u32)
    requires
        p + 4 <= d@.len(),
    ensures
        r == spec_u32_at(d@, p as int),
{
    let n = d.len();
    assert(p + 4 <= n);
    let b0 = d[p] as u32;
    let b1 = d[p + 1] as u32;
    let b2 = d[p + 2] as u32;
    let b3 = d[p + 3] as u32;
    b0 + 256 * b1 + 65536 * b2 + 16777216 * b3
}

/// Decodes the signed 16-bit little-endian sample at `p` in the image.
pub fn read_dm_at(d: &Vec<u8>, p: usize) -> (r: i16)
    requires
        p + 2 <= d@.len(),
    ensures
        r == spec_dm_at(d@, p as int),
{
    let n = d.len();
    assert(p + 2 <= n);
    let w: u32 = d[p] as u32 + 256 * (d[p + 1] as u32);
    if w < 32768 {
        w as i16
    } else {
        ((w as i32) - 65536) as i16
    }
}

} // verus!
