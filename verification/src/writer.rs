//! Builder of the binary elevation image.
//!
//! The image is a fixed 36 593-byte header followed by the bodies of the
//! populated 10 km tiles.  The header is the 11-byte ASCII signature
//! `OSTerrain50`, then 91 blocks of 402 bytes in canonical grid order:
//! two ASCII identifier letters and 100 little-endian 4-byte offsets, one
//! per 10 km tile, indexed by `sub_north * 10 + sub_east`.  An offset of 0
//! means the tile has no data; a nonzero offset is the absolute position
//! of the tile's 80 000-byte body (40 000 little-endian i16 decimetre
//! samples, row-major, south to north, west to east).

use vstd::prelude::*;
use crate::codec::{spec_dm_at, spec_u32_at, dm_to_le, u32_to_le};
use crate::grid::{grid_letter0, grid_letter1, grid_id_bytes};

verus! {

/// The parsed samples of one 10 km tile: 200 x 200 decimetre values,
/// row-major, south to north, west to east.
pub struct TileSamples {
    pub samples: Vec<i16>,
}

impl TileSamples {
    /// A tile always holds exactly 200 x 200 samples.
    pub open spec fn wf(&self) -> bool {
        self.samples@.len() == 40000
    }
}

/// The 11 ASCII bytes of the signature `OSTerrain50`.
pub open spec fn spec_sig() -> Seq<u8> {
    seq![79u8, 83u8, 84u8, 101u8, 114u8, 114u8, 97u8, 105u8, 110u8, 53u8, 48u8]
}

/// Position of the 402-byte header block of 100 km tile `g`.
pub open spec fn slot_base(g: int) -> int {
    11 + 402 * g
}

/// Position of the 4-byte header entry of the 10 km tile with flat index
/// `idx` (`idx == 100 * grid + sub_north * 10 + sub_east`).
pub open spec fn entry_pos(idx: int) -> int {
    slot_base(idx / 100) + 2 + 4 * (idx % 100)
}

/// Number of populated tiles among the first `n` flat indices.
pub open spec fn count_present(tiles: Seq<Option<TileSamples>>, n: int) -> int
    decreases n,
{
    if n <= 0 {
        0
    } else {
        count_present(tiles, n - 1) + if tiles[n - 1] is Some {
            1int
        } else {
            0int
        }
    }
}

/// Offset at which the body of the populated tile `idx` is written: the
/// header length plus one 80 000-byte body per populated tile before it.
pub open spec fn spec_tile_offset(tiles: Seq<Option<TileSamples>>, idx: int) -> int {
    36593 + 80000 * count_present(tiles, idx)
}

/// Position of sample `m` of the populated tile `idx`.
pub open spec fn sample_pos(tiles: Seq<Option<TileSamples>>, idx: int, m: int) -> int {
    spec_tile_offset(tiles, idx) + 2 * m
}

/// Well-formed writer input: one entry per 10 km tile of the 91-tile
/// grid, in flat canonical order, each populated entry a full tile.
pub open spec fn wf_tiles(tiles: Seq<Option<TileSamples>>) -> bool {
    &&& tiles.len() == 9100
    &&& forall|i: int|
        0 <= i < 9100 ==> (#[trigger] tiles[i] matches Some(ts) ==> ts.wf())
}

/// The full byte-exact statement of the file format, relating the input
/// tiles to the output image `d`:
/// the length accounts for the header and every populated body; the
/// signature and the 91 identifier letter pairs are in place; the header
/// entry of every populated tile holds its body offset and every other
/// entry holds 0; and every sample of every populated tile is encoded at
/// its position.
pub open spec fn valid_image(tiles: Seq<Option<TileSamples>>, d: Seq<u8>) -> bool {
    &&& d.len() == 36593 + 80000 * count_present(tiles, 9100)
    &&& forall|i: int| 0 <= i < 11 ==> #[trigger] d[i] == spec_sig()[i]
    &&& forall|g: int|
        0 <= g < 91 ==> d[#[trigger] slot_base(g)] == grid_letter0(g) && d[slot_base(g) + 1]
            == grid_letter1(g)
    &&& forall|idx: int|
        0 <= idx < 9100 ==> spec_u32_at(d, #[trigger] entry_pos(idx)) == (if tiles[idx] is Some {
            spec_tile_offset(tiles, idx)
        } else {
            0int
        })
    &&& forall|idx: int, m: int|
        0 <= idx < 9100 && 0 <= m < 40000 ==> (tiles[idx] matches Some(ts) ==> spec_dm_at(
            d,
            #[trigger] sample_pos(tiles, idx, m),
        ) == ts.samples[m])
}

/// Flat index `idx` decomposes as `100 * (idx / 100) + idx % 100`, and
/// its header entry lies inside its grid block, within the header.
pub proof fn lemma_entry_pos_range(idx: int)
    requires
        0 <= idx < 9100,
    ensures
        entry_pos(idx) == 11 + 402 * (idx / 100) + 2 + 4 * (idx % 100),
        0 <= idx / 100 < 91,
        0 <= idx % 100 < 100,
        idx == 100 * (idx / 100) + idx % 100,
        13 <= entry_pos(idx),
        entry_pos(idx) + 4 <= 36593,
{
    vstd::arithmetic::div_mod::lemma_fundamental_div_mod(idx, 100);
    assert(0 <= idx / 100 < 91) by (nonlinear_arith)
        requires 0 <= idx < 9100;
}

/// Header entries of distinct tiles occupy disjoint 4-byte windows.
pub proof fn lemma_entry_pos_disjoint(i: int, j: int)
    requires
        0 <= i < 9100,
        0 <= j < 9100,
        i < j,
    ensures
        entry_pos(i) + 4 <= entry_pos(j),
{
    lemma_entry_pos_range(i);
    lemma_entry_pos_range(j);
    let gi = i / 100;
    let gj = j / 100;
    if gi > gj {
        assert(100 * gi >= 100 * (gj + 1)) by (nonlinear_arith)
            requires gi >= gj + 1;
        assert(false);
    }
    if gi < gj {
        assert(402 * gj >= 402 * (gi + 1)) by (nonlinear_arith)
            requires gj >= gi + 1;
    }
}

/// The populated-tile count over a prefix is between 0 and the prefix
/// length, and is monotone in the prefix.
pub proof fn lemma_count_present_bounds(tiles: Seq<Option<TileSamples>>, n: int)
    requires
        0 <= n,
    ensures
        0 <= count_present(tiles, n) <= n,
    decreases n,
{
    if n > 0 {
        lemma_count_present_bounds(tiles, n - 1);
    }
}

/// Monotonicity of the populated-tile count.
pub proof fn lemma_count_present_mono(tiles: Seq<Option<TileSamples>>, a: int, b: int)
    requires
        0 <= a <= b,
    ensures
        count_present(tiles, a) <= count_present(tiles, b),
    decreases b - a,
{
    if a < b {
        lemma_count_present_mono(tiles, a, b - 1);
    }
}

/// Every sample of an earlier populated tile lies in the body region,
/// strictly before the body of tile `idx`.
pub proof fn lemma_sample_pos_bounds(tiles: Seq<Option<TileSamples>>, k: int, idx: int, m: int)
    requires
        0 <= k < idx <= 9100,
        0 <= m < 40000,
        tiles[k] is Some,
    ensures
        36593 <= sample_pos(tiles, k, m),
        sample_pos(tiles, k, m) + 2 <= spec_tile_offset(tiles, idx),
{
    lemma_count_present_bounds(tiles, k);
    lemma_count_present_mono(tiles, k + 1, idx);
    assert(count_present(tiles, k + 1) == count_present(tiles, k) + 1);
}

/// Header entry position of flat index `idx`, as executable arithmetic.
fn entry_pos_exec(idx: usize) -> (r: usize)
    requires
        idx < 9100,
    ensures
        r == entry_pos(idx as int),
        r + 4 <= 36593,
{
    proof {
        lemma_entry_pos_range(idx as int);
    }
    11 + 402 * (idx / 100) + 2 + 4 * (idx % 100)
}

/// Start position of the `t`-th tile body in the image.
pub open spec fn body_start(t: int) -> int {
    36593 + 80000 * t
}

/// The image is never shorter than the header, and its body region is a
/// whole number of 80 000-byte tile bodies.
pub proof fn lemma_image_length(tiles: Seq<Option<TileSamples>>, d: Seq<u8>)
    requires
        valid_image(tiles, d),
    ensures
        d.len() >= 36593,
        (d.len() - 36593) % 80000 == 0,
{
    lemma_count_present_bounds(tiles, 9100);
    vstd::arithmetic::div_mod::lemma_mod_multiples_basic(count_present(tiles, 9100), 80000);
}

/// Every nonzero header offset points at a whole tile body inside the
/// image: at or after the header end, leaving room for 80 000 body
/// bytes, and a whole number of bodies past the header.
pub proof fn lemma_offsets_in_range(tiles: Seq<Option<TileSamples>>, d: Seq<u8>)
    requires
        wf_tiles(tiles),
        valid_image(tiles, d),
    ensures
        forall|idx: int|
            0 <= idx < 9100 && spec_u32_at(d, #[trigger] entry_pos(idx)) != 0 ==> 36593
                <= spec_u32_at(d, entry_pos(idx)) && spec_u32_at(d, entry_pos(idx)) + 80000
                <= d.len() && (spec_u32_at(d, entry_pos(idx)) - 36593) % 80000 == 0,
{
    assert forall|idx: int|
        0 <= idx < 9100 && spec_u32_at(d, #[trigger] entry_pos(idx)) != 0 implies 36593
        <= spec_u32_at(d, entry_pos(idx)) && spec_u32_at(d, entry_pos(idx)) + 80000 <= d.len() && (
    spec_u32_at(d, entry_pos(idx)) - 36593) % 80000 == 0 by {
        if tiles[idx] is Some {
            lemma_count_present_bounds(tiles, idx);
            lemma_count_present_mono(tiles, idx + 1, 9100);
            assert(count_present(tiles, idx + 1) == count_present(tiles, idx) + 1);
            vstd::arithmetic::div_mod::lemma_mod_multiples_basic(
                count_present(tiles, idx),
                80000,
            );
        }
    }
}

/// Every populated prefix count below the total is witnessed by a
/// populated tile with exactly that count before it.
proof fn lemma_present_with_count(tiles: Seq<Option<TileSamples>>, n: int, t: int)
    requires
        0 <= t < count_present(tiles, n),
    ensures
        exists|idx: int|
            0 <= idx < n && #[trigger] count_present(tiles, idx) == t && tiles[idx] is Some,
    decreases n,
{
    if n > 0 {
        if t < count_present(tiles, n - 1) {
            lemma_present_with_count(tiles, n - 1, t);
        } else {
            lemma_count_present_bounds(tiles, if n > 0 { n - 1 } else { 0 });
            assert(count_present(tiles, n - 1) == t && tiles[n - 1] is Some);
        }
    }
}

/// Some populated tile's header entry holds the offset of the `t`-th
/// tile body.
pub open spec fn some_tile_has_offset(tiles: Seq<Option<TileSamples>>, d: Seq<u8>, t: int) -> bool {
    exists|idx: int|
        0 <= idx < 9100 && tiles[idx] is Some && spec_u32_at(d, #[trigger] entry_pos(idx))
            == body_start(t)
}

/// The set of nonzero header offsets is exactly the set of tile body
/// start positions: populated tiles have pairwise distinct offsets, and
/// every body start position is the offset of some populated tile.
pub proof fn lemma_offsets_exact(tiles: Seq<Option<TileSamples>>, d: Seq<u8>)
    requires
        wf_tiles(tiles),
        valid_image(tiles, d),
    ensures
        forall|i: int, j: int|
            #![trigger entry_pos(i), entry_pos(j)]
            0 <= i < j < 9100 && tiles[i] is Some && tiles[j] is Some ==> spec_u32_at(
                d,
                entry_pos(i),
            ) != spec_u32_at(d, entry_pos(j)),
        forall|t: int|
            0 <= t < count_present(tiles, 9100) ==> #[trigger] some_tile_has_offset(tiles, d, t),
{
    assert forall|i: int, j: int|
        #![trigger entry_pos(i), entry_pos(j)]
        0 <= i < j < 9100 && tiles[i] is Some && tiles[j] is Some implies spec_u32_at(
        d,
        entry_pos(i),
    ) != spec_u32_at(d, entry_pos(j)) by {
        lemma_count_present_mono(tiles, i + 1, j);
        assert(count_present(tiles, i + 1) == count_present(tiles, i) + 1);
    }
    assert forall|t: int| 0 <= t < count_present(tiles, 9100) implies #[trigger] some_tile_has_offset(
        tiles,
        d,
        t,
    ) by {
        lemma_present_with_count(tiles, 9100, t);
        let idx = choose|idx: int|
            0 <= idx < 9100 && #[trigger] count_present(tiles, idx) == t && tiles[idx] is Some;
        assert(spec_u32_at(d, entry_pos(idx)) == body_start(t));
    }
}

/// Builds the complete binary image from the parsed tiles, one entry per
/// 10 km tile in flat canonical order (`100 * grid + sub_north * 10 +
/// sub_east`), `None` standing for a tile without data.
///
/// The result satisfies every clause of `valid_image`: signature,
/// identifier letters, exact offsets for populated tiles, zero offsets
/// for absent ones, and every decimetre sample at its addressed position.
pub fn build_output_file(tiles: &Vec<Option<TileSamples>>) -> (out: Vec<u8>)
    requires
        wf_tiles(tiles@),
    ensures
        valid_image(tiles@, out@),
{
    let mut out: Vec<u8> = Vec::new();
    out.push(79);
    out.push(83);
    out.push(84);
    out.push(101);
    out.push(114);
    out.push(114);
    out.push(97);
    out.push(105);
    out.push(110);
    out.push(53);
    out.push(48);
    proof {
        assert(out@ =~= spec_sig());
    }

    // Header skeleton: identifier letters followed by 400 zero bytes per
    // 100 km tile.
    let mut g: usize = 0;
    while g < 91
        invariant
            g <= 91,
            out@.len() == 11 + 402 * g,
            forall|i: int| 0 <= i < 11 ==> #[trigger] out@[i] == spec_sig()[i],
            forall|g2: int|
                0 <= g2 < g ==> out@[#[trigger] slot_base(g2)] == grid_letter0(g2)
                    && out@[slot_base(g2) + 1] == grid_letter1(g2),
            forall|p: int, g2: int|
                #![trigger out@[p], slot_base(g2)]
                0 <= g2 < g && slot_base(g2) + 2 <= p < slot_base(g2) + 402 ==> out@[p] == 0,
        decreases 91 - g,
    {
        let (b0, b1) = grid_id_bytes(g);
        out.push(b0);
        out.push(b1);
        let ghost block_start: int = out@.len() as int;
        let mut z: usize = 0;
        while z < 400
            invariant
                z <= 400,
                out@.len() == block_start + z,
                block_start == 11 + 402 * g + 2,
                g < 91,
                forall|i: int| 0 <= i < 11 ==> #[trigger] out@[i] == spec_sig()[i],
                forall|g2: int|
                    0 <= g2 < g ==> out@[#[trigger] slot_base(g2)] == grid_letter0(g2)
                        && out@[slot_base(g2) + 1] == grid_letter1(g2),
                forall|p: int, g2: int|
                    #![trigger out@[p], slot_base(g2)]
                    0 <= g2 < g && slot_base(g2) + 2 <= p < slot_base(g2) + 402 ==> out@[p] == 0,
                out@[slot_base(g as int)] == grid_letter0(g as int),
                out@[slot_base(g as int) + 1] == grid_letter1(g as int),
                forall|p: int| block_start <= p < out@.len() ==> #[trigger] out@[p] == 0,
            decreases 400 - z,
    {
            out.push(0);
            z += 1;
        }
        g += 1;
    }
    assert(out@.len() == 36593);

    // Tile bodies, with the header entry of each populated tile patched
    // to the offset at which its body begins.
    let ghost tl: Seq<Option<TileSamples>> = tiles@;
    let mut idx: usize = 0;
    while idx < 9100
        invariant
            idx <= 9100,
            tl == tiles@,
            wf_tiles(tl),
            out@.len() == 36593 + 80000 * count_present(tl, idx as int),
            forall|i: int| 0 <= i < 11 ==> #[trigger] out@[i] == spec_sig()[i],
            forall|g2: int|
                0 <= g2 < 91 ==> out@[#[trigger] slot_base(g2)] == grid_letter0(g2)
                    && out@[slot_base(g2) + 1] == grid_letter1(g2),
            forall|k: int|
                0 <= k < idx ==> spec_u32_at(out@, #[trigger] entry_pos(k)) == (
                if tl[k] is Some {
                    spec_tile_offset(tl, k)
                } else {
                    0int
                }),
            forall|k: int|
                idx <= k < 9100 ==> spec_u32_at(out@, #[trigger] entry_pos(k)) == 0,
            forall|k: int, m: int|
                0 <= k < idx && 0 <= m < 40000 ==> (tl[k] matches Some(ts) ==> spec_dm_at(
                    out@,
                    #[trigger] sample_pos(tl, k, m),
                ) == ts.samples[m]),
        decreases 9100 - idx,
    {
        proof {
            lemma_count_present_bounds(tl, idx as int);
        }
        match &tiles[idx] {
            Some(ts) => {
                let off = out.len();
                assert(off <= 36593 + 80000 * 9100);
                let ob = u32_to_le(off as u32);
                let p = entry_pos_exec(idx);
                proof {
                    lemma_entry_pos_range(idx as int);
                }
                out.set(p, ob.0);
                out.set(p + 1, ob.1);
                out.set(p + 2, ob.2);
                out.set(p + 3, ob.3);
                proof {
                    // The patch fills exactly this tile's header entry and
                    // touches no other entry and no sample byte.
                    assert forall|k: int| 0 <= k < 9100 && k != idx implies entry_pos(k) + 4
                        <= entry_pos(idx as int) || entry_pos(idx as int) + 4 <= entry_pos(k) by {
                        if 0 <= k < 9100 && k != idx {
                            if k < idx {
                                lemma_entry_pos_disjoint(k, idx as int);
                            } else {
                                lemma_entry_pos_disjoint(idx as int, k);
                            }
                        }
                    }
                    assert(spec_u32_at(out@, entry_pos(idx as int)) == off);
                    assert forall|k: int, m2: int|
                        0 <= k < idx && 0 <= m2 < 40000 implies (tl[k] matches Some(ts2)
                            ==> spec_dm_at(out@, #[trigger] sample_pos(tl, k, m2))
                            == ts2.samples[m2]) by {
                        if tl[k] is Some {
                            lemma_sample_pos_bounds(tl, k, idx as int, m2);
                        }
                    }
                }
                let mut m: usize = 0;
                while m < 40000
                    invariant
                        m <= 40000,
                        tl == tiles@,
                        wf_tiles(tl),
                        idx < 9100,
                        ts.wf(),
                        tl[idx as int] == Some(*ts),
                        off == 36593 + 80000 * count_present(tl, idx as int),
                        out@.len() == off + 2 * m,
                        forall|i: int| 0 <= i < 11 ==> #[trigger] out@[i] == spec_sig()[i],
                        forall|g2: int|
                            0 <= g2 < 91 ==> out@[#[trigger] slot_base(g2)] == grid_letter0(g2)
                                && out@[slot_base(g2) + 1] == grid_letter1(g2),
                        forall|k: int|
                            0 <= k < idx ==> spec_u32_at(out@, #[trigger] entry_pos(k)) == (
                            if tl[k] is Some {
                                spec_tile_offset(tl, k)
                            } else {
                                0int
                            }),
                        forall|k: int|
                            idx < k < 9100 ==> spec_u32_at(out@, #[trigger] entry_pos(k)) == 0,
                        spec_u32_at(out@, entry_pos(idx as int)) == off,
                        forall|k: int, m2: int|
                            0 <= k < idx && 0 <= m2 < 40000 ==> (tl[k] matches Some(ts2)
                                ==> spec_dm_at(out@, #[trigger] sample_pos(tl, k, m2))
                                == ts2.samples[m2]),
                        forall|t: int|
                            0 <= t < m ==> spec_dm_at(out@, #[trigger] sample_pos(tl, idx as int, t))
                                == ts.samples[t],
                    decreases 40000 - m,
                {
                    proof {
                        lemma_entry_pos_range(idx as int);
                        lemma_count_present_bounds(tl, idx as int);
                        assert forall|k: int| 0 <= k < 9100 implies entry_pos(k) + 4 <= 36593 by {
                            lemma_entry_pos_range(k);
                        }
                    }
                    let b = dm_to_le(ts.samples[m]);
                    out.push(b.0);
                    out.push(b.1);
                    m += 1;
                    proof {
                        assert forall|k: int, m2: int|
                            0 <= k < idx && 0 <= m2 < 40000 implies (tl[k] matches Some(ts2)
                                ==> spec_dm_at(out@, #[trigger] sample_pos(tl, k, m2))
                                == ts2.samples[m2]) by {
                            if tl[k] is Some {
                                lemma_sample_pos_bounds(tl, k, idx as int, m2);
                            }
                        }
                    }
                }
                proof {
                    // One more populated tile accounted for.
                    assert(count_present(tl, idx as int + 1) == count_present(tl, idx as int) + 1);
                }
            },
            None => {
                proof {
                    assert(count_present(tl, idx as int + 1) == count_present(tl, idx as int));
                }
            },
        }
        idx += 1;
    }
    out
}

} // verus!
