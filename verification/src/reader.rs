//! Resolution of an (easting, northing) coordinate to its elevation
//! sample, by pure offset arithmetic over the binary image.
//!
//! For a coordinate in metres from the SV origin, the 100 km tile is
//! `7 * (N / 100000) + E / 100000`, its header block starts at
//! `11 + 402 * tile`, and the 4-byte entry of the 10 km tile inside it is
//! indexed by `10 * sub_north + sub_east`.  A zero entry means no data
//! (sea, or landmass out of scope) and reads as elevation 0; a nonzero
//! entry is the absolute offset of the tile body, inside which the sample
//! sits at `2 * (200 * (intra_north / 50) + intra_east / 50)`.

use vstd::prelude::*;
use crate::{OSCoords, OsError};
use crate::codec::{spec_dm_at, spec_u32_at, read_dm_at, read_u32_at};
use crate::infill::{MAX_INFILL_COORD, en_seq, get_infills, lemma_en_seq_add, pair_points};
use crate::writer::{
    TileSamples, count_present, entry_pos, lemma_count_present_bounds, lemma_count_present_mono,
    lemma_entry_pos_range, lemma_sample_pos_bounds, sample_pos, spec_tile_offset, valid_image,
    wf_tiles,
};

verus! {

/// Largest coordinate value the address arithmetic accepts; far beyond
/// any GB coordinate, it only keeps the 64-bit offset sums in range.
pub const MAX_COORD: i64 = 1000000000000000;

/// Offset of the header block of the 100 km tile containing the
/// coordinate.
pub open spec fn spec_slot_offset(e: int, n: int) -> int {
    11 + 7 * (n / 100000) * 402 + (e / 100000) * 402
}

/// Offset of the 4-byte header entry of the 10 km tile containing the
/// coordinate.
pub open spec fn spec_address_offset(e: int, n: int) -> int {
    spec_slot_offset(e, n) + 2 + 4 * (10 * ((n % 100000) / 10000) + (e % 100000) / 10000)
}

/// Offset of the coordinate's sample relative to the start of its tile
/// body.
pub open spec fn spec_sample_rel(e: int, n: int) -> int {
    2 * ((((n % 100000) % 10000) / 50) * 200 + ((e % 100000) % 10000) / 50)
}

/// Flat canonical index of the 10 km tile containing the coordinate.
pub open spec fn tile_index(e: int, n: int) -> int {
    100 * (7 * (n / 100000) + e / 100000) + 10 * ((n % 100000) / 10000) + (e % 100000) / 10000
}

/// Row-major index of the coordinate's sample within its tile.
pub open spec fn sample_index(e: int, n: int) -> int {
    (((n % 100000) % 10000) / 50) * 200 + ((e % 100000) % 10000) / 50
}

/// What a read of the image `d` at the coordinate returns: `IoError`
/// where a read would run past the end of the image, elevation 0 for an
/// absent tile, and the addressed decimetre sample otherwise.
pub open spec fn spec_read_dm(d: Seq<u8>, e: int, n: int) -> Result<i16, OsError> {
    let ao = spec_address_offset(e, n);
    if ao + 4 > d.len() {
        Err(OsError::IoError)
    } else {
        let base = spec_u32_at(d, ao);
        if base == 0 {
            Ok(0i16)
        } else if base + spec_sample_rel(e, n) + 2 > d.len() {
            Err(OsError::IoError)
        } else {
            Ok(spec_dm_at(d, base + spec_sample_rel(e, n)) as i16)
        }
    }
}

/// Header-block offset for the coordinate (the first addressing law).
pub fn slot_offset(easting: i64, northing: i64) -> (r: i64)
    requires
        0 <= easting < MAX_COORD,
        0 <= northing < MAX_COORD,
    ensures
        r == 11 + 7 * ((northing as int) / 100000) * 402 + ((easting as int) / 100000) * 402,
        r == spec_slot_offset(easting as int, northing as int),
        11 <= r,
{
    proof {
        assert((northing as int) / 100000 < 10000000000) by (nonlinear_arith)
            requires 0 <= northing < 1000000000000000;
        assert((easting as int) / 100000 < 10000000000) by (nonlinear_arith)
            requires 0 <= easting < 1000000000000000;
        vstd::arithmetic::div_mod::lemma_div_pos_is_pos(northing as int, 100000);
        vstd::arithmetic::div_mod::lemma_div_pos_is_pos(easting as int, 100000);
    }
    11 + 7 * (northing / 100000) * 402 + (easting / 100000) * 402
}

/// Header-entry offset for the coordinate (the second addressing law).
pub fn address_offset(easting: i64, northing: i64) -> (r: i64)
    requires
        0 <= easting < MAX_COORD,
        0 <= northing < MAX_COORD,
    ensures
        r == spec_slot_offset(easting as int, northing as int) + 2 + 4 * (10 * (((northing as int)
            % 100000) / 10000) + ((easting as int) % 100000) / 10000),
        r == spec_address_offset(easting as int, northing as int),
        13 <= r,
{
    let s = slot_offset(easting, northing);
    proof {
        vstd::arithmetic::div_mod::lemma_mod_bound(northing as int, 100000);
        vstd::arithmetic::div_mod::lemma_mod_bound(easting as int, 100000);
    }
    s + 2 + 4 * (10 * ((northing % 100000) / 10000) + (easting % 100000) / 10000)
}

/// Sample offset within a tile body for the coordinate.
pub fn sample_rel(easting: i64, northing: i64) -> (r: i64)
    requires
        0 <= easting < MAX_COORD,
        0 <= northing < MAX_COORD,
    ensures
        r == spec_sample_rel(easting as int, northing as int),
        0 <= r <= 79998,
{
    proof {
        vstd::arithmetic::div_mod::lemma_mod_bound(northing as int, 100000);
        vstd::arithmetic::div_mod::lemma_mod_bound(easting as int, 100000);
        vstd::arithmetic::div_mod::lemma_mod_bound((northing as int) % 100000, 10000);
        vstd::arithmetic::div_mod::lemma_mod_bound((easting as int) % 100000, 10000);
    }
    let ie = (easting % 100000) % 10000;
    let inn = (northing % 100000) % 10000;
    2 * ((inn / 50) * 200 + ie / 50)
}

/// Reads the elevation for one coordinate from the binary image: at most
/// two bounded reads, exactly as `spec_read_dm` states.
pub fn read_elevation_dm(data: &Vec<u8>, easting: i64, northing: i64) -> (r: Result<i16, OsError>)
    requires
        0 <= easting < MAX_COORD,
        0 <= northing < MAX_COORD,
    ensures
        r == spec_read_dm(data@, easting as int, northing as int),
{
    let ao = address_offset(easting, northing);
    let len = data.len();
    if (ao as u64) + 4 > (len as u64) {
        return Err(OsError::IoError);
    }
    let base = read_u32_at(data, ao as usize);
    if base == 0 {
        return Ok(0);
    }
    let rel = sample_rel(easting, northing);
    let so = (base as u64) + (rel as u64);
    if so + 2 > (len as u64) {
        return Err(OsError::IoError);
    }
    let v = read_dm_at(data, so as usize);
    Ok(v)
}

/// The points contributed by the coordinate pairs from `i` on: for each
/// consecutive pair, its intermediate points and its end coordinate.
pub open spec fn pair_chain(coords: Seq<OSCoords>, i: int) -> Seq<(int, int)>
    decreases coords.len() - i,
{
    if 1 <= i < coords.len() {
        pair_points(
            coords[i - 1].easting as int,
            coords[i - 1].northing as int,
            coords[i].easting as int,
            coords[i].northing as int,
        ) + pair_chain(coords, i + 1)
    } else {
        Seq::empty()
    }
}

/// The densified polyline: the first coordinate, then the points of
/// every consecutive pair.  A single coordinate densifies to nothing.
pub open spec fn infilled_en(coords: Seq<OSCoords>) -> Seq<(int, int)> {
    if coords.len() < 2 {
        Seq::empty()
    } else {
        seq![(coords[0].easting as int, coords[0].northing as int)] + pair_chain(coords, 1)
    }
}

/// Some point of the list addresses past the end of the image.
pub open spec fn some_read_errs(d: Seq<u8>, target: Seq<(int, int)>) -> bool {
    exists|i: int|
        0 <= i < target.len() && #[trigger] spec_read_dm(d, target[i].0, target[i].1) is Err
}

/// Elevations for a coordinate list: with `infill` the list is first
/// densified to ~50 m spacing, then every point is resolved against the
/// image.  Returns the points with their elevations in decimetres, or
/// `IoError` when a point addresses past the end of the image.
pub fn read_elevations(data: &Vec<u8>, coords_list: &Vec<OSCoords>, infill: bool) -> (r: Result<
    Vec<OSCoords>,
    OsError,
>)
    requires
        coords_list@.len() >= 1,
        forall|i: int|
            0 <= i < coords_list@.len() ==> 0 <= (#[trigger] coords_list@[i]).easting
                <= MAX_INFILL_COORD && 0 <= coords_list@[i].northing <= MAX_INFILL_COORD,
    ensures
        ({
            let target = if infill {
                infilled_en(coords_list@)
            } else {
                en_seq(coords_list@)
            };
            match r {
                Ok(out) => {
                    &&& out@.len() == target.len()
                    &&& forall|i: int|
                        0 <= i < target.len() ==> (#[trigger] out@[i]).easting == target[i].0
                            && out@[i].northing == target[i].1
                    &&& forall|i: int|
                        0 <= i < target.len() ==> (#[trigger] spec_read_dm(
                            data@,
                            target[i].0,
                            target[i].1,
                        ) matches Ok(v) && out@[i].elevation_dm == Some(v))
                },
                Err(e) => {
                    &&& e == OsError::IoError
                    &&& some_read_errs(data@, target)
                },
            }
        }),
{
    let ghost cl = coords_list@;
    let ghost target: Seq<(int, int)> = if infill {
        infilled_en(cl)
    } else {
        en_seq(cl)
    };
    let mut pts: Vec<OSCoords> = Vec::new();
    if infill {
        let mut i: usize = 1;
        while i < coords_list.len()
            invariant
                1 <= i,
                i <= cl.len() || i == 1,
                cl == coords_list@,
                cl.len() >= 1,
                forall|t: int|
                    0 <= t < cl.len() ==> 0 <= (#[trigger] cl[t]).easting <= MAX_INFILL_COORD && 0
                        <= cl[t].northing <= MAX_INFILL_COORD,
                (i == 1 && pts@.len() == 0) || (2 <= i && en_seq(pts@) + pair_chain(cl, i as int)
                    == infilled_en(cl)),
                forall|t: int|
                    0 <= t < pts@.len() ==> 0 <= (#[trigger] pts@[t]).easting <= MAX_INFILL_COORD
                        && 0 <= pts@[t].northing <= MAX_INFILL_COORD,
            decreases cl.len() - i,
        {
            let prev = coords_list[i - 1];
            let cur = coords_list[i];
            let mut seg = get_infills(prev, cur, i == 1);
            let ghost old_pts = pts@;
            let ghost segv = seg@;
            pts.append(&mut seg);
            proof {
                let pp = pair_points(
                    prev.easting as int,
                    prev.northing as int,
                    cur.easting as int,
                    cur.northing as int,
                );
                lemma_en_seq_add(old_pts, segv);
                assert(en_seq(pts@) == en_seq(old_pts) + en_seq(segv));
                if i == 1 {
                    assert(en_seq(segv) == seq![(prev.easting as int, prev.northing as int)] + pp);
                    assert(en_seq(old_pts) =~= Seq::<(int, int)>::empty());
                    assert(pair_chain(cl, 1) == pp + pair_chain(cl, 2));
                    assert(en_seq(pts@) + pair_chain(cl, (i + 1) as int) =~= infilled_en(cl));
                } else {
                    assert(en_seq(segv) == Seq::<(int, int)>::empty() + pp);
                    assert(en_seq(segv) =~= pp);
                    assert(pair_chain(cl, i as int) == pp + pair_chain(cl, i as int + 1));
                    assert(en_seq(pts@) + pair_chain(cl, (i + 1) as int) =~= en_seq(old_pts)
                        + pair_chain(cl, i as int));
                }
            }
            i += 1;
        }
        proof {
            if cl.len() >= 2 {
                assert(pair_chain(cl, cl.len() as int) == Seq::<(int, int)>::empty());
                assert(en_seq(pts@) =~= en_seq(pts@) + pair_chain(cl, cl.len() as int));
                assert(en_seq(pts@) == infilled_en(cl));
            } else {
                assert(en_seq(pts@) =~= infilled_en(cl));
            }
        }
    } else {
        let mut i: usize = 0;
        while i < coords_list.len()
            invariant
                i <= cl.len(),
                cl == coords_list@,
                forall|t: int|
                    0 <= t < cl.len() ==> 0 <= (#[trigger] cl[t]).easting <= MAX_INFILL_COORD && 0
                        <= cl[t].northing <= MAX_INFILL_COORD,
                pts@.len() == i,
                forall|t: int| 0 <= t < i ==> #[trigger] pts@[t] == cl[t],
            decreases cl.len() - i,
        {
            pts.push(coords_list[i]);
            i += 1;
        }
        proof {
            assert(en_seq(pts@) =~= en_seq(cl));
        }
    }
    assert(en_seq(pts@) == target);
    let mut out: Vec<OSCoords> = Vec::new();
    let mut t: usize = 0;
    while t < pts.len()
        invariant
            t <= pts@.len(),
            out@.len() == t,
            cl == coords_list@,
            target == if infill { infilled_en(cl) } else { en_seq(cl) },
            en_seq(pts@) == target,
            forall|u: int|
                0 <= u < pts@.len() ==> 0 <= (#[trigger] pts@[u]).easting <= MAX_INFILL_COORD && 0
                    <= pts@[u].northing <= MAX_INFILL_COORD,
            forall|u: int|
                0 <= u < t ==> (#[trigger] out@[u]).easting == pts@[u].easting && out@[u].northing
                    == pts@[u].northing,
            forall|u: int|
                0 <= u < t ==> (#[trigger] spec_read_dm(
                    data@,
                    pts@[u].easting as int,
                    pts@[u].northing as int,
                ) matches Ok(v) && out@[u].elevation_dm == Some(v)),
        decreases pts@.len() - t,
    {
        let c = pts[t];
        match read_elevation_dm(data, c.easting, c.northing) {
            Ok(v) => {
                out.push(OSCoords { easting: c.easting, northing: c.northing, elevation_dm: Some(v) });
            },
            Err(_) => {
                proof {
                    assert(target.len() == pts@.len());
                    assert(target[t as int] == (pts@[t as int].easting as int,
                    pts@[t as int].northing as int));
                    assert(spec_read_dm(data@, target[t as int].0, target[t as int].1) is Err);
                    assert(some_read_errs(data@, target));
                }
                return Err(OsError::IoError);
            },
        }
        t += 1;
    }
    proof {
        assert forall|i: int| 0 <= i < target.len() implies (#[trigger] out@[i]).easting
            == target[i].0 && out@[i].northing == target[i].1 by {
            assert(target[i] == (pts@[i].easting as int, pts@[i].northing as int));
        }
        assert forall|i: int| 0 <= i < target.len() implies (#[trigger] spec_read_dm(
            data@,
            target[i].0,
            target[i].1,
        ) matches Ok(v) && out@[i].elevation_dm == Some(v)) by {
            assert(target[i] == (pts@[i].easting as int, pts@[i].northing as int));
        }
    }
    Ok(out)
}

/// Decomposition of the addressing arithmetic: for a GB coordinate, the
/// header entry addressed by `spec_address_offset` is exactly the entry
/// of the flat tile index, and the relative sample offset is exactly
/// twice the row-major sample index.
pub proof fn lemma_address_decomposition(e: int, n: int)
    requires
        0 <= e < 700000,
        0 <= n < 1300000,
    ensures
        0 <= tile_index(e, n) < 9100,
        entry_pos(tile_index(e, n)) == spec_address_offset(e, n),
        0 <= sample_index(e, n) < 40000,
        spec_sample_rel(e, n) == 2 * sample_index(e, n),
{
    let a = n / 100000;
    let b = e / 100000;
    let jn = (n % 100000) / 10000;
    let je = (e % 100000) / 10000;
    let slot = 7 * a + b;
    let j = 10 * jn + je;
    let idx = 100 * slot + j;
    vstd::arithmetic::div_mod::lemma_mod_bound(n, 100000);
    vstd::arithmetic::div_mod::lemma_mod_bound(e, 100000);
    vstd::arithmetic::div_mod::lemma_div_pos_is_pos(n, 100000);
    vstd::arithmetic::div_mod::lemma_div_pos_is_pos(e, 100000);
    vstd::arithmetic::div_mod::lemma_div_pos_is_pos(n % 100000, 10000);
    vstd::arithmetic::div_mod::lemma_div_pos_is_pos(e % 100000, 10000);
    assert(a <= 12) by {
        vstd::arithmetic::div_mod::lemma_multiply_divide_lt(n, 100000, 13);
    }
    assert(b <= 6) by {
        vstd::arithmetic::div_mod::lemma_multiply_divide_lt(e, 100000, 7);
    }
    assert(jn <= 9) by {
        vstd::arithmetic::div_mod::lemma_multiply_divide_lt(n % 100000, 10000, 10);
    }
    assert(je <= 9) by {
        vstd::arithmetic::div_mod::lemma_multiply_divide_lt(e % 100000, 10000, 10);
    }
    assert(tile_index(e, n) == idx);
    assert(0 <= idx < 9100);
    assert(idx / 100 == slot && idx % 100 == j) by {
        vstd::arithmetic::div_mod::lemma_fundamental_div_mod_converse(idx, 100, slot, j);
    }
    assert(entry_pos(idx) == 11 + 402 * slot + 2 + 4 * j);
    assert(spec_address_offset(e, n) == 11 + 7 * a * 402 + b * 402 + 2 + 4 * j);
    assert(402 * (7 * a + b) == 7 * a * 402 + b * 402) by (nonlinear_arith);
    let rn = (n % 100000) % 10000;
    let re = (e % 100000) % 10000;
    vstd::arithmetic::div_mod::lemma_mod_bound(n % 100000, 10000);
    vstd::arithmetic::div_mod::lemma_mod_bound(e % 100000, 10000);
    vstd::arithmetic::div_mod::lemma_div_pos_is_pos(rn, 50);
    vstd::arithmetic::div_mod::lemma_div_pos_is_pos(re, 50);
    assert(rn / 50 <= 199) by {
        vstd::arithmetic::div_mod::lemma_multiply_divide_lt(rn, 50, 200);
    }
    assert(re / 50 <= 199) by {
        vstd::arithmetic::div_mod::lemma_multiply_divide_lt(re, 50, 200);
    }
}

/// Reading a coordinate whose 10 km tile is populated returns exactly
/// the tile's sample at the coordinate's row and column: the writer and
/// the reader agree on every sample of every populated tile.
pub proof fn lemma_read_present_tile(
    tiles: Seq<Option<TileSamples>>,
    d: Seq<u8>,
    e: int,
    n: int,
)
    requires
        wf_tiles(tiles),
        valid_image(tiles, d),
        0 <= e < 700000,
        0 <= n < 1300000,
        tiles[tile_index(e, n)] is Some,
    ensures
        tiles[tile_index(e, n)] matches Some(ts) && spec_read_dm(d, e, n) == Ok::<i16, OsError>(
            ts.samples[sample_index(e, n)],
        ),
{
    lemma_address_decomposition(e, n);
    let idx = tile_index(e, n);
    let m = sample_index(e, n);
    lemma_entry_pos_range(idx);
    lemma_count_present_bounds(tiles, idx);
    lemma_count_present_mono(tiles, idx + 1, 9100);
    assert(count_present(tiles, idx + 1) == count_present(tiles, idx) + 1);
    lemma_sample_pos_bounds(tiles, idx, 9100, m);
    assert(spec_u32_at(d, entry_pos(idx)) == spec_tile_offset(tiles, idx));
    assert(spec_tile_offset(tiles, idx) + spec_sample_rel(e, n) == sample_pos(tiles, idx, m));
    let ts = tiles[idx]->Some_0;
    assert(spec_dm_at(d, sample_pos(tiles, idx, m)) == ts.samples[m]);
    assert(-32768 <= ts.samples[m] <= 32767);
}

/// Reading a coordinate whose 10 km tile is absent returns elevation 0
/// and no error: a zero header entry is the sole "no data" sentinel.
pub proof fn lemma_read_absent_tile(tiles: Seq<Option<TileSamples>>, d: Seq<u8>, e: int, n: int)
    requires
        wf_tiles(tiles),
        valid_image(tiles, d),
        0 <= e < 700000,
        0 <= n < 1300000,
        tiles[tile_index(e, n)] is None,
    ensures
        spec_read_dm(d, e, n) == Ok::<i16, OsError>(0i16),
{
    lemma_address_decomposition(e, n);
    let idx = tile_index(e, n);
    lemma_entry_pos_range(idx);
    lemma_count_present_bounds(tiles, 9100);
    assert(spec_u32_at(d, entry_pos(idx)) == 0);
}

/// A coordinate on a 100 km tile boundary belongs to the tile east of
/// the boundary: its easting contributes nothing to the entry offset
/// inside the block and nothing to the intra-tile position.  A
/// coordinate on a 10 km tile corner addresses sample (0, 0) of that
/// tile.
pub proof fn lemma_boundary_addressing(e: int, n: int)
    requires
        0 <= e,
        0 <= n,
    ensures
        e % 100000 == 0 ==> (e % 100000) / 10000 == 0 && (e % 100000) % 10000 == 0,
        e % 100000 == 0 ==> spec_address_offset(e, n) == spec_slot_offset(e, n) + 2 + 4 * (10 * ((
        n % 100000) / 10000)),
        e % 10000 == 0 && n % 10000 == 0 ==> sample_index(e, n) == 0 && spec_sample_rel(e, n)
            == 0,
{
    if e % 100000 == 0 {
        assert((e % 100000) / 10000 == 0 && (e % 100000) % 10000 == 0);
    }
    if e % 10000 == 0 && n % 10000 == 0 {
        vstd::arithmetic::div_mod::lemma_mod_mod(e, 10000, 10);
        vstd::arithmetic::div_mod::lemma_mod_mod(n, 10000, 10);
        assert((e % 100000) % 10000 == e % 10000) by {
            vstd::arithmetic::div_mod::lemma_mod_mod(e, 10000, 10);
        }
        assert((n % 100000) % 10000 == n % 10000) by {
            vstd::arithmetic::div_mod::lemma_mod_mod(n, 10000, 10);
        }
    }
}

} // verus!
