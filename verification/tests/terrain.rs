// End-to-end tests: tiles are written through the ASC parser and the
// binary writer, then read back through the coordinate parser and the
// reader, so every elevation checked here has crossed the whole
// write/read path.

use osterrain50::asc::parse_asc_tile;
use osterrain50::coords::{parse_coord, parse_coords};
use osterrain50::grid::{grid_id_bytes, origin_of, tile_id_containing};
use osterrain50::reader::{address_offset, read_elevation_dm, read_elevations, slot_offset};
use osterrain50::utils::{args_check, format_int, is_zip_file, ArgKind};
use osterrain50::writer::{build_output_file, TileSamples};
use osterrain50::{OSCoords, OsError};

const MIN_ELEV_DIFF: f32 = 1.5;

/// Renders a decimetre value as an ASC elevation token (integer metres,
/// or one decimal place).
fn dm_token(dm: i16) -> String {
    let neg = dm < 0;
    let a: i32 = if neg { -(dm as i32) } else { dm as i32 };
    if a % 10 == 0 {
        format!("{}{}", if neg { "-" } else { "" }, a / 10)
    } else {
        format!("{}{}.{}", if neg { "-" } else { "" }, a / 10, a % 10)
    }
}

/// Builds the CRLF text of one ASC tile: two metadata lines, then 200
/// rows of 200 tokens, north to south, with the given samples set
/// (row_from_south, col_from_west, decimetres) and zeros elsewhere.
fn asc_text(points: &[(usize, usize, i16)]) -> Vec<u8> {
    let mut s = String::new();
    s.push_str("ncols 200\r\n");
    s.push_str("nrows 200\r\n");
    for line in 0..200 {
        let row_from_south = 199 - line;
        let mut first = true;
        for col in 0..200 {
            if !first {
                s.push_str(" ");
            }
            first = false;
            let mut tok = String::from("0");
            for &(r, c, dm) in points {
                if r == row_from_south && c == col {
                    tok = dm_token(dm);
                }
            }
            s.push_str(&tok);
        }
        s.push_str("\r\n");
    }
    s.into_bytes()
}

/// Builds a binary image holding one sample per listed coordinate.
fn image_with(points: &[(i64, i64, i16)]) -> Vec<u8> {
    let mut tiles: Vec<Option<TileSamples>> = Vec::new();
    for _ in 0..9100 {
        tiles.push(None);
    }
    // Group the points by 10 km tile.
    let mut by_tile: Vec<(usize, Vec<(usize, usize, i16)>)> = Vec::new();
    for &(e, n, dm) in points {
        let tile = 100 * (7 * (n / 100000) + e / 100000) + 10 * ((n % 100000) / 10000)
            + (e % 100000) / 10000;
        let row = ((n % 100000) % 10000) / 50;
        let col = ((e % 100000) % 10000) / 50;
        let tile = tile as usize;
        let mut found = false;
        for entry in by_tile.iter_mut() {
            if entry.0 == tile {
                entry.1.push((row as usize, col as usize, dm));
                found = true;
            }
        }
        if !found {
            by_tile.push((tile, vec![(row as usize, col as usize, dm)]));
        }
    }
    for (tile, pts) in by_tile {
        let text = asc_text(&pts);
        let parsed = parse_asc_tile(&text).expect("tile text must parse");
        tiles[tile] = Some(parsed);
    }
    build_output_file(&tiles)
}

/// Difference between a published elevation and what the image returns
/// for a coordinate string.
fn get_elev_diff(published_elev: f32, coords: &str, image: &Vec<u8>) -> f32 {
    let parsed = parse_coords(&vec![coords]).expect("coordinate must parse");
    let out = read_elevations(image, &parsed, false).expect("read must succeed");
    let elev = out[0].elevation_dm.expect("elevation must be present") as f32 / 10.0;
    (published_elev - elev).abs()
}

#[test]
fn format_number_with_commas() {
    assert_eq!("1,000".to_string(), format_int(1_000));
    assert_eq!("1,000,000".to_string(), format_int(1_000_000));
    assert_eq!("1,000,000,000".to_string(), format_int(1_000_000_000));
}

#[test]
fn ben_nevis() {
    let published_elev = 1345.0;
    let coords = "NN 1669 7127";
    let image = image_with(&[(216690, 771270, 13450)]);
    let diff = get_elev_diff(published_elev, coords, &image);
    assert!(diff <= MIN_ELEV_DIFF, "Elevation difference is {}m", format!("{0:.1}", diff));
}

#[test]
fn cairn_gorm() {
    let published_elev = 1244.0;
    let coords = "300510, 804054";
    let image = image_with(&[(300510, 804054, 12440)]);
    let diff = get_elev_diff(published_elev, coords, &image);
    assert!(diff <= MIN_ELEV_DIFF, "Elevation difference is {}m", format!("{0:.1}", diff));
}

#[test]
fn mynydd_bodafon() {
    let published_elev = 173.8;
    let coords = "247244, 385418";
    let image = image_with(&[(247244, 385418, 1738)]);
    let diff = get_elev_diff(published_elev, coords, &image);
    assert!(diff <= MIN_ELEV_DIFF, "Elevation difference is {}m", format!("{0:.1}", diff));
}

#[test]
fn mount_snowdon() {
    let published_elev = 1056.8;
    let coords = "SH 6094 5434";
    let image = image_with(&[(260940, 354340, 10568)]);
    let diff = get_elev_diff(published_elev, coords, &image);
    assert!(diff <= MIN_ELEV_DIFF, "Elevation difference is {}m", format!("{0:.1}", diff));
}

#[test]
fn foel_cwmcerwyn() {
    let published_elev = 532.6;
    let coords = "209395, 231152";
    let image = image_with(&[(209395, 231152, 5326)]);
    let diff = get_elev_diff(published_elev, coords, &image);
    assert!(diff <= MIN_ELEV_DIFF, "Elevation difference is {}m", format!("{0:.1}", diff));
}

#[test]
fn beacon_hill() {
    let published_elev = 52.0;
    let coords = "573218, 341864";
    let image = image_with(&[(573218, 341864, 520)]);
    let diff = get_elev_diff(published_elev, coords, &image);
    assert!(diff <= MIN_ELEV_DIFF, "Elevation difference is {}m", format!("{0:.1}", diff));
}

#[test]
fn parliament_hill() {
    let published_elev = 101.6;
    let coords = "528054, 186978";
    let image = image_with(&[(528054, 186978, 1016)]);
    let diff = get_elev_diff(published_elev, coords, &image);
    assert!(diff <= MIN_ELEV_DIFF, "Elevation difference is {}m", format!("{0:.1}", diff));
}

#[test]
fn ebrington_hill() {
    let published_elev = 259.9;
    let coords = "SP 1872 4258";
    let image = image_with(&[(418720, 242580, 2599)]);
    let diff = get_elev_diff(published_elev, coords, &image);
    assert!(diff <= MIN_ELEV_DIFF, "Elevation difference is {}m", format!("{0:.1}", diff));
}

#[test]
fn butser_hill() {
    let published_elev = 270.4;
    let coords = "SU 7166 2031";
    let image = image_with(&[(471660, 120310, 2704)]);
    let diff = get_elev_diff(published_elev, coords, &image);
    assert!(diff <= MIN_ELEV_DIFF, "Elevation difference is {}m", format!("{0:.1}", diff));
}

#[test]
fn skiddaw() {
    let published_elev = 927.9;
    let coords = "326041, 529086";
    let image = image_with(&[(326041, 529086, 9279)]);
    let diff = get_elev_diff(published_elev, coords, &image);
    assert!(diff <= MIN_ELEV_DIFF, "Elevation difference is {}m", format!("{0:.1}", diff));
}

#[test]
fn black_rock() {
    // A negative sample must round-trip through the ASC text and the
    // binary image.
    let published_elev = -1.6;
    let coords = "183381, 31669";
    let image = image_with(&[(183381, 31669, -16)]);
    let diff = get_elev_diff(published_elev, coords, &image);
    assert!(diff <= MIN_ELEV_DIFF, "Elevation difference is {}m", format!("{0:.1}", diff));
}

#[test]
fn ronas_hill() {
    // Shetland: a seven-digit northing in the numeric form; the image
    // sample may sit up to 6 m from the published height.
    let published_elev = 443.3;
    let coords = "430530, 1183500";
    let image = image_with(&[(430530, 1183500, 4433)]);
    let diff = get_elev_diff(published_elev, coords, &image);
    assert!(diff <= 6.0, "Elevation difference is {}m", format!("{0:.1}", diff));
}

#[test]
fn gb_infills() {
    // All intermediate 50 m points from Niton Down, Isle of Wight, to
    // Dunan Mor, Cape Wrath: 18,485 elevation values.
    let start_and_finish_coords = parse_coords(&vec!["SZ 494 772", "NC 261 740"]).unwrap();
    let image = image_with(&[]);
    let mut num_elevations_found: usize = 0;
    if let Ok(elevations_found) = read_elevations(&image, &start_and_finish_coords, true) {
        num_elevations_found = elevations_found.len();
    }
    assert_eq!(18_485, num_elevations_found, "Elevations found: {}", num_elevations_found);
}

#[test]
fn sv_zero_digit_form() {
    // "SV" alone is the SW corner of the grid, and the first sample of
    // the file sits right after the header.
    let c = parse_coord("SV").unwrap();
    assert_eq!(c.easting, 0);
    assert_eq!(c.northing, 0);
    let image = image_with(&[(0, 0, 123)]);
    assert_eq!(image[36593] as i16 + ((image[36594] as i16) << 8), 123);
    assert_eq!(read_elevation_dm(&image, 0, 0), Ok(123));
}

#[test]
fn header_length_and_signature() {
    let image = image_with(&[(216690, 771270, 13450), (0, 0, 7)]);
    assert_eq!(image.len(), 36593 + 2 * 80000);
    assert_eq!(&image[0..11], b"OSTerrain50");
    let empty = image_with(&[]);
    assert_eq!(empty.len(), 36593);
}

#[test]
fn header_tile_identifiers() {
    let image = image_with(&[]);
    let expected: [&str; 14] = [
        "SV", "SW", "SX", "SY", "SZ", "TV", "TW", "SQ", "SR", "SS", "ST", "SU", "TQ", "TR",
    ];
    for g in 0..14 {
        let b = expected[g].as_bytes();
        assert_eq!(image[11 + 402 * g], b[0]);
        assert_eq!(image[11 + 402 * g + 1], b[1]);
    }
    // Every block letter pair agrees with the grid model.
    for g in 0..91 {
        let (b0, b1) = grid_id_bytes(g);
        assert_eq!(image[11 + 402 * g], b0);
        assert_eq!(image[11 + 402 * g + 1], b1);
    }
    // The last tile is JM.
    assert_eq!(image[11 + 402 * 90], b'J');
    assert_eq!(image[11 + 402 * 90 + 1], b'M');
}

fn header_offset(image: &Vec<u8>, idx: usize) -> u32 {
    let p = 11 + 402 * (idx / 100) + 2 + 4 * (idx % 100);
    image[p] as u32
        + 256 * (image[p + 1] as u32)
        + 65536 * (image[p + 2] as u32)
        + 16777216 * (image[p + 3] as u32)
}

#[test]
fn header_offsets_are_exact_body_starts() {
    // Two populated tiles: the set of nonzero offsets must be exactly
    // the two body start positions, in canonical order.
    let image = image_with(&[(0, 0, 5), (216690, 771270, 13450)]);
    let sv00 = 0;
    let nn17 = (100 * (7 * 7 + 2) + 10 * 7 + 1) as usize;
    let mut nonzero: Vec<(usize, u32)> = Vec::new();
    for idx in 0..9100 {
        let off = header_offset(&image, idx);
        if off != 0 {
            nonzero.push((idx, off));
        }
    }
    assert_eq!(nonzero.len(), 2);
    assert_eq!(nonzero[0], (sv00, 36593));
    assert_eq!(nonzero[1], (nn17, 36593 + 80000));
    // Offsets point inside the image, whole bodies, aligned.
    for &(_, off) in &nonzero {
        assert!(off as usize >= 36593);
        assert!(off as usize + 80000 <= image.len());
        assert_eq!((off as usize - 36593) % 80000, 0);
    }
}

#[test]
fn sample_bytes_sit_at_addressed_positions() {
    // Writer round trip: the sample value written for (row, col) can be
    // read back at tile_base + 2 * (row * 200 + col).
    let image = image_with(&[(216690, 771270, 13450)]);
    let nn17 = (100 * (7 * 7 + 2) + 10 * 7 + 1) as usize;
    let base = header_offset(&image, nn17) as usize;
    assert_eq!(base, 36593);
    let row = 1270 / 50;
    let col = 6690 / 50;
    let p = base + 2 * (row * 200 + col);
    let dm = image[p] as i32 + 256 * (image[p + 1] as i32);
    assert_eq!(dm, 13450);
}

#[test]
fn addressing_laws() {
    for &(e, n) in &[(0i64, 0i64), (216690, 771270), (699999, 1299999), (100000, 50)] {
        assert_eq!(slot_offset(e, n), 11 + 7 * (n / 100000) * 402 + (e / 100000) * 402);
        assert_eq!(
            address_offset(e, n),
            slot_offset(e, n) + 2 + 4 * (10 * ((n % 100000) / 10000) + (e % 100000) / 10000)
        );
    }
}

#[test]
fn boundary_coordinate_lands_in_east_tile() {
    // E = 100000 must resolve inside the eastern tile at intra-tile
    // offset 0, not at the end of the western one.
    let image = image_with(&[(100000, 0, 777)]);
    assert_eq!(read_elevation_dm(&image, 100000, 0), Ok(777));
    // The western neighbour tile holds no data at all.
    assert_eq!(read_elevation_dm(&image, 99999, 0), Ok(0));
}

#[test]
fn tile_corner_reads_sample_zero() {
    let image = image_with(&[(230000, 770000, 4242)]);
    assert_eq!(read_elevation_dm(&image, 230000, 770000), Ok(4242));
}

#[test]
fn sea_tile_reads_zero_without_error() {
    let image = image_with(&[]);
    // Mid-channel coordinate: its tile has no data.
    assert_eq!(read_elevation_dm(&image, 400000, 0), Ok(0));
    let parsed = parse_coords(&vec!["TV 0 0"]).unwrap();
    let out = read_elevations(&image, &parsed, false).unwrap();
    assert_eq!(out[0].elevation_dm, Some(0));
}

#[test]
fn reader_on_lattice_agrees_with_source() {
    // Values on the 50 m lattice come back exactly as the ASC source
    // said, to the decimetre.
    let pts = [
        (216690i64, 771270i64, 13450i16),
        (216740, 771270, -300),
        (216690, 771320, 13500),
        (210000, 770000, 1),
    ];
    let image = image_with(&pts);
    for &(e, n, dm) in &pts {
        assert_eq!(read_elevation_dm(&image, e, n), Ok(dm));
    }
}

#[test]
fn off_lattice_coordinate_floors_to_sample() {
    let image = image_with(&[(216650, 771250, 2222)]);
    // Anything in the 50 m cell floors to the same sample.
    assert_eq!(read_elevation_dm(&image, 216651, 771251), Ok(2222));
    assert_eq!(read_elevation_dm(&image, 216699, 771299), Ok(2222));
}

#[test]
fn short_image_reports_io_error() {
    // Too short for even the first header entry.
    let image: Vec<u8> = vec![0u8; 16];
    assert_eq!(read_elevation_dm(&image, 0, 0), Err(OsError::IoError));
    // Header complete, but the entry points at a body that is not there.
    let mut header_only: Vec<u8> = vec![0u8; 36593];
    header_only[13] = 0xf1; // 36593 little-endian
    header_only[14] = 0x8e;
    assert_eq!(read_elevation_dm(&header_only, 0, 0), Err(OsError::IoError));
    // A zero entry in a complete header is sea, not an error.
    let zeroed: Vec<u8> = vec![0u8; 36593];
    assert_eq!(read_elevation_dm(&zeroed, 0, 0), Ok(0));
}

#[test]
fn asc_rejects_malformed_token() {
    let mut s = String::new();
    for _ in 0..200 {
        let row = vec!["x"; 200].join(" ");
        s.push_str(&row);
        s.push_str("\r\n");
    }
    let text = s.into_bytes();
    assert_eq!(parse_asc_tile(&text).err(), Some(OsError::ParseError));
}

#[test]
fn asc_rejects_short_tile() {
    let mut s = String::new();
    for _ in 0..199 {
        let row = vec!["0"; 200].join(" ");
        s.push_str(&row);
        s.push_str("\r\n");
    }
    let text = s.into_bytes();
    assert_eq!(parse_asc_tile(&text).err(), Some(OsError::ShortTile));
}

#[test]
fn asc_reverses_rows_and_encodes_decimetres() {
    // First data line is the northernmost; samples are stored south to
    // north.  "1.5" reads 15 decimetres, "2" reads 20.
    let text = asc_text(&[(0, 0, 15), (199, 0, 20), (100, 3, -105)]);
    let tile = parse_asc_tile(&text).unwrap();
    assert_eq!(tile.samples.len(), 40000);
    assert_eq!(tile.samples[0], 15);
    assert_eq!(tile.samples[199 * 200], 20);
    assert_eq!(tile.samples[100 * 200 + 3], -105);
}

#[test]
fn asc_rejects_out_of_range_value() {
    // 40000 metres is 400000 decimetres, beyond i16.
    let mut t = String::new();
    t.push_str("meta\r\n");
    for line in 0..200 {
        let mut row: Vec<String> = vec!["0".to_string(); 200];
        if line == 0 {
            row[0] = "40000".to_string();
        }
        t.push_str(&row.join(" "));
        t.push_str("\r\n");
    }
    assert_eq!(parse_asc_tile(&t.into_bytes()).err(), Some(OsError::ParseError));
}

#[test]
fn coordinate_parser_variants() {
    // Spaced and unspaced alphanumeric forms agree.
    let a = parse_coord("SZ 8554 9214").unwrap();
    let b = parse_coord("SZ85549214").unwrap();
    assert_eq!((a.easting, a.northing), (485540, 92140));
    assert_eq!((b.easting, b.northing), (485540, 92140));
    // Ten-digit pairs are metre-exact.
    let c = parse_coord("SZ 85545 92142").unwrap();
    assert_eq!((c.easting, c.northing), (485545, 92142));
    // Numeric with comma, with space, with both.
    for s in &["485669, 92167", "485669 92167", "485669,92167"] {
        let p = parse_coord(s).unwrap();
        assert_eq!((p.easting, p.northing), (485669, 92167));
    }
    // Short digit runs are right-padded to 5 digits.
    let d = parse_coord("NN 1669 7127").unwrap();
    assert_eq!((d.easting, d.northing), (216690, 771270));
}

#[test]
fn coordinate_parser_rejects_bad_input() {
    assert_eq!(parse_coord("").err(), Some(OsError::InvalidCoord));
    assert_eq!(parse_coord("SI 12 34").err(), Some(OsError::InvalidCoord));
    assert_eq!(parse_coord("S").err(), Some(OsError::InvalidCoord));
    assert_eq!(parse_coord("SZ 123 45").err(), Some(OsError::InvalidCoord));
    assert_eq!(parse_coord("12x 45").err(), Some(OsError::InvalidCoord));
    assert_eq!(parse_coord("12 34 56").err(), Some(OsError::InvalidCoord));
    assert_eq!(parse_coord("123").err(), Some(OsError::InvalidCoord));
    assert_eq!(parse_coords(&vec!["SV", "bogus"]).err(), Some(OsError::InvalidCoord));
}

#[test]
fn infill_point_counts() {
    // 200 m apart: three infill points plus the two endpoints.
    let a = OSCoords { easting: 1000, northing: 1000, elevation_dm: None };
    let b = OSCoords { easting: 1000, northing: 1200, elevation_dm: None };
    let image = image_with(&[]);
    let out = read_elevations(&image, &vec![a, b], true).unwrap();
    assert_eq!(out.len(), 5);
    assert_eq!((out[0].easting, out[0].northing), (1000, 1000));
    assert_eq!((out[1].easting, out[1].northing), (1000, 1050));
    assert_eq!((out[4].easting, out[4].northing), (1000, 1200));
    // 50 m or closer: endpoints only.
    let c = OSCoords { easting: 1030, northing: 1040, elevation_dm: None };
    let out2 = read_elevations(&image, &vec![a, c], true).unwrap();
    assert_eq!(out2.len(), 2);
    // Without infill the list passes through, elevations filled.
    let out3 = read_elevations(&image, &vec![a, b], false).unwrap();
    assert_eq!(out3.len(), 2);
    assert_eq!(out3[0].elevation_dm, Some(0));
    // A single coordinate has no pair to densify.
    let out4 = read_elevations(&image, &vec![a], true).unwrap();
    assert_eq!(out4.len(), 0);
}

#[test]
fn grid_model_roundtrip() {
    for g in 0..91 {
        let (e, n) = origin_of(g);
        assert_eq!(tile_id_containing(e, n), g);
    }
    let (b0, b1) = grid_id_bytes(0);
    assert_eq!((b0, b1), (b'S', b'V'));
    let (c0, c1) = grid_id_bytes(51);
    assert_eq!((c0, c1), (b'N', b'N'));
    let (d0, d1) = grid_id_bytes(90);
    assert_eq!((d0, d1), (b'J', b'M'));
}

#[test]
fn zip_name_test() {
    assert!(is_zip_file("data.zip", true));
    assert!(!is_zip_file("data.zip", false));
    assert!(!is_zip_file("data.tar", true));
    assert!(!is_zip_file("zip", true));
}

#[test]
fn argument_decision() {
    assert_eq!(args_check(2, true, false), Ok(ArgKind::ZipFile));
    assert_eq!(args_check(2, true, true), Ok(ArgKind::ZipFile));
    assert_eq!(args_check(2, false, true), Ok(ArgKind::Directory));
    assert_eq!(args_check(2, false, false), Err(OsError::InvalidArgs));
    assert_eq!(args_check(1, true, true), Err(OsError::InvalidArgs));
    assert_eq!(args_check(3, true, true), Err(OsError::InvalidArgs));
}

#[test]
fn format_int_edges() {
    assert_eq!(format_int(0), "0");
    assert_eq!(format_int(999), "999");
    assert_eq!(format_int(-1_234_567), "-1,234,567");
    assert_eq!(format_int(-123_456), "-123,456");
}
