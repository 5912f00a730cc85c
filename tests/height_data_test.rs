use flight_cone::height_data::{decode_hgt, get_file_name, stitch_tiles, HgtError};

#[test]
fn file_names_of_tiles() {
    assert_eq!(get_file_name(47, 11), "./data/N47E011.hgt");
    assert_eq!(get_file_name(-3, -71), "./data/S03W071.hgt");
    assert_eq!(get_file_name(0, 0), "./data/N00E000.hgt");
    assert_eq!(get_file_name(5, 123), "./data/N05E123.hgt");
}

fn bytes_of(values: &[i16]) -> Vec<u8> {
    values.iter().flat_map(|v| v.to_be_bytes()).collect()
}

#[test]
fn decode_reads_big_endian() {
    let tile = decode_hgt(&bytes_of(&[1, -2, 300, 4000])).unwrap();
    assert_eq!(tile.side, 2);
    assert_eq!(tile.heights, vec![1, -2, 300, 4000]);
}

#[test]
fn decode_patches_voids_from_left_then_above() {
    let raw = [10, -32768, 30, -32768, 50, 60, 70, 80, -5000];
    let tile = decode_hgt(&bytes_of(&raw)).unwrap();
    assert_eq!(tile.side, 3);
    assert_eq!(tile.heights, vec![10, 10, 30, 10, 50, 60, 70, 80, 80]);
}

#[test]
fn decode_rejects_bad_sizes_and_leading_void() {
    assert_eq!(decode_hgt(&vec![0u8; 6]).err(), Some(HgtError::BadSize));
    assert_eq!(decode_hgt(&vec![0u8; 3]).err(), Some(HgtError::BadSize));
    assert_eq!(
        decode_hgt(&bytes_of(&[-32768, 1, 2, 3])).err(),
        Some(HgtError::NoReplacement)
    );
    let empty = decode_hgt(&vec![]).unwrap();
    assert_eq!(empty.side, 0);
    assert!(empty.heights.is_empty());
}

#[test]
fn stitch_tiles_flips_each_tile_and_lays_bands_northwards() {
    // Two bands of two 2x2 tiles; row 0 of each tile is its northern edge.
    let sw = vec![1, 2, 3, 4];
    let se = vec![5, 6, 7, 8];
    let nw = vec![9, 10, 11, 12];
    let ne = vec![13, 14, 15, 16];
    let grid = stitch_tiles(&vec![sw, se, nw, ne], 2, 2, 2);
    assert_eq!(
        grid,
        vec![3, 4, 7, 8, 1, 2, 5, 6, 11, 12, 15, 16, 9, 10, 13, 14]
    );
}
