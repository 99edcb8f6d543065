use wfc::error::WfcError;
use wfc::image_data::ImageData;
use wfc::library::TileLibrary;
use wfc::rules::RuleTable;
use wfc::tile::direction_offset;
use wfc::tile::sample_square;
use wfc::tile::tiles_match;
use wfc::wfc::WFCParameters;

const A: u32 = 0xff00_00ff;
const B: u32 = 0xff00_ff00;
const C: u32 = 0xffff_0000;

fn checkerboard() -> ImageData {
    ImageData::from_pixels(&[A, B, B, A], 2, 2)
}

#[test]
fn directions_are_up_right_down_left() {
    assert_eq!(direction_offset(0), (0, -1));
    assert_eq!(direction_offset(1), (1, 0));
    assert_eq!(direction_offset(2), (0, 1));
    assert_eq!(direction_offset(3), (-1, 0));
}

#[test]
fn sample_square_is_anchored_at_the_top_left() {
    let img = ImageData::from_pixels(&[1, 2, 3, 4, 5, 6, 7, 8, 9], 3, 3);
    assert_eq!(sample_square(&img, 2, 0, 0), vec![1, 2, 4, 5]);
    assert_eq!(sample_square(&img, 2, 1, 1), vec![5, 6, 8, 9]);
    assert_eq!(sample_square(&img, 1, 2, 1), vec![6]);
}

#[test]
fn sample_square_wraps_around_the_edges() {
    let img = ImageData::from_pixels(&[1, 2, 3, 4, 5, 6, 7, 8, 9], 3, 3);
    assert_eq!(sample_square(&img, 2, 2, 2), vec![9, 7, 3, 1]);
    assert_eq!(sample_square(&img, 2, -1, 0), vec![3, 1, 6, 4]);
    assert_eq!(sample_square(&img, 2, 3, 3), vec![1, 2, 4, 5]);
}

#[test]
fn sample_square_larger_than_the_image_repeats_it() {
    let img = ImageData::from_pixels(&[1, 2], 2, 1);
    assert_eq!(sample_square(&img, 3, 0, 0), vec![1, 2, 1, 1, 2, 1, 1, 2, 1]);
}

#[test]
fn sample_square_of_size_zero_is_empty() {
    let img = ImageData::from_pixels(&[1, 2], 2, 1);
    assert_eq!(sample_square(&img, 0, 0, 0), Vec::<u32>::new());
}

#[test]
fn tiles_match_compares_the_overlap_only() {
    let left = vec![1, 2, 3, 4];
    let right = vec![2, 9, 4, 9];
    assert!(tiles_match(&left, &right, 1, 0, 2));
    assert!(!tiles_match(&right, &left, 1, 0, 2));
    assert!(tiles_match(&right, &left, -1, 0, 2));
}

#[test]
fn tiles_match_in_the_vertical() {
    let top = vec![1, 2, 3, 4];
    let bottom = vec![3, 4, 7, 8];
    assert!(tiles_match(&top, &bottom, 0, 1, 2));
    assert!(tiles_match(&bottom, &top, 0, -1, 2));
    assert!(!tiles_match(&top, &bottom, 0, -1, 2));
}

#[test]
fn tiles_match_without_shift_is_equality() {
    let one = vec![1, 2, 3, 4];
    let other = vec![1, 2, 3, 5];
    assert!(tiles_match(&one, &one, 0, 0, 2));
    assert!(!tiles_match(&one, &other, 0, 0, 2));
}

#[test]
fn tiles_match_without_overlap_is_true() {
    let one = vec![1, 2, 3, 4];
    let other = vec![5, 6, 7, 8];
    assert!(tiles_match(&one, &other, 2, 0, 2));
    assert!(tiles_match(&one, &other, 0, -2, 2));
    assert!(tiles_match(&one, &other, isize::MIN, isize::MAX, 2));
    assert!(tiles_match(&vec![1], &vec![2], 1, 0, 1));
}

#[test]
fn tiles_match_of_size_zero_is_true() {
    assert!(tiles_match(&vec![], &vec![], 1, 0, 0));
    assert!(tiles_match(&vec![1], &vec![2], 0, 0, -1));
}

#[test]
fn rule_table_starts_empty() {
    let table = RuleTable::new(3);
    assert_eq!(table.tile_count(), 3);
    for d in 0..4 {
        for a in 0..3 {
            for b in 0..3 {
                assert!(!table.okay(d, a, b));
            }
        }
    }
}

#[test]
fn add_rule_allows_one_triple() {
    let mut table = RuleTable::new(3);
    table.add_rule(2, 1, 0);
    for d in 0..4 {
        for a in 0..3 {
            for b in 0..3 {
                assert_eq!(table.okay(d, a, b), (d, a, b) == (2, 1, 0));
            }
        }
    }
}

#[test]
fn rule_table_clone_keeps_the_rules() {
    let mut table = RuleTable::new(2);
    table.add_rule(3, 0, 1);
    let copy = table.clone();
    assert_eq!(copy.tile_count(), 2);
    assert!(copy.okay(3, 0, 1));
    assert!(!copy.okay(3, 1, 0));
}

#[test]
fn derive_runs_the_overlap_test_on_every_pair() {
    let tiles = vec![vec![A, B, B, A], vec![B, A, A, B]];
    let table = RuleTable::derive(&tiles, 2);
    for d in 0..4 {
        assert!(!table.okay(d, 0, 0));
        assert!(table.okay(d, 0, 1));
        assert!(table.okay(d, 1, 0));
        assert!(!table.okay(d, 1, 1));
    }
}

#[test]
fn extract_finds_tiles_in_scan_order() {
    let img = ImageData::from_pixels(&[A, B, C, A], 4, 1);
    let lib = TileLibrary::extract(&img, 1).unwrap();
    assert_eq!(lib.tiles, vec![vec![A], vec![B], vec![C]]);
    assert_eq!(lib.frequency, vec![2, 1, 1]);
    assert_eq!(lib.tile_sz, 1);
}

#[test]
fn extract_counts_every_source_cell_once() {
    let lib = TileLibrary::extract(&checkerboard(), 2).unwrap();
    assert_eq!(lib.tiles, vec![vec![A, B, B, A], vec![B, A, A, B]]);
    assert_eq!(lib.frequency, vec![2, 2]);
}

#[test]
fn extract_refuses_a_tile_size_that_is_not_positive() {
    assert_eq!(TileLibrary::extract(&checkerboard(), 0).err(), Some(WfcError::InvalidTileSize));
    assert_eq!(TileLibrary::extract(&checkerboard(), -3).err(), Some(WfcError::InvalidTileSize));
}

#[test]
fn extract_refuses_an_empty_source() {
    let empty = ImageData::new(0, 0);
    assert_eq!(TileLibrary::extract(&empty, 1).err(), Some(WfcError::EmptySource));
    let flat = ImageData::new(3, 0);
    assert_eq!(TileLibrary::extract(&flat, 1).err(), Some(WfcError::EmptySource));
}

#[test]
fn extract_refuses_a_tile_too_large_to_hold() {
    assert_eq!(TileLibrary::extract(&checkerboard(), isize::MAX).err(), Some(WfcError::TooLarge));
}

#[test]
fn invalid_tile_size_is_reported_before_an_empty_source() {
    let empty = ImageData::new(0, 0);
    assert_eq!(WFCParameters::from_image_data(&empty, 0).err(), Some(WfcError::InvalidTileSize));
}

#[test]
fn from_image_data_refuses_invalid_input() {
    let empty = ImageData::new(0, 5);
    assert_eq!(WFCParameters::from_image_data(&empty, 3).err(), Some(WfcError::EmptySource));
    assert_eq!(
        WFCParameters::from_image_data(&checkerboard(), -1).err(),
        Some(WfcError::InvalidTileSize)
    );
}

#[test]
fn trivial_source_teaches_one_tile_that_allows_itself() {
    let img = ImageData::from_pixels(&[C], 1, 1);
    let params = WFCParameters::from_image_data(&img, 1).unwrap();
    assert_eq!(params.wfc_tiles, vec![C]);
    assert_eq!(params.wfc_frequency, vec![1]);
    assert_eq!(params.wfc_tile_sz, 1);
    assert_eq!(params.wfc_rules.tile_count(), 1);
    for d in 0..4 {
        assert!(params.wfc_rules.okay(d, 0, 0));
    }
}

#[test]
fn checkerboard_teaches_two_tiles_that_alternate() {
    let params = WFCParameters::from_image_data(&checkerboard(), 2).unwrap();
    assert_eq!(params.wfc_tiles, vec![A, B]);
    assert_eq!(params.wfc_frequency, vec![2, 2]);
    assert_eq!(params.wfc_tile_sz, 2);
    for d in 0..4 {
        assert!(!params.wfc_rules.okay(d, 0, 0));
        assert!(params.wfc_rules.okay(d, 0, 1));
        assert!(params.wfc_rules.okay(d, 1, 0));
        assert!(!params.wfc_rules.okay(d, 1, 1));
    }
}

#[test]
fn stripes_teach_rules_that_depend_on_the_direction() {
    // Rows alternate between A and B; tiles of side 2.
    let img = ImageData::from_pixels(&[A, A, B, B], 2, 2);
    let params = WFCParameters::from_image_data(&img, 2).unwrap();
    assert_eq!(params.wfc_tiles, vec![A, B]);
    assert_eq!(params.wfc_frequency, vec![2, 2]);
    let rules = &params.wfc_rules;
    // Sideways a tile meets itself, up and down the other.
    assert!(rules.okay(1, 0, 0) && rules.okay(3, 0, 0));
    assert!(!rules.okay(1, 0, 1) && !rules.okay(3, 0, 1));
    assert!(rules.okay(0, 0, 1) && rules.okay(2, 0, 1));
    assert!(!rules.okay(0, 0, 0) && !rules.okay(2, 0, 0));
}

#[test]
fn learned_frequencies_add_up_to_the_number_of_source_cells() {
    let pixels: Vec<u32> = (0..12).map(|i| if i % 5 == 0 { A } else if i % 3 == 0 { B } else { C }).collect();
    let img = ImageData::from_pixels(&pixels, 4, 3);
    let params = WFCParameters::from_image_data(&img, 2).unwrap();
    let total: u32 = params.wfc_frequency.iter().sum();
    assert_eq!(total, 12);
    assert!(params.wfc_frequency.iter().all(|f| *f >= 1));
    assert_eq!(params.wfc_tiles.len(), params.wfc_frequency.len());
    assert_eq!(params.wfc_rules.tile_count(), params.wfc_tiles.len());
}

#[test]
fn learned_rules_read_the_same_in_both_ways() {
    let pixels: Vec<u32> = (0..12).map(|i| if i % 5 == 0 { A } else if i % 3 == 0 { B } else { C }).collect();
    let img = ImageData::from_pixels(&pixels, 4, 3);
    let params = WFCParameters::from_image_data(&img, 2).unwrap();
    let n = params.wfc_tiles.len();
    for d in 0..4 {
        for a in 0..n {
            for b in 0..n {
                assert_eq!(
                    params.wfc_rules.okay(d, a, b),
                    params.wfc_rules.okay((d + 2) % 4, b, a)
                );
            }
        }
    }
}

#[test]
fn every_learned_tile_is_allowed_beside_some_tile() {
    let pixels: Vec<u32> = (0..12).map(|i| if i % 5 == 0 { A } else if i % 3 == 0 { B } else { C }).collect();
    let img = ImageData::from_pixels(&pixels, 4, 3);
    let params = WFCParameters::from_image_data(&img, 2).unwrap();
    let n = params.wfc_tiles.len();
    for d in 0..4 {
        for b in 0..n {
            assert!((0..n).any(|a| params.wfc_rules.okay(d, a, b)));
        }
    }
}

#[test]
fn every_learned_tile_matches_itself_without_shift() {
    let pixels: Vec<u32> = (0..12).map(|i| if i % 5 == 0 { A } else if i % 3 == 0 { B } else { C }).collect();
    let img = ImageData::from_pixels(&pixels, 4, 3);
    let lib = TileLibrary::extract(&img, 2).unwrap();
    for tile in &lib.tiles {
        assert!(tiles_match(tile, tile, 0, 0, 2));
    }
}

#[test]
fn error_messages_name_the_error() {
    assert_eq!(WfcError::Contradiction.message(), "WFC Failed");
    assert_eq!(WfcError::EmptySource.message(), "source image is empty");
    assert_eq!(WfcError::InvalidTileSize.message(), "tile size must be positive");
    assert_eq!(WfcError::EmptyGrid.message(), "output grid is empty");
    assert_eq!(WfcError::TooLarge.message(), "input is too large");
}
