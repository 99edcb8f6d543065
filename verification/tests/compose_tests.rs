use wfc::compose::channels;
use wfc::compose::copy_superpositions_to_grid;

#[test]
fn channels_are_the_three_low_bytes() {
    assert_eq!(channels(0xff33_2211), (0x11, 0x22, 0x33));
    assert_eq!(channels(0), (0, 0, 0));
    assert_eq!(channels(u32::MAX), (255, 255, 255));
}

#[test]
fn an_empty_cell_is_shown_as_zero() {
    let mut grid = vec![7];
    copy_superpositions_to_grid(&mut grid, &[vec![]], &[0xff00_0011]);
    assert_eq!(grid, vec![0]);
}

#[test]
fn a_settled_cell_is_shown_by_the_colour_of_its_tile() {
    let mut grid = vec![0, 0];
    copy_superpositions_to_grid(&mut grid, &[vec![1], vec![0]], &[0x1234_5678, 0x0a0b_0c0d]);
    assert_eq!(grid, vec![0x0a0b_0c0d, 0x1234_5678]);
}

#[test]
fn an_open_cell_is_shown_by_the_mean_of_its_colours() {
    let tiles = [0xff00_0010, 0xff00_2030, 0x0060_0000];
    let mut grid = vec![0];
    copy_superpositions_to_grid(&mut grid, &[vec![0, 1]], &tiles);
    assert_eq!(grid, vec![0xff00_1020]);
    copy_superpositions_to_grid(&mut grid, &[vec![0, 1, 2]], &tiles);
    // red (0x10 + 0x30 + 0) / 3, green (0 + 0x20 + 0) / 3, blue (0 + 0 + 0x60) / 3
    assert_eq!(grid, vec![0xff20_0a15]);
}

#[test]
fn the_mean_is_rounded_down_and_opaque() {
    let tiles = [0x0000_0001, 0x0000_0002];
    let mut grid = vec![0];
    copy_superpositions_to_grid(&mut grid, &[vec![0, 1]], &tiles);
    assert_eq!(grid, vec![0xff00_0001]);
}

#[test]
fn the_grid_beyond_the_cells_is_left_alone() {
    let mut grid = vec![5, 6, 7];
    copy_superpositions_to_grid(&mut grid, &[vec![0]], &[9]);
    assert_eq!(grid, vec![9, 6, 7]);
}
