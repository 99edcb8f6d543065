use wfc::entropy::entropy;
use wfc::entropy::log2_fixed;
use wfc::entropy::lowest_entropy;

#[test]
fn log2_fixed_is_exact_on_powers_of_two() {
    assert_eq!(log2_fixed(1), 0);
    assert_eq!(log2_fixed(2), 65536);
    assert_eq!(log2_fixed(8), 3 * 65536);
    assert_eq!(log2_fixed(1 << 40), 40 * 65536);
    assert_eq!(log2_fixed(1 << 127), 127 * 65536);
}

#[test]
fn log2_fixed_has_sixteen_binary_places() {
    assert_eq!(log2_fixed(3), 103872);
    assert_eq!(log2_fixed(10), 217705);
    assert_eq!(log2_fixed(98), 433501);
    assert_eq!(log2_fixed(100), 435411);
}

#[test]
fn log2_fixed_of_large_numbers_drops_low_bits() {
    assert_eq!(log2_fixed((1u128 << 64) + 1), 64 * 65536);
    assert_eq!(log2_fixed(u128::MAX), 128 * 65536 - 1);
}

#[test]
fn entropy_of_two_equal_tiles_is_one_bit() {
    assert_eq!(entropy(&[0, 1], &[1, 1, 98]), 65536);
    assert_eq!(entropy(&[0, 1], &[7, 7]), 65536);
}

#[test]
fn entropy_of_four_equal_tiles_is_two_bits() {
    assert_eq!(entropy(&[0, 1, 2, 3], &[5, 5, 5, 5]), 2 * 65536);
}

#[test]
fn entropy_of_a_settled_or_empty_cell_is_zero() {
    assert_eq!(entropy(&[2], &[1, 1, 98]), 0);
    assert_eq!(entropy(&[], &[1, 1, 98]), 0);
    assert_eq!(entropy(&[0, 1], &[0, 0]), 0);
}

#[test]
fn entropy_weighs_by_frequency() {
    assert_eq!(entropy(&[0, 1, 2], &[1, 1, 98]), 10581);
    assert_eq!(entropy(&[0, 1, 2], &[1, 2, 3]), 95627);
}

#[test]
fn entropy_falls_when_probability_concentrates() {
    let frequencies = [1, 1, 98];
    assert!(entropy(&[0, 1, 2], &frequencies) < entropy(&[0, 1], &frequencies));
}

#[test]
fn entropy_does_not_depend_on_the_order_of_the_tiles() {
    let frequencies = [3, 9, 27];
    assert_eq!(entropy(&[0, 1, 2], &frequencies), entropy(&[2, 0, 1], &frequencies));
}

#[test]
fn lowest_entropy_of_nothing_is_nothing() {
    let field = vec![vec![0, 1], vec![0]];
    assert_eq!(lowest_entropy(&field, &[], &[1, 1]), Vec::<usize>::new());
}

#[test]
fn lowest_entropy_picks_every_cell_at_the_minimum() {
    let frequencies = [1, 1, 98];
    let field = vec![vec![0, 1], vec![0, 1, 2], vec![0, 1], vec![1, 2, 0], vec![2]];
    assert_eq!(lowest_entropy(&field, &[0, 1, 2, 3], &frequencies), vec![1, 3]);
    assert_eq!(lowest_entropy(&field, &[0, 2], &frequencies), vec![0, 2]);
    assert_eq!(lowest_entropy(&field, &[2, 0], &frequencies), vec![2, 0]);
}

#[test]
fn lowest_entropy_looks_at_listed_cells_only() {
    let frequencies = [1, 1, 98];
    let field = vec![vec![0, 1], vec![0, 1, 2], vec![2]];
    assert_eq!(lowest_entropy(&field, &[0], &frequencies), vec![0]);
    assert_eq!(lowest_entropy(&field, &[0, 2], &frequencies), vec![2]);
}

#[test]
fn lowest_entropy_keeps_repeated_entries() {
    let field = vec![vec![0, 1], vec![0, 1]];
    assert_eq!(lowest_entropy(&field, &[1, 1, 0], &[1, 1]), vec![1, 1, 0]);
}
