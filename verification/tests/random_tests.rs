use rand::rngs::StdRng;
use rand::SeedableRng;
use wfc::random::generate_weighted;
use wfc::random::random_element;
use wfc::random::weighted_index;

#[test]
fn weighted_index_walks_the_running_totals() {
    let weights = [2, 3, 5];
    assert_eq!(weighted_index(&weights, 0), 0);
    assert_eq!(weighted_index(&weights, 1), 0);
    assert_eq!(weighted_index(&weights, 2), 1);
    assert_eq!(weighted_index(&weights, 4), 1);
    assert_eq!(weighted_index(&weights, 5), 2);
    assert_eq!(weighted_index(&weights, 9), 2);
}

#[test]
fn weighted_index_reduces_the_number_below_the_total() {
    let weights = [2, 3, 5];
    assert_eq!(weighted_index(&weights, 10), 0);
    assert_eq!(weighted_index(&weights, 12), 1);
    assert_eq!(weighted_index(&weights, 25), 2);
    assert_eq!(weighted_index(&weights, u32::MAX), 2);
}

#[test]
fn weighted_index_never_picks_a_weight_of_zero() {
    let weights = [0, 4, 0, 1, 0];
    for r in 0..20 {
        let i = weighted_index(&weights, r);
        assert!(i == 1 || i == 3);
    }
    assert_eq!(weighted_index(&weights, 3), 1);
    assert_eq!(weighted_index(&weights, 4), 3);
}

#[test]
fn weighted_index_takes_totals_beyond_32_bits() {
    let weights = [u32::MAX, u32::MAX, 7];
    assert_eq!(weighted_index(&weights, 0), 0);
    assert_eq!(weighted_index(&weights, u32::MAX), 1);
}

#[test]
fn generate_weighted_of_no_weights_is_zero() {
    let mut rng = StdRng::seed_from_u64(1);
    assert_eq!(generate_weighted(&mut rng, &[]), 0);
}

#[test]
fn generate_weighted_picks_a_positive_weight() {
    let mut rng = StdRng::seed_from_u64(2);
    for _ in 0..50 {
        let i = generate_weighted(&mut rng, &[0, 3, 0, 9]);
        assert!(i == 1 || i == 3);
    }
}

#[test]
fn generate_weighted_reaches_every_positive_weight() {
    let mut rng = StdRng::seed_from_u64(3);
    let mut seen = [false; 3];
    for _ in 0..200 {
        seen[generate_weighted(&mut rng, &[1, 1, 1])] = true;
    }
    assert_eq!(seen, [true, true, true]);
}

#[test]
fn random_element_of_nothing_is_none() {
    let mut rng = StdRng::seed_from_u64(4);
    let empty: [u8; 0] = [];
    assert_eq!(random_element(&empty, &mut rng, None), None);
    assert_eq!(random_element(&empty, &mut rng, Some(&[])), None);
}

#[test]
fn random_element_picks_an_element() {
    let mut rng = StdRng::seed_from_u64(5);
    let items = [10, 20, 30];
    let mut seen = [false; 3];
    for _ in 0..200 {
        let item = random_element(&items, &mut rng, None).unwrap();
        seen[items.iter().position(|i| *i == item).unwrap()] = true;
    }
    assert_eq!(seen, [true, true, true]);
}

#[test]
fn random_element_follows_the_weights() {
    let mut rng = StdRng::seed_from_u64(6);
    let items = ['a', 'b', 'c'];
    for _ in 0..50 {
        assert_eq!(random_element(&items, &mut rng, Some(&[0, 5, 0])), Some('b'));
    }
}

#[test]
fn random_element_without_weights_to_go_by_takes_the_first() {
    let mut rng = StdRng::seed_from_u64(7);
    assert_eq!(random_element(&[4, 5, 6], &mut rng, Some(&[])), Some(4));
}

#[test]
fn random_element_repeats_under_the_same_seed() {
    let items: Vec<usize> = (0..100).collect();
    let mut first = StdRng::seed_from_u64(42);
    let mut second = StdRng::seed_from_u64(42);
    for _ in 0..20 {
        assert_eq!(
            random_element(&items, &mut first, None),
            random_element(&items, &mut second, None)
        );
    }
}
