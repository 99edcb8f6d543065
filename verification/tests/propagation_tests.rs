use wfc::propagation::propagate;
use wfc::propagation::update_adjacent_tiles;
use wfc::rules::RuleTable;
use wfc::tile::direction_offset;

/// Two tiles that may only lie beside each other, never beside themselves.
fn alternating() -> RuleTable {
    let mut table = RuleTable::new(2);
    for d in 0..4 {
        table.add_rule(d, 0, 1);
        table.add_rule(d, 1, 0);
    }
    table
}

/// Three tiles of which tile `t` allows only tile `t + 1` to its right, and
/// anything in the other directions.
fn chain() -> RuleTable {
    let mut table = RuleTable::new(3);
    for a in 0..3 {
        for b in 0..3 {
            table.add_rule(0, a, b);
            table.add_rule(2, a, b);
            table.add_rule(3, a, b);
        }
    }
    table.add_rule(1, 0, 1);
    table.add_rule(1, 1, 2);
    table.add_rule(1, 2, 0);
    table
}

fn neighbor(x: usize, y: usize, w: usize, h: usize, d: usize) -> usize {
    let (dx, dy) = direction_offset(d);
    let nx = (x as isize + dx).rem_euclid(w as isize) as usize;
    let ny = (y as isize + dy).rem_euclid(h as isize) as usize;
    nx + ny * w
}

fn is_arc_consistent(field: &[Vec<usize>], rules: &RuleTable, w: usize, h: usize) -> bool {
    for y in 0..h {
        for x in 0..w {
            for d in 0..4 {
                let q = neighbor(x, y, w, h, d);
                for t2 in &field[q] {
                    if !field[x + y * w].iter().any(|t| rules.okay(d, *t, *t2)) {
                        return false;
                    }
                }
            }
        }
    }
    true
}

#[test]
fn update_adjacent_tiles_restricts_the_four_neighbours() {
    let rules = alternating();
    let mut field = vec![vec![0], vec![0, 1], vec![0, 1], vec![0, 1], vec![0, 1], vec![0, 1], vec![0, 1], vec![0, 1], vec![0, 1]];
    update_adjacent_tiles(&mut field, 0, 0, 3, 3, &rules);
    assert_eq!(field[0], vec![0]);
    assert_eq!(field[1], vec![1]);
    assert_eq!(field[2], vec![1]);
    assert_eq!(field[3], vec![1]);
    assert_eq!(field[6], vec![1]);
    assert_eq!(field[4], vec![0, 1]);
    assert_eq!(field[5], vec![0, 1]);
    assert_eq!(field[7], vec![0, 1]);
    assert_eq!(field[8], vec![0, 1]);
}

#[test]
fn update_adjacent_tiles_keeps_the_order_of_the_tiles() {
    let rules = chain();
    let mut field = vec![vec![0, 1], vec![2, 1, 0], vec![0, 1, 2]];
    update_adjacent_tiles(&mut field, 0, 0, 3, 1, &rules);
    assert_eq!(field[0], vec![0, 1]);
    assert_eq!(field[1], vec![2, 1]);
    assert_eq!(field[2], vec![0, 1, 2]);
}

#[test]
fn update_adjacent_tiles_on_a_single_cell_restricts_the_cell_itself() {
    let rules = alternating();
    let mut field = vec![vec![0, 1]];
    update_adjacent_tiles(&mut field, 0, 0, 1, 1, &rules);
    assert_eq!(field[0], vec![0, 1]);
    let mut single = vec![vec![0]];
    update_adjacent_tiles(&mut single, 0, 0, 1, 1, &rules);
    assert_eq!(single[0], Vec::<usize>::new());
}

#[test]
fn update_adjacent_tiles_reads_what_earlier_directions_left() {
    // On a grid two cells wide, right and left lead to the same neighbour.
    let rules = chain();
    let mut field = vec![vec![0], vec![0, 1, 2]];
    update_adjacent_tiles(&mut field, 0, 0, 2, 1, &rules);
    assert_eq!(field[0], vec![0]);
    assert_eq!(field[1], vec![1]);
}

#[test]
fn propagate_settles_a_checkerboard() {
    let rules = alternating();
    let mut field = vec![vec![0], vec![0, 1], vec![0, 1], vec![0, 1]];
    let failed = propagate(&mut field, &rules, 0, 0, 2, 2);
    assert!(!failed);
    assert_eq!(field, vec![vec![0], vec![1], vec![1], vec![0]]);
    assert!(is_arc_consistent(&field, &rules, 2, 2));
}

#[test]
fn propagate_reports_a_contradiction() {
    // Three cells in a ring cannot alternate between two tiles.
    let rules = alternating();
    let mut field = vec![vec![0], vec![0, 1], vec![0, 1]];
    let failed = propagate(&mut field, &rules, 0, 0, 3, 1);
    assert!(failed);
    assert!(field.iter().any(|cell| cell.is_empty()));
}

#[test]
fn propagate_never_adds_a_tile() {
    let rules = chain();
    let before = vec![vec![1], vec![0, 1, 2], vec![0, 1, 2], vec![0, 1, 2], vec![0, 2], vec![0, 1, 2]];
    let mut field = before.clone();
    let failed = propagate(&mut field, &rules, 0, 0, 3, 2);
    assert!(!failed);
    for (old, new) in before.iter().zip(field.iter()) {
        assert!(new.iter().all(|t| old.contains(t)));
        assert!(new.len() <= old.len());
    }
    assert_eq!(field[0], vec![1]);
    assert_eq!(field[1], vec![2]);
    assert_eq!(field[2], vec![0]);
}

#[test]
fn propagate_leaves_a_consistent_field_alone() {
    let rules = alternating();
    let before = vec![vec![0, 1], vec![0, 1], vec![0, 1], vec![0, 1]];
    let mut field = before.clone();
    let failed = propagate(&mut field, &rules, 1, 1, 2, 2);
    assert!(!failed);
    assert_eq!(field, before);
}

#[test]
fn propagate_reaches_cells_far_away() {
    let rules = chain();
    let mut field = vec![vec![0, 1, 2]; 6];
    field[0] = vec![0];
    let failed = propagate(&mut field, &rules, 0, 0, 6, 1);
    assert!(!failed);
    assert_eq!(field, vec![vec![0], vec![1], vec![2], vec![0], vec![1], vec![2]]);
    assert!(is_arc_consistent(&field, &rules, 6, 1));
}

#[test]
fn propagate_finds_an_empty_neighbour() {
    let rules = alternating();
    let mut field = vec![vec![0, 1], vec![], vec![0, 1], vec![0, 1]];
    let failed = propagate(&mut field, &rules, 0, 0, 2, 2);
    assert!(failed);
}

#[test]
fn propagate_with_rules_that_allow_nothing_fails() {
    let rules = RuleTable::new(2);
    let mut field = vec![vec![0], vec![0, 1], vec![0, 1], vec![0, 1]];
    let failed = propagate(&mut field, &rules, 0, 0, 2, 2);
    assert!(failed);
    assert!(field.iter().any(|cell| cell.is_empty()));
}
