use rand::rngs::StdRng;
use rand::SeedableRng;
use wfc::error::WfcError;
use wfc::image_data::ImageData;
use wfc::rules::RuleTable;
use wfc::superposition::SuperpositionField;
use wfc::tile::direction_offset;
use wfc::wfc::WFCParameters;

const A: u32 = 0xff00_00ff;
const B: u32 = 0xff00_ff00;
const C: u32 = 0xffff_0000;

fn checkerboard() -> WFCParameters {
    WFCParameters::from_image_data(&ImageData::from_pixels(&[A, B, B, A], 2, 2), 2).unwrap()
}

/// Three tiles that may lie beside each other in any way.
fn free(frequencies: [u32; 3]) -> WFCParameters {
    let mut rules = RuleTable::new(3);
    for d in 0..4 {
        for a in 0..3 {
            for b in 0..3 {
                rules.add_rule(d, a, b);
            }
        }
    }
    WFCParameters {
        wfc_tiles: vec![A, B, C],
        wfc_rules: rules,
        wfc_frequency: frequencies.to_vec(),
        wfc_tile_sz: 1,
    }
}

/// Two tiles of which none may lie beside any.
fn impossible() -> WFCParameters {
    WFCParameters {
        wfc_tiles: vec![A, B],
        wfc_rules: RuleTable::new(2),
        wfc_frequency: vec![1, 1],
        wfc_tile_sz: 1,
    }
}

fn is_arc_consistent(field: &SuperpositionField, rules: &RuleTable) -> bool {
    let (w, h) = (field.width(), field.height());
    let cells = field.cells();
    for y in 0..h {
        for x in 0..w {
            for d in 0..4 {
                let (dx, dy) = direction_offset(d);
                let nx = (x as isize + dx).rem_euclid(w as isize) as usize;
                let ny = (y as isize + dy).rem_euclid(h as isize) as usize;
                for t in &cells[x + y * w] {
                    if !cells[nx + ny * w].iter().any(|t2| rules.okay(d, *t, *t2)) {
                        return false;
                    }
                }
            }
        }
    }
    true
}

#[test]
fn a_fresh_field_holds_every_tile_in_every_cell() {
    let field = SuperpositionField::new(3, 2, 4).ok().unwrap();
    assert_eq!(field.width(), 3);
    assert_eq!(field.height(), 2);
    assert_eq!(field.cells().len(), 6);
    for cell in field.cells() {
        assert_eq!(cell, &vec![0, 1, 2, 3]);
    }
    assert!(!field.done());
    assert_eq!(field.undetermined(), vec![0, 1, 2, 3, 4, 5]);
}

#[test]
fn a_field_without_cells_is_refused() {
    assert_eq!(SuperpositionField::new(0, 4, 2).err(), Some(WfcError::EmptyGrid));
    assert_eq!(SuperpositionField::new(4, 0, 2).err(), Some(WfcError::EmptyGrid));
    assert_eq!(SuperpositionField::new(0, 0, 0).err(), Some(WfcError::EmptyGrid));
}

#[test]
fn a_field_too_large_to_count_is_refused() {
    assert_eq!(SuperpositionField::new(usize::MAX, 2, 1).err(), Some(WfcError::TooLarge));
}

#[test]
fn a_field_of_one_tile_is_done_from_the_start() {
    let field = SuperpositionField::new(2, 2, 1).ok().unwrap();
    assert!(field.done());
    assert_eq!(field.undetermined(), Vec::<usize>::new());
}

#[test]
fn collapse_settles_one_cell() {
    let mut field = SuperpositionField::new(2, 1, 3).ok().unwrap();
    field.collapse(1, 2);
    assert_eq!(field.cells(), &[vec![0, 1, 2], vec![2]][..]);
    assert_eq!(field.undetermined(), vec![0]);
}

#[test]
fn step_with_settles_the_chosen_cell_on_the_chosen_tile() {
    let params = free([1, 2, 3]);
    let mut field = SuperpositionField::new(2, 2, 3).ok().unwrap();
    // All four cells have the same entropy; 6 % 4 picks cell 2. The number 4
    // falls into the stretch of the last tile: 1 + 2 <= 4 < 1 + 2 + 3.
    assert_eq!(field.step_with(&params, 6, 4), Ok(()));
    assert_eq!(field.cells(), &[vec![0, 1, 2], vec![0, 1, 2], vec![2], vec![0, 1, 2]][..]);
    // Now cells 0, 1 and 3 are open; 7 % 3 picks the second of them.
    assert_eq!(field.step_with(&params, 7, 1), Ok(()));
    assert_eq!(field.cells(), &[vec![0, 1, 2], vec![1], vec![2], vec![0, 1, 2]][..]);
}

/// Three tiles, the third far more frequent than the others, that may lie
/// beside each other in any way, but that to the right of the first tile
/// only the first two may lie.
fn narrowing() -> WFCParameters {
    let mut rules = RuleTable::new(3);
    for d in 0..4 {
        for a in 0..3 {
            for b in 0..3 {
                if !(d == 1 && a == 0 && b == 2) {
                    rules.add_rule(d, a, b);
                }
            }
        }
    }
    WFCParameters {
        wfc_tiles: vec![A, B, C],
        wfc_rules: rules,
        wfc_frequency: vec![1, 1, 98],
        wfc_tile_sz: 1,
    }
}

#[test]
fn step_with_collapses_a_cell_of_lowest_entropy() {
    let params = narrowing();
    let mut field = SuperpositionField::new(4, 1, 3).ok().unwrap();
    assert_eq!(field.step_with(&params, 0, 0), Ok(()));
    assert_eq!(field.cells(), &[vec![0], vec![0, 1], vec![0, 1, 2], vec![0, 1, 2]][..]);
    // Cell 1 holds two tiles of equal weight: one bit of entropy. Cells 2
    // and 3 hold all three, of which one outweighs the others: less entropy.
    // So the step picks among cells 2 and 3, here the second of them.
    assert_eq!(field.step_with(&params, 1, 2), Ok(()));
    assert_eq!(field.cells(), &[vec![0], vec![0, 1], vec![0, 1, 2], vec![2]][..]);
    assert_eq!(field.step_with(&params, 8, 1), Ok(()));
    assert_eq!(field.cells(), &[vec![0], vec![0, 1], vec![1], vec![2]][..]);
    assert_eq!(field.step_with(&params, 5, 3), Ok(()));
    assert_eq!(field.cells(), &[vec![0], vec![1], vec![1], vec![2]][..]);
    assert!(field.done());
}

#[test]
fn step_on_a_finished_field_changes_nothing() {
    let params = free([1, 1, 1]);
    let mut field = SuperpositionField::new(1, 1, 3).ok().unwrap();
    field.collapse(0, 1);
    assert!(field.done());
    let mut rng = StdRng::seed_from_u64(9);
    assert_eq!(field.step(&params, &mut rng), Ok(()));
    assert_eq!(field.cells(), &[vec![1]][..]);
    assert_eq!(field.step_with(&params, 3, 3), Ok(()));
    assert_eq!(field.cells(), &[vec![1]][..]);
}

#[test]
fn one_step_settles_a_whole_checkerboard() {
    let params = checkerboard();
    let mut field = SuperpositionField::new(4, 4, 2).ok().unwrap();
    assert_eq!(field.step_with(&params, 5, 0), Ok(()));
    assert!(field.done());
    let first = field.cells()[5][0];
    for y in 0..4 {
        for x in 0..4 {
            let expected = if (x + y) % 2 == 0 { first } else { 1 - first };
            assert_eq!(field.cells()[x + y * 4], vec![expected]);
        }
    }
    assert!(is_arc_consistent(&field, &params.wfc_rules));
}

#[test]
fn a_successful_step_leaves_the_field_arc_consistent() {
    let pixels: Vec<u32> = (0..16).map(|i| [A, B, C][(i * i + i / 3) % 3]).collect();
    let params = WFCParameters::from_image_data(&ImageData::from_pixels(&pixels, 4, 4), 2).unwrap();
    let mut rng = StdRng::seed_from_u64(11);
    for _ in 0..10 {
        let mut field = SuperpositionField::new(5, 5, params.wfc_tiles.len()).ok().unwrap();
        assert!(is_arc_consistent(&field, &params.wfc_rules));
        while !field.done() {
            if field.step(&params, &mut rng).is_err() {
                break;
            }
            assert!(is_arc_consistent(&field, &params.wfc_rules));
            assert!(field.cells().iter().all(|cell| !cell.is_empty()));
        }
    }
}

#[test]
fn no_step_adds_a_tile() {
    let pixels: Vec<u32> = (0..16).map(|i| [A, B, C][(i * i + i / 3) % 3]).collect();
    let params = WFCParameters::from_image_data(&ImageData::from_pixels(&pixels, 4, 4), 2).unwrap();
    let mut rng = StdRng::seed_from_u64(12);
    let mut field = SuperpositionField::new(6, 4, params.wfc_tiles.len()).ok().unwrap();
    while !field.done() {
        let before: Vec<Vec<usize>> = field.cells().to_vec();
        let result = field.step(&params, &mut rng);
        for (old, new) in before.iter().zip(field.cells().iter()) {
            assert!(new.iter().all(|t| old.contains(t)));
        }
        let size = |cells: &[Vec<usize>]| cells.iter().map(|c| c.len()).sum::<usize>();
        assert!(size(field.cells()) < size(&before));
        if result.is_err() {
            break;
        }
    }
}

#[test]
fn impossible_rules_end_the_first_step_in_a_contradiction() {
    let params = impossible();
    for seed in 0..10 {
        let mut rng = StdRng::seed_from_u64(seed);
        let mut field = SuperpositionField::new(3, 3, 2).ok().unwrap();
        assert_eq!(field.step(&params, &mut rng), Err(WfcError::Contradiction));
        assert!(field.cells().iter().any(|cell| cell.is_empty()));
        field.reset();
        assert_eq!(field.width(), 3);
        assert_eq!(field.height(), 3);
        for cell in field.cells() {
            assert_eq!(cell, &vec![0, 1]);
        }
        assert_eq!(field.undetermined().len(), 9);
    }
}

#[test]
fn a_checkerboard_does_not_fit_a_ring_of_odd_length() {
    let params = checkerboard();
    let mut field = SuperpositionField::new(3, 2, 2).ok().unwrap();
    assert_eq!(field.step_with(&params, 0, 0), Err(WfcError::Contradiction));
    let mut rng = StdRng::seed_from_u64(13);
    assert_eq!(params.generate_grid(3, 2, &mut rng).err(), Some(WfcError::Contradiction));
}

#[test]
fn generation_from_a_trivial_source_is_that_one_colour() {
    let params = WFCParameters::from_image_data(&ImageData::from_pixels(&[C], 1, 1), 1).unwrap();
    let mut rng = StdRng::seed_from_u64(14);
    let img = params.generate_grid(5, 3, &mut rng).ok().unwrap();
    assert_eq!(img.width(), 5);
    assert_eq!(img.height(), 3);
    assert_eq!(img.pixels(), &[C; 15][..]);
    let field = SuperpositionField::new(5, 3, 1).ok().unwrap();
    assert!(field.done());
}

#[test]
fn generation_of_a_checkerboard_alternates() {
    let params = checkerboard();
    let mut rng = StdRng::seed_from_u64(15);
    let img = params.generate_grid(6, 4, &mut rng).ok().unwrap();
    for y in 0..4 {
        for x in 0..6 {
            let here = img.get_pixel(x, y);
            assert!(here == A || here == B);
            assert_ne!(here, img.get_pixel_wrap(x as isize + 1, y as isize));
            assert_ne!(here, img.get_pixel_wrap(x as isize, y as isize + 1));
        }
    }
}

#[test]
fn generation_refuses_a_grid_without_cells() {
    let params = checkerboard();
    let mut rng = StdRng::seed_from_u64(16);
    assert_eq!(params.generate_grid(0, 4, &mut rng).err(), Some(WfcError::EmptyGrid));
    assert_eq!(params.generate_grid(4, 0, &mut rng).err(), Some(WfcError::EmptyGrid));
    assert_eq!(params.generate_grid(usize::MAX, 2, &mut rng).err(), Some(WfcError::TooLarge));
}

#[test]
fn generation_repeats_under_the_same_seed() {
    let pixels: Vec<u32> = (0..16).map(|i| [A, B, C][(i * i + i / 3) % 3]).collect();
    let params = WFCParameters::from_image_data(&ImageData::from_pixels(&pixels, 4, 4), 2).unwrap();
    for seed in 0..5 {
        let run = |seed: u64| {
            let mut rng = StdRng::seed_from_u64(seed);
            let mut restarts = 0;
            loop {
                match params.generate_grid(6, 6, &mut rng) {
                    Ok(img) => return (img.pixels().to_vec(), restarts),
                    Err(_) => restarts += 1,
                }
                if restarts > 1000 {
                    return (vec![], restarts);
                }
            }
        };
        assert_eq!(run(seed), run(seed));
    }
}

#[test]
fn generation_uses_the_colours_of_the_tiles() {
    let params = free([1, 1, 98]);
    let mut rng = StdRng::seed_from_u64(17);
    let img = params.generate_grid(8, 8, &mut rng).ok().unwrap();
    assert!(img.pixels().iter().all(|p| *p == A || *p == B || *p == C));
    let frequent = img.pixels().iter().filter(|p| **p == C).count();
    assert!(frequent > 32);
}

#[test]
fn cloned_parameters_generate_the_same() {
    let params = checkerboard();
    let copy = params.clone();
    assert_eq!(copy.wfc_tiles, params.wfc_tiles);
    assert_eq!(copy.wfc_frequency, params.wfc_frequency);
    assert_eq!(copy.wfc_tile_sz, params.wfc_tile_sz);
    let mut first = StdRng::seed_from_u64(18);
    let mut second = StdRng::seed_from_u64(18);
    let a = params.generate_grid(4, 4, &mut first).ok().unwrap();
    let b = copy.generate_grid(4, 4, &mut second).ok().unwrap();
    assert_eq!(a.pixels(), b.pixels());
}

#[test]
fn steps_repeat_under_the_same_numbers() {
    let pixels: Vec<u32> = (0..16).map(|i| [A, B, C][(i * i + i / 3) % 3]).collect();
    let params = WFCParameters::from_image_data(&ImageData::from_pixels(&pixels, 4, 4), 2).unwrap();
    let count = params.wfc_tiles.len();
    let mut first = SuperpositionField::new(5, 4, count).ok().unwrap();
    let mut second = SuperpositionField::new(5, 4, count).ok().unwrap();
    let mut number: u32 = 12345;
    while !first.done() {
        number = number.wrapping_mul(1_103_515_245).wrapping_add(12345);
        let r_cell = (number >> 8) as usize;
        let r_tile = number >> 3;
        let a = first.step_with(&params, r_cell, r_tile);
        let b = second.step_with(&params, r_cell, r_tile);
        assert_eq!(a, b);
        if a.is_err() {
            break;
        }
        assert_eq!(first.cells(), second.cells());
    }
}
