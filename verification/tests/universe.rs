use hashlife::Universe;
use hashlife::UniverseError;

#[test]
fn test_empty_universe() {
    let universe = Universe::new(4);
    assert_eq!(universe.population(), 0);
    assert_eq!(universe.generation(), 0);
}

#[test]
fn test_set_get_cell() {
    let mut universe = Universe::new(4);
    universe.set_cell(0, 0, true).unwrap();
    universe.set_cell(1, 0, true).unwrap();
    universe.set_cell(0, 1, true).unwrap();

    assert!(universe.get_cell(0, 0));
    assert!(universe.get_cell(1, 0));
    assert!(universe.get_cell(0, 1));
    assert!(!universe.get_cell(2, 2));
}

#[test]
fn test_blinker() {
    let mut universe = Universe::new(4);

    universe.set_cell(0, 0, true).unwrap();
    universe.set_cell(1, 0, true).unwrap();
    universe.set_cell(2, 0, true).unwrap();

    assert_eq!(universe.population(), 3);
    assert_eq!(universe.generation(), 0);

    universe.step().unwrap();

    assert_eq!(universe.generation(), 1);
    assert!(!universe.get_cell(0, 0));
    assert!(universe.get_cell(1, 0));
    assert!(!universe.get_cell(2, 0));
    assert!(universe.get_cell(1, -1));
    assert!(universe.get_cell(1, 1));
    assert_eq!(universe.population(), 3);

    universe.step().unwrap();

    assert_eq!(universe.generation(), 2);
    assert!(universe.get_cell(0, 0));
    assert!(universe.get_cell(1, 0));
    assert!(universe.get_cell(2, 0));
    assert!(!universe.get_cell(1, -1));
    assert!(!universe.get_cell(1, 1));
    assert_eq!(universe.population(), 3);
}

#[test]
fn test_block() {
    let mut universe = Universe::new(4);

    universe.set_cell(0, 0, true).unwrap();
    universe.set_cell(1, 0, true).unwrap();
    universe.set_cell(0, 1, true).unwrap();
    universe.set_cell(1, 1, true).unwrap();

    assert_eq!(universe.population(), 4);

    universe.step().unwrap();

    assert!(universe.get_cell(0, 0));
    assert!(universe.get_cell(1, 0));
    assert!(universe.get_cell(0, 1));
    assert!(universe.get_cell(1, 1));
    assert_eq!(universe.population(), 4);
}

#[test]
fn test_empty_many_steps() {
    let mut universe = Universe::new(3);
    for _ in 0..1000 {
        universe.step().unwrap();
    }
    assert_eq!(universe.population(), 0);
    assert_eq!(universe.generation(), 1000);
}

#[test]
fn test_glider_translates() {
    let mut universe = Universe::new(4);
    let glider = [(1i64, 0i64), (2, 1), (0, 2), (1, 2), (2, 2)];
    for (x, y) in glider {
        universe.set_cell(x, y, true).unwrap();
    }
    assert_eq!(universe.population(), 5);
    for _ in 0..4 {
        universe.step().unwrap();
    }
    assert_eq!(universe.population(), 5);
    assert_eq!(universe.generation(), 4);
    for (x, y) in glider {
        assert!(universe.get_cell(x + 1, y + 1));
    }
}

#[test]
fn test_auto_expansion() {
    let mut universe = Universe::new(3);
    assert_eq!(universe.root_level(), 3);
    universe.set_cell(100, 100, true).unwrap();
    assert!(universe.get_cell(100, 100));
    assert_eq!(universe.population(), 1);
    // the smallest level whose window [-2^(l-1), 2^(l-1)) holds 100
    assert_eq!(universe.root_level(), 8);
}

#[test]
fn test_window_boundary_round_trip() {
    let mut universe = Universe::new(4);
    // level 4 covers [-8, 8) in both axes
    universe.set_cell(7, 7, true).unwrap();
    universe.set_cell(-8, -8, true).unwrap();
    assert!(universe.get_cell(7, 7));
    assert!(universe.get_cell(-8, -8));
    assert_eq!(universe.root_level(), 4);
    // just outside the window: dead, and reading does not expand
    assert!(!universe.get_cell(8, 0));
    assert!(!universe.get_cell(0, 8));
    assert_eq!(universe.root_level(), 4);
}

#[test]
fn test_unrepresentable_coordinate() {
    let mut universe = Universe::new(3);
    let far = 1i64 << 40;
    assert_eq!(universe.set_cell(far, 0, true), Err(UniverseError::NotRepresentable));
    assert_eq!(universe.population(), 0);
    assert!(!universe.get_cell(far, 0));
}

#[test]
fn test_clear_resets() {
    let mut universe = Universe::new(5);
    universe.set_cell(2, 3, true).unwrap();
    universe.step().unwrap();
    universe.clear();
    assert_eq!(universe.population(), 0);
    assert_eq!(universe.generation(), 0);
    assert!(!universe.get_cell(2, 3));
    assert_eq!(universe.root_level(), 5);
}

#[test]
fn test_set_cells_bulk() {
    let mut universe = Universe::new(4);
    // three pairs and one trailing unpaired value, which is ignored
    let flat: Vec<i64> = vec![0, 0, 1, 0, 2, 0, 9];
    universe.set_cells(&flat);
    assert_eq!(universe.population(), 3);
    assert!(universe.get_cell(0, 0));
    assert!(universe.get_cell(1, 0));
    assert!(universe.get_cell(2, 0));
    assert!(!universe.get_cell(9, 9));
    assert_eq!(universe.generation(), 0);
}

#[test]
fn test_set_cell_is_idempotent() {
    let mut universe = Universe::new(4);
    universe.set_cell(3, -2, true).unwrap();
    let pop_once = universe.population();
    universe.set_cell(3, -2, true).unwrap();
    assert_eq!(universe.population(), pop_once);
    assert!(universe.get_cell(3, -2));
    universe.set_cell(3, -2, false).unwrap();
    universe.set_cell(3, -2, false).unwrap();
    assert!(!universe.get_cell(3, -2));
    assert_eq!(universe.population(), 0);
}

#[test]
fn test_canonicalization_shares_nodes() {
    // two disjoint copies of the same 32x32 pattern need fewer than twice
    // the nodes of one copy, because the copies share canonical subtrees
    let pattern = |ox: i64, oy: i64, u: &mut Universe| {
        let mut flat: Vec<i64> = Vec::new();
        for i in 0..32i64 {
            flat.push(ox + i);
            flat.push(oy + i);
            if i + 1 < 32 {
                flat.push(ox + i + 1);
                flat.push(oy + i);
            }
        }
        u.set_cells(&flat);
    };
    let mut one = Universe::new(8);
    pattern(0, 0, &mut one);
    let nodes_one = one.node_count();

    let mut two = Universe::new(8);
    pattern(0, 0, &mut two);
    pattern(64, 64, &mut two);
    let nodes_two = two.node_count();

    assert!(nodes_two < 2 * nodes_one);
}

#[test]
fn test_get_cells_enumerates_rectangle() {
    let mut universe = Universe::new(4);
    universe.set_cell(0, 0, true).unwrap();
    universe.set_cell(2, 1, true).unwrap();
    universe.set_cell(-3, -2, true).unwrap();
    let cells = universe.get_cells(-4, -4, 3, 3);
    assert_eq!(cells.len(), 3);
    assert!(cells.contains(&(-3, -2)));
    assert!(cells.contains(&(0, 0)));
    assert!(cells.contains(&(2, 1)));
    // a narrower rectangle keeps only what it covers
    let cells = universe.get_cells(0, 0, 3, 3);
    assert_eq!(cells, vec![(0, 0), (2, 1)]);
    // an empty rectangle yields nothing
    assert!(universe.get_cells(3, 3, -3, -3).is_empty());
}

#[test]
fn test_render_regions_cover_live_cells() {
    let mut universe = Universe::new(4);
    universe.set_cell(0, 0, true).unwrap();
    universe.set_cell(1, 0, true).unwrap();
    universe.set_cell(0, 1, true).unwrap();
    universe.set_cell(1, 1, true).unwrap();

    // at cell resolution: one unit square of density 1 per live cell
    let fine = universe.collect_render_regions(-8, -8, 7, 7, 1);
    assert_eq!(fine.len(), 4);
    for &(x, y, size, population) in &fine {
        assert_eq!(size, 1);
        assert_eq!(population, 1);
        assert!(universe.get_cell(x, y));
    }

    // at a coarser resolution the block aggregates into one 2x2 square
    let coarse = universe.collect_render_regions(-8, -8, 7, 7, 2);
    assert_eq!(coarse.len(), 1);
    assert_eq!(coarse[0], (0, 0, 2, 4));

    // every live cell lies in some emitted square
    for &(cx, cy) in &[(0i64, 0i64), (1, 0), (0, 1), (1, 1)] {
        assert!(coarse.iter().any(|&(x, y, size, _)| {
            x <= cx && cx < x + size as i64 && y <= cy && cy < y + size as i64
        }));
    }

    // a view away from the pattern gets nothing
    assert!(universe.collect_render_regions(4, 4, 7, 7, 1).is_empty());
}
