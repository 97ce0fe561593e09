use game_of_life::cell::Point;
use game_of_life::grid::GameMatrix;

fn grid_of(cells: &[(i64, i64)]) -> GameMatrix {
    let mut g = GameMatrix::new();
    for &(x, y) in cells {
        g.toggle(Point::new(x, y));
    }
    g
}

fn live_set(g: &GameMatrix) -> Vec<(i64, i64)> {
    let mut v: Vec<(i64, i64)> = g.cells().iter().map(|p| (p.x, p.y)).collect();
    v.sort();
    v
}

fn assert_exactly(g: &GameMatrix, cells: &[(i64, i64)]) {
    let mut expected: Vec<(i64, i64)> = cells.to_vec();
    expected.sort();
    assert_eq!(live_set(g), expected);
}

#[test]
fn new_grid_is_empty() {
    let g = GameMatrix::new();
    assert!(g.cells().is_empty());
    assert!(!g.contains(Point::new(0, 0)));
}

#[test]
fn toggle_inserts_then_removes() {
    let mut g = GameMatrix::new();
    let p = Point::new(-4, 7);
    assert!(!g.contains(p));
    g.toggle(p);
    assert!(g.contains(p));
    assert!(!g.contains(Point::new(7, -4)));
    g.toggle(p);
    assert!(!g.contains(p));
    assert!(g.cells().is_empty());
}

#[test]
fn clear_empties_the_grid() {
    let mut g = grid_of(&[(0, 0), (5, 5), (-3, 2)]);
    g.clear();
    assert!(g.cells().is_empty());
}

#[test]
fn empty_grid_stays_empty() {
    let mut g = GameMatrix::new();
    g.update();
    assert!(g.cells().is_empty());
}

#[test]
fn lone_cell_dies_of_isolation() {
    let mut g = grid_of(&[(3, 3)]);
    g.update();
    assert!(g.cells().is_empty());
}

#[test]
fn pair_dies_of_isolation() {
    // Each live cell has exactly one live neighbour and no dead cell sees
    // three, so everything dies.
    let mut g = grid_of(&[(0, 0), (1, 0)]);
    g.update();
    assert!(g.cells().is_empty());
}

#[test]
fn blinker_survives_with_two_and_births_with_three() {
    // Horizontal blinker: the middle cell has two live neighbours and
    // survives; the ends have one and die; the cells above and below the
    // middle see three and are born.
    let mut g = grid_of(&[(0, 0), (1, 0), (2, 0)]);
    g.update();
    assert_exactly(&g, &[(1, -1), (1, 0), (1, 1)]);
    g.update();
    assert_exactly(&g, &[(0, 0), (1, 0), (2, 0)]);
}

#[test]
fn crowded_center_dies() {
    // The centre of a plus shape has four live neighbours and dies.
    let mut g = grid_of(&[(0, 0), (1, 0), (-1, 0), (0, 1), (0, -1)]);
    g.update();
    assert!(!g.contains(Point::new(0, 0)));
}

#[test]
fn still_life_block_is_unchanged() {
    // A 2x2 block: each live cell has exactly three live neighbours, and
    // every dead neighbour of the block sees at most two.
    let block = [(0, 0), (1, 0), (0, 1), (1, 1)];
    let mut g = grid_of(&block);
    g.update();
    assert_exactly(&g, &block);
    g.update();
    assert_exactly(&g, &block);
}

#[test]
fn toad_oscillates_with_period_two() {
    let toad = [(2, 2), (3, 2), (4, 2), (1, 3), (2, 3), (3, 3)];
    let mut g = grid_of(&toad);
    g.update();
    // The other toad phase.
    assert_exactly(&g, &[(3, 1), (1, 2), (4, 2), (1, 3), (4, 3), (2, 4)]);
    g.update();
    assert_exactly(&g, &toad);
}

#[test]
fn update_is_deterministic_across_copies() {
    let seed = [(0, 0), (1, 0), (2, 0), (2, 1), (1, 2), (-1, -1), (10, 10), (11, 10), (10, 11)];
    let mut a = grid_of(&seed);
    let mut b = a.snapshot();
    a.update();
    b.update();
    assert_eq!(live_set(&a), live_set(&b));
}

#[test]
fn far_flung_cells_update_independently() {
    // A block and a blinker far apart do not interact.
    let mut g = grid_of(&[(0, 0), (1, 0), (0, 1), (1, 1), (1000000, -1000000), (1000001, -1000000), (1000002, -1000000)]);
    g.update();
    assert_exactly(
        &g,
        &[(0, 0), (1, 0), (0, 1), (1, 1), (1000001, -1000001), (1000001, -1000000), (1000001, -999999)],
    );
}

#[test]
fn snapshot_is_independent_of_later_edits() {
    let seed = [(0, 0), (2, 2)];
    let mut g = grid_of(&seed);
    let snap = g.snapshot();
    g.toggle(Point::new(5, 5));
    g.toggle(Point::new(0, 0));
    assert_exactly(&snap, &seed);
    assert_exactly(&g, &[(2, 2), (5, 5)]);
}

#[test]
fn replace_substitutes_the_whole_set() {
    let seed = [(0, 0), (2, 2)];
    let mut g = grid_of(&seed);
    let snap = g.snapshot();
    g.toggle(Point::new(5, 5));
    g.toggle(Point::new(0, 0));
    g.replace(snap);
    // The restored grid holds exactly the snapshot: no merge with (5, 5).
    assert_exactly(&g, &seed);
    assert!(!g.contains(Point::new(5, 5)));
}

#[test]
fn snapshot_survives_generations_of_the_original() {
    let toad = [(2, 2), (3, 2), (4, 2), (1, 3), (2, 3), (3, 3)];
    let mut g = grid_of(&toad);
    let snap = g.snapshot();
    g.update();
    assert_exactly(&snap, &toad);
    g.replace(snap);
    assert_exactly(&g, &toad);
}

#[test]
fn negative_coordinates_follow_the_same_rule() {
    let block = [(-10, -10), (-9, -10), (-10, -9), (-9, -9)];
    let mut g = grid_of(&block);
    g.update();
    assert_exactly(&g, &block);
}
