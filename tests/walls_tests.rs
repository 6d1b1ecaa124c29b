use mazeroom::grid::Grid;
use mazeroom::walls::{derive_walls, wall_tile, WallRot};

// A comb: the top row is one corridor, and each column hangs down from it.
fn comb() -> Grid {
    let rows: [[u8; 3]; 3] = [[3, 7, 6], [10, 10, 10], [8, 8, 8]];
    let mut g = Grid::new(3, 3);
    for y in 0..3 {
        for x in 0..3 {
            assert!(g.put(x, y, rows[y][x]));
        }
    }
    g
}

#[test]
fn comb_walls_match_hand_values() {
    let routes = comb();
    let walls = derive_walls(&routes, 3);
    let expected: [[u8; 4]; 4] = [
        [15, 13, 13, 15],
        [14, 2, 2, 11],
        [14, 10, 10, 11],
        [15, 15, 15, 15],
    ];
    for y in 0..4 {
        for x in 0..4 {
            assert_eq!(walls.cell(x, y), Some(expected[y][x]), "crossing ({}, {})", x, y);
        }
    }
    assert_eq!(walls.cell(4, 0), None);
    assert_eq!(walls.cell(0, 4), None);
}

#[test]
fn single_cell_walls_are_closed_boxes() {
    let routes = Grid::new(1, 1);
    let walls = derive_walls(&routes, 1);
    assert_eq!(walls.cell(0, 0), Some(15));
    assert_eq!(walls.cell(1, 0), Some(15));
    assert_eq!(walls.cell(0, 1), Some(15));
    assert_eq!(walls.cell(1, 1), Some(15));
}

#[test]
fn wall_rot_masks_round_trip() {
    for m in 0..16u8 {
        assert_eq!(WallRot::from_mask(m).mask(), m);
    }
    assert_eq!(WallRot::from_mask(3), WallRot::L0);
    assert_eq!(WallRot::from_mask(7), WallRot::T0);
    assert_eq!(WallRot::from_mask(10), WallRot::UpDown);
    assert_eq!(WallRot::from_mask(15), WallRot::Full);
}

#[test]
fn wall_tiles_follow_the_table() {
    let table: [(u8, u8); 16] = [
        (0, 0), (4, 0), (4, 1), (2, 0), (4, 2), (1, 0), (2, 1), (3, 0),
        (4, 3), (2, 3), (1, 1), (3, 3), (2, 2), (3, 2), (3, 1), (0, 0),
    ];
    for m in 0..16u8 {
        assert_eq!(wall_tile(m), table[m as usize], "mask {}", m);
    }
    assert_eq!(WallRot::T1.semantics(), [3, 1]);
    assert_eq!(WallRot::Blank.semantics(), [0, 0]);
}

#[test]
fn grid_put_outside_changes_nothing() {
    let mut g = Grid::new(2, 3);
    assert!(!g.put(3, 0, 5));
    assert!(!g.put(0, 2, 5));
    assert!(g.put(2, 1, 5));
    assert_eq!(g.cell(2, 1), Some(5));
    assert_eq!(g.cell(0, 0), Some(0));
}
