use mazeroom::grid::Grid;
use mazeroom::maze::carve;
use mazeroom::room::{room_make, RoomError};
use rand::rngs::StdRng;
use rand::SeedableRng;

const STEPS: [(i64, i64); 4] = [(1, 0), (0, 1), (-1, 0), (0, -1)];

fn mask(g: &Grid, x: i64, y: i64) -> Option<u8> {
    if x < 0 || y < 0 {
        return None;
    }
    g.cell(x as usize, y as usize)
}

fn reachable_count(g: &Grid, n: usize) -> usize {
    let r = (n / 2) as i64;
    let mut seen = vec![vec![false; n]; n];
    let mut todo = vec![(r, r)];
    seen[r as usize][r as usize] = true;
    let mut count = 0;
    while let Some((x, y)) = todo.pop() {
        count += 1;
        let m = mask(g, x, y).unwrap();
        for d in 0..4 {
            if m & (1 << d) != 0 {
                let (nx, ny) = (x + STEPS[d].0, y + STEPS[d].1);
                if mask(g, nx, ny).is_some() && !seen[ny as usize][nx as usize] {
                    seen[ny as usize][nx as usize] = true;
                    todo.push((nx, ny));
                }
            }
        }
    }
    count
}

fn open_ends(g: &Grid, n: usize) -> usize {
    let mut total = 0;
    for y in 0..n {
        for x in 0..n {
            total += g.cell(x, y).unwrap().count_ones() as usize;
        }
    }
    total
}

fn check_symmetric(g: &Grid, n: usize) {
    for y in 0..n as i64 {
        for x in 0..n as i64 {
            let m = mask(g, x, y).unwrap();
            assert!(m < 16);
            for d in 0..4 {
                let (nx, ny) = (x + STEPS[d].0, y + STEPS[d].1);
                let here = m & (1 << d) != 0;
                let there = match mask(g, nx, ny) {
                    Some(o) => o & (1 << ((d + 2) % 4)) != 0,
                    None => false,
                };
                assert_eq!(here, there, "cell ({}, {}) direction {}", x, y, d);
            }
        }
    }
}

#[test]
fn carved_mazes_span_the_grid() {
    for n in 1..=9usize {
        for seed in 0..5u64 {
            let mut rng = StdRng::seed_from_u64(seed);
            let (g, best) = carve(n, &mut rng);
            assert_eq!(reachable_count(&g, n), n * n);
            assert_eq!(open_ends(&g, n), 2 * (n * n - 1));
            assert_eq!(best.len(), 4);
            assert!(best.iter().all(|b| b.is_some()));
        }
    }
}

#[test]
fn carved_mazes_are_symmetric() {
    for n in 1..=9usize {
        for seed in 10..14u64 {
            let mut rng = StdRng::seed_from_u64(seed);
            let (g, _) = carve(n, &mut rng);
            check_symmetric(&g, n);
        }
    }
}

#[test]
fn single_cell_maze_has_no_passage() {
    let mut rng = StdRng::seed_from_u64(1);
    let (g, best) = carve(1, &mut rng);
    assert_eq!(g.cell(0, 0), Some(0));
    for b in best {
        assert_eq!(b, Some((mazeroom::constants::Pos { x: 0, y: 0 }, 0)));
    }
}

#[test]
fn seeds_give_different_mazes() {
    let n = 11;
    let mut first = StdRng::seed_from_u64(3);
    let mut second = StdRng::seed_from_u64(4);
    let (a, _) = carve(n, &mut first);
    let (b, _) = carve(n, &mut second);
    let mut differ = false;
    for y in 0..n {
        for x in 0..n {
            if a.cell(x, y) != b.cell(x, y) {
                differ = true;
            }
        }
    }
    assert!(differ);
}

#[test]
fn same_seed_same_maze() {
    let n = 7;
    let (a, _) = carve(n, &mut StdRng::seed_from_u64(42));
    let (b, _) = carve(n, &mut StdRng::seed_from_u64(42));
    for y in 0..n {
        for x in 0..n {
            assert_eq!(a.cell(x, y), b.cell(x, y));
        }
    }
}

#[test]
fn zero_extent_is_refused() {
    let mut rng = StdRng::seed_from_u64(0);
    assert_eq!(room_make(0, &mut rng, false).err(), Some(RoomError::BadExtent));
    assert_eq!(room_make(0, &mut rng, true).err(), Some(RoomError::BadExtent));
}

#[test]
fn single_cell_room_cannot_hold_actors() {
    let mut rng = StdRng::seed_from_u64(0);
    assert_eq!(room_make(1, &mut rng, true).err(), Some(RoomError::PlacementExhausted));
    let room = room_make(1, &mut rng, false).ok().unwrap();
    assert!(room.actors.is_empty());
}

#[test]
fn floor_only_room_has_no_actors() {
    let mut rng = StdRng::seed_from_u64(9);
    let room = room_make(11, &mut rng, false).ok().unwrap();
    assert!(room.actors.is_empty());
    assert_eq!(reachable_count(&room.routes, 11), 121);
    assert_eq!(room.walls.cell(11, 11).is_some(), true);
    assert_eq!(room.walls.cell(12, 0), None);
}

#[test]
fn large_maze_spans_the_grid() {
    let n = 64;
    let mut rng = StdRng::seed_from_u64(77);
    let room = room_make(n, &mut rng, true).ok().unwrap();
    assert_eq!(reachable_count(&room.routes, n), n * n);
    assert_eq!(open_ends(&room.routes, n), 2 * (n * n - 1));
    check_symmetric(&room.routes, n);
    assert_eq!(room.actors.len(), 3);
}

#[test]
fn two_by_two_maze() {
    for seed in 0..20u64 {
        let mut rng = StdRng::seed_from_u64(seed);
        let room = room_make(2, &mut rng, true).ok().unwrap();
        assert_eq!(reachable_count(&room.routes, 2), 4);
        assert_eq!(open_ends(&room.routes, 2), 6);
        let cells: Vec<_> = room.actors.iter().map(|a| a.1).collect();
        assert_ne!(cells[0], cells[1]);
        assert_ne!(cells[0], cells[2]);
        assert_ne!(cells[1], cells[2]);
    }
}
