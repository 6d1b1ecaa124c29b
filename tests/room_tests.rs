use mazeroom::constants::{Actor, Dir, Pos};
use mazeroom::game::{game_move, GameState, MoveOutcome};
use mazeroom::grid::Grid;
use mazeroom::room::{finish_placement, place_actors, rank_branches, room_make, Room, RoomError};
use rand::rngs::StdRng;
use rand::SeedableRng;

const STEPS: [(i32, i32); 4] = [(1, 0), (0, 1), (-1, 0), (0, -1)];

fn comb() -> Grid {
    let rows: [[u8; 3]; 3] = [[3, 7, 6], [10, 10, 10], [8, 8, 8]];
    let mut g = Grid::new(3, 3);
    for y in 0..3 {
        for x in 0..3 {
            assert!(g.put(x, y, rows[y][x]));
        }
    }
    g
}

fn check_placed(room: &Room) {
    assert_eq!(room.actors.len(), 3);
    assert_eq!(room.actors[0].0, Actor::Door);
    assert!(matches!(room.actors[1].0, Actor::Player(Dir::Left) | Actor::Player(Dir::Right)));
    let (door, player, key) = (room.actors[0].1, room.actors[1].1, room.actors[2].1);
    assert_ne!(door, player);
    assert_ne!(door, key);
    assert_ne!(player, key);
    if let Actor::Key(right) = room.actors[2].0 {
        let m = room.routes.cell(key.x as usize, key.y as usize).unwrap();
        if m & 1 != 0 && m & 4 == 0 {
            assert!(!right);
        }
        if m & 4 != 0 && m & 1 == 0 {
            assert!(right);
        }
    } else {
        panic!("third actor is not a key");
    }
}

#[test]
fn placement_gives_three_distinct_cells() {
    for n in 2..=9usize {
        for seed in 0..8u64 {
            let mut rng = StdRng::seed_from_u64(seed);
            let room = room_make(n, &mut rng, true).ok().unwrap();
            check_placed(&room);
        }
    }
}

#[test]
fn ranking_is_by_depth_then_branch() {
    let c = vec![
        Some((Pos::new(0, 0), 3)),
        Some((Pos::new(1, 0), 5)),
        Some((Pos::new(2, 0), 3)),
        Some((Pos::new(0, 1), 0)),
    ];
    assert_eq!(rank_branches(&c), [1, 0, 2, 3]);
    let ties = vec![
        Some((Pos::new(0, 0), 2)),
        Some((Pos::new(1, 0), 2)),
        Some((Pos::new(2, 0), 2)),
        Some((Pos::new(0, 1), 2)),
    ];
    assert_eq!(rank_branches(&ties), [0, 1, 2, 3]);
}

#[test]
fn placement_uses_ranked_records() {
    let routes = comb();
    let c = vec![
        Some((Pos::new(1, 1), 0)),
        Some((Pos::new(0, 2), 3)),
        Some((Pos::new(2, 0), 2)),
        Some((Pos::new(2, 2), 3)),
    ];
    let mut rng = StdRng::seed_from_u64(5);
    let actors = place_actors(&routes, 3, &c, &mut rng).ok().unwrap();
    assert_eq!(actors[0], (Actor::Door, Pos::new(0, 2)));
    assert_eq!(actors[1].1, Pos::new(2, 2));
    // (2, 0) opens left and down only, so the key faces right
    assert_eq!(actors[2], (Actor::Key(true), Pos::new(2, 0)));
}

#[test]
fn placement_key_faces_left_on_right_opening() {
    let routes = comb();
    let c = vec![
        Some((Pos::new(0, 0), 1)),
        Some((Pos::new(1, 2), 3)),
        Some((Pos::new(2, 2), 3)),
        Some((Pos::new(1, 1), 0)),
    ];
    let mut rng = StdRng::seed_from_u64(6);
    let actors = place_actors(&routes, 3, &c, &mut rng).ok().unwrap();
    assert_eq!(actors[0], (Actor::Door, Pos::new(1, 2)));
    assert_eq!(actors[1].1, Pos::new(2, 2));
    // (0, 0) opens right and down only, so the key faces left
    assert_eq!(actors[2], (Actor::Key(false), Pos::new(0, 0)));
}

#[test]
fn placement_redraws_a_colliding_key() {
    let routes = comb();
    let c = vec![
        Some((Pos::new(1, 1), 0)),
        Some((Pos::new(0, 2), 2)),
        Some((Pos::new(2, 2), 2)),
        Some((Pos::new(1, 1), 0)),
    ];
    let mut rng = StdRng::seed_from_u64(7);
    let actors = place_actors(&routes, 3, &c, &mut rng).ok().unwrap();
    assert_eq!(actors[0].1, Pos::new(0, 2));
    assert_eq!(actors[1].1, Pos::new(2, 2));
    assert_ne!(actors[2].1, Pos::new(0, 2));
    assert_ne!(actors[2].1, Pos::new(2, 2));
}

fn path_between(routes: &Grid, from: Pos, to: Pos, n: usize) -> Vec<usize> {
    let mut prev: Vec<Vec<Option<(Pos, usize)>>> = vec![vec![None; n]; n];
    let mut seen = vec![vec![false; n]; n];
    let mut todo = std::collections::VecDeque::new();
    todo.push_back(from);
    seen[from.y as usize][from.x as usize] = true;
    while let Some(at) = todo.pop_front() {
        let m = routes.cell(at.x as usize, at.y as usize).unwrap();
        for d in 0..4 {
            if m & (1 << d) != 0 {
                let next = Pos::new(at.x + STEPS[d].0, at.y + STEPS[d].1);
                if !seen[next.y as usize][next.x as usize] {
                    seen[next.y as usize][next.x as usize] = true;
                    prev[next.y as usize][next.x as usize] = Some((at, d));
                    todo.push_back(next);
                }
            }
        }
    }
    assert!(seen[to.y as usize][to.x as usize]);
    let mut dirs = Vec::new();
    let mut at = to;
    while at != from {
        let (back, d) = prev[at.y as usize][at.x as usize].unwrap();
        dirs.push(d);
        at = back;
    }
    dirs.reverse();
    dirs
}

#[test]
fn five_by_five_walk_to_the_door() {
    let n = 5;
    let mut rng = StdRng::seed_from_u64(2024);
    let mut room = room_make(n, &mut rng, true).ok().unwrap();
    let mut cells = 0;
    for y in 0..n {
        for x in 0..n {
            if !path_between(&room.routes, Pos::new(2, 2), Pos::new(x as i32, y as i32), n).is_empty() || (x, y) == (2, 2) {
                cells += 1;
            }
        }
    }
    assert_eq!(cells, 25);
    check_placed(&room);
    let door = room.actors[0].1;
    let key = room.actors[2].1;
    let start = room.actors[1].1;
    let dirs = path_between(&room.routes, start, door, n);
    let mut state = GameState::new(1, 0);
    let mut at = start;
    let mut has_key = false;
    for (i, &d) in dirs.iter().enumerate() {
        let dir = Dir::from_index(d);
        let mut outcome = game_move(&mut state, &mut room, dir);
        if outcome == MoveOutcome::Turned {
            outcome = game_move(&mut state, &mut room, dir);
        }
        let next = Pos::new(at.x + STEPS[d].0, at.y + STEPS[d].1);
        if i + 1 < dirs.len() {
            assert_eq!(outcome, MoveOutcome::Moved);
            at = next;
            if at == key {
                has_key = true;
                assert_eq!(state.keys(), 1);
            }
        } else if has_key {
            assert_eq!(outcome, MoveOutcome::Moved);
            at = next;
            assert_eq!(state.keys(), 0);
            assert!(room.actors.iter().all(|a| a.0 != Actor::Door));
        } else {
            assert_eq!(outcome, MoveOutcome::Blocked);
            assert!(room.actors.iter().any(|a| a.0 == Actor::Door && a.1 == door));
        }
        assert_eq!(room.actors[state.player_idx].1, at);
    }
    if has_key {
        assert_eq!(at, door);
    }
}

#[test]
fn finish_placement_keeps_a_free_first_cell() {
    let routes = comb();
    let r = finish_placement(&routes, 3, Pos::new(0, 2), Pos::new(2, 2), Pos::new(1, 1), &vec![], 0, 1).ok().unwrap();
    // (1, 1) opens up and down only, so the drawn bit decides: right
    assert_eq!(
        r,
        vec![
            (Actor::Door, Pos::new(0, 2)),
            (Actor::Player(Dir::Left), Pos::new(2, 2)),
            (Actor::Key(true), Pos::new(1, 1)),
        ]
    );
}

#[test]
fn finish_placement_takes_first_free_draw() {
    let routes = comb();
    let draws = vec![Pos::new(0, 2), Pos::new(2, 2), Pos::new(0, 0), Pos::new(1, 1)];
    let r = finish_placement(&routes, 3, Pos::new(0, 2), Pos::new(2, 2), Pos::new(2, 2), &draws, 1, 1).ok().unwrap();
    // (0, 0) opens right and down: the key faces left whatever was drawn
    assert_eq!(r[1], (Actor::Player(Dir::Right), Pos::new(2, 2)));
    assert_eq!(r[2], (Actor::Key(false), Pos::new(0, 0)));
}

#[test]
fn finish_placement_gives_up_without_a_free_draw() {
    let routes = comb();
    let draws = vec![Pos::new(0, 2), Pos::new(2, 2), Pos::new(0, 2)];
    let r = finish_placement(&routes, 3, Pos::new(0, 2), Pos::new(2, 2), Pos::new(0, 2), &draws, 0, 0);
    assert_eq!(r.err(), Some(RoomError::PlacementExhausted));
}

#[test]
fn door_is_a_deepest_cell() {
    for seed in 0..6u64 {
        let n = 7;
        let mut rng = StdRng::seed_from_u64(seed);
        let room = room_make(n, &mut rng, true).ok().unwrap();
        let root = Pos::new(3, 3);
        let door = room.actors[0].1;
        let far = path_between(&room.routes, root, door, n).len();
        for y in 0..n as i32 {
            for x in 0..n as i32 {
                assert!(path_between(&room.routes, root, Pos::new(x, y), n).len() <= far);
            }
        }
        let near = path_between(&room.routes, root, room.actors[1].1, n);
        let to_door = path_between(&room.routes, root, door, n);
        if !near.is_empty() {
            assert_ne!(near[0], to_door[0]);
        }
    }
}
