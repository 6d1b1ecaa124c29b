use mazeroom::constants::{Actor, Dir, Pos};
use mazeroom::game::{game_collide, game_move, remove_marked, GameState, MoveOutcome};
use mazeroom::grid::Grid;
use mazeroom::room::Room;

fn comb() -> Grid {
    let rows: [[u8; 3]; 3] = [[3, 7, 6], [10, 10, 10], [8, 8, 8]];
    let mut g = Grid::new(3, 3);
    for y in 0..3 {
        for x in 0..3 {
            assert!(g.put(x, y, rows[y][x]));
        }
    }
    g
}

fn room_with(actors: Vec<(Actor, Pos)>) -> Room {
    Room { routes: comb(), walls: Grid::new(4, 4), actors }
}

fn p(x: i32, y: i32) -> Pos {
    Pos::new(x, y)
}

#[test]
fn turning_changes_only_facing() {
    let mut room = room_with(vec![(Actor::Door, p(0, 0)), (Actor::Player(Dir::Left), p(1, 1))]);
    let mut state = GameState::new(1, 0);
    assert_eq!(game_move(&mut state, &mut room, Dir::Up), MoveOutcome::Turned);
    assert_eq!(room.actors[1], (Actor::Player(Dir::Up), p(1, 1)));
    assert_eq!(state.player_idx, 1);
    assert_eq!(state.keys(), 0);
    assert_eq!(room.actors.len(), 2);
}

#[test]
fn closed_edge_blocks() {
    let mut room = room_with(vec![(Actor::Player(Dir::Down), p(0, 2)), (Actor::Key(true), p(1, 2))]);
    let mut state = GameState::new(0, 2);
    assert_eq!(game_move(&mut state, &mut room, Dir::Down), MoveOutcome::Blocked);
    assert_eq!(room.actors[0], (Actor::Player(Dir::Down), p(0, 2)));
    assert_eq!(state.keys(), 2);
    // right is closed on the bottom row too, even with a key behind the wall
    let mut state = GameState::new(0, 2);
    assert_eq!(game_move(&mut state, &mut room, Dir::Right), MoveOutcome::Turned);
    assert_eq!(game_move(&mut state, &mut room, Dir::Right), MoveOutcome::Blocked);
    assert_eq!(room.actors[0], (Actor::Player(Dir::Right), p(0, 2)));
    assert_eq!(room.actors.len(), 2);
    assert_eq!(state.keys(), 2);
}

#[test]
fn open_step_moves() {
    let mut room = room_with(vec![(Actor::Player(Dir::Down), p(1, 0))]);
    let mut state = GameState::default();
    assert_eq!(game_move(&mut state, &mut room, Dir::Down), MoveOutcome::Moved);
    assert_eq!(room.actors[0], (Actor::Player(Dir::Down), p(1, 1)));
    assert_eq!(game_move(&mut state, &mut room, Dir::Down), MoveOutcome::Moved);
    assert_eq!(room.actors[0], (Actor::Player(Dir::Down), p(1, 2)));
    assert_eq!(game_move(&mut state, &mut room, Dir::Down), MoveOutcome::Blocked);
    assert_eq!(room.actors[0], (Actor::Player(Dir::Down), p(1, 2)));
}

#[test]
fn key_is_picked_up() {
    let mut room = room_with(vec![
        (Actor::Door, p(0, 0)),
        (Actor::Key(false), p(1, 0)),
        (Actor::Player(Dir::Up), p(1, 1)),
    ]);
    let mut state = GameState::new(2, 0);
    assert_eq!(game_move(&mut state, &mut room, Dir::Up), MoveOutcome::Moved);
    assert_eq!(state.keys(), 1);
    assert_eq!(room.actors.len(), 2);
    assert_eq!(state.player_idx, 1);
    assert_eq!(room.actors[1], (Actor::Player(Dir::Up), p(1, 0)));
    assert_eq!(room.actors[0], (Actor::Door, p(0, 0)));
}

#[test]
fn locked_door_blocks() {
    let mut room = room_with(vec![(Actor::Player(Dir::Up), p(1, 1)), (Actor::Door, p(1, 0))]);
    let mut state = GameState::new(0, 0);
    assert_eq!(game_move(&mut state, &mut room, Dir::Up), MoveOutcome::Blocked);
    assert_eq!(room.actors[0], (Actor::Player(Dir::Up), p(1, 1)));
    assert_eq!(room.actors[1], (Actor::Door, p(1, 0)));
    assert_eq!(state.keys(), 0);
}

#[test]
fn key_opens_door() {
    let mut room = room_with(vec![(Actor::Door, p(1, 0)), (Actor::Player(Dir::Up), p(1, 1))]);
    let mut state = GameState::new(1, 1);
    assert_eq!(game_move(&mut state, &mut room, Dir::Up), MoveOutcome::Moved);
    assert_eq!(state.keys(), 0);
    assert_eq!(room.actors.len(), 1);
    assert_eq!(state.player_idx, 0);
    assert_eq!(room.actors[0], (Actor::Player(Dir::Up), p(1, 0)));
}

#[test]
fn key_then_door_on_one_cell() {
    let mut room = room_with(vec![
        (Actor::Key(true), p(1, 0)),
        (Actor::Door, p(1, 0)),
        (Actor::Player(Dir::Up), p(1, 1)),
    ]);
    let mut state = GameState::new(2, 0);
    assert_eq!(game_move(&mut state, &mut room, Dir::Up), MoveOutcome::Moved);
    assert_eq!(state.keys(), 0);
    assert_eq!(room.actors, vec![(Actor::Player(Dir::Up), p(1, 0))]);
    assert_eq!(state.player_idx, 0);
}

#[test]
fn door_before_key_halts_the_scan() {
    let mut room = room_with(vec![
        (Actor::Door, p(1, 0)),
        (Actor::Key(true), p(1, 0)),
        (Actor::Player(Dir::Up), p(1, 1)),
    ]);
    let mut state = GameState::new(2, 0);
    assert_eq!(game_move(&mut state, &mut room, Dir::Up), MoveOutcome::Blocked);
    assert_eq!(state.keys(), 0);
    assert_eq!(room.actors.len(), 3);
    assert_eq!(room.actors[2], (Actor::Player(Dir::Up), p(1, 1)));
}

#[test]
fn other_actors_do_nothing() {
    let mut room = room_with(vec![
        (Actor::Ammo, p(1, 0)),
        (Actor::Monster(Dir::Left, 3), p(1, 0)),
        (Actor::Player(Dir::Up), p(1, 1)),
    ]);
    let mut state = GameState::new(2, 0);
    assert_eq!(game_move(&mut state, &mut room, Dir::Up), MoveOutcome::Moved);
    assert_eq!(room.actors.len(), 3);
    assert_eq!(room.actors[2], (Actor::Player(Dir::Up), p(1, 0)));
}

#[test]
fn collide_rules() {
    let mut state = GameState::new(0, 0);
    let player = Actor::Player(Dir::Left);
    assert_eq!(game_collide(&mut state, &player, &Actor::Door, p(0, 0)), (true, false));
    assert_eq!(state.keys(), 0);
    assert_eq!(game_collide(&mut state, &player, &Actor::Key(true), p(0, 0)), (false, true));
    assert_eq!(state.keys(), 1);
    assert_eq!(game_collide(&mut state, &player, &Actor::Door, p(0, 0)), (false, true));
    assert_eq!(state.keys(), 0);
    assert_eq!(game_collide(&mut state, &player, &Actor::Shot, p(0, 0)), (false, false));
    assert_eq!(game_collide(&mut state, &Actor::Door, &Actor::Key(true), p(0, 0)), (false, false));
    assert_eq!(state.keys(), 0);
}

#[test]
fn removal_reindexes_player() {
    let player = (Actor::Player(Dir::Right), p(2, 2));
    let mut actors = vec![
        (Actor::Key(true), p(0, 0)),
        (Actor::Door, p(1, 0)),
        player,
        (Actor::Key(false), p(2, 0)),
        (Actor::Ammo, p(0, 1)),
    ];
    let marks = vec![true, false, false, true, false];
    let idx = remove_marked(&mut actors, &marks, 2);
    assert_eq!(idx, 1);
    assert_eq!(actors[idx], player);
    assert_eq!(actors, vec![(Actor::Door, p(1, 0)), player, (Actor::Ammo, p(0, 1))]);
}

#[test]
fn removal_after_player_keeps_index() {
    let player = (Actor::Player(Dir::Up), p(0, 0));
    let mut actors = vec![player, (Actor::Key(true), p(1, 0)), (Actor::Door, p(2, 0))];
    let idx = remove_marked(&mut actors, &vec![false, true, true], 0);
    assert_eq!(idx, 0);
    assert_eq!(actors, vec![player]);
}

#[test]
fn collide_at_most_keys() {
    let mut state = GameState::new(0, u32::MAX);
    let player = Actor::Player(Dir::Down);
    assert_eq!(game_collide(&mut state, &player, &Actor::Door, p(0, 0)), (false, true));
    assert_eq!(state.keys(), u32::MAX - 1);
    let mut state = GameState::new(0, u32::MAX);
    assert_eq!(game_collide(&mut state, &player, &Actor::Ammo, p(0, 0)), (false, false));
    assert_eq!(state.keys(), u32::MAX);
}
