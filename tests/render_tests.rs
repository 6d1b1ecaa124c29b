use mazeroom::constants::{Actor, Dir, Pos};
use mazeroom::grid::Grid;
use mazeroom::render::{actor_sprite, room_render, Sprite};
use mazeroom::room::{room_make, Room};
use rand::rngs::StdRng;
use rand::SeedableRng;

#[test]
fn actor_sprites_follow_the_table() {
    assert_eq!(actor_sprite(Actor::Player(Dir::Right)), (0, false));
    assert_eq!(actor_sprite(Actor::Player(Dir::Left)), (0, true));
    assert_eq!(actor_sprite(Actor::Player(Dir::Down)), (1, false));
    assert_eq!(actor_sprite(Actor::Player(Dir::Up)), (2, false));
    assert_eq!(actor_sprite(Actor::Door), (3, false));
    assert_eq!(actor_sprite(Actor::Key(true)), (4, false));
    assert_eq!(actor_sprite(Actor::Key(false)), (5, false));
    assert_eq!(actor_sprite(Actor::Shot), (6, false));
    assert_eq!(actor_sprite(Actor::Ammo), (7, false));
    assert_eq!(actor_sprite(Actor::Monster(Dir::Up, 5)), (13, false));
}

#[test]
fn full_room_render() {
    let mut rng = StdRng::seed_from_u64(1);
    let room = room_make(11, &mut rng, true).ok().unwrap();
    let all = room_render(&room, true, 512);
    assert_eq!(all.len(), 144 + 3);
    let first_mask = room.walls.cell(0, 0).unwrap() as i32;
    assert_eq!(
        all[0],
        Sprite { x: 4, y: 4, w: 10, h: 10, tx: (first_mask % 8) * 10, ty: 8 + (first_mask / 8) * 10, tw: 10, th: 10 }
    );
    let floor = room_render(&room, false, 512);
    assert_eq!(floor.len(), 144);
    let few = room_render(&room, true, 10);
    assert_eq!(few.len(), 10);
    assert_eq!(few[..], all[..10]);
}

#[test]
fn actor_sprite_rects() {
    let room = Room {
        routes: Grid::new(1, 1),
        walls: Grid::new(2, 2),
        actors: vec![(Actor::Player(Dir::Left), Pos::new(0, 0)), (Actor::Door, Pos::new(0, 0))],
    };
    let s = room_render(&room, true, 100);
    assert_eq!(s.len(), 6);
    // two crossings of ten pixels leave a margin of 54 on a 128 pixel canvas
    assert_eq!(s[0], Sprite { x: 54, y: 54, w: 10, h: 10, tx: 0, ty: 8, tw: 10, th: 10 });
    assert_eq!(s[3], Sprite { x: 64, y: 64, w: 10, h: 10, tx: 0, ty: 8, tw: 10, th: 10 });
    assert_eq!(s[4], Sprite { x: 60, y: 60, w: 8, h: 8, tx: 8, ty: 0, tw: -8, th: 8 });
    assert_eq!(s[5], Sprite { x: 60, y: 60, w: 8, h: 8, tx: 24, ty: 0, tw: 8, th: 8 });
}
