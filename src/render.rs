// What a renderer draws for a room: one sprite per wall crossing and per actor, in pixels.
use vstd::prelude::*;
use crate::constants::{Actor, Dir, Pos, ACTOR_SIDE, ACTOR_Y_ORIGIN, CANVAS_SIDE, TILE_ROW_MAX, TILE_SIDE, TILE_Y_ORIGIN};
use crate::grid::rows_have;
use crate::maze::MAX_SIDE;
use crate::room::Room;

verus! {

/// A sprite: where it goes on the canvas and which rectangle of the sprite atlas it shows,
/// in pixels. A negative texture width draws the rectangle mirrored.
#[derive(Clone, Copy, Debug, PartialEq, Eq, Structural)]
pub struct Sprite {
    pub x: i32,
    pub y: i32,
    pub w: i32,
    pub h: i32,
    pub tx: i32,
    pub ty: i32,
    pub tw: i32,
    pub th: i32,
}

/// The atlas sprite of an actor and whether it is drawn mirrored.
pub open spec fn actor_look(a: Actor) -> (int, bool) {
    match a {
        Actor::Player(Dir::Right) => (0, false),
        Actor::Player(Dir::Left) => (0, true),
        Actor::Player(Dir::Down) => (1, false),
        Actor::Player(Dir::Up) => (2, false),
        Actor::Door => (3, false),
        Actor::Key(true) => (4, false),
        Actor::Key(false) => (5, false),
        Actor::Shot => (6, false),
        Actor::Ammo => (7, false),
        Actor::Monster(_, k) => (8 + k, false),
    }
}

/// The atlas sprite of an actor and whether it is drawn mirrored.
pub fn actor_sprite(a: Actor) -> (r: (u32, bool))
    ensures
        r.0 as int == actor_look(a).0,
        r.1 == actor_look(a).1,
{
    match a {
        Actor::Player(Dir::Right) => (0, false),
        Actor::Player(Dir::Left) => (0, true),
        Actor::Player(Dir::Down) => (1, false),
        Actor::Player(Dir::Up) => (2, false),
        Actor::Door => (3, false),
        Actor::Key(true) => (4, false),
        Actor::Key(false) => (5, false),
        Actor::Shot => (6, false),
        Actor::Ammo => (7, false),
        Actor::Monster(_, k) => (8 + k as u32, false),
    }
}

/// Half of `a`, rounded toward zero.
pub open spec fn half_toward_zero(a: int) -> int {
    if a >= 0 {
        a / 2
    } else {
        -((-a) / 2)
    }
}

/// The margin that centres `crossings` wall crossings on the canvas.
pub open spec fn margin(crossings: int) -> int {
    half_toward_zero(CANVAS_SIDE as int - TILE_SIDE as int * crossings)
}

/// The sprite of wall crossing `(x, y)` with arm mask `m`.
pub open spec fn wall_look(x: int, y: int, m: int, off: int) -> Sprite {
    Sprite {
        x: (x * TILE_SIDE as int + off) as i32,
        y: (y * TILE_SIDE as int + off) as i32,
        w: TILE_SIDE as i32,
        h: TILE_SIDE as i32,
        tx: ((m % TILE_ROW_MAX as int) * TILE_SIDE as int) as i32,
        ty: (TILE_Y_ORIGIN as int + (m / TILE_ROW_MAX as int) * TILE_SIDE as int) as i32,
        tw: TILE_SIDE as i32,
        th: TILE_SIDE as i32,
    }
}

/// The sprite of actor `a` standing on cell `at`.
pub open spec fn actor_rect(a: Actor, at: Pos, off: int) -> Sprite {
    let look = actor_look(a);
    Sprite {
        x: (at.x * TILE_SIDE as int + off + 6) as i32,
        y: (at.y * TILE_SIDE as int + off + 6) as i32,
        w: ACTOR_SIDE as i32,
        h: ACTOR_SIDE as i32,
        tx: ((look.0 + if look.1 { 1int } else { 0int }) * ACTOR_SIDE as int) as i32,
        ty: ACTOR_Y_ORIGIN as i32,
        tw: (if look.1 { -(ACTOR_SIDE as int) } else { ACTOR_SIDE as int }) as i32,
        th: ACTOR_SIDE as i32,
    }
}

/// The sprites of row `y` of a wall grid `cols` crossings wide.
pub open spec fn wall_row(g: Seq<Seq<u8>>, y: int, cols: nat, off: int) -> Seq<Sprite> {
    Seq::new(cols, |x: int| wall_look(x, y, g[y][x] as int, off))
}

/// The sprites of the first `k` rows of a wall grid.
pub open spec fn wall_rows(g: Seq<Seq<u8>>, k: nat, cols: nat, off: int) -> Seq<Sprite>
    decreases k,
{
    if k == 0 {
        Seq::empty()
    } else {
        wall_rows(g, (k - 1) as nat, cols, off) + wall_row(g, k - 1, cols, off)
    }
}

/// The sprites of a room: its wall crossings row by row, then, if asked, its actors in
/// list order.
pub open spec fn room_look(room: &Room, actor_draw: bool) -> Seq<Sprite> {
    let g = room.walls@;
    let cols = room.walls.spec_cols();
    let off = margin(cols as int);
    wall_rows(g, g.len(), cols, off) + if actor_draw {
        room.actors@.map_values(|p: (Actor, Pos)| actor_rect(p.0, p.1, off))
    } else {
        Seq::empty()
    }
}

/// The first `min(cap, s.len())` entries of `s`.
pub open spec fn up_to(s: Seq<Sprite>, cap: int) -> Seq<Sprite> {
    if s.len() <= cap {
        s
    } else {
        s.take(cap)
    }
}

proof fn lemma_up_to_push(s: Seq<Sprite>, v: Sprite, cap: int)
    requires
        0 <= cap,
    ensures
        up_to(s, cap).len() < cap ==> up_to(s.push(v), cap) == up_to(s, cap).push(v),
        up_to(s, cap).len() >= cap ==> up_to(s.push(v), cap) == up_to(s, cap),
{
    if s.len() < cap {
        assert(up_to(s.push(v), cap) =~= up_to(s, cap).push(v));
    } else {
        assert(up_to(s.push(v), cap) =~= up_to(s, cap));
    }
}

/// The sprites to draw for a room, at most `capacity` of them: its wall crossings row by
/// row, then, when `actor_draw` holds, its actors in list order. The grid is centred on the
/// canvas.
pub fn room_render(room: &Room, actor_draw: bool, capacity: usize) -> (r: Vec<Sprite>)
    requires
        1 <= room.walls@.len() <= MAX_SIDE + 1,
        room.walls.spec_cols() == room.walls@.len(),
        rows_have(room.walls@, room.walls.spec_cols()),
        forall|x: int, y: int|
            0 <= y < room.walls@.len() && 0 <= x < room.walls.spec_cols() ==> #[trigger] room.walls@[y][x] < 16,
        forall|i: int|
            0 <= i < room.actors@.len() ==> 0 <= (#[trigger] room.actors@[i]).1.x <= MAX_SIDE && 0
                <= room.actors@[i].1.y <= MAX_SIDE,
    ensures
        r@ == up_to(room_look(room, actor_draw), capacity as int),
{
    let rows = room.walls.rows();
    let cols = room.walls.cols();
    let ghost g = room.walls@;
    let ghost off = margin(cols as int);
    let span: i32 = (CANVAS_SIDE as i32) - (TILE_SIDE as i32) * (cols as i32);
    let offset: i32 = if span >= 0 {
        span / 2
    } else {
        -((-span) / 2)
    };
    let mut out: Vec<Sprite> = Vec::new();
    let mut y: usize = 0;
    while y < rows
        invariant
            rows == g.len(),
            cols == rows,
            room.walls@ == g,
            room.walls.spec_cols() == cols,
            1 <= rows <= MAX_SIDE + 1,
            rows_have(g, cols as nat),
            forall|x: int, y: int| 0 <= y < g.len() && 0 <= x < cols ==> #[trigger] g[y][x] < 16,
            offset == off,
            y <= rows,
            -(MAX_SIDE as int) * 10 <= off <= 64,
            out@ == up_to(wall_rows(g, y as nat, cols as nat, off), capacity as int),
        decreases rows - y,
    {
        let mut x: usize = 0;
        while x < cols
            invariant
                rows == g.len(),
                cols == rows,
                room.walls@ == g,
                room.walls.spec_cols() == cols,
                1 <= rows <= MAX_SIDE + 1,
                rows_have(g, cols as nat),
                forall|x: int, y: int| 0 <= y < g.len() && 0 <= x < cols ==> #[trigger] g[y][x] < 16,
                offset == off,
                y < rows,
                x <= cols,
                -(MAX_SIDE as int) * 10 <= off <= 64,
                out@ == up_to(
                    wall_rows(g, y as nat, cols as nat, off) + wall_row(g, y as int, cols as nat, off).take(x as int),
                    capacity as int,
                ),
            decreases cols - x,
        {
            let m = room.walls.get(y, x);
            let s = Sprite {
                x: (x as i32) * (TILE_SIDE as i32) + offset,
                y: (y as i32) * (TILE_SIDE as i32) + offset,
                w: TILE_SIDE as i32,
                h: TILE_SIDE as i32,
                tx: (((m as u32) % TILE_ROW_MAX) * TILE_SIDE) as i32,
                ty: (TILE_Y_ORIGIN + ((m as u32) / TILE_ROW_MAX) * TILE_SIDE) as i32,
                tw: TILE_SIDE as i32,
                th: TILE_SIDE as i32,
            };
            let ghost before = wall_rows(g, y as nat, cols as nat, off) + wall_row(g, y as int, cols as nat, off).take(
                x as int,
            );
            proof {
                assert(s == wall_look(x as int, y as int, m as int, off));
                assert(wall_rows(g, y as nat, cols as nat, off) + wall_row(g, y as int, cols as nat, off).take(
                    x as int + 1,
                ) =~= before.push(s));
                lemma_up_to_push(before, s, capacity as int);
            }
            if out.len() < capacity {
                out.push(s);
            }
            x = x + 1;
        }
        proof {
            assert(wall_row(g, y as int, cols as nat, off).take(cols as int) =~= wall_row(g, y as int, cols as nat, off));
            assert(wall_rows(g, (y + 1) as nat, cols as nat, off) == wall_rows(g, y as nat, cols as nat, off)
                + wall_row(g, y as int, cols as nat, off));
        }
        y = y + 1;
    }
    let ghost walls_all = wall_rows(g, g.len(), cols as nat, off);
    if actor_draw {
        let ghost acts = room.actors@.map_values(|p: (Actor, Pos)| actor_rect(p.0, p.1, off));
        let mut i: usize = 0;
        while i < room.actors.len()
            invariant
                offset == off,
                -(MAX_SIDE as int) * 10 <= off <= 64,
                acts == room.actors@.map_values(|p: (Actor, Pos)| actor_rect(p.0, p.1, off)),
                forall|i: int|
                    0 <= i < room.actors@.len() ==> 0 <= (#[trigger] room.actors@[i]).1.x <= MAX_SIDE && 0
                        <= room.actors@[i].1.y <= MAX_SIDE,
                i <= room.actors@.len(),
                out@ == up_to(walls_all + acts.take(i as int), capacity as int),
            decreases room.actors@.len() - i,
        {
            let (a, at) = room.actors[i];
            let (which, reflect) = actor_sprite(a);
            let flip: u32 = if reflect {
                1
            } else {
                0
            };
            let s = Sprite {
                x: at.x * (TILE_SIDE as i32) + offset + 6,
                y: at.y * (TILE_SIDE as i32) + offset + 6,
                w: ACTOR_SIDE as i32,
                h: ACTOR_SIDE as i32,
                tx: ((which + flip) * ACTOR_SIDE) as i32,
                ty: ACTOR_Y_ORIGIN as i32,
                tw: if reflect {
                    -(ACTOR_SIDE as i32)
                } else {
                    ACTOR_SIDE as i32
                },
                th: ACTOR_SIDE as i32,
            };
            proof {
                assert(s == actor_rect(a, at, off));
                assert(walls_all + acts.take(i as int + 1) =~= (walls_all + acts.take(i as int)).push(s));
                lemma_up_to_push(walls_all + acts.take(i as int), s, capacity as int);
            }
            if out.len() < capacity {
                out.push(s);
            }
            i = i + 1;
        }
        proof {
            assert(acts.take(acts.len() as int) =~= acts);
        }
    } else {
        proof {
            assert(walls_all + Seq::<Sprite>::empty() =~= walls_all);
        }
    }
    out
}

} // verus!
