// A room: its maze, its walls and the actors placed in it.
use vstd::prelude::*;
use rand::rngs::StdRng;
use crate::constants::{Actor, Dir, Pos, has_dir, in_grid};
use crate::grid::{Grid, rows_have};
use crate::maze::{
    MAX_SIDE, branch_records, carve, lemma_reaches_mono, on_branch, perfect_maze, reaches, record, records_branches,
    records_deepest, shaped,
};
use crate::random::below;
use crate::walls::{derive_walls, wall_mask};

verus! {

/// How many random cells placement draws for the key before it gives up.
pub const PLACE_TRIES: usize = 64;

/// A room: its maze, the walls derived from it, and the actors with their cells.
pub struct Room {
    pub routes: Grid,
    pub walls: Grid,
    pub actors: Vec<(Actor, Pos)>,
}

/// Why no room was made.
#[derive(Clone, Copy, Debug, PartialEq, Eq, Structural)]
pub enum RoomError {
    /// The side of the grid is zero.
    BadExtent,
    /// No free cell was found for the key.
    PlacementExhausted,
}

/// Branch `i` comes before branch `j`: it is deeper, or as deep and earlier.
pub open spec fn ranks_before(c: Seq<Option<(Pos, u32)>>, i: int, j: int) -> bool {
    record(c, i).1 > record(c, j).1 || (record(c, i).1 == record(c, j).1 && i < j)
}

/// `p` lists the four branches deepest first, ties in their own order.
pub open spec fn ranked(c: Seq<Option<(Pos, u32)>>, p: Seq<usize>) -> bool {
    &&& p.len() == 4
    &&& forall|k: int| 0 <= k < 4 ==> #[trigger] p[k] < 4
    &&& forall|a: int, b: int| 0 <= a < b < 4 ==> ranks_before(c, #[trigger] p[a] as int, #[trigger] p[b] as int)
}

/// Orders the four branch records deepest first; ties keep their order.
pub fn rank_branches(c: &Vec<Option<(Pos, u32)>>) -> (r: [usize; 4])
    requires
        c@.len() == 4,
    ensures
        ranked(c@, r@),
{
    let mut p: [usize; 4] = [0, 1, 2, 3];
    let mut k: usize = 0;
    while k < 3
        invariant
            c@.len() == 4,
            k <= 3,
            forall|t: int| 0 <= t < 4 ==> #[trigger] p@[t] < 4,
            forall|a: int, b: int| 0 <= a < 4 && 0 <= b < 4 && a != b ==> #[trigger] p@[a] != #[trigger] p@[b],
            forall|a: int, b: int| 0 <= a < k && a < b < 4 ==> ranks_before(c@, #[trigger] p@[a] as int, #[trigger] p@[b] as int),
        decreases 3 - k,
    {
        let mut m: usize = k;
        let mut j: usize = k + 1;
        while j < 4
            invariant
                c@.len() == 4,
                k < 3,
                k <= m < j <= 4,
                forall|t: int| 0 <= t < 4 ==> #[trigger] p@[t] < 4,
                forall|a: int, b: int| 0 <= a < 4 && 0 <= b < 4 && a != b ==> #[trigger] p@[a] != #[trigger] p@[b],
                forall|a: int, b: int| 0 <= a < k && a < b < 4 ==> ranks_before(c@, #[trigger] p@[a] as int, #[trigger] p@[b] as int),
                forall|t: int| k <= t < j && t != m ==> ranks_before(c@, p@[m as int] as int, #[trigger] p@[t] as int),
            decreases 4 - j,
        {
            let dj = depth_of(c, p[j]);
            let dm = depth_of(c, p[m]);
            if dj > dm || (dj == dm && p[j] < p[m]) {
                m = j;
            }
            j = j + 1;
        }
        let a = p[k];
        let b = p[m];
        p[k] = b;
        p[m] = a;
        k = k + 1;
    }
    p
}

/// The depth of record `i`.
fn depth_of(c: &Vec<Option<(Pos, u32)>>, i: usize) -> (r: u32)
    requires
        i < c@.len(),
    ensures
        r == record(c@, i as int).1,
{
    match c[i] {
        Some(b) => b.1,
        None => 0,
    }
}

/// The cell of record `i`.
fn cell_of(c: &Vec<Option<(Pos, u32)>>, i: usize) -> (r: Pos)
    requires
        i < c@.len(),
    ensures
        r == record(c@, i as int).0,
{
    match c[i] {
        Some(b) => b.0,
        None => Pos { x: 0, y: 0 },
    }
}

/// The key's facing agrees with the passages of its cell: it faces left when the cell opens
/// right only, and right when it opens left only.
pub open spec fn key_faces(m: u8, right: bool) -> bool {
    &&& (has_dir(m, 0) && !has_dir(m, 2) ==> !right)
    &&& (has_dir(m, 2) && !has_dir(m, 0) ==> right)
}

/// The three actors that a room starts with: a door, a player facing left or right and a
/// key, on three different cells of the grid, the key facing as its cell's passages say.
pub open spec fn placed(actors: Seq<(Actor, Pos)>, g: Seq<Seq<u8>>, n: int) -> bool {
    &&& actors.len() == 3
    &&& actors[0].0 == Actor::Door
    &&& (actors[1].0 == Actor::Player(Dir::Left) || actors[1].0 == Actor::Player(Dir::Right))
    &&& actors[2].0 matches Actor::Key(right) && key_faces(
        g[actors[2].1.y as int][actors[2].1.x as int],
        right,
    )
    &&& forall|i: int| 0 <= i < 3 ==> in_grid(n, (#[trigger] actors[i]).1.x as int, actors[i].1.y as int)
    &&& actors[0].1 != actors[1].1
    &&& actors[0].1 != actors[2].1
    &&& actors[1].1 != actors[2].1
}

/// The key's cell falls on the door's or the player's.
pub open spec fn clashes(door: Pos, player: Pos, key: Pos) -> bool {
    key == door || key == player
}

/// The first of the drawn cells, from the `i`-th on and among the first `PLACE_TRIES`,
/// that clashes with neither the door nor the player.
pub open spec fn first_free(door: Pos, player: Pos, draws: Seq<Pos>, i: nat) -> Option<Pos>
    decreases PLACE_TRIES - i,
{
    if i >= draws.len() || i >= PLACE_TRIES {
        None
    } else if !clashes(door, player, draws[i as int]) {
        Some(draws[i as int])
    } else {
        first_free(door, player, draws, i + 1)
    }
}

/// The key's cell: `first` unless it clashes, else the first free drawn cell.
pub open spec fn settle_key(door: Pos, player: Pos, first: Pos, draws: Seq<Pos>) -> Option<Pos> {
    if !clashes(door, player, first) {
        Some(first)
    } else {
        first_free(door, player, draws, 0)
    }
}

/// The player faces left on a drawn 0 and right otherwise.
pub open spec fn player_facing(bit: usize) -> Dir {
    if bit == 0 {
        Dir::Left
    } else {
        Dir::Right
    }
}

/// The key faces left on a cell that opens right only, right on one that opens left only,
/// and right on a drawn non-zero otherwise.
pub open spec fn key_right(m: u8, bit: usize) -> bool {
    if has_dir(m, 0) && !has_dir(m, 2) {
        false
    } else if has_dir(m, 2) && !has_dir(m, 0) {
        true
    } else {
        bit != 0
    }
}

/// The actors placed from the door's and the player's cells, the key's first cell, the
/// drawn cells and the two drawn facing bits; `None` when no key cell is free.
pub open spec fn placement(
    g: Seq<Seq<u8>>,
    door: Pos,
    player: Pos,
    first: Pos,
    draws: Seq<Pos>,
    facing_bit: usize,
    key_bit: usize,
) -> Option<Seq<(Actor, Pos)>> {
    match settle_key(door, player, first, draws) {
        None => None,
        Some(k) => Some(
            seq![
                (Actor::Door, door),
                (Actor::Player(player_facing(facing_bit)), player),
                (Actor::Key(key_right(g[k.y as int][k.x as int], key_bit)), k),
            ],
        ),
    }
}

/// A free cell found among the drawn ones is one of them, and clashes with nothing.
proof fn lemma_first_free(door: Pos, player: Pos, draws: Seq<Pos>, i: nat)
    ensures
        first_free(door, player, draws, i) matches Some(k) ==> !clashes(door, player, k) && exists|j: int|
            0 <= j < draws.len() && draws[j] == k,
        (forall|j: int| 0 <= j < draws.len() ==> clashes(door, player, #[trigger] draws[j])) ==> first_free(
            door,
            player,
            draws,
            i,
        ) is None,
    decreases PLACE_TRIES - i,
{
    if i < draws.len() && i < PLACE_TRIES {
        lemma_first_free(door, player, draws, i + 1);
    }
}

/// The three actors from the cells and facing bits drawn for them: door and player on
/// their cells, the key on `first` unless it clashes, else on the first free cell among
/// the first `PLACE_TRIES` drawn ones; `PlacementExhausted` when there is none.
pub fn finish_placement(
    routes: &Grid,
    n: usize,
    door: Pos,
    player: Pos,
    first: Pos,
    draws: &Vec<Pos>,
    facing_bit: usize,
    key_bit: usize,
) -> (r: Result<Vec<(Actor, Pos)>, RoomError>)
    requires
        1 <= n <= MAX_SIDE,
        shaped(routes@, n as int),
        routes.spec_cols() == n,
        in_grid(n as int, first.x as int, first.y as int),
        forall|j: int| 0 <= j < draws@.len() ==> in_grid(n as int, (#[trigger] draws@[j]).x as int, draws@[j].y as int),
    ensures
        match placement(routes@, door, player, first, draws@, facing_bit, key_bit) {
            None => r == Err::<Vec<(Actor, Pos)>, RoomError>(RoomError::PlacementExhausted),
            Some(s) => r matches Ok(v) && v@ == s,
        },
{
    let mut key = first;
    if key == door || key == player {
        let mut i: usize = 0;
        let mut found = false;
        while i < draws.len() && i < PLACE_TRIES && !found
            invariant
                clashes(door, player, first),
                i <= draws@.len(),
                i <= PLACE_TRIES,
                found ==> first_free(door, player, draws@, 0) == Some(key) && in_grid(
                    n as int,
                    key.x as int,
                    key.y as int,
                ),
                !found ==> first_free(door, player, draws@, 0) == first_free(door, player, draws@, i as nat),
                forall|j: int| 0 <= j < draws@.len() ==> in_grid(n as int, (#[trigger] draws@[j]).x as int, draws@[j].y as int),
            decreases PLACE_TRIES - i,
        {
            let cand = draws[i];
            if cand != door && cand != player {
                key = cand;
                found = true;
            }
            i = i + 1;
        }
        if !found {
            return Err(RoomError::PlacementExhausted);
        }
    }
    let facing = if facing_bit == 0 {
        Dir::Left
    } else {
        Dir::Right
    };
    let m = routes.get(key.y as usize, key.x as usize);
    let right = if m & 4 == 0 && m & 1 != 0 {
        false
    } else if m & 4 != 0 && m & 1 == 0 {
        true
    } else {
        key_bit != 0
    };
    let mut actors: Vec<(Actor, Pos)> = Vec::new();
    actors.push((Actor::Door, door));
    actors.push((Actor::Player(facing), player));
    actors.push((Actor::Key(right), key));
    proof {
        assert(actors@ =~= placement(routes@, door, player, first, draws@, facing_bit, key_bit)->Some_0);
    }
    Ok(actors)
}

/// Two rankings of the same records agree.
pub proof fn lemma_ranked_unique(c: Seq<Option<(Pos, u32)>>, p: Seq<usize>, q: Seq<usize>)
    requires
        ranked(c, p),
        ranked(c, q),
    ensures
        p == q,
{
    assert(p[0] != p[1] && p[0] != p[2] && p[0] != p[3] && p[1] != p[2] && p[1] != p[3] && p[2] != p[3]);
    assert(q[0] != q[1] && q[0] != q[2] && q[0] != q[3] && q[1] != q[2] && q[1] != q[3] && q[2] != q[3]);
    assert(p[0] < 4 && p[1] < 4 && p[2] < 4 && p[3] < 4);
    assert(q[0] < 4 && q[1] < 4 && q[2] < 4 && q[3] < 4);
    assert(p[0] == q[0]);
    assert(p[1] == q[1]);
    assert(p[2] == q[2]);
    assert(p =~= q);
}

/// No cell of the grid is farther from the root, in moves, than cell `p`.
#[verifier::opaque]
pub open spec fn deepest(g: Seq<Seq<u8>>, n: int, p: Pos) -> bool {
    forall|x: int, y: int, k: nat|
        #![trigger reaches(g, n, x, y, n / 2, n / 2, k)]
        in_grid(n, x, y) && reaches(g, n, p.x as int, p.y as int, n / 2, n / 2, k) ==> reaches(
            g,
            n,
            x,
            y,
            n / 2,
            n / 2,
            k,
        )
}

/// The record ranked first lies on a deepest cell.
pub proof fn lemma_first_deepest(g: Seq<Seq<u8>>, n: int, c: Seq<Option<(Pos, u32)>>, p: Seq<usize>)
    requires
        records_deepest(g, n, c),
        ranked(c, p),
        record(c, p[0] as int).1 > 0,
    ensures
        deepest(g, n, record(c, p[0] as int).0),
{
    reveal(records_deepest);
    reveal(deepest);
    let r = n / 2;
    let door = record(c, p[0] as int);
    assert(reaches(g, n, door.0.x as int, door.0.y as int, r, r, door.1 as nat));
    assert(!reaches(g, n, door.0.x as int, door.0.y as int, r, r, (door.1 - 1) as nat));
    assert forall|x: int, y: int, k: nat|
        #![trigger reaches(g, n, x, y, n / 2, n / 2, k)]
        in_grid(n, x, y) && reaches(g, n, door.0.x as int, door.0.y as int, n / 2, n / 2, k) implies reaches(
        g,
        n,
        x,
        y,
        n / 2,
        n / 2,
        k,
    ) by {
        if k < door.1 {
            lemma_reaches_mono(g, n, door.0.x as int, door.0.y as int, r, r, k, (door.1 - 1) as nat);
        }
        let b = choose|b: int| 0 <= b < 4 && #[trigger] reaches(g, n, x, y, r, r, record(c, b).1 as nat);
        assert(p[0] != p[1] && p[0] != p[2] && p[0] != p[3] && p[1] != p[2] && p[1] != p[3] && p[2] != p[3]);
        assert(b == p[0] || b == p[1] || b == p[2] || b == p[3]);
        assert(record(c, b).1 <= door.1);
        lemma_reaches_mono(g, n, x, y, r, r, record(c, b).1 as nat, k);
    }
}

/// Cell `(x, y)` is exactly `k` moves from the root.
pub open spec fn exact_dist(g: Seq<Seq<u8>>, n: int, x: int, y: int, k: nat) -> bool {
    &&& reaches(g, n, x, y, n / 2, n / 2, k)
    &&& k > 0 ==> !reaches(g, n, x, y, n / 2, n / 2, (k - 1) as nat)
}

/// Door and player lie on different branches of the root: no branch holds both one move
/// short of their distances from the root.
#[verifier::opaque]
pub open spec fn apart(g: Seq<Seq<u8>>, n: int, door: Pos, player: Pos) -> bool {
    forall|b: int, kd: nat, kp: nat|
        #![trigger on_branch(g, n, door.x as int, door.y as int, b, kd), on_branch(g, n, player.x as int, player.y as int, b, kp)]
        exact_dist(g, n, door.x as int, door.y as int, kd + 1) && exact_dist(g, n, player.x as int, player.y as int, kp + 1)
            ==> !(on_branch(g, n, door.x as int, door.y as int, b, kd) && on_branch(
            g,
            n,
            player.x as int,
            player.y as int,
            b,
            kp,
        ))
}

proof fn lemma_exact_unique(g: Seq<Seq<u8>>, n: int, x: int, y: int, k1: nat, k2: nat)
    requires
        exact_dist(g, n, x, y, k1),
        exact_dist(g, n, x, y, k2),
    ensures
        k1 == k2,
{
    if k1 < k2 {
        lemma_reaches_mono(g, n, x, y, n / 2, n / 2, k1, (k2 - 1) as nat);
    } else if k2 < k1 {
        lemma_reaches_mono(g, n, x, y, n / 2, n / 2, k2, (k1 - 1) as nat);
    }
}

/// The records ranked first and second lie on different branches.
pub proof fn lemma_first_two_apart(g: Seq<Seq<u8>>, n: int, c: Seq<Option<(Pos, u32)>>, p: Seq<usize>)
    requires
        records_deepest(g, n, c),
        records_branches(g, n, c),
        ranked(c, p),
        record(c, p[0] as int).1 > 0,
    ensures
        apart(g, n, record(c, p[0] as int).0, record(c, p[1] as int).0),
{
    reveal(records_deepest);
    reveal(records_branches);
    reveal(apart);
    let door = record(c, p[0] as int);
    let player = record(c, p[1] as int);
    assert(p[0] != p[1]);
    assert forall|b: int, kd: nat, kp: nat|
        #![trigger on_branch(g, n, door.0.x as int, door.0.y as int, b, kd), on_branch(g, n, player.0.x as int, player.0.y as int, b, kp)]
        exact_dist(g, n, door.0.x as int, door.0.y as int, kd + 1) && exact_dist(
            g,
            n,
            player.0.x as int,
            player.0.y as int,
            kp + 1,
        ) implies !(on_branch(g, n, door.0.x as int, door.0.y as int, b, kd) && on_branch(
        g,
        n,
        player.0.x as int,
        player.0.y as int,
        b,
        kp,
    )) by {
        assert(reaches(g, n, door.0.x as int, door.0.y as int, n / 2, n / 2, door.1 as nat));
        assert(exact_dist(g, n, door.0.x as int, door.0.y as int, door.1 as nat));
        lemma_exact_unique(g, n, door.0.x as int, door.0.y as int, kd + 1, door.1 as nat);
        assert(reaches(g, n, player.0.x as int, player.0.y as int, n / 2, n / 2, player.1 as nat));
        if player.1 > 0 {
            assert(exact_dist(g, n, player.0.x as int, player.0.y as int, player.1 as nat));
            lemma_exact_unique(g, n, player.0.x as int, player.0.y as int, kp + 1, player.1 as nat);
            if on_branch(g, n, door.0.x as int, door.0.y as int, b, kd) && on_branch(g, n, player.0.x as int, player.0.y as int, b, kp) {
                if b != p[0] as int {
                    assert(!on_branch(g, n, door.0.x as int, door.0.y as int, b, (door.1 - 1) as nat));
                } else {
                    assert(!on_branch(g, n, player.0.x as int, player.0.y as int, p[0] as int, (player.1 - 1) as nat));
                }
            }
        } else {
            lemma_exact_unique(g, n, player.0.x as int, player.0.y as int, kp + 1, 0);
        }
    }
}

/// Places the door on the deepest branch record, the player on the second and the key on
/// the third; when the third falls on one of the first two cells, cells are drawn at random
/// for the key until one is free, at most `PLACE_TRIES` of them. Then one bit is drawn for
/// the player's facing and one for the key's, which counts only when its cell's passages
/// do not say.
pub fn place_actors(routes: &Grid, n: usize, c: &Vec<Option<(Pos, u32)>>, rng: &mut StdRng) -> (r: Result<
    Vec<(Actor, Pos)>,
    RoomError,
>)
    requires
        1 <= n <= MAX_SIDE,
        shaped(routes@, n as int),
        routes.spec_cols() == n,
        branch_records(c@, n as int),
        records_deepest(routes@, n as int, c@),
        records_branches(routes@, n as int, c@),
    ensures
        exists|p: Seq<usize>, draws: Seq<Pos>, facing_bit: usize, key_bit: usize|
            #![trigger placement(routes@, record(c@, p[0] as int).0, record(c@, p[1] as int).0, record(c@, p[2] as int).0, draws, facing_bit, key_bit)]
            {
                &&& ranked(c@, p)
                &&& forall|j: int|
                    0 <= j < draws.len() ==> in_grid(n as int, (#[trigger] draws[j]).x as int, draws[j].y as int)
                &&& facing_bit < 2
                &&& key_bit < 2
                &&& match placement(
                    routes@,
                    record(c@, p[0] as int).0,
                    record(c@, p[1] as int).0,
                    record(c@, p[2] as int).0,
                    draws,
                    facing_bit,
                    key_bit,
                ) {
                    None => r == Err::<Vec<(Actor, Pos)>, RoomError>(RoomError::PlacementExhausted),
                    Some(s) => r matches Ok(v) && v@ == s,
                }
            },
        forall|p: Seq<usize>|
            #[trigger] ranked(c@, p) && !clashes(record(c@, p[0] as int).0, record(c@, p[1] as int).0, record(c@, p[2] as int).0)
                ==> r is Ok,
        r matches Ok(v) ==> placed(v@, routes@, n as int) && deepest(routes@, n as int, v@[0].1) && apart(
            routes@,
            n as int,
            v@[0].1,
            v@[1].1,
        ),
        r matches Ok(v) ==> exists|p: Seq<usize>|
            #![trigger ranked(c@, p)]
            {
                &&& ranked(c@, p)
                &&& v@[0].1 == record(c@, p[0] as int).0
                &&& v@[1].1 == record(c@, p[1] as int).0
                &&& (!clashes(record(c@, p[0] as int).0, record(c@, p[1] as int).0, record(c@, p[2] as int).0)
                    ==> v@[2].1 == record(c@, p[2] as int).0)
            },
        r matches Err(e) ==> e == RoomError::PlacementExhausted,
        n == 1 ==> r is Err,
{
    let p = rank_branches(c);
    let door = cell_of(c, p[0]);
    let player = cell_of(c, p[1]);
    let first = cell_of(c, p[2]);
    let mut key = first;
    let mut draws: Vec<Pos> = Vec::new();
    while (key == door || key == player) && draws.len() < PLACE_TRIES
        invariant
            1 <= n <= MAX_SIDE,
            in_grid(n as int, key.x as int, key.y as int),
            draws@.len() <= PLACE_TRIES,
            forall|j: int| 0 <= j < draws@.len() ==> in_grid(n as int, (#[trigger] draws@[j]).x as int, draws@[j].y as int),
        decreases PLACE_TRIES - draws@.len(),
    {
        let x = below(rng, n);
        let y = below(rng, n);
        key = Pos { x: x as i32, y: y as i32 };
        draws.push(key);
    }
    let facing_bit = below(rng, 2);
    let key_bit = below(rng, 2);
    proof {
        assert(ranked(c@, p@));
        assert(in_grid(n as int, first.x as int, first.y as int));
    }
    let r = finish_placement(routes, n, door, player, first, &draws, facing_bit, key_bit);
    proof {
        let g = routes@;
        lemma_first_free(door, player, draws@, 0);
        if n == 1 {
            assert(door == Pos { x: 0, y: 0 } && player == Pos { x: 0, y: 0 } && first == Pos { x: 0, y: 0 });
            assert forall|j: int| 0 <= j < draws@.len() implies clashes(door, player, #[trigger] draws@[j]) by {
                assert(draws@[j] == Pos { x: 0, y: 0 });
            }
        }
        assert forall|q: Seq<usize>|
            #[trigger] ranked(c@, q) && !clashes(record(c@, q[0] as int).0, record(c@, q[1] as int).0, record(c@, q[2] as int).0)
                implies r is Ok by {
            lemma_ranked_unique(c@, p@, q);
        }
        if r is Ok {
            assert(n >= 2);
            let b = choose|b: int| 0 <= b < 4 && #[trigger] record(c@, b).1 > 0;
            assert(b == p@[0] || b == p@[1] || b == p@[2] || b == p@[3]);
            assert(record(c@, p@[0] as int).1 > 0);
            assert(p@[0] != p@[1]);
            assert(door != player);
            lemma_first_deepest(routes@, n as int, c@, p@);
            lemma_first_two_apart(routes@, n as int, c@, p@);
            let k = settle_key(door, player, first, draws@)->Some_0;
            assert(in_grid(n as int, k.x as int, k.y as int));
            assert(ranked(c@, p@));
        }
    }
    r
}

/// Makes a room of side `n`: a perfect maze carved from `rng`, its walls, and, when
/// `add_actors` holds, a door, the player and a key placed on it.
#[verifier::rlimit(40)]
pub fn room_make(n: usize, rng: &mut StdRng, add_actors: bool) -> (r: Result<Room, RoomError>)
    requires
        n <= MAX_SIDE,
    ensures
        match r {
            Ok(room) => {
                &&& n >= 1
                &&& room.routes.spec_cols() == n
                &&& perfect_maze(room.routes@, n as int)
                &&& room.walls@.len() == n + 1
                &&& room.walls.spec_cols() == n + 1
                &&& rows_have(room.walls@, (n + 1) as nat)
                &&& forall|x: int, y: int| 0 <= x <= n && 0 <= y <= n ==> #[trigger] room.walls@[y][x] < 16
                &&& forall|x: int, y: int|
                    0 <= x <= n && 0 <= y <= n ==> #[trigger] room.walls@[y][x] == wall_mask(
                        room.routes@,
                        n as int,
                        x,
                        y,
                    )
                &&& if add_actors {
                    &&& placed(room.actors@, room.routes@, n as int)
                    &&& deepest(room.routes@, n as int, room.actors@[0].1)
                    &&& apart(room.routes@, n as int, room.actors@[0].1, room.actors@[1].1)
                    &&& exists|c: Seq<Option<(Pos, u32)>>, p: Seq<usize>|
                        #![trigger ranked(c, p)]
                        {
                            &&& branch_records(c, n as int)
                            &&& records_deepest(room.routes@, n as int, c)
                            &&& records_branches(room.routes@, n as int, c)
                            &&& ranked(c, p)
                            &&& room.actors@[0].1 == record(c, p[0] as int).0
                            &&& room.actors@[1].1 == record(c, p[1] as int).0
                            &&& (!clashes(record(c, p[0] as int).0, record(c, p[1] as int).0, record(c, p[2] as int).0)
                                ==> room.actors@[2].1 == record(c, p[2] as int).0)
                        }
                } else {
                    room.actors@.len() == 0
                }
            },
            Err(e) => (e == RoomError::BadExtent) == (n == 0) && (e == RoomError::PlacementExhausted ==> add_actors),
        },
        n >= 1 && !add_actors ==> r is Ok,
        n == 1 && add_actors ==> r is Err,
{
    if n == 0 {
        return Err(RoomError::BadExtent);
    }
    let (routes, best) = carve(n, rng);
    let walls = derive_walls(&routes, n);
    let actors = if add_actors {
        match place_actors(&routes, n, &best, rng) {
            Ok(a) => {
                proof {
                    let p = choose|p: Seq<usize>|
                        #![trigger ranked(best@, p)]
                        {
                            &&& ranked(best@, p)
                            &&& a@[0].1 == record(best@, p[0] as int).0
                            &&& a@[1].1 == record(best@, p[1] as int).0
                            &&& (!clashes(record(best@, p[0] as int).0, record(best@, p[1] as int).0, record(best@, p[2] as int).0)
                                ==> a@[2].1 == record(best@, p[2] as int).0)
                        };
                    assert(ranked(best@, p));
                }
                a
            },
            Err(e) => {
                return Err(e);
            },
        }
    } else {
        Vec::new()
    };
    Ok(Room { routes, walls, actors })
}

} // verus!
