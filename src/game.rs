// Gameplay: turning, moving, and what happens when the player meets other actors.
use vstd::prelude::*;
use crate::constants::{Actor, Dir, Pos, has_dir, in_grid, step_x, step_y};
use crate::maze::{MAX_SIDE, perfect_maze, shaped, symmetric};
use crate::room::{Room, placed};

verus! {

/// The state of a game session: where the player stands in the room's actor list, and how
/// many keys it carries.
pub struct GameState {
    pub player_idx: usize,
    pub keys: u32,
}

impl Default for GameState {
    fn default() -> (r: GameState)
        ensures
            r.player_idx == 0,
            r.keys == 0,
    {
        GameState { player_idx: 0, keys: 0 }
    }
}

impl GameState {
    pub open spec fn spec_keys(&self) -> u32 {
        self.keys
    }

    /// A session whose player is actor `player_idx`, carrying `keys` keys.
    pub fn new(player_idx: usize, keys: u32) -> (r: GameState)
        ensures
            r.player_idx == player_idx,
            r.spec_keys() == keys,
    {
        GameState { player_idx, keys }
    }

    /// The number of keys carried.
    pub fn keys(&self) -> (r: u32)
        ensures
            r == self.spec_keys(),
    {
        self.keys
    }
}

/// What a move did.
#[derive(Clone, Copy, Debug, PartialEq, Eq, Structural)]
pub enum MoveOutcome {
    /// The player turned to face the asked direction.
    Turned,
    /// A wall or a locked door stopped the player.
    Blocked,
    /// The player stepped forward.
    Moved,
}

/// What meeting actor `into` does to a player carrying `keys` keys: whether the player is
/// halted, whether `into` is removed, and the keys afterwards.
pub open spec fn collide(keys: int, into: Actor) -> (bool, bool, int) {
    match into {
        Actor::Key(_) => (false, true, keys + 1),
        Actor::Door => if keys > 0 {
            (false, true, keys - 1)
        } else {
            (true, false, keys)
        },
        _ => (false, false, keys),
    }
}

/// Resolves actor `from` running into actor `into`: a player picks up a key, and opens a
/// door with a key it carries or is halted by it. Returns whether `from` is halted and
/// whether `into` is removed.
pub fn game_collide(state: &mut GameState, from: &Actor, into: &Actor, _at: Pos) -> (r: (bool, bool))
    requires
        (*from matches Actor::Player(_)) && (*into matches Actor::Key(_)) ==> old(state).spec_keys() < u32::MAX,
    ensures
        final(state).player_idx == old(state).player_idx,
        (*from matches Actor::Player(_)) ==> r.0 == collide(old(state).spec_keys() as int, *into).0 && r.1 == collide(
            old(state).spec_keys() as int,
            *into,
        ).1 && final(state).spec_keys() as int == collide(old(state).spec_keys() as int, *into).2,
        !(*from matches Actor::Player(_)) ==> !r.0 && !r.1 && final(state).spec_keys() == old(state).spec_keys(),
{
    match (from, into) {
        (Actor::Player(_), Actor::Key(_)) => {
            state.keys = state.keys + 1;
            (false, true)
        },
        (Actor::Player(_), Actor::Door) => {
            if state.keys > 0 {
                state.keys = state.keys - 1;
                (false, true)
            } else {
                (true, false)
            }
        },
        _ => (false, false),
    }
}

/// The player's resolution of the actors met on cell `want`, over the first `k` actors:
/// whether it was halted, the keys afterwards, and which actors are removed.
pub open spec fn scan(actors: Seq<(Actor, Pos)>, want: Pos, keys: int, k: nat) -> (bool, int, Seq<bool>)
    decreases k,
{
    if k == 0 {
        (false, keys, Seq::empty())
    } else {
        let prev = scan(actors, want, keys, (k - 1) as nat);
        let a = actors[k - 1];
        if prev.0 || a.1 != want {
            (prev.0, prev.1, prev.2.push(false))
        } else {
            let c = collide(prev.1, a.0);
            (c.0, c.2, prev.2.push(c.1))
        }
    }
}

/// The first `k` actors without the marked ones, in order.
pub open spec fn kept(s: Seq<(Actor, Pos)>, marks: Seq<bool>, k: nat) -> Seq<(Actor, Pos)>
    decreases k,
{
    if k == 0 {
        Seq::empty()
    } else {
        let rest = kept(s, marks, (k - 1) as nat);
        if marks[k - 1] {
            rest
        } else {
            rest.push(s[k - 1])
        }
    }
}

/// How many of the first `k` marks are set.
pub open spec fn removed_before(marks: Seq<bool>, k: nat) -> int
    decreases k,
{
    if k == 0 {
        0
    } else {
        removed_before(marks, (k - 1) as nat) + if marks[k - 1] { 1int } else { 0int }
    }
}

/// Removing marked actors in one pass: an unmarked actor at index `p` moves down by the
/// number of marked actors before it, and is otherwise unchanged.
pub proof fn lemma_reindex(s: Seq<(Actor, Pos)>, marks: Seq<bool>, k: nat, p: int)
    requires
        k <= s.len(),
        k <= marks.len(),
        0 <= p < k,
        !marks[p],
    ensures
        0 <= p - removed_before(marks, p as nat) < kept(s, marks, k).len(),
        kept(s, marks, k)[p - removed_before(marks, p as nat)] == s[p],
    decreases k,
{
    lemma_kept_len(s, marks, k);
    lemma_removed_bound(marks, p as nat);
    if p < k - 1 {
        lemma_reindex(s, marks, (k - 1) as nat, p);
        lemma_kept_len(s, marks, (k - 1) as nat);
    } else {
        lemma_kept_len(s, marks, p as nat);
    }
}

/// The kept actors number `k` less the removed ones.
pub proof fn lemma_kept_len(s: Seq<(Actor, Pos)>, marks: Seq<bool>, k: nat)
    ensures
        kept(s, marks, k).len() == k - removed_before(marks, k),
    decreases k,
{
    if k > 0 {
        lemma_kept_len(s, marks, (k - 1) as nat);
    }
}

proof fn lemma_removed_bound(marks: Seq<bool>, k: nat)
    ensures
        0 <= removed_before(marks, k) <= k,
    decreases k,
{
    if k > 0 {
        lemma_removed_bound(marks, (k - 1) as nat);
    }
}

/// Removes the marked actors in one pass and returns the new index of the actor at `idx`,
/// which must stay.
pub fn remove_marked(actors: &mut Vec<(Actor, Pos)>, marks: &Vec<bool>, idx: usize) -> (r: usize)
    requires
        marks@.len() == old(actors)@.len(),
        idx < old(actors)@.len(),
        !marks@[idx as int],
    ensures
        final(actors)@ == kept(old(actors)@, marks@, old(actors)@.len() as nat),
        r == idx - removed_before(marks@, idx as nat),
        r < final(actors)@.len(),
        final(actors)@[r as int] == old(actors)@[idx as int],
{
    let ghost s = actors@;
    let mut out: Vec<(Actor, Pos)> = Vec::new();
    let mut new_idx: usize = idx;
    let mut i: usize = 0;
    while i < actors.len()
        invariant
            actors@ == s,
            marks@.len() == s.len(),
            idx < s.len(),
            i <= s.len(),
            out@ == kept(s, marks@, i as nat),
            new_idx == idx - removed_before(marks@, if i <= idx { i as nat } else { idx as nat }),
        decreases s.len() - i,
    {
        proof {
            lemma_removed_bound(marks@, i as nat);
        }
        if marks[i] {
            if i < idx {
                new_idx = new_idx - 1;
            }
        } else {
            out.push(actors[i]);
        }
        i = i + 1;
    }
    proof {
        lemma_reindex(s, marks@, s.len() as nat, idx as int);
    }
    *actors = out;
    new_idx
}

/// An actor that a player meets without effect: neither a key nor a door.
pub open spec fn neutral(a: Actor) -> bool {
    !(a matches Actor::Key(_)) && a != Actor::Door
}

/// The scan over the first `k` actors when actor `j` is the only key or door on cell `want`.
proof fn lemma_scan_single(actors: Seq<(Actor, Pos)>, want: Pos, keys: int, j: int, k: nat)
    requires
        k <= actors.len(),
        0 <= j < actors.len(),
        actors[j].1 == want,
        forall|i: int| 0 <= i < actors.len() && i != j ==> (#[trigger] actors[i]).1 != want || neutral(actors[i].0),
    ensures
        scan(actors, want, keys, k).2.len() == k,
        k <= j ==> !scan(actors, want, keys, k).0 && scan(actors, want, keys, k).1 == keys && removed_before(
            scan(actors, want, keys, k).2,
            k,
        ) == 0,
        k > j ==> scan(actors, want, keys, k).0 == collide(keys, actors[j].0).0 && scan(actors, want, keys, k).1
            == collide(keys, actors[j].0).2 && removed_before(scan(actors, want, keys, k).2, k) == (if collide(
            keys,
            actors[j].0,
        ).1 {
            1int
        } else {
            0int
        }),
    decreases k,
{
    if k > 0 {
        lemma_scan_single(actors, want, keys, j, (k - 1) as nat);
        let prev = scan(actors, want, keys, (k - 1) as nat);
        let marks = scan(actors, want, keys, k).2;
        assert(marks.take(k - 1) =~= prev.2);
        lemma_removed_prefix(marks, prev.2, (k - 1) as nat);
    }
}

proof fn lemma_removed_prefix(a: Seq<bool>, b: Seq<bool>, k: nat)
    requires
        k <= a.len(),
        k <= b.len(),
        forall|t: int| 0 <= t < k ==> a[t] == b[t],
    ensures
        removed_before(a, k) == removed_before(b, k),
    decreases k,
{
    if k > 0 {
        lemma_removed_prefix(a, b, (k - 1) as nat);
    }
}

/// Stepping onto a cell whose only key or door is one key: the player is not halted,
/// carries one key more, and exactly one actor leaves the list.
pub proof fn lemma_step_onto_key(actors: Seq<(Actor, Pos)>, want: Pos, keys: int, j: int)
    requires
        0 <= j < actors.len(),
        actors[j].0 matches Actor::Key(_),
        actors[j].1 == want,
        forall|i: int| 0 <= i < actors.len() && i != j ==> (#[trigger] actors[i]).1 != want || neutral(actors[i].0),
    ensures
        !scan(actors, want, keys, actors.len()).0,
        scan(actors, want, keys, actors.len()).1 == keys + 1,
        kept(actors, scan(actors, want, keys, actors.len()).2, actors.len()).len() == actors.len() - 1,
{
    lemma_scan_single(actors, want, keys, j, actors.len());
    lemma_kept_len(actors, scan(actors, want, keys, actors.len()).2, actors.len());
}

/// Stepping onto a cell whose only key or door is one door: without keys the player is
/// halted and nothing leaves the list; with a key it goes through, spends the key, and the
/// door leaves the list.
pub proof fn lemma_step_onto_door(actors: Seq<(Actor, Pos)>, want: Pos, keys: int, j: int)
    requires
        0 <= j < actors.len(),
        actors[j].0 == Actor::Door,
        actors[j].1 == want,
        forall|i: int| 0 <= i < actors.len() && i != j ==> (#[trigger] actors[i]).1 != want || neutral(actors[i].0),
        keys >= 0,
    ensures
        keys == 0 ==> scan(actors, want, keys, actors.len()).0 && scan(actors, want, keys, actors.len()).1 == 0
            && kept(actors, scan(actors, want, keys, actors.len()).2, actors.len()).len() == actors.len(),
        keys >= 1 ==> !scan(actors, want, keys, actors.len()).0 && scan(actors, want, keys, actors.len()).1 == keys
            - 1 && kept(actors, scan(actors, want, keys, actors.len()).2, actors.len()).len() == actors.len() - 1,
{
    lemma_scan_single(actors, want, keys, j, actors.len());
    lemma_kept_len(actors, scan(actors, want, keys, actors.len()).2, actors.len());
}

/// The scan over the first `k` actors when, on cell `want`, actor `j` is a door and every
/// actor before it is neutral, for a player without keys.
proof fn lemma_scan_locked(actors: Seq<(Actor, Pos)>, want: Pos, j: int, k: nat)
    requires
        k <= actors.len(),
        0 <= j < actors.len(),
        actors[j] == (Actor::Door, want),
        forall|i: int| 0 <= i < j ==> (#[trigger] actors[i]).1 != want || neutral(actors[i].0),
    ensures
        scan(actors, want, 0, k).2.len() == k,
        scan(actors, want, 0, k).1 == 0,
        removed_before(scan(actors, want, 0, k).2, k) == 0,
        scan(actors, want, 0, k).0 == (k > j),
    decreases k,
{
    if k > 0 {
        lemma_scan_locked(actors, want, j, (k - 1) as nat);
        let prev = scan(actors, want, 0, (k - 1) as nat);
        let marks = scan(actors, want, 0, k).2;
        assert(marks.take(k - 1) =~= prev.2);
        lemma_removed_prefix(marks, prev.2, (k - 1) as nat);
    }
}

/// Stepping without keys onto a cell whose first key or door, in list order, is a door: the
/// player is halted, keeps no keys, and no actor leaves the list.
pub proof fn lemma_step_onto_locked_door(actors: Seq<(Actor, Pos)>, want: Pos, j: int)
    requires
        0 <= j < actors.len(),
        actors[j] == (Actor::Door, want),
        forall|i: int| 0 <= i < j ==> (#[trigger] actors[i]).1 != want || neutral(actors[i].0),
    ensures
        scan(actors, want, 0, actors.len()).0,
        scan(actors, want, 0, actors.len()).1 == 0,
        kept(actors, scan(actors, want, 0, actors.len()).2, actors.len()) == actors,
{
    lemma_scan_locked(actors, want, j, actors.len());
    lemma_kept_none(actors, scan(actors, want, 0, actors.len()).2, actors.len());
}

/// Without marks, nothing is removed.
proof fn lemma_kept_none(s: Seq<(Actor, Pos)>, marks: Seq<bool>, k: nat)
    requires
        k <= s.len(),
        k <= marks.len(),
        removed_before(marks, k) == 0,
    ensures
        kept(s, marks, k) == s.take(k as int),
    decreases k,
{
    if k > 0 {
        lemma_removed_bound(marks, (k - 1) as nat);
        lemma_kept_none(s, marks, (k - 1) as nat);
        assert(s.take(k as int) =~= s.take(k - 1).push(s[k - 1]));
    } else {
        assert(s.take(0) =~= Seq::<(Actor, Pos)>::empty());
    }
}

/// The way the player actor faces.
pub open spec fn facing_of(a: Actor) -> Dir {
    match a {
        Actor::Player(f) => f,
        _ => Dir::Right,
    }
}

/// The cell one step from `at` in direction number `d`.
pub open spec fn step_pos(at: Pos, d: int) -> Pos {
    Pos { x: (at.x + step_x(d)) as i32, y: (at.y + step_y(d)) as i32 }
}

/// A room fit for play: a maze of side at most `MAX_SIDE` whose passages stay on the grid,
/// with every actor on the grid.
pub open spec fn room_ok(room: &Room) -> bool {
    let n = room.routes@.len() as int;
    &&& 1 <= n <= MAX_SIDE
    &&& shaped(room.routes@, n)
    &&& room.routes.spec_cols() == n
    &&& symmetric(room.routes@, n)
    &&& forall|i: int| 0 <= i < room.actors@.len() ==> in_grid(n, (#[trigger] room.actors@[i]).1.x as int, room.actors@[i].1.y as int)
}

/// The session fits the room: its index names the player.
pub open spec fn state_ok(state: &GameState, room: &Room) -> bool {
    &&& state.player_idx < room.actors@.len()
    &&& room.actors@[state.player_idx as int].0 matches Actor::Player(_)
}

/// A room made with its three actors is fit for play, and a session whose player is
/// actor 1 fits it.
pub proof fn lemma_made_room_playable(room: &Room, n: int)
    requires
        1 <= n <= MAX_SIDE,
        room.routes.spec_cols() == n,
        perfect_maze(room.routes@, n),
        placed(room.actors@, room.routes@, n),
    ensures
        room_ok(room),
        state_ok(&GameState { player_idx: 1, keys: 0 }, room),
{
}

/// One directional input. A player not facing `dir` turns to it. Facing it, the player
/// steps forward if its cell opens that way: each actor on the cell ahead is met in list
/// order, keys are picked up, a door takes a key or halts the player, and the actors
/// picked up or opened are removed from the list in one pass.
pub fn game_move(state: &mut GameState, room: &mut Room, dir: Dir) -> (r: MoveOutcome)
    requires
        room_ok(old(room)),
        state_ok(old(state), old(room)),
        old(state).spec_keys() + old(room).actors@.len() <= u32::MAX,
    ensures
        room_ok(final(room)),
        state_ok(final(state), final(room)),
        final(room).routes@ == old(room).routes@,
        final(room).walls@ == old(room).walls@,
        ({
            let acts = old(room).actors@;
            let p = old(state).player_idx as int;
            let at = acts[p].1;
            let facing = facing_of(acts[p].0);
            let d = dir.spec_index();
            if dir != facing {
                &&& r == MoveOutcome::Turned
                &&& final(room).actors@ == acts.update(p, (Actor::Player(dir), at))
                &&& final(state).player_idx == p
                &&& final(state).spec_keys() == old(state).spec_keys()
            } else if !has_dir(old(room).routes@[at.y as int][at.x as int], d) {
                &&& r == MoveOutcome::Blocked
                &&& final(room).actors@ == acts
                &&& final(state).player_idx == p
                &&& final(state).spec_keys() == old(state).spec_keys()
            } else {
                let want = step_pos(at, d);
                let sc = scan(acts, want, old(state).spec_keys() as int, acts.len());
                let idx = p - removed_before(sc.2, p as nat);
                &&& r == (if sc.0 { MoveOutcome::Blocked } else { MoveOutcome::Moved })
                &&& final(state).spec_keys() as int == sc.1
                &&& final(state).player_idx == idx
                &&& final(room).actors@ == kept(acts, sc.2, acts.len()).update(
                    idx,
                    (Actor::Player(facing), if sc.0 { at } else { want }),
                )
            }
        }),
{
    let ghost acts = room.actors@;
    let ghost n = room.routes@.len() as int;
    let p = state.player_idx;
    let (player, at) = room.actors[p];
    let facing = match player {
        Actor::Player(f) => f,
        _ => dir,
    };
    if dir != facing {
        room.actors.set(p, (Actor::Player(dir), at));
        proof {
            assert forall|i: int| 0 <= i < room.actors@.len() implies in_grid(n, (#[trigger] room.actors@[i]).1.x as int, room.actors@[i].1.y as int) by {
                assert(in_grid(n, acts[i].1.x as int, acts[i].1.y as int));
            }
        }
        return MoveOutcome::Turned;
    }
    proof {
        assert(in_grid(n, acts[p as int].1.x as int, acts[p as int].1.y as int));
    }
    let m = room.routes.get(at.y as usize, at.x as usize);
    if m & dir.mask() == 0 {
        return MoveOutcome::Blocked;
    }
    let (sx, sy) = dir.step();
    let want = Pos { x: at.x + sx, y: at.y + sy };
    proof {
        let d = dir.spec_index();
        assert(has_dir(m, d));
        assert(in_grid(n, at.x + step_x(d), at.y + step_y(d)));
        assert(want == step_pos(at, d));
    }
    let ghost k0 = state.spec_keys() as int;
    let mut marks: Vec<bool> = Vec::new();
    let mut halted = false;
    let mut i: usize = 0;
    while i < room.actors.len()
        invariant
            room.actors@ == acts,
            room_ok(room),
            acts[p as int].0 == player,
            acts[p as int].1 == at,
            player == Actor::Player(facing),
            p < acts.len(),
            want != at,
            i <= acts.len(),
            k0 + acts.len() <= u32::MAX,
            state.player_idx == p,
            ({
                let sc = scan(acts, want, k0, i as nat);
                &&& halted == sc.0
                &&& state.spec_keys() as int == sc.1
                &&& marks@ == sc.2
            }),
            k0 - i <= state.spec_keys() <= k0 + i,
            marks@.len() == i,
            forall|t: int| 0 <= t < i && #[trigger] marks@[t] ==> acts[t].1 == want,
        decreases acts.len() - i,
    {
        let (a, pos) = room.actors[i];
        let mut del = false;
        if !halted && pos == want {
            let (h, d) = game_collide(state, &player, &a, want);
            halted = h;
            del = d;
        }
        marks.push(del);
        i = i + 1;
    }
    proof {
        assert(!marks@[p as int]);
    }
    let idx = remove_marked(&mut room.actors, &marks, p);
    state.player_idx = idx;
    let dest = if halted {
        at
    } else {
        want
    };
    room.actors.set(idx, (Actor::Player(facing), dest));
    proof {
        let s = acts;
        let kp = kept(s, marks@, s.len() as nat);
        assert forall|j: int| 0 <= j < room.actors@.len() implies in_grid(n, (#[trigger] room.actors@[j]).1.x as int, room.actors@[j].1.y as int) by {
            if j != idx {
                lemma_kept_in_grid(s, marks@, s.len() as nat, n, j);
            }
        }
    }
    if halted {
        MoveOutcome::Blocked
    } else {
        MoveOutcome::Moved
    }
}

/// Every kept actor is an actor of the list, so lies on the grid when they all do.
proof fn lemma_kept_in_grid(s: Seq<(Actor, Pos)>, marks: Seq<bool>, k: nat, n: int, j: int)
    requires
        k <= s.len(),
        k <= marks.len(),
        forall|i: int| 0 <= i < s.len() ==> in_grid(n, (#[trigger] s[i]).1.x as int, s[i].1.y as int),
        0 <= j < kept(s, marks, k).len(),
    ensures
        in_grid(n, kept(s, marks, k)[j].1.x as int, kept(s, marks, k)[j].1.y as int),
    decreases k,
{
    if k > 0 {
        let rest = kept(s, marks, (k - 1) as nat);
        if j < rest.len() {
            lemma_kept_in_grid(s, marks, (k - 1) as nat, n, j);
        }
    }
}

} // verus!
