// Perfect mazes over a square grid: what they are, and how one is carved.
use vstd::prelude::*;
use rand::rngs::StdRng;
use crate::constants::{Dir, Pos, bit_of, has_dir, opp, step_x, step_y, in_grid};
use crate::grid::{Grid, rows_have};
use crate::random::shuffle_order;
use crate::tally::{grid_sum, lemma_sum_point, lemma_sum_same, lemma_sum_bounds};

verus! {

/// Largest side of a grid that can be carved.
pub const MAX_SIDE: usize = 4096;

/// Number of directions a mask of `m` opens.
pub open spec fn popcount4(m: u8) -> int {
    (if has_dir(m, 0) { 1int } else { 0int }) + (if has_dir(m, 1) { 1int } else { 0int }) + (if has_dir(
        m,
        2,
    ) { 1int } else { 0int }) + (if has_dir(m, 3) { 1int } else { 0int })
}

/// Setting the bit of direction `d` in a four-bit mask adds `d` and nothing else.
pub proof fn lemma_or_bit(m: u8, d: int)
    requires
        m < 16,
        0 <= d < 4,
    ensures
        (m | bit_of(d)) < 16,
        (m | bit_of(d)) != 0,
        forall|e: int| 0 <= e < 4 ==> #[trigger] has_dir(m | bit_of(d), e) == (has_dir(m, e) || e == d),
        !has_dir(m, d) ==> popcount4(m | bit_of(d)) == popcount4(m) + 1,
{
    if d == 0 {
        assert((m | 1u8) & 1u8 != 0 && ((m | 1u8) & 2u8 != 0) == (m & 2u8 != 0) && ((m | 1u8) & 4u8 != 0) == (m
            & 4u8 != 0) && ((m | 1u8) & 8u8 != 0) == (m & 8u8 != 0) && (m < 16 ==> (m | 1u8) < 16) && (m | 1u8)
            != 0) by (bit_vector);
    } else if d == 1 {
        assert((m | 2u8) & 2u8 != 0 && ((m | 2u8) & 1u8 != 0) == (m & 1u8 != 0) && ((m | 2u8) & 4u8 != 0) == (m
            & 4u8 != 0) && ((m | 2u8) & 8u8 != 0) == (m & 8u8 != 0) && (m < 16 ==> (m | 2u8) < 16) && (m | 2u8)
            != 0) by (bit_vector);
    } else if d == 2 {
        assert((m | 4u8) & 4u8 != 0 && ((m | 4u8) & 1u8 != 0) == (m & 1u8 != 0) && ((m | 4u8) & 2u8 != 0) == (m
            & 2u8 != 0) && ((m | 4u8) & 8u8 != 0) == (m & 8u8 != 0) && (m < 16 ==> (m | 4u8) < 16) && (m | 4u8)
            != 0) by (bit_vector);
    } else {
        assert((m | 8u8) & 8u8 != 0 && ((m | 8u8) & 1u8 != 0) == (m & 1u8 != 0) && ((m | 8u8) & 2u8 != 0) == (m
            & 2u8 != 0) && ((m | 8u8) & 4u8 != 0) == (m & 4u8 != 0) && (m < 16 ==> (m | 8u8) < 16) && (m | 8u8)
            != 0) by (bit_vector);
    }
}

/// The empty mask opens nothing.
pub proof fn lemma_zero_mask()
    ensures
        forall|e: int| 0 <= e < 4 ==> !#[trigger] has_dir(0u8, e),
        popcount4(0u8) == 0,
{
    assert(0u8 & 1u8 == 0 && 0u8 & 2u8 == 0 && 0u8 & 4u8 == 0 && 0u8 & 8u8 == 0) by (bit_vector);
}

/// A mask that opens some direction is not empty.
pub proof fn lemma_open_nonzero(m: u8, d: int)
    requires
        0 <= d < 4,
        has_dir(m, d),
    ensures
        m != 0,
{
    assert(m & 1u8 != 0 || m & 2u8 != 0 || m & 4u8 != 0 || m & 8u8 != 0 ==> m != 0) by (bit_vector);
}

/// Steps in opposite directions cancel.
pub proof fn lemma_opp(d: int)
    requires
        0 <= d < 4,
    ensures
        0 <= opp(d) < 4,
        opp(opp(d)) == d,
        opp(d) != d,
        step_x(opp(d)) == -step_x(d),
        step_y(opp(d)) == -step_y(d),
        step_x(d) != 0 || step_y(d) != 0,
{
}

/// The root cell of a grid of side `n`.
pub open spec fn is_root(n: int, x: int, y: int) -> bool {
    x == n / 2 && y == n / 2
}

/// A grid of side `n` whose cells are four-bit masks.
pub open spec fn shaped(g: Seq<Seq<u8>>, n: int) -> bool {
    &&& g.len() == n
    &&& rows_have(g, n as nat)
    &&& forall|x: int, y: int| in_grid(n, x, y) ==> #[trigger] g[y][x] < 16
}

/// Every passage is open from both of its ends, and none leads off the grid.
pub open spec fn symmetric(g: Seq<Seq<u8>>, n: int) -> bool {
    forall|x: int, y: int, d: int|
        in_grid(n, x, y) && 0 <= d < 4 ==> (#[trigger] has_dir(g[y][x], d) <==> (in_grid(
            n,
            x + step_x(d),
            y + step_y(d),
        ) && has_dir(g[y + step_y(d)][x + step_x(d)], opp(d))))
}

/// Cell `(tx, ty)` can be reached from `(x, y)` through open passages in at most `k` moves.
pub open spec fn reaches(g: Seq<Seq<u8>>, n: int, x: int, y: int, tx: int, ty: int, k: nat) -> bool
    decreases k,
{
    (x == tx && y == ty) || (k > 0 && exists|d: int|
        0 <= d < 4 && #[trigger] has_dir(g[y][x], d) && in_grid(n, x + step_x(d), y + step_y(d)) && reaches(
            g,
            n,
            x + step_x(d),
            y + step_y(d),
            tx,
            ty,
            (k - 1) as nat,
        ))
}

/// Every cell of the grid reaches the root.
pub open spec fn connected(g: Seq<Seq<u8>>, n: int) -> bool {
    forall|x: int, y: int|
        in_grid(n, x, y) ==> exists|k: nat| #[trigger] reaches(g, n, x, y, n / 2, n / 2, k)
}

/// Weight of a cell: the number of passage ends it opens.
pub open spec fn ends_w(g: Seq<Seq<u8>>) -> spec_fn(int, int) -> int {
    |x: int, y: int| popcount4(g[y][x])
}

/// Number of passage ends over the whole grid; each open passage shows at both its ends.
pub open spec fn open_ends(g: Seq<Seq<u8>>, n: int) -> int {
    grid_sum(ends_w(g), n as nat)
}

/// A perfect maze: a spanning tree of the grid, with `n * n - 1` passages.
pub open spec fn perfect_maze(g: Seq<Seq<u8>>, n: int) -> bool {
    &&& shaped(g, n)
    &&& symmetric(g, n)
    &&& connected(g, n)
    &&& open_ends(g, n) == 2 * (n * n - 1)
}

/// The record of branch `i`: a cell and its depth.
pub open spec fn record(c: Seq<Option<(Pos, u32)>>, i: int) -> (Pos, u32) {
    match c[i] {
        Some(b) => b,
        None => (Pos { x: 0, y: 0 }, 0),
    }
}

/// Records of the root's four branches: each names the root at depth zero or a deeper
/// cell of its own branch, so two deep records never share a cell; on a grid of side two
/// or more some record is deep.
pub open spec fn branch_records(c: Seq<Option<(Pos, u32)>>, n: int) -> bool {
    &&& c.len() == 4
    &&& forall|b: int|
        0 <= b < 4 ==> (#[trigger] c[b] is Some && in_grid(n, record(c, b).0.x as int, record(c, b).0.y as int)
            && ((record(c, b).1 == 0) == is_root(n, record(c, b).0.x as int, record(c, b).0.y as int)))
    &&& forall|b1: int, b2: int|
        0 <= b1 < 4 && 0 <= b2 < 4 && b1 != b2 && #[trigger] record(c, b1).1 > 0 && #[trigger] record(c, b2).1 > 0
            ==> record(c, b1).0 != record(c, b2).0
    &&& n >= 2 ==> exists|b: int| 0 <= b < 4 && #[trigger] record(c, b).1 > 0
}

/// Each record's depth is exactly the number of moves from its cell to the root, and every
/// cell of the grid is within the depth of some record of the root.
#[verifier::opaque]
pub open spec fn records_deepest(g: Seq<Seq<u8>>, n: int, c: Seq<Option<(Pos, u32)>>) -> bool {
    let r = n / 2;
    &&& forall|b: int|
        0 <= b < 4 ==> #[trigger] reaches(g, n, record(c, b).0.x as int, record(c, b).0.y as int, r, r, record(c, b).1 as nat)
    &&& forall|b: int|
        0 <= b < 4 && record(c, b).1 > 0 ==> !#[trigger] reaches(
            g,
            n,
            record(c, b).0.x as int,
            record(c, b).0.y as int,
            r,
            r,
            (record(c, b).1 - 1) as nat,
        )
    &&& forall|x: int, y: int|
        in_grid(n, x, y) ==> exists|b: int| 0 <= b < 4 && #[trigger] reaches(g, n, x, y, r, r, record(c, b).1 as nat)
}

/// Cell `(x, y)` lies `k` moves beyond the root's neighbour in direction `b`, which the root
/// opens toward.
pub open spec fn on_branch(g: Seq<Seq<u8>>, n: int, x: int, y: int, b: int, k: nat) -> bool {
    let r = n / 2;
    &&& 0 <= b < 4
    &&& has_dir(g[r][r], b)
    &&& in_grid(n, r + step_x(b), r + step_y(b))
    &&& reaches(g, n, x, y, r + step_x(b), r + step_y(b), k)
}

/// The cell of each deep record lies on its own branch, one move short of its depth, and on
/// no other branch at that distance.
#[verifier::opaque]
pub open spec fn records_branches(g: Seq<Seq<u8>>, n: int, c: Seq<Option<(Pos, u32)>>) -> bool {
    &&& forall|b: int|
        0 <= b < 4 && record(c, b).1 > 0 ==> #[trigger] on_branch(
            g,
            n,
            record(c, b).0.x as int,
            record(c, b).0.y as int,
            b,
            (record(c, b).1 - 1) as nat,
        )
    &&& forall|b1: int, b2: int|
        0 <= b1 < 4 && 0 <= b2 < 4 && b1 != b2 && record(c, b2).1 > 0 ==> !#[trigger] on_branch(
            g,
            n,
            record(c, b2).0.x as int,
            record(c, b2).0.y as int,
            b1,
            (record(c, b2).1 - 1) as nat,
        )
}

/// A cell that reaches another in `k` moves reaches it in any larger number of moves.
pub proof fn lemma_reaches_mono(g: Seq<Seq<u8>>, n: int, x: int, y: int, tx: int, ty: int, k: nat, k2: nat)
    requires
        reaches(g, n, x, y, tx, ty, k),
        k <= k2,
    ensures
        reaches(g, n, x, y, tx, ty, k2),
    decreases k,
{
    if !(x == tx && y == ty) {
        let d = choose|d: int|
            0 <= d < 4 && #[trigger] has_dir(g[y][x], d) && in_grid(n, x + step_x(d), y + step_y(d)) && reaches(
                g,
                n,
                x + step_x(d),
                y + step_y(d),
                tx,
                ty,
                (k - 1) as nat,
            );
        lemma_reaches_mono(g, n, x + step_x(d), y + step_y(d), tx, ty, (k - 1) as nat, (k2 - 1) as nat);
        assert(has_dir(g[y][x], d));
    }
}

/// If a set of cells holds the root and is closed under steps inside the grid,
/// it holds the cell `(x, y)`.
proof fn lemma_walk(n: int, p: spec_fn(int, int) -> bool, x: int, y: int)
    requires
        n >= 1,
        in_grid(n, x, y),
        p(n / 2, n / 2),
        forall|a: int, b: int, d: int|
            #![trigger p(a, b), step_x(d)]
            in_grid(n, a, b) && 0 <= d < 4 && p(a, b) && in_grid(n, a + step_x(d), b + step_y(d))
                ==> p(a + step_x(d), b + step_y(d)),
    ensures
        p(x, y),
    decreases
            (if x > n / 2 { x - n / 2 } else { n / 2 - x }) + (if y > n / 2 { y - n / 2 } else { n / 2 - y }),
{
    let r = n / 2;
    if x > r {
        lemma_walk(n, p, x - 1, y);
        assert(p((x - 1) + step_x(0), y + step_y(0)));
    } else if x < r {
        lemma_walk(n, p, x + 1, y);
        assert(p((x + 1) + step_x(2), y + step_y(2)));
    } else if y > r {
        lemma_walk(n, p, x, y - 1);
        assert(p(x + step_x(1), (y - 1) + step_y(1)));
    } else if y < r {
        lemma_walk(n, p, x, y + 1);
        assert(p(x + step_x(3), (y + 1) + step_y(3)));
    }
}


/// One pending step of the search: a cell, the order in which it tries the four
/// directions, how many it has tried, the root branch it lies on and its depth.
struct Frame {
    at: Pos,
    order: [usize; 4],
    next: usize,
    branch: Option<usize>,
    depth: u32,
}

/// What the search knows of one cell: whether it was reached, how many directions it
/// has tried and in which order, the direction of its parent, its depth and the root
/// branch it lies on.
struct Visit {
    vis: bool,
    done: int,
    ord: Seq<usize>,
    par: int,
    dep: int,
    br: int,
}

/// Direction `d` is among the first `done` entries of `s`.
spec fn processed(s: Seq<usize>, done: int, d: int) -> bool {
    exists|k: int| 0 <= k < done && s[k] as int == d
}

/// `s` orders the four directions.
spec fn perm4(s: Seq<usize>) -> bool {
    &&& s.len() == 4
    &&& forall|k: int| 0 <= k < 4 ==> #[trigger] s[k] < 4
    &&& forall|i: int, j: int| 0 <= i < 4 && 0 <= j < 4 && i != j ==> #[trigger] s[i] != #[trigger] s[j]
    &&& forall|d: int| 0 <= d < 4 ==> #[trigger] processed(s, 4, d)
}

proof fn lemma_perm4(s: Seq<usize>)
    requires
        s.to_multiset() == seq![2usize, 1, 0, 3].to_multiset(),
    ensures
        perm4(s),
{
    let t = seq![2usize, 1, 0, 3];
    s.to_multiset_ensures();
    t.to_multiset_ensures();
    assert(s.len() == 4);
    assert forall|k: int| 0 <= k < 4 implies #[trigger] s[k] < 4 by {
        assert(s.contains(s[k]));
        assert(s.to_multiset().count(s[k]) > 0);
        assert(t.to_multiset().count(s[k]) > 0);
        assert(t.contains(s[k]));
    }
    assert forall|d: int| 0 <= d < 4 implies #[trigger] processed(s, 4, d) by {
        let i: int = if d == 2 { 0 } else if d == 1 { 1 } else if d == 0 { 2 } else { 3 };
        assert(t[i] as int == d);
        assert(t.contains(d as usize));
        assert(t.to_multiset().count(d as usize) > 0);
        assert(s.to_multiset().count(d as usize) > 0);
        assert(s.contains(d as usize));
        let k = choose|k: int| 0 <= k < s.len() && s[k] == d as usize;
        assert(0 <= k < 4 && s[k] as int == d);
    }
    assert(processed(s, 4, 0) && processed(s, 4, 1) && processed(s, 4, 2) && processed(s, 4, 3));
    let k0 = choose|k: int| 0 <= k < 4 && s[k] as int == 0;
    let k1 = choose|k: int| 0 <= k < 4 && s[k] as int == 1;
    let k2 = choose|k: int| 0 <= k < 4 && s[k] as int == 2;
    let k3 = choose|k: int| 0 <= k < 4 && s[k] as int == 3;
    assert forall|i: int, j: int| 0 <= i < 4 && 0 <= j < 4 && i != j implies #[trigger] s[i]
        != #[trigger] s[j] by {
        assert(i == k0 || i == k1 || i == k2 || i == k3);
        assert(j == k0 || j == k1 || j == k2 || j == k3);
    }
}

/// The order in which the root tries the directions: left, down, right, up.
spec fn root_order() -> Seq<usize> {
    seq![2usize, 1, 0, 3]
}

/// The parent of a reached cell other than the root: a reached neighbour that opens
/// toward it, one level shallower; the cell opens toward it once it has tried that way.
spec fn parent_ok(n: int, g: Seq<Seq<u8>>, info: Map<(int, int), Visit>, x: int, y: int) -> bool {
    let v = info[(x, y)];
    let px = x + step_x(v.par);
    let py = y + step_y(v.par);
    &&& 0 <= v.par < 4
    &&& in_grid(n, px, py)
    &&& info[(px, py)].vis
    &&& has_dir(g[py][px], opp(v.par))
    &&& v.dep == info[(px, py)].dep + 1
    &&& processed(v.ord, v.done, v.par) ==> has_dir(g[y][x], v.par)
    &&& (is_root(n, px, py) ==> v.br == opp(v.par))
    &&& (!is_root(n, px, py) ==> v.br == info[(px, py)].br)
}

/// What holds of one cell during the search.
spec fn cell_ok(n: int, g: Seq<Seq<u8>>, info: Map<(int, int), Visit>, x: int, y: int) -> bool {
    let v = info[(x, y)];
    if !v.vis {
        g[y][x] == 0 && v.done == 0
    } else {
        &&& 0 <= v.done <= 4
        &&& perm4(v.ord)
        &&& 0 <= v.dep
        &&& (!is_root(n, x, y) ==> 0 <= v.br < 4)
        &&& forall|d: int| 0 <= d < 4 && #[trigger] has_dir(g[y][x], d) ==> processed(v.ord, v.done, d)
        &&& !is_root(n, x, y) ==> parent_ok(n, g, info, x, y)
        &&& forall|d: int|
            0 <= d < 4 && in_grid(n, x + step_x(d), y + step_y(d)) && !info[(
                x + step_x(d),
                y + step_y(d),
            )].vis ==> !#[trigger] processed(v.ord, v.done, d)
    }
}

/// An open passage joins two reached cells, one the parent of the other.
spec fn edge_ok(n: int, info: Map<(int, int), Visit>, x: int, y: int, d: int) -> bool {
    let nx = x + step_x(d);
    let ny = y + step_y(d);
    &&& in_grid(n, nx, ny)
    &&& info[(x, y)].vis
    &&& info[(nx, ny)].vis
    &&& ((!is_root(n, x, y) && info[(x, y)].par == d) || (!is_root(n, nx, ny) && info[(nx, ny)].par == opp(d)))
}

spec fn cells_ok(n: int, g: Seq<Seq<u8>>, info: Map<(int, int), Visit>, pushes: int) -> bool {
    let r = n / 2;
    &&& shaped(g, n)
    &&& info[(r, r)].vis
    &&& info[(r, r)].dep == 0
    &&& info[(r, r)].ord == root_order()
    &&& info[(r, r)].done == 0 ==> forall|x: int, y: int|
        in_grid(n, x, y) && !is_root(n, x, y) ==> !(#[trigger] info[(x, y)]).vis
    &&& forall|x: int, y: int| in_grid(n, x, y) ==> #[trigger] cell_ok(n, g, info, x, y)
    &&& forall|x: int, y: int| in_grid(n, x, y) && info[(x, y)].vis ==> (#[trigger] info[(x, y)]).dep <= pushes
    &&& forall|x: int, y: int, d: int|
        in_grid(n, x, y) && 0 <= d < 4 && #[trigger] has_dir(g[y][x], d) ==> edge_ok(n, info, x, y, d)
}

spec fn frame_ok(n: int, info: Map<(int, int), Visit>, slot: Map<(int, int), int>, f: Frame, i: int) -> bool {
    let x = f.at.x as int;
    let y = f.at.y as int;
    let v = info[(x, y)];
    &&& in_grid(n, x, y)
    &&& v.vis
    &&& f.next as int == v.done
    &&& v.done < 4
    &&& f.order@ == v.ord
    &&& f.depth as int == v.dep
    &&& slot[(x, y)] == i
    &&& (f.branch is None) == is_root(n, x, y)
    &&& (f.branch matches Some(b) ==> b < 4 && b as int == v.br)
}

spec fn stack_ok(n: int, info: Map<(int, int), Visit>, stack: Seq<Frame>, slot: Map<(int, int), int>) -> bool {
    &&& forall|i: int| 0 <= i < stack.len() ==> #[trigger] frame_ok(n, info, slot, stack[i], i)
    &&& forall|x: int, y: int|
        in_grid(n, x, y) && (#[trigger] info[(x, y)]).vis && info[(x, y)].done < 4 ==> {
            &&& 0 <= slot[(x, y)] < stack.len()
            &&& stack[slot[(x, y)]].at == Pos { x: x as i32, y: y as i32 }
        }
}

/// A reached cell that opens nothing yet is the one on top of the stack.
spec fn zero_ok(n: int, g: Seq<Seq<u8>>, info: Map<(int, int), Visit>, stack: Seq<Frame>) -> bool {
    forall|x: int, y: int|
        in_grid(n, x, y) && (#[trigger] info[(x, y)]).vis && g[y][x] == 0 && !(is_root(n, x, y) && n == 1) ==> {
            &&& stack.len() > 0
            &&& stack.last().at == Pos { x: x as i32, y: y as i32 }
            &&& (is_root(n, x, y) ==> info[(x, y)].done == 0)
        }
}

/// The record of a branch names a reached cell of that branch (or the root) and its
/// depth, and is at least as deep as every cell of the branch that has taken a step.
spec fn paths_ok(n: int, info: Map<(int, int), Visit>, path: Seq<Option<(Pos, u32)>>) -> bool {
    let r = n / 2;
    &&& path.len() == 4
    &&& forall|b: int|
        0 <= b < 4 ==> match #[trigger] path[b] {
            Some(best) => {
                let k = (best.0.x as int, best.0.y as int);
                &&& in_grid(n, k.0, k.1)
                &&& info[k].vis
                &&& best.1 as int == info[k].dep
                &&& (is_root(n, k.0, k.1) || info[k].br == b)
            },
            None => !processed(info[(r, r)].ord, info[(r, r)].done, b),
        }
    &&& forall|x: int, y: int|
        in_grid(n, x, y) && (#[trigger] info[(x, y)]).vis && !is_root(n, x, y) && info[(x, y)].done >= 1 ==> (0
            <= info[(x, y)].br < 4 && (path[info[(x, y)].br] matches Some(best) && best.1 >= info[(x, y)].dep))
}

spec fn vis_w(info: Map<(int, int), Visit>) -> spec_fn(int, int) -> int {
    |x: int, y: int| if info[(x, y)].vis { 1int } else { 0int }
}

spec fn done_w(info: Map<(int, int), Visit>) -> spec_fn(int, int) -> int {
    |x: int, y: int| info[(x, y)].done
}

/// A reached cell that does not yet open toward its parent.
spec fn pend(n: int, g: Seq<Seq<u8>>, info: Map<(int, int), Visit>, x: int, y: int) -> bool {
    info[(x, y)].vis && !is_root(n, x, y) && !has_dir(g[y][x], info[(x, y)].par)
}

spec fn load_w(n: int, g: Seq<Seq<u8>>, info: Map<(int, int), Visit>) -> spec_fn(int, int) -> int {
    |x: int, y: int| popcount4(g[y][x]) + if pend(n, g, info, x, y) { 1int } else { 0int }
}


/// All that holds between two steps of the search.
spec fn search_ok(
    n: int,
    g: Seq<Seq<u8>>,
    info: Map<(int, int), Visit>,
    stack: Seq<Frame>,
    slot: Map<(int, int), int>,
    path: Seq<Option<(Pos, u32)>>,
    pushes: int,
    dcount: int,
) -> bool {
    &&& n <= 4096
    &&& cells_ok(n, g, info, pushes)
    &&& stack_ok(n, info, stack, slot)
    &&& zero_ok(n, g, info, stack)
    &&& paths_ok(n, info, path)
    &&& grid_sum(vis_w(info), n as nat) == pushes + 1
    &&& grid_sum(done_w(info), n as nat) == dcount
    &&& grid_sum(load_w(n, g, info), n as nat) == 2 * pushes
    &&& 0 <= pushes
    &&& pushes + 1 <= n * n
    &&& 0 <= dcount <= 4 * n * n
}

/// The stack once its top frame is taken and, unless it has tried its last direction,
/// put back one direction further.
spec fn after_pop(stack: Seq<Frame>) -> Seq<Frame> {
    let f = stack.last();
    if f.next < 3 {
        stack.drop_last().push(
            Frame { at: f.at, order: f.order, next: (f.next + 1) as usize, branch: f.branch, depth: f.depth },
        )
    } else {
        stack.drop_last()
    }
}

/// The root branch that a step of frame `f` in direction `d` belongs to.
spec fn branch_of(f: Frame, d: int) -> int {
    match f.branch {
        Some(b) => b as int,
        None => d,
    }
}

/// `path1` is `path0` with the record of the frame's branch possibly replaced by the
/// frame's cell.
spec fn path_next(path0: Seq<Option<(Pos, u32)>>, f: Frame, d: int, path1: Seq<Option<(Pos, u32)>>) -> bool {
    let b0 = branch_of(f, d);
    &&& path1.len() == 4
    &&& forall|b: int| 0 <= b < 4 && b != b0 ==> #[trigger] path1[b] == path0[b]
    &&& path1[b0] == match path0[b0] {
        Some(best) => if best.1 < f.depth {
            Some((f.at, f.depth))
        } else {
            path0[b0]
        },
        None => Some((f.at, f.depth)),
    }
}

/// The visit record of a cell after it tried one more direction.
spec fn visit_next(v: Visit) -> Visit {
    Visit { vis: v.vis, done: v.done + 1, ord: v.ord, par: v.par, dep: v.dep, br: v.br }
}

proof fn lemma_processed_step(s: Seq<usize>, done: int)
    requires
        0 <= done < s.len(),
    ensures
        forall|e: int| #[trigger] processed(s, done + 1, e) == (processed(s, done, e) || s[done] as int == e),
{
    assert forall|e: int| #[trigger] processed(s, done + 1, e) == (processed(s, done, e) || s[done] as int == e) by {
        if processed(s, done + 1, e) {
            let k = choose|k: int| 0 <= k < done + 1 && s[k] as int == e;
            if k < done {
                assert(processed(s, done, e));
            }
        }
        if s[done] as int == e {
            assert(processed(s, done + 1, e));
        }
        if processed(s, done, e) {
            let k = choose|k: int| 0 <= k < done && s[k] as int == e;
            assert(processed(s, done + 1, e));
        }
    }
}

/// Facts about the top frame that every step of the search uses.
proof fn lemma_top(
    n: int,
    g0: Seq<Seq<u8>>,
    info0: Map<(int, int), Visit>,
    stack0: Seq<Frame>,
    slot0: Map<(int, int), int>,
    path0: Seq<Option<(Pos, u32)>>,
    pushes: int,
    dcount: int,
    ax: int,
    ay: int,
    d: int,
)
    requires
        1 <= n,
        search_ok(n, g0, info0, stack0, slot0, path0, pushes, dcount),
        stack0.len() > 0,
        stack0.last().at.x == ax,
        stack0.last().at.y == ay,
        d == stack0.last().order@[stack0.last().next as int],
    ensures
        in_grid(n, ax, ay),
        info0[(ax, ay)].vis,
        0 <= info0[(ax, ay)].done < 4,
        stack0.last().next as int == info0[(ax, ay)].done,
        0 <= d < 4,
        d == info0[(ax, ay)].ord[info0[(ax, ay)].done] as int,
        !processed(info0[(ax, ay)].ord, info0[(ax, ay)].done, d),
        forall|e: int| #[trigger]
            processed(info0[(ax, ay)].ord, info0[(ax, ay)].done + 1, e) == (processed(
                info0[(ax, ay)].ord,
                info0[(ax, ay)].done,
                e,
            ) || e == d),
        !has_dir(g0[ay][ax], d),
        cell_ok(n, g0, info0, ax, ay),
        slot0[(ax, ay)] == stack0.len() - 1,
        (stack0.last().branch is None) == is_root(n, ax, ay),
        stack0.last().branch matches Some(b) ==> b as int == info0[(ax, ay)].br,
        0 <= branch_of(stack0.last(), d) < 4,
        info0[(n / 2, n / 2)].vis,
        stack0.last().depth as int == info0[(ax, ay)].dep,
        info0[(ax, ay)].dep <= pushes,
{
    let top = stack0.len() - 1;
    assert(frame_ok(n, info0, slot0, stack0[top], top));
    assert(cell_ok(n, g0, info0, ax, ay));
    let v = info0[(ax, ay)];
    assert(v.ord[v.done] < 4);
    if processed(v.ord, v.done, d) {
        let k = choose|k: int| 0 <= k < v.done && v.ord[k] as int == d;
        assert(v.ord[k] != v.ord[v.done]);
    }
    lemma_processed_step(v.ord, v.done);
    if has_dir(g0[ay][ax], d) {
        assert(processed(v.ord, v.done, d));
    }
}

/// The branch records after the top cell took one step.
proof fn lemma_paths_step(
    n: int,
    info0: Map<(int, int), Visit>,
    info1: Map<(int, int), Visit>,
    path0: Seq<Option<(Pos, u32)>>,
    path1: Seq<Option<(Pos, u32)>>,
    f: Frame,
    d: int,
    ax: int,
    ay: int,
)
    requires
        1 <= n,
        paths_ok(n, info0, path0),
        f.at.x == ax,
        f.at.y == ay,
        in_grid(n, ax, ay),
        info0[(ax, ay)].vis,
        info0[(n / 2, n / 2)].vis,
        f.depth as int == info0[(ax, ay)].dep,
        (f.branch is None) == is_root(n, ax, ay),
        f.branch matches Some(b) ==> b as int == info0[(ax, ay)].br,
        0 <= branch_of(f, d) < 4,
        forall|e: int| #[trigger]
            processed(info0[(ax, ay)].ord, info0[(ax, ay)].done + 1, e) == (processed(
                info0[(ax, ay)].ord,
                info0[(ax, ay)].done,
                e,
            ) || e == d),
        path_next(path0, f, d, path1),
        info1[(ax, ay)] == visit_next(info0[(ax, ay)]),
        forall|x: int, y: int|
            in_grid(n, x, y) && (x != ax || y != ay) && (#[trigger] info0[(x, y)]).vis ==> info1[(x, y)] == info0[(
                x,
                y,
            )],
        forall|x: int, y: int|
            in_grid(n, x, y) && (x != ax || y != ay) && !(#[trigger] info0[(x, y)]).vis ==> info1[(x, y)].done == 0,
    ensures
        paths_ok(n, info1, path1),
{
    let r = n / 2;
    let b0 = branch_of(f, d);
    assert forall|b: int| 0 <= b < 4 implies match #[trigger] path1[b] {
        Some(best) => {
            let k = (best.0.x as int, best.0.y as int);
            &&& in_grid(n, k.0, k.1)
            &&& info1[k].vis
            &&& best.1 as int == info1[k].dep
            &&& (is_root(n, k.0, k.1) || info1[k].br == b)
        },
        None => !processed(info1[(r, r)].ord, info1[(r, r)].done, b),
    } by {
        if path1[b] == path0[b] {
            match path0[b] {
                Some(best) => {
                    let k = (best.0.x as int, best.0.y as int);
                    if k.0 != ax || k.1 != ay {
                        assert(info1[k] == info0[k]);
                    }
                },
                None => {
                    if is_root(n, ax, ay) {
                        assert(b0 == d);
                        assert(b != d);
                    } else {
                        assert(info1[(r, r)] == info0[(r, r)]);
                    }
                },
            }
        } else {
            assert(b == b0);
            assert(path1[b] == Some((f.at, f.depth)));
        }
    }
    assert forall|x: int, y: int|
        in_grid(n, x, y) && (#[trigger] info1[(x, y)]).vis && !is_root(n, x, y) && info1[(x, y)].done >= 1 implies (0
        <= info1[(x, y)].br < 4 && (path1[info1[(x, y)].br] matches Some(best) && best.1 >= info1[(x, y)].dep)) by {
        if x == ax && y == ay {
            assert(info1[(x, y)].br == b0);
            match path0[b0] {
                Some(best) => {
                    if best.1 < f.depth {
                        assert(path1[b0] == Some((f.at, f.depth)));
                    } else {
                        assert(path1[b0] == path0[b0]);
                    }
                },
                None => {
                    assert(path1[b0] == Some((f.at, f.depth)));
                },
            }
        } else {
            assert(info0[(x, y)].vis);
            assert(info1[(x, y)] == info0[(x, y)]);
            let b = info0[(x, y)].br;
            assert(path0[b] matches Some(best) && best.1 >= info0[(x, y)].dep);
            if b == b0 {
                match path0[b0] {
                    Some(best) => {
                        if best.1 < f.depth {
                            assert(path1[b0] == Some((f.at, f.depth)));
                        } else {
                            assert(path1[b0] == path0[b0]);
                        }
                    },
                    None => {},
                }
            } else {
                assert(path1[b] == path0[b]);
            }
        }
    }
}

/// The top cell tries a direction that leads off the grid or into a reached cell that
/// does not open back: nothing is carved.
#[verifier::rlimit(60)]
proof fn carve_step_none(
    n: int,
    g0: Seq<Seq<u8>>,
    info0: Map<(int, int), Visit>,
    stack0: Seq<Frame>,
    slot0: Map<(int, int), int>,
    path0: Seq<Option<(Pos, u32)>>,
    pushes: int,
    dcount: int,
    ax: int,
    ay: int,
    d: int,
    stack1: Seq<Frame>,
    path1: Seq<Option<(Pos, u32)>>,
)
    requires
        1 <= n,
        search_ok(n, g0, info0, stack0, slot0, path0, pushes, dcount),
        stack0.len() > 0,
        stack0.last().at.x == ax,
        stack0.last().at.y == ay,
        d == stack0.last().order@[stack0.last().next as int],
        stack1 == after_pop(stack0),
        path_next(path0, stack0.last(), d, path1),
        !in_grid(n, ax + step_x(d), ay + step_y(d)) || (g0[ay + step_y(d)][ax + step_x(d)] != 0 && !has_dir(
            g0[ay + step_y(d)][ax + step_x(d)],
            opp(d),
        )),
    ensures
        search_ok(n, g0, info0.insert((ax, ay), visit_next(info0[(ax, ay)])), stack1, slot0, path1, pushes, dcount + 1),
{
    lemma_top(n, g0, info0, stack0, slot0, path0, pushes, dcount, ax, ay, d);
    lemma_opp(d);
    lemma_zero_mask();
    let f = stack0.last();
    let top = stack0.len() - 1;
    let v = info0[(ax, ay)];
    let v1 = visit_next(v);
    let info1 = info0.insert((ax, ay), v1);
    let bx = ax + step_x(d);
    let by = ay + step_y(d);
    let r = n / 2;
    // the parent lies another way
    if !is_root(n, ax, ay) {
        assert(parent_ok(n, g0, info0, ax, ay));
        assert(v.par != d);
    }
    if in_grid(n, bx, by) {
        assert(cell_ok(n, g0, info0, bx, by));
        assert(info0[(bx, by)].vis);
    }
    // cells
    assert forall|x: int, y: int| in_grid(n, x, y) implies #[trigger] cell_ok(n, g0, info1, x, y) by {
        assert(cell_ok(n, g0, info0, x, y));
        if x == ax && y == ay {
            assert forall|e: int|
                0 <= e < 4 && in_grid(n, x + step_x(e), y + step_y(e)) && !info1[(
                    x + step_x(e),
                    y + step_y(e),
                )].vis implies !#[trigger] processed(v1.ord, v1.done, e) by {
                if e != d {
                    assert(!info0[(x + step_x(e), y + step_y(e))].vis);
                }
            }
            assert forall|e: int| 0 <= e < 4 && #[trigger] has_dir(g0[y][x], e) implies processed(
                v1.ord,
                v1.done,
                e,
            ) by {
                assert(processed(v.ord, v.done, e));
            }
            if !is_root(n, x, y) {
                assert(parent_ok(n, g0, info0, x, y));
                let px = x + step_x(v.par);
                let py = y + step_y(v.par);
                assert(info1[(px, py)].vis);
                assert(info1[(px, py)].dep == info0[(px, py)].dep);
                assert(info1[(px, py)].br == info0[(px, py)].br);
                assert(parent_ok(n, g0, info1, x, y));
            }
        } else {
            let w = info0[(x, y)];
            if w.vis {
                if !is_root(n, x, y) {
                    assert(parent_ok(n, g0, info0, x, y));
                    let px = x + step_x(w.par);
                    let py = y + step_y(w.par);
                    assert(info1[(px, py)].vis);
                    assert(info1[(px, py)].dep == info0[(px, py)].dep);
                assert(info1[(px, py)].br == info0[(px, py)].br);
                    assert(parent_ok(n, g0, info1, x, y));
                }
                assert forall|e: int|
                    0 <= e < 4 && in_grid(n, x + step_x(e), y + step_y(e)) && !info1[(
                        x + step_x(e),
                        y + step_y(e),
                    )].vis implies !#[trigger] processed(w.ord, w.done, e) by {
                    assert(!info0[(x + step_x(e), y + step_y(e))].vis);
                }
            }
        }
    }
    assert forall|x: int, y: int, e: int|
        in_grid(n, x, y) && 0 <= e < 4 && #[trigger] has_dir(g0[y][x], e) implies edge_ok(n, info1, x, y, e) by {
        assert(edge_ok(n, info0, x, y, e));
    }
    assert forall|x: int, y: int| in_grid(n, x, y) && info1[(x, y)].vis implies (#[trigger] info1[(
        x,
        y,
    )]).dep <= pushes by {
        assert(info0[(x, y)].dep <= pushes);
    }
    if info1[(r, r)].done == 0 {
        assert(!is_root(n, ax, ay));
        assert forall|x: int, y: int| in_grid(n, x, y) && !is_root(n, x, y) implies !(#[trigger] info1[(
            x,
            y,
        )]).vis by {
            assert(!info0[(x, y)].vis);
        }
    }
    assert(cells_ok(n, g0, info1, pushes));
    // stack
    assert forall|i: int| 0 <= i < stack1.len() implies #[trigger] frame_ok(n, info1, slot0, stack1[i], i) by {
        if i < top {
            assert(stack1[i] == stack0[i]);
            assert(frame_ok(n, info0, slot0, stack0[i], i));
            assert(stack0[i].at != f.at);
        } else {
            assert(f.next < 3);
            let f1 = Frame { at: f.at, order: f.order, next: (f.next + 1) as usize, branch: f.branch, depth: f.depth };
            assert(stack1[i] == f1);
            assert(info1[(ax, ay)] == v1);
            assert(frame_ok(n, info0, slot0, f, top));
            assert(frame_ok(n, info1, slot0, f1, i));
        }
    }
    assert forall|x: int, y: int|
        in_grid(n, x, y) && (#[trigger] info1[(x, y)]).vis && info1[(x, y)].done < 4 implies {
        &&& 0 <= slot0[(x, y)] < stack1.len()
        &&& stack1[slot0[(x, y)]].at == Pos { x: x as i32, y: y as i32 }
    } by {
        if x != ax || y != ay {
            assert(info0[(x, y)].vis && info0[(x, y)].done < 4);
            assert(slot0[(x, y)] != top);
            assert(stack1[slot0[(x, y)]] == stack0[slot0[(x, y)]]);
        }
    }
    // the cell on top
    assert forall|x: int, y: int|
        in_grid(n, x, y) && (#[trigger] info1[(x, y)]).vis && g0[y][x] == 0 && !(is_root(n, x, y) && n == 1) implies {
        &&& stack1.len() > 0
        &&& stack1.last().at == Pos { x: x as i32, y: y as i32 }
        &&& (is_root(n, x, y) ==> info1[(x, y)].done == 0)
    } by {
        assert(info0[(x, y)].vis);
        assert(stack0.last().at == Pos { x: x as i32, y: y as i32 });
        assert(x == ax && y == ay);
        if is_root(n, x, y) {
            assert(v.done == 0);
            assert(d == 2);
            assert(in_grid(n, bx, by));
            assert(!info0[(bx, by)].vis);
        } else {
            assert(parent_ok(n, g0, info0, x, y));
            assert(!has_dir(g0[y][x], v.par));
            assert(!processed(v.ord, v.done + 1, v.par));
            assert(perm4(v.ord));
            if v.done + 1 == 4 {
                assert(processed(v.ord, 4, v.par));
            }
        }
    }
    // branch records
    assert forall|x: int, y: int|
        in_grid(n, x, y) && (x != ax || y != ay) && !(#[trigger] info0[(x, y)]).vis implies info1[(x, y)].done == 0 by {
        assert(cell_ok(n, g0, info0, x, y));
    }
    lemma_paths_step(n, info0, info1, path0, path1, f, d, ax, ay);
    // counts
    assert forall|x: int, y: int| 0 <= x < n && 0 <= y < n implies #[trigger] vis_w(info0)(x, y) == vis_w(info1)(
        x,
        y,
    ) by {}
    lemma_sum_same(vis_w(info0), vis_w(info1), n as nat);
    assert forall|x: int, y: int| 0 <= x < n && 0 <= y < n && (x != ax || y != ay) implies #[trigger] done_w(
        info0,
    )(x, y) == done_w(info1)(x, y) by {}
    lemma_sum_point(done_w(info0), done_w(info1), n as nat, ax, ay);
    assert forall|x: int, y: int| 0 <= x < n && 0 <= y < n implies #[trigger] load_w(n, g0, info0)(x, y) == load_w(
        n,
        g0,
        info1,
    )(x, y) by {}
    lemma_sum_same(load_w(n, g0, info0), load_w(n, g0, info1), n as nat);
    assert forall|x: int, y: int| 0 <= x < n && 0 <= y < n implies 0 <= #[trigger] done_w(info1)(x, y) <= 4 by {
        assert(cell_ok(n, g0, info1, x, y));
    }
    lemma_sum_bounds(done_w(info1), n as nat, 0, 4);
}

/// The top cell tries a direction that leads to a reached neighbour opening back toward
/// it: its parent. The passage is opened from this side too.
#[verifier::rlimit(60)]
proof fn carve_step_back(
    n: int,
    g0: Seq<Seq<u8>>,
    info0: Map<(int, int), Visit>,
    stack0: Seq<Frame>,
    slot0: Map<(int, int), int>,
    path0: Seq<Option<(Pos, u32)>>,
    pushes: int,
    dcount: int,
    ax: int,
    ay: int,
    d: int,
    g1: Seq<Seq<u8>>,
    stack1: Seq<Frame>,
    path1: Seq<Option<(Pos, u32)>>,
)
    requires
        1 <= n,
        search_ok(n, g0, info0, stack0, slot0, path0, pushes, dcount),
        stack0.len() > 0,
        stack0.last().at.x == ax,
        stack0.last().at.y == ay,
        d == stack0.last().order@[stack0.last().next as int],
        stack1 == after_pop(stack0),
        path_next(path0, stack0.last(), d, path1),
        in_grid(n, ax + step_x(d), ay + step_y(d)),
        has_dir(g0[ay + step_y(d)][ax + step_x(d)], opp(d)),
        g1 == g0.update(ay, g0[ay].update(ax, g0[ay][ax] | bit_of(d))),
    ensures
        search_ok(n, g1, info0.insert((ax, ay), visit_next(info0[(ax, ay)])), stack1, slot0, path1, pushes, dcount + 1),
{
    lemma_top(n, g0, info0, stack0, slot0, path0, pushes, dcount, ax, ay, d);
    lemma_opp(d);
    lemma_zero_mask();
    let f = stack0.last();
    let top = stack0.len() - 1;
    let v = info0[(ax, ay)];
    let v1 = visit_next(v);
    let info1 = info0.insert((ax, ay), v1);
    let bx = ax + step_x(d);
    let by = ay + step_y(d);
    let r = n / 2;
    let m0 = g0[ay][ax];
    assert(m0 < 16);
    lemma_or_bit(m0, d);
    // the neighbour is the parent
    assert(edge_ok(n, info0, bx, by, opp(d)));
    assert(bx + step_x(opp(d)) == ax && by + step_y(opp(d)) == ay);
    assert(cell_ok(n, g0, info0, bx, by));
    if !is_root(n, bx, by) && info0[(bx, by)].par == opp(d) {
        assert(parent_ok(n, g0, info0, bx, by));
        assert(has_dir(g0[ay][ax], d));
    }
    assert(!is_root(n, ax, ay) && v.par == d);
    assert(parent_ok(n, g0, info0, ax, ay));
    assert(g1[ay][ax] == m0 | bit_of(d));
    assert(rows_have(g1, n as nat));
    assert forall|x: int, y: int| in_grid(n, x, y) && (x != ax || y != ay) implies #[trigger] g1[y][x] == g0[y][x] by {}
    // cells
    assert forall|x: int, y: int| in_grid(n, x, y) implies #[trigger] g1[y][x] < 16 by {}
    assert forall|x: int, y: int| in_grid(n, x, y) implies #[trigger] cell_ok(n, g1, info1, x, y) by {
        assert(cell_ok(n, g0, info0, x, y));
        if x == ax && y == ay {
            assert forall|e: int|
                0 <= e < 4 && in_grid(n, x + step_x(e), y + step_y(e)) && !info1[(
                    x + step_x(e),
                    y + step_y(e),
                )].vis implies !#[trigger] processed(v1.ord, v1.done, e) by {
                if e != d {
                    assert(!info0[(x + step_x(e), y + step_y(e))].vis);
                } else {
                    assert(cell_ok(n, g0, info0, bx, by));
                }
            }
            assert forall|e: int| 0 <= e < 4 && #[trigger] has_dir(g1[y][x], e) implies processed(
                v1.ord,
                v1.done,
                e,
            ) by {
                if e != d {
                    assert(has_dir(g0[y][x], e));
                    assert(processed(v.ord, v.done, e));
                }
            }
            let px = x + step_x(v.par);
            let py = y + step_y(v.par);
            assert(info1[(px, py)].vis);
            assert(info1[(px, py)].dep == info0[(px, py)].dep);
                assert(info1[(px, py)].br == info0[(px, py)].br);
            assert(g1[py][px] == g0[py][px]);
            assert(parent_ok(n, g1, info1, x, y));
        } else {
            let w = info0[(x, y)];
            if w.vis {
                assert forall|e: int| 0 <= e < 4 && #[trigger] has_dir(g1[y][x], e) implies processed(
                    w.ord,
                    w.done,
                    e,
                ) by {
                    assert(has_dir(g0[y][x], e));
                }
                if !is_root(n, x, y) {
                    assert(parent_ok(n, g0, info0, x, y));
                    let px = x + step_x(w.par);
                    let py = y + step_y(w.par);
                    assert(info1[(px, py)].vis);
                    assert(info1[(px, py)].dep == info0[(px, py)].dep);
                assert(info1[(px, py)].br == info0[(px, py)].br);
                    if px == ax && py == ay {
                        assert(has_dir(g1[py][px], opp(w.par)));
                    } else {
                        assert(g1[py][px] == g0[py][px]);
                    }
                    assert(parent_ok(n, g1, info1, x, y));
                }
                assert forall|e: int|
                    0 <= e < 4 && in_grid(n, x + step_x(e), y + step_y(e)) && !info1[(
                        x + step_x(e),
                        y + step_y(e),
                    )].vis implies !#[trigger] processed(w.ord, w.done, e) by {
                    assert(!info0[(x + step_x(e), y + step_y(e))].vis);
                }
            } else {
                assert(g1[y][x] == g0[y][x]);
            }
        }
    }
    assert forall|x: int, y: int, e: int|
        in_grid(n, x, y) && 0 <= e < 4 && #[trigger] has_dir(g1[y][x], e) implies edge_ok(n, info1, x, y, e) by {
        if x == ax && y == ay && e == d {
        } else {
            if x == ax && y == ay {
                assert(has_dir(g0[y][x], e));
            } else {
                assert(g1[y][x] == g0[y][x]);
            }
            assert(edge_ok(n, info0, x, y, e));
        }
    }
    assert forall|x: int, y: int| in_grid(n, x, y) && info1[(x, y)].vis implies (#[trigger] info1[(
        x,
        y,
    )]).dep <= pushes by {
        assert(info0[(x, y)].dep <= pushes);
    }
    if info1[(r, r)].done == 0 {
        assert forall|x: int, y: int| in_grid(n, x, y) && !is_root(n, x, y) implies !(#[trigger] info1[(
            x,
            y,
        )]).vis by {
            assert(!info0[(x, y)].vis);
        }
    }
    assert(shaped(g1, n));
    assert(cells_ok(n, g1, info1, pushes));
    // stack
    assert forall|i: int| 0 <= i < stack1.len() implies #[trigger] frame_ok(n, info1, slot0, stack1[i], i) by {
        if i < top {
            assert(stack1[i] == stack0[i]);
            assert(frame_ok(n, info0, slot0, stack0[i], i));
            assert(stack0[i].at != f.at);
        } else {
            assert(f.next < 3);
            let f1 = Frame { at: f.at, order: f.order, next: (f.next + 1) as usize, branch: f.branch, depth: f.depth };
            assert(stack1[i] == f1);
            assert(info1[(ax, ay)] == v1);
            assert(frame_ok(n, info0, slot0, f, top));
            assert(frame_ok(n, info1, slot0, f1, i));
        }
    }
    assert forall|x: int, y: int|
        in_grid(n, x, y) && (#[trigger] info1[(x, y)]).vis && info1[(x, y)].done < 4 implies {
        &&& 0 <= slot0[(x, y)] < stack1.len()
        &&& stack1[slot0[(x, y)]].at == Pos { x: x as i32, y: y as i32 }
    } by {
        if x != ax || y != ay {
            assert(info0[(x, y)].vis && info0[(x, y)].done < 4);
            assert(slot0[(x, y)] != top);
            assert(stack1[slot0[(x, y)]] == stack0[slot0[(x, y)]]);
        }
    }
    assert forall|x: int, y: int|
        in_grid(n, x, y) && (#[trigger] info1[(x, y)]).vis && g1[y][x] == 0 && !(is_root(n, x, y) && n == 1) implies {
        &&& stack1.len() > 0
        &&& stack1.last().at == Pos { x: x as i32, y: y as i32 }
        &&& (is_root(n, x, y) ==> info1[(x, y)].done == 0)
    } by {
        assert(x != ax || y != ay);
        assert(g0[y][x] == 0);
        assert(info0[(x, y)].vis);
        assert(stack0.last().at == Pos { x: x as i32, y: y as i32 });
    }
    // branch records
    assert forall|x: int, y: int|
        in_grid(n, x, y) && (x != ax || y != ay) && !(#[trigger] info0[(x, y)]).vis implies info1[(x, y)].done == 0 by {
        assert(cell_ok(n, g0, info0, x, y));
    }
    lemma_paths_step(n, info0, info1, path0, path1, f, d, ax, ay);
    // counts
    assert forall|x: int, y: int| 0 <= x < n && 0 <= y < n implies #[trigger] vis_w(info0)(x, y) == vis_w(info1)(
        x,
        y,
    ) by {}
    lemma_sum_same(vis_w(info0), vis_w(info1), n as nat);
    assert forall|x: int, y: int| 0 <= x < n && 0 <= y < n && (x != ax || y != ay) implies #[trigger] done_w(
        info0,
    )(x, y) == done_w(info1)(x, y) by {}
    lemma_sum_point(done_w(info0), done_w(info1), n as nat, ax, ay);
    assert forall|x: int, y: int| 0 <= x < n && 0 <= y < n implies #[trigger] load_w(n, g0, info0)(x, y) == load_w(
        n,
        g1,
        info1,
    )(x, y) by {
        if x == ax && y == ay {
            assert(pend(n, g0, info0, x, y));
            assert(!pend(n, g1, info1, x, y));
        } else {
            assert(g1[y][x] == g0[y][x]);
        }
    }
    lemma_sum_same(load_w(n, g0, info0), load_w(n, g1, info1), n as nat);
    assert forall|x: int, y: int| 0 <= x < n && 0 <= y < n implies 0 <= #[trigger] done_w(info1)(x, y) <= 4 by {
        assert(cell_ok(n, g1, info1, x, y));
    }
    lemma_sum_bounds(done_w(info1), n as nat, 0, 4);
}

/// The visit record of a cell reached from its parent in direction `opp(par)`.
spec fn visit_new(ord: Seq<usize>, par: int, dep: int, br: int) -> Visit {
    Visit { vis: true, done: 0, ord, par, dep, br }
}

/// The top cell tries a direction that leads to an untouched cell: the passage is opened
/// from this side and the new cell goes on the stack.
#[verifier::rlimit(80)]
proof fn carve_step_open(
    n: int,
    g0: Seq<Seq<u8>>,
    info0: Map<(int, int), Visit>,
    stack0: Seq<Frame>,
    slot0: Map<(int, int), int>,
    path0: Seq<Option<(Pos, u32)>>,
    pushes: int,
    dcount: int,
    ax: int,
    ay: int,
    d: int,
    ord: Seq<usize>,
    g1: Seq<Seq<u8>>,
    stack2: Seq<Frame>,
    path1: Seq<Option<(Pos, u32)>>,
)
    requires
        1 <= n,
        search_ok(n, g0, info0, stack0, slot0, path0, pushes, dcount),
        stack0.len() > 0,
        stack0.last().at.x == ax,
        stack0.last().at.y == ay,
        d == stack0.last().order@[stack0.last().next as int],
        path_next(path0, stack0.last(), d, path1),
        in_grid(n, ax + step_x(d), ay + step_y(d)),
        g0[ay + step_y(d)][ax + step_x(d)] == 0,
        g1 == g0.update(ay, g0[ay].update(ax, g0[ay][ax] | bit_of(d))),
        perm4(ord),
        stack2.len() == after_pop(stack0).len() + 1,
        forall|i: int| 0 <= i < after_pop(stack0).len() ==> stack2[i] == after_pop(stack0)[i],
        stack2.last().at.x == ax + step_x(d),
        stack2.last().at.y == ay + step_y(d),
        stack2.last().order@ == ord,
        stack2.last().next == 0,
        stack2.last().branch == Some(branch_of(stack0.last(), d) as usize),
        stack2.last().depth as int == stack0.last().depth + 1,
    ensures
        search_ok(
            n,
            g1,
            info0.insert((ax, ay), visit_next(info0[(ax, ay)])).insert(
                (ax + step_x(d), ay + step_y(d)),
                visit_new(ord, opp(d), info0[(ax, ay)].dep + 1, branch_of(stack0.last(), d)),
            ),
            stack2,
            slot0.insert((ax + step_x(d), ay + step_y(d)), after_pop(stack0).len() as int),
            path1,
            pushes + 1,
            dcount + 1,
        ),
{
    lemma_top(n, g0, info0, stack0, slot0, path0, pushes, dcount, ax, ay, d);
    lemma_opp(d);
    lemma_zero_mask();
    let f = stack0.last();
    let top = stack0.len() - 1;
    let stack1 = after_pop(stack0);
    let v = info0[(ax, ay)];
    let v1 = visit_next(v);
    let info1 = info0.insert((ax, ay), v1);
    let bx = ax + step_x(d);
    let by = ay + step_y(d);
    let vb = visit_new(ord, opp(d), v.dep + 1, branch_of(f, d));
    let info2 = info1.insert((bx, by), vb);
    let slot2 = slot0.insert((bx, by), stack1.len() as int);
    let r = n / 2;
    let m0 = g0[ay][ax];
    assert(m0 < 16);
    lemma_or_bit(m0, d);
    // the new cell was untouched, and is not the root
    assert(cell_ok(n, g0, info0, bx, by));
    if info0[(bx, by)].vis {
        assert(stack0.last().at == Pos { x: bx as i32, y: by as i32 });
    }
    assert(!info0[(bx, by)].vis);
    assert(!is_root(n, bx, by));
    assert(info0[(bx, by)].done == 0);
    if !is_root(n, ax, ay) {
        assert(parent_ok(n, g0, info0, ax, ay));
        assert(v.par != d);
    }
    assert(g1[ay][ax] == m0 | bit_of(d));
    assert(rows_have(g1, n as nat));
    assert forall|x: int, y: int| in_grid(n, x, y) && (x != ax || y != ay) implies #[trigger] g1[y][x] == g0[y][x] by {}
    assert(g1[by][bx] == 0);
    // cells
    assert forall|x: int, y: int| in_grid(n, x, y) implies #[trigger] g1[y][x] < 16 by {}
    assert forall|x: int, y: int| in_grid(n, x, y) implies #[trigger] cell_ok(n, g1, info2, x, y) by {
        assert(cell_ok(n, g0, info0, x, y));
        if x == bx && y == by {
            assert(bx + step_x(opp(d)) == ax && by + step_y(opp(d)) == ay);
            assert(info2[(ax, ay)].vis);
            assert(has_dir(g1[ay][ax], d));
            assert(parent_ok(n, g1, info2, x, y));
        } else if x == ax && y == ay {
            assert forall|e: int|
                0 <= e < 4 && in_grid(n, x + step_x(e), y + step_y(e)) && !info2[(
                    x + step_x(e),
                    y + step_y(e),
                )].vis implies !#[trigger] processed(v1.ord, v1.done, e) by {
                if e != d {
                    assert(!info0[(x + step_x(e), y + step_y(e))].vis);
                }
            }
            assert forall|e: int| 0 <= e < 4 && #[trigger] has_dir(g1[y][x], e) implies processed(
                v1.ord,
                v1.done,
                e,
            ) by {
                if e != d {
                    assert(has_dir(g0[y][x], e));
                    assert(processed(v.ord, v.done, e));
                }
            }
            if !is_root(n, x, y) {
                let px = x + step_x(v.par);
                let py = y + step_y(v.par);
                assert(info2[(px, py)].vis);
                assert(info2[(px, py)].dep == info0[(px, py)].dep);
                assert(info2[(px, py)].br == info0[(px, py)].br);
                assert(g1[py][px] == g0[py][px]);
                if processed(v1.ord, v1.done, v.par) {
                    assert(processed(v.ord, v.done, v.par));
                    assert(has_dir(g0[y][x], v.par));
                }
                assert(parent_ok(n, g1, info2, x, y));
            }
        } else {
            let w = info0[(x, y)];
            assert(info2[(x, y)] == w);
            if w.vis {
                assert forall|e: int| 0 <= e < 4 && #[trigger] has_dir(g1[y][x], e) implies processed(
                    w.ord,
                    w.done,
                    e,
                ) by {
                    assert(has_dir(g0[y][x], e));
                }
                if !is_root(n, x, y) {
                    assert(parent_ok(n, g0, info0, x, y));
                    let px = x + step_x(w.par);
                    let py = y + step_y(w.par);
                    assert(info2[(px, py)].vis);
                    assert(info2[(px, py)].dep == info0[(px, py)].dep);
                assert(info2[(px, py)].br == info0[(px, py)].br);
                    if px == ax && py == ay {
                        assert(has_dir(g1[py][px], opp(w.par)));
                    } else {
                        assert(g1[py][px] == g0[py][px]);
                    }
                    assert(parent_ok(n, g1, info2, x, y));
                }
                assert forall|e: int|
                    0 <= e < 4 && in_grid(n, x + step_x(e), y + step_y(e)) && !info2[(
                        x + step_x(e),
                        y + step_y(e),
                    )].vis implies !#[trigger] processed(w.ord, w.done, e) by {
                    assert(!info0[(x + step_x(e), y + step_y(e))].vis);
                }
            } else {
                assert(g1[y][x] == g0[y][x]);
            }
        }
    }
    assert forall|x: int, y: int, e: int|
        in_grid(n, x, y) && 0 <= e < 4 && #[trigger] has_dir(g1[y][x], e) implies edge_ok(n, info2, x, y, e) by {
        if x == ax && y == ay && e == d {
        } else {
            if x == ax && y == ay {
                assert(has_dir(g0[y][x], e));
            } else {
                assert(g1[y][x] == g0[y][x]);
                if x == bx && y == by {
                    assert(!has_dir(g1[y][x], e));
                }
            }
            assert(edge_ok(n, info0, x, y, e));
        }
    }
    assert forall|x: int, y: int| in_grid(n, x, y) && info2[(x, y)].vis implies (#[trigger] info2[(
        x,
        y,
    )]).dep <= pushes + 1 by {
        if x != bx || y != by {
            assert(info0[(x, y)].dep <= pushes);
        }
    }
    if info2[(r, r)].done == 0 {
        assert(is_root(n, ax, ay) || info0[(r, r)].done == 0);
        if !is_root(n, ax, ay) {
            assert(!info0[(ax, ay)].vis);
        }
        assert(false);
    }
    assert(shaped(g1, n));
    assert(cells_ok(n, g1, info2, pushes + 1));
    // stack
    assert forall|i: int| 0 <= i < stack2.len() implies #[trigger] frame_ok(n, info2, slot2, stack2[i], i) by {
        if i < top {
            assert(stack1[i] == stack0[i]);
            assert(stack2[i] == stack0[i]);
            assert(frame_ok(n, info0, slot0, stack0[i], i));
            assert(stack0[i].at != f.at);
            assert(stack0[i].at != Pos { x: bx as i32, y: by as i32 });
        } else if i < stack1.len() {
            assert(f.next < 3);
            let f1 = Frame { at: f.at, order: f.order, next: (f.next + 1) as usize, branch: f.branch, depth: f.depth };
            assert(stack2[i] == stack1[i]);
            assert(stack1[i] == f1);
            assert(info2[(ax, ay)] == v1);
            assert(slot2[(ax, ay)] == slot0[(ax, ay)]);
            assert(frame_ok(n, info0, slot0, f, top));
            assert(frame_ok(n, info2, slot2, f1, i));
        } else {
            let fb = stack2[i];
            assert(fb == stack2.last());
            assert(fb.at.x as int == bx && fb.at.y as int == by);
            assert(info2[(bx, by)] == vb);
            assert(slot2[(bx, by)] == i);
            assert(frame_ok(n, info2, slot2, fb, i));
        }
    }
    assert forall|x: int, y: int|
        in_grid(n, x, y) && (#[trigger] info2[(x, y)]).vis && info2[(x, y)].done < 4 implies {
        &&& 0 <= slot2[(x, y)] < stack2.len()
        &&& stack2[slot2[(x, y)]].at == Pos { x: x as i32, y: y as i32 }
    } by {
        if x == bx && y == by {
        } else if x == ax && y == ay {
            assert(stack2[top] == stack1[top]);
        } else {
            assert(info0[(x, y)].vis && info0[(x, y)].done < 4);
            assert(slot0[(x, y)] != top);
            assert(stack2[slot0[(x, y)]] == stack0[slot0[(x, y)]]);
        }
    }
    assert forall|x: int, y: int|
        in_grid(n, x, y) && (#[trigger] info2[(x, y)]).vis && g1[y][x] == 0 && !(is_root(n, x, y) && n == 1) implies {
        &&& stack2.len() > 0
        &&& stack2.last().at == Pos { x: x as i32, y: y as i32 }
        &&& (is_root(n, x, y) ==> info2[(x, y)].done == 0)
    } by {
        if x != bx || y != by {
            assert(x != ax || y != ay);
            assert(g0[y][x] == 0);
            assert(info0[(x, y)].vis);
            assert(stack0.last().at == Pos { x: x as i32, y: y as i32 });
        }
    }
    // branch records
    assert forall|x: int, y: int|
        in_grid(n, x, y) && (x != ax || y != ay) && !(#[trigger] info0[(x, y)]).vis implies info2[(x, y)].done == 0 by {
        assert(cell_ok(n, g0, info0, x, y));
    }
    lemma_paths_step(n, info0, info2, path0, path1, f, d, ax, ay);
    // counts
    assert forall|x: int, y: int| 0 <= x < n && 0 <= y < n && (x != bx || y != by) implies #[trigger] vis_w(info0)(
        x,
        y,
    ) == vis_w(info2)(x, y) by {}
    lemma_sum_point(vis_w(info0), vis_w(info2), n as nat, bx, by);
    assert forall|x: int, y: int| 0 <= x < n && 0 <= y < n && (x != ax || y != ay) implies #[trigger] done_w(
        info0,
    )(x, y) == done_w(info2)(x, y) by {}
    lemma_sum_point(done_w(info0), done_w(info2), n as nat, ax, ay);
    assert forall|x: int, y: int| 0 <= x < n && 0 <= y < n && (x != ax || y != ay) implies #[trigger] load_w(
        n,
        g0,
        info0,
    )(x, y) == load_w(n, g1, info1)(x, y) by {
        assert(g1[y][x] == g0[y][x]);
    }
    assert(load_w(n, g1, info1)(ax, ay) == load_w(n, g0, info0)(ax, ay) + 1);
    lemma_sum_point(load_w(n, g0, info0), load_w(n, g1, info1), n as nat, ax, ay);
    assert forall|x: int, y: int| 0 <= x < n && 0 <= y < n && (x != bx || y != by) implies #[trigger] load_w(
        n,
        g1,
        info1,
    )(x, y) == load_w(n, g1, info2)(x, y) by {}
    assert(load_w(n, g1, info2)(bx, by) == load_w(n, g1, info1)(bx, by) + 1);
    lemma_sum_point(load_w(n, g1, info1), load_w(n, g1, info2), n as nat, bx, by);
    assert forall|x: int, y: int| 0 <= x < n && 0 <= y < n implies 0 <= #[trigger] done_w(info2)(x, y) <= 4 by {
        assert(cell_ok(n, g1, info2, x, y));
    }
    lemma_sum_bounds(done_w(info2), n as nat, 0, 4);
    assert forall|x: int, y: int| 0 <= x < n && 0 <= y < n implies 0 <= #[trigger] vis_w(info2)(x, y) <= 1 by {}
    lemma_sum_bounds(vis_w(info2), n as nat, 0, 1);
}

/// The search is over: every reached cell has tried all four directions.
spec fn finished(n: int, g: Seq<Seq<u8>>, info: Map<(int, int), Visit>) -> bool {
    &&& forall|x: int, y: int| in_grid(n, x, y) ==> (#[trigger] info[(x, y)]).vis && info[(x, y)].done == 4
    &&& forall|x: int, y: int| in_grid(n, x, y) ==> #[trigger] cell_ok(n, g, info, x, y)
}

/// A finished cell other than the root opens toward its parent.
proof fn lemma_finished_parent(n: int, g: Seq<Seq<u8>>, info: Map<(int, int), Visit>, x: int, y: int)
    requires
        finished(n, g, info),
        in_grid(n, x, y),
        !is_root(n, x, y),
    ensures
        parent_ok(n, g, info, x, y),
        has_dir(g[y][x], info[(x, y)].par),
{
    assert(cell_ok(n, g, info, x, y));
    assert(info[(x, y)].vis && info[(x, y)].done == 4);
    assert(parent_ok(n, g, info, x, y));
    assert(processed(info[(x, y)].ord, 4, info[(x, y)].par));
}

/// Each cell of depth `k` reaches the root in `k` moves.
proof fn lemma_reach(n: int, g: Seq<Seq<u8>>, info: Map<(int, int), Visit>, k: nat)
    requires
        1 <= n,
        finished(n, g, info),
        info[(n / 2, n / 2)].dep == 0,
    ensures
        forall|x: int, y: int|
            in_grid(n, x, y) && (#[trigger] info[(x, y)]).dep == k ==> reaches(g, n, x, y, n / 2, n / 2, k),
    decreases k,
{
    let r = n / 2;
    if k > 0 {
        lemma_reach(n, g, info, (k - 1) as nat);
    }
    assert forall|x: int, y: int|
        in_grid(n, x, y) && (#[trigger] info[(x, y)]).dep == k implies reaches(g, n, x, y, r, r, k) by {
        if !is_root(n, x, y) {
            lemma_finished_parent(n, g, info, x, y);
            let e = info[(x, y)].par;
            let px = x + step_x(e);
            let py = y + step_y(e);
            assert(cell_ok(n, g, info, px, py));
            assert(info[(px, py)].dep == k - 1);
            assert(k > 0);
            assert(reaches(g, n, px, py, r, r, (k - 1) as nat));
            assert(has_dir(g[y][x], e));
        }
    }
}

/// A passage that a finished search left open is open from its other end too.
proof fn lemma_back(n: int, g: Seq<Seq<u8>>, info: Map<(int, int), Visit>, x: int, y: int, d: int)
    requires
        1 <= n,
        finished(n, g, info),
        forall|a: int, b: int, e: int|
            in_grid(n, a, b) && 0 <= e < 4 && #[trigger] has_dir(g[b][a], e) ==> edge_ok(n, info, a, b, e),
        in_grid(n, x, y),
        0 <= d < 4,
        has_dir(g[y][x], d),
    ensures
        in_grid(n, x + step_x(d), y + step_y(d)),
        has_dir(g[y + step_y(d)][x + step_x(d)], opp(d)),
{
    lemma_opp(d);
    assert(edge_ok(n, info, x, y, d));
    let nx = x + step_x(d);
    let ny = y + step_y(d);
    if !is_root(n, x, y) && info[(x, y)].par == d {
        lemma_finished_parent(n, g, info, x, y);
    } else {
        lemma_finished_parent(n, g, info, nx, ny);
    }
}

/// In a finished search no cell reaches the root in fewer moves than its depth.
proof fn lemma_reach_lower(n: int, g: Seq<Seq<u8>>, info: Map<(int, int), Visit>, x: int, y: int, k: nat)
    requires
        1 <= n,
        finished(n, g, info),
        forall|a: int, b: int, e: int|
            in_grid(n, a, b) && 0 <= e < 4 && #[trigger] has_dir(g[b][a], e) ==> edge_ok(n, info, a, b, e),
        info[(n / 2, n / 2)].dep == 0,
        in_grid(n, x, y),
        reaches(g, n, x, y, n / 2, n / 2, k),
    ensures
        info[(x, y)].dep <= k,
    decreases k,
{
    if !is_root(n, x, y) {
        let d = choose|d: int|
            0 <= d < 4 && #[trigger] has_dir(g[y][x], d) && in_grid(n, x + step_x(d), y + step_y(d)) && reaches(
                g,
                n,
                x + step_x(d),
                y + step_y(d),
                n / 2,
                n / 2,
                (k - 1) as nat,
            );
        let nx = x + step_x(d);
        let ny = y + step_y(d);
        lemma_reach_lower(n, g, info, nx, ny, (k - 1) as nat);
        assert(edge_ok(n, info, x, y, d));
        lemma_opp(d);
        if !is_root(n, x, y) && info[(x, y)].par == d {
            lemma_finished_parent(n, g, info, x, y);
        } else {
            lemma_finished_parent(n, g, info, nx, ny);
            assert(nx + step_x(opp(d)) == x && ny + step_y(opp(d)) == y);
        }
    }
}

/// The records of a finished search are exact depths, and as deep as their branches.
proof fn lemma_finish_deepest(n: int, g: Seq<Seq<u8>>, info: Map<(int, int), Visit>, path: Seq<Option<(Pos, u32)>>)
    requires
        1 <= n,
        finished(n, g, info),
        forall|a: int, b: int, e: int|
            in_grid(n, a, b) && 0 <= e < 4 && #[trigger] has_dir(g[b][a], e) ==> edge_ok(n, info, a, b, e),
        paths_ok(n, info, path),
        info[(n / 2, n / 2)].dep == 0,
        branch_records(path, n),
    ensures
        records_deepest(g, n, path),
{
    reveal(records_deepest);
    let r = n / 2;
    assert forall|b: int| 0 <= b < 4 implies #[trigger] reaches(
        g,
        n,
        record(path, b).0.x as int,
        record(path, b).0.y as int,
        r,
        r,
        record(path, b).1 as nat,
    ) && (record(path, b).1 > 0 ==> !reaches(
        g,
        n,
        record(path, b).0.x as int,
        record(path, b).0.y as int,
        r,
        r,
        (record(path, b).1 - 1) as nat,
    )) by {
        let _ = path[b];
        let k = (record(path, b).0.x as int, record(path, b).0.y as int);
        assert(cell_ok(n, g, info, k.0, k.1));
        lemma_reach(n, g, info, info[k].dep as nat);
        if record(path, b).1 > 0 && reaches(g, n, k.0, k.1, r, r, (record(path, b).1 - 1) as nat) {
            lemma_reach_lower(n, g, info, k.0, k.1, (record(path, b).1 - 1) as nat);
        }
    }
    assert forall|x: int, y: int| in_grid(n, x, y) implies exists|b: int|
        0 <= b < 4 && #[trigger] reaches(g, n, x, y, r, r, record(path, b).1 as nat) by {
        if is_root(n, x, y) {
            assert(reaches(g, n, x, y, r, r, record(path, 0).1 as nat));
        } else {
            assert(cell_ok(n, g, info, x, y));
            assert(info[(x, y)].vis && info[(x, y)].done == 4);
            let b = info[(x, y)].br;
            assert(path[b] matches Some(best) && best.1 >= info[(x, y)].dep);
            lemma_reach(n, g, info, info[(x, y)].dep as nat);
            lemma_reaches_mono(g, n, x, y, r, r, info[(x, y)].dep as nat, record(path, b).1 as nat);
        }
    }
}

/// A finished cell other than the root lies on its branch, one move short of its depth.
proof fn lemma_on_branch(n: int, g: Seq<Seq<u8>>, info: Map<(int, int), Visit>, x: int, y: int)
    requires
        1 <= n,
        finished(n, g, info),
        in_grid(n, x, y),
        !is_root(n, x, y),
    ensures
        info[(x, y)].dep >= 1,
        on_branch(g, n, x, y, info[(x, y)].br, (info[(x, y)].dep - 1) as nat),
    decreases info[(x, y)].dep,
{
    let r = n / 2;
    lemma_finished_parent(n, g, info, x, y);
    let e = info[(x, y)].par;
    lemma_opp(e);
    let px = x + step_x(e);
    let py = y + step_y(e);
    assert(cell_ok(n, g, info, px, py));
    assert(cell_ok(n, g, info, x, y));
    if is_root(n, px, py) {
        assert(x == r + step_x(opp(e)) && y == r + step_y(opp(e)));
    } else {
        lemma_on_branch(n, g, info, px, py);
        let b = info[(x, y)].br;
        assert(has_dir(g[y][x], e));
        assert(reaches(g, n, px, py, r + step_x(b), r + step_y(b), (info[(px, py)].dep - 1) as nat));
        assert(reaches(g, n, x, y, r + step_x(b), r + step_y(b), (info[(x, y)].dep - 1) as nat));
    }
}

/// How many moves cell `(x, y)` needs at least to reach the root's neighbour opening branch
/// `b`: none from that branch, one from the root, and one more than its depth from another
/// branch, whose way passes the root.
spec fn cut(n: int, info: Map<(int, int), Visit>, b: int, x: int, y: int) -> int {
    if is_root(n, x, y) {
        1
    } else if info[(x, y)].br == b {
        0
    } else {
        info[(x, y)].dep + 1
    }
}

/// No walk to the root's neighbour of branch `b` is shorter than the cut.
proof fn lemma_branch_cut(n: int, g: Seq<Seq<u8>>, info: Map<(int, int), Visit>, b: int, x: int, y: int, k: nat)
    requires
        1 <= n,
        finished(n, g, info),
        forall|a: int, c: int, e: int|
            in_grid(n, a, c) && 0 <= e < 4 && #[trigger] has_dir(g[c][a], e) ==> edge_ok(n, info, a, c, e),
        info[(n / 2, n / 2)].dep == 0,
        0 <= b < 4,
        has_dir(g[n / 2][n / 2], b),
        in_grid(n, n / 2 + step_x(b), n / 2 + step_y(b)),
        in_grid(n, x, y),
        reaches(g, n, x, y, n / 2 + step_x(b), n / 2 + step_y(b), k),
    ensures
        k >= cut(n, info, b, x, y),
    decreases k,
{
    let r = n / 2;
    let tx = r + step_x(b);
    let ty = r + step_y(b);
    lemma_opp(b);
    assert(edge_ok(n, info, r, r, b));
    assert(tx + step_x(opp(b)) == r && ty + step_y(opp(b)) == r);
    lemma_finished_parent(n, g, info, tx, ty);
    assert(info[(tx, ty)].br == b);
    if !(x == tx && y == ty) {
        let d = choose|d: int|
            0 <= d < 4 && #[trigger] has_dir(g[y][x], d) && in_grid(n, x + step_x(d), y + step_y(d)) && reaches(
                g,
                n,
                x + step_x(d),
                y + step_y(d),
                tx,
                ty,
                (k - 1) as nat,
            );
        let nx = x + step_x(d);
        let ny = y + step_y(d);
        lemma_branch_cut(n, g, info, b, nx, ny, (k - 1) as nat);
        lemma_opp(d);
        assert(edge_ok(n, info, x, y, d));
        assert(cell_ok(n, g, info, x, y));
        assert(cell_ok(n, g, info, nx, ny));
        if !is_root(n, x, y) && info[(x, y)].br != b {
            if info[(x, y)].par == d {
                lemma_finished_parent(n, g, info, x, y);
            } else {
                lemma_finished_parent(n, g, info, nx, ny);
                assert(nx + step_x(opp(d)) == x && ny + step_y(opp(d)) == y);
            }
        }
    }
}

/// The records of a finished search lie on their own branches.
proof fn lemma_finish_branches(n: int, g: Seq<Seq<u8>>, info: Map<(int, int), Visit>, path: Seq<Option<(Pos, u32)>>)
    requires
        1 <= n,
        finished(n, g, info),
        forall|a: int, b: int, e: int|
            in_grid(n, a, b) && 0 <= e < 4 && #[trigger] has_dir(g[b][a], e) ==> edge_ok(n, info, a, b, e),
        paths_ok(n, info, path),
        branch_records(path, n),
        info[(n / 2, n / 2)].dep == 0,
    ensures
        records_branches(g, n, path),
{
    reveal(records_branches);
    assert forall|b: int| 0 <= b < 4 && record(path, b).1 > 0 implies #[trigger] on_branch(
        g,
        n,
        record(path, b).0.x as int,
        record(path, b).0.y as int,
        b,
        (record(path, b).1 - 1) as nat,
    ) by {
        let _ = path[b];
        let k = (record(path, b).0.x as int, record(path, b).0.y as int);
        lemma_on_branch(n, g, info, k.0, k.1);
    }
    assert forall|b1: int, b2: int|
        0 <= b1 < 4 && 0 <= b2 < 4 && b1 != b2 && record(path, b2).1 > 0 implies !#[trigger] on_branch(
        g,
        n,
        record(path, b2).0.x as int,
        record(path, b2).0.y as int,
        b1,
        (record(path, b2).1 - 1) as nat,
    ) by {
        let _ = path[b2];
        let k = (record(path, b2).0.x as int, record(path, b2).0.y as int);
        if on_branch(g, n, k.0, k.1, b1, (record(path, b2).1 - 1) as nat) {
            lemma_branch_cut(n, g, info, b1, k.0, k.1, (record(path, b2).1 - 1) as nat);
        }
    }
}

/// The branch records of a finished search.
proof fn lemma_finish_records(n: int, g: Seq<Seq<u8>>, info: Map<(int, int), Visit>, path: Seq<Option<(Pos, u32)>>)
    requires
        1 <= n,
        finished(n, g, info),
        paths_ok(n, info, path),
        info[(n / 2, n / 2)].dep == 0,
    ensures
        branch_records(path, n),
{
    let r = n / 2;
    assert forall|b: int| 0 <= b < 4 implies (#[trigger] path[b] is Some && in_grid(
        n,
        record(path, b).0.x as int,
        record(path, b).0.y as int,
    ) && ((record(path, b).1 == 0) == is_root(n, record(path, b).0.x as int, record(path, b).0.y as int))) by {
        if path[b] is None {
            assert(info[(r, r)].done == 4);
            assert(cell_ok(n, g, info, r, r));
            assert(perm4(info[(r, r)].ord));
            assert(processed(info[(r, r)].ord, 4, b));
        }
        let k = (record(path, b).0.x as int, record(path, b).0.y as int);
        assert(cell_ok(n, g, info, k.0, k.1));
        if !is_root(n, k.0, k.1) {
            lemma_finished_parent(n, g, info, k.0, k.1);
            let pk = (k.0 + step_x(info[k].par), k.1 + step_y(info[k].par));
            assert(cell_ok(n, g, info, pk.0, pk.1));
        }
    }
    assert forall|b1: int, b2: int|
        0 <= b1 < 4 && 0 <= b2 < 4 && b1 != b2 && #[trigger] record(path, b1).1 > 0 && #[trigger] record(path, b2).1
            > 0 implies record(path, b1).0 != record(path, b2).0 by {
    }
    if n >= 2 {
        let lx = r - 1;
        assert(in_grid(n, lx, r) && !is_root(n, lx, r));
        assert(info[(lx, r)].vis && info[(lx, r)].done == 4);
        lemma_finished_parent(n, g, info, lx, r);
        let pk = (lx + step_x(info[(lx, r)].par), r + step_y(info[(lx, r)].par));
        assert(cell_ok(n, g, info, pk.0, pk.1));
        let b = info[(lx, r)].br;
        assert(cell_ok(n, g, info, lx, r));
        assert(path[b] matches Some(best) && best.1 >= info[(lx, r)].dep);
        assert(record(path, b).1 > 0);
    }
}

/// When the stack runs empty the grid is a perfect maze and every branch has a record.
proof fn carve_finish(
    n: int,
    g: Seq<Seq<u8>>,
    info: Map<(int, int), Visit>,
    slot: Map<(int, int), int>,
    path: Seq<Option<(Pos, u32)>>,
    pushes: int,
    dcount: int,
)
    requires
        1 <= n,
        search_ok(n, g, info, Seq::empty(), slot, path, pushes, dcount),
    ensures
        perfect_maze(g, n),
        branch_records(path, n),
        records_deepest(g, n, path),
        records_branches(g, n, path),
{
    let r = n / 2;
    // every reached cell is done, so its neighbours are reached
    assert forall|x: int, y: int| in_grid(n, x, y) && (#[trigger] info[(x, y)]).vis implies info[(x, y)].done == 4 by {
        assert(cell_ok(n, g, info, x, y));
    }
    let p = |x: int, y: int| info[(x, y)].vis;
    assert forall|a: int, b: int, d: int|
        #![trigger p(a, b), step_x(d)]
        in_grid(n, a, b) && 0 <= d < 4 && p(a, b) && in_grid(n, a + step_x(d), b + step_y(d)) implies p(
        a + step_x(d),
        b + step_y(d),
    ) by {
        assert(cell_ok(n, g, info, a, b));
        assert(info[(a, b)].done == 4);
        assert(processed(info[(a, b)].ord, 4, d));
    }
    assert forall|x: int, y: int| in_grid(n, x, y) implies (#[trigger] info[(x, y)]).vis && info[(x, y)].done == 4 by {
        lemma_walk(n, p, x, y);
    }
    assert(finished(n, g, info));
    // passages
    assert forall|x: int, y: int| 0 <= x < n && 0 <= y < n implies #[trigger] vis_w(info)(x, y) == 1 by {}
    lemma_sum_bounds(vis_w(info), n as nat, 1, 1);
    assert forall|x: int, y: int| 0 <= x < n && 0 <= y < n implies #[trigger] load_w(n, g, info)(x, y) == ends_w(g)(
        x,
        y,
    ) by {
        if !is_root(n, x, y) {
            lemma_finished_parent(n, g, info, x, y);
        }
    }
    lemma_sum_same(load_w(n, g, info), ends_w(g), n as nat);
    // symmetry
    assert forall|x: int, y: int, d: int| in_grid(n, x, y) && 0 <= d < 4 implies (#[trigger] has_dir(g[y][x], d) <==> (
    in_grid(n, x + step_x(d), y + step_y(d)) && has_dir(g[y + step_y(d)][x + step_x(d)], opp(d)))) by {
        lemma_opp(d);
        if has_dir(g[y][x], d) {
            lemma_back(n, g, info, x, y, d);
        }
        let nx = x + step_x(d);
        let ny = y + step_y(d);
        if in_grid(n, nx, ny) && has_dir(g[ny][nx], opp(d)) {
            lemma_back(n, g, info, nx, ny, opp(d));
            assert(nx + step_x(opp(d)) == x && ny + step_y(opp(d)) == y);
        }
    }
    // reachability
    assert forall|x: int, y: int| in_grid(n, x, y) implies exists|k: nat| #[trigger] reaches(g, n, x, y, r, r, k) by {
        assert(cell_ok(n, g, info, x, y));
        let k = info[(x, y)].dep as nat;
        lemma_reach(n, g, info, k);
        assert(reaches(g, n, x, y, r, r, k));
    }
    // branch records
    lemma_finish_records(n, g, info, path);
    lemma_finish_deepest(n, g, info, path);
    lemma_finish_branches(n, g, info, path);
}

/// Carves a perfect maze of side `n` by a randomized depth-first search from the root
/// cell `(n / 2, n / 2)`. Each cell tries the four directions in an order drawn from
/// `rng` (the root's order is left, down, right, up); a step into an untouched cell
/// opens the passage, and a cell opens back toward the neighbour it was reached from.
/// Also reports, for each of the root's four first steps, the deepest cell met on that
/// branch and its depth.
pub fn carve(n: usize, rng: &mut StdRng) -> (r: (Grid, Vec<Option<(Pos, u32)>>))
    requires
        1 <= n <= MAX_SIDE,
    ensures
        r.0.spec_cols() == n,
        perfect_maze(r.0@, n as int),
        branch_records(r.1@, n as int),
        records_deepest(r.0@, n as int, r.1@),
        records_branches(r.0@, n as int, r.1@),
{
    let ghost nn = n as int;
    let ghost rr = nn / 2;
    proof {
        assert(nn * nn <= 16777216) by (nonlinear_arith)
            requires
                1 <= nn <= 4096,
        ;
        assert(1 <= nn * nn) by (nonlinear_arith)
            requires
                1 <= nn,
        ;
    }
    let mut routes = Grid::zeros(n, n);
    let half: i32 = (n / 2) as i32;
    let ni: i32 = n as i32;
    let mut stack: Vec<Frame> = Vec::new();
    stack.push(Frame { at: Pos { x: half, y: half }, order: [2, 1, 0, 3], next: 0, branch: None, depth: 0 });
    let mut path: Vec<Option<(Pos, u32)>> = vec![None, None, None, None];
    let ghost mut info: Map<(int, int), Visit> = Map::new(
        |k: (int, int)| in_grid(nn, k.0, k.1),
        |k: (int, int)|
            Visit {
                vis: k.0 == rr && k.1 == rr,
                done: 0,
                ord: if k.0 == rr && k.1 == rr { root_order() } else { Seq::empty() },
                par: 0,
                dep: 0,
                br: 0,
            },
    );
    let ghost mut slot: Map<(int, int), int> = Map::empty().insert((rr, rr), 0int);
    let ghost mut pushes: int = 0;
    let ghost mut dcount: int = 0;
    proof {
        lemma_zero_mask();
        let ro = root_order();
        assert(ro[2] as int == 0 && ro[1] as int == 1 && ro[0] as int == 2 && ro[3] as int == 3);
        assert(processed(ro, 4, 0) && processed(ro, 4, 1) && processed(ro, 4, 2) && processed(ro, 4, 3));
        assert(perm4(ro));
        let g = routes@;
        assert forall|x: int, y: int| in_grid(nn, x, y) implies #[trigger] g[y][x] < 16 && g[y][x] == 0 by {}
        assert forall|x: int, y: int| in_grid(nn, x, y) implies #[trigger] cell_ok(nn, g, info, x, y) by {
            if info[(x, y)].vis {
                assert(is_root(nn, x, y));
                assert forall|d: int| 0 <= d < 4 && #[trigger] has_dir(g[y][x], d) implies processed(
                    info[(x, y)].ord,
                    info[(x, y)].done,
                    d,
                ) by {}
            }
        }
        assert forall|x: int, y: int, d: int|
            in_grid(nn, x, y) && 0 <= d < 4 && #[trigger] has_dir(g[y][x], d) implies edge_ok(
            nn,
            info,
            x,
            y,
            d,
        ) by {}
        let z = |x: int, y: int| 0int;
        lemma_sum_bounds(z, nn as nat, 0, 0);
        lemma_sum_point(z, vis_w(info), nn as nat, rr, rr);
        lemma_sum_same(z, done_w(info), nn as nat);
        assert forall|x: int, y: int| 0 <= x < nn && 0 <= y < nn implies #[trigger] z(x, y) == load_w(
            nn,
            g,
            info,
        )(x, y) by {}
        lemma_sum_same(z, load_w(nn, g, info), nn as nat);
        assert(frame_ok(nn, info, slot, stack@[0], 0));
        assert(paths_ok(nn, info, path@));
    }
    while stack.len() > 0
        invariant
            1 <= n <= MAX_SIDE,
            nn == n,
            rr == nn / 2,
            half == rr,
            ni == nn,
            nn * nn <= 16777216,
            routes.spec_cols() == n,
            search_ok(nn, routes@, info, stack@, slot, path@, pushes, dcount),
        decreases 4 * nn * nn - dcount,
    {
        let ghost g0 = routes@;
        let ghost info0 = info;
        let ghost stack0 = stack@;
        let ghost slot0 = slot;
        let ghost path0 = path@;
        let ghost top = stack0.len() - 1;
        let f = stack.pop().unwrap();
        let ghost ax = f.at.x as int;
        let ghost ay = f.at.y as int;
        let ghost v = info0[(ax, ay)];
        proof {
            assert(frame_ok(nn, info0, slot0, stack0[top], top));
            assert(cell_ok(nn, g0, info0, ax, ay));
        }
        if f.next < 3 {
            stack.push(Frame { at: f.at, order: f.order, next: f.next + 1, branch: f.branch, depth: f.depth });
        }
        let di = f.order[f.next];
        let ghost d = di as int;
        let dir = Dir::from_index(di);
        let (sx, sy) = dir.step();
        let branch = match f.branch {
            Some(b) => b,
            None => di,
        };
        let replace = match path[branch] {
            Some(best) => best.1 < f.depth,
            None => true,
        };
        if replace {
            path.set(branch, Some((f.at, f.depth)));
        }
        let cx = f.at.x + sx;
        let cy = f.at.y + sy;
        let ghost info1 = info0.insert((ax, ay), visit_next(v));
        proof {
            info = info1;
            dcount = dcount + 1;
            lemma_opp(d);
        }
        if 0 <= cx && cx < ni && 0 <= cy && cy < ni {
            let cand = routes.get(cy as usize, cx as usize);
            if cand == 0 {
                let mut order: [usize; 4] = [2, 1, 0, 3];
                proof {
                    assert(order@ =~= root_order());
                }
                shuffle_order(rng, &mut order);
                let ghost slot_at = stack@.len() as int;
                stack.push(Frame { at: Pos { x: cx, y: cy }, order, next: 0, branch: Some(branch), depth: f.depth + 1 });
                let cur = routes.get(f.at.y as usize, f.at.x as usize);
                routes.set(f.at.y as usize, f.at.x as usize, cur | dir.mask());
                proof {
                    lemma_perm4(order@);
                    let bx = cx as int;
                    let by = cy as int;
                    info = info1.insert((bx, by), visit_new(order@, opp(d), v.dep + 1, branch_of(f, d)));
                    slot = slot0.insert((bx, by), slot_at);
                    pushes = pushes + 1;
                    carve_step_open(nn, g0, info0, stack0, slot0, path0, pushes - 1, dcount - 1, ax, ay, d, order@, routes@, stack@, path@);
                }
            } else if cand & dir.opposite().mask() != 0 {
                let cur = routes.get(f.at.y as usize, f.at.x as usize);
                routes.set(f.at.y as usize, f.at.x as usize, cur | dir.mask());
                proof {
                    carve_step_back(nn, g0, info0, stack0, slot0, path0, pushes, dcount - 1, ax, ay, d, routes@, stack@, path@);
                }
            } else {
                proof {
                    carve_step_none(nn, g0, info0, stack0, slot0, path0, pushes, dcount - 1, ax, ay, d, stack@, path@);
                }
            }
        } else {
            proof {
                carve_step_none(nn, g0, info0, stack0, slot0, path0, pushes, dcount - 1, ax, ay, d, stack@, path@);
            }
        }
    }
    proof {
        carve_finish(nn, routes@, info, slot, path@, pushes, dcount);
    }
    (routes, path)
}

} // verus!
