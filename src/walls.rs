// Walls derived from a maze, and the tile that draws each wall crossing.
use vstd::prelude::*;
use crate::constants::{has_dir, in_grid};
use crate::grid::{Grid, rows_have};
use crate::maze::{MAX_SIDE, shaped};

verus! {

/// The shape of the walls that meet at one crossing of the grid lines, by the arms
/// present: right = 1, down = 2, left = 4, up = 8. `L0` is right and down, `T0` right,
/// down and left; each next number turns a quarter clockwise.
#[derive(Clone, Copy, Debug, PartialEq, Eq, Structural)]
pub enum WallRot {
    Blank,
    Right,
    Down,
    L0,
    Left,
    LeftRight,
    L1,
    T0,
    Up,
    L3,
    UpDown,
    T3,
    L2,
    T2,
    T1,
    Full,
}

/// The sprite (straight = 1, elbow = 2, tee = 3, single arm = 4, none = 0) and the number
/// of quarter turns that draw the crossing with arm mask `m`.
pub open spec fn rot_table(m: int) -> (int, int) {
    if m == 1 {
        (4, 0)
    } else if m == 2 {
        (4, 1)
    } else if m == 3 {
        (2, 0)
    } else if m == 4 {
        (4, 2)
    } else if m == 5 {
        (1, 0)
    } else if m == 6 {
        (2, 1)
    } else if m == 7 {
        (3, 0)
    } else if m == 8 {
        (4, 3)
    } else if m == 9 {
        (2, 3)
    } else if m == 10 {
        (1, 1)
    } else if m == 11 {
        (3, 3)
    } else if m == 12 {
        (2, 2)
    } else if m == 13 {
        (3, 2)
    } else if m == 14 {
        (3, 1)
    } else {
        (0, 0)
    }
}

impl WallRot {
    pub open spec fn spec_mask(self) -> u8 {
        match self {
            WallRot::Blank => 0,
            WallRot::Right => 1,
            WallRot::Down => 2,
            WallRot::L0 => 3,
            WallRot::Left => 4,
            WallRot::LeftRight => 5,
            WallRot::L1 => 6,
            WallRot::T0 => 7,
            WallRot::Up => 8,
            WallRot::L3 => 9,
            WallRot::UpDown => 10,
            WallRot::T3 => 11,
            WallRot::L2 => 12,
            WallRot::T2 => 13,
            WallRot::T1 => 14,
            WallRot::Full => 15,
        }
    }

    /// The arm mask of this shape.
    pub fn mask(self) -> (r: u8)
        ensures
            r == self.spec_mask(),
            r < 16,
    {
        match self {
            WallRot::Blank => 0,
            WallRot::Right => 1,
            WallRot::Down => 2,
            WallRot::L0 => 3,
            WallRot::Left => 4,
            WallRot::LeftRight => 5,
            WallRot::L1 => 6,
            WallRot::T0 => 7,
            WallRot::Up => 8,
            WallRot::L3 => 9,
            WallRot::UpDown => 10,
            WallRot::T3 => 11,
            WallRot::L2 => 12,
            WallRot::T2 => 13,
            WallRot::T1 => 14,
            WallRot::Full => 15,
        }
    }

    /// The shape with arm mask `m`.
    pub fn from_mask(m: u8) -> (r: WallRot)
        requires
            m < 16,
        ensures
            r.spec_mask() == m,
    {
        match m {
            0 => WallRot::Blank,
            1 => WallRot::Right,
            2 => WallRot::Down,
            3 => WallRot::L0,
            4 => WallRot::Left,
            5 => WallRot::LeftRight,
            6 => WallRot::L1,
            7 => WallRot::T0,
            8 => WallRot::Up,
            9 => WallRot::L3,
            10 => WallRot::UpDown,
            11 => WallRot::T3,
            12 => WallRot::L2,
            13 => WallRot::T2,
            14 => WallRot::T1,
            _ => WallRot::Full,
        }
    }

    /// The sprite and the number of quarter turns that draw this shape.
    pub fn semantics(self) -> (r: [u8; 2])
        ensures
            r@[0] as int == rot_table(self.spec_mask() as int).0,
            r@[1] as int == rot_table(self.spec_mask() as int).1,
    {
        match self {
            WallRot::Blank => [0, 0],
            WallRot::Right => [4, 0],
            WallRot::Down => [4, 1],
            WallRot::L0 => [2, 0],
            WallRot::Left => [4, 2],
            WallRot::LeftRight => [1, 0],
            WallRot::L1 => [2, 1],
            WallRot::T0 => [3, 0],
            WallRot::Up => [4, 3],
            WallRot::L3 => [2, 3],
            WallRot::UpDown => [1, 1],
            WallRot::T3 => [3, 3],
            WallRot::L2 => [2, 2],
            WallRot::T2 => [3, 2],
            WallRot::T1 => [3, 1],
            WallRot::Full => [0, 0],
        }
    }
}

/// The sprite and quarter turns for the crossing with arm mask `m`.
pub fn wall_tile(m: u8) -> (r: (u8, u8))
    requires
        m < 16,
    ensures
        r.0 as int == rot_table(m as int).0,
        r.1 as int == rot_table(m as int).1,
{
    let s = WallRot::from_mask(m).semantics();
    (s[0], s[1])
}

/// The arms at crossing `(x, y)` of the grid lines around a maze `g` of side `n`. An arm
/// stands where the passage it would cross is closed; the edges of the map are walls.
pub open spec fn wall_mask(g: Seq<Seq<u8>>, n: int, x: int, y: int) -> u8 {
    let up = !(in_grid(n, x - 1, y - 1) && has_dir(g[y - 1][x - 1], 0));
    let down = !(in_grid(n, x - 1, y) && has_dir(g[y][x - 1], 0));
    let left = !(in_grid(n, x - 1, y - 1) && has_dir(g[y - 1][x - 1], 1));
    let right = !(in_grid(n, x, y - 1) && has_dir(g[y - 1][x], 1));
    (if up { 8u8 } else { 0u8 }) | (if down { 2u8 } else { 0u8 }) | (if left { 4u8 } else { 0u8 }) | (if right {
        1u8
    } else {
        0u8
    })
}

/// The arms at crossing `(x, y)`.
fn wall_mask_at(routes: &Grid, n: usize, x: usize, y: usize) -> (r: u8)
    requires
        shaped(routes@, n as int),
        routes.spec_cols() == n,
        x <= n,
        y <= n,
    ensures
        r == wall_mask(routes@, n as int, x as int, y as int),
        r < 16,
{
    let ul_right = x >= 1 && y >= 1 && routes.get(y - 1, x - 1) & 1 != 0;
    let dl_right = x >= 1 && y < n && routes.get(y, x - 1) & 1 != 0;
    let ul_down = x >= 1 && y >= 1 && routes.get(y - 1, x - 1) & 2 != 0;
    let ur_down = x < n && y >= 1 && routes.get(y - 1, x) & 2 != 0;
    let up: u8 = if !ul_right { 8 } else { 0 };
    let down: u8 = if !dl_right { 2 } else { 0 };
    let left: u8 = if !ul_down { 4 } else { 0 };
    let right: u8 = if !ur_down { 1 } else { 0 };
    proof {
        assert((up == 0 || up == 8) && (down == 0 || down == 2) && (left == 0 || left == 4) && (right == 0
            || right == 1) ==> (up | down | left | right) < 16) by (bit_vector);
    }
    up | down | left | right
}

/// The wall grid of a maze of side `n`: one crossing more than cells on each side.
pub fn derive_walls(routes: &Grid, n: usize) -> (r: Grid)
    requires
        1 <= n <= MAX_SIDE,
        shaped(routes@, n as int),
        routes.spec_cols() == n,
    ensures
        r@.len() == n + 1,
        r.spec_cols() == n + 1,
        rows_have(r@, (n + 1) as nat),
        forall|x: int, y: int|
            0 <= x <= n && 0 <= y <= n ==> #[trigger] r@[y][x] == wall_mask(routes@, n as int, x, y),
        forall|x: int, y: int| 0 <= x <= n && 0 <= y <= n ==> #[trigger] r@[y][x] < 16,
{
    proof {
        assert((n + 1) * (n + 1) <= 16785409) by (nonlinear_arith)
            requires
                n <= 4096,
        ;
    }
    let mut walls = Grid::zeros(n + 1, n + 1);
    let mut y: usize = 0;
    while y <= n
        invariant
            1 <= n <= MAX_SIDE,
            shaped(routes@, n as int),
            routes.spec_cols() == n,
            y <= n + 1,
            walls@.len() == n + 1,
            walls.spec_cols() == n + 1,
            rows_have(walls@, (n + 1) as nat),
            forall|xx: int, yy: int|
                0 <= xx <= n && 0 <= yy < y ==> #[trigger] walls@[yy][xx] == wall_mask(routes@, n as int, xx, yy)
                    && walls@[yy][xx] < 16,
        decreases n + 1 - y,
    {
        let mut x: usize = 0;
        while x <= n
            invariant
                1 <= n <= MAX_SIDE,
                shaped(routes@, n as int),
                routes.spec_cols() == n,
                y <= n,
                x <= n + 1,
                walls@.len() == n + 1,
                walls.spec_cols() == n + 1,
                rows_have(walls@, (n + 1) as nat),
                forall|xx: int, yy: int|
                    0 <= xx <= n && 0 <= yy < y ==> #[trigger] walls@[yy][xx] == wall_mask(routes@, n as int, xx, yy)
                        && walls@[yy][xx] < 16,
                forall|xx: int|
                    0 <= xx < x ==> #[trigger] walls@[y as int][xx] == wall_mask(routes@, n as int, xx, y as int)
                        && walls@[y as int][xx] < 16,
            decreases n + 1 - x,
        {
            let m = wall_mask_at(routes, n, x, y);
            walls.set(y, x, m);
            x = x + 1;
        }
        y = y + 1;
    }
    walls
}

} // verus!
