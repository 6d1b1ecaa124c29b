// Directions, masks, grid positions and the actors that stand on them.
use vstd::prelude::*;

verus! {

/// Side of one wall tile in pixels.
pub const TILE_SIDE: u32 = 10;

/// Side of one actor sprite in pixels.
pub const ACTOR_SIDE: u32 = 8;

/// Side of the square canvas in pixels.
pub const CANVAS_SIDE: u32 = 128;

/// Number of wall tiles on one row of the sprite atlas.
pub const TILE_ROW_MAX: u32 = 8;

/// Row of the sprite atlas where the wall tiles start.
pub const TILE_Y_ORIGIN: u32 = 8;

/// Row of the sprite atlas where the actor sprites start.
pub const ACTOR_Y_ORIGIN: u32 = 0;

/// Number of cells on a side of the connectivity grid that fills the canvas.
pub const TILES: usize = 11;

/// The four compass directions, in the order used for bit positions.
#[derive(Clone, Copy, Debug, PartialEq, Eq, Structural)]
pub enum Dir {
    Right,
    Down,
    Left,
    Up,
}

/// The single-bit masks of the four directions.
#[derive(Clone, Copy, Debug, PartialEq, Eq, Structural)]
pub enum DirMask {
    Right,
    Down,
    Left,
    Up,
}

/// Bit position of direction number `d` (0 = right, 1 = down, 2 = left, 3 = up).
pub open spec fn bit_of(d: int) -> u8 {
    if d == 0 {
        1u8
    } else if d == 1 {
        2u8
    } else if d == 2 {
        4u8
    } else {
        8u8
    }
}

/// Whether mask `m` is open toward direction number `d`.
pub open spec fn has_dir(m: u8, d: int) -> bool {
    m & bit_of(d) != 0
}

/// Direction number opposite to `d`.
pub open spec fn opp(d: int) -> int {
    (d + 2) % 4
}

/// Column step of direction number `d`.
pub open spec fn step_x(d: int) -> int {
    if d == 0 {
        1
    } else if d == 2 {
        -1
    } else {
        0
    }
}

/// Row step of direction number `d`.
pub open spec fn step_y(d: int) -> int {
    if d == 1 {
        1
    } else if d == 3 {
        -1
    } else {
        0
    }
}

/// Whether `(x, y)` lies on a square grid of side `n`.
pub open spec fn in_grid(n: int, x: int, y: int) -> bool {
    0 <= x < n && 0 <= y < n
}

impl Dir {
    pub open spec fn spec_index(self) -> int {
        match self {
            Dir::Right => 0,
            Dir::Down => 1,
            Dir::Left => 2,
            Dir::Up => 3,
        }
    }

    pub open spec fn spec_from_index(i: int) -> Dir {
        if i == 0 {
            Dir::Right
        } else if i == 1 {
            Dir::Down
        } else if i == 2 {
            Dir::Left
        } else {
            Dir::Up
        }
    }

    /// Position of this direction in the order right, down, left, up.
    pub fn index(self) -> (r: usize)
        ensures
            r as int == self.spec_index(),
            r < 4,
    {
        match self {
            Dir::Right => 0,
            Dir::Down => 1,
            Dir::Left => 2,
            Dir::Up => 3,
        }
    }

    /// The direction at position `i` in the order right, down, left, up.
    pub fn from_index(i: usize) -> (r: Dir)
        requires
            i < 4,
        ensures
            r == Dir::spec_from_index(i as int),
            r.spec_index() == i,
    {
        if i == 0 {
            Dir::Right
        } else if i == 1 {
            Dir::Down
        } else if i == 2 {
            Dir::Left
        } else {
            Dir::Up
        }
    }

    /// The direction pointing the other way.
    pub fn opposite(self) -> (r: Dir)
        ensures
            r.spec_index() == opp(self.spec_index()),
    {
        match self {
            Dir::Right => Dir::Left,
            Dir::Down => Dir::Up,
            Dir::Left => Dir::Right,
            Dir::Up => Dir::Down,
        }
    }

    /// The column and row step of one move in this direction.
    pub fn step(self) -> (r: (i32, i32))
        ensures
            r.0 as int == step_x(self.spec_index()),
            r.1 as int == step_y(self.spec_index()),
    {
        match self {
            Dir::Right => (1, 0),
            Dir::Down => (0, 1),
            Dir::Left => (-1, 0),
            Dir::Up => (0, -1),
        }
    }

    /// The mask bit of this direction.
    pub fn mask(self) -> (r: u8)
        ensures
            r == bit_of(self.spec_index()),
    {
        DirMask::of(self).bits()
    }
}

impl DirMask {
    pub open spec fn spec_bits(self) -> u8 {
        match self {
            DirMask::Right => 1,
            DirMask::Down => 2,
            DirMask::Left => 4,
            DirMask::Up => 8,
        }
    }

    /// The mask that belongs to direction `d`.
    pub fn of(d: Dir) -> (r: DirMask)
        ensures
            r.spec_bits() == bit_of(d.spec_index()),
    {
        match d {
            Dir::Right => DirMask::Right,
            Dir::Down => DirMask::Down,
            Dir::Left => DirMask::Left,
            Dir::Up => DirMask::Up,
        }
    }

    /// The bit value of this mask.
    pub fn bits(self) -> (r: u8)
        ensures
            r == self.spec_bits(),
    {
        match self {
            DirMask::Right => 1,
            DirMask::Down => 2,
            DirMask::Left => 4,
            DirMask::Up => 8,
        }
    }
}

/// A cell of a grid: column `x`, row `y`.
#[derive(Clone, Copy, Debug, PartialEq, Eq, Structural)]
pub struct Pos {
    pub x: i32,
    pub y: i32,
}

impl Pos {
    pub fn new(x: i32, y: i32) -> (r: Pos)
        ensures
            r.x == x,
            r.y == y,
    {
        Pos { x, y }
    }
}

/// Something that stands on a cell of a room.
#[derive(Clone, Copy, Debug, PartialEq, Eq, Structural)]
pub enum Actor {
    /// The player and the way it faces.
    Player(Dir),
    Door,
    /// A key; `true` when it faces right.
    Key(bool),
    Ammo,
    Shot,
    /// A monster: the way it faces and its sprite.
    Monster(Dir, u8),
}

} // verus!
