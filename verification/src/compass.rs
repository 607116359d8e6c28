//! Whole-tile vectors and the eight facings of an actor.

use vstd::prelude::*;

verus! {

/// A compass facing, clockwise from north; `y` grows southward. Its discriminant is the
/// direction slot of an actor model's strips.
#[derive(Clone, Copy, PartialEq, Eq, Structural, Debug)]
pub enum Direction {
    N,
    NE,
    E,
    SE,
    S,
    SW,
    W,
    NW,
}

pub open spec fn abs(v: int) -> int {
    if v < 0 {
        -v
    } else {
        v
    }
}

/// Whether (`along`, `across`) points within 22.5 degrees of the `along` axis, positive side:
/// `|across| < tan(22.5°) * along`, squared out of the irrational `√2 - 1`.
pub open spec fn near_axis(along: int, across: int) -> bool {
    along > 0 && (abs(across) + along) * (abs(across) + along) < 2 * (along * along)
}

/// The octant a vector points into, by angle; the zero vector faces east.
pub open spec fn octant(dx: int, dy: int) -> Direction {
    if dx == 0 && dy == 0 {
        Direction::E
    } else if near_axis(dx, dy) {
        Direction::E
    } else if near_axis(-dx, dy) {
        Direction::W
    } else if near_axis(dy, dx) {
        Direction::S
    } else if near_axis(-dy, dx) {
        Direction::N
    } else if dx > 0 && dy > 0 {
        Direction::SE
    } else if dx > 0 {
        Direction::NE
    } else if dy > 0 {
        Direction::SW
    } else {
        Direction::NW
    }
}

/// The largest component a vector may have here: its squares stay well inside 64 bits.
pub const MAX_COMPONENT: i64 = 1_000_000_000;

fn within(along: i64, across: i64) -> (r: bool)
    requires
        -MAX_COMPONENT <= along <= MAX_COMPONENT,
        -MAX_COMPONENT <= across <= MAX_COMPONENT,
    ensures
        r == near_axis(along as int, across as int),
{
    if along <= 0 {
        return false;
    }
    let a: i64 = if across < 0 {
        -across
    } else {
        across
    };
    let sum: i64 = a + along;
    proof {
        assert(0 <= sum * sum <= 4_000_000_000_000_000_000) by (nonlinear_arith)
            requires
                0 <= sum <= 2_000_000_000,
        ;
        assert(0 <= along * along <= 1_000_000_000_000_000_000) by (nonlinear_arith)
            requires
                0 <= along <= 1_000_000_000,
        ;
    }
    sum * sum < 2 * (along * along)
}

impl Direction {
    /// The facing of the vector (`dx`, `dy`): the octant it points into, by angle; the zero
    /// vector faces east.
    pub fn from_vec(dx: i64, dy: i64) -> (d: Direction)
        requires
            -MAX_COMPONENT <= dx <= MAX_COMPONENT,
            -MAX_COMPONENT <= dy <= MAX_COMPONENT,
        ensures
            d == octant(dx as int, dy as int),
    {
        if dx == 0 && dy == 0 {
            Direction::E
        } else if within(dx, dy) {
            Direction::E
        } else if within(-dx, dy) {
            Direction::W
        } else if within(dy, dx) {
            Direction::S
        } else if within(-dy, dx) {
            Direction::N
        } else if dx > 0 && dy > 0 {
            Direction::SE
        } else if dx > 0 {
            Direction::NE
        } else if dy > 0 {
            Direction::SW
        } else {
            Direction::NW
        }
    }

    /// The direction slot of this facing.
    pub fn slot(self) -> (s: u8)
        ensures
            s < 8,
            s == match self {
                Direction::N => 0u8,
                Direction::NE => 1u8,
                Direction::E => 2u8,
                Direction::SE => 3u8,
                Direction::S => 4u8,
                Direction::SW => 5u8,
                Direction::W => 6u8,
                Direction::NW => 7u8,
            },
    {
        match self {
            Direction::N => 0,
            Direction::NE => 1,
            Direction::E => 2,
            Direction::SE => 3,
            Direction::S => 4,
            Direction::SW => 5,
            Direction::W => 6,
            Direction::NW => 7,
        }
    }
}

/// Each axis points at its own compass point, and a vector scaled up keeps its facing.
pub proof fn lemma_cardinals(k: int)
    requires
        k > 0,
    ensures
        octant(k, 0) == Direction::E,
        octant(0, k) == Direction::S,
        octant(-k, 0) == Direction::W,
        octant(0, -k) == Direction::N,
{
    assert(k * k > 0) by (nonlinear_arith)
        requires
            k > 0,
    ;
    assert(near_axis(k, 0)) by {
        assert((0 + k) * (0 + k) < 2 * (k * k)) by (nonlinear_arith)
            requires
                k > 0,
        ;
    }
    assert(near_axis(-(-k), 0));
}

/// A whole-tile vector or position; `y` grows southward.
#[derive(Clone, Copy, PartialEq, Eq, Structural, Debug)]
pub struct Pos {
    pub x: i64,
    pub y: i64,
}

/// `r` is the whole part of the square root of `n`.
pub open spec fn is_isqrt(n: int, r: int) -> bool {
    0 <= r && r * r <= n < (r + 1) * (r + 1)
}

/// The whole part of the square root of `n`.
pub fn isqrt(n: u64) -> (r: u64)
    ensures
        is_isqrt(n as int, r as int),
{
    let mut lo: u64 = 0;
    let mut hi: u64 = 4294967296;
    proof {
        assert(4294967296 * 4294967296 > u64::MAX) by (nonlinear_arith);
    }
    while hi - lo > 1
        invariant
            lo < hi <= 4294967296,
            lo * lo <= n,
            n < hi * hi,
        decreases hi - lo,
    {
        let mid = lo + (hi - lo) / 2;
        proof {
            assert(mid * mid <= 4294967295 * 4294967295) by (nonlinear_arith)
                requires
                    mid <= 4294967295,
            ;
        }
        if mid * mid <= n {
            lo = mid;
        } else {
            hi = mid;
        }
    }
    lo
}

impl Pos {
    pub fn new(x: i64, y: i64) -> (p: Pos)
        ensures
            p == (Pos { x, y }),
    {
        Pos { x, y }
    }

    /// The sum of two vectors.
    pub fn plus(self, other: Pos) -> (p: Pos)
        requires
            -MAX_COMPONENT <= self.x <= MAX_COMPONENT,
            -MAX_COMPONENT <= self.y <= MAX_COMPONENT,
            -MAX_COMPONENT <= other.x <= MAX_COMPONENT,
            -MAX_COMPONENT <= other.y <= MAX_COMPONENT,
        ensures
            p.x == self.x + other.x,
            p.y == self.y + other.y,
    {
        Pos { x: self.x + other.x, y: self.y + other.y }
    }

    /// The difference of two vectors.
    pub fn minus(self, other: Pos) -> (p: Pos)
        requires
            -MAX_COMPONENT <= self.x <= MAX_COMPONENT,
            -MAX_COMPONENT <= self.y <= MAX_COMPONENT,
            -MAX_COMPONENT <= other.x <= MAX_COMPONENT,
            -MAX_COMPONENT <= other.y <= MAX_COMPONENT,
        ensures
            p.x == self.x - other.x,
            p.y == self.y - other.y,
    {
        Pos { x: self.x - other.x, y: self.y - other.y }
    }

    /// The euclidean length, rounded down to whole tiles.
    pub fn length(self) -> (l: u64)
        requires
            -2 * MAX_COMPONENT <= self.x <= 2 * MAX_COMPONENT,
            -2 * MAX_COMPONENT <= self.y <= 2 * MAX_COMPONENT,
        ensures
            is_isqrt(self.x * self.x + self.y * self.y, l as int),
    {
        proof {
            assert(0 <= self.x * self.x <= 4_000_000_000_000_000_000) by (nonlinear_arith)
                requires
                    -2_000_000_000 <= self.x <= 2_000_000_000,
            ;
            assert(0 <= self.y * self.y <= 4_000_000_000_000_000_000) by (nonlinear_arith)
                requires
                    -2_000_000_000 <= self.y <= 2_000_000_000,
            ;
        }
        let sq: u64 = (self.x * self.x) as u64 + (self.y * self.y) as u64;
        isqrt(sq)
    }

    /// The euclidean distance to `other`, rounded down to whole tiles.
    pub fn distance(self, other: Pos) -> (d: u64)
        requires
            -MAX_COMPONENT <= self.x <= MAX_COMPONENT,
            -MAX_COMPONENT <= self.y <= MAX_COMPONENT,
            -MAX_COMPONENT <= other.x <= MAX_COMPONENT,
            -MAX_COMPONENT <= other.y <= MAX_COMPONENT,
        ensures
            is_isqrt(
                (other.x - self.x) * (other.x - self.x) + (other.y - self.y) * (other.y - self.y),
                d as int,
            ),
    {
        other.minus(self).length()
    }
}

} // verus!
