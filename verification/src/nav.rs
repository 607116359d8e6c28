//! The walkability grid over a map's tiles, and pathfinding across it. A* step costs are
//! fixed-point — one tile = 1000, a diagonal = √2 ≈ 1414 — so search stays deterministic and the
//! octile heuristic is exact. A cell is named by its integer coordinates; callers holding a world
//! position pass the cell it falls in.

use vstd::prelude::*;

verus! {

/// Cost of a step along one axis.
pub const ORTHOGONAL: u64 = 1000;

/// Cost of a diagonal step.
pub const DIAGONAL: u64 = 1414;

/// The longest side a grid may have, so that every cell index fits in an `i32`.
pub const MAX_SIDE: u32 = 46340;

/// The furthest a ring searched around a cell can lie: past the furthest `i32` from the
/// origin, by a grid's longest side.
pub const FAR_REACH: i64 = 2147529988;

/// What a grid is: its dimensions and the row-major walkability of its cells.
pub struct GridView {
    pub width: nat,
    pub height: nat,
    pub walkable: Seq<bool>,
}

impl GridView {
    pub open spec fn wf(self) -> bool {
        &&& self.walkable.len() == self.width * self.height
        &&& self.width <= MAX_SIDE
        &&& self.height <= MAX_SIDE
    }

    pub open spec fn inside(self, x: int, y: int) -> bool {
        0 <= x < self.width && 0 <= y < self.height
    }

    /// Whether the cell (x, y) lies on the grid and is walkable.
    pub open spec fn passable(self, x: int, y: int) -> bool {
        self.inside(x, y) && self.walkable[y * self.width + x]
    }

    /// No walkable cell lies strictly closer than `r` to (fx, fy), in chessboard distance.
    pub open spec fn clear_within(self, fx: int, fy: int, r: int) -> bool {
        forall|x: int, y: int| #[trigger] self.passable(x, y) ==> cheb(x, y, fx, fy) >= r
    }

    /// (x, y) is the walkable cell on the ring of radius `r` around (fx, fy) that the spiral
    /// search settles on: the closest by euclidean distance, ties going to the first in
    /// row-major order.
    pub open spec fn ring_winner(self, fx: int, fy: int, r: int, x: int, y: int) -> bool {
        &&& self.passable(x, y)
        &&& cheb(x, y, fx, fy) == r
        &&& forall|ox: int, oy: int|
            #![trigger self.passable(ox, oy)]
            self.passable(ox, oy) && cheb(ox, oy, fx, fy) == r ==> ranks_first(
                x,
                y,
                ox,
                oy,
                fx,
                fy,
            )
    }

    /// `r` is what the spiral search from (x, y) finds: (x, y) itself when walkable, else the
    /// winner of the first ring holding a walkable cell, or nothing when no cell of the grid is
    /// walkable.
    pub open spec fn settles(self, x: int, y: int, r: Option<(i32, i32)>) -> bool {
        &&& self.passable(x, y) ==> r == Some((x as i32, y as i32))
        &&& !self.passable(x, y) ==> match r {
            Some(c) => {
                let rad = cheb(c.0 as int, c.1 as int, x, y);
                &&& 1 <= rad
                &&& self.clear_within(x, y, rad)
                &&& self.ring_winner(x, y, rad, c.0 as int, c.1 as int)
            },
            None => forall|cx: int, cy: int| !#[trigger] self.passable(cx, cy),
        }
    }

    /// A sequence of cells walkable end to end in 8-connected steps from `start` to `goal`,
    /// never visiting a cell twice.
    pub open spec fn is_route(self, p: Seq<(i32, i32)>, start: (i32, i32), goal: (i32, i32)) -> bool {
        &&& p.len() >= 1
        &&& p[0] == start
        &&& p.last() == goal
        &&& forall|i: int| 0 <= i < p.len() ==> self.passable(#[trigger] p[i].0 as int, p[i].1 as int)
        &&& forall|i: int| 0 <= i < p.len() - 1 ==> adjacent(#[trigger] p[i], p[i + 1])
        &&& forall|i: int, j: int| 0 <= i < j < p.len() ==> #[trigger] p[i] != #[trigger] p[j]
    }
}

pub open spec fn abs(v: int) -> int {
    if v < 0 { -v } else { v }
}

/// Chessboard distance between two cells.
pub open spec fn cheb(ax: int, ay: int, bx: int, by: int) -> int {
    let dx = abs(ax - bx);
    let dy = abs(ay - by);
    if dx >= dy { dx } else { dy }
}

/// Squared euclidean distance between two cells.
pub open spec fn dist2(ax: int, ay: int, bx: int, by: int) -> int {
    (ax - bx) * (ax - bx) + (ay - by) * (ay - by)
}

/// (ax, ay) is at least as close to (fx, fy) as (bx, by), and comes first in row-major order on
/// a tie.
pub open spec fn ranks_first(ax: int, ay: int, bx: int, by: int, fx: int, fy: int) -> bool {
    ||| dist2(ax, ay, fx, fy) < dist2(bx, by, fx, fy)
    ||| dist2(ax, ay, fx, fy) == dist2(bx, by, fx, fy) && (ay < by || (ay == by && ax <= bx))
}

/// Two distinct cells that touch, orthogonally or diagonally.
pub open spec fn adjacent(a: (i32, i32), b: (i32, i32)) -> bool {
    &&& a != b
    &&& abs(a.0 - b.0) <= 1
    &&& abs(a.1 - b.1) <= 1
}

pub open spec fn step_cost(a: (i32, i32), b: (i32, i32)) -> int {
    if a.0 != b.0 && a.1 != b.1 { DIAGONAL as int } else { ORTHOGONAL as int }
}

/// The total step cost of walking a route.
pub open spec fn path_cost(p: Seq<(i32, i32)>) -> int
    decreases p.len(),
{
    if p.len() <= 1 {
        0
    } else {
        path_cost(p.drop_last()) + step_cost(p[p.len() - 2], p[p.len() - 1])
    }
}

/// A route between two cells of minimal total cost.
pub open spec fn is_shortest(g: GridView, p: Seq<(i32, i32)>, start: (i32, i32), goal: (i32, i32)) -> bool {
    &&& g.is_route(p, start, goal)
    &&& forall|q: Seq<(i32, i32)>| #[trigger] g.is_route(q, start, goal) ==> path_cost(p) <= path_cost(q)
}

pub open spec fn reachable(g: GridView, start: (i32, i32), goal: (i32, i32)) -> bool {
    exists|q: Seq<(i32, i32)>| #[trigger] g.is_route(q, start, goal)
}

/// A walkability grid in tile space.
pub struct Grid {
    width: u32,
    height: u32,
    walkable: Vec<bool>,
}

impl Clone for Grid {
    fn clone(&self) -> (g: Self)
        ensures
            g@ == self@,
    {
        proof {
            use_type_invariant(self);
        }
        let walkable = self.walkable.clone();
        assert(walkable@ =~= self.walkable@);
        Grid { width: self.width, height: self.height, walkable }
    }
}

impl View for Grid {
    type V = GridView;

    closed spec fn view(&self) -> GridView {
        GridView { width: self.width as nat, height: self.height as nat, walkable: self.walkable@ }
    }
}

proof fn lemma_index_in_bounds(x: int, y: int, w: int, h: int)
    requires
        0 <= x < w,
        0 <= y < h,
    ensures
        0 <= y * w + x < w * h,
{
    assert(y * w <= (h - 1) * w) by (nonlinear_arith)
        requires
            0 <= y <= h - 1,
            0 <= w,
    ;
    assert((h - 1) * w + w == h * w) by (nonlinear_arith);
    assert(0 <= y * w) by (nonlinear_arith)
        requires
            0 <= y,
            0 <= w,
    ;
}

proof fn lemma_side_product(w: int, h: int)
    requires
        0 <= w <= MAX_SIDE,
        0 <= h <= MAX_SIDE,
    ensures
        w * h <= 46340 * 46340,
{
    assert(w * h <= 46340 * 46340) by (nonlinear_arith)
        requires
            0 <= w <= 46340,
            0 <= h <= 46340,
    ;
}

impl Grid {
    #[verifier::type_invariant]
    closed spec fn inv(self) -> bool {
        self@.wf()
    }

    /// A grid of `width` by `height` cells whose row-major walkability is `walkable`.
    pub fn new(width: u32, height: u32, walkable: Vec<bool>) -> (g: Grid)
        requires
            walkable@.len() == width * height,
            width <= MAX_SIDE,
            height <= MAX_SIDE,
        ensures
            g@ == (GridView { width: width as nat, height: height as nat, walkable: walkable@ }),
    {
        Grid { width, height, walkable }
    }

    pub fn size(&self) -> (s: (u32, u32))
        ensures
            s.0 == self@.width,
            s.1 == self@.height,
            self@.wf(),
    {
        proof {
            use_type_invariant(self);
        }
        (self.width, self.height)
    }

    /// Whether the cell (x, y) is walkable; cells off the grid never are.
    pub fn walkable(&self, x: i32, y: i32) -> (b: bool)
        ensures
            b == self@.passable(x as int, y as int),
    {
        self.cell_walkable((x, y))
    }

    fn dims(&self) -> (d: (i32, i32))
        ensures
            d.0 == self@.width,
            d.1 == self@.height,
            self@.wf(),
    {
        proof {
            use_type_invariant(self);
        }
        (self.width as i32, self.height as i32)
    }

    fn cell_walkable(&self, c: (i32, i32)) -> (b: bool)
        ensures
            b == self@.passable(c.0 as int, c.1 as int),
    {
        let (width, height) = self.dims();
        if c.0 >= 0 && c.1 >= 0 && c.0 < width && c.1 < height {
            proof {
                lemma_index_in_bounds(c.0 as int, c.1 as int, width as int, height as int);
                lemma_side_product(width as int, height as int);
            }
            let index: i32 = c.1 * width + c.0;
            self.walkable[index as usize]
        } else {
            false
        }
    }

    /// The nearest walkable cell, spiralling outward ring by ring in chessboard distance and
    /// taking the euclidean-closest cell of the first ring that has one (row-major first on a
    /// tie); `None` only when no cell of the grid is walkable.
    pub fn nearest_walkable(&self, x: i32, y: i32) -> (r: Option<(i32, i32)>)
        ensures
            self@.settles(x as int, y as int, r),
    {
        let from = (x, y);
        if self.cell_walkable(from) {
            return Some(from);
        }
        let (width, height) = self.dims();
        let ghost g = self@;
        let ax: i64 = if x < 0 { -(x as i64) } else { x as i64 };
        let ay: i64 = if y < 0 { -(y as i64) } else { y as i64 };
        let side: i64 = if width >= height { width as i64 } else { height as i64 };
        // Every cell of the grid lies within this chessboard distance of (x, y).
        let reach: i64 = (if ax >= ay { ax } else { ay }) + side;
        // No ring nearer than the grid itself can hold a cell: start at the first that can.
        let gap_x: i64 = if x < 0 { -(x as i64) } else if (x as i64) >= (width as i64) { (x as i64) - (width as i64) + 1 } else { 0 };
        let gap_y: i64 = if y < 0 { -(y as i64) } else if (y as i64) >= (height as i64) { (y as i64) - (height as i64) + 1 } else { 0 };
        let gap: i64 = if gap_x >= gap_y { gap_x } else { gap_y };
        let first: i64 = if gap >= 1 { gap } else { 1 };
        let mut radius: i64 = if first <= reach { first } else { reach + 1 };
        proof {
            assert forall|cx: int, cy: int| #[trigger] g.passable(cx, cy) implies cheb(cx, cy, x as int, y as int)
                < reach + 1 by {}
            assert forall|cx: int, cy: int| #[trigger] g.passable(cx, cy) implies cheb(cx, cy, x as int, y as int)
                >= radius by {
                assert(abs(cx - x) >= gap_x && abs(cy - y) >= gap_y);
                if cx == x && cy == y {
                }
            }
        }
        while radius <= reach
            invariant
                g == self@,
                g.wf(),
                !g.passable(x as int, y as int),
                width == g.width,
                height == g.height,
                0 <= reach <= FAR_REACH,
                1 <= radius <= reach + 1,
                g.clear_within(x as int, y as int, radius as int),
                forall|cx: int, cy: int| #[trigger] g.passable(cx, cy) ==> cheb(cx, cy, x as int, y as int) < reach + 1,
            decreases reach - radius + 1,
        {
            let mut best: Option<(i32, i32)> = None;
            let mut best_d2: i128 = i128::MAX;
            let lo_y: i64 = if (y as i64) - radius > 0 { (y as i64) - radius } else { 0 };
            let hi_y: i64 = if (y as i64) + radius < (height as i64) - 1 { (y as i64) + radius } else { (height as i64) - 1 };
            let lo_x: i64 = if (x as i64) - radius > 0 { (x as i64) - radius } else { 0 };
            let hi_x: i64 = if (x as i64) + radius < (width as i64) - 1 { (x as i64) + radius } else { (width as i64) - 1 };
            let mut ny: i64 = lo_y;
            while ny <= hi_y
                invariant
                    g == self@,
                    g.wf(),
                    width == g.width,
                    height == g.height,
                    1 <= radius <= FAR_REACH,
                    lo_y == (if y - radius > 0 { y - radius } else { 0 }),
                    hi_y == (if y + radius < height - 1 { y + radius } else { height - 1 }),
                    lo_x == (if x - radius > 0 { x - radius } else { 0 }),
                    hi_x == (if x + radius < width - 1 { x + radius } else { width - 1 }),
                    lo_y <= ny,
                    ny <= hi_y + 1 || ny == lo_y,
                    g.clear_within(x as int, y as int, radius as int),
                    !g.passable(x as int, y as int),
                    match best {
                        None => best_d2 == i128::MAX && forall|ox: int, oy: int|
                            #![trigger g.passable(ox, oy)]
                            g.passable(ox, oy) && cheb(ox, oy, x as int, y as int) == radius
                                && oy < ny ==> false,
                        Some(b) => {
                            &&& g.passable(b.0 as int, b.1 as int)
                            &&& cheb(b.0 as int, b.1 as int, x as int, y as int) == radius
                            &&& best_d2 == dist2(b.0 as int, b.1 as int, x as int, y as int)
                            &&& b.1 < ny
                            &&& forall|ox: int, oy: int|
                                #![trigger g.passable(ox, oy)]
                                g.passable(ox, oy) && cheb(ox, oy, x as int, y as int) == radius
                                    && oy < ny ==> ranks_first(
                                    b.0 as int,
                                    b.1 as int,
                                    ox,
                                    oy,
                                    x as int,
                                    y as int,
                                )
                        },
                    },
                decreases hi_y + 1 - ny,
            {
                let mut nx: i64 = lo_x;
                while nx <= hi_x
                    invariant
                        g == self@,
                        g.wf(),
                        width == g.width,
                        height == g.height,
                        1 <= radius <= FAR_REACH,
                        lo_x == (if x - radius > 0 { x - radius } else { 0 }),
                        hi_x == (if x + radius < width - 1 { x + radius } else { width - 1 }),
                        lo_y <= ny <= hi_y,
                        lo_y == (if y - radius > 0 { y - radius } else { 0 }),
                        hi_y == (if y + radius < height - 1 { y + radius } else { height - 1 }),
                        lo_x <= nx,
                        nx <= hi_x + 1 || nx == lo_x,
                        match best {
                            None => best_d2 == i128::MAX && forall|ox: int, oy: int|
                                #![trigger g.passable(ox, oy)]
                                g.passable(ox, oy) && cheb(ox, oy, x as int, y as int) == radius
                                    && (oy < ny || (oy == ny && ox < nx)) ==> false,
                            Some(b) => {
                                &&& g.passable(b.0 as int, b.1 as int)
                                &&& cheb(b.0 as int, b.1 as int, x as int, y as int) == radius
                                &&& best_d2 == dist2(b.0 as int, b.1 as int, x as int, y as int)
                                &&& (b.1 < ny || (b.1 == ny && b.0 < nx))
                                &&& forall|ox: int, oy: int|
                                    #![trigger g.passable(ox, oy)]
                                    g.passable(ox, oy) && cheb(ox, oy, x as int, y as int)
                                        == radius && (oy < ny || (oy == ny && ox < nx))
                                        ==> ranks_first(
                                        b.0 as int,
                                        b.1 as int,
                                        ox,
                                        oy,
                                        x as int,
                                        y as int,
                                    )
                            },
                        },
                    decreases hi_x + 1 - nx,
                {
                    let dx: i64 = nx - (x as i64);
                    let dy: i64 = ny - (y as i64);
                    if dx == radius || dx == -radius || dy == radius || dy == -radius {
                        proof {
                            lemma_square_far(dx as int);
                            lemma_square_far(dy as int);
                        }
                        let d2: i128 = (dx as i128) * (dx as i128) + (dy as i128) * (dy as i128);
                        assert(d2 == dist2(nx as int, ny as int, x as int, y as int));
                        let open = self.cell_walkable((nx as i32, ny as i32));
                        if open && d2 < best_d2 {
                            best_d2 = d2;
                            best = Some((nx as i32, ny as i32));
                        }
                    } else {
                        assert(cheb(nx as int, ny as int, x as int, y as int) < radius);
                    }
                    nx = nx + 1;
                }
                ny = ny + 1;
            }
            if let Some(b) = best {
                return Some(b);
            }
            radius = radius + 1;
        }
        None
    }
}

proof fn lemma_square_far(d: int)
    requires
        -FAR_REACH <= d <= FAR_REACH,
    ensures
        0 <= d * d <= 0x4001_0000_0000_0000,
{
    assert(0 <= d * d <= 0x4001_0000_0000_0000) by (nonlinear_arith)
        requires
            -2147529988 <= d <= 2147529988,
    ;
}

/// The eight neighbouring offsets, orthogonal ones first.
pub open spec fn neighbour_offset(k: int) -> (int, int) {
    if k == 0 {
        (1, 0)
    } else if k == 1 {
        (-1, 0)
    } else if k == 2 {
        (0, 1)
    } else if k == 3 {
        (0, -1)
    } else if k == 4 {
        (1, 1)
    } else if k == 5 {
        (1, -1)
    } else if k == 6 {
        (-1, 1)
    } else {
        (-1, -1)
    }
}

fn offset(k: usize) -> (o: (i64, i64))
    requires
        k < 8,
    ensures
        o.0 == neighbour_offset(k as int).0,
        o.1 == neighbour_offset(k as int).1,
{
    if k == 0 {
        (1, 0)
    } else if k == 1 {
        (-1, 0)
    } else if k == 2 {
        (0, 1)
    } else if k == 3 {
        (0, -1)
    } else if k == 4 {
        (1, 1)
    } else if k == 5 {
        (1, -1)
    } else if k == 6 {
        (-1, 1)
    } else {
        (-1, -1)
    }
}

/// The walkable cells touching `c`, with the cost of stepping onto each, in the fixed
/// neighbour order.
pub fn neighbours(grid: &Grid, c: (i32, i32)) -> (out: Vec<((i32, i32), u64)>)
    ensures
        forall|i: int|
            0 <= i < out@.len() ==> {
                let (n, cost) = #[trigger] out@[i];
                &&& adjacent(c, n)
                &&& grid@.passable(n.0 as int, n.1 as int)
                &&& cost == step_cost(c, n)
            },
        forall|n: (i32, i32)|
            adjacent(c, n) && #[trigger] grid@.passable(n.0 as int, n.1 as int) ==> exists|i: int|
                0 <= i < out@.len() && (#[trigger] out@[i]).0 == n,
{
    proof {
        use_type_invariant(grid);
    }
    let mut out: Vec<((i32, i32), u64)> = Vec::new();
    let mut k: usize = 0;
    while k < 8
        invariant
            grid@.wf(),
            k <= 8,
            forall|i: int|
                0 <= i < out@.len() ==> {
                    let (n, cost) = #[trigger] out@[i];
                    &&& adjacent(c, n)
                    &&& grid@.passable(n.0 as int, n.1 as int)
                    &&& cost == step_cost(c, n)
                },
            forall|j: int|
                #![trigger neighbour_offset(j)]
                0 <= j < k ==> {
                    let n = (c.0 + neighbour_offset(j).0, c.1 + neighbour_offset(j).1);
                    grid@.passable(n.0, n.1) ==> exists|i: int|
                        0 <= i < out@.len() && (#[trigger] out@[i]).0.0 == n.0 && out@[i].0.1
                            == n.1
                },
        decreases 8 - k,
    {
        let (dx, dy) = offset(k);
        let nx: i64 = c.0 as i64 + dx;
        let ny: i64 = c.1 as i64 + dy;
        let ghost m = (c.0 + neighbour_offset(k as int).0, c.1 + neighbour_offset(k as int).1);
        let ghost before = out@;
        if nx >= 0 && ny >= 0 && nx <= MAX_SIDE as i64 && ny <= MAX_SIDE as i64 {
            let n = (nx as i32, ny as i32);
            if grid.walkable(n.0, n.1) {
                let cost: u64 = if dx != 0 && dy != 0 { DIAGONAL } else { ORTHOGONAL };
                out.push((n, cost));
                proof {
                    let last = out@.len() - 1;
                    assert(out@[last].0 == n);
                }
            }
        }
        proof {
            assert forall|i: int| 0 <= i < before.len() implies #[trigger] out@[i] == before[i] by {}
            assert forall|j: int|
                #![trigger neighbour_offset(j)]
                0 <= j < k + 1 implies {
                    let q = (c.0 + neighbour_offset(j).0, c.1 + neighbour_offset(j).1);
                    grid@.passable(q.0, q.1) ==> exists|i: int|
                        0 <= i < out@.len() && (#[trigger] out@[i]).0.0 == q.0 && out@[i].0.1
                            == q.1
                } by {
                let q = (c.0 + neighbour_offset(j).0, c.1 + neighbour_offset(j).1);
                if j < k && grid@.passable(q.0, q.1) {
                    let i = choose|i: int|
                        0 <= i < before.len() && (#[trigger] before[i]).0.0 == q.0 && before[i].0.1 == q.1;
                    assert(out@[i] == before[i]);
                } else if j == k && grid@.passable(q.0, q.1) {
                    assert(q == m);
                    let last = out@.len() - 1;
                    assert(out@[last].0.0 == q.0);
                }
            }
        }
        k = k + 1;
    }
    proof {
        assert forall|n: (i32, i32)|
            adjacent(c, n) && #[trigger] grid@.passable(n.0 as int, n.1 as int) implies exists|i: int|
                0 <= i < out@.len() && (#[trigger] out@[i]).0 == n by {
            let dx = n.0 - c.0;
            let dy = n.1 - c.1;
            let j: int = if dx == 1 && dy == 0 {
                0
            } else if dx == -1 && dy == 0 {
                1
            } else if dx == 0 && dy == 1 {
                2
            } else if dx == 0 && dy == -1 {
                3
            } else if dx == 1 && dy == 1 {
                4
            } else if dx == 1 && dy == -1 {
                5
            } else if dx == -1 && dy == 1 {
                6
            } else {
                7
            };
            assert(c.0 + neighbour_offset(j).0 == n.0 && c.1 + neighbour_offset(j).1 == n.1);
            let i = choose|i: int|
                0 <= i < out@.len() && (#[trigger] out@[i]).0.0 == n.0 && out@[i].0.1 == n.1;
            assert(out@[i].0 == n);
        }
    }
    out
}

/// The octile distance from `c` to `goal` in step-cost units: the cost of the cheapest route
/// between them on an open grid.
pub fn octile(c: (i32, i32), goal: (i32, i32)) -> (h: u64)
    ensures
        h == {
            let dx = abs(c.0 - goal.0);
            let dy = abs(c.1 - goal.1);
            let lo = if dx <= dy { dx } else { dy };
            let hi = if dx <= dy { dy } else { dx };
            (hi - lo) * ORTHOGONAL + lo * DIAGONAL
        },
{
    let dx: i64 = if c.0 >= goal.0 { c.0 as i64 - goal.0 as i64 } else { goal.0 as i64 - c.0 as i64 };
    let dy: i64 = if c.1 >= goal.1 { c.1 as i64 - goal.1 as i64 } else { goal.1 as i64 - c.1 as i64 };
    let lo: u64 = if dx <= dy { dx as u64 } else { dy as u64 };
    let hi: u64 = if dx <= dy { dy as u64 } else { dx as u64 };
    assert(hi <= 4294967296);
    assert(lo <= hi);
    (hi - lo) * ORTHOGONAL + lo * DIAGONAL
}

/// Whether the search has reached `goal`.
pub fn same_cell(c: (i32, i32), goal: (i32, i32)) -> (b: bool)
    ensures
        b == (c == goal),
{
    c.0 == goal.0 && c.1 == goal.1
}

/// Runs `pathfinding::prelude::astar` from `start` toward `goal` over the walkable
/// 8-neighbourhood with orthogonal steps costing 1000 and diagonal ones 1414, guided by the
/// octile distance. The crate's documentation promises, for a heuristic that never overestimates
/// (the octile distance is the exact cost on an open grid, so it never does), the cheapest path
/// from `start` to a node accepted by `success`, with its total cost, holding both ends and no
/// node twice, and `None` when no path exists. Which of several equally cheap routes comes back is
/// left unsaid.
#[verifier::external_body]
fn search(grid: &Grid, start: (i32, i32), goal: (i32, i32)) -> (r: Option<(Vec<(i32, i32)>, u64)>)
    requires
        grid@.passable(start.0 as int, start.1 as int),
        grid@.passable(goal.0 as int, goal.1 as int),
    ensures
        r matches Some((p, cost)) ==> is_shortest(grid@, p@, start, goal) && cost == path_cost(p@),
        r is None ==> !reachable(grid@, start, goal),
{
    pathfinding::prelude::astar(
        &start,
        |&n: &(i32, i32)| neighbours(grid, n),
        |&n: &(i32, i32)| octile(n, goal),
        |&n: &(i32, i32)| same_cell(n, goal),
    )
}

/// The cheapest 8-connected path from `start` to `goal` as cells, both inclusive; `None` when
/// either end is blocked or no route exists.
pub fn astar(grid: &Grid, start: (i32, i32), goal: (i32, i32)) -> (r: Option<Vec<(i32, i32)>>)
    ensures
        !grid@.passable(start.0 as int, start.1 as int) || !grid@.passable(goal.0 as int, goal.1 as int)
            ==> r is None,
        r is None <==> !reachable(grid@, start, goal),
        r matches Some(p) ==> is_shortest(grid@, p@, start, goal),
{
    if !grid.walkable(start.0, start.1) || !grid.walkable(goal.0, goal.1) {
        proof {
            assert forall|q: Seq<(i32, i32)>| !#[trigger] grid@.is_route(q, start, goal) by {
                if grid@.is_route(q, start, goal) {
                    assert(grid@.passable(q[0].0 as int, q[0].1 as int));
                    let last = q.len() - 1;
                    assert(grid@.passable(q[last].0 as int, q[last].1 as int));
                }
            }
        }
        return None;
    }
    match search(grid, start, goal) {
        Some((path, _cost)) => Some(path),
        None => None,
    }
}

/// The steps an actor at `at` takes toward `goal`: the goal moves to its nearest walkable cell,
/// and the route there drops the cell the actor already stands on unless it is the only one.
pub fn route(grid: &Grid, at: (i32, i32), goal: (i32, i32)) -> (r: Option<Vec<(i32, i32)>>)
    ensures
        exists|t: Option<(i32, i32)>|
            #[trigger] grid@.settles(goal.0 as int, goal.1 as int, t) && match t {
                None => r is None,
                Some(c) => {
                    &&& (r is Some <==> reachable(grid@, at, c))
                    &&& r matches Some(p) ==> exists|full: Seq<(i32, i32)>|
                        #[trigger] is_shortest(grid@, full, at, c) && p@ == (if full.len() > 1 {
                            full.drop_first()
                        } else {
                            full
                        })
                },
            },
{
    let nearest = grid.nearest_walkable(goal.0, goal.1);
    let target = match nearest {
        Some(t) => t,
        None => return None,
    };
    let mut path = match astar(grid, at, target) {
        Some(p) => p,
        None => return None,
    };
    let ghost full = path@;
    if path.len() > 1 {
        path.remove(0);
        assert(path@ =~= full.drop_first());
    }
    assert(is_shortest(grid@, full, at, target));
    Some(path)
}

/// The octile distance between two cells in step-cost units: diagonal steps while both
/// coordinates differ, then straight ones.
pub open spec fn octile_of(a: (i32, i32), b: (i32, i32)) -> int {
    let dx = abs(a.0 - b.0);
    let dy = abs(a.1 - b.1);
    let lo = if dx <= dy { dx } else { dy };
    let hi = if dx <= dy { dy } else { dx };
    (hi - lo) * ORTHOGONAL + lo * DIAGONAL
}

proof fn lemma_octile_step(a: (i32, i32), m: (i32, i32), e: (i32, i32))
    requires
        adjacent(m, e),
    ensures
        octile_of(a, e) <= octile_of(a, m) + step_cost(m, e),
{
}

/// The octile distance never overestimates: every walk of adjacent steps from one cell to
/// another costs at least the octile distance between them, which is what keeps the A* search
/// exact.
pub proof fn lemma_octile_admissible(p: Seq<(i32, i32)>)
    requires
        p.len() >= 1,
        forall|i: int| 0 <= i < p.len() - 1 ==> adjacent(#[trigger] p[i], p[i + 1]),
    ensures
        octile_of(p[0], p.last()) <= path_cost(p),
    decreases p.len(),
{
    if p.len() > 1 {
        let q = p.drop_last();
        assert forall|i: int| 0 <= i < q.len() - 1 implies adjacent(#[trigger] q[i], q[i + 1]) by {
            assert(q[i] == p[i] && q[i + 1] == p[i + 1]);
        }
        lemma_octile_admissible(q);
        assert(adjacent(p[p.len() - 2], p[p.len() - 1]));
        lemma_octile_step(p[0], p[p.len() - 2], p[p.len() - 1]);
    }
}

/// From any cell, on the grid or off it, the spiral search comes back empty exactly when no cell
/// of the grid is walkable; what it finds is walkable.
pub proof fn lemma_nearest_none_iff_blocked(g: GridView, x: int, y: int, r: Option<(i32, i32)>)
    requires
        g.wf(),
        g.settles(x, y, r),
    ensures
        r is None <==> forall|cx: int, cy: int| !#[trigger] g.passable(cx, cy),
        r matches Some(c) ==> g.passable(c.0 as int, c.1 as int),
{
    if let Some(c) = r {
        if !g.passable(x, y) {
            assert(g.ring_winner(x, y, cheb(c.0 as int, c.1 as int, x, y), c.0 as int, c.1 as int));
        }
        assert(g.passable(c.0 as int, c.1 as int));
    }
}

} // verus!
