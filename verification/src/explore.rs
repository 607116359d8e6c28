//! Breadth-first exploration of a map's walkable tiles in four directions: the nearest tile,
//! by steps, that a caller accepts.

use vstd::prelude::*;

use crate::groups::{count_true, lemma_count_le, lemma_count_set, offset4, step4, touching};
use crate::tiles::{lemma_cell_distinct, lemma_cell_index};
use crate::nav::{Grid, GridView, MAX_SIDE};

verus! {

/// `w` walks from `start` in orthogonal steps, every tile after the first walkable.
pub open spec fn is_walk(g: GridView, w: Seq<(int, int)>, start: (int, int)) -> bool {
    &&& w.len() >= 1
    &&& w[0] == start
    &&& forall|s: int|
        #![trigger w[s]]
        1 <= s < w.len() ==> g.passable(w[s].0, w[s].1) && touching(w[s - 1], w[s])
}

/// Some walk of `k` steps leads from `start` to `t`.
pub open spec fn reaches(g: GridView, start: (int, int), t: (int, int), k: int) -> bool {
    exists|w: Seq<(int, int)>| #[trigger] is_walk(g, w, start) && w.len() == k + 1 && w.last() == t
}

/// `t` is `k` steps from `start`, and no fewer.
pub open spec fn steps_to(g: GridView, start: (int, int), t: (int, int), k: int) -> bool {
    &&& reaches(g, start, t, k)
    &&& forall|j: int| 0 <= j < k ==> !#[trigger] reaches(g, start, t, j)
}

/// Whether `accept` marks the walkable tile `p`.
pub open spec fn accepted(g: GridView, accept: Seq<bool>, p: (int, int)) -> bool {
    g.passable(p.0, p.1) && accept[p.1 * g.width + p.0]
}

/// `t` is accepted, and no accepted tile lies fewer steps away, counting only tiles at least
/// `min_depth` steps from `start`.
pub open spec fn nearest_accepted(g: GridView, start: (int, int), min_depth: int, accept: Seq<bool>, t: (int, int)) -> bool {
    &&& accepted(g, accept, t)
    &&& exists|k: int|
        min_depth <= k && #[trigger] steps_to(g, start, t, k) && forall|u: (int, int), j: int|
            min_depth <= j < k && #[trigger] steps_to(g, start, u, j) ==> !accepted(g, accept, u)
}

/// No tile at least `min_depth` steps from `start` is accepted.
pub open spec fn none_accepted(g: GridView, start: (int, int), min_depth: int, accept: Seq<bool>) -> bool {
    forall|u: (int, int), j: int| min_depth <= j && #[trigger] steps_to(g, start, u, j) ==> !accepted(g, accept, u)
}

pub open spec fn tile(q: Seq<((i32, i32), usize)>, i: int) -> (int, int) {
    (q[i].0.0 as int, q[i].0.1 as int)
}

/// Some entry of the queue holds `n` at depth at most `bound`.
spec fn queued(q: Seq<((i32, i32), usize)>, n: (int, int), bound: int) -> bool {
    exists|j: int| 0 <= j < q.len() && tile(q, j) == n && #[trigger] q[j].1 <= bound
}

spec fn idx(g: GridView, p: (int, int)) -> int {
    p.1 * g.width + p.0
}

/// The breadth-first search's state: the queue `q` of (tile, depth) with its head at `h`, the
/// walk that reached each entry, and the mask of queued tiles.
#[verifier::opaque]
spec fn exploring(
    g: GridView,
    start: (i32, i32),
    min_depth: int,
    accept: Seq<bool>,
    q: Seq<((i32, i32), usize)>,
    h: int,
    seen: Seq<bool>,
) -> bool {
    &&& g.wf()
    &&& accept.len() == g.width * g.height
    &&& seen.len() == g.width * g.height
    &&& 1 <= q.len()
    &&& 0 <= h <= q.len()
    &&& q[0] == (start, 0usize)
    &&& forall|i: int|
        #![trigger q[i]]
        0 <= i < q.len() ==> {
            &&& reaches(g, (start.0 as int, start.1 as int), tile(q, i), q[i].1 as int)
            &&& q[i].1 <= i
            &&& (i > 0 ==> g.passable(tile(q, i).0, tile(q, i).1))
        }
    &&& forall|i: int, j: int| 0 <= i < j < q.len() ==> (#[trigger] q[i]).1 <= (#[trigger] q[j]).1
    &&& h < q.len() ==> forall|i: int| 0 <= i < q.len() ==> (#[trigger] q[i]).1 <= q[h].1 + 1
    &&& forall|i: int, j: int| #![trigger q[i], q[j]] 0 <= i < j < q.len() ==> tile(q, i) != tile(q, j)
    &&& forall|p: (int, int)|
        g.inside(p.0, p.1) ==> (seen[#[trigger] idx(g, p)] <==> exists|j: int| 0 <= j < q.len() && tile(q, j) == p)
    &&& forall|i: int, n: (int, int)|
        #![trigger q[i], g.passable(n.0, n.1)]
        0 <= i < h && touching(tile(q, i), n) && g.passable(n.0, n.1) ==> queued(q, n, q[i].1 + 1)
    &&& forall|i: int|
        #![trigger q[i]]
        0 <= i < h ==> !(q[i].1 >= min_depth && accepted(g, accept, tile(q, i)))
}

/// Every cell was found by a finished step before depth `k` ran out: a walk of `k` steps ends at
/// a tile taken off the queue with a depth of at most `k`, as long as `k` is below the depth at
/// the head (or the queue is spent).
proof fn lemma_explored(
    g: GridView,
    start: (i32, i32),
    min_depth: int,
    accept: Seq<bool>,
    q: Seq<((i32, i32), usize)>,
    h: int,
    seen: Seq<bool>,
    u: (int, int),
    k: int,
)
    requires
        exploring(g, start, min_depth, accept, q, h, seen),
        0 <= k,
        reaches(g, (start.0 as int, start.1 as int), u, k),
        h == q.len() || k < q[h].1,
    ensures
        exists|i: int| 0 <= i < h && tile(q, i) == u && #[trigger] q[i].1 <= k,
    decreases k,
{
    reveal(exploring);
    let s = (start.0 as int, start.1 as int);
    let w = choose|w: Seq<(int, int)>| #[trigger] is_walk(g, w, s) && w.len() == k + 1 && w.last() == u;
    if k == 0 {
        assert(tile(q, 0) == s);
        assert(q[0].1 <= k);
        if h < q.len() {
            assert(h != 0);
        }
    } else {
        let v = w[k - 1];
        let pre = w.take(k);
        assert forall|i: int| #![trigger pre[i]] 1 <= i < pre.len() implies g.passable(pre[i].0, pre[i].1)
            && touching(pre[i - 1], pre[i]) by {
            assert(pre[i] == w[i] && pre[i - 1] == w[i - 1]);
        }
        assert(is_walk(g, pre, s));
        assert(pre.last() == v);
        lemma_explored(g, start, min_depth, accept, q, h, seen, v, k - 1);
        let i = choose|i: int| 0 <= i < h && tile(q, i) == v && #[trigger] q[i].1 <= k - 1;
        assert(w[k] == u);
        assert(g.passable(u.0, u.1) && touching(v, u));
        assert(queued(q, u, q[i].1 + 1));
        let j = choose|j: int| 0 <= j < q.len() && tile(q, j) == u && #[trigger] q[j].1 <= q[i].1 + 1;
        if h < q.len() && j >= h {
            assert(q[h].1 <= q[j].1);
        }
        assert(q[j].1 <= k);
    }
}

proof fn lemma_idx(g: GridView, p: (int, int))
    requires
        g.wf(),
        g.inside(p.0, p.1),
    ensures
        0 <= p.1 * g.width <= idx(g, p) < g.width * g.height,
        g.width * g.height <= 46340 * 46340,
{
    lemma_cell_index(p.0, p.1, g.width as int, g.height as int);
    assert(0 <= p.1 * g.width) by (nonlinear_arith)
        requires
            0 <= p.1,
    ;
}

/// What the search reads off its state at the head: the first entry is `start`, later ones are
/// walkable, and a marked tile sits in the queue no more than one step deeper than the head.
proof fn lemma_head(
    g: GridView,
    start: (i32, i32),
    min_depth: int,
    accept: Seq<bool>,
    q: Seq<((i32, i32), usize)>,
    h: int,
    seen: Seq<bool>,
)
    requires
        exploring(g, start, min_depth, accept, q, h, seen),
        h < q.len(),
    ensures
        q[0] == (start, 0usize),
        q[h].1 <= h,
        h > 0 ==> g.passable(tile(q, h).0, tile(q, h).1),
        forall|n: (int, int)|
            g.inside(n.0, n.1) && #[trigger] seen[idx(g, n)] ==> queued(q, n, q[h].1 + 1),
{
    reveal(exploring);
    assert forall|n: (int, int)| g.inside(n.0, n.1) && #[trigger] seen[idx(g, n)] implies queued(
        q,
        n,
        q[h].1 + 1,
    ) by {
        let j = choose|j: int| 0 <= j < q.len() && tile(q, j) == n;
        assert(q[j].1 <= q[h].1 + 1);
    }
}

/// Queuing an unseen walkable neighbour of the head one step deeper.
proof fn lemma_enqueue(
    g: GridView,
    start: (i32, i32),
    min_depth: int,
    accept: Seq<bool>,
    q: Seq<((i32, i32), usize)>,
    h: int,
    seen: Seq<bool>,
    n: (i32, i32),
)
    requires
        exploring(g, start, min_depth, accept, q, h, seen),
        h < q.len(),
        touching(tile(q, h), (n.0 as int, n.1 as int)),
        g.passable(n.0 as int, n.1 as int),
        !seen[idx(g, (n.0 as int, n.1 as int))],
        q.len() < usize::MAX,
    ensures
        exploring(
            g,
            start,
            min_depth,
            accept,
            q.push((n, (q[h].1 + 1) as usize)),
            h,
            seen.update(idx(g, (n.0 as int, n.1 as int)), true),
        ),
{
    reveal(exploring);
    let m = (n.0 as int, n.1 as int);
    let d = q[h].1;
    assert(d <= h);
    let e = (n, (d + 1) as usize);
    let q2 = q.push(e);
    let s2 = seen.update(idx(g, m), true);
    let st = (start.0 as int, start.1 as int);
    lemma_idx(g, m);
    assert(tile(q2, q.len() as int) == m);
    assert forall|j: int| 0 <= j < q.len() implies tile(q, j) != m by {
        if tile(q, j) == m {
            assert(seen[idx(g, m)]);
        }
    }
    assert(reaches(g, st, tile(q, h), d as int));
    let w = choose|w: Seq<(int, int)>| #[trigger] is_walk(g, w, st) && w.len() == d + 1 && w.last() == tile(q, h);
    let w2 = w.push(m);
    assert forall|k: int| #![trigger w2[k]] 1 <= k < w2.len() implies g.passable(w2[k].0, w2[k].1) && touching(
        w2[k - 1],
        w2[k],
    ) by {
        if k < w.len() {
            assert(w2[k] == w[k] && w2[k - 1] == w[k - 1]);
        } else {
            assert(w2[k - 1] == w.last());
        }
    }
    assert(w2[0] == w[0]);
    assert(is_walk(g, w2, st));
    assert(reaches(g, st, m, d + 1));
    assert forall|i: int|
        #![trigger q2[i]]
        0 <= i < q2.len() implies {
            &&& reaches(g, st, tile(q2, i), q2[i].1 as int)
            &&& q2[i].1 <= i
            &&& (i > 0 ==> g.passable(tile(q2, i).0, tile(q2, i).1))
        } by {
        if i < q.len() {
            assert(q2[i] == q[i]);
        }
    }
    assert forall|i: int, j: int| 0 <= i < j < q2.len() implies (#[trigger] q2[i]).1 <= (#[trigger] q2[j]).1 by {
        if j < q.len() {
            assert(q2[i] == q[i] && q2[j] == q[j]);
        } else {
            assert(q2[i] == q[i]);
            assert(q[i].1 <= q[h].1 + 1);
        }
    }
    assert forall|i: int| 0 <= i < q2.len() implies (#[trigger] q2[i]).1 <= q2[h].1 + 1 by {
        if i < q.len() {
            assert(q2[i] == q[i]);
        }
    }
    assert forall|i: int, j: int| #![trigger q2[i], q2[j]] 0 <= i < j < q2.len() implies tile(q2, i) != tile(q2, j) by {
        assert(q2[i] == q[i]);
        if j < q.len() {
            assert(q2[j] == q[j]);
        }
    }
    assert forall|p: (int, int)| g.inside(p.0, p.1) implies (s2[#[trigger] idx(g, p)] <==> exists|j: int|
        0 <= j < q2.len() && tile(q2, j) == p) by {
        lemma_idx(g, p);
        if p == m {
            assert(tile(q2, q.len() as int) == p);
        } else {
            lemma_cell_distinct(p.0, p.1, m.0, m.1, g.width as int);
            if exists|j: int| 0 <= j < q2.len() && tile(q2, j) == p {
                let j = choose|j: int| 0 <= j < q2.len() && tile(q2, j) == p;
                assert(j < q.len());
                assert(q2[j] == q[j]);
            }
            if seen[idx(g, p)] {
                let j = choose|j: int| 0 <= j < q.len() && tile(q, j) == p;
                assert(q2[j] == q[j]);
            }
        }
    }
    assert forall|i: int, c: (int, int)|
        #![trigger q2[i], g.passable(c.0, c.1)]
        0 <= i < h && touching(tile(q2, i), c) && g.passable(c.0, c.1) implies queued(q2, c, q2[i].1 + 1) by {
        assert(q2[i] == q[i]);
        assert(queued(q, c, q[i].1 + 1));
        let j = choose|j: int| 0 <= j < q.len() && tile(q, j) == c && #[trigger] q[j].1 <= q[i].1 + 1;
        assert(q2[j] == q[j]);
    }
    assert forall|i: int| #![trigger q2[i]] 0 <= i < h implies !(q2[i].1 >= min_depth && accepted(
        g,
        accept,
        tile(q2, i),
    )) by {
        assert(q2[i] == q[i]);
    }
}

/// Finishing the head: its four neighbours have been looked at, and it was not the answer.
#[verifier::rlimit(80)]
proof fn lemma_advance(
    g: GridView,
    start: (i32, i32),
    min_depth: int,
    accept: Seq<bool>,
    q: Seq<((i32, i32), usize)>,
    h: int,
    seen: Seq<bool>,
)
    requires
        exploring(g, start, min_depth, accept, q, h, seen),
        h < q.len(),
        forall|d: int|
            0 <= d < 4 && g.passable(step4(tile(q, h), d).0, step4(tile(q, h), d).1) ==> #[trigger] queued(
                q,
                step4(tile(q, h), d),
                q[h].1 + 1,
            ),
        !(q[h].1 >= min_depth && accepted(g, accept, tile(q, h))),
    ensures
        exploring(g, start, min_depth, accept, q, h + 1, seen),
{
    reveal(exploring);
    let t = tile(q, h);
    assert forall|i: int, c: (int, int)|
        #![trigger q[i], g.passable(c.0, c.1)]
        0 <= i < h + 1 && touching(tile(q, i), c) && g.passable(c.0, c.1) implies queued(q, c, q[i].1 + 1) by {
        if i == h {
            if c == step4(t, 0) {
                assert(queued(q, step4(t, 0), q[h].1 + 1));
            } else if c == step4(t, 1) {
                assert(queued(q, step4(t, 1), q[h].1 + 1));
            } else if c == step4(t, 2) {
                assert(queued(q, step4(t, 2), q[h].1 + 1));
            } else {
                assert(c == step4(t, 3));
                assert(queued(q, step4(t, 3), q[h].1 + 1));
            }
        }
    }
    if h + 1 < q.len() {
        assert(q[h].1 <= q[h + 1].1);
        assert forall|i: int| 0 <= i < q.len() implies (#[trigger] q[i]).1 <= q[h + 1].1 + 1 by {
            assert(q[i].1 <= q[h].1 + 1);
        }
    }
}

/// The state a search starts from: `start` queued at depth zero, marked when it is on the grid.
proof fn lemma_start(
    g: GridView,
    start: (i32, i32),
    min_depth: int,
    accept: Seq<bool>,
    seen: Seq<bool>,
)
    requires
        g.wf(),
        accept.len() == g.width * g.height,
        seen.len() == g.width * g.height,
        forall|p: (int, int)|
            g.inside(p.0, p.1) ==> (seen[#[trigger] idx(g, p)] <==> p == (start.0 as int, start.1 as int)),
    ensures
        exploring(g, start, min_depth, accept, seq![(start, 0usize)], 0, seen),
{
    reveal(exploring);
    let st = (start.0 as int, start.1 as int);
    let q = seq![(start, 0usize)];
    let w = seq![st];
    assert(is_walk(g, w, st));
    assert(reaches(g, st, tile(q, 0), 0));
    assert forall|p: (int, int)| g.inside(p.0, p.1) implies (seen[#[trigger] idx(g, p)] <==> exists|j: int|
        0 <= j < q.len() && tile(q, j) == p) by {
        if p == st {
            assert(tile(q, 0) == p);
        }
    }
}

proof fn lemma_queued_push(q: Seq<((i32, i32), usize)>, e: ((i32, i32), usize), n: (int, int), b: int)
    requires
        queued(q, n, b),
    ensures
        queued(q.push(e), n, b),
{
    let j = choose|j: int| 0 <= j < q.len() && tile(q, j) == n && #[trigger] q[j].1 <= b;
    assert(q.push(e)[j] == q[j]);
}

/// The head, when accepted, is the answer: as few steps away as any accepted tile at least
/// `min_depth` steps away.
proof fn lemma_found(
    g: GridView,
    start: (i32, i32),
    min_depth: int,
    accept: Seq<bool>,
    q: Seq<((i32, i32), usize)>,
    h: int,
    seen: Seq<bool>,
)
    requires
        exploring(g, start, min_depth, accept, q, h, seen),
        h < q.len(),
        q[h].1 >= min_depth,
    ensures
        ({
            let st = (start.0 as int, start.1 as int);
            let k = q[h].1 as int;
            &&& steps_to(g, st, tile(q, h), k)
            &&& forall|u: (int, int), j: int|
                min_depth <= j < k && #[trigger] steps_to(g, st, u, j) ==> !accepted(g, accept, u)
        }),
{
    reveal(exploring);
    let st = (start.0 as int, start.1 as int);
    let k = q[h].1 as int;
    assert(reaches(g, st, tile(q, h), k));
    assert forall|j: int| 0 <= j < k implies !#[trigger] reaches(g, st, tile(q, h), j) by {
        if reaches(g, st, tile(q, h), j) {
            lemma_explored(g, start, min_depth, accept, q, h, seen, tile(q, h), j);
            let i = choose|i: int| 0 <= i < h && tile(q, i) == tile(q, h) && #[trigger] q[i].1 <= j;
            assert(tile(q, i) != tile(q, h));
        }
    }
    assert forall|u: (int, int), j: int| min_depth <= j < k && #[trigger] steps_to(g, st, u, j) implies !accepted(
        g,
        accept,
        u,
    ) by {
        lemma_explored(g, start, min_depth, accept, q, h, seen, u, j);
        let i = choose|i: int| 0 <= i < h && tile(q, i) == u && #[trigger] q[i].1 <= j;
        assert(reaches(g, st, tile(q, i), q[i].1 as int));
        if (q[i].1 as int) < j {
            assert(!reaches(g, st, u, q[i].1 as int));
        }
    }
}

/// The answer the search gives when the head is accepted, in the shape its caller states.
proof fn lemma_answer(
    g: GridView,
    start: (i32, i32),
    min_depth: int,
    accept: Seq<bool>,
    q: Seq<((i32, i32), usize)>,
    h: int,
    seen: Seq<bool>,
)
    requires
        exploring(g, start, min_depth, accept, q, h, seen),
        h < q.len(),
        q[h].1 >= min_depth,
        accepted(g, accept, tile(q, h)),
    ensures
        nearest_accepted(g, (start.0 as int, start.1 as int), min_depth, accept, tile(q, h)),
{
    lemma_found(g, start, min_depth, accept, q, h, seen);
    let st = (start.0 as int, start.1 as int);
    assert(steps_to(g, st, tile(q, h), q[h].1 as int));
}

/// A spent queue found every tile that can be reached: none of them accepted and at least
/// `min_depth` steps away.
proof fn lemma_exhausted(
    g: GridView,
    start: (i32, i32),
    min_depth: int,
    accept: Seq<bool>,
    q: Seq<((i32, i32), usize)>,
    seen: Seq<bool>,
)
    requires
        exploring(g, start, min_depth, accept, q, q.len() as int, seen),
    ensures
        none_accepted(g, (start.0 as int, start.1 as int), min_depth, accept),
{
    reveal(exploring);
    let st = (start.0 as int, start.1 as int);
    let h = q.len() as int;
    assert forall|u: (int, int), j: int| min_depth <= j && #[trigger] steps_to(g, st, u, j) implies !accepted(
        g,
        accept,
        u,
    ) by {
        lemma_explored(g, start, min_depth, accept, q, h, seen, u, j);
        let i = choose|i: int| 0 <= i < h && tile(q, i) == u && #[trigger] q[i].1 <= j;
        assert(reaches(g, st, tile(q, i), q[i].1 as int));
        if (q[i].1 as int) < j {
            assert(!reaches(g, st, u, q[i].1 as int));
        }
    }
}

/// The direction of the orthogonal step from `a` to `b`: right 0, left 1, down 2, up 3.
pub open spec fn direction(a: (int, int), b: (int, int)) -> int {
    if b == step4(a, 0) {
        0
    } else if b == step4(a, 1) {
        1
    } else if b == step4(a, 2) {
        2
    } else {
        3
    }
}

/// The directions a walk takes, step by step.
pub open spec fn route(w: Seq<(int, int)>) -> Seq<int> {
    Seq::new((w.len() - 1) as nat, |s: int| direction(w[s], w[s + 1]))
}

/// `a` and `b` agree before position `i`, where `a` has the smaller direction.
pub open spec fn parts_at(a: Seq<int>, b: Seq<int>, i: int) -> bool {
    &&& 0 <= i < a.len()
    &&& a[i] < b[i]
    &&& forall|j: int| 0 <= j < i ==> a[j] == b[j]
}

/// Two routes of one length, `a` first in dictionary order.
pub open spec fn route_before(a: Seq<int>, b: Seq<int>) -> bool {
    a.len() == b.len() && exists|i: int| #[trigger] parts_at(a, b, i)
}

/// Of the accepted tiles `k` steps from `start`, `t` is the one reached by the route that comes
/// first in dictionary order, directions ranked right, left, down, up.
pub open spec fn first_route(g: GridView, start: (int, int), accept: Seq<bool>, t: (int, int), k: int) -> bool {
    exists|wt: Seq<(int, int)>|
        #[trigger] is_walk(g, wt, start) && wt.len() == k + 1 && wt.last() == t && forall|wu: Seq<(int, int)>|
            #[trigger] is_walk(g, wu, start) && wu.len() == k + 1 && wu.last() != t && accepted(g, accept, wu.last())
                && steps_to(g, start, wu.last(), k) ==> route_before(route(wt), route(wu))
}

proof fn lemma_route_trans(a: Seq<int>, b: Seq<int>, c: Seq<int>)
    requires
        a == b || route_before(a, b),
        b == c || route_before(b, c),
        route_before(a, b) || route_before(b, c),
    ensures
        route_before(a, c),
{
    if a != b && b != c {
        let i = choose|i: int| #[trigger] parts_at(a, b, i);
        let j = choose|j: int| #[trigger] parts_at(b, c, j);
        if i < j {
            assert(parts_at(a, c, i));
        } else {
            assert(parts_at(a, c, j));
        }
    }
}

proof fn lemma_route_push(a: Seq<int>, b: Seq<int>, x: int, y: int)
    requires
        a == b && x < y || route_before(a, b),
    ensures
        route_before(a.push(x), b.push(y)),
{
    if route_before(a, b) {
        let i = choose|i: int| #[trigger] parts_at(a, b, i);
        assert(parts_at(a.push(x), b.push(y), i));
    } else {
        assert(parts_at(a.push(x), b.push(y), a.len() as int));
    }
}

proof fn lemma_route_extend(w: Seq<(int, int)>, m: (int, int))
    requires
        w.len() >= 1,
    ensures
        route(w.push(m)) == route(w).push(direction(w.last(), m)),
{
    let w2 = w.push(m);
    assert forall|s: int| 0 <= s < route(w2).len() implies route(w2)[s] == route(w).push(direction(w.last(), m))[s] by {
        if s < w.len() - 1 {
            assert(w2[s] == w[s] && w2[s + 1] == w[s + 1]);
        } else {
            assert(w2[s] == w.last());
        }
    }
    assert(route(w2) =~= route(w).push(direction(w.last(), m)));
}

proof fn lemma_direction(a: (int, int), e: int)
    requires
        0 <= e < 4,
    ensures
        direction(a, step4(a, e)) == e,
        touching(a, step4(a, e)),
{
}

/// The walk to each queued tile, the entry that found it, and the order they were found in:
/// each walk is the first route of its length to its tile, tiles of one depth sit in the order
/// of their routes, and the head has looked in its first `k` directions.
#[verifier::opaque]
spec fn ranked(
    g: GridView,
    start: (int, int),
    q: Seq<((i32, i32), usize)>,
    ws: Seq<Seq<(int, int)>>,
    pr: Seq<int>,
    h: int,
    k: int,
) -> bool {
    &&& ws.len() == q.len()
    &&& pr.len() == q.len()
    &&& forall|i: int|
        #![trigger ws[i]]
        0 <= i < q.len() ==> is_walk(g, ws[i], start) && ws[i].len() == q[i].1 + 1 && ws[i].last() == tile(q, i)
    &&& forall|i: int, w: Seq<(int, int)>|
        0 <= i < q.len() && #[trigger] is_walk(g, w, start) && w.len() == ws[i].len() && w.last() == tile(q, i)
            ==> route(ws[i]) == route(w) || route_before(#[trigger] route(ws[i]), route(w))
    &&& forall|i: int, j: int|
        0 <= i < j < q.len() && q[i].1 == q[j].1 ==> route_before(
            #[trigger] route(ws[i]),
            #[trigger] route(ws[j]),
        )
    &&& forall|j: int|
        #![trigger pr[j]]
        0 < j < q.len() ==> {
            &&& 0 <= pr[j] < j
            &&& pr[j] <= h
            &&& ws[j] == ws[pr[j]].push(tile(q, j))
            &&& q[j].1 == q[pr[j]].1 + 1
            &&& (pr[j] == h ==> direction(tile(q, h), tile(q, j)) < k)
        }
}

/// A walk of as many steps as the head's depth ends at a queued tile no deeper.
proof fn lemma_found_by_head(
    g: GridView,
    start: (i32, i32),
    min_depth: int,
    accept: Seq<bool>,
    q: Seq<((i32, i32), usize)>,
    h: int,
    seen: Seq<bool>,
    u: (int, int),
    k: int,
)
    requires
        exploring(g, start, min_depth, accept, q, h, seen),
        h < q.len(),
        0 <= k <= q[h].1,
        reaches(g, (start.0 as int, start.1 as int), u, k),
    ensures
        exists|j: int| 0 <= j < q.len() && tile(q, j) == u && #[trigger] q[j].1 <= k,
{
    reveal(exploring);
    let s = (start.0 as int, start.1 as int);
    if k < q[h].1 {
        lemma_explored(g, start, min_depth, accept, q, h, seen, u, k);
        let i = choose|i: int| 0 <= i < h && tile(q, i) == u && #[trigger] q[i].1 <= k;
        assert(q[i].1 <= k);
    } else {
        let w = choose|w: Seq<(int, int)>| #[trigger] is_walk(g, w, s) && w.len() == k + 1 && w.last() == u;
        if k == 0 {
            assert(tile(q, 0) == u);
            assert(q[0].1 <= k);
        } else {
            let v = w[k - 1];
            let pre = w.take(k);
            assert forall|i: int| #![trigger pre[i]] 1 <= i < pre.len() implies g.passable(pre[i].0, pre[i].1)
                && touching(pre[i - 1], pre[i]) by {
                assert(pre[i] == w[i] && pre[i - 1] == w[i - 1]);
            }
            assert(is_walk(g, pre, s));
            assert(pre.last() == v);
            lemma_explored(g, start, min_depth, accept, q, h, seen, v, k - 1);
            let i = choose|i: int| 0 <= i < h && tile(q, i) == v && #[trigger] q[i].1 <= k - 1;
            assert(w[k] == u);
            assert(g.passable(u.0, u.1) && touching(v, u));
            assert(queued(q, u, q[i].1 + 1));
            let j = choose|j: int| 0 <= j < q.len() && tile(q, j) == u && #[trigger] q[j].1 <= q[i].1 + 1;
            assert(q[j].1 <= k);
        }
    }
}

/// A tile the search has not met cannot sit next to a finished entry.
proof fn lemma_unseen_apart(
    g: GridView,
    start: (i32, i32),
    min_depth: int,
    accept: Seq<bool>,
    q: Seq<((i32, i32), usize)>,
    h: int,
    seen: Seq<bool>,
    m: (int, int),
    i: int,
)
    requires
        exploring(g, start, min_depth, accept, q, h, seen),
        g.passable(m.0, m.1),
        !seen[idx(g, m)],
        0 <= i < h,
    ensures
        !touching(tile(q, i), m),
{
    reveal(exploring);
    if touching(tile(q, i), m) {
        assert(queued(q, m, q[i].1 + 1));
        let j = choose|j: int| 0 <= j < q.len() && tile(q, j) == m && #[trigger] q[j].1 <= q[i].1 + 1;
        assert(seen[idx(g, m)]);
    }
}

/// No walk to the head's unseen neighbour in direction `k` takes an earlier route than the one
/// through the head.
#[verifier::rlimit(40)]
proof fn lemma_no_earlier_route(
    g: GridView,
    start: (i32, i32),
    min_depth: int,
    accept: Seq<bool>,
    q: Seq<((i32, i32), usize)>,
    h: int,
    seen: Seq<bool>,
    ws: Seq<Seq<(int, int)>>,
    pr: Seq<int>,
    k: int,
    m: (int, int),
    w: Seq<(int, int)>,
)
    requires
        exploring(g, start, min_depth, accept, q, h, seen),
        ranked(g, (start.0 as int, start.1 as int), q, ws, pr, h, k),
        0 <= h < q.len(),
        0 <= k < 4,
        m == step4(tile(q, h), k),
        g.passable(m.0, m.1),
        !seen[idx(g, m)],
        is_walk(g, w, (start.0 as int, start.1 as int)),
        w.len() == q[h].1 + 2,
        w.last() == m,
    ensures
        route(ws[h]).push(k) == route(w) || route_before(route(ws[h]).push(k), route(w)),
{
    let s = (start.0 as int, start.1 as int);
    let d = q[h].1 as int;
    let t = tile(q, h);
    let p = w[d];
    let pre = w.take(d + 1);
    assert forall|i: int| #![trigger pre[i]] 1 <= i < pre.len() implies g.passable(pre[i].0, pre[i].1) && touching(
        pre[i - 1],
        pre[i],
    ) by {
        assert(pre[i] == w[i] && pre[i - 1] == w[i - 1]);
    }
    assert(is_walk(g, pre, s));
    assert(pre.last() == p);
    assert(w[d + 1] == m);
    assert(touching(p, m));
    assert(w =~= pre.push(m));
    lemma_route_extend(pre, m);
    assert forall|j: int| 0 <= j < d implies !#[trigger] reaches(g, s, p, j) by {
        if reaches(g, s, p, j) {
            reveal(exploring);
            lemma_explored(g, start, min_depth, accept, q, h, seen, p, j);
            let i = choose|i: int| 0 <= i < h && tile(q, i) == p && #[trigger] q[i].1 <= j;
            lemma_unseen_apart(g, start, min_depth, accept, q, h, seen, m, i);
        }
    }
    assert(reaches(g, s, p, d));
    lemma_found_by_head(g, start, min_depth, accept, q, h, seen, p, d);
    let jp = choose|jp: int| 0 <= jp < q.len() && tile(q, jp) == p && #[trigger] q[jp].1 <= d;
    assert(reaches(g, s, p, q[jp].1 as int)) by {
        reveal(exploring);
        assert(q[jp] == q[jp]);
    }
    assert(q[jp].1 == d);
    if jp < h {
        lemma_unseen_apart(g, start, min_depth, accept, q, h, seen, m, jp);
    }
    reveal(ranked);
    assert(ws[jp] == ws[jp]);
    assert(route(ws[jp]) == route(pre) || route_before(route(ws[jp]), route(pre)));
    if jp == h {
        lemma_direction(t, k);
        assert(direction(pre.last(), m) == k);
        if route(ws[h]) != route(pre) {
            lemma_route_push(route(ws[h]), route(pre), k, k);
        }
    } else {
        assert(h < jp);
        assert(route_before(route(ws[h]), route(ws[jp])));
        lemma_route_trans(route(ws[h]), route(ws[jp]), route(pre));
        lemma_route_push(route(ws[h]), route(pre), k, direction(pre.last(), m));
    }
}

/// Queuing the head's unseen neighbour in direction `k`, by the walk through the head.
#[verifier::rlimit(60)]
proof fn lemma_ranked_push(
    g: GridView,
    start: (i32, i32),
    min_depth: int,
    accept: Seq<bool>,
    q: Seq<((i32, i32), usize)>,
    h: int,
    seen: Seq<bool>,
    ws: Seq<Seq<(int, int)>>,
    pr: Seq<int>,
    k: int,
    n: (i32, i32),
)
    requires
        exploring(g, start, min_depth, accept, q, h, seen),
        ranked(g, (start.0 as int, start.1 as int), q, ws, pr, h, k),
        0 <= h < q.len(),
        q.len() < usize::MAX,
        0 <= k < 4,
        (n.0 as int, n.1 as int) == step4(tile(q, h), k),
        g.passable(n.0 as int, n.1 as int),
        !seen[idx(g, (n.0 as int, n.1 as int))],
    ensures
        ranked(
            g,
            (start.0 as int, start.1 as int),
            q.push((n, (q[h].1 + 1) as usize)),
            ws.push(ws[h].push((n.0 as int, n.1 as int))),
            pr.push(h),
            h,
            k + 1,
        ),
{
    let s = (start.0 as int, start.1 as int);
    let m = (n.0 as int, n.1 as int);
    let t = tile(q, h);
    let d = q[h].1 as int;
    let l = q.len() as int;
    let q2 = q.push((n, (q[h].1 + 1) as usize));
    let nw = ws[h].push(m);
    let ws2 = ws.push(nw);
    let pr2 = pr.push(h);
    lemma_direction(t, k);
    reveal(ranked);
    assert(ws[h] == ws[h]);
    assert(is_walk(g, ws[h], s) && ws[h].len() == d + 1 && ws[h].last() == t);
    assert(tile(q2, l) == m);
    assert forall|i: int| #![trigger nw[i]] 1 <= i < nw.len() implies g.passable(nw[i].0, nw[i].1) && touching(
        nw[i - 1],
        nw[i],
    ) by {
        if i < ws[h].len() {
            assert(nw[i] == ws[h][i] && nw[i - 1] == ws[h][i - 1]);
        } else {
            assert(nw[i - 1] == ws[h].last());
        }
    }
    assert(nw[0] == ws[h][0]);
    assert(is_walk(g, nw, s));
    lemma_route_extend(ws[h], m);
    assert(route(nw) == route(ws[h]).push(k));
    assert forall|i: int|
        #![trigger ws2[i]]
        0 <= i < q2.len() implies is_walk(g, ws2[i], s) && ws2[i].len() == q2[i].1 + 1 && ws2[i].last() == tile(q2, i) by {
        if i < l {
            assert(ws2[i] == ws[i] && q2[i] == q[i]);
        } else {
            assert(ws2[i] == nw);
            assert(q2[i].1 == d + 1) by {
                reveal(exploring);
            }
        }
    }
    assert forall|i: int, w: Seq<(int, int)>|
        0 <= i < q2.len() && #[trigger] is_walk(g, w, s) && w.len() == ws2[i].len() && w.last() == tile(q2, i)
            implies route(ws2[i]) == route(w) || route_before(#[trigger] route(ws2[i]), route(w)) by {
        if i < l {
            assert(ws2[i] == ws[i] && q2[i] == q[i]);
        } else {
            lemma_no_earlier_route(g, start, min_depth, accept, q, h, seen, ws, pr, k, m, w);
        }
    }
    assert forall|i: int, j: int|
        0 <= i < j < q2.len() && q2[i].1 == q2[j].1 implies route_before(
            #[trigger] route(ws2[i]),
            #[trigger] route(ws2[j]),
        ) by {
        assert(ws2[i] == ws[i] && q2[i] == q[i]);
        if j < l {
            assert(ws2[j] == ws[j] && q2[j] == q[j]);
        } else {
            reveal(exploring);
            assert(q[0] == (start, 0usize));
            assert(i > 0);
            assert(pr[i] == pr[i]);
            let a = pr[i];
            assert(ws[a] == ws[a]);
            lemma_route_extend(ws[a], tile(q, i));
            assert(q[a].1 == d);
            if a < h {
                assert(route_before(route(ws[a]), route(ws[h])));
                lemma_route_push(route(ws[a]), route(ws[h]), direction(tile(q, a), tile(q, i)), k);
            } else {
                lemma_route_push(route(ws[a]), route(ws[h]), direction(tile(q, a), tile(q, i)), k);
            }
        }
    }
    assert forall|j: int|
        #![trigger pr2[j]]
        0 < j < q2.len() implies {
            &&& 0 <= pr2[j] < j
            &&& pr2[j] <= h
            &&& ws2[j] == ws2[pr2[j]].push(tile(q2, j))
            &&& q2[j].1 == q2[pr2[j]].1 + 1
            &&& (pr2[j] == h ==> direction(tile(q2, h), tile(q2, j)) < k + 1)
        } by {
        assert(q2[h] == q[h] && ws2[h] == ws[h]);
        if j < l {
            assert(pr2[j] == pr[j] && ws2[j] == ws[j] && q2[j] == q[j]);
            assert(pr[j] == pr[j]);
            assert(ws2[pr[j]] == ws[pr[j]] && q2[pr[j]] == q[pr[j]]);
        }
    }
}

/// Once the head has looked in all four directions, the next entry is the head.
proof fn lemma_ranked_advance(
    g: GridView,
    start: (int, int),
    q: Seq<((i32, i32), usize)>,
    ws: Seq<Seq<(int, int)>>,
    pr: Seq<int>,
    h: int,
)
    requires
        ranked(g, start, q, ws, pr, h, 4),
    ensures
        ranked(g, start, q, ws, pr, h + 1, 0),
{
    reveal(ranked);
    assert forall|j: int| #![trigger pr[j]] 0 < j < q.len() implies {
        &&& 0 <= pr[j] < j
        &&& pr[j] <= h + 1
        &&& ws[j] == ws[pr[j]].push(tile(q, j))
        &&& q[j].1 == q[pr[j]].1 + 1
        &&& (pr[j] == h + 1 ==> direction(tile(q, h + 1), tile(q, j)) < 0)
    } by {
        assert(pr[j] <= h);
    }
}

/// Looking in direction `k` without queuing anything.
proof fn lemma_ranked_skip(
    g: GridView,
    start: (int, int),
    q: Seq<((i32, i32), usize)>,
    ws: Seq<Seq<(int, int)>>,
    pr: Seq<int>,
    h: int,
    k: int,
)
    requires
        ranked(g, start, q, ws, pr, h, k),
    ensures
        ranked(g, start, q, ws, pr, h, k + 1),
{
    reveal(ranked);
}

/// The search's first entry, `start` by the walk of no steps.
proof fn lemma_ranked_start(g: GridView, start: (i32, i32))
    ensures
        ranked(
            g,
            (start.0 as int, start.1 as int),
            seq![(start, 0usize)],
            seq![seq![(start.0 as int, start.1 as int)]],
            seq![0int],
            0,
            0,
        ),
{
    reveal(ranked);
    let s = (start.0 as int, start.1 as int);
    let q = seq![(start, 0usize)];
    let ws = seq![seq![s]];
    assert(is_walk(g, ws[0], s));
    assert forall|i: int, w: Seq<(int, int)>|
        0 <= i < q.len() && #[trigger] is_walk(g, w, s) && w.len() == ws[i].len() && w.last() == tile(q, i)
            implies route(ws[i]) == route(w) || route_before(#[trigger] route(ws[i]), route(w)) by {
        assert(route(ws[i]) =~= route(w));
    }
}

/// The accepted head is reached by the first route among the accepted tiles as far away.
proof fn lemma_ranked_answer(
    g: GridView,
    start: (i32, i32),
    min_depth: int,
    accept: Seq<bool>,
    q: Seq<((i32, i32), usize)>,
    h: int,
    seen: Seq<bool>,
    ws: Seq<Seq<(int, int)>>,
    pr: Seq<int>,
)
    requires
        exploring(g, start, min_depth, accept, q, h, seen),
        ranked(g, (start.0 as int, start.1 as int), q, ws, pr, h, 0),
        0 <= h < q.len(),
        q[h].1 >= min_depth,
        accepted(g, accept, tile(q, h)),
    ensures
        first_route(g, (start.0 as int, start.1 as int), accept, tile(q, h), q[h].1 as int),
{
    let s = (start.0 as int, start.1 as int);
    let t = tile(q, h);
    let k = q[h].1 as int;
    reveal(ranked);
    let wt = ws[h];
    assert(is_walk(g, wt, s) && wt.len() == k + 1 && wt.last() == t);
    assert forall|wu: Seq<(int, int)>|
        #[trigger] is_walk(g, wu, s) && wu.len() == k + 1 && wu.last() != t && accepted(g, accept, wu.last())
            && steps_to(g, s, wu.last(), k) implies route_before(route(wt), route(wu)) by {
        let u = wu.last();
        lemma_found_by_head(g, start, min_depth, accept, q, h, seen, u, k);
        let ju = choose|ju: int| 0 <= ju < q.len() && tile(q, ju) == u && #[trigger] q[ju].1 <= k;
        assert(reaches(g, s, u, q[ju].1 as int)) by {
            reveal(exploring);
            assert(q[ju] == q[ju]);
        }
        assert(q[ju].1 == k);
        if ju < h {
            reveal(exploring);
            assert(q[ju] == q[ju]);
        }
        assert(h < ju);
        assert(route_before(route(ws[h]), route(ws[ju])));
        assert(ws[ju] == ws[ju]);
        assert(route(ws[ju]) == route(wu) || route_before(route(ws[ju]), route(wu)));
        lemma_route_trans(route(ws[h]), route(ws[ju]), route(wu));
    }
}

/// The tile nearest `start`, in orthogonal steps over walkable tiles, that `accept` marks
/// (row-major, one flag per tile) and that lies at least `min_depth` steps away; searched
/// breadth first, right, left, down, up, so that of the tiles as near the one whose route comes
/// first, directions ranked in that order, wins. `start` itself need not be walkable.
#[verifier::rlimit(60)]
pub fn nearest_tile(grid: &Grid, start: (i32, i32), min_depth: usize, accept: &Vec<bool>) -> (r: Option<(i32, i32)>)
    requires
        min_depth >= 1,
        accept@.len() == grid@.width * grid@.height,
        i32::MIN < start.0 < i32::MAX,
        i32::MIN < start.1 < i32::MAX,
    ensures
        match r {
            Some(t) => nearest_accepted(
                grid@,
                (start.0 as int, start.1 as int),
                min_depth as int,
                accept@,
                (t.0 as int, t.1 as int),
            ),
            None => none_accepted(grid@, (start.0 as int, start.1 as int), min_depth as int, accept@),
        },
        r matches Some(t) ==> forall|k: int|
            #[trigger] steps_to(grid@, (start.0 as int, start.1 as int), (t.0 as int, t.1 as int), k) ==> first_route(
                grid@,
                (start.0 as int, start.1 as int),
                accept@,
                (t.0 as int, t.1 as int),
                k,
            ),
{
    let (w, h) = grid.size();
    let ghost g = grid@;
    let width = w as i32;
    let height = h as i32;
    proof {
        assert(w * h <= 46340 * 46340) by (nonlinear_arith)
            requires
                w <= 46340,
                h <= 46340,
        ;
    }
    let total: usize = (w * h) as usize;
    let mut seen: Vec<bool> = Vec::new();
    let mut i: usize = 0;
    while i < total
        invariant
            i <= total,
            seen@.len() == i,
            forall|j: int| 0 <= j < i ==> !seen@[j],
            count_true(seen@) == 0,
        decreases total - i,
    {
        let ghost before = seen@;
        seen.push(false);
        assert(seen@.drop_last() =~= before);
        i = i + 1;
    }
    let inside = start.0 >= 0 && start.1 >= 0 && start.0 < width && start.1 < height;
    if inside {
        proof {
            lemma_idx(g, (start.0 as int, start.1 as int));
            lemma_count_set(seen@, idx(g, (start.0 as int, start.1 as int)));
        }
        let si: i32 = start.1 * width + start.0;
        seen.set(si as usize, true);
    }
    proof {
        assert forall|p: (int, int)| g.inside(p.0, p.1) implies (seen@[#[trigger] idx(g, p)] <==> p == (
            start.0 as int,
            start.1 as int,
        )) by {
            lemma_idx(g, p);
            if inside && p != (start.0 as int, start.1 as int) {
                lemma_cell_distinct(p.0, p.1, start.0 as int, start.1 as int, g.width as int);
            }
        }
        lemma_start(g, start, min_depth as int, accept@, seen@);
        lemma_count_le(seen@);
    }
    let mut q: Vec<((i32, i32), usize)> = Vec::new();
    q.push((start, 0));
    assert(q@ =~= seq![(start, 0usize)]);
    let ghost st = (start.0 as int, start.1 as int);
    let ghost mut ws: Seq<Seq<(int, int)>> = seq![seq![st]];
    let ghost mut pr: Seq<int> = seq![0int];
    proof {
        lemma_ranked_start(g, start);
    }
    let mut head: usize = 0;
    while head < q.len()
        invariant
            g == grid@,
            g.wf(),
            width == g.width,
            height == g.height,
            total == g.width * g.height,
            min_depth >= 1,
            i32::MIN < start.0 < i32::MAX,
            i32::MIN < start.1 < i32::MAX,
            accept@.len() == total,
            seen@.len() == total,
            total <= 46340 * 46340,
            count_true(seen@) <= total,
            q@.len() <= count_true(seen@) + 1,
            head <= q@.len(),
            exploring(g, start, min_depth as int, accept@, q@, head as int, seen@),
            st == (start.0 as int, start.1 as int),
            ranked(g, st, q@, ws, pr, head as int, 0),
        decreases 2 * (total - count_true(seen@)) + (q@.len() - head),
    {
        let (t, d) = q[head];
        let ghost tp = (t.0 as int, t.1 as int);
        assert(tp == tile(q@, head as int));
        let here = grid.walkable(t.0, t.1);
        if d >= min_depth && here {
            proof {
                lemma_idx(g, tp);
            }
            let ti: i32 = t.1 * width + t.0;
            if accept[ti as usize] {
                proof {
                    lemma_answer(g, start, min_depth as int, accept@, q@, head as int, seen@);
                    lemma_found(g, start, min_depth as int, accept@, q@, head as int, seen@);
                    lemma_ranked_answer(g, start, min_depth as int, accept@, q@, head as int, seen@, ws, pr);
                    assert forall|k: int| #[trigger] steps_to(g, st, tp, k) implies first_route(g, st, accept@, tp, k) by {
                        assert(steps_to(g, st, tp, d as int));
                        if k < d {
                            assert(reaches(g, st, tp, k));
                        } else if k > d {
                            assert(reaches(g, st, tp, d as int));
                        }
                    }
                }
                return Some(t);
            }
        }
        assert(!(d >= min_depth && accepted(g, accept@, tp)));
        proof {
            lemma_head(g, start, min_depth as int, accept@, q@, head as int, seen@);
        }
        let ghost m0 = 2 * (total - count_true(seen@)) + (q@.len() - head);
        let mut k: usize = 0;
        while k < 4
            invariant
                g == grid@,
                g.wf(),
                width == g.width,
                height == g.height,
                total == g.width * g.height,
                i32::MIN < start.0 < i32::MAX,
                i32::MIN < start.1 < i32::MAX,
                accept@.len() == total,
                seen@.len() == total,
                total <= 46340 * 46340,
                count_true(seen@) <= total,
                q@.len() <= count_true(seen@) + 1,
                head < q@.len(),
                q@[head as int] == (t, d),
                d <= head,
                tp == tile(q@, head as int),
                head > 0 ==> g.passable(tp.0, tp.1),
                head == 0 ==> t == start,
                2 * (total - count_true(seen@)) + (q@.len() - head) <= m0,
                exploring(g, start, min_depth as int, accept@, q@, head as int, seen@),
                st == (start.0 as int, start.1 as int),
                ranked(g, st, q@, ws, pr, head as int, k as int),
                k <= 4,
                forall|e: int|
                    0 <= e < k && g.passable(step4(tp, e).0, step4(tp, e).1) ==> #[trigger] queued(
                        q@,
                        step4(tp, e),
                        d + 1,
                    ),
            decreases 4 - k,
        {
            let o = offset4(k);
            let nx: i32 = t.0 + o.0;
            let ny: i32 = t.1 + o.1;
            let ghost n = (nx as int, ny as int);
            assert(step4(tp, k as int) == n);
            if grid.walkable(nx, ny) {
                proof {
                    lemma_idx(g, n);
                }
                let ni: i32 = ny * width + nx;
                if !seen[ni as usize] {
                    proof {
                        lemma_ranked_push(g, start, min_depth as int, accept@, q@, head as int, seen@, ws, pr, k as int, (nx, ny));
                        ws = ws.push(ws[head as int].push(n));
                        pr = pr.push(head as int);
                        lemma_enqueue(g, start, min_depth as int, accept@, q@, head as int, seen@, (nx, ny));
                        lemma_count_set(seen@, ni as int);
                        lemma_count_le(seen@.update(ni as int, true));
                        assert forall|e: int|
                            0 <= e < k && g.passable(step4(tp, e).0, step4(tp, e).1) implies #[trigger] queued(
                                q@.push(((nx, ny), (d + 1) as usize)),
                                step4(tp, e),
                                d + 1,
                            ) by {
                            lemma_queued_push(q@, ((nx, ny), (d + 1) as usize), step4(tp, e), d + 1);
                        }
                        let q2 = q@.push(((nx, ny), (d + 1) as usize));
                        assert(q2[q@.len() as int].1 == d + 1);
                        assert(tile(q2, q@.len() as int) == n);
                        assert(queued(q@.push(((nx, ny), (d + 1) as usize)), n, d + 1));
                        assert(count_true(seen@) < total);
                    }
                    seen.set(ni as usize, true);
                    q.push(((nx, ny), d + 1));
                } else {
                    proof {
                        lemma_head(g, start, min_depth as int, accept@, q@, head as int, seen@);
                        assert(seen@[idx(g, n)]);
                        assert(queued(q@, n, d + 1));
                        lemma_ranked_skip(g, st, q@, ws, pr, head as int, k as int);
                    }
                }
            } else {
                proof {
                    lemma_ranked_skip(g, st, q@, ws, pr, head as int, k as int);
                }
            }
            k = k + 1;
        }
        proof {
            lemma_advance(g, start, min_depth as int, accept@, q@, head as int, seen@);
            lemma_ranked_advance(g, st, q@, ws, pr, head as int);
        }
        head = head + 1;
    }
    proof {
        lemma_exhausted(g, start, min_depth as int, accept@, q@, seen@);
    }
    None
}

} // verus!
