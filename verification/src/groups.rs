//! The z-sorted groups of a map's dynamic layer: 4-connected runs of cells whose tiles carry
//! the same group id, flood-filled from seeds taken in row-major order.

use vstd::prelude::*;

use crate::nav::MAX_SIDE;
use crate::tiles::{
    empty_ref, lemma_cell_distinct, lemma_cell_index, lemma_empty_unindexed, layers_held, RenderLayer, TileRef, TileTable,
};

verus! {

/// One z-sorted group: its cells with their tiles, in flood order (a stack: the top cell is
/// taken, then its unmarked neighbours of the same id are pushed right, left, down, up), and
/// the lowest row they reach, the depth at which the group draws.
pub struct Group {
    pub bottom: i32,
    pub tiles: Vec<(i32, i32, TileRef)>,
}

/// The group id the tileset gives the tile at `p` of `layer`.
pub open spec fn gid(layer: RenderLayer, tiles: TileTable, p: (int, int)) -> Option<i64> {
    tiles.group_at(layer.cell(p.0, p.1))
}

pub open spec fn inside(layer: RenderLayer, p: (int, int)) -> bool {
    0 <= p.0 < layer.layer_width() && 0 <= p.1 < layer.layer_height()
}

/// The row-major position of `p` in a mask over `layer`.
pub open spec fn spot(layer: RenderLayer, p: (int, int)) -> int {
    p.1 * layer.layer_width() + p.0
}

pub open spec fn at(e: (i32, i32, TileRef)) -> (int, int) {
    (e.0 as int, e.1 as int)
}

pub open spec fn pt(c: (i32, i32)) -> (int, int) {
    (c.0 as int, c.1 as int)
}

/// Whether `a` and `b` share an edge.
pub open spec fn touching(a: (int, int), b: (int, int)) -> bool {
    ||| a.0 == b.0 && (a.1 == b.1 + 1 || b.1 == a.1 + 1)
    ||| a.1 == b.1 && (a.0 == b.0 + 1 || b.0 == a.0 + 1)
}

/// Whether `a` comes before `b` in row-major order.
pub open spec fn before(a: (int, int), b: (int, int)) -> bool {
    a.1 < b.1 || (a.1 == b.1 && a.0 < b.0)
}

/// Some cell before position `k` of `s` touches the one at `k`.
pub open spec fn linked(s: Seq<(i32, i32, TileRef)>, k: int) -> bool {
    exists|j: int| 0 <= j < k && touching(at(s[k]), at(#[trigger] s[j]))
}

/// Some row of `s` is `b`.
pub open spec fn reaches(s: Seq<(i32, i32, TileRef)>, b: int) -> bool {
    exists|k: int| 0 <= k < s.len() && #[trigger] s[k].1 == b
}

/// `d` is the first dynamic layer.
pub open spec fn first_dynamic(layers: Seq<RenderLayer>, d: int) -> bool {
    &&& 0 <= d < layers.len()
    &&& layers[d].is_dynamic()
    &&& forall|e: int| 0 <= e < d ==> !(#[trigger] layers[e].is_dynamic())
}

/// Every tile of `g` is a cell of `layer` holding that cell's tile, all carry the first one's
/// group id, none precedes the first in row-major order, `bottom` is their lowest row, and each
/// after the first touches an earlier one.
pub open spec fn well_grouped(layer: RenderLayer, tiles: TileTable, g: Group) -> bool {
    &&& g.tiles@.len() > 0
    &&& gid(layer, tiles, at(g.tiles@[0])) is Some
    &&& forall|k: int|
        #![trigger g.tiles@[k]]
        0 <= k < g.tiles@.len() ==> {
            &&& inside(layer, at(g.tiles@[k]))
            &&& g.tiles@[k].2 == layer.cell(g.tiles@[k].0 as int, g.tiles@[k].1 as int)
            &&& gid(layer, tiles, at(g.tiles@[k])) == gid(layer, tiles, at(g.tiles@[0]))
            &&& !before(at(g.tiles@[k]), at(g.tiles@[0]))
            &&& g.tiles@[k].1 <= g.bottom
        }
    &&& reaches(g.tiles@, g.bottom as int)
    &&& forall|k: int| 0 < k < g.tiles@.len() ==> #[trigger] linked(g.tiles@, k)
}

/// No cell outside `g` touches a cell of `g` with the same group id.
pub open spec fn closed_group(layer: RenderLayer, tiles: TileTable, g: Group) -> bool {
    forall|k: int, q: (int, int)|
        #![trigger g.tiles@[k], gid(layer, tiles, q)]
        0 <= k < g.tiles@.len() && touching(at(g.tiles@[k]), q) && gid(layer, tiles, q) == gid(
            layer,
            tiles,
            at(g.tiles@[k]),
        ) ==> exists|j: int| 0 <= j < g.tiles@.len() && at(#[trigger] g.tiles@[j]) == q
}

/// Every grouped cell lies in exactly one group at exactly one place, and the groups come in
/// the row-major order of their first cells.
pub open spec fn partition(layer: RenderLayer, tiles: TileTable, groups: Seq<Group>) -> bool {
    &&& forall|p: (int, int)|
        inside(layer, p) && (#[trigger] gid(layer, tiles, p)) is Some ==> exists|g: int, k: int|
            0 <= g < groups.len() && 0 <= k < groups[g].tiles@.len() && at(#[trigger] groups[g].tiles@[k]) == p
    &&& forall|g1: int, k1: int, g2: int, k2: int|
        0 <= g1 < groups.len() && 0 <= k1 < groups[g1].tiles@.len() && 0 <= g2 < groups.len() && 0 <= k2
            < groups[g2].tiles@.len() && at(#[trigger] groups[g1].tiles@[k1]) == at(
            #[trigger] groups[g2].tiles@[k2],
        ) ==> g1 == g2 && k1 == k2
    &&& forall|g1: int, g2: int|
        0 <= g1 < g2 < groups.len() ==> before(
            at(#[trigger] groups[g1].tiles@[0]),
            at(#[trigger] groups[g2].tiles@[0]),
        )
}

/// The groups of `layer` and its row-major mask of grouped cells.
pub open spec fn grouping(layer: RenderLayer, tiles: TileTable, groups: Seq<Group>, mask: Seq<bool>) -> bool {
    &&& mask.len() == layer.layer_width() * layer.layer_height()
    &&& forall|p: (int, int)| inside(layer, p) ==> mask[spot(layer, p)] == (#[trigger] gid(layer, tiles, p)) is Some
    &&& forall|g: int| 0 <= g < groups.len() ==> #[trigger] well_grouped(layer, tiles, groups[g])
    &&& forall|g: int| 0 <= g < groups.len() ==> #[trigger] closed_group(layer, tiles, groups[g])
    &&& partition(layer, tiles, groups)
}

/// The number of set flags.
pub open spec fn count_true(s: Seq<bool>) -> nat
    decreases s.len(),
{
    if s.len() == 0 {
        0
    } else {
        count_true(s.drop_last()) + if s.last() {
            1nat
        } else {
            0nat
        }
    }
}

pub(crate) proof fn lemma_count_le(s: Seq<bool>)
    ensures
        count_true(s) <= s.len(),
    decreases s.len(),
{
    if s.len() > 0 {
        lemma_count_le(s.drop_last());
    }
}

pub(crate) proof fn lemma_count_set(s: Seq<bool>, i: int)
    requires
        0 <= i < s.len(),
        !s[i],
    ensures
        count_true(s.update(i, true)) == count_true(s) + 1,
    decreases s.len(),
{
    let t = s.update(i, true);
    if i == s.len() - 1 {
        assert(t.drop_last() =~= s.drop_last());
    } else {
        assert(t.drop_last() =~= s.drop_last().update(i, true));
        lemma_count_set(s.drop_last(), i);
    }
}

spec fn upd(f: spec_fn((int, int)) -> int, p: (int, int), v: int) -> spec_fn((int, int)) -> int {
    |q: (int, int)| if q == p { v } else { f(q) }
}

/// The mask marks exactly the cells that have an owner.
spec fn marked(layer: RenderLayer, visited: Seq<bool>, own: spec_fn((int, int)) -> int) -> bool {
    &&& 0 <= layer.layer_width() <= MAX_SIDE
    &&& 0 <= layer.layer_height() <= MAX_SIDE
    &&& visited.len() == layer.layer_width() * layer.layer_height()
    &&& forall|p: (int, int)| inside(layer, p) ==> visited[spot(layer, p)] == (#[trigger] own(p) >= 0)
}

/// The finished groups: `own` and `slot` say where each owned cell sits, and back.
spec fn settled(
    layer: RenderLayer,
    tiles: TileTable,
    groups: Seq<Group>,
    ids: Seq<i64>,
    own: spec_fn((int, int)) -> int,
    slot: spec_fn((int, int)) -> int,
) -> bool {
    &&& ids.len() == groups.len()
    &&& forall|p: (int, int)|
        inside(layer, p) && 0 <= #[trigger] own(p) < groups.len() ==> {
            &&& 0 <= slot(p) < groups[own(p)].tiles@.len()
            &&& at(groups[own(p)].tiles@[slot(p)]) == p
            &&& gid(layer, tiles, p) == Some(ids[own(p)])
        }
    &&& forall|g: int, k: int|
        0 <= g < groups.len() && 0 <= k < groups[g].tiles@.len() ==> {
            &&& inside(layer, at(#[trigger] groups[g].tiles@[k]))
            &&& own(at(groups[g].tiles@[k])) == g
            &&& slot(at(groups[g].tiles@[k])) == k
        }
    &&& forall|g: int| 0 <= g < groups.len() ==> #[trigger] well_grouped(layer, tiles, groups[g])
    &&& forall|p: (int, int), q: (int, int)|
        #![trigger own(p), own(q)]
        inside(layer, p) && 0 <= own(p) < groups.len() && touching(p, q) && gid(layer, tiles, q) == gid(
            layer,
            tiles,
            p,
        ) ==> own(q) == own(p)
    &&& forall|g1: int, g2: int|
        0 <= g1 < g2 < groups.len() ==> before(
            at(#[trigger] groups[g1].tiles@[0]),
            at(#[trigger] groups[g2].tiles@[0]),
        )
}

/// Between groups: every cell before `scan` that has a group id is owned, nobody is mid-flood,
/// and every group's first cell precedes `scan`.
spec fn scanned(
    layer: RenderLayer,
    tiles: TileTable,
    groups: Seq<Group>,
    own: spec_fn((int, int)) -> int,
    scan: (int, int),
) -> bool {
    &&& forall|p: (int, int)| inside(layer, p) ==> -1 <= #[trigger] own(p) < groups.len()
    &&& forall|p: (int, int)|
        inside(layer, p) && before(p, scan) && gid(layer, tiles, p) is Some ==> #[trigger] own(p) >= 0
    &&& forall|g: int| 0 <= g < groups.len() ==> before(at(#[trigger] groups[g].tiles@[0]), scan)
}

/// `p` waits on the stack.
spec fn waiting(stack: Seq<(i32, i32)>, p: (int, int)) -> bool {
    exists|j: int| 0 <= j < stack.len() && pt(#[trigger] stack[j]) == p
}

/// Some taken cell touches `c`.
spec fn near(cells: Seq<(i32, i32, TileRef)>, c: (i32, i32)) -> bool {
    exists|i: int| 0 <= i < cells.len() && touching(pt(c), at(#[trigger] cells[i]))
}

/// Mid-flood: the group being built owns the cells already taken (`cells`) and those waiting
/// (`stack`); each taken cell but possibly the last has had its neighbours looked at.
spec fn flooding(
    layer: RenderLayer,
    tiles: TileTable,
    groups: Seq<Group>,
    cells: Seq<(i32, i32, TileRef)>,
    stack: Seq<(i32, i32)>,
    own: spec_fn((int, int)) -> int,
    slot: spec_fn((int, int)) -> int,
    gid0: i64,
    seed: (i32, i32),
    bottom: int,
    open_last: bool,
) -> bool {
    let cur = groups.len() as int;
    &&& inside(layer, pt(seed))
    &&& forall|p: (int, int)| inside(layer, p) ==> -1 <= #[trigger] own(p) <= cur
    &&& forall|p: (int, int)|
        inside(layer, p) && before(p, pt(seed)) && gid(layer, tiles, p) is Some ==> 0 <= #[trigger] own(p)
            < cur
    &&& forall|p: (int, int)|
        inside(layer, p) && #[trigger] own(p) == cur ==> {
            &&& gid(layer, tiles, p) == Some(gid0)
            &&& !before(p, pt(seed))
            &&& (0 <= slot(p) < cells.len() && at(cells[slot(p)]) == p) || (slot(p) == -1 && waiting(stack, p))
        }
    &&& forall|k: int|
        #![trigger cells[k]]
        0 <= k < cells.len() ==> {
            &&& inside(layer, at(cells[k]))
            &&& own(at(cells[k])) == cur
            &&& slot(at(cells[k])) == k
            &&& cells[k].2 == layer.cell(cells[k].0 as int, cells[k].1 as int)
            &&& cells[k].1 <= bottom
        }
    &&& forall|j: int|
        #![trigger stack[j]]
        0 <= j < stack.len() ==> inside(layer, pt(stack[j])) && own(pt(stack[j])) == cur && slot(pt(stack[j]))
            == -1
    &&& forall|i: int, j: int| 0 <= i < j < stack.len() ==> #[trigger] stack[i] != #[trigger] stack[j]
    &&& cells.len() == 0 ==> stack == seq![seed] && bottom == seed.1
    &&& cells.len() > 0 ==> {
        &&& at(cells[0]) == pt(seed)
        &&& reaches(cells, bottom)
        &&& forall|j: int| 0 <= j < stack.len() ==> #[trigger] near(cells, stack[j])
    }
    &&& forall|k: int| 0 < k < cells.len() ==> #[trigger] linked(cells, k)
    &&& forall|k: int, q: (int, int)|
        #![trigger cells[k], own(q)]
        0 <= k < cells.len() && !(open_last && k == cells.len() - 1) && touching(at(cells[k]), q) && gid(
            layer,
            tiles,
            q,
        ) == Some(gid0) ==> own(q) >= 0
}

/// What waits on the stack after the cell `c` has looked in its first `e` directions (right,
/// left, down, up): each neighbour with group id `g0` that is neither waiting nor taken is
/// pushed in turn.
pub open spec fn look(
    layer: RenderLayer,
    tiles: TileTable,
    g0: Option<i64>,
    c: (int, int),
    e: int,
    stack: Seq<(int, int)>,
    taken: Seq<(int, int)>,
) -> Seq<(int, int)>
    decreases e,
{
    if e <= 0 {
        stack
    } else {
        let s = look(layer, tiles, g0, c, e - 1, stack, taken);
        let n = step4(c, e - 1);
        if gid(layer, tiles, n) == g0 && !s.contains(n) && !taken.contains(n) {
            s.push(n)
        } else {
            s
        }
    }
}

/// The stack and the taken cells of the flood from `seed` once `k` cells have been taken: each
/// step takes the cell on top of the stack and looks around it.
pub open spec fn flood_state(layer: RenderLayer, tiles: TileTable, g0: Option<i64>, seed: (int, int), k: nat) -> (
    Seq<(int, int)>,
    Seq<(int, int)>,
)
    decreases k,
{
    if k == 0 {
        (seq![seed], seq![])
    } else {
        let prev = flood_state(layer, tiles, g0, seed, (k - 1) as nat);
        if prev.0.len() == 0 {
            prev
        } else {
            let c = prev.0.last();
            let taken = prev.1.push(c);
            (look(layer, tiles, g0, c, 4, prev.0.drop_last(), taken), taken)
        }
    }
}

/// The cells of `g` come in the order the flood from its first cell takes them, until its
/// stack runs dry.
pub open spec fn flood_ordered(layer: RenderLayer, tiles: TileTable, g: Group) -> bool {
    let first = at(g.tiles@[0]);
    let st = flood_state(layer, tiles, gid(layer, tiles, first), first, g.tiles@.len());
    &&& g.tiles@.len() > 0
    &&& st.0.len() == 0
    &&& st.1 == g.tiles@.map_values(|e: (i32, i32, TileRef)| at(e))
}

/// Mid-flood, a neighbour of the newest cell with the flood's group id is marked exactly when
/// it waits on the stack or has been taken.
proof fn lemma_marked_taken(
    layer: RenderLayer,
    tiles: TileTable,
    groups: Seq<Group>,
    ids: Seq<i64>,
    cells: Seq<(i32, i32, TileRef)>,
    stack: Seq<(i32, i32)>,
    own: spec_fn((int, int)) -> int,
    slot: spec_fn((int, int)) -> int,
    gid0: i64,
    seed: (i32, i32),
    bottom: int,
    n: (int, int),
)
    requires
        settled(layer, tiles, groups, ids, own, slot),
        flooding(layer, tiles, groups, cells, stack, own, slot, gid0, seed, bottom, true),
        cells.len() > 0,
        touching(at(cells.last()), n),
        inside(layer, n),
        gid(layer, tiles, n) == Some(gid0),
    ensures
        own(n) >= 0 <==> (stack.map_values(|c: (i32, i32)| pt(c)).contains(n) || cells.map_values(
            |e: (i32, i32, TileRef)| at(e),
        ).contains(n)),
{
    let cur = groups.len() as int;
    let l = cells.len() - 1;
    let c = at(cells[l]);
    let sp = stack.map_values(|c: (i32, i32)| pt(c));
    let cp = cells.map_values(|e: (i32, i32, TileRef)| at(e));
    assert(own(c) == cur);
    assert(gid(layer, tiles, c) == Some(gid0));
    if own(n) >= 0 {
        if own(n) < cur {
            assert(touching(n, c));
            assert(own(c) == own(n));
        }
        assert(own(n) == cur);
        if 0 <= slot(n) < cells.len() && at(cells[slot(n)]) == n {
            assert(cp[slot(n)] == n);
        } else {
            let j = choose|j: int| 0 <= j < stack.len() && pt(#[trigger] stack[j]) == n;
            assert(sp[j] == n);
        }
    }
    if sp.contains(n) {
        let j = choose|j: int| 0 <= j < sp.len() && sp[j] == n;
        assert(stack[j] == stack[j]);
    }
    if cp.contains(n) {
        let j = choose|j: int| 0 <= j < cp.len() && cp[j] == n;
        assert(cells[j] == cells[j]);
    }
}

/// A cell off the layer carries no group id.
proof fn lemma_outside_ungrouped(layer: RenderLayer, tiles: TileTable, p: (int, int))
    requires
        !inside(layer, p),
    ensures
        gid(layer, tiles, p) is None,
{
    lemma_empty_unindexed();
    assert(layer.cell(p.0, p.1) == empty_ref());
}


/// Distinct cells of a layer sit at distinct mask positions.
proof fn lemma_spot_distinct(layer: RenderLayer, p: (int, int), q: (int, int))
    requires
        inside(layer, p),
        inside(layer, q),
        p != q,
    ensures
        spot(layer, p) != spot(layer, q),
{
    lemma_cell_distinct(p.0, p.1, q.0, q.1, layer.layer_width());
}

proof fn lemma_spot_in(layer: RenderLayer, p: (int, int))
    requires
        0 <= layer.layer_width() <= MAX_SIDE,
        0 <= layer.layer_height() <= MAX_SIDE,
        inside(layer, p),
    ensures
        0 <= spot(layer, p) < layer.layer_width() * layer.layer_height(),
        layer.layer_width() * layer.layer_height() <= 46340 * 46340,
        0 <= p.1 * layer.layer_width() <= spot(layer, p),
{
    lemma_cell_index(p.0, p.1, layer.layer_width(), layer.layer_height());
}

/// Starting a group at an unowned `seed`.
proof fn lemma_start(
    layer: RenderLayer,
    tiles: TileTable,
    groups: Seq<Group>,
    ids: Seq<i64>,
    own0: spec_fn((int, int)) -> int,
    slot0: spec_fn((int, int)) -> int,
    visited: Seq<bool>,
    seed: (i32, i32),
    gid0: i64,
)
    requires
        marked(layer, visited, own0),
        settled(layer, tiles, groups, ids, own0, slot0),
        scanned(layer, tiles, groups, own0, pt(seed)),
        inside(layer, pt(seed)),
        own0(pt(seed)) == -1,
        gid(layer, tiles, pt(seed)) == Some(gid0),
        0 <= spot(layer, pt(seed)) < visited.len(),
    ensures
        ({
            let own = upd(own0, pt(seed), groups.len() as int);
            let slot = upd(slot0, pt(seed), -1);
            &&& marked(layer, visited.update(spot(layer, pt(seed)), true), own)
            &&& settled(layer, tiles, groups, ids, own, slot)
            &&& flooding(layer, tiles, groups, seq![], seq![seed], own, slot, gid0, seed, seed.1 as int, false)
        }),
{
    let cur = groups.len() as int;
    let s = pt(seed);
    let own = upd(own0, s, cur);
    let slot = upd(slot0, s, -1);
    let v2 = visited.update(spot(layer, s), true);
    assert forall|p: (int, int)| inside(layer, p) implies v2[spot(layer, p)] == (#[trigger] own(p) >= 0) by {
        lemma_spot_in(layer, p);
        if p != s {
            lemma_spot_distinct(layer, p, s);
            assert((own0(p) >= 0) == visited[spot(layer, p)]);
        }
    }
    assert forall|p: (int, int)| inside(layer, p) && 0 <= #[trigger] own(p) < groups.len() implies {
        &&& 0 <= slot(p) < groups[own(p)].tiles@.len()
        &&& at(groups[own(p)].tiles@[slot(p)]) == p
        &&& gid(layer, tiles, p) == Some(ids[own(p)])
    } by {
        assert(p != s);
        assert(0 <= own0(p) < groups.len());
    }
    assert forall|g: int, k: int| 0 <= g < groups.len() && 0 <= k < groups[g].tiles@.len() implies {
        &&& inside(layer, at(#[trigger] groups[g].tiles@[k]))
        &&& own(at(groups[g].tiles@[k])) == g
        &&& slot(at(groups[g].tiles@[k])) == k
    } by {
        assert(own0(at(groups[g].tiles@[k])) == g);
    }
    assert forall|p: (int, int), q: (int, int)|
        #![trigger own(p), own(q)]
        inside(layer, p) && 0 <= own(p) < groups.len() && touching(p, q) && gid(layer, tiles, q) == gid(
            layer,
            tiles,
            p,
        ) implies own(q) == own(p) by {
        assert(p != s);
        assert(own0(q) == own0(p));
    }
    assert(settled(layer, tiles, groups, ids, own, slot));
    let stack = seq![seed];
    assert forall|p: (int, int)| inside(layer, p) && #[trigger] own(p) == cur implies {
        &&& gid(layer, tiles, p) == Some(gid0)
        &&& !before(p, pt(seed))
        &&& (0 <= slot(p) < 0 && at(seq![][slot(p)]) == p) || (slot(p) == -1 && waiting(stack, p))
    } by {
        if p != s {
            assert(own0(p) < cur);
        }
        assert(pt(stack[0]) == p);
    }
    assert forall|p: (int, int)|
        inside(layer, p) && before(p, pt(seed)) && gid(layer, tiles, p) is Some implies 0 <= #[trigger] own(p)
            < cur by {
        assert(own0(p) >= 0);
    }
}

/// Taking the top of the stack into the group leaves the finished groups as they were.
proof fn lemma_pop_settled(
    layer: RenderLayer,
    tiles: TileTable,
    groups: Seq<Group>,
    ids: Seq<i64>,
    own: spec_fn((int, int)) -> int,
    slot: spec_fn((int, int)) -> int,
    c: (int, int),
    n: int,
)
    requires
        settled(layer, tiles, groups, ids, own, slot),
        own(c) == groups.len(),
    ensures
        settled(layer, tiles, groups, ids, own, upd(slot, c, n)),
{
    let slot2 = upd(slot, c, n);
    assert forall|p: (int, int)| inside(layer, p) && 0 <= #[trigger] own(p) < groups.len() implies {
        &&& 0 <= slot2(p) < groups[own(p)].tiles@.len()
        &&& at(groups[own(p)].tiles@[slot2(p)]) == p
        &&& gid(layer, tiles, p) == Some(ids[own(p)])
    } by {
        assert(p != c);
    }
    assert forall|g: int, k: int| 0 <= g < groups.len() && 0 <= k < groups[g].tiles@.len() implies {
        &&& inside(layer, at(#[trigger] groups[g].tiles@[k]))
        &&& own(at(groups[g].tiles@[k])) == g
        &&& slot2(at(groups[g].tiles@[k])) == k
    } by {
        assert(at(groups[g].tiles@[k]) != c);
    }
}

/// Taking the top of the stack into the group.
#[verifier::rlimit(40)]
proof fn lemma_pop(
    layer: RenderLayer,
    tiles: TileTable,
    groups: Seq<Group>,
    cells: Seq<(i32, i32, TileRef)>,
    stack: Seq<(i32, i32)>,
    own: spec_fn((int, int)) -> int,
    slot: spec_fn((int, int)) -> int,
    gid0: i64,
    seed: (i32, i32),
    bottom: int,
    t: TileRef,
)
    requires
        flooding(layer, tiles, groups, cells, stack, own, slot, gid0, seed, bottom, false),
        stack.len() > 0,
        t == layer.cell(stack.last().0 as int, stack.last().1 as int),
    ensures
        own(pt(stack.last())) == groups.len(),
        ({
            let c = stack.last();
            let slot2 = upd(slot, pt(c), cells.len() as int);
            let b2 = if c.1 > bottom {
                c.1 as int
            } else {
                bottom
            };
            flooding(
                layer,
                tiles,
                groups,
                cells.push((c.0, c.1, t)),
                stack.drop_last(),
                own,
                slot2,
                gid0,
                seed,
                b2,
                true,
            )
        }),
{
    let cur = groups.len() as int;
    let c = stack.last();
    let last = stack.len() - 1;
    let n = cells.len() as int;
    let slot2 = upd(slot, pt(c), n);
    let b2 = if c.1 > bottom {
        c.1 as int
    } else {
        bottom
    };
    let cells2 = cells.push((c.0, c.1, t));
    let stack2 = stack.drop_last();
    assert(own(pt(stack[last])) == cur && slot(pt(stack[last])) == -1);
    assert forall|p: (int, int)| inside(layer, p) && #[trigger] own(p) == cur implies {
        &&& gid(layer, tiles, p) == Some(gid0)
        &&& !before(p, pt(seed))
        &&& (0 <= slot2(p) < cells2.len() && at(cells2[slot2(p)]) == p) || (slot2(p) == -1 && waiting(stack2, p))
    } by {
        if p == pt(c) {
            assert(at(cells2[n]) == p);
        } else if 0 <= slot(p) < cells.len() && at(cells[slot(p)]) == p {
            assert(cells2[slot(p)] == cells[slot(p)]);
        } else {
            assert(waiting(stack, p));
            let j = choose|j: int| 0 <= j < stack.len() && pt(#[trigger] stack[j]) == p;
            assert(j != last);
            assert(stack2[j] == stack[j]);
        }
    }
    assert forall|k: int|
        #![trigger cells2[k]]
        0 <= k < cells2.len() implies {
            &&& inside(layer, at(cells2[k]))
            &&& own(at(cells2[k])) == cur
            &&& slot2(at(cells2[k])) == k
            &&& cells2[k].2 == layer.cell(cells2[k].0 as int, cells2[k].1 as int)
            &&& cells2[k].1 <= b2
        } by {
        if k < n {
            assert(cells2[k] == cells[k]);
            assert(slot(at(cells[k])) == k);
            assert(at(cells[k]) != pt(c));
        }
    }
    assert forall|j: int|
        #![trigger stack2[j]]
        0 <= j < stack2.len() implies inside(layer, pt(stack2[j])) && own(pt(stack2[j])) == cur && slot2(
            pt(stack2[j]),
        ) == -1 by {
        assert(stack2[j] == stack[j]);
        assert(stack[j] != stack[last]);
    }
    assert forall|i: int, j: int| 0 <= i < j < stack2.len() implies #[trigger] stack2[i] != #[trigger] stack2[j] by {
        assert(stack2[i] == stack[i] && stack2[j] == stack[j]);
    }
    if n == 0 {
        assert(c == seed);
        assert(stack2.len() == 0);
        assert(cells2[0].1 == b2);
    } else {
        assert(cells2[0] == cells[0]);
        if c.1 > bottom {
            assert(cells2[n].1 == b2);
        } else {
            assert(reaches(cells, bottom));
            let k = choose|k: int| 0 <= k < cells.len() && #[trigger] cells[k].1 == bottom;
            assert(cells2[k].1 == b2);
        }
        assert forall|j: int| 0 <= j < stack2.len() implies #[trigger] near(cells2, stack2[j]) by {
            assert(stack2[j] == stack[j]);
            assert(near(cells, stack[j]));
            let i = choose|i: int| 0 <= i < cells.len() && touching(pt(stack[j]), at(#[trigger] cells[i]));
            assert(cells2[i] == cells[i]);
        }
    }
    assert forall|k: int| 0 < k < cells2.len() implies #[trigger] linked(cells2, k) by {
        if k < n {
            assert(cells2[k] == cells[k]);
            assert(linked(cells, k));
            let j = choose|j: int| 0 <= j < k && touching(at(cells[k]), at(#[trigger] cells[j]));
            assert(cells2[j] == cells[j]);
        } else {
            assert(near(cells, stack[last]));
            let i = choose|i: int| 0 <= i < cells.len() && touching(pt(stack[last]), at(#[trigger] cells[i]));
            assert(cells2[i] == cells[i]);
        }
    }
    assert forall|k: int, q: (int, int)|
        #![trigger cells2[k], own(q)]
        0 <= k < cells2.len() && !(true && k == cells2.len() - 1) && touching(at(cells2[k]), q) && gid(
            layer,
            tiles,
            q,
        ) == Some(gid0) implies own(q) >= 0 by {
        assert(cells2[k] == cells[k]);
    }
}

/// Taking an unowned neighbour of the newest cell onto the stack.
proof fn lemma_visit(
    layer: RenderLayer,
    tiles: TileTable,
    groups: Seq<Group>,
    ids: Seq<i64>,
    cells: Seq<(i32, i32, TileRef)>,
    stack: Seq<(i32, i32)>,
    own: spec_fn((int, int)) -> int,
    slot: spec_fn((int, int)) -> int,
    gid0: i64,
    seed: (i32, i32),
    bottom: int,
    visited: Seq<bool>,
    n: (i32, i32),
)
    requires
        marked(layer, visited, own),
        settled(layer, tiles, groups, ids, own, slot),
        flooding(layer, tiles, groups, cells, stack, own, slot, gid0, seed, bottom, true),
        cells.len() > 0,
        inside(layer, pt(n)),
        own(pt(n)) == -1,
        gid(layer, tiles, pt(n)) == Some(gid0),
        touching(pt(n), at(cells.last())),
    ensures
        ({
            let own2 = upd(own, pt(n), groups.len() as int);
            let slot2 = upd(slot, pt(n), -1);
            &&& marked(layer, visited.update(spot(layer, pt(n)), true), own2)
            &&& settled(layer, tiles, groups, ids, own2, slot2)
            &&& flooding(layer, tiles, groups, cells, stack.push(n), own2, slot2, gid0, seed, bottom, true)
        }),
{
    let cur = groups.len() as int;
    let m = pt(n);
    let own2 = upd(own, m, cur);
    let slot2 = upd(slot, m, -1);
    let stack2 = stack.push(n);
    let v2 = visited.update(spot(layer, m), true);
    lemma_spot_in(layer, m);
    assert forall|p: (int, int)| inside(layer, p) implies v2[spot(layer, p)] == (#[trigger] own2(p) >= 0) by {
        lemma_spot_in(layer, p);
        if p != m {
            lemma_spot_distinct(layer, p, m);
            assert((own(p) >= 0) == visited[spot(layer, p)]);
        }
    }
    assert forall|p: (int, int)| inside(layer, p) && 0 <= #[trigger] own2(p) < groups.len() implies {
        &&& 0 <= slot2(p) < groups[own2(p)].tiles@.len()
        &&& at(groups[own2(p)].tiles@[slot2(p)]) == p
        &&& gid(layer, tiles, p) == Some(ids[own2(p)])
    } by {
        assert(p != m);
        assert(0 <= own(p) < groups.len());
    }
    assert forall|g: int, k: int| 0 <= g < groups.len() && 0 <= k < groups[g].tiles@.len() implies {
        &&& inside(layer, at(#[trigger] groups[g].tiles@[k]))
        &&& own2(at(groups[g].tiles@[k])) == g
        &&& slot2(at(groups[g].tiles@[k])) == k
    } by {
        assert(own(at(groups[g].tiles@[k])) == g);
    }
    assert forall|p: (int, int), q: (int, int)|
        #![trigger own2(p), own2(q)]
        inside(layer, p) && 0 <= own2(p) < groups.len() && touching(p, q) && gid(layer, tiles, q) == gid(
            layer,
            tiles,
            p,
        ) implies own2(q) == own2(p) by {
        assert(p != m);
        assert(own(q) == own(p));
    }
    assert(settled(layer, tiles, groups, ids, own2, slot2));
    if before(m, pt(seed)) {
        assert(0 <= own(m));
    }
    assert forall|p: (int, int)| inside(layer, p) && #[trigger] own2(p) == cur implies {
        &&& gid(layer, tiles, p) == Some(gid0)
        &&& !before(p, pt(seed))
        &&& (0 <= slot2(p) < cells.len() && at(cells[slot2(p)]) == p) || (slot2(p) == -1 && waiting(stack2, p))
    } by {
        if p == m {
            assert(pt(stack2[stack.len() as int]) == p);
        } else {
            assert(own(p) == cur);
            if !(0 <= slot(p) < cells.len() && at(cells[slot(p)]) == p) {
                assert(waiting(stack, p));
                let j = choose|j: int| 0 <= j < stack.len() && pt(#[trigger] stack[j]) == p;
                assert(stack2[j] == stack[j]);
            }
        }
    }
    assert forall|p: (int, int)|
        inside(layer, p) && before(p, pt(seed)) && gid(layer, tiles, p) is Some implies 0 <= #[trigger] own2(p)
            < cur by {
        assert(0 <= own(p) < cur);
    }
    assert forall|k: int|
        #![trigger cells[k]]
        0 <= k < cells.len() implies {
            &&& inside(layer, at(cells[k]))
            &&& own2(at(cells[k])) == cur
            &&& slot2(at(cells[k])) == k
            &&& cells[k].2 == layer.cell(cells[k].0 as int, cells[k].1 as int)
            &&& cells[k].1 <= bottom
        } by {
        assert(own(at(cells[k])) == cur);
    }
    assert forall|j: int|
        #![trigger stack2[j]]
        0 <= j < stack2.len() implies inside(layer, pt(stack2[j])) && own2(pt(stack2[j])) == cur && slot2(
            pt(stack2[j]),
        ) == -1 by {
        if j < stack.len() {
            assert(stack2[j] == stack[j]);
            assert(own(pt(stack[j])) == cur);
        }
    }
    assert forall|i: int, j: int| 0 <= i < j < stack2.len() implies #[trigger] stack2[i] != #[trigger] stack2[j] by {
        assert(stack2[i] == stack[i]);
        if j < stack.len() {
            assert(stack2[j] == stack[j]);
        } else {
            assert(own(pt(stack[i])) == cur);
        }
    }
    assert forall|j: int| 0 <= j < stack2.len() implies #[trigger] near(cells, stack2[j]) by {
        if j < stack.len() {
            assert(stack2[j] == stack[j]);
        } else {
            assert(touching(pt(stack2[j]), at(cells[cells.len() - 1])));
        }
    }
    assert forall|k: int, q: (int, int)|
        #![trigger cells[k], own2(q)]
        0 <= k < cells.len() && !(true && k == cells.len() - 1) && touching(at(cells[k]), q) && gid(
            layer,
            tiles,
            q,
        ) == Some(gid0) implies own2(q) >= 0 by {
        assert(own(q) >= 0);
    }
}

/// The neighbour of `c` in direction `d` (right, left, down, up).
pub open spec fn step4(c: (int, int), d: int) -> (int, int) {
    if d == 0 {
        (c.0 + 1, c.1)
    } else if d == 1 {
        (c.0 - 1, c.1)
    } else if d == 2 {
        (c.0, c.1 + 1)
    } else {
        (c.0, c.1 - 1)
    }
}

/// Once all four neighbours of the newest cell have been looked at, it is settled too.
proof fn lemma_close(
    layer: RenderLayer,
    tiles: TileTable,
    groups: Seq<Group>,
    cells: Seq<(i32, i32, TileRef)>,
    stack: Seq<(i32, i32)>,
    own: spec_fn((int, int)) -> int,
    slot: spec_fn((int, int)) -> int,
    gid0: i64,
    seed: (i32, i32),
    bottom: int,
)
    requires
        flooding(layer, tiles, groups, cells, stack, own, slot, gid0, seed, bottom, true),
        cells.len() > 0,
        forall|d: int|
            0 <= d < 4 && gid(layer, tiles, step4(at(cells.last()), d)) == Some(gid0) ==> own(
                #[trigger] step4(at(cells.last()), d),
            ) >= 0,
    ensures
        flooding(layer, tiles, groups, cells, stack, own, slot, gid0, seed, bottom, false),
{
    let c = at(cells.last());
    assert forall|k: int, q: (int, int)|
        #![trigger cells[k], own(q)]
        0 <= k < cells.len() && !(false && k == cells.len() - 1) && touching(at(cells[k]), q) && gid(
            layer,
            tiles,
            q,
        ) == Some(gid0) implies own(q) >= 0 by {
        if k == cells.len() - 1 {
            assert(at(cells[k]) == c);
            if q == step4(c, 0) {
            } else if q == step4(c, 1) {
            } else if q == step4(c, 2) {
            } else {
                assert(q == step4(c, 3));
            }
        }
    }
}

/// A flood with nothing left on the stack is a finished group.
#[verifier::rlimit(40)]
proof fn lemma_finish(
    layer: RenderLayer,
    tiles: TileTable,
    groups: Seq<Group>,
    ids: Seq<i64>,
    g: Group,
    own: spec_fn((int, int)) -> int,
    slot: spec_fn((int, int)) -> int,
    gid0: i64,
    seed: (i32, i32),
)
    requires
        settled(layer, tiles, groups, ids, own, slot),
        flooding(layer, tiles, groups, g.tiles@, seq![], own, slot, gid0, seed, g.bottom as int, false),
        forall|i: int| 0 <= i < groups.len() ==> before(at(#[trigger] groups[i].tiles@[0]), pt(seed)),
    ensures
        settled(layer, tiles, groups.push(g), ids.push(gid0), own, slot),
        scanned(layer, tiles, groups.push(g), own, (seed.0 + 1, seed.1 as int)),
{
    let cur = groups.len() as int;
    let groups2 = groups.push(g);
    let ids2 = ids.push(gid0);
    let cells = g.tiles@;
    let stack: Seq<(i32, i32)> = seq![];
    assert(cells.len() > 0) by {
        if cells.len() == 0 {
            assert(stack == seq![seed]);
            assert(stack.len() == 1);
        }
    }
    assert(groups2[cur] == g);
    assert forall|i: int| 0 <= i < cur implies #[trigger] groups2[i] == groups[i] by {}
    assert forall|p: (int, int)| inside(layer, p) && 0 <= #[trigger] own(p) < groups2.len() implies {
        &&& 0 <= slot(p) < groups2[own(p)].tiles@.len()
        &&& at(groups2[own(p)].tiles@[slot(p)]) == p
        &&& gid(layer, tiles, p) == Some(ids2[own(p)])
    } by {
        if own(p) < cur {
            assert(groups2[own(p)] == groups[own(p)]);
        } else {
            if !(0 <= slot(p) < cells.len() && at(cells[slot(p)]) == p) {
                assert(waiting(stack, p));
            }
        }
    }
    assert forall|i: int, k: int| 0 <= i < groups2.len() && 0 <= k < groups2[i].tiles@.len() implies {
        &&& inside(layer, at(#[trigger] groups2[i].tiles@[k]))
        &&& own(at(groups2[i].tiles@[k])) == i
        &&& slot(at(groups2[i].tiles@[k])) == k
    } by {
        if i < cur {
            assert(groups2[i] == groups[i]);
        } else {
            assert(groups2[i].tiles@[k] == cells[k]);
        }
    }
    assert(well_grouped(layer, tiles, g)) by {
        assert(at(cells[0]) == pt(seed));
        assert forall|k: int|
            #![trigger g.tiles@[k]]
            0 <= k < g.tiles@.len() implies {
                &&& inside(layer, at(g.tiles@[k]))
                &&& g.tiles@[k].2 == layer.cell(g.tiles@[k].0 as int, g.tiles@[k].1 as int)
                &&& gid(layer, tiles, at(g.tiles@[k])) == gid(layer, tiles, at(g.tiles@[0]))
                &&& !before(at(g.tiles@[k]), at(g.tiles@[0]))
                &&& g.tiles@[k].1 <= g.bottom
            } by {
            assert(cells[k] == g.tiles@[k]);
            assert(own(at(cells[k])) == cur);
            assert(own(at(cells[0])) == cur);
        }
    }
    assert forall|i: int| 0 <= i < groups2.len() implies #[trigger] well_grouped(layer, tiles, groups2[i]) by {
        if i < cur {
            assert(groups2[i] == groups[i]);
        }
    }
    assert forall|p: (int, int), q: (int, int)|
        #![trigger own(p), own(q)]
        inside(layer, p) && 0 <= own(p) < groups2.len() && touching(p, q) && gid(layer, tiles, q) == gid(
            layer,
            tiles,
            p,
        ) implies own(q) == own(p) by {
        if own(p) == cur {
            let k = slot(p);
            if !(0 <= slot(p) < cells.len() && at(cells[slot(p)]) == p) {
                assert(waiting(stack, p));
            }
            assert(gid(layer, tiles, p) == Some(gid0));
            assert(inside(layer, q)) by {
                if !inside(layer, q) {
                    lemma_outside_ungrouped(layer, tiles, q);
                }
            }
            assert(own(at(cells[k])) == cur);
            assert(touching(at(cells[k]), q));
            assert(own(q) >= 0);
            if own(q) < cur {
                assert(touching(q, p));
                assert(own(p) == own(q));
            }
            assert(own(q) <= cur);
        } else {
            assert(own(p) < cur);
        }
    }
    assert forall|g1: int, g2: int| 0 <= g1 < g2 < groups2.len() implies before(
        at(#[trigger] groups2[g1].tiles@[0]),
        at(#[trigger] groups2[g2].tiles@[0]),
    ) by {
        assert(groups2[g1] == groups[g1]);
        if g2 < cur {
            assert(groups2[g2] == groups[g2]);
        } else {
            assert(groups2[g2].tiles@[0] == cells[0]);
        }
    }
    assert(settled(layer, tiles, groups2, ids2, own, slot));
    let s2 = (seed.0 + 1, seed.1 as int);
    assert(own(at(cells[0])) == cur);
    assert forall|p: (int, int)|
        inside(layer, p) && before(p, s2) && gid(layer, tiles, p) is Some implies #[trigger] own(p) >= 0 by {
        if before(p, pt(seed)) {
        } else {
            assert(p == pt(seed));
        }
    }
    assert forall|i: int| 0 <= i < groups2.len() implies before(at(#[trigger] groups2[i].tiles@[0]), s2) by {
        if i < cur {
            assert(groups2[i] == groups[i]);
        } else {
            assert(groups2[i].tiles@[0] == cells[0]);
        }
    }
}

/// Moving the scan past a cell that has no group id or is already owned.
proof fn lemma_scan_skip(
    layer: RenderLayer,
    tiles: TileTable,
    groups: Seq<Group>,
    own: spec_fn((int, int)) -> int,
    s: (int, int),
)
    requires
        scanned(layer, tiles, groups, own, s),
        gid(layer, tiles, s) is None || own(s) >= 0,
    ensures
        scanned(layer, tiles, groups, own, (s.0 + 1, s.1)),
{
    assert forall|p: (int, int)|
        inside(layer, p) && before(p, (s.0 + 1, s.1)) && gid(layer, tiles, p) is Some implies #[trigger] own(p)
            >= 0 by {
        if !before(p, s) {
            assert(p == s);
        }
    }
}

/// Moving the scan from past the end of a row to the start of the next.
proof fn lemma_scan_row(
    layer: RenderLayer,
    tiles: TileTable,
    groups: Seq<Group>,
    own: spec_fn((int, int)) -> int,
    y: int,
)
    requires
        scanned(layer, tiles, groups, own, (layer.layer_width(), y)),
    ensures
        scanned(layer, tiles, groups, own, (0, y + 1)),
{
    assert forall|p: (int, int)|
        inside(layer, p) && before(p, (0, y + 1)) && gid(layer, tiles, p) is Some implies #[trigger] own(p) >= 0 by {
        assert(before(p, (layer.layer_width(), y)));
    }
}

/// A scan that has passed every row leaves the groups of the layer.
proof fn lemma_scan_done(
    layer: RenderLayer,
    tiles: TileTable,
    groups: Seq<Group>,
    ids: Seq<i64>,
    own: spec_fn((int, int)) -> int,
    slot: spec_fn((int, int)) -> int,
    visited: Seq<bool>,
)
    requires
        marked(layer, visited, own),
        settled(layer, tiles, groups, ids, own, slot),
        scanned(layer, tiles, groups, own, (0, layer.layer_height())),
    ensures
        grouping(layer, tiles, groups, visited),
{
    assert forall|p: (int, int)| inside(layer, p) implies visited[spot(layer, p)] == (#[trigger] gid(
        layer,
        tiles,
        p,
    )) is Some by {
        assert(before(p, (0, layer.layer_height())));
        if own(p) >= 0 {
            assert(own(p) < groups.len());
        }
    }
    assert forall|g: int| 0 <= g < groups.len() implies #[trigger] closed_group(layer, tiles, groups[g]) by {
        assert forall|k: int, q: (int, int)|
            #![trigger groups[g].tiles@[k], gid(layer, tiles, q)]
            0 <= k < groups[g].tiles@.len() && touching(at(groups[g].tiles@[k]), q) && gid(layer, tiles, q)
                == gid(layer, tiles, at(groups[g].tiles@[k])) implies exists|j: int|
                0 <= j < groups[g].tiles@.len() && at(#[trigger] groups[g].tiles@[j]) == q by {
            let p = at(groups[g].tiles@[k]);
            assert(own(p) == g);
            assert(well_grouped(layer, tiles, groups[g]));
            assert(inside(layer, q)) by {
                if !inside(layer, q) {
                    lemma_outside_ungrouped(layer, tiles, q);
                }
            }
            assert(own(q) == own(p));
            assert(at(groups[g].tiles@[slot(q)]) == q);
        }
    }
    assert forall|p: (int, int)| inside(layer, p) && (#[trigger] gid(layer, tiles, p)) is Some implies exists|
        g: int,
        k: int,
    | 0 <= g < groups.len() && 0 <= k < groups[g].tiles@.len() && at(#[trigger] groups[g].tiles@[k]) == p by {
        assert(before(p, (0, layer.layer_height())));
        assert(0 <= own(p) < groups.len());
        assert(at(groups[own(p)].tiles@[slot(p)]) == p);
    }
    assert forall|g1: int, k1: int, g2: int, k2: int|
        0 <= g1 < groups.len() && 0 <= k1 < groups[g1].tiles@.len() && 0 <= g2 < groups.len() && 0 <= k2
            < groups[g2].tiles@.len() && at(#[trigger] groups[g1].tiles@[k1]) == at(
            #[trigger] groups[g2].tiles@[k2],
        ) implies g1 == g2 && k1 == k2 by {
        assert(own(at(groups[g1].tiles@[k1])) == g1);
        assert(own(at(groups[g2].tiles@[k2])) == g2);
    }
}

/// The four neighbour offsets, in the order right, left, down, up.
pub(crate) fn offset4(d: usize) -> (o: (i32, i32))
    requires
        d < 4,
    ensures
        forall|c: (int, int)| #[trigger] step4(c, d as int) == (c.0 + o.0, c.1 + o.1),
        -1 <= o.0 <= 1,
        -1 <= o.1 <= 1,
{
    if d == 0 {
        (1, 0)
    } else if d == 1 {
        (-1, 0)
    } else if d == 2 {
        (0, 1)
    } else {
        (0, -1)
    }
}

/// Flood-fills the group seeded at `seed`, marking its cells in `visited`.
fn flood(
    layer: &RenderLayer,
    tiles: &TileTable,
    seed: (i32, i32),
    gid0: i64,
    visited: &mut Vec<bool>,
    Ghost(groups): Ghost<Seq<Group>>,
    Ghost(ids): Ghost<Seq<i64>>,
    Ghost(own0): Ghost<spec_fn((int, int)) -> int>,
    Ghost(slot0): Ghost<spec_fn((int, int)) -> int>,
) -> (r: (Group, Ghost<spec_fn((int, int)) -> int>, Ghost<spec_fn((int, int)) -> int>))
    requires
        tiles.wf(),
        forall|x: int, y: int| #[trigger] tiles.holds(layer.cell(x, y)),
        marked(*layer, old(visited)@, own0),
        settled(*layer, *tiles, groups, ids, own0, slot0),
        scanned(*layer, *tiles, groups, own0, pt(seed)),
        inside(*layer, pt(seed)),
        own0(pt(seed)) == -1,
        gid(*layer, *tiles, pt(seed)) == Some(gid0),
    ensures
        marked(*layer, final(visited)@, r.1@),
        settled(*layer, *tiles, groups.push(r.0), ids.push(gid0), r.1@, r.2@),
        scanned(*layer, *tiles, groups.push(r.0), r.1@, (seed.0 + 1, seed.1 as int)),
        flood_ordered(*layer, *tiles, r.0),
{
    let ghost cur = groups.len() as int;
    let w = layer.width();
    let h = layer.height();
    proof {
        lemma_spot_in(*layer, pt(seed));
        lemma_start(*layer, *tiles, groups, ids, own0, slot0, visited@, seed, gid0);
        lemma_count_set(visited@, spot(*layer, pt(seed)));
        lemma_count_le(visited@.update(spot(*layer, pt(seed)), true));
    }
    let si: i32 = seed.1 * w + seed.0;
    visited.set(si as usize, true);
    let ghost mut own = upd(own0, pt(seed), cur);
    let ghost mut slot = upd(slot0, pt(seed), -1);
    let mut stack: Vec<(i32, i32)> = Vec::new();
    stack.push(seed);
    let mut cells: Vec<(i32, i32, TileRef)> = Vec::new();
    let mut bottom: i32 = seed.1;
    proof {
        assert(stack@ =~= seq![seed]);
        assert(cells@ =~= seq![]);
        assert(stack@.map_values(|c: (i32, i32)| pt(c)) =~= seq![pt(seed)]);
        assert(cells@.map_values(|e: (i32, i32, TileRef)| at(e)) =~= seq![]);
    }
    while stack.len() > 0
        invariant
            tiles.wf(),
            forall|x: int, y: int| #[trigger] tiles.holds(layer.cell(x, y)),
            w == layer.layer_width(),
            h == layer.layer_height(),
            0 <= w <= MAX_SIDE,
            0 <= h <= MAX_SIDE,
            cur == groups.len(),
            count_true(visited@) <= w * h,
            marked(*layer, visited@, own),
            settled(*layer, *tiles, groups, ids, own, slot),
            flooding(*layer, *tiles, groups, cells@, stack@, own, slot, gid0, seed, bottom as int, false),
            forall|i: int| 0 <= i < groups.len() ==> before(at(#[trigger] groups[i].tiles@[0]), pt(seed)),
            stack@.map_values(|c: (i32, i32)| pt(c)) == flood_state(
                *layer,
                *tiles,
                Some(gid0),
                pt(seed),
                cells@.len() as nat,
            ).0,
            cells@.map_values(|e: (i32, i32, TileRef)| at(e)) == flood_state(
                *layer,
                *tiles,
                Some(gid0),
                pt(seed),
                cells@.len() as nat,
            ).1,
        decreases 2 * (w * h - count_true(visited@)) + stack@.len(),
    {
        let ghost m0 = 2 * (w * h - count_true(visited@)) + stack@.len();
        let ghost before_stack = stack@;
        let c = stack.pop().unwrap();
        let t = layer.at(c.0, c.1);
        proof {
            assert(stack@ =~= before_stack.drop_last());
            lemma_pop(*layer, *tiles, groups, cells@, before_stack, own, slot, gid0, seed, bottom as int, t);
            lemma_pop_settled(*layer, *tiles, groups, ids, own, slot, pt(c), cells@.len() as int);
        }
        let ghost k = cells@.len() as int;
        cells.push((c.0, c.1, t));
        let ghost s0 = stack@.map_values(|c: (i32, i32)| pt(c));
        let ghost cs1 = cells@.map_values(|e: (i32, i32, TileRef)| at(e));
        proof {
            slot = upd(slot, pt(c), k);
            let prev = flood_state(*layer, *tiles, Some(gid0), pt(seed), k as nat);
            assert(prev.0 == before_stack.map_values(|c: (i32, i32)| pt(c)));
            assert(prev.0.len() > 0);
            assert(prev.0.last() == pt(c));
            assert(prev.0.drop_last() =~= s0);
            assert(cs1 =~= prev.1.push(pt(c)));
            assert(flood_state(*layer, *tiles, Some(gid0), pt(seed), (k + 1) as nat) == (
                look(*layer, *tiles, Some(gid0), pt(c), 4, s0, cs1),
                cs1,
            ));
        }
        if c.1 > bottom {
            bottom = c.1;
        }
        let mut d: usize = 0;
        while d < 4
            invariant
                tiles.wf(),
                forall|x: int, y: int| #[trigger] tiles.holds(layer.cell(x, y)),
                w == layer.layer_width(),
                h == layer.layer_height(),
                0 <= w <= MAX_SIDE,
                0 <= h <= MAX_SIDE,
                cur == groups.len(),
                count_true(visited@) <= w * h,
                2 * (w * h - count_true(visited@)) + stack@.len() < m0,
                marked(*layer, visited@, own),
                settled(*layer, *tiles, groups, ids, own, slot),
                flooding(*layer, *tiles, groups, cells@, stack@, own, slot, gid0, seed, bottom as int, true),
                forall|i: int| 0 <= i < groups.len() ==> before(at(#[trigger] groups[i].tiles@[0]), pt(seed)),
                cells@.len() > 0,
                cells@.len() == k + 1,
                at(cells@.last()) == pt(c),
                cells@.map_values(|e: (i32, i32, TileRef)| at(e)) == cs1,
                stack@.map_values(|c: (i32, i32)| pt(c)) == look(*layer, *tiles, Some(gid0), pt(c), d as int, s0, cs1),
                flood_state(*layer, *tiles, Some(gid0), pt(seed), (k + 1) as nat) == (
                    look(*layer, *tiles, Some(gid0), pt(c), 4, s0, cs1),
                    cs1,
                ),
                inside(*layer, pt(c)),
                d <= 4,
                forall|e: int|
                    0 <= e < d && gid(*layer, *tiles, step4(pt(c), e)) == Some(gid0) ==> own(
                        #[trigger] step4(pt(c), e),
                    ) >= 0,
            decreases 4 - d,
        {
            let o = offset4(d);
            let nx: i32 = c.0 + o.0;
            let ny: i32 = c.1 + o.1;
            let ghost n = (nx as int, ny as int);
            assert(step4(pt(c), d as int) == n);
            let cell = layer.at(nx, ny);
            assert(tiles.holds(layer.cell(nx as int, ny as int)));
            let same = match tiles.group_of(cell) {
                Some(v) => v == gid0,
                None => false,
            };
            let ghost sp = stack@.map_values(|c: (i32, i32)| pt(c));
            assert(same == (gid(*layer, *tiles, n) == Some(gid0)));
            if !same {
                assert(look(*layer, *tiles, Some(gid0), pt(c), d + 1, s0, cs1) == sp);
            }
            if same {
                proof {
                    if !inside(*layer, n) {
                        lemma_outside_ungrouped(*layer, *tiles, n);
                    }
                    lemma_spot_in(*layer, n);
                }
                let ni: i32 = ny * w + nx;
                proof {
                    lemma_marked_taken(
                        *layer,
                        *tiles,
                        groups,
                        ids,
                        cells@,
                        stack@,
                        own,
                        slot,
                        gid0,
                        seed,
                        bottom as int,
                        n,
                    );
                }
                if visited[ni as usize] {
                    assert(look(*layer, *tiles, Some(gid0), pt(c), d + 1, s0, cs1) == sp);
                }
                if !visited[ni as usize] {
                    proof {
                        assert(own(n) == -1);
                        lemma_visit(
                            *layer,
                            *tiles,
                            groups,
                            ids,
                            cells@,
                            stack@,
                            own,
                            slot,
                            gid0,
                            seed,
                            bottom as int,
                            visited@,
                            (nx, ny),
                        );
                        lemma_count_set(visited@, ni as int);
                        lemma_count_le(visited@.update(ni as int, true));
                    }
                    visited.set(ni as usize, true);
                    stack.push((nx, ny));
                    assert(stack@.map_values(|c: (i32, i32)| pt(c)) =~= sp.push(n));
                    assert(look(*layer, *tiles, Some(gid0), pt(c), d + 1, s0, cs1) == sp.push(n));
                    proof {
                        own = upd(own, n, cur);
                        slot = upd(slot, n, -1);
                    }
                }
            }
            d = d + 1;
        }
        proof {
            lemma_close(*layer, *tiles, groups, cells@, stack@, own, slot, gid0, seed, bottom as int);
        }
    }
    let group = Group { bottom, tiles: cells };
    proof {
        assert(stack@ =~= seq![]);
        assert(group.tiles@.len() > 0);
        assert(at(group.tiles@[0]) == pt(seed));
        lemma_finish(*layer, *tiles, groups, ids, group, own, slot, gid0, seed);
    }
    (group, Ghost(own), Ghost(slot))
}

/// The groups of `layer`: every 4-connected run of cells whose tiles share a group id, seeded in
/// row-major order, with the row-major mask of grouped cells.
pub fn group_layer(layer: &RenderLayer, tiles: &TileTable) -> (r: (Vec<Group>, Vec<bool>))
    requires
        tiles.wf(),
        forall|x: int, y: int| #[trigger] tiles.holds(layer.cell(x, y)),
    ensures
        grouping(*layer, *tiles, r.0@, r.1@),
        forall|g: int| 0 <= g < r.0@.len() ==> #[trigger] flood_ordered(*layer, *tiles, r.0@[g]),
{
    let w = layer.width();
    let h = layer.height();
    proof {
        assert(w * h <= 46340 * 46340) by (nonlinear_arith)
            requires
                0 <= w <= 46340,
                0 <= h <= 46340,
        ;
    }
    let total: usize = (w * h) as usize;
    let mut visited: Vec<bool> = Vec::new();
    let mut i: usize = 0;
    while i < total
        invariant
            i <= total,
            visited@.len() == i,
            forall|j: int| 0 <= j < i ==> !visited@[j],
        decreases total - i,
    {
        visited.push(false);
        i = i + 1;
    }
    let ghost mut own: spec_fn((int, int)) -> int = |p: (int, int)| -1int;
    let ghost mut slot: spec_fn((int, int)) -> int = |p: (int, int)| -1int;
    let ghost mut ids: Seq<i64> = seq![];
    let mut groups: Vec<Group> = Vec::new();
    proof {
        assert forall|p: (int, int)| inside(*layer, p) implies visited@[spot(*layer, p)] == (#[trigger] own(p)
            >= 0) by {
            lemma_spot_in(*layer, p);
        }
    }
    let mut sy: i32 = 0;
    while sy < h
        invariant
            tiles.wf(),
            forall|x: int, y: int| #[trigger] tiles.holds(layer.cell(x, y)),
            w == layer.layer_width(),
            h == layer.layer_height(),
            0 <= w <= MAX_SIDE,
            0 <= h <= MAX_SIDE,
            0 <= sy <= h,
            marked(*layer, visited@, own),
            settled(*layer, *tiles, groups@, ids, own, slot),
            scanned(*layer, *tiles, groups@, own, (0, sy as int)),
            forall|g: int| 0 <= g < groups@.len() ==> #[trigger] flood_ordered(*layer, *tiles, groups@[g]),
        decreases h - sy,
    {
        let mut sx: i32 = 0;
        while sx < w
            invariant
                tiles.wf(),
                forall|x: int, y: int| #[trigger] tiles.holds(layer.cell(x, y)),
                w == layer.layer_width(),
                h == layer.layer_height(),
                0 <= w <= MAX_SIDE,
                0 <= h <= MAX_SIDE,
                0 <= sy < h,
                0 <= sx <= w,
                marked(*layer, visited@, own),
                settled(*layer, *tiles, groups@, ids, own, slot),
                scanned(*layer, *tiles, groups@, own, (sx as int, sy as int)),
                forall|g: int| 0 <= g < groups@.len() ==> #[trigger] flood_ordered(*layer, *tiles, groups@[g]),
            decreases w - sx,
        {
            let ghost s = (sx as int, sy as int);
            let cell = layer.at(sx, sy);
            assert(tiles.holds(layer.cell(sx as int, sy as int)));
            match tiles.group_of(cell) {
                Some(g0) => {
                    proof {
                        lemma_spot_in(*layer, s);
                    }
                    let si: i32 = sy * w + sx;
                    if !visited[si as usize] {
                        let (group, Ghost(own2), Ghost(slot2)) = flood(
                            layer,
                            tiles,
                            (sx, sy),
                            g0,
                            &mut visited,
                            Ghost(groups@),
                            Ghost(ids),
                            Ghost(own),
                            Ghost(slot),
                        );
                        let ghost before = groups@;
                        groups.push(group);
                        proof {
                            assert forall|g: int| 0 <= g < groups@.len() implies #[trigger] flood_ordered(
                                *layer,
                                *tiles,
                                groups@[g],
                            ) by {
                                if g < before.len() {
                                    assert(groups@[g] == before[g]);
                                }
                            }
                            own = own2;
                            slot = slot2;
                            ids = ids.push(g0);
                        }
                    } else {
                        proof {
                            lemma_scan_skip(*layer, *tiles, groups@, own, s);
                        }
                    }
                },
                None => {
                    proof {
                        lemma_scan_skip(*layer, *tiles, groups@, own, s);
                    }
                },
            }
            sx = sx + 1;
        }
        proof {
            lemma_scan_row(*layer, *tiles, groups@, own, sy as int);
        }
        sy = sy + 1;
    }
    proof {
        lemma_scan_done(*layer, *tiles, groups@, ids, own, slot, visited@);
    }
    (groups, visited)
}

/// The z-sorted groups of the first dynamic layer and its mask of grouped cells; nothing when
/// no layer is dynamic.
pub fn compute_groups(layers: &Vec<RenderLayer>, tiles: &TileTable) -> (r: (Vec<Group>, Vec<bool>))
    requires
        tiles.wf(),
        layers_held(layers@, *tiles),
    ensures
        (forall|d: int| 0 <= d < layers@.len() ==> !(#[trigger] layers@[d].is_dynamic())) ==> r.0@.len() == 0
            && r.1@.len() == 0,
        forall|d: int| #[trigger] first_dynamic(layers@, d) ==> grouping(layers@[d], *tiles, r.0@, r.1@),
        forall|d: int, g: int|
            first_dynamic(layers@, d) && 0 <= g < r.0@.len() ==> #[trigger] flood_ordered(
                layers@[d],
                *tiles,
                #[trigger] r.0@[g],
            ),
{
    let mut d: usize = 0;
    while d < layers.len()
        invariant
            d <= layers@.len(),
            tiles.wf(),
            layers_held(layers@, *tiles),
            forall|e: int| 0 <= e < d ==> !(#[trigger] layers@[e].is_dynamic()),
        decreases layers@.len() - d,
    {
        if layers[d].dynamic() {
            let layer = &layers[d];
            assert forall|x: int, y: int| #[trigger] tiles.holds(layer.cell(x, y)) by {
                assert(tiles.holds(layers@[d as int].cell(x, y)));
            }
            let r = group_layer(layer, tiles);
            proof {
                assert forall|e: int| #[trigger] first_dynamic(layers@, e) implies e == d by {
                    if e < d {
                    } else if e > d {
                        assert(!layers@[d as int].is_dynamic());
                    }
                }
            }
            return r;
        }
        d = d + 1;
    }
    (Vec::new(), Vec::new())
}

} // verus!
