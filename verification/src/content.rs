//! The content tables and the rules that hold between them: areas (exactly one spawn area,
//! unique ids), npc spawn rows, reward rows and item kinds, and the references among them.

use vstd::prelude::*;

use crate::actors::SfxId;
use crate::assets::{bytes, file_name_of, find, found_at, under, AssetFile, MAPS};
use crate::protocol::ItemId;
use crate::text::{chars_of, owned, push_char, slice_chars, str_eq, string_of};
use crate::web::{find_chars, find_from, lemma_find_from_bounds};
use crate::tiles::AreaId;

verus! {

/// A map asset's name.
pub struct MapRef(pub String);

/// One row of the area table.
pub struct AreaDef {
    pub id: String,
    pub map: MapRef,
    pub spawn: Option<bool>,
}

/// What a content table breaks.
#[derive(Debug, PartialEq, Eq)]
pub enum TableError {
    /// A row reuses an earlier row's id.
    DuplicateId(String),
    /// Not exactly one area is the spawn area; the count found.
    SpawnCount(usize),
    /// A reference names no row of the table it points into.
    Unknown(String),
    /// An area names a map that is not among the embedded maps.
    UnknownMap(String),
    /// A sound effect's source file is not among the embedded assets; the sound's id.
    MissingSource(String),
}

/// One row of the sound-effect table, as far as the content rules read it: its id and the
/// embedded file it plays.
pub struct SfxDef {
    pub id: SfxId,
    pub src: String,
}

/// The first position below `n` where `ok` fails, if any.
pub open spec fn first_failing(n: int, ok: spec_fn(int) -> bool) -> Option<int> {
    if exists|i: int| 0 <= i < n && !#[trigger] ok(i) {
        Some(choose|i: int| 0 <= i < n && !#[trigger] ok(i) && forall|e: int| 0 <= e < i ==> #[trigger] ok(e))
    } else {
        None
    }
}

/// Proves the spec form of the first failure from a search's answer.
proof fn lemma_first_failing(n: int, ok: spec_fn(int) -> bool, r: Option<int>)
    requires
        match r {
            Some(i) => 0 <= i < n && !ok(i) && forall|e: int| 0 <= e < i ==> #[trigger] ok(e),
            None => forall|i: int| 0 <= i < n ==> #[trigger] ok(i),
        },
    ensures
        first_failing(n, ok) == r,
{
    if let Some(i) = r {
        assert(!ok(i));
        let c = choose|j: int| 0 <= j < n && !#[trigger] ok(j) && forall|e: int| 0 <= e < j ==> #[trigger] ok(e);
        if c < i {
            assert(ok(c));
        } else if c > i {
            assert(ok(i));
        }
    }
}

/// The file a map called `name` is read from.
pub open spec fn map_file(name: Seq<char>) -> Seq<char> {
    name + seq!['.', 't', 'm', 'x']
}

/// Whether a map called `name` is among the embedded maps: some file under the maps directory
/// has its file name.
pub open spec fn has_map(files: Seq<AssetFile>, name: Seq<char>) -> bool {
    exists|i: int| found_at(files, MAPS@, map_file(name), i)
}

/// Row `i` of `defs` names an embedded map.
pub open spec fn mapped(files: Seq<AssetFile>, defs: Seq<AreaDef>) -> spec_fn(int) -> bool {
    |i: int| has_map(files, defs[i].map.0@)
}

/// Whether an embedded file is called exactly `name`.
pub open spec fn has_file(files: Seq<AssetFile>, name: Seq<char>) -> bool {
    exists|i: int| 0 <= i < files.len() && files[i].0@ == name
}

/// Sound `i` of `defs` plays an embedded file.
pub open spec fn sourced(files: Seq<AssetFile>, defs: Seq<SfxDef>) -> spec_fn(int) -> bool {
    |i: int| has_file(files, defs[i].src@)
}

/// Whether a map called `name` is embedded.
pub fn map_known(files: &[AssetFile], name: &str) -> (b: bool)
    ensures
        b == has_map(files@, name@),
{
    let mut reference = owned(name);
    push_char(&mut reference, '.');
    push_char(&mut reference, 't');
    push_char(&mut reference, 'm');
    push_char(&mut reference, 'x');
    assert(reference@ =~= map_file(name@));
    match find(files, MAPS, reference.as_str()) {
        Some(_) => true,
        None => {
            assert forall|i: int| !found_at(files@, MAPS@, map_file(name@), i) by {
                if found_at(files@, MAPS@, map_file(name@), i) {
                    assert(under(files@[i].0@, MAPS@));
                }
            }
            false
        },
    }
}

/// An npc definition's index in the npc table.
#[derive(Clone, Copy, PartialEq, Eq, Debug, Default, Hash)]
pub struct NpcId(pub u16);

/// Marks an entity as an npc of definition `def`, spawned by spawn row `group`.
#[derive(Clone, Copy, PartialEq, Eq, Debug)]
pub struct Npc {
    pub def: NpcId,
    pub group: u32,
}

/// How an npc reacts to players.
#[derive(Clone, Copy, PartialEq, Eq, Structural, Debug)]
pub enum Ai {
    Pacifist,
    Defensive,
    Aggressive,
    Protective,
}

/// One row of the spawn table: `population` npcs of `npc` live in `area`.
#[derive(Clone, Copy, PartialEq, Eq, Debug)]
pub struct SpawnRow {
    pub npc: NpcId,
    pub area: AreaId,
    pub population: u32,
}

/// What kind of item a definition is.
#[derive(Clone, Copy, PartialEq, Eq, Structural, Debug)]
pub enum ItemClass {
    Consumable,
    Resource,
    Equipment,
}

/// What a reward row grants: experience, or an item that drops always (`guaranteed`) or by a
/// chance roll.
#[derive(Clone, Copy, PartialEq, Eq, Debug)]
pub enum RewardKind {
    Xp,
    Item { item: ItemId, guaranteed: bool },
}

/// One row of the reward table.
#[derive(Clone, Copy, PartialEq, Eq, Debug)]
pub struct Reward {
    pub npc: NpcId,
    pub amount: u32,
    pub kind: RewardKind,
}

/// Row `k` repeats the id of an earlier row.
pub open spec fn repeats(ids: Seq<Seq<char>>, k: int) -> bool {
    exists|j: int| 0 <= j < k && ids[j] == ids[k]
}

/// The first row that repeats an earlier row's id, if any.
pub open spec fn first_repeat(ids: Seq<Seq<char>>) -> Option<int> {
    if exists|k: int| 0 <= k < ids.len() && #[trigger] repeats(ids, k) {
        Some(choose|k: int| 0 <= k < ids.len() && repeats(ids, k) && forall|e: int| 0 <= e < k ==> !#[trigger] repeats(ids, e))
    } else {
        None
    }
}

pub open spec fn views(v: Seq<String>) -> Seq<Seq<char>> {
    v.map_values(|s: String| s@)
}

/// The position of the first row whose id is `id`, if any: how a table row names a row of
/// another table.
pub fn position_of(ids: &Vec<String>, id: &str) -> (r: Option<usize>)
    ensures
        match r {
            Some(i) => i < ids@.len() && ids@[i as int]@ == id@ && forall|k: int|
                0 <= k < i ==> (#[trigger] ids@[k])@ != id@,
            None => forall|k: int| 0 <= k < ids@.len() ==> (#[trigger] ids@[k])@ != id@,
        },
{
    let mut i: usize = 0;
    while i < ids.len()
        invariant
            i <= ids@.len(),
            forall|k: int| 0 <= k < i ==> (#[trigger] ids@[k])@ != id@,
        decreases ids@.len() - i,
    {
        if str_eq(ids[i].as_str(), id) {
            return Some(i);
        }
        i = i + 1;
    }
    None
}

/// A reward row of type `kind` for `npc`: `"xp"` grants experience, `"item"` grants `item`
/// (which it must name), dropped always unless the row gives a chance; any other row is
/// refused.
pub fn reward_row(npc: NpcId, amount: u32, kind: &str, item: Option<ItemId>, chance_given: bool) -> (r: Option<
    Reward,
>)
    ensures
        kind@ == "xp"@ ==> r == Some(Reward { npc, amount, kind: RewardKind::Xp }),
        kind@ == "item"@ && item is Some ==> r == Some(
            Reward { npc, amount, kind: RewardKind::Item { item: item->0, guaranteed: !chance_given } },
        ),
        kind@ != "xp"@ && !(kind@ == "item"@ && item is Some) ==> r is None,
{
    proof {
        reveal_strlit("xp");
        reveal_strlit("item");
    }
    if str_eq(kind, "xp") {
        assert(kind@.len() == 2 && "item"@.len() == 4);
        Some(Reward { npc, amount, kind: RewardKind::Xp })
    } else if str_eq(kind, "item") {
        match item {
            Some(it) => Some(Reward { npc, amount, kind: RewardKind::Item { item: it, guaranteed: !chance_given } }),
            None => None,
        }
    } else {
        None
    }
}

/// The position of the first row that repeats an earlier row's id.
pub fn repeated_id(ids: &Vec<String>) -> (r: Option<usize>)
    ensures
        match r {
            Some(k) => k < ids@.len() && repeats(views(ids@), k as int) && forall|e: int|
                0 <= e < k ==> !#[trigger] repeats(views(ids@), e),
            None => forall|k: int| 0 <= k < ids@.len() ==> !#[trigger] repeats(views(ids@), k),
        },
{
    let ghost v = views(ids@);
    let mut k: usize = 0;
    while k < ids.len()
        invariant
            k <= ids@.len(),
            v == views(ids@),
            forall|e: int| 0 <= e < k ==> !#[trigger] repeats(v, e),
        decreases ids@.len() - k,
    {
        let mut j: usize = 0;
        while j < k
            invariant
                j <= k < ids@.len(),
                v == views(ids@),
                forall|e: int| 0 <= e < k ==> !#[trigger] repeats(v, e),
                forall|e: int| 0 <= e < j ==> v[e] != v[k as int],
            decreases k - j,
        {
            if str_eq(ids[j].as_str(), ids[k].as_str()) {
                assert(v[j as int] == v[k as int]);
                assert(repeats(v, k as int));
                return Some(k);
            }
            j = j + 1;
        }
        assert(!repeats(v, k as int));
        k = k + 1;
    }
    None
}

/// Proves the spec form of the first repeat from the search's answer.
pub proof fn lemma_first_repeat(ids: Seq<Seq<char>>, r: Option<int>)
    requires
        match r {
            Some(k) => 0 <= k < ids.len() && repeats(ids, k) && forall|e: int| 0 <= e < k ==> !#[trigger] repeats(ids, e),
            None => forall|k: int| 0 <= k < ids.len() ==> !#[trigger] repeats(ids, k),
        },
    ensures
        first_repeat(ids) == r,
{
    match r {
        Some(k) => {
            assert(repeats(ids, k));
            let c = choose|c: int| 0 <= c < ids.len() && repeats(ids, c) && forall|e: int| 0 <= e < c ==> !#[trigger] repeats(ids, e);
            if c < k {
                assert(!repeats(ids, c));
            } else if c > k {
                assert(!repeats(ids, k));
            }
        },
        None => {},
    }
}

/// The number of rows among the first `n` that are the spawn area.
pub open spec fn spawn_count(defs: Seq<AreaDef>, n: int) -> nat
    decreases n,
{
    if n <= 0 {
        0
    } else {
        spawn_count(defs, n - 1) + if defs[n - 1].spawn == Some(true) {
            1nat
        } else {
            0nat
        }
    }
}

pub open spec fn area_ids(defs: Seq<AreaDef>) -> Seq<Seq<char>> {
    defs.map_values(|d: AreaDef| d.id@)
}

/// Checks the area table: every area names an embedded map, ids are unique, then exactly one
/// area is the spawn area.
pub fn check_areas(files: &[AssetFile], defs: &Vec<AreaDef>) -> (r: Result<(), TableError>)
    ensures
        match first_failing(defs@.len() as int, mapped(files@, defs@)) {
            Some(k) => r matches Err(TableError::UnknownMap(m)) && m@ == defs@[k].map.0@,
            None => match first_repeat(area_ids(defs@)) {
                Some(k) => r matches Err(TableError::DuplicateId(s)) && s@ == defs@[k].id@,
                None => if spawn_count(defs@, defs@.len() as int) == 1 {
                    r is Ok
                } else {
                    r matches Err(TableError::SpawnCount(n)) && n == spawn_count(defs@, defs@.len() as int)
                },
            },
        },
{
    let mut m: usize = 0;
    while m < defs.len()
        invariant
            m <= defs@.len(),
            forall|k: int| 0 <= k < m ==> #[trigger] mapped(files@, defs@)(k),
        decreases defs@.len() - m,
    {
        if !map_known(files, defs[m].map.0.as_str()) {
            proof {
                assert(!mapped(files@, defs@)(m as int));
                lemma_first_failing(defs@.len() as int, mapped(files@, defs@), Some(m as int));
            }
            return Err(TableError::UnknownMap(defs[m].map.0.clone()));
        }
        m = m + 1;
    }
    proof {
        lemma_first_failing(defs@.len() as int, mapped(files@, defs@), None);
    }
    let mut ids: Vec<String> = Vec::new();
    let mut i: usize = 0;
    while i < defs.len()
        invariant
            i <= defs@.len(),
            ids@.len() == i,
            forall|k: int| 0 <= k < i ==> (#[trigger] ids@[k])@ == defs@[k].id@,
        decreases defs@.len() - i,
    {
        ids.push(defs[i].id.clone());
        i = i + 1;
    }
    assert(views(ids@) =~= area_ids(defs@));
    let rep = repeated_id(&ids);
    proof {
        lemma_first_repeat(views(ids@), match rep {
            Some(k) => Some(k as int),
            None => None,
        });
    }
    if let Some(k) = rep {
        return Err(TableError::DuplicateId(defs[k].id.clone()));
    }
    let mut count: usize = 0;
    let mut j: usize = 0;
    while j < defs.len()
        invariant
            j <= defs@.len(),
            count == spawn_count(defs@, j as int),
            count <= j,
        decreases defs@.len() - j,
    {
        if let Some(true) = defs[j].spawn {
            count = count + 1;
        }
        j = j + 1;
    }
    if count == 1 {
        Ok(())
    } else {
        Err(TableError::SpawnCount(count))
    }
}

/// The spawn area: the first row marked as the spawn area.
pub fn spawn_zone(defs: &Vec<AreaDef>) -> (r: AreaId)
    requires
        spawn_count(defs@, defs@.len() as int) >= 1,
        defs@.len() <= u32::MAX,
    ensures
        r.0 < defs@.len(),
        defs@[r.0 as int].spawn == Some(true),
        forall|k: int| 0 <= k < r.0 ==> defs@[k].spawn != Some(true),
{
    let mut i: usize = 0;
    while i < defs.len()
        invariant
            i <= defs@.len(),
            defs@.len() <= u32::MAX,
            spawn_count(defs@, i as int) == 0,
            spawn_count(defs@, defs@.len() as int) >= 1,
            forall|k: int| 0 <= k < i ==> defs@[k].spawn != Some(true),
        decreases defs@.len() - i,
    {
        if let Some(true) = defs[i].spawn {
            return AreaId(i as u32);
        }
        i = i + 1;
    }
    proof {
        assert(spawn_count(defs@, i as int) == 0);
    }
    AreaId(0)
}

/// The area whose id is `id`, by its first row.
pub fn index(defs: &Vec<AreaDef>, id: &str) -> (r: Option<AreaId>)
    requires
        defs@.len() <= u32::MAX,
    ensures
        match r {
            Some(a) => a.0 < defs@.len() && defs@[a.0 as int].id@ == id@ && forall|k: int|
                0 <= k < a.0 ==> (#[trigger] defs@[k]).id@ != id@,
            None => forall|k: int| 0 <= k < defs@.len() ==> (#[trigger] defs@[k]).id@ != id@,
        },
{
    let mut i: usize = 0;
    while i < defs.len()
        invariant
            i <= defs@.len(),
            defs@.len() <= u32::MAX,
            forall|k: int| 0 <= k < i ==> (#[trigger] defs@[k]).id@ != id@,
        decreases defs@.len() - i,
    {
        if str_eq(defs[i].id.as_str(), id) {
            return Some(AreaId(i as u32));
        }
        i = i + 1;
    }
    None
}

/// The larger of the requested area count and the table's.
pub open spec fn configured_count(requested: int, base: int) -> int {
    if requested > base {
        requested
    } else {
        base
    }
}

/// How many areas the world holds when `requested` are asked for over a table of `base`:
/// never fewer than the table's own.
pub fn configure_areas(requested: usize, base: usize) -> (n: usize)
    ensures
        n == configured_count(requested as int, base as int),
{
    if requested > base {
        requested
    } else {
        base
    }
}

/// The world never holds fewer areas than asked for, nor fewer than its table: the count is
/// the larger of the two.
pub proof fn lemma_configured_count(requested: int, base: int)
    ensures
        configured_count(requested, base) >= base,
        configured_count(requested, base) >= requested,
        configured_count(requested, base) == base || configured_count(requested, base) == requested,
{
}

/// The table area that extra area `id` clones.
pub fn clone_source(id: u32, base: u32) -> (r: u32)
    requires
        base > 0,
    ensures
        r == id % base,
        r < base,
{
    id % base
}

/// The world's areas when `requested` are asked for over a table of `base`: one entry per
/// area id, naming the table area it is built from and whether it keeps its portals. The
/// table's own areas come first, each built from itself with its portals; every extra area
/// clones table area `id % base` without them.
pub fn area_layout(requested: usize, base: usize) -> (r: Vec<(u32, bool)>)
    requires
        base > 0 || requested == 0,
        requested <= u32::MAX,
        base <= u32::MAX,
    ensures
        r@.len() == configured_count(requested as int, base as int),
        forall|i: int|
            0 <= i < r@.len() ==> (#[trigger] r@[i]).0 == i % (base as int) && r@[i].0 < base && (r@[i].1
                <==> i < base),
{
    let n = configure_areas(requested, base);
    let mut r: Vec<(u32, bool)> = Vec::new();
    let mut i: usize = 0;
    while i < n
        invariant
            n == configured_count(requested as int, base as int),
            n <= u32::MAX,
            base > 0 || n == 0,
            base <= u32::MAX,
            i <= n,
            r@.len() == i,
            forall|k: int|
                0 <= k < i ==> (#[trigger] r@[k]).0 == k % (base as int) && r@[k].0 < base && (r@[k].1
                    <==> k < base),
        decreases n - i,
    {
        let source = clone_source(i as u32, base as u32);
        r.push((source, i < base));
        i = i + 1;
    }
    r
}

/// The spawn rows of `zone` with their row numbers, which name the spawn group of the npcs
/// they populate, in table order.
pub fn spawns(rows: &Vec<SpawnRow>, zone: AreaId) -> (r: Vec<(u32, SpawnRow)>)
    requires
        rows@.len() <= u32::MAX,
    ensures
        forall|i: int| 0 <= i < r@.len() ==> {
            &&& (#[trigger] r@[i]).0 < rows@.len()
            &&& rows@[r@[i].0 as int] == r@[i].1
            &&& r@[i].1.area == zone
        },
        forall|i: int, j: int| 0 <= i < j < r@.len() ==> (#[trigger] r@[i]).0 < (#[trigger] r@[j]).0,
        forall|k: int|
            0 <= k < rows@.len() && (#[trigger] rows@[k]).area == zone ==> exists|i: int|
                0 <= i < r@.len() && (#[trigger] r@[i]).0 == k,
{
    let mut out: Vec<(u32, SpawnRow)> = Vec::new();
    let mut k: usize = 0;
    while k < rows.len()
        invariant
            k <= rows@.len(),
            rows@.len() <= u32::MAX,
            forall|i: int| 0 <= i < out@.len() ==> {
                &&& (#[trigger] out@[i]).0 < k
                &&& rows@[out@[i].0 as int] == out@[i].1
                &&& out@[i].1.area == zone
            },
            forall|i: int, j: int| 0 <= i < j < out@.len() ==> (#[trigger] out@[i]).0 < (#[trigger] out@[j]).0,
            forall|c: int|
                0 <= c < k && (#[trigger] rows@[c]).area == zone ==> exists|i: int|
                    0 <= i < out@.len() && (#[trigger] out@[i]).0 == c,
        decreases rows@.len() - k,
    {
        let row = rows[k];
        if row.area.0 == zone.0 {
            let ghost before = out@;
            out.push((k as u32, row));
            proof {
                assert forall|c: int|
                    0 <= c < k + 1 && (#[trigger] rows@[c]).area == zone implies exists|i: int|
                        0 <= i < out@.len() && (#[trigger] out@[i]).0 == c by {
                    if c == k {
                        assert(out@[before.len() as int].0 == c);
                    } else {
                        let i = choose|i: int| 0 <= i < before.len() && (#[trigger] before[i]).0 == c;
                        assert(out@[i] == before[i]);
                    }
                }
            }
        }
        k = k + 1;
    }
    out
}

/// A spawn point for an npc: the walkable node that a random draw `draw` picks, or `None` when
/// the area has no walkable node.
pub fn random_walkable(draw: u64, nodes: &Vec<(i32, i32)>) -> (r: Option<(i32, i32)>)
    ensures
        nodes@.len() == 0 ==> r is None,
        nodes@.len() > 0 ==> r == Some(nodes@[(draw % (nodes@.len() as u64)) as int]),
{
    if nodes.len() == 0 {
        return None;
    }
    let i = draw % (nodes.len() as u64);
    Some(nodes[i as usize])
}

/// The reward rows of `npc`, in table order.
pub fn rewards_for(rewards: &Vec<Reward>, npc: NpcId) -> (r: Vec<Reward>)
    ensures
        r@ == rewards@.filter(|w: Reward| w.npc == npc),
{
    let mut out: Vec<Reward> = Vec::new();
    let mut k: usize = 0;
    while k < rewards.len()
        invariant
            k <= rewards@.len(),
            out@ == rewards@.subrange(0, k as int).filter(|w: Reward| w.npc == npc),
        decreases rewards@.len() - k,
    {
        let w = rewards[k];
        proof {
            assert(rewards@.subrange(0, k + 1).drop_last() =~= rewards@.subrange(0, k as int));
            reveal(Seq::filter);
        }
        if w.npc.0 == npc.0 {
            out.push(w);
        }
        k = k + 1;
    }
    assert(rewards@.subrange(0, rewards@.len() as int) =~= rewards@);
    out
}

/// Whether `w` drops a consumable item for sure, by the item classes `classes`.
pub open spec fn sure_consumable(w: Reward, classes: Seq<ItemClass>) -> bool {
    match w.kind {
        RewardKind::Item { item, guaranteed } => guaranteed && item.0 < classes.len()
            && classes[item.0 as int] == ItemClass::Consumable,
        RewardKind::Xp => false,
    }
}

/// Whether npc `npc` has a reward row that drops a consumable for sure.
pub open spec fn drops_sure_consumable(rewards: Seq<Reward>, classes: Seq<ItemClass>, npc: NpcId) -> bool {
    exists|i: int| 0 <= i < rewards.len() && (#[trigger] rewards[i]).npc == npc && sure_consumable(rewards[i], classes)
}

/// The npc of the first spawn row of `zone` whose rewards include a consumable that always
/// drops; `None` if no such row.
pub fn loot_npc(rows: &Vec<SpawnRow>, zone: AreaId, rewards: &Vec<Reward>, classes: &Vec<ItemClass>) -> (r:
    Option<NpcId>)
    ensures
        match r {
            Some(n) => exists|k: int|
                0 <= k < rows@.len() && (#[trigger] rows@[k]).area == zone && rows@[k].npc == n
                    && drops_sure_consumable(rewards@, classes@, n) && forall|e: int|
                    0 <= e < k && (#[trigger] rows@[e]).area == zone ==> !drops_sure_consumable(
                        rewards@,
                        classes@,
                        rows@[e].npc,
                    ),
            None => forall|k: int|
                0 <= k < rows@.len() && (#[trigger] rows@[k]).area == zone ==> !drops_sure_consumable(
                    rewards@,
                    classes@,
                    rows@[k].npc,
                ),
        },
{
    let mut k: usize = 0;
    while k < rows.len()
        invariant
            k <= rows@.len(),
            forall|e: int|
                0 <= e < k && (#[trigger] rows@[e]).area == zone ==> !drops_sure_consumable(
                    rewards@,
                    classes@,
                    rows@[e].npc,
                ),
        decreases rows@.len() - k,
    {
        let row = rows[k];
        if row.area.0 == zone.0 {
            let mut i: usize = 0;
            while i < rewards.len()
                invariant
                    i <= rewards@.len(),
                    k < rows@.len(),
                    row == rows@[k as int],
                    row.area == zone,
                    forall|e: int|
                        0 <= e < k && (#[trigger] rows@[e]).area == zone ==> !drops_sure_consumable(
                            rewards@,
                            classes@,
                            rows@[e].npc,
                        ),
                    forall|j: int|
                        0 <= j < i && (#[trigger] rewards@[j]).npc == row.npc ==> !sure_consumable(
                            rewards@[j],
                            classes@,
                        ),
                decreases rewards@.len() - i,
            {
                let w = rewards[i];
                assert(w == rewards@[i as int]);
                if w.npc.0 == row.npc.0 {
                    match w.kind {
                        RewardKind::Item { item, guaranteed } => {
                            if guaranteed && (item.0 as usize) < classes.len() {
                                match classes[item.0 as usize] {
                                    ItemClass::Consumable => {
                                        assert(sure_consumable(rewards@[i as int], classes@));
                                        return Some(row.npc);
                                    },
                                    _ => {},
                                }
                            }
                        },
                        RewardKind::Xp => {},
                    }
                }
                i = i + 1;
            }
            assert(!drops_sure_consumable(rewards@, classes@, row.npc));
        }
        k = k + 1;
    }
    None
}

/// Whether `known` holds `id`.
pub open spec fn known_id(known: Seq<SfxId>, id: Seq<char>) -> bool {
    exists|k: int| 0 <= k < known.len() && (#[trigger] known[k]).0@ == id
}

/// Whether `known` holds `id`.
pub fn contains_id(known: &Vec<SfxId>, id: &SfxId) -> (b: bool)
    ensures
        b == known_id(known@, id.0@),
{
    let mut k: usize = 0;
    while k < known.len()
        invariant
            k <= known@.len(),
            forall|e: int| 0 <= e < k ==> (#[trigger] known@[e]).0@ != id.0@,
        decreases known@.len() - k,
    {
        if str_eq(known[k].0.as_str(), id.0.as_str()) {
            return true;
        }
        k = k + 1;
    }
    false
}

/// The first reference in `used` that `known` lacks, by position, if any.
pub open spec fn first_unknown_of(known: Seq<SfxId>, used: Seq<SfxId>) -> Option<int> {
    if exists|j: int| 0 <= j < used.len() && !#[trigger] known_id(known, used[j].0@) {
        Some(
            choose|j: int|
                0 <= j < used.len() && !known_id(known, used[j].0@) && forall|e: int|
                    0 <= e < j ==> #[trigger] known_id(known, used[e].0@),
        )
    } else {
        None
    }
}

/// Proves the spec form of the first unknown reference from the search's answer.
proof fn lemma_first_unknown(known: Seq<SfxId>, used: Seq<SfxId>, r: Option<int>)
    requires
        match r {
            Some(i) => 0 <= i < used.len() && !known_id(known, used[i].0@) && forall|j: int|
                0 <= j < i ==> #[trigger] known_id(known, used[j].0@),
            None => forall|j: int| 0 <= j < used.len() ==> #[trigger] known_id(known, used[j].0@),
        },
    ensures
        first_unknown_of(known, used) == r,
{
    match r {
        Some(i) => {
            assert(!known_id(known, used[i].0@));
            let c = choose|j: int|
                0 <= j < used.len() && !known_id(known, used[j].0@) && forall|e: int|
                    0 <= e < j ==> #[trigger] known_id(known, used[e].0@);
            if c < i {
                assert(known_id(known, used[c].0@));
            } else if c > i {
                assert(known_id(known, used[i].0@));
            }
        },
        None => {},
    }
}

/// The first reference in `used` that `known` lacks, by position.
pub fn first_unknown(known: &Vec<SfxId>, used: &Vec<SfxId>) -> (r: Option<usize>)
    ensures
        match r {
            Some(i) => i < used@.len() && !known_id(known@, used@[i as int].0@) && forall|j: int|
                0 <= j < i ==> #[trigger] known_id(known@, used@[j].0@),
            None => forall|j: int| 0 <= j < used@.len() ==> #[trigger] known_id(known@, used@[j].0@),
        },
{
    let mut i: usize = 0;
    while i < used.len()
        invariant
            i <= used@.len(),
            forall|j: int| 0 <= j < i ==> #[trigger] known_id(known@, used@[j].0@),
        decreases used@.len() - i,
    {
        if !contains_id(known, &used[i]) {
            return Some(i);
        }
        i = i + 1;
    }
    None
}

/// No id of `ids` repeats.
pub open spec fn unique(ids: Seq<Seq<char>>) -> bool {
    forall|k: int| 0 <= k < ids.len() ==> !#[trigger] repeats(ids, k)
}

/// The area table keeps its rules: embedded maps, unique ids and exactly one spawn area.
pub open spec fn areas_ok(files: Seq<AssetFile>, defs: Seq<AreaDef>) -> bool {
    &&& forall|k: int| 0 <= k < defs.len() ==> #[trigger] mapped(files, defs)(k)
    &&& unique(area_ids(defs))
    &&& spawn_count(defs, defs.len() as int) == 1
}

/// The ids of the sound-effect table.
pub open spec fn sfx_ids_of(defs: Seq<SfxDef>) -> Seq<SfxId> {
    defs.map_values(|d: SfxDef| d.id)
}

pub open spec fn cue_views(v: Seq<SfxId>) -> Seq<Seq<char>> {
    v.map_values(|s: SfxId| s.0@)
}

/// The first sound whose source file is not embedded, if any.
fn first_unsourced(files: &[AssetFile], sfx: &Vec<SfxDef>) -> (r: Option<usize>)
    ensures
        first_failing(sfx@.len() as int, sourced(files@, sfx@)) == match r {
            Some(k) => Some(k as int),
            None => None,
        },
        r matches Some(k) ==> k < sfx@.len(),
{
    let mut s: usize = 0;
    while s < sfx.len()
        invariant
            s <= sfx@.len(),
            forall|k: int| 0 <= k < s ==> #[trigger] sourced(files@, sfx@)(k),
        decreases sfx@.len() - s,
    {
        if bytes(files, sfx[s].src.as_str()).is_none() {
            proof {
                assert(!sourced(files@, sfx@)(s as int));
                lemma_first_failing(sfx@.len() as int, sourced(files@, sfx@), Some(s as int));
            }
            return Some(s);
        }
        s = s + 1;
    }
    proof {
        lemma_first_failing(sfx@.len() as int, sourced(files@, sfx@), None);
    }
    None
}

/// Checks the content tables together: the area table's rules, unique ids in the item, npc and
/// sfx tables, that every sound plays an embedded file, and that every cue named by a model, an
/// item or a map tile (`cues`) is in the sfx table.
pub fn validate(
    files: &[AssetFile],
    areas: &Vec<AreaDef>,
    items: &Vec<String>,
    npcs: &Vec<String>,
    sfx: &Vec<SfxDef>,
    cues: &Vec<SfxId>,
) -> (r: Result<(), TableError>)
    ensures
        match first_failing(areas@.len() as int, mapped(files@, areas@)) {
            Some(k) => r matches Err(TableError::UnknownMap(m)) && m@ == areas@[k].map.0@,
            None => match first_repeat(area_ids(areas@)) {
                Some(k) => r matches Err(TableError::DuplicateId(d)) && d@ == areas@[k].id@,
                None => if spawn_count(areas@, areas@.len() as int) != 1 {
                    r matches Err(TableError::SpawnCount(n)) && n == spawn_count(areas@, areas@.len() as int)
                } else {
                    match first_repeat(views(items@)) {
                        Some(k) => r matches Err(TableError::DuplicateId(d)) && d@ == items@[k]@,
                        None => match first_repeat(views(npcs@)) {
                            Some(k) => r matches Err(TableError::DuplicateId(d)) && d@ == npcs@[k]@,
                            None => match first_repeat(cue_views(sfx_ids_of(sfx@))) {
                                Some(k) => r matches Err(TableError::DuplicateId(d)) && d@ == sfx@[k].id.0@,
                                None => match first_failing(sfx@.len() as int, sourced(files@, sfx@)) {
                                    Some(k) => r matches Err(TableError::MissingSource(d)) && d@ == sfx@[k].id.0@,
                                    None => match first_unknown_of(sfx_ids_of(sfx@), cues@) {
                                        Some(j) => r matches Err(TableError::Unknown(u)) && u@ == cues@[j].0@,
                                        None => r is Ok,
                                    },
                                },
                            },
                        },
                    }
                },
            },
        },
        r is Ok <==> (areas_ok(files@, areas@) && unique(views(items@)) && unique(views(npcs@)) && unique(
            cue_views(sfx_ids_of(sfx@)),
        ) && (forall|k: int| 0 <= k < sfx@.len() ==> #[trigger] sourced(files@, sfx@)(k)) && forall|j: int|
            0 <= j < cues@.len() ==> #[trigger] known_id(sfx_ids_of(sfx@), cues@[j].0@)),
{
    match check_areas(files, areas) {
        Err(e) => {
            proof {
                if first_failing(areas@.len() as int, mapped(files@, areas@)) is None {
                    if first_repeat(area_ids(areas@)) is None {
                        lemma_first_repeat_none(area_ids(areas@));
                    } else {
                        lemma_first_repeat_some(area_ids(areas@));
                    }
                }
            }
            return Err(e);
        },
        Ok(()) => {},
    }
    proof {
        lemma_first_repeat_none(area_ids(areas@));
    }
    let ri = repeated_id(items);
    proof {
        lemma_first_repeat(views(items@), match ri {
            Some(k) => Some(k as int),
            None => None,
        });
    }
    if let Some(k) = ri {
        return Err(TableError::DuplicateId(items[k].clone()));
    }
    let rn = repeated_id(npcs);
    proof {
        lemma_first_repeat(views(npcs@), match rn {
            Some(k) => Some(k as int),
            None => None,
        });
    }
    if let Some(k) = rn {
        return Err(TableError::DuplicateId(npcs[k].clone()));
    }
    let mut names: Vec<String> = Vec::new();
    let mut ids: Vec<SfxId> = Vec::new();
    let mut i: usize = 0;
    while i < sfx.len()
        invariant
            i <= sfx@.len(),
            names@.len() == i,
            ids@.len() == i,
            forall|k: int| 0 <= k < i ==> (#[trigger] names@[k])@ == sfx@[k].id.0@,
            forall|k: int| 0 <= k < i ==> (#[trigger] ids@[k]).0@ == sfx@[k].id.0@,
        decreases sfx@.len() - i,
    {
        names.push(owned(sfx[i].id.0.as_str()));
        ids.push(SfxId(owned(sfx[i].id.0.as_str())));
        i = i + 1;
    }
    assert(views(names@) =~= cue_views(sfx_ids_of(sfx@)));
    let rs = repeated_id(&names);
    proof {
        lemma_first_repeat(views(names@), match rs {
            Some(k) => Some(k as int),
            None => None,
        });
    }
    if let Some(k) = rs {
        return Err(TableError::DuplicateId(owned(sfx[k].id.0.as_str())));
    }
    let missing = first_unsourced(files, sfx);
    if let Some(k) = missing {
        return Err(TableError::MissingSource(owned(sfx[k].id.0.as_str())));
    }
    proof {
        assert forall|j: int| 0 <= j < cues@.len() implies known_id(ids@, cues@[j].0@) == known_id(
            sfx_ids_of(sfx@),
            cues@[j].0@,
        ) by {
            let x = cues@[j].0@;
            if known_id(ids@, x) {
                let k = choose|k: int| 0 <= k < ids@.len() && (#[trigger] ids@[k]).0@ == x;
                assert(sfx_ids_of(sfx@)[k].0@ == x);
            }
            if known_id(sfx_ids_of(sfx@), x) {
                let k = choose|k: int| 0 <= k < sfx_ids_of(sfx@).len() && (#[trigger] sfx_ids_of(sfx@)[k]).0@ == x;
                assert(ids@[k].0@ == x);
            }
        }
    }
    let ru = first_unknown(&ids, cues);
    proof {
        let rr = match ru {
            Some(j) => Some(j as int),
            None => None,
        };
        lemma_first_unknown(sfx_ids_of(sfx@), cues@, rr);
    }
    match ru {
        Some(j) => Err(TableError::Unknown(cues[j].0.clone())),
        None => Ok(()),
    }
}

/// With no first repeat, nothing repeats.
pub proof fn lemma_first_repeat_none(ids: Seq<Seq<char>>)
    ensures
        first_repeat(ids) is None <==> unique(ids),
{
    if first_repeat(ids) is None {
        assert forall|k: int| 0 <= k < ids.len() implies !#[trigger] repeats(ids, k) by {
            if repeats(ids, k) {
                lemma_least_repeat(ids, k);
            }
        }
    } else {
        lemma_first_repeat_some(ids);
    }
}

/// The first repeat repeats.
pub proof fn lemma_first_repeat_some(ids: Seq<Seq<char>>)
    requires
        first_repeat(ids) is Some,
    ensures
        0 <= first_repeat(ids)->0 < ids.len(),
        repeats(ids, first_repeat(ids)->0),
{
    let w = choose|k: int| 0 <= k < ids.len() && #[trigger] repeats(ids, k);
    lemma_least_repeat(ids, w);
}

/// A repeat at `k` means some least repeat exists at or before `k`.
proof fn lemma_least_repeat(ids: Seq<Seq<char>>, k: int)
    requires
        0 <= k < ids.len(),
        repeats(ids, k),
    ensures
        exists|c: int| 0 <= c < ids.len() && repeats(ids, c) && forall|e: int| 0 <= e < c ==> !#[trigger] repeats(ids, e),
    decreases k,
{
    if exists|e: int| 0 <= e < k && #[trigger] repeats(ids, e) {
        let e = choose|e: int| 0 <= e < k && #[trigger] repeats(ids, e);
        lemma_least_repeat(ids, e);
    } else {
        assert(forall|e: int| 0 <= e < k ==> !#[trigger] repeats(ids, e));
    }
}

/// A warp on a map, by where it leads; its rectangle and exit point are in fractional tiles and
/// stay with the renderer and the movement code.
#[derive(Clone, Copy, PartialEq, Eq, Debug)]
pub struct Portal {
    pub dest_area: AreaId,
}

/// The first portal of the home area that leads to another area.
pub fn exit_portal(home: AreaId, portals: &Vec<Portal>) -> (r: Option<usize>)
    ensures
        match r {
            Some(i) => i < portals@.len() && portals@[i as int].dest_area != home && forall|k: int|
                0 <= k < i ==> (#[trigger] portals@[k]).dest_area == home,
            None => forall|k: int| 0 <= k < portals@.len() ==> (#[trigger] portals@[k]).dest_area == home,
        },
{
    let mut i: usize = 0;
    while i < portals.len()
        invariant
            i <= portals@.len(),
            forall|k: int| 0 <= k < i ==> (#[trigger] portals@[k]).dest_area == home,
        decreases portals@.len() - i,
    {
        if portals[i].dest_area.0 != home.0 {
            return Some(i);
        }
        i = i + 1;
    }
    None
}

/// The area the home area's exit portal leads to.
pub fn away(home: AreaId, portals: &Vec<Portal>) -> (r: Option<AreaId>)
    ensures
        match r {
            Some(a) => exists|i: int|
                0 <= i < portals@.len() && (#[trigger] portals@[i]).dest_area == a && a != home && forall|k: int|
                    0 <= k < i ==> (#[trigger] portals@[k]).dest_area == home,
            None => forall|k: int| 0 <= k < portals@.len() ==> (#[trigger] portals@[k]).dest_area == home,
        },
{
    match exit_portal(home, portals) {
        Some(i) => Some(portals[i].dest_area),
        None => None,
    }
}

/// Whether `c` is white space (Unicode `White_Space`, as `char::is_whitespace`).
pub open spec fn white(c: char) -> bool {
    ||| '\t' <= c <= '\r'
    ||| c == ' '
    ||| c == '\u{85}'
    ||| c == '\u{A0}'
    ||| c == '\u{1680}'
    ||| '\u{2000}' <= c <= '\u{200A}'
    ||| c == '\u{2028}'
    ||| c == '\u{2029}'
    ||| c == '\u{202F}'
    ||| c == '\u{205F}'
    ||| c == '\u{3000}'
}

pub(crate) fn is_white(c: char) -> (r: bool)
    ensures
        r == white(c),
{
    ('\t' <= c && c <= '\r') || c == ' ' || c == '\u{85}' || c == '\u{A0}' || c == '\u{1680}' || ('\u{2000}'
        <= c && c <= '\u{200A}') || c == '\u{2028}' || c == '\u{2029}' || c == '\u{202F}' || c == '\u{205F}'
        || c == '\u{3000}'
}

/// `s` without leading and trailing white space.
pub open spec fn trimmed(s: Seq<char>) -> Seq<char>
    decreases s.len(),
{
    if s.len() > 0 && white(s[0]) {
        trimmed(s.skip(1))
    } else if s.len() > 0 && white(s.last()) {
        trimmed(s.drop_last())
    } else {
        s
    }
}

/// `v[from..to]` without leading and trailing white space.
pub(crate) fn trim_range(v: &Vec<char>, from: usize, to: usize) -> (r: String)
    requires
        from <= to <= v@.len(),
    ensures
        r@ == trimmed(v@.subrange(from as int, to as int)),
    decreases to - from,
{
    if from < to && is_white(v[from]) {
        assert(v@.subrange(from as int, to as int).skip(1) =~= v@.subrange(from + 1, to as int));
        return trim_range(v, from + 1, to);
    }
    if from < to && is_white(v[to - 1]) {
        assert(v@.subrange(from as int, to as int).drop_last() =~= v@.subrange(from as int, to - 1));
        return trim_range(v, from, to - 1);
    }
    let part = slice_chars(v, from, to);
    string_of(&part)
}

/// The first three `,`-separated parts of a warp's `goto`, each trimmed: the destination area
/// and the two coordinates; `None` with fewer than three parts.
pub open spec fn goto_parts(g: Seq<char>) -> Option<(Seq<char>, Seq<char>, Seq<char>)> {
    match find_from(g, seq![','], 0) {
        Some(a) => match find_from(g, seq![','], a + 1) {
            Some(b) => Some((
                trimmed(g.subrange(0, a)),
                trimmed(g.subrange(a + 1, b)),
                trimmed(g.subrange(b + 1, match find_from(g, seq![','], b + 1) {
                    Some(c) => c,
                    None => g.len() as int,
                })),
            )),
            None => None,
        },
        None => None,
    }
}

/// Splits a warp's `goto: "<area>, x, y"` into its trimmed parts.
pub fn parse_goto(goto: &str) -> (r: Option<(String, String, String)>)
    ensures
        match goto_parts(goto@) {
            Some(p) => r is Some && (r->0).0@ == p.0 && (r->0).1@ == p.1 && (r->0).2@ == p.2,
            None => r is None,
        },
{
    let v = chars_of(goto);
    let n = v.len();
    let comma: Vec<char> = vec![','];
    assert(comma@ =~= seq![',']);
    let a = match find_chars(&v, &comma, 0) {
        Some(a) => a,
        None => return None,
    };
    assert(a + 1 <= n);
    let b = match find_chars(&v, &comma, a + 1) {
        Some(b) => b,
        None => return None,
    };
    assert(b + 1 <= n);
    let c = match find_chars(&v, &comma, b + 1) {
        Some(c) => c,
        None => n,
    };
    proof {
        lemma_find_from_bounds(v@, seq![','], a + 1);
        lemma_find_from_bounds(v@, seq![','], b + 1);
    }
    let dest = trim_range(&v, 0, a);
    let x = trim_range(&v, a + 1, b);
    let y = trim_range(&v, b + 1, c);
    Some((dest, x, y))
}

/// Why a warp's `goto` is refused.
#[derive(Debug, PartialEq, Eq)]
pub enum GotoError {
    /// It is not `<area>, x, y`.
    Malformed,
    /// It names no area of the table.
    UnknownArea(String),
}

/// A warp's destination: the area it names, by the area table, and its two coordinate texts.
pub fn portal_dest(defs: &Vec<AreaDef>, goto: &str) -> (r: Result<(AreaId, String, String), GotoError>)
    requires
        defs@.len() <= u32::MAX,
    ensures
        match goto_parts(goto@) {
            None => r == Err::<(AreaId, String, String), GotoError>(GotoError::Malformed),
            Some(p) => match r {
                Ok((a, x, y)) => a.0 < defs@.len() && defs@[a.0 as int].id@ == p.0 && (forall|k: int|
                    0 <= k < a.0 ==> (#[trigger] defs@[k]).id@ != p.0) && x@ == p.1 && y@ == p.2,
                Err(GotoError::UnknownArea(d)) => d@ == p.0 && forall|k: int|
                    0 <= k < defs@.len() ==> (#[trigger] defs@[k]).id@ != p.0,
                Err(GotoError::Malformed) => false,
            },
        },
{
    let (dest, x, y) = match parse_goto(goto) {
        Some(parts) => parts,
        None => return Err(GotoError::Malformed),
    };
    match index(defs, dest.as_str()) {
        Some(a) => Ok((a, x, y)),
        None => Err(GotoError::UnknownArea(dest)),
    }
}

/// How many of `total` benchmark npcs area slot `slot` of `areas` gets: an even share, the first
/// `total % areas` slots one more.
pub open spec fn share_of(total: int, areas: int, slot: int) -> int {
    total / areas + if slot < total % areas {
        1int
    } else {
        0int
    }
}

/// The even share of `total` npcs for area slot `slot` of `areas`.
pub fn area_share(total: usize, areas: usize, slot: usize) -> (n: usize)
    requires
        areas > 0,
    ensures
        n == share_of(total as int, areas as int, slot as int),
{
    let even = total / areas;
    proof {
        assert(even <= total) by (nonlinear_arith)
            requires
                areas > 0,
                even == total / areas,
        ;
    }
    if slot < total % areas {
        proof {
            assert(total / areas * areas + total % areas == total) by (nonlinear_arith)
                requires
                    areas > 0,
            ;
            assert(total / areas < total) by (nonlinear_arith)
                requires
                    areas > 0,
                    total % areas > 0,
                    total / areas * areas + total % areas == total,
            ;
        }
        even + 1
    } else {
        even
    }
}

pub open spec fn shares_upto(total: int, areas: int, n: int) -> int
    decreases n,
{
    if n <= 0 {
        0
    } else {
        shares_upto(total, areas, n - 1) + share_of(total, areas, n - 1)
    }
}

proof fn lemma_shares_upto(total: int, areas: int, n: int)
    requires
        areas > 0,
        total >= 0,
        0 <= n <= areas,
    ensures
        shares_upto(total, areas, n) == n * (total / areas) + if n <= total % areas {
            n
        } else {
            total % areas
        },
    decreases n,
{
    let m = total % areas;
    assert(0 <= m < areas) by (nonlinear_arith)
        requires
            areas > 0,
            m == total % areas,
    ;
    if n > 0 {
        lemma_shares_upto(total, areas, n - 1);
        let q = total / areas;
        assert(n * q == (n - 1) * q + q) by (nonlinear_arith);
        let prev = shares_upto(total, areas, n - 1);
        assert(prev == (n - 1) * q + if n - 1 <= m { n - 1 } else { m });
        assert(shares_upto(total, areas, n) == prev + share_of(total, areas, n - 1));
        if n <= m {
            assert(share_of(total, areas, n - 1) == q + 1);
            assert(shares_upto(total, areas, n) == n * q + n);
        } else {
            assert(share_of(total, areas, n - 1) == q);
            assert(shares_upto(total, areas, n) == n * q + m);
        }
    } else {
        assert(0 * (total / areas) == 0) by (nonlinear_arith);
        assert(shares_upto(total, areas, 0) == 0);
    }
}

/// Spreading npcs over areas loses none and makes none up: the shares of all the slots add up
/// to the total.
pub proof fn lemma_shares_add_up(total: int, areas: int)
    requires
        areas > 0,
        total >= 0,
    ensures
        shares_upto(total, areas, areas) == total,
{
    lemma_shares_upto(total, areas, areas);
    assert(areas * (total / areas) + total % areas == total) by (nonlinear_arith)
        requires
            areas > 0,
    ;
}

/// The consumable in inventory slot `slot`, taken out of the inventory; nothing happens (and
/// `None` comes back) for an empty slot or an item that is not consumable.
pub fn consume_slot(inventory: &mut Vec<ItemId>, slot: u32, classes: &Vec<ItemClass>) -> (r: Option<ItemId>)
    requires
        forall|i: int| 0 <= i < old(inventory)@.len() ==> (#[trigger] old(inventory)@[i]).0 < classes@.len(),
    ensures
        match r {
            Some(item) => slot < old(inventory)@.len() && item == old(inventory)@[slot as int]
                && classes@[item.0 as int] == ItemClass::Consumable && final(inventory)@ == old(
                inventory,
            )@.remove(slot as int),
            None => final(inventory)@ == old(inventory)@ && (slot < old(inventory)@.len() ==> classes@[old(
                inventory,
            )@[slot as int].0 as int] != ItemClass::Consumable),
        },
{
    let s = slot as usize;
    if s >= inventory.len() {
        return None;
    }
    let item = inventory[s];
    assert(item.0 < classes@.len());
    match classes[item.0 as usize] {
        ItemClass::Consumable => {
            inventory.remove(s);
            Some(item)
        },
        _ => None,
    }
}

/// The first inventory slot holding a consumable, if any.
pub fn first_consumable(inventory: &Vec<ItemId>, classes: &Vec<ItemClass>) -> (r: Option<u32>)
    requires
        inventory@.len() <= u32::MAX,
        forall|i: int| 0 <= i < inventory@.len() ==> (#[trigger] inventory@[i]).0 < classes@.len(),
    ensures
        match r {
            Some(s) => s < inventory@.len() && classes@[inventory@[s as int].0 as int] == ItemClass::Consumable
                && forall|k: int| 0 <= k < s ==> classes@[(#[trigger] inventory@[k]).0 as int] != ItemClass::Consumable,
            None => forall|k: int|
                0 <= k < inventory@.len() ==> classes@[(#[trigger] inventory@[k]).0 as int] != ItemClass::Consumable,
        },
{
    let mut i: usize = 0;
    while i < inventory.len()
        invariant
            i <= inventory@.len(),
            inventory@.len() <= u32::MAX,
            forall|k: int| 0 <= k < inventory@.len() ==> (#[trigger] inventory@[k]).0 < classes@.len(),
            forall|k: int| 0 <= k < i ==> classes@[(#[trigger] inventory@[k]).0 as int] != ItemClass::Consumable,
        decreases inventory@.len() - i,
    {
        let item = inventory[i];
        assert(item.0 < classes@.len());
        match classes[item.0 as usize] {
            ItemClass::Consumable => {
                return Some(i as u32);
            },
            _ => {},
        }
        i = i + 1;
    }
    None
}

/// The number of rows among `rows` whose drop rolls a chance.
pub open spec fn chance_rows(rows: Seq<Reward>) -> nat
    decreases rows.len(),
{
    if rows.len() == 0 {
        0
    } else {
        chance_rows(rows.drop_last()) + match rows.last().kind {
            RewardKind::Item { item, guaranteed } => if guaranteed {
                0nat
            } else {
                1nat
            },
            RewardKind::Xp => 0nat,
        }
    }
}

/// The experience `rows` grant.
pub open spec fn xp_of(rows: Seq<Reward>) -> int
    decreases rows.len(),
{
    if rows.len() == 0 {
        0
    } else {
        xp_of(rows.drop_last()) + match rows.last().kind {
            RewardKind::Xp => rows.last().amount as int,
            _ => 0,
        }
    }
}

/// The items `rows` grant, with `rolls` the outcomes of their chance rolls in row order (a
/// missing roll fails).
pub open spec fn items_of(rows: Seq<Reward>, rolls: Seq<bool>) -> Seq<ItemId>
    decreases rows.len(),
{
    if rows.len() == 0 {
        seq![]
    } else {
        let w = rows.last();
        items_of(rows.drop_last(), rolls) + match w.kind {
            RewardKind::Item { item, guaranteed } => {
                let k = chance_rows(rows.drop_last()) as int;
                if guaranteed || (k < rolls.len() && rolls[k]) {
                    Seq::new(w.amount as nat, |i: int| item)
                } else {
                    seq![]
                }
            },
            RewardKind::Xp => seq![],
        }
    }
}

/// Experience adds up over rows: the rows of two tables together grant what each grants.
pub proof fn lemma_xp_adds_up(a: Seq<Reward>, b: Seq<Reward>)
    ensures
        xp_of(a + b) == xp_of(a) + xp_of(b),
        xp_of(a) >= 0,
    decreases b.len(),
{
    if a.len() == 0 {
        assert(a + b =~= b);
    }
    if b.len() == 0 {
        assert(a + b =~= a);
        lemma_xp_nonnegative(a);
    } else {
        assert((a + b).drop_last() =~= a + b.drop_last());
        assert((a + b).last() == b.last());
        lemma_xp_adds_up(a, b.drop_last());
    }
}

proof fn lemma_xp_nonnegative(a: Seq<Reward>)
    ensures
        xp_of(a) >= 0,
    decreases a.len(),
{
    if a.len() > 0 {
        lemma_xp_nonnegative(a.drop_last());
    }
}

/// One row alone: an experience row grants its amount of experience and no item; an item row
/// grants no experience, and its item `amount` times when the drop is guaranteed or its roll
/// succeeds, nothing when the roll fails.
pub proof fn lemma_one_reward_row(w: Reward, rolled: bool)
    ensures
        w.kind == RewardKind::Xp ==> xp_of(seq![w]) == w.amount && items_of(seq![w], seq![rolled]).len() == 0,
        w.kind is Item ==> xp_of(seq![w]) == 0,
        w.kind matches RewardKind::Item { item, guaranteed } ==> (if guaranteed || rolled {
            items_of(seq![w], seq![rolled]) == Seq::new(w.amount as nat, |i: int| item)
        } else {
            items_of(seq![w], seq![rolled]).len() == 0
        }),
{
    let one = seq![w];
    assert(one.drop_last() =~= Seq::<Reward>::empty());
    assert(one.last() == w);
    assert(xp_of(one.drop_last()) == 0);
    assert(items_of(one.drop_last(), seq![rolled]) =~= Seq::<ItemId>::empty());
    assert(chance_rows(one.drop_last()) == 0);
    match w.kind {
        RewardKind::Xp => {
            assert(items_of(one, seq![rolled]) =~= Seq::<ItemId>::empty());
        },
        RewardKind::Item { item, guaranteed } => {
            if guaranteed || rolled {
                assert(items_of(one, seq![rolled]) =~= Seq::new(w.amount as nat, |i: int| item));
            } else {
                assert(items_of(one, seq![rolled]) =~= Seq::<ItemId>::empty());
            }
        },
    }
}

/// What a killed npc's rewards give its killer: `xp` plus every experience row of `npc`
/// (wrapping in 32 bits), and every item row whose drop is guaranteed or whose chance roll
/// succeeded, `amount` times over, appended to the inventory in row order. `rolls` are the
/// outcomes of the chance rolls of `npc`'s rows, in row order.
pub fn grant(rewards: &Vec<Reward>, npc: NpcId, xp: u32, inventory: &mut Vec<ItemId>, rolls: &Vec<bool>) -> (r: u32)
    ensures
        r as int == (xp + xp_of(rewards@.filter(|w: Reward| w.npc == npc))) % 0x1_0000_0000,
        final(inventory)@ == old(inventory)@ + items_of(rewards@.filter(|w: Reward| w.npc == npc), rolls@),
{
    let rows = rewards_for(rewards, npc);
    let mut total: u32 = xp;
    let mut chances: usize = 0;
    let mut k: usize = 0;
    let ghost start = inventory@;
    while k < rows.len()
        invariant
            k <= rows@.len(),
            chances == chance_rows(rows@.take(k as int)),
            chances <= k,
            total as int == (xp + xp_of(rows@.take(k as int))) % 0x1_0000_0000,
            inventory@ == start + items_of(rows@.take(k as int), rolls@),
        decreases rows@.len() - k,
    {
        let w = rows[k];
        assert(rows@.take(k + 1).drop_last() =~= rows@.take(k as int));
        assert(rows@.take(k + 1).last() == w);
        match w.kind {
            RewardKind::Xp => {
                total = total.wrapping_add(w.amount);
                assert(inventory@ =~= start + items_of(rows@.take(k + 1), rolls@));
            },
            RewardKind::Item { item, guaranteed } => {
                let granted = guaranteed || (chances < rolls.len() && rolls[chances]);
                if !guaranteed {
                    chances = chances + 1;
                }
                if granted {
                    let ghost before = inventory@;
                    let mut c: u32 = 0;
                    while c < w.amount
                        invariant
                            c <= w.amount,
                            inventory@ == before + Seq::new(c as nat, |i: int| item),
                        decreases w.amount - c,
                    {
                        inventory.push(item);
                        assert(Seq::new((c + 1) as nat, |i: int| item) =~= Seq::new(c as nat, |i: int| item).push(item));
                        c = c + 1;
                    }
                    assert(inventory@ =~= start + items_of(rows@.take(k + 1), rolls@));
                } else {
                    assert(inventory@ =~= start + items_of(rows@.take(k + 1), rolls@));
                }
            },
        }
        k = k + 1;
    }
    assert(rows@.take(rows@.len() as int) =~= rows@);
    total
}

} // verus!
