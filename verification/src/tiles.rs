//! A map's tile bookkeeping: interned tile references with their flips, tile layers, the
//! walkability grid built from them, the z-sorted groups of the dynamic layer, per-cell footstep
//! cues, and tile animation frames.

use vstd::prelude::*;

use crate::actors::SfxId;
use crate::nav::{Grid, GridView, MAX_SIDE};

verus! {

/// Horizontal flip flag of a [`TileRef`].
pub const FLIP_H: u32 = 0x8000_0000;

/// Vertical flip flag of a [`TileRef`].
pub const FLIP_V: u32 = 0x4000_0000;

/// Both flip flags.
pub const FLIP_MASK: u32 = 0xC000_0000;

/// The largest tile index whose reference keeps its flips apart from its index.
pub const MAX_TILE_INDEX: usize = 0x3FFF_FFFE;

/// An area's index in the area list; content tables reference areas by id.
#[derive(Clone, Copy, PartialEq, Eq, Debug, Default, Hash)]
pub struct AreaId(pub u32);

/// One map tile reference in a layer cell or a placed object: a tile-table index plus flips;
/// zero is the empty cell.
#[derive(Clone, Copy, PartialEq, Eq, Debug, Default, Hash)]
pub struct TileRef(u32);

pub open spec fn flag_bits(flip: (bool, bool)) -> u32 {
    (if flip.0 { FLIP_H } else { 0u32 }) | (if flip.1 { FLIP_V } else { 0u32 })
}

/// The empty cell.
pub closed spec fn empty_ref() -> TileRef {
    TileRef(0)
}

/// The empty cell names no tile.
pub proof fn lemma_empty_unindexed()
    ensures
        empty_ref().index_of() is None,
{
    assert(0u32 & !FLIP_MASK == 0) by (bit_vector);
}

impl TileRef {
    /// The raw packed bits.
    pub closed spec fn bits(self) -> u32 {
        self.0
    }

    /// The tile-table index this reference names, if any.
    pub open spec fn index_of(self) -> Option<int> {
        let low = self.bits() & !FLIP_MASK;
        if low == 0 { None } else { Some(low - 1) }
    }

    pub open spec fn flip_of(self) -> (bool, bool) {
        (self.bits() & FLIP_H != 0, self.bits() & FLIP_V != 0)
    }

    /// The empty cell.
    pub fn empty() -> (t: TileRef)
        ensures
            t == empty_ref(),
            t.bits() == 0,
            t.index_of() is None,
    {
        assert(0u32 & !FLIP_MASK == 0) by (bit_vector);
        TileRef(0)
    }

    /// A reference to tile-table entry `index`, mirrored as `flip` says.
    pub fn new(index: usize, flip: (bool, bool)) -> (t: TileRef)
        requires
            index < u32::MAX,
        ensures
            t.bits() == (index + 1) as u32 | flag_bits(flip),
    {
        let mut bits: u32 = index as u32 + 1;
        if flip.0 {
            bits = bits | FLIP_H;
        }
        if flip.1 {
            bits = bits | FLIP_V;
        }
        proof {
            let b = (index + 1) as u32;
            if flip.0 && flip.1 {
                assert(b | FLIP_H | FLIP_V == b | (FLIP_H | FLIP_V)) by (bit_vector);
            } else if flip.0 {
                assert(b | FLIP_H == b | (FLIP_H | 0u32)) by (bit_vector);
            } else if flip.1 {
                assert(b | FLIP_V == b | (0u32 | FLIP_V)) by (bit_vector);
            } else {
                assert(b == b | (0u32 | 0u32)) by (bit_vector);
            }
        }
        TileRef(bits)
    }

    /// The tile-table index, or `None` for the empty cell.
    pub fn index(self) -> (r: Option<usize>)
        ensures
            r matches Some(i) ==> self.index_of() == Some(i as int),
            r is None ==> self.index_of() is None,
    {
        let low: u32 = self.0 & !FLIP_MASK;
        if low == 0 {
            None
        } else {
            Some(low as usize - 1)
        }
    }

    /// The (horizontal, vertical) flips.
    pub fn flip(self) -> (f: (bool, bool))
        ensures
            f == self.flip_of(),
    {
        (self.0 & FLIP_H != 0, self.0 & FLIP_V != 0)
    }
}

/// A reference built from an index and flips gives both back, for every index a reference can
/// hold apart from its flags.
pub proof fn lemma_tile_ref_round_trip(index: usize, flip: (bool, bool), t: TileRef)
    requires
        index <= MAX_TILE_INDEX,
        t.bits() == (index + 1) as u32 | flag_bits(flip),
    ensures
        t.index_of() == Some(index as int),
        t.flip_of() == flip,
{
    let b = (index + 1) as u32;
    assert(b < 0x4000_0000);
    let f0 = flip.0;
    let f1 = flip.1;
    assert(b & !FLIP_MASK == b) by (bit_vector)
        requires
            b < 0x4000_0000,
    ;
    if f0 && f1 {
        assert((b | (FLIP_H | FLIP_V)) & !FLIP_MASK == b && (b | (FLIP_H | FLIP_V)) & FLIP_H != 0 && (b
            | (FLIP_H | FLIP_V)) & FLIP_V != 0) by (bit_vector)
            requires
                b < 0x4000_0000,
        ;
    } else if f0 {
        assert((b | (FLIP_H | 0u32)) & !FLIP_MASK == b && (b | (FLIP_H | 0u32)) & FLIP_H != 0 && (b | (
        FLIP_H | 0u32)) & FLIP_V == 0) by (bit_vector)
            requires
                b < 0x4000_0000,
        ;
    } else if f1 {
        assert((b | (0u32 | FLIP_V)) & !FLIP_MASK == b && (b | (0u32 | FLIP_V)) & FLIP_H == 0 && (b | (
        0u32 | FLIP_V)) & FLIP_V != 0) by (bit_vector)
            requires
                b < 0x4000_0000,
        ;
    } else {
        assert((b | (0u32 | 0u32)) & !FLIP_MASK == b && (b | (0u32 | 0u32)) & FLIP_H == 0 && (b | (0u32
            | 0u32)) & FLIP_V == 0) by (bit_vector)
            requires
                b < 0x4000_0000,
        ;
    }
    assert(b >= 1);
}

/// One tile layer, in map order, ready to draw: `dynamic` marks the layer whose grouped cells
/// render z-sorted instead.
pub struct RenderLayer {
    pub dynamic: bool,
    width: i32,
    height: i32,
    cells: Vec<TileRef>,
}

impl RenderLayer {
    #[verifier::type_invariant]
    closed spec fn inv(self) -> bool {
        &&& 0 <= self.width <= MAX_SIDE
        &&& 0 <= self.height <= MAX_SIDE
        &&& self.cells@.len() == self.width * self.height
    }

    pub closed spec fn is_dynamic(self) -> bool {
        self.dynamic
    }

    pub closed spec fn layer_width(self) -> int {
        self.width as int
    }

    pub closed spec fn layer_height(self) -> int {
        self.height as int
    }

    pub closed spec fn layer_cells(self) -> Seq<TileRef> {
        self.cells@
    }

    /// The cell at (x, y) as the layer reads it: empty outside.
    pub open spec fn cell(self, x: int, y: int) -> TileRef {
        if 0 <= x < self.layer_width() && 0 <= y < self.layer_height() {
            self.layer_cells()[y * self.layer_width() + x]
        } else {
            empty_ref()
        }
    }

    /// A layer of `width` by `height` cells, row-major.
    pub fn new(dynamic: bool, width: i32, height: i32, cells: Vec<TileRef>) -> (l: RenderLayer)
        requires
            0 <= width <= MAX_SIDE,
            0 <= height <= MAX_SIDE,
            cells@.len() == width * height,
        ensures
            l.is_dynamic() == dynamic,
            l.layer_width() == width,
            l.layer_height() == height,
            l.layer_cells() == cells@,
    {
        RenderLayer { dynamic, width, height, cells }
    }

    /// The cell at (x, y); empty outside the layer.
    pub fn at(&self, x: i32, y: i32) -> (t: TileRef)
        ensures
            t == self.cell(x as int, y as int),
    {
        proof {
            use_type_invariant(self);
        }
        if x < 0 || y < 0 || x >= self.width || y >= self.height {
            return TileRef(0);
        }
        proof {
            lemma_cell_index(x as int, y as int, self.width as int, self.height as int);
        }
        let i: i32 = y * self.width + x;
        self.cells[i as usize]
    }

    /// Whether this is the layer whose grouped cells draw z-sorted.
    pub fn dynamic(&self) -> (b: bool)
        ensures
            b == self.is_dynamic(),
    {
        self.dynamic
    }

    pub fn width(&self) -> (w: i32)
        ensures
            w == self.layer_width(),
            0 <= w <= MAX_SIDE,
    {
        proof {
            use_type_invariant(self);
        }
        self.width
    }

    pub fn height(&self) -> (h: i32)
        ensures
            h == self.layer_height(),
            0 <= h <= MAX_SIDE,
    {
        proof {
            use_type_invariant(self);
        }
        self.height
    }
}

pub proof fn lemma_cell_index(x: int, y: int, w: int, h: int)
    requires
        0 <= x < w,
        0 <= y < h,
        w <= MAX_SIDE,
        h <= MAX_SIDE,
    ensures
        0 <= y * w + x < w * h,
        w * h <= 46340 * 46340,
{
    assert(y * w + x < w * h) by (nonlinear_arith)
        requires
            0 <= x < w,
            0 <= y < h,
    ;
    assert(0 <= y * w) by (nonlinear_arith)
        requires
            0 <= y,
            0 <= w,
    ;
    assert(w * h <= 46340 * 46340) by (nonlinear_arith)
        requires
            0 <= w <= 46340,
            0 <= h <= 46340,
    ;
}

} // verus!

verus! {

/// One distinct map tile's render data: its tileset sheet and its animation frames as
/// (sheet region, duration in ms); a static tile is a single endless frame.
pub struct TileDef {
    pub sheet: &'static [u8],
    pub frames: Vec<(PixelRegion, u32)>,
    pub total_ms: u32,
}

/// A pixel region of a tileset sheet.
#[derive(Clone, Copy, PartialEq, Eq, Debug)]
pub struct PixelRegion {
    pub x: u64,
    pub y: u64,
    pub w: u32,
    pub h: u32,
}

/// What the tileset declares about one tile, captured when it is first interned.
pub struct TileInfo {
    /// The tile's identity: its tileset's and its local id.
    pub key: (usize, u32),
    pub def: TileDef,
    pub walkable: Option<bool>,
    pub group: Option<i64>,
    pub sfx: Option<SfxId>,
}

/// The interned set of distinct map tiles, keyed by tileset identity and local tile id; per-tile
/// properties are captured alongside.
pub struct TileTable {
    keys: Vec<(usize, u32)>,
    defs: Vec<TileDef>,
    walkable: Vec<Option<bool>>,
    group: Vec<Option<i64>>,
    sfx: Vec<Option<SfxId>>,
}

impl TileTable {
    /// The parallel columns line up, keys are distinct, and every entry is addressable.
    pub closed spec fn wf(self) -> bool {
        &&& self.defs@.len() == self.keys@.len()
        &&& self.walkable@.len() == self.keys@.len()
        &&& self.group@.len() == self.keys@.len()
        &&& self.sfx@.len() == self.keys@.len()
        &&& self.keys@.len() <= MAX_TILE_INDEX + 1
        &&& forall|i: int, j: int| 0 <= i < j < self.keys@.len() ==> self.keys@[i] != self.keys@[j]
        &&& forall|i: int| 0 <= i < self.defs@.len() ==> #[trigger] def_ok(self.defs@[i])
    }

    pub closed spec fn key_seq(self) -> Seq<(usize, u32)> {
        self.keys@
    }

    pub closed spec fn walkable_seq(self) -> Seq<Option<bool>> {
        self.walkable@
    }

    pub closed spec fn group_seq(self) -> Seq<Option<i64>> {
        self.group@
    }

    pub closed spec fn sfx_seq(self) -> Seq<Option<SfxId>> {
        self.sfx@
    }

    pub closed spec fn def_seq(self) -> Seq<TileDef> {
        self.defs@
    }

    pub open spec fn size(self) -> int {
        self.key_seq().len() as int
    }

    /// `t` names no entry or one of this table's.
    pub open spec fn holds(self, t: TileRef) -> bool {
        match t.index_of() {
            None => true,
            Some(i) => i < self.size(),
        }
    }

    pub open spec fn walkable_at(self, t: TileRef) -> Option<bool> {
        match t.index_of() {
            None => None,
            Some(i) => self.walkable_seq()[i],
        }
    }

    pub open spec fn group_at(self, t: TileRef) -> Option<i64> {
        match t.index_of() {
            None => None,
            Some(i) => self.group_seq()[i],
        }
    }

    pub open spec fn sfx_at(self, t: TileRef) -> Option<SfxId> {
        match t.index_of() {
            None => None,
            Some(i) => self.sfx_seq()[i],
        }
    }

    pub fn new() -> (t: TileTable)
        ensures
            t.wf(),
            t.size() == 0,
    {
        TileTable { keys: Vec::new(), defs: Vec::new(), walkable: Vec::new(), group: Vec::new(), sfx: Vec::new() }
    }

    pub fn len(&self) -> (n: usize)
        requires
            self.wf(),
        ensures
            n == self.size(),
            n <= MAX_TILE_INDEX + 1,
            self.walkable_seq().len() == n,
            self.group_seq().len() == n,
            self.sfx_seq().len() == n,
            self.def_seq().len() == n,
    {
        self.keys.len()
    }

    /// The reference to `info`'s tile with `flip`, entering the tile on first sight; a tile seen
    /// before keeps its entry and captured properties.
    pub fn intern(&mut self, info: TileInfo, flip: (bool, bool)) -> (t: TileRef)
        requires
            old(self).wf(),
            old(self).size() <= MAX_TILE_INDEX,
            def_ok(info.def),
        ensures
            final(self).wf(),
            t.flip_of() == flip,
            final(self).holds(t),
            t.index_of() is Some,
            match old(self).key_seq().index_of_first(info.key) {
                Some(i) => {
                    &&& t.index_of() == Some(i)
                    &&& final(self).key_seq() == old(self).key_seq()
                    &&& final(self).walkable_seq() == old(self).walkable_seq()
                    &&& final(self).group_seq() == old(self).group_seq()
                    &&& final(self).sfx_seq() == old(self).sfx_seq()
                    &&& final(self).def_seq() == old(self).def_seq()
                },
                None => {
                    &&& t.index_of() == Some(old(self).size())
                    &&& final(self).key_seq() == old(self).key_seq().push(info.key)
                    &&& final(self).walkable_seq() == old(self).walkable_seq().push(info.walkable)
                    &&& final(self).group_seq() == old(self).group_seq().push(info.group)
                    &&& final(self).sfx_seq() == old(self).sfx_seq().push(info.sfx)
                    &&& final(self).def_seq() == old(self).def_seq().push(info.def)
                },
            },
    {
        let mut i: usize = 0;
        let n = self.keys.len();
        while i < n
            invariant
                n == self.keys@.len(),
                n <= MAX_TILE_INDEX,
                self.wf(),
                *self == *old(self),
                i <= n,
                forall|k: int| 0 <= k < i ==> self.keys@[k] != info.key,
            decreases n - i,
        {
            if self.keys[i].0 == info.key.0 && self.keys[i].1 == info.key.1 {
                proof {
                    self.keys@.index_of_first_ensures(info.key);
                    lemma_tile_ref_round_trip(i, flip, TileRef(((i + 1) as u32) | flag_bits(flip)));
                }
                let t = TileRef::new(i, flip);
                return t;
            }
            i = i + 1;
        }
        proof {
            self.keys@.index_of_first_ensures(info.key);
        }
        let ghost old_keys = self.keys@;
        self.keys.push(info.key);
        self.defs.push(info.def);
        self.walkable.push(info.walkable);
        self.group.push(info.group);
        self.sfx.push(info.sfx);
        proof {
            lemma_tile_ref_round_trip(n, flip, TileRef(((n + 1) as u32) | flag_bits(flip)));
            assert forall|a: int, b: int| 0 <= a < b < self.keys@.len() implies self.keys@[a] != self.keys@[b] by {
                if b == n {
                    assert(old_keys[a] != info.key);
                }
            }
        }
        TileRef::new(n, flip)
    }

    /// Whether the tileset declares `cell` walkable (`Some(true)`) or blocking (`Some(false)`).
    pub fn walkable_of(&self, cell: TileRef) -> (r: Option<bool>)
        requires
            self.wf(),
            self.holds(cell),
        ensures
            r == self.walkable_at(cell),
    {
        match cell.index() {
            Some(i) => self.walkable[i],
            None => None,
        }
    }

    /// The z-sort group the tileset assigns `cell`, if any.
    pub fn group_of(&self, cell: TileRef) -> (r: Option<i64>)
        requires
            self.wf(),
            self.holds(cell),
        ensures
            r == self.group_at(cell),
    {
        match cell.index() {
            Some(i) => self.group[i],
            None => None,
        }
    }

    /// The footstep cue the tileset assigns `cell`, if any.
    pub fn sfx_of(&self, cell: TileRef) -> (r: Option<&SfxId>)
        requires
            self.wf(),
            self.holds(cell),
        ensures
            r matches Some(s) ==> self.sfx_at(cell) == Some(*s),
            r is None ==> self.sfx_at(cell) is None,
    {
        match cell.index() {
            Some(i) => self.sfx[i].as_ref(),
            None => None,
        }
    }

    /// The render data of `cell`'s tile, if any.
    pub fn def_of(&self, cell: TileRef) -> (r: Option<&TileDef>)
        requires
            self.wf(),
            self.holds(cell),
        ensures
            r matches Some(d) ==> cell.index_of() matches Some(i) && *d == self.def_seq()[i] && def_ok(*d),
            r is None ==> cell.index_of() is None,
    {
        match cell.index() {
            Some(i) => Some(&self.defs[i]),
            None => None,
        }
    }
}

/// The summed duration of `frames`.
pub open spec fn durations(frames: Seq<(PixelRegion, u32)>) -> int
    decreases frames.len(),
{
    if frames.len() == 0 {
        0
    } else {
        durations(frames.drop_last()) + frames.last().1
    }
}

/// A tile's render data is usable: it has a frame, and its total is the frames' summed
/// duration.
pub open spec fn def_ok(d: TileDef) -> bool {
    d.frames@.len() > 0 && d.total_ms == durations(d.frames@)
}

/// What a tileset's atlas looks like.
#[derive(Clone, Copy, PartialEq, Eq, Debug)]
pub struct TilesetGeometry {
    pub margin: u32,
    pub spacing: u32,
    pub tile_width: u32,
    pub tile_height: u32,
    pub columns: u32,
}

pub open spec fn column_count(g: TilesetGeometry) -> int {
    if g.columns > 0 {
        g.columns as int
    } else {
        1
    }
}

/// Where tile `id` sits in its atlas: left to right, then top to bottom, `columns` (at least
/// one) to a row.
pub open spec fn region_of(g: TilesetGeometry, id: u32) -> PixelRegion {
    PixelRegion {
        x: (g.margin + (id as int % column_count(g)) * (g.tile_width + g.spacing)) as u64,
        y: (g.margin + (id as int / column_count(g)) * (g.tile_height + g.spacing)) as u64,
        w: g.tile_width,
        h: g.tile_height,
    }
}

/// The atlas of `g` addresses tile `id` in 32 bits.
pub open spec fn addressable(g: TilesetGeometry, id: u32) -> bool {
    &&& g.margin + (id as int % column_count(g)) * (g.tile_width + g.spacing) <= u32::MAX
    &&& g.margin + (id as int / column_count(g)) * (g.tile_height + g.spacing) <= u32::MAX
}

/// The atlas region of tile `id`.
pub fn tile_region(g: TilesetGeometry, id: u32) -> (r: PixelRegion)
    requires
        addressable(g, id),
    ensures
        r == region_of(g, id),
{
    let columns: u32 = if g.columns > 0 {
        g.columns
    } else {
        1
    };
    let col = (id % columns) as u64;
    let row = (id / columns) as u64;
    let step_x = g.tile_width as u64 + g.spacing as u64;
    let step_y = g.tile_height as u64 + g.spacing as u64;
    proof {
        assert(col * step_x <= u32::MAX) by (nonlinear_arith)
            requires
                g.margin + col * step_x <= u32::MAX,
                0 <= g.margin,
        ;
        assert(row * step_y <= u32::MAX) by (nonlinear_arith)
            requires
                g.margin + row * step_y <= u32::MAX,
                0 <= g.margin,
        ;
    }
    PixelRegion { x: g.margin as u64 + col * step_x, y: g.margin as u64 + row * step_y, w: g.tile_width, h: g.tile_height }
}

/// The frames of tile `id`: its animation frames as (atlas region, duration) when it has any,
/// else its own region as a single endless frame.
pub open spec fn frames_of(g: TilesetGeometry, id: u32, animation: Seq<(u32, u32)>) -> Seq<(PixelRegion, u32)> {
    if animation.len() > 0 {
        animation.map_values(|f: (u32, u32)| (region_of(g, f.0), f.1))
    } else {
        seq![(region_of(g, id), 0u32)]
    }
}

pub open spec fn anim_total(animation: Seq<(u32, u32)>) -> int
    decreases animation.len(),
{
    if animation.len() == 0 {
        0
    } else {
        anim_total(animation.drop_last()) + animation.last().1
    }
}

proof fn lemma_durations_map(g: TilesetGeometry, animation: Seq<(u32, u32)>)
    ensures
        durations(animation.map_values(|f: (u32, u32)| (region_of(g, f.0), f.1))) == anim_total(animation),
    decreases animation.len(),
{
    if animation.len() > 0 {
        let m = animation.map_values(|f: (u32, u32)| (region_of(g, f.0), f.1));
        assert(m.drop_last() =~= animation.drop_last().map_values(|f: (u32, u32)| (region_of(g, f.0), f.1)));
        lemma_durations_map(g, animation.drop_last());
    }
}

proof fn lemma_anim_total_prefix(animation: Seq<(u32, u32)>, i: int)
    requires
        0 <= i <= animation.len(),
    ensures
        0 <= anim_total(animation.take(i)) <= anim_total(animation),
    decreases animation.len(),
{
    if i < animation.len() {
        assert(animation.drop_last().take(i) =~= animation.take(i));
        lemma_anim_total_prefix(animation.drop_last(), i);
    } else {
        assert(animation.take(i) =~= animation);
    }
    if animation.len() > 0 {
        lemma_anim_total_prefix(animation.drop_last(), animation.len() - 1);
        assert(animation.drop_last().take(animation.len() - 1) =~= animation.drop_last());
    }
}

/// The render data of tile `id` of an atlas `sheet` shaped like `g`, with the tile's animation
/// frames as (tile id, duration) if it has any.
pub fn tile_def(sheet: &'static [u8], g: TilesetGeometry, id: u32, animation: &Vec<(u32, u32)>) -> (d: TileDef)
    requires
        addressable(g, id),
        forall|k: int| 0 <= k < animation@.len() ==> addressable(g, (#[trigger] animation@[k]).0),
        anim_total(animation@) <= u32::MAX,
    ensures
        d.sheet@ == sheet@,
        d.frames@ == frames_of(g, id, animation@),
        d.total_ms == durations(d.frames@),
        def_ok(d),
{
    let mut frames: Vec<(PixelRegion, u32)> = Vec::new();
    let mut total: u32 = 0;
    if animation.len() > 0 {
        let mut i: usize = 0;
        while i < animation.len()
            invariant
                i <= animation@.len(),
                forall|k: int| 0 <= k < animation@.len() ==> addressable(g, (#[trigger] animation@[k]).0),
                anim_total(animation@) <= u32::MAX,
                frames@ == animation@.take(i as int).map_values(|f: (u32, u32)| (region_of(g, f.0), f.1)),
                total == anim_total(animation@.take(i as int)),
            decreases animation@.len() - i,
        {
            let f = animation[i];
            proof {
                lemma_anim_total_prefix(animation@, i + 1);
                assert(animation@.take(i + 1).drop_last() =~= animation@.take(i as int));
            }
            frames.push((tile_region(g, f.0), f.1));
            total = total + f.1;
            assert(frames@ =~= animation@.take(i + 1).map_values(|f: (u32, u32)| (region_of(g, f.0), f.1)));
            i = i + 1;
        }
        assert(animation@.take(animation@.len() as int) =~= animation@);
        proof {
            lemma_durations_map(g, animation@);
            assert(frames@ == animation@.map_values(|f: (u32, u32)| (region_of(g, f.0), f.1)));
            assert(total == anim_total(animation@));
            assert(frames@.len() == animation@.len());
        }
    } else {
        frames.push((tile_region(g, id), 0));
        assert(frames@ =~= seq![(region_of(g, id), 0u32)]);
        assert(frames@.drop_last() =~= seq![]);
        assert(durations(frames@) == durations(frames@.drop_last()) + 0);
    }
    let d = TileDef { sheet, frames, total_ms: total };
    assert(d.total_ms == durations(d.frames@));
    d
}

/// The region of the frame playing `remaining` ms into `frames`, if the frames last that long.
pub open spec fn frame_from(frames: Seq<(PixelRegion, u32)>, remaining: int) -> Option<PixelRegion>
    decreases frames.len(),
{
    if frames.len() == 0 {
        None
    } else if remaining < frames[0].1 {
        Some(frames[0].0)
    } else {
        frame_from(frames.skip(1), remaining - frames[0].1)
    }
}

/// The region a tile shows `ms` milliseconds in: a static tile its only frame; an animated one
/// the frame playing at `ms` modulo the cycle.
pub open spec fn frame_region(d: TileDef, ms: int) -> PixelRegion {
    if d.total_ms == 0 {
        d.frames@[0].0
    } else {
        match frame_from(d.frames@, ms % (d.total_ms as int)) {
            Some(r) => r,
            None => d.frames@[0].0,
        }
    }
}

impl TileDef {
    /// The atlas region this tile shows `ms` milliseconds in.
    pub fn frame_at(&self, ms: u32) -> (r: PixelRegion)
        requires
            def_ok(*self),
        ensures
            r == frame_region(*self, ms as int),
    {
        if self.total_ms == 0 {
            return self.frames[0].0;
        }
        let mut remaining: u32 = ms % self.total_ms;
        let mut i: usize = 0;
        assert(self.frames@.skip(0) =~= self.frames@);
        while i < self.frames.len()
            invariant
                def_ok(*self),
                self.total_ms > 0,
                i <= self.frames@.len(),
                frame_from(self.frames@, (ms % self.total_ms) as int) == frame_from(
                    self.frames@.skip(i as int),
                    remaining as int,
                ),
            decreases self.frames@.len() - i,
        {
            let (frame, duration) = self.frames[i];
            assert(self.frames@.skip(i as int)[0] == self.frames@[i as int]);
            assert(self.frames@.skip(i as int).skip(1) =~= self.frames@.skip(i + 1));
            if remaining < duration {
                return frame;
            }
            remaining = remaining - duration;
            i = i + 1;
        }
        assert(self.frames@.skip(i as int) =~= seq![]);
        self.frames[0].0
    }
}

/// What to draw for one map cell: a region of a tileset sheet, possibly mirrored.
pub struct TileSprite {
    pub sheet: &'static [u8],
    pub region: PixelRegion,
    pub flip: (bool, bool),
}

/// The sprite for `cell` at `ms` milliseconds, animated tiles advancing; nothing for the empty
/// cell.
pub fn resolve(tiles: &TileTable, cell: TileRef, ms: u32) -> (r: Option<TileSprite>)
    requires
        tiles.wf(),
        tiles.holds(cell),
    ensures
        cell.index_of() is None ==> r is None,
        cell.index_of() matches Some(i) ==> r is Some && r->0.sheet@ == tiles.def_seq()[i].sheet@ && r->0.region
            == frame_region(tiles.def_seq()[i], ms as int) && r->0.flip == cell.flip_of(),
{
    match tiles.def_of(cell) {
        Some(def) => Some(TileSprite { sheet: def.sheet, region: def.frame_at(ms), flip: cell.flip() }),
        None => None,
    }
}

/// `c` with an ASCII capital lowered.
pub open spec fn ascii_lower(c: char) -> char {
    if 'A' <= c <= 'Z' {
        ((c as int) + 32) as char
    } else {
        c
    }
}

/// Whether `a` and `b` are equal but for the case of ASCII letters.
pub open spec fn eq_ignore_ascii_case(a: Seq<char>, b: Seq<char>) -> bool {
    a.len() == b.len() && forall|i: int| 0 <= i < a.len() ==> ascii_lower(#[trigger] a[i]) == ascii_lower(b[i])
}

/// The name that marks the dynamic layer.
pub open spec fn dynamic_word() -> Seq<char> {
    seq!['D', 'y', 'n', 'a', 'm', 'i', 'c']
}

fn lower(c: char) -> (r: char)
    ensures
        r == ascii_lower(c),
{
    if 'A' <= c && c <= 'Z' {
        let v: u8 = (c as u32) as u8 + 32;
        v as char
    } else {
        c
    }
}

/// Whether a layer named `name` is the dynamic layer: its name is "Dynamic" in any ASCII case.
pub fn is_dynamic_name(name: &str) -> (r: bool)
    ensures
        r == eq_ignore_ascii_case(name@, dynamic_word()),
{
    let v = crate::text::chars_of(name);
    let word: Vec<char> = vec!['D', 'y', 'n', 'a', 'm', 'i', 'c'];
    assert(word@ =~= dynamic_word());
    if v.len() != word.len() {
        return false;
    }
    let mut i: usize = 0;
    while i < v.len()
        invariant
            i <= v@.len(),
            v@.len() == word@.len(),
            v@ == name@,
            word@ == dynamic_word(),
            forall|k: int| 0 <= k < i ==> ascii_lower(#[trigger] v@[k]) == ascii_lower(word@[k]),
        decreases v@.len() - i,
    {
        if lower(v[i]) != lower(word[i]) {
            return false;
        }
        i = i + 1;
    }
    true
}

/// A tile placed in a layer cell: what its tileset declares about it, and its flips.
pub struct PlacedTile {
    pub info: TileInfo,
    pub flip: (bool, bool),
}

/// The keys a table holding `keys` holds once the tiles placed in `cells` are interned in order.
pub open spec fn interned_keys(keys: Seq<(usize, u32)>, cells: Seq<Option<PlacedTile>>) -> Seq<(usize, u32)>
    decreases cells.len(),
{
    if cells.len() == 0 {
        keys
    } else {
        let prev = interned_keys(keys, cells.drop_last());
        match cells.last() {
            Some(p) => if prev.contains(p.info.key) {
                prev
            } else {
                prev.push(p.info.key)
            },
            None => prev,
        }
    }
}

/// The first cell of `cells` that places a tile with `key`.
pub open spec fn first_placed(cells: Seq<Option<PlacedTile>>, key: (usize, u32)) -> Option<int>
    decreases cells.len(),
{
    if cells.len() == 0 {
        None
    } else {
        match first_placed(cells.drop_last(), key) {
            Some(i) => Some(i),
            None => match cells.last() {
                Some(p) => if p.info.key == key {
                    Some(cells.len() - 1)
                } else {
                    None
                },
                None => None,
            },
        }
    }
}

/// Entry `j` of `table` holds what the tileset declared about the tile first placed with its
/// key among `cells`.
pub open spec fn entry_from(table: TileTable, cells: Seq<Option<PlacedTile>>, j: int) -> bool {
    match first_placed(cells, table.key_seq()[j]) {
        Some(i) => {
            let info = cells[i]->Some_0.info;
            &&& table.walkable_seq()[j] == info.walkable
            &&& table.group_seq()[j] == info.group
            &&& table.sfx_seq()[j] == info.sfx
            &&& table.def_seq()[j] == info.def
        },
        None => false,
    }
}

/// A key placed among `cells` is in the table once they are interned.
proof fn lemma_placed_interned(keys: Seq<(usize, u32)>, cells: Seq<Option<PlacedTile>>, key: (usize, u32))
    requires
        first_placed(cells, key) is Some,
    ensures
        interned_keys(keys, cells).contains(key),
    decreases cells.len(),
{
    let prev = interned_keys(keys, cells.drop_last());
    if first_placed(cells.drop_last(), key) is Some {
        lemma_placed_interned(keys, cells.drop_last(), key);
        let w = choose|w: int| 0 <= w < prev.len() && prev[w] == key;
        assert(prev.push(key)[w] == key);
        if let Some(p) = cells.last() {
            assert(prev.push(p.info.key)[w] == key);
        }
    } else {
        let p = cells.last()->Some_0;
        if !prev.contains(key) {
            assert(prev.push(key)[prev.len() as int] == key);
        }
    }
}

/// A key missing from the table after `cells` were interned was placed in none of them.
proof fn lemma_unplaced(keys: Seq<(usize, u32)>, cells: Seq<Option<PlacedTile>>, key: (usize, u32))
    requires
        !interned_keys(keys, cells).contains(key),
    ensures
        first_placed(cells, key) is None,
{
    if first_placed(cells, key) is Some {
        lemma_placed_interned(keys, cells, key);
    }
}

/// The first placement of a key stays first when more cells follow.
proof fn lemma_first_placed_prefix(pre: Seq<Option<PlacedTile>>, now: Seq<Option<PlacedTile>>, key: (usize, u32))
    requires
        now.len() == pre.len() + 1,
        now.drop_last() == pre,
        first_placed(pre, key) is Some,
    ensures
        first_placed(now, key) == first_placed(pre, key),
        now[first_placed(pre, key)->Some_0] == pre[first_placed(pre, key)->Some_0],
{
    lemma_first_placed_bounds(pre, key);
}

proof fn lemma_first_placed_bounds(cells: Seq<Option<PlacedTile>>, key: (usize, u32))
    ensures
        first_placed(cells, key) matches Some(i) ==> 0 <= i < cells.len(),
    decreases cells.len(),
{
    if cells.len() > 0 {
        lemma_first_placed_bounds(cells.drop_last(), key);
    }
}

/// A tile layer named `name` of `width` by `height` cells, row-major, interning each placed tile
/// into `tiles` in cell order.
pub fn fill_layer(
    tiles: &mut TileTable,
    name: &str,
    width: i32,
    height: i32,
    cells: Vec<Option<PlacedTile>>,
) -> (l: RenderLayer)
    requires
        old(tiles).wf(),
        0 <= width <= MAX_SIDE,
        0 <= height <= MAX_SIDE,
        cells@.len() == width * height,
        old(tiles).size() + cells@.len() <= MAX_TILE_INDEX,
        forall|i: int| 0 <= i < cells@.len() && (#[trigger] cells@[i]) is Some ==> def_ok(cells@[i]->Some_0.info.def),
    ensures
        final(tiles).wf(),
        l.is_dynamic() == eq_ignore_ascii_case(name@, dynamic_word()),
        l.layer_width() == width,
        l.layer_height() == height,
        l.layer_cells().len() == cells@.len(),
        final(tiles).key_seq() == interned_keys(old(tiles).key_seq(), cells@),
        forall|j: int|
            0 <= j < old(tiles).size() ==> {
                &&& final(tiles).walkable_seq()[j] == old(tiles).walkable_seq()[j]
                &&& final(tiles).group_seq()[j] == old(tiles).group_seq()[j]
                &&& final(tiles).sfx_seq()[j] == old(tiles).sfx_seq()[j]
                &&& final(tiles).def_seq()[j] == old(tiles).def_seq()[j]
            },
        forall|j: int| old(tiles).size() <= j < final(tiles).size() ==> #[trigger] entry_from(*final(tiles), cells@, j),
        forall|i: int|
            0 <= i < cells@.len() ==> match #[trigger] cells@[i] {
                None => l.layer_cells()[i].index_of() is None,
                Some(p) => {
                    &&& l.layer_cells()[i].flip_of() == p.flip
                    &&& l.layer_cells()[i].index_of() matches Some(k) && 0 <= k < final(tiles).size()
                        && final(tiles).key_seq()[k] == p.info.key
                },
            },
{
    let dynamic = is_dynamic_name(name);
    let ghost input = cells@;
    let ghost t0 = *tiles;
    let mut out: Vec<TileRef> = Vec::new();
    for c in it: cells.into_iter()
        invariant
            input.len() == width * height,
            it.seq() == input,
            out@.len() == it.index(),
            t0.wf(),
            t0.size() + input.len() <= MAX_TILE_INDEX,
            forall|i: int| 0 <= i < input.len() && (#[trigger] input[i]) is Some ==> def_ok(input[i]->Some_0.info.def),
            tiles.wf(),
            t0.size() <= tiles.size() <= t0.size() + it.index(),
            tiles.key_seq() == interned_keys(t0.key_seq(), input.take(it.index() as int)),
            forall|j: int|
                0 <= j < t0.size() ==> {
                    &&& tiles.key_seq()[j] == t0.key_seq()[j]
                    &&& tiles.walkable_seq()[j] == t0.walkable_seq()[j]
                    &&& tiles.group_seq()[j] == t0.group_seq()[j]
                    &&& tiles.sfx_seq()[j] == t0.sfx_seq()[j]
                    &&& tiles.def_seq()[j] == t0.def_seq()[j]
                },
            forall|j: int|
                t0.size() <= j < tiles.size() ==> #[trigger] entry_from(*tiles, input.take(it.index() as int), j),
            forall|i: int|
                0 <= i < it.index() ==> match #[trigger] input[i] {
                    None => out@[i].index_of() is None,
                    Some(p) => {
                        &&& out@[i].flip_of() == p.flip
                        &&& out@[i].index_of() matches Some(k) && 0 <= k < tiles.size() && tiles.key_seq()[k]
                            == p.info.key
                    },
                },
    {
        let ghost k = it.index() as int;
        let ghost before = *tiles;
        let ghost pre = input.take(k);
        let ghost now = input.take(k + 1);
        proof {
            assert(now.drop_last() =~= pre);
            assert(c == input[k]);
            assert(now.last() == c);
        }
        match c {
            Some(p) => {
                let ghost key = p.info.key;
                let t = tiles.intern(p.info, p.flip);
                proof {
                    before.key_seq().index_of_first_ensures(key);
                    if !before.key_seq().contains(key) {
                        lemma_unplaced(t0.key_seq(), pre, key);
                        assert(first_placed(now, key) == Some(k));
                    }
                    assert forall|j: int| t0.size() <= j < tiles.size() implies #[trigger] entry_from(*tiles, now, j) by {
                        if j < before.size() {
                            assert(entry_from(before, pre, j));
                            lemma_first_placed_prefix(pre, now, before.key_seq()[j]);
                        }
                    }
                }
                out.push(t);
            },
            None => {
                proof {
                    lemma_empty_unindexed();
                    assert forall|j: int| t0.size() <= j < tiles.size() implies #[trigger] entry_from(*tiles, now, j) by {
                        assert(entry_from(before, pre, j));
                        lemma_first_placed_prefix(pre, now, before.key_seq()[j]);
                    }
                }
                out.push(TileRef(0));
            },
        }
    }
    proof {
        assert(input.take(input.len() as int) =~= input);
    }
    RenderLayer::new(dynamic, width, height, out)
}

/// Interning is idempotent: once a tile's key is in a table, interning it again finds the same
/// entry (a table's keys are distinct, so the first occurrence is that entry).
pub proof fn lemma_intern_again(table: TileTable, i: int)
    requires
        table.wf(),
        0 <= i < table.size(),
    ensures
        table.key_seq().index_of_first(table.key_seq()[i]) == Some(i),
{
    reveal(TileTable::wf);
    let keys = table.key_seq();
    keys.index_of_first_ensures(keys[i]);
    match keys.index_of_first(keys[i]) {
        Some(j) => {
            if j < i {
                assert(keys[j] != keys[i]);
            }
        },
        None => {},
    }
}

} // verus!

verus! {

/// Whether any of the first `n` layers declares the cell (x, y) `v`-walkable.
pub open spec fn declares(layers: Seq<RenderLayer>, tiles: TileTable, n: int, x: int, y: int, v: bool) -> bool
    decreases n,
{
    if n <= 0 {
        false
    } else {
        tiles.walkable_at(layers[n - 1].cell(x, y)) == Some(v) || declares(layers, tiles, n - 1, x, y, v)
    }
}

/// The cue of the topmost of the first `n` layers that declares one for (x, y).
pub open spec fn top_sfx(layers: Seq<RenderLayer>, tiles: TileTable, n: int, x: int, y: int) -> Option<SfxId>
    decreases n,
{
    if n <= 0 {
        None
    } else {
        match tiles.sfx_at(layers[n - 1].cell(x, y)) {
            Some(s) => Some(s),
            None => top_sfx(layers, tiles, n - 1, x, y),
        }
    }
}

/// Every layer cell names an entry of `tiles`.
pub open spec fn layers_held(layers: Seq<RenderLayer>, tiles: TileTable) -> bool {
    forall|i: int, x: int, y: int| 0 <= i < layers.len() ==> #[trigger] tiles.holds(layers[i].cell(x, y))
}

/// Whether (x, y) is walkable on a map: some layer declares it walkable, none declares it
/// blocking, and no obscuring object covers it.
pub open spec fn open_cell(layers: Seq<RenderLayer>, tiles: TileTable, obscured: Seq<(i32, i32)>, x: int, y: int) -> bool {
    &&& declares(layers, tiles, layers.len() as int, x, y, true)
    &&& !declares(layers, tiles, layers.len() as int, x, y, false)
    &&& !obscured.contains((x as i32, y as i32))
}

/// Whether the cell (x, y) is walkable according to the layers alone.
fn layered_walkable(layers: &Vec<RenderLayer>, tiles: &TileTable, x: i32, y: i32) -> (r: bool)
    requires
        tiles.wf(),
        layers_held(layers@, *tiles),
    ensures
        r == (declares(layers@, *tiles, layers@.len() as int, x as int, y as int, true) && !declares(
            layers@,
            *tiles,
            layers@.len() as int,
            x as int,
            y as int,
            false,
        )),
{
    let mut any_walkable = false;
    let mut any_blocked = false;
    let mut i: usize = 0;
    while i < layers.len()
        invariant
            tiles.wf(),
            layers_held(layers@, *tiles),
            i <= layers@.len(),
            any_walkable == declares(layers@, *tiles, i as int, x as int, y as int, true),
            any_blocked == declares(layers@, *tiles, i as int, x as int, y as int, false),
        decreases layers@.len() - i,
    {
        let cell = layers[i].at(x, y);
        assert(tiles.holds(layers@[i as int].cell(x as int, y as int)));
        match tiles.walkable_of(cell) {
            Some(true) => {
                any_walkable = true;
            },
            Some(false) => {
                any_blocked = true;
            },
            None => {},
        }
        i = i + 1;
    }
    any_walkable && !any_blocked
}

/// The walkability grid of a `width` by `height` map: a cell is walkable when some layer's tile
/// declares it walkable, none declares it blocking, and no obscuring object covers it.
pub fn build_grid(
    width: i32,
    height: i32,
    layers: &Vec<RenderLayer>,
    tiles: &TileTable,
    obscured: &Vec<(i32, i32)>,
) -> (g: Grid)
    requires
        0 <= width <= MAX_SIDE,
        0 <= height <= MAX_SIDE,
        tiles.wf(),
        layers_held(layers@, *tiles),
    ensures
        g@.width == width,
        g@.height == height,
        forall|x: int, y: int|
            #[trigger] g@.passable(x, y) == (g@.inside(x, y) && open_cell(layers@, *tiles, obscured@, x, y)),
{
    let mut walkable: Vec<bool> = Vec::new();
    let mut y: i32 = 0;
    while y < height
        invariant
            0 <= width <= MAX_SIDE,
            0 <= height <= MAX_SIDE,
            tiles.wf(),
            layers_held(layers@, *tiles),
            0 <= y <= height,
            walkable@.len() == y * width,
            forall|cx: int, cy: int|
                0 <= cx < width && 0 <= cy < y ==> #[trigger] walkable@[cy * width + cx] == (declares(
                    layers@,
                    *tiles,
                    layers@.len() as int,
                    cx,
                    cy,
                    true,
                ) && !declares(layers@, *tiles, layers@.len() as int, cx, cy, false)),
        decreases height - y,
    {
        let mut x: i32 = 0;
        while x < width
            invariant
                0 <= width <= MAX_SIDE,
                0 <= height <= MAX_SIDE,
                tiles.wf(),
                layers_held(layers@, *tiles),
                0 <= y < height,
                0 <= x <= width,
                walkable@.len() == y * width + x,
                forall|cx: int, cy: int|
                    (0 <= cx < width && 0 <= cy < y) || (cy == y && 0 <= cx < x) ==> #[trigger] walkable@[cy
                        * width + cx] == (declares(layers@, *tiles, layers@.len() as int, cx, cy, true)
                        && !declares(layers@, *tiles, layers@.len() as int, cx, cy, false)),
            decreases width - x,
        {
            let w = layered_walkable(layers, tiles, x, y);
            let ghost before = walkable@;
            walkable.push(w);
            proof {
                assert forall|cx: int, cy: int|
                    #![trigger walkable@[cy * width + cx]]
                    (0 <= cx < width && 0 <= cy < y) || (cy == y && 0 <= cx < x + 1) implies walkable@[cy
                        * width + cx] == (declares(layers@, *tiles, layers@.len() as int, cx, cy, true)
                        && !declares(layers@, *tiles, layers@.len() as int, cx, cy, false)) by {
                    if cy == y && cx == x {
                        assert(walkable@[cy * width + cx] == w);
                    } else {
                        lemma_row_major_before(cx, cy, x as int, y as int, width as int);
                        assert(walkable@[cy * width + cx] == before[cy * width + cx]);
                    }
                }
            }
            x = x + 1;
        }
        proof {
            assert((y + 1) * width == y * width + width) by (nonlinear_arith);
        }
        y = y + 1;
    }
    proof {
        assert(walkable@.len() == width * height) by (nonlinear_arith)
            requires
                walkable@.len() == y * width,
                y == height,
        ;
    }
    let ghost base = walkable@;
    let mut k: usize = 0;
    while k < obscured.len()
        invariant
            0 <= width <= MAX_SIDE,
            0 <= height <= MAX_SIDE,
            walkable@.len() == base.len(),
            base.len() == width * height,
            k <= obscured@.len(),
            forall|cx: int, cy: int|
                0 <= cx < width && 0 <= cy < height ==> #[trigger] walkable@[cy * width + cx] == (base[cy
                    * width + cx] && !obscured@.subrange(0, k as int).contains((cx as i32, cy as i32))),
        decreases obscured@.len() - k,
    {
        let c = obscured[k];
        if c.0 >= 0 && c.1 >= 0 && c.0 < width && c.1 < height {
            proof {
                lemma_cell_index(c.0 as int, c.1 as int, width as int, height as int);
            }
            let index: i32 = c.1 * width + c.0;
            let ghost before = walkable@;
            walkable.set(index as usize, false);
            proof {
                assert forall|cx: int, cy: int|
                    0 <= cx < width && 0 <= cy < height implies #[trigger] walkable@[cy * width + cx] == (base[cy
                        * width + cx] && !obscured@.subrange(0, k + 1).contains((cx as i32, cy as i32))) by {
                    lemma_cell_index(cx, cy, width as int, height as int);
                    assert(obscured@.subrange(0, k + 1) =~= obscured@.subrange(0, k as int).push(c));
                    lemma_contains_push(obscured@.subrange(0, k as int), c, (cx as i32, cy as i32));
                    if cx != c.0 || cy != c.1 {
                        lemma_cell_distinct(cx, cy, c.0 as int, c.1 as int, width as int);
                        assert(walkable@[cy * width + cx] == before[cy * width + cx]);
                        assert((cx as i32, cy as i32) != c);
                    } else {
                        assert((cx as i32, cy as i32) == c);
                    }
                }
            }
        } else {
            proof {
                assert forall|cx: int, cy: int|
                    0 <= cx < width && 0 <= cy < height implies #[trigger] walkable@[cy * width + cx] == (base[cy
                        * width + cx] && !obscured@.subrange(0, k + 1).contains((cx as i32, cy as i32))) by {
                    assert(obscured@.subrange(0, k + 1) =~= obscured@.subrange(0, k as int).push(c));
                    lemma_contains_push(obscured@.subrange(0, k as int), c, (cx as i32, cy as i32));
                }
            }
        }
        k = k + 1;
    }
    assert(obscured@.subrange(0, obscured@.len() as int) =~= obscured@);
    let g = Grid::new(width as u32, height as u32, walkable);
    proof {
        assert forall|x: int, y: int|
            #[trigger] g@.passable(x, y) == (g@.inside(x, y) && open_cell(layers@, *tiles, obscured@, x, y)) by {
            if g@.inside(x, y) {
                lemma_cell_index(x, y, width as int, height as int);
            }
        }
    }
    g
}

proof fn lemma_row_major_before(cx: int, cy: int, x: int, y: int, w: int)
    requires
        (0 <= cx < w && 0 <= cy < y) || (cy == y && 0 <= cx < x),
        0 <= x,
        0 <= y,
        0 <= w,
    ensures
        0 <= cy * w + cx < y * w + x,
{
    if cy < y {
        assert(cy * w + cx < (cy + 1) * w) by (nonlinear_arith)
            requires
                cx < w,
        ;
        assert((cy + 1) * w <= y * w) by (nonlinear_arith)
            requires
                cy + 1 <= y,
                0 <= w,
        ;
    }
    assert(0 <= cy * w) by (nonlinear_arith)
        requires
            0 <= cy,
            0 <= w,
    ;
}

pub proof fn lemma_contains_push<T>(s: Seq<T>, c: T, p: T)
    ensures
        s.push(c).contains(p) == (s.contains(p) || p == c),
{
    let t = s.push(c);
    if p == c {
        assert(t[s.len() as int] == c);
    }
    if s.contains(p) {
        let i = choose|i: int| 0 <= i < s.len() && s[i] == p;
        assert(t[i] == p);
    }
    if t.contains(p) && p != c {
        let i = choose|i: int| 0 <= i < t.len() && t[i] == p;
        assert(i < s.len());
        assert(s[i] == p);
    }
}

pub proof fn lemma_cell_distinct(ax: int, ay: int, bx: int, by: int, w: int)
    requires
        0 <= ax < w,
        0 <= bx < w,
        0 <= ay,
        0 <= by,
        ax != bx || ay != by,
    ensures
        ay * w + ax != by * w + bx,
{
    if ay == by {
    } else if ay < by {
        assert(ay * w + ax < by * w + bx) by (nonlinear_arith)
            requires
                ay < by,
                0 <= ax < w,
                0 <= bx,
        ;
    } else {
        assert(by * w + bx < ay * w + ax) by (nonlinear_arith)
            requires
                by < ay,
                0 <= bx < w,
                0 <= ax,
        ;
    }
}

/// The footstep cue of cell (x, y) among the per-cell cues of a `width` by `height` map; none
/// off the map.
pub fn tile_sfx_at(cues: &Vec<Option<SfxId>>, width: i32, height: i32, x: i32, y: i32) -> (r: Option<&SfxId>)
    requires
        0 <= width <= MAX_SIDE,
        0 <= height <= MAX_SIDE,
        cues@.len() == width * height,
    ensures
        !(0 <= x < width && 0 <= y < height) ==> r is None,
        0 <= x < width && 0 <= y < height ==> match cues@[y * width + x] {
            Some(c) => r == Some(&c),
            None => r is None,
        },
{
    if x < 0 || y < 0 || x >= width || y >= height {
        return None;
    }
    proof {
        lemma_cell_index(x as int, y as int, width as int, height as int);
    }
    let i: i32 = y * width + x;
    match &cues[i as usize] {
        Some(c) => Some(c),
        None => None,
    }
}

/// Per-cell footstep cues of a `width` by `height` map, row-major: the topmost tile layer that
/// declares one wins.
pub fn tile_sfx(width: i32, height: i32, layers: &Vec<RenderLayer>, tiles: &TileTable) -> (r: Vec<Option<SfxId>>)
    requires
        0 <= width <= MAX_SIDE,
        0 <= height <= MAX_SIDE,
        tiles.wf(),
        layers_held(layers@, *tiles),
    ensures
        r@.len() == width * height,
        forall|x: int, y: int|
            0 <= x < width && 0 <= y < height ==> #[trigger] r@[y * width + x] == top_sfx(
                layers@,
                *tiles,
                layers@.len() as int,
                x,
                y,
            ),
{
    let mut out: Vec<Option<SfxId>> = Vec::new();
    let mut y: i32 = 0;
    while y < height
        invariant
            0 <= width <= MAX_SIDE,
            0 <= height <= MAX_SIDE,
            tiles.wf(),
            layers_held(layers@, *tiles),
            0 <= y <= height,
            out@.len() == y * width,
            forall|cx: int, cy: int|
                0 <= cx < width && 0 <= cy < y ==> #[trigger] out@[cy * width + cx] == top_sfx(
                    layers@,
                    *tiles,
                    layers@.len() as int,
                    cx,
                    cy,
                ),
        decreases height - y,
    {
        let mut x: i32 = 0;
        while x < width
            invariant
                0 <= width <= MAX_SIDE,
                0 <= height <= MAX_SIDE,
                tiles.wf(),
                layers_held(layers@, *tiles),
                0 <= y < height,
                0 <= x <= width,
                out@.len() == y * width + x,
                forall|cx: int, cy: int|
                    (0 <= cx < width && 0 <= cy < y) || (cy == y && 0 <= cx < x) ==> #[trigger] out@[cy * width
                        + cx] == top_sfx(layers@, *tiles, layers@.len() as int, cx, cy),
            decreases width - x,
        {
            let mut top: Option<SfxId> = None;
            let mut i: usize = 0;
            while i < layers.len()
                invariant
                    tiles.wf(),
                    layers_held(layers@, *tiles),
                    i <= layers@.len(),
                    top == top_sfx(layers@, *tiles, i as int, x as int, y as int),
                decreases layers@.len() - i,
            {
                let cell = layers[i].at(x, y);
                assert(tiles.holds(layers@[i as int].cell(x as int, y as int)));
                match tiles.sfx_of(cell) {
                    Some(id) => {
                        top = Some(id.clone());
                    },
                    None => {},
                }
                i = i + 1;
            }
            let ghost before = out@;
            out.push(top);
            proof {
                assert forall|cx: int, cy: int|
                    #![trigger out@[cy * width + cx]]
                    (0 <= cx < width && 0 <= cy < y) || (cy == y && 0 <= cx < x + 1) implies out@[cy * width
                        + cx] == top_sfx(layers@, *tiles, layers@.len() as int, cx, cy) by {
                    if cy == y && cx == x {
                        assert(out@[cy * width + cx] == top);
                    } else {
                        lemma_row_major_before(cx, cy, x as int, y as int, width as int);
                        assert(out@[cy * width + cx] == before[cy * width + cx]);
                    }
                }
            }
            x = x + 1;
        }
        proof {
            assert((y + 1) * width == y * width + width) by (nonlinear_arith);
        }
        y = y + 1;
    }
    proof {
        assert(out@.len() == width * height) by (nonlinear_arith)
            requires
                out@.len() == y * width,
                y == height,
        ;
    }
    out
}

/// Every walkable cell of `grid`, row by row.
pub fn walkable_nodes(grid: &Grid) -> (r: Vec<(i32, i32)>)
    ensures
        forall|k: int| 0 <= k < r@.len() ==> grid@.passable((#[trigger] r@[k]).0 as int, r@[k].1 as int),
        forall|x: int, y: int| #[trigger] grid@.passable(x, y) ==> r@.contains((x as i32, y as i32)),
        forall|i: int, j: int|
            0 <= i < j < r@.len() ==> (#[trigger] r@[i]).1 < (#[trigger] r@[j]).1 || (r@[i].1 == r@[j].1
                && r@[i].0 < r@[j].0),
{
    let (w, h) = grid.size();
    let width = w as i32;
    let height = h as i32;
    let mut out: Vec<(i32, i32)> = Vec::new();
    let mut y: i32 = 0;
    while y < height
        invariant
            grid@.wf(),
            width == grid@.width,
            height == grid@.height,
            0 <= y <= height,
            forall|k: int| 0 <= k < out@.len() ==> grid@.passable((#[trigger] out@[k]).0 as int, out@[k].1 as int),
            forall|k: int| 0 <= k < out@.len() ==> (#[trigger] out@[k]).1 < y,
            forall|cx: int, cy: int| #[trigger] grid@.passable(cx, cy) && cy < y ==> out@.contains((cx as i32, cy as i32)),
            forall|i: int, j: int|
                0 <= i < j < out@.len() ==> (#[trigger] out@[i]).1 < (#[trigger] out@[j]).1 || (out@[i].1
                    == out@[j].1 && out@[i].0 < out@[j].0),
        decreases height - y,
    {
        let mut x: i32 = 0;
        while x < width
            invariant
                grid@.wf(),
                width == grid@.width,
                height == grid@.height,
                0 <= y < height,
                0 <= x <= width,
                forall|k: int| 0 <= k < out@.len() ==> grid@.passable((#[trigger] out@[k]).0 as int, out@[k].1 as int),
                forall|k: int|
                    0 <= k < out@.len() ==> (#[trigger] out@[k]).1 < y || (out@[k].1 == y && out@[k].0 < x),
                forall|cx: int, cy: int|
                    #[trigger] grid@.passable(cx, cy) && (cy < y || (cy == y && cx < x)) ==> out@.contains(
                        (cx as i32, cy as i32),
                    ),
                forall|i: int, j: int|
                    0 <= i < j < out@.len() ==> (#[trigger] out@[i]).1 < (#[trigger] out@[j]).1 || (out@[i].1
                        == out@[j].1 && out@[i].0 < out@[j].0),
            decreases width - x,
        {
            if grid.walkable(x, y) {
                let ghost before = out@;
                out.push((x, y));
                proof {
                    assert forall|cx: int, cy: int|
                        #[trigger] grid@.passable(cx, cy) && (cy < y || (cy == y && cx < x + 1)) implies out@.contains(
                            (cx as i32, cy as i32),
                        ) by {
                        if cy == y && cx == x {
                            assert(out@[out@.len() - 1] == (x, y));
                        } else {
                            let k = choose|k: int| 0 <= k < before.len() && before[k] == (cx as i32, cy as i32);
                            assert(out@[k] == before[k]);
                        }
                    }
                }
            }
            x = x + 1;
        }
        y = y + 1;
    }
    out
}

} // verus!
