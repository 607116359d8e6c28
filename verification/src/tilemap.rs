//! The textures a flat tile layer is drawn from. The index texture holds four bytes per cell:
//! the tile id's low and high byte, the flips (bit 0 horizontal, bit 1 vertical) and 255 for a
//! filled cell. The frame map holds four bytes per tile id: the atlas id it currently shows, low
//! byte then high byte; animation rewrites it as frames advance.

use vstd::prelude::*;

use crate::nav::MAX_SIDE;

verus! {

/// The id a texel at byte offset `i` names.
pub open spec fn texel_id(data: Seq<u8>, i: int) -> int {
    data[i] + 256 * data[i + 1]
}

/// The flips a texel at byte offset `i` carries.
pub open spec fn texel_flips(data: Seq<u8>, i: int) -> (bool, bool) {
    (data[i + 2] % 2 == 1, (data[i + 2] / 2) % 2 == 1)
}

/// Whether bytes outside `[i, i + 4)` are the same in `a` and `b`.
pub open spec fn same_outside(a: Seq<u8>, b: Seq<u8>, i: int) -> bool {
    &&& a.len() == b.len()
    &&& forall|j: int| 0 <= j < a.len() && !(i <= j < i + 4) ==> #[trigger] a[j] == b[j]
}

/// Writes `id` (its low 16 bits) into the first two bytes of the texel at byte offset `i`.
fn write_id(data: &mut Vec<u8>, i: usize, id: u32)
    requires
        i + 1 < old(data)@.len(),
    ensures
        final(data)@ == old(data)@.update(i as int, (id % 256) as u8).update(i + 1, ((id / 256) % 256) as u8),
{
    let n = data.len();
    assert(i + 1 < n);
    let j: usize = i + 1;
    let lo: u8 = #[verifier::truncate] ((id & 0xff) as u8);
    let hi: u8 = #[verifier::truncate] ((id >> 8) as u8);
    assert(lo == id % 256) by (bit_vector)
        requires
            lo == (id & 0xff) as u8,
    ;
    assert(hi == (id / 256) % 256) by (bit_vector)
        requires
            hi == (id >> 8) as u8,
    ;
    data.set(i, lo);
    data.set(j, hi);
}

/// One flat layer's cells for one tileset, accumulated into index-texture bytes, with the
/// atlas's column count and tile count.
pub struct IndexBuilder {
    width: i32,
    height: i32,
    data: Vec<u8>,
    cols: u32,
    tilecount: u32,
}

impl IndexBuilder {
    /// The bytes cover the grid, four per cell, and the grid fits a map.
    pub closed spec fn wf(self) -> bool {
        &&& 0 <= self.width <= MAX_SIDE
        &&& 0 <= self.height <= MAX_SIDE
        &&& self.data@.len() == 4 * self.width * self.height
    }

    pub closed spec fn bytes(self) -> Seq<u8> {
        self.data@
    }

    pub closed spec fn grid_width(self) -> int {
        self.width as int
    }

    pub closed spec fn grid_height(self) -> int {
        self.height as int
    }

    pub closed spec fn columns(self) -> int {
        self.cols as int
    }

    pub closed spec fn tiles(self) -> int {
        self.tilecount as int
    }

    /// An empty index texture of `width` by `height` cells for a tileset of `columns` columns
    /// (at least one) and `tilecount` tiles.
    pub fn new(width: i32, height: i32, columns: u32, tilecount: u32) -> (b: IndexBuilder)
        requires
            0 <= width <= MAX_SIDE,
            0 <= height <= MAX_SIDE,
            4 * width * height <= usize::MAX,
        ensures
            b.grid_width() == width,
            b.grid_height() == height,
            b.columns() == if columns == 0 {
                1
            } else {
                columns as int
            },
            b.tiles() == tilecount,
            b.wf(),
            b.bytes().len() == 4 * width * height,
            forall|j: int| 0 <= j < b.bytes().len() ==> #[trigger] b.bytes()[j] == 0,
    {
        assert(0 <= width * height <= 46340 * 46340) by (nonlinear_arith)
            requires
                0 <= width <= 46340,
                0 <= height <= 46340,
        ;
        let n: usize = (4 * (width as u64) * (height as u64)) as usize;
        let mut data: Vec<u8> = Vec::new();
        while data.len() < n
            invariant
                data@.len() <= n,
                forall|j: int| 0 <= j < data@.len() ==> #[trigger] data@[j] == 0,
            decreases n - data@.len(),
        {
            data.push(0);
        }
        let cols = if columns == 0 {
            1
        } else {
            columns
        };
        IndexBuilder { width, height, data, cols, tilecount }
    }

    /// The index-texture bytes.
    pub fn data(&self) -> (r: &Vec<u8>)
        ensures
            r@ == self.bytes(),
    {
        &self.data
    }

    /// Places tile `id` with its flips in cell (x, y): only the cell's four bytes change, and
    /// they read back as the id's low 16 bits, the flips, and a filled cell.
    pub fn set(&mut self, x: i32, y: i32, id: u32, flip_x: bool, flip_y: bool)
        requires
            old(self).wf(),
            0 <= x < old(self).grid_width(),
            0 <= y < old(self).grid_height(),
        ensures
            final(self).wf(),
            final(self).grid_width() == old(self).grid_width(),
            final(self).grid_height() == old(self).grid_height(),
            final(self).columns() == old(self).columns(),
            final(self).tiles() == old(self).tiles(),
            ({
                let i = 4 * (y * old(self).grid_width() + x);
                &&& same_outside(old(self).bytes(), final(self).bytes(), i)
                &&& texel_id(final(self).bytes(), i) == id % 0x1_0000
                &&& texel_flips(final(self).bytes(), i) == (flip_x, flip_y)
                &&& final(self).bytes()[i + 3] == 255
            }),
    {
        let ghost w = self.width as int;
        let ghost h = self.height as int;
        assert(0 <= y * w + x < w * h && w * h <= 46340 * 46340) by (nonlinear_arith)
            requires
                0 <= x < w,
                0 <= y < h,
                w <= 46340,
                h <= 46340,
        ;
        let c: u64 = (y as u64) * (self.width as u64) + (x as u64);
        assert(4 * c + 3 < 4 * w * h) by (nonlinear_arith)
            requires
                c == y * w + x,
                y * w + x < w * h,
        ;
        let len = self.data.len();
        assert(len == 4 * w * h);
        let i: usize = (4 * c) as usize;
        assert(i == 4 * (y * w + x));
        write_id(&mut self.data, i, id);
        let flips: u8 = if flip_x {
            1
        } else {
            0
        } + if flip_y {
            2
        } else {
            0
        };
        self.data.set(i + 2, flips);
        self.data.set(i + 3, 255);
        assert(((id % 256) + 256 * ((id / 256) % 256)) == id % 0x1_0000) by (nonlinear_arith);
    }

    /// The frame map a fresh tilemap starts from: every tile id shows itself.
    pub fn frame_map_data(&self) -> (r: Vec<u8>)
        requires
            4 * self.tiles() + 4 <= usize::MAX,
        ensures
            r@.len() == 4 * (if self.tiles() == 0 {
                1
            } else {
                self.tiles()
            }),
            forall|id: int| 0 <= id < self.tiles() ==> #[trigger] texel_id(r@, 4 * id) == id % 0x1_0000,
    {
        let count: u32 = if self.tilecount == 0 {
            1
        } else {
            self.tilecount
        };
        let n: usize = (4 * count as u64) as usize;
        let mut data: Vec<u8> = Vec::new();
        while data.len() < n
            invariant
                data@.len() <= n,
            decreases n - data@.len(),
        {
            data.push(0);
        }
        let mut id: u32 = 0;
        while id < self.tilecount
            invariant
                data@.len() == n,
                n == 4 * count,
                id <= self.tilecount,
                self.tilecount <= count,
                forall|k: int| 0 <= k < id ==> #[trigger] texel_id(data@, 4 * k) == k % 0x1_0000,
            decreases self.tilecount - id,
        {
            let ghost before = data@;
            let i: usize = (4 * id as u64) as usize;
            assert(i == 4 * id);
            write_id(&mut data, i, id);
            assert(((id % 256) + 256 * ((id / 256) % 256)) == id % 0x1_0000) by (nonlinear_arith);
            assert forall|k: int| 0 <= k < id + 1 implies #[trigger] texel_id(data@, 4 * k) == k % 0x1_0000 by {
                if k < id {
                    assert(texel_id(before, 4 * k) == k % 0x1_0000);
                    assert(data@[4 * k] == before[4 * k]);
                    assert(data@[4 * k + 1] == before[4 * k + 1]);
                } else {
                    assert(data@[4 * k] == (id % 256) as u8);
                    assert(data@[4 * k + 1] == ((id / 256) % 256) as u8);
                    assert((id % 256) as u8 == id % 256);
                    assert(((id / 256) % 256) as u8 == (id / 256) % 256);
                }
            }
            id = id + 1;
        }
        data
    }
}

/// Points tile `tile_id`'s frame-map entry at `atlas_id`: the entry reads back as the atlas id's
/// low 16 bits, and nothing else changes.
pub fn show_frame(data: &mut Vec<u8>, tile_id: u32, atlas_id: u32)
    requires
        4 * tile_id + 1 < old(data)@.len(),
    ensures
        final(data)@.len() == old(data)@.len(),
        texel_id(final(data)@, 4 * tile_id) == atlas_id % 0x1_0000,
        forall|j: int|
            0 <= j < old(data)@.len() && j != 4 * tile_id && j != 4 * tile_id + 1 ==> #[trigger] final(data)@[j]
                == old(data)@[j],
{
    let len = data.len();
    assert(4 * tile_id < len);
    let i: usize = (4 * tile_id as u64) as usize;
    assert(i == 4 * tile_id);
    write_id(data, i, atlas_id);
    assert(((atlas_id % 256) + 256 * ((atlas_id / 256) % 256)) == atlas_id % 0x1_0000) by (nonlinear_arith);
}

/// The summed duration of `frames`, each an (atlas id, duration in ms) pair.
pub open spec fn frames_total(frames: Seq<(u32, u32)>) -> int
    decreases frames.len(),
{
    if frames.len() == 0 {
        0
    } else {
        frames_total(frames.drop_last()) + frames.last().1
    }
}

/// The position of the frame playing `remaining` ms into a cycle of `frames`: the first whose
/// end lies past it, or the last.
pub open spec fn frame_pos(frames: Seq<(u32, u32)>, remaining: int) -> int
    decreases frames.len(),
{
    if frames.len() <= 1 || remaining < frames[0].1 {
        0
    } else {
        1 + frame_pos(frames.skip(1), remaining - frames[0].1)
    }
}

/// The animated tiles of a tileset whose tile `id` plays the frames `animations[id]`, in id
/// order: those with more than one frame.
pub open spec fn animated(animations: Seq<Seq<(u32, u32)>>) -> Seq<(int, Seq<(u32, u32)>)>
    decreases animations.len(),
{
    if animations.len() == 0 {
        seq![]
    } else {
        let prev = animated(animations.drop_last());
        if animations.last().len() > 1 {
            prev.push((animations.len() - 1, animations.last()))
        } else {
            prev
        }
    }
}

/// One animated tile: its id and its frames as (atlas id, duration in ms).
pub struct Anim {
    pub tile_id: u32,
    pub frames: Vec<(u32, u32)>,
}

/// A flat tilemap's animation timeline: its animated tiles, each with the cycle's length and
/// the frame it currently shows.
pub struct TileAnimations {
    anims: Vec<Anim>,
    totals: Vec<u64>,
    current: Vec<usize>,
}

impl TileAnimations {
    /// The tiles, their cycle lengths and the shown frames line up; tile ids rise; every tile
    /// has a frame, a total that is its frames' summed duration, and a shown frame among them.
    pub closed spec fn wf(self) -> bool {
        &&& self.totals@.len() == self.anims@.len()
        &&& self.current@.len() == self.anims@.len()
        &&& forall|i: int, j: int| 0 <= i < j < self.anims@.len() ==> self.anims@[i].tile_id < self.anims@[j].tile_id
        &&& forall|i: int|
            #![trigger self.anims@[i]]
            0 <= i < self.anims@.len() ==> {
                &&& self.anims@[i].frames@.len() > 0
                &&& self.totals@[i] == frames_total(self.anims@[i].frames@)
                &&& self.current@[i] < self.anims@[i].frames@.len()
            }
    }

    /// The animated tiles as (tile id, frames).
    pub closed spec fn tiles(self) -> Seq<(int, Seq<(u32, u32)>)> {
        Seq::new(self.anims@.len(), |i: int| (self.anims@[i].tile_id as int, self.anims@[i].frames@))
    }

    /// The frame each animated tile shows.
    pub closed spec fn shown(self) -> Seq<int> {
        Seq::new(self.current@.len(), |i: int| self.current@[i] as int)
    }
}


/// A copy of `frames`, with their summed duration.
fn copy_frames(frames: &Vec<(u32, u32)>) -> (r: (Vec<(u32, u32)>, u64))
    requires
        frames@.len() <= u32::MAX,
    ensures
        r.0@ == frames@,
        r.1 == frames_total(frames@),
{
    let mut out: Vec<(u32, u32)> = Vec::new();
    let mut total: u64 = 0;
    let mut i: usize = 0;
    while i < frames.len()
        invariant
            frames@.len() <= u32::MAX,
            i <= frames@.len(),
            out@ == frames@.take(i as int),
            total == frames_total(frames@.take(i as int)),
            total <= i * 0xffff_ffff,
        decreases frames@.len() - i,
    {
        let f = frames[i];
        assert(frames@.take(i + 1).drop_last() =~= frames@.take(i as int));
        assert(total + f.1 <= (i + 1) * 0xffff_ffff <= 0xffff_ffff * 0xffff_ffff) by (nonlinear_arith)
            requires
                total <= i * 0xffff_ffff,
                f.1 <= 0xffff_ffff,
                i < 0xffff_ffff,
        ;
        total = total + f.1 as u64;
        out.push(f);
        i = i + 1;
        assert(out@ =~= frames@.take(i as int));
    }
    assert(frames@.take(frames@.len() as int) =~= frames@);
    (out, total)
}

/// The position of the frame playing `remaining` ms into a cycle of `frames`.
fn frame_index(frames: &Vec<(u32, u32)>, remaining: u64) -> (r: usize)
    requires
        frames@.len() > 0,
    ensures
        r == frame_pos(frames@, remaining as int),
        r < frames@.len(),
{
    let n = frames.len();
    let mut i: usize = 0;
    let mut rest: u64 = remaining;
    assert(frames@.skip(0) =~= frames@);
    while i + 1 < n && rest >= frames[i].1 as u64
        invariant
            n == frames@.len(),
            0 < frames@.len(),
            i < frames@.len(),
            frame_pos(frames@, remaining as int) == i + frame_pos(frames@.skip(i as int), rest as int),
        decreases frames@.len() - i,
    {
        let ghost tail = frames@.skip(i as int);
        assert(tail[0] == frames@[i as int]);
        assert(tail.skip(1) =~= frames@.skip(i + 1));
        rest = rest - frames[i].1 as u64;
        i = i + 1;
    }
    assert(frames@.skip(i as int)[0] == frames@[i as int]);
    i
}

impl TileAnimations {
    /// The timeline of a tileset whose tile `id` plays `animations[id]`: every tile with more
    /// than one frame, in id order, each showing its first frame.
    pub fn new(animations: &Vec<Vec<(u32, u32)>>) -> (t: TileAnimations)
        requires
            animations@.len() <= 0x1_0000_0000,
            forall|i: int| 0 <= i < animations@.len() ==> (#[trigger] animations@[i])@.len() <= u32::MAX,
        ensures
            t.wf(),
            t.tiles() == animated(animations@.map_values(|v: Vec<(u32, u32)>| v@)),
            t.shown() == Seq::new(t.tiles().len(), |i: int| 0int),
    {
        let ghost all = animations@.map_values(|v: Vec<(u32, u32)>| v@);
        let mut anims: Vec<Anim> = Vec::new();
        let mut totals: Vec<u64> = Vec::new();
        let mut current: Vec<usize> = Vec::new();
        let mut id: usize = 0;
        while id < animations.len()
            invariant
                all == animations@.map_values(|v: Vec<(u32, u32)>| v@),
                animations@.len() <= 0x1_0000_0000,
                forall|i: int| 0 <= i < animations@.len() ==> (#[trigger] animations@[i])@.len() <= u32::MAX,
                id <= animations@.len(),
                totals@.len() == anims@.len(),
                current@.len() == anims@.len(),
                forall|i: int| 0 <= i < current@.len() ==> current@[i] == 0,
                forall|i: int| 0 <= i < anims@.len() ==> (#[trigger] anims@[i]).tile_id < id,
                forall|i: int, j: int| 0 <= i < j < anims@.len() ==> anims@[i].tile_id < anims@[j].tile_id,
                forall|i: int|
                    #![trigger anims@[i]]
                    0 <= i < anims@.len() ==> {
                        &&& anims@[i].frames@.len() > 0
                        &&& totals@[i] == frames_total(anims@[i].frames@)
                    },
                Seq::new(anims@.len(), |i: int| (anims@[i].tile_id as int, anims@[i].frames@)) == animated(
                    all.take(id as int),
                ),
            decreases animations@.len() - id,
        {
            let ghost before = Seq::new(anims@.len(), |i: int| (anims@[i].tile_id as int, anims@[i].frames@));
            assert(all.take(id + 1).drop_last() =~= all.take(id as int));
            assert(all.take(id + 1).last() == animations@[id as int]@);
            if animations[id].len() > 1 {
                let (frames, total) = copy_frames(&animations[id]);
                let ghost fr = frames@;
                anims.push(Anim { tile_id: id as u32, frames });
                totals.push(total);
                current.push(0);
                assert(Seq::new(anims@.len(), |i: int| (anims@[i].tile_id as int, anims@[i].frames@)) =~= before.push(
                    (id as int, fr),
                ));
            }
            id = id + 1;
        }
        assert(all.take(animations@.len() as int) =~= all);
        let t = TileAnimations { anims, totals, current };
        assert(t.shown() =~= Seq::new(t.tiles().len(), |i: int| 0int));
        t
    }

    /// Moves every animated tile to the frame playing at `now_ms`; whether any tile changed
    /// frames (and the frame map needs rewriting).
    pub fn advance(&mut self, now_ms: u64) -> (dirty: bool)
        requires
            old(self).wf(),
        ensures
            final(self).wf(),
            final(self).tiles() == old(self).tiles(),
            final(self).shown().len() == old(self).shown().len(),
            forall|i: int|
                0 <= i < old(self).tiles().len() ==> #[trigger] final(self).shown()[i] == {
                    let frames = old(self).tiles()[i].1;
                    let total = frames_total(frames);
                    if total > 0 {
                        frame_pos(frames, now_ms as int % total)
                    } else {
                        old(self).shown()[i]
                    }
                },
            dirty == exists|i: int|
                0 <= i < old(self).tiles().len() && #[trigger] final(self).shown()[i] != old(self).shown()[i],
    {
        let ghost start = *self;
        let mut dirty = false;
        let mut i: usize = 0;
        while i < self.anims.len()
            invariant
                start.wf(),
                self.wf(),
                self.anims@ == start.anims@,
                self.totals@ == start.totals@,
                i <= self.anims@.len(),
                forall|k: int|
                    i <= k < self.current@.len() ==> self.current@[k] == start.current@[k],
                forall|k: int|
                    0 <= k < i ==> #[trigger] self.current@[k] == {
                        let frames = start.anims@[k].frames@;
                        let total = frames_total(frames);
                        if total > 0 {
                            frame_pos(frames, now_ms as int % total)
                        } else {
                            start.current@[k] as int
                        }
                    },
                dirty == exists|k: int| 0 <= k < i && #[trigger] self.current@[k] != start.current@[k],
            decreases self.anims@.len() - i,
        {
            let total = self.totals[i];
            assert(self.anims@[i as int].frames@.len() > 0);
            if total > 0 {
                let f = frame_index(&self.anims[i].frames, now_ms % total);
                if f != self.current[i] {
                    self.current.set(i, f);
                    dirty = true;
                    assert(self.current@[i as int] != start.current@[i as int]);
                }
            }
            i = i + 1;
        }
        assert(self.tiles() =~= start.tiles());
        assert forall|k: int| 0 <= k < start.tiles().len() implies #[trigger] self.shown()[k] == {
            let frames = start.tiles()[k].1;
            let total = frames_total(frames);
            if total > 0 {
                frame_pos(frames, now_ms as int % total)
            } else {
                start.shown()[k]
            }
        } by {
            assert(self.current@[k] == self.shown()[k]);
        }
        proof {
            if dirty {
                let k = choose|k: int| 0 <= k < i && #[trigger] self.current@[k] != start.current@[k];
                assert(self.shown()[k] != start.shown()[k]);
            } else {
                assert forall|k: int| 0 <= k < start.tiles().len() implies !(#[trigger] self.shown()[k]
                    != start.shown()[k]) by {
                    assert(self.current@[k] == start.current@[k]);
                }
            }
        }
        dirty
    }

    /// Points each animated tile's frame-map entry at the atlas id of the frame it shows; every
    /// other byte stays.
    pub fn write(&self, data: &mut Vec<u8>)
        requires
            self.wf(),
            forall|i: int| 0 <= i < self.tiles().len() ==> 4 * (#[trigger] self.tiles()[i]).0 + 1 < old(data)@.len(),
        ensures
            final(data)@.len() == old(data)@.len(),
            forall|i: int|
                0 <= i < self.tiles().len() ==> texel_id(final(data)@, 4 * (#[trigger] self.tiles()[i]).0)
                    == self.tiles()[i].1[self.shown()[i]].0 % 0x1_0000,
            forall|j: int|
                0 <= j < old(data)@.len() && (forall|i: int|
                    0 <= i < self.tiles().len() ==> j != 4 * (#[trigger] self.tiles()[i]).0 && j != 4
                        * self.tiles()[i].0 + 1) ==> #[trigger] final(data)@[j] == old(data)@[j],
    {
        let ghost start = data@;
        let mut i: usize = 0;
        while i < self.anims.len()
            invariant
                self.wf(),
                forall|k: int| 0 <= k < self.tiles().len() ==> 4 * (#[trigger] self.tiles()[k]).0 + 1 < start.len(),
                i <= self.anims@.len(),
                data@.len() == start.len(),
                forall|k: int|
                    0 <= k < i ==> texel_id(data@, 4 * (#[trigger] self.anims@[k]).tile_id)
                        == self.anims@[k].frames@[self.current@[k] as int].0 % 0x1_0000,
                forall|j: int|
                    0 <= j < start.len() && (forall|k: int|
                        0 <= k < i ==> j != 4 * (#[trigger] self.anims@[k]).tile_id && j != 4
                            * self.anims@[k].tile_id + 1) ==> #[trigger] data@[j] == start[j],
            decreases self.anims@.len() - i,
        {
            let a = &self.anims[i];
            assert(self.tiles()[i as int].0 == a.tile_id);
            assert(a.frames@.len() > 0);
            let atlas = a.frames[self.current[i]].0;
            let ghost before = data@;
            show_frame(data, a.tile_id, atlas);
            assert forall|k: int| 0 <= k < i + 1 implies texel_id(data@, 4 * (#[trigger] self.anims@[k]).tile_id)
                == self.anims@[k].frames@[self.current@[k] as int].0 % 0x1_0000 by {
                if k < i {
                    assert(self.anims@[k].tile_id < self.anims@[i as int].tile_id);
                    assert(data@[4 * self.anims@[k].tile_id] == before[4 * self.anims@[k].tile_id]);
                    assert(data@[4 * self.anims@[k].tile_id + 1] == before[4 * self.anims@[k].tile_id + 1]);
                }
            }
            i = i + 1;
        }
        assert forall|k: int| 0 <= k < self.tiles().len() implies texel_id(data@, 4 * (#[trigger] self.tiles()[k]).0)
            == self.tiles()[k].1[self.shown()[k]].0 % 0x1_0000 by {
            assert(self.tiles()[k].0 == self.anims@[k].tile_id);
            assert(texel_id(data@, 4 * self.anims@[k].tile_id) == self.anims@[k].frames@[self.current@[k] as int].0
                % 0x1_0000);
        }
        assert forall|j: int|
            0 <= j < start.len() && (forall|k: int|
                0 <= k < self.tiles().len() ==> j != 4 * (#[trigger] self.tiles()[k]).0 && j != 4 * self.tiles()[k].0
                    + 1) implies #[trigger] data@[j] == start[j] by {
            assert forall|k: int| 0 <= k < self.anims@.len() implies j != 4 * (#[trigger] self.anims@[k]).tile_id
                && j != 4 * self.anims@[k].tile_id + 1 by {
                assert(self.tiles()[k].0 == self.anims@[k].tile_id);
            }
        }
    }
}

/// The pixel size of a tileset's atlas: its image's, or, without one, a row of `columns` tiles
/// (at least one pixel each way).
pub fn atlas_size(image: Option<(u32, u32)>, columns: u32, tile_width: u32, tile_height: u32) -> (r: (u32, u32))
    requires
        columns * tile_width <= u32::MAX,
    ensures
        r == match image {
            Some(size) => size,
            None => (
                if columns * tile_width == 0 {
                    1
                } else {
                    (columns * tile_width) as u32
                },
                if tile_height == 0 {
                    1
                } else {
                    tile_height
                },
            ),
        },
{
    match image {
        Some(size) => size,
        None => {
            let w = columns * tile_width;
            (if w == 0 {
                1
            } else {
                w
            }, if tile_height == 0 {
                1
            } else {
                tile_height
            })
        },
    }
}

} // verus!
