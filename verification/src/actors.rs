//! The actor registry: every model describes one pre-baked 8-direction sheet, the registry is
//! sorted by name and the index is the wire id. A model's sheet holds one row of frame-sized
//! cells per action and direction. Frames advance at 100ms (scaled by attack speed for
//! "attack"); actions loop, except "death" which plays once and holds its last frame. Unknown
//! actions fall back to idle. Audio and step cues fire as their frame is entered.
//!
//! Time enters as a frame count: the number of whole frames elapsed since the action started,
//! or -1 for "the action just started".

use vstd::prelude::*;

use crate::text::{chars_of, str_eq};

verus! {

/// Milliseconds per frame at the native pace.
pub const FRAME_MS: u64 = 100;

/// An actor model's index in the registry; content tables reference models by name.
#[derive(Clone, Copy, PartialEq, Eq, Debug, Default, Hash)]
pub struct ActorModelId(pub u16);

/// A sound cue's id in the sfx table.
#[derive(PartialEq, Eq, Debug, Hash)]
pub struct SfxId(pub String);

impl Clone for SfxId {
    fn clone(&self) -> (r: Self)
        ensures
            r == *self,
    {
        SfxId(self.0.clone())
    }
}

/// A sound cue fired as `frame` is entered.
#[derive(Debug)]
pub struct Sfx {
    pub id: SfxId,
    pub frame: u32,
}

/// One direction's run of frames for an action.
pub struct Strip {
    pub frames: u32,
    pub apex: Option<u32>,
    pub steps: Vec<u32>,
    pub sfx: Vec<Sfx>,
}

/// One action: its base row in the sheet, then one strip per direction on rows `row..row + 8`.
pub struct Action {
    pub name: String,
    pub row: u32,
    pub dirs: Vec<Strip>,
}

/// Why a model manifest was refused.
#[derive(Debug, PartialEq, Eq)]
pub enum ModelError {
    NoIdle,
    WrongDirections,
    EmptyStrip,
    DuplicateAction,
}

pub open spec fn idle_name() -> Seq<char> {
    seq!['i', 'd', 'l', 'e']
}

pub open spec fn attack_name() -> Seq<char> {
    seq!['a', 't', 't', 'a', 'c', 'k']
}

pub open spec fn death_name() -> Seq<char> {
    seq!['d', 'e', 'a', 't', 'h']
}

/// Every action has a strip for each of the eight directions.
pub open spec fn eight_dirs(actions: Seq<Action>) -> bool {
    forall|i: int| 0 <= i < actions.len() ==> (#[trigger] actions[i]).dirs@.len() == 8
}

/// No two actions share a name.
pub open spec fn distinct_actions(actions: Seq<Action>) -> bool {
    forall|i: int, j: int| 0 <= i < j < actions.len() ==> (#[trigger] actions[i]).name@ != (#[trigger] actions[j]).name@
}

/// Some action is the idle one.
pub open spec fn has_idle(actions: Seq<Action>) -> bool {
    exists|i: int| 0 <= i < actions.len() && (#[trigger] actions[i]).name@ == idle_name()
}

/// Every strip has a frame.
pub open spec fn strips_filled(actions: Seq<Action>) -> bool {
    forall|i: int, d: int|
        0 <= i < actions.len() && 0 <= d < actions[i].dirs@.len() ==> (#[trigger] actions[i].dirs@[d]).frames > 0
}

/// Every action has eight non-empty strips, names differ, and there is an idle action.
pub open spec fn actions_wf(actions: Seq<Action>) -> bool {
    &&& eight_dirs(actions)
    &&& distinct_actions(actions)
    &&& has_idle(actions)
    &&& strips_filled(actions)
}

/// Why a manifest with `actions` is refused, if it is: a malformed action list first (a
/// direction count other than eight, then a repeated action), then a missing idle action, then
/// an empty strip.
pub open spec fn refusal(actions: Seq<Action>) -> Option<ModelError> {
    if !eight_dirs(actions) {
        Some(ModelError::WrongDirections)
    } else if !distinct_actions(actions) {
        Some(ModelError::DuplicateAction)
    } else if !has_idle(actions) {
        Some(ModelError::NoIdle)
    } else if !strips_filled(actions) {
        Some(ModelError::EmptyStrip)
    } else {
        None
    }
}

/// The position of the action named `name`, if any.
pub open spec fn action_pos(actions: Seq<Action>, name: Seq<char>) -> Option<int> {
    if exists|i: int| 0 <= i < actions.len() && (#[trigger] actions[i]).name@ == name {
        Some(choose|i: int| 0 <= i < actions.len() && (#[trigger] actions[i]).name@ == name)
    } else {
        None
    }
}

/// The direction slot a wire direction selects; out-of-range directions read as the first.
pub open spec fn slot_of(dir: u8) -> int {
    if dir > 7 { 0 } else { dir as int }
}

/// An 8-direction actor model over a pre-baked sheet.
pub struct ActorModel {
    name: String,
    sheet: Vec<u8>,
    frame_w: u32,
    frame_h: u32,
    actions: Vec<Action>,
}

impl ActorModel {
    #[verifier::type_invariant]
    closed spec fn inv(self) -> bool {
        actions_wf(self.actions@)
    }

    pub closed spec fn model_name(self) -> Seq<char> {
        self.name@
    }

    pub closed spec fn model_sheet(self) -> Seq<u8> {
        self.sheet@
    }

    pub closed spec fn frame_size(self) -> (u32, u32) {
        (self.frame_w, self.frame_h)
    }

    pub closed spec fn model_actions(self) -> Seq<Action> {
        self.actions@
    }

    /// The action `name` plays as: itself when declared, else idle.
    pub open spec fn played(self, name: Seq<char>) -> int {
        match action_pos(self.model_actions(), name) {
            Some(i) => i,
            None => action_pos(self.model_actions(), idle_name())->0,
        }
    }

    /// The strip `name` facing `dir` draws from.
    pub open spec fn strip_of(self, name: Seq<char>, dir: u8) -> Strip {
        self.model_actions()[self.played(name)].dirs@[slot_of(dir)]
    }

    /// A model named `name` over `sheet`, whose frames are `frame_w` by `frame_h` pixels;
    /// refused, as [`refusal`] orders the reasons, when an action lacks eight directions or
    /// repeats, when no idle action is declared, or when a strip is empty.
    pub fn load(name: String, sheet: Vec<u8>, frame_w: u32, frame_h: u32, actions: Vec<Action>) -> (r:
        Result<ActorModel, ModelError>)
        ensures
            match refusal(actions@) {
                Some(e) => r == Err::<ActorModel, ModelError>(e),
                None => r matches Ok(m) && m.model_name() == name@ && m.model_sheet() == sheet@ && m.frame_size()
                    == (frame_w, frame_h) && m.model_actions() == actions@,
            },
            r is Ok <==> actions_wf(actions@),
    {
        let n = actions.len();
        let mut i: usize = 0;
        while i < n
            invariant
                n == actions@.len(),
                i <= n,
                forall|k: int| 0 <= k < i ==> (#[trigger] actions@[k]).dirs@.len() == 8,
            decreases n - i,
        {
            if actions[i].dirs.len() != 8 {
                assert(actions@[i as int].dirs@.len() != 8);
                return Err(ModelError::WrongDirections);
            }
            i = i + 1;
        }
        let mut i: usize = 0;
        while i < n
            invariant
                n == actions@.len(),
                i <= n,
                eight_dirs(actions@),
                forall|k: int, j: int|
                    0 <= k < j < i ==> (#[trigger] actions@[k]).name@ != (#[trigger] actions@[j]).name@,
            decreases n - i,
        {
            let mut j: usize = 0;
            while j < i
                invariant
                    n == actions@.len(),
                    i < n,
                    j <= i,
                    eight_dirs(actions@),
                    forall|k: int| 0 <= k < j ==> (#[trigger] actions@[k]).name@ != actions@[i as int].name@,
                decreases i - j,
            {
                if str_eq(actions[j].name.as_str(), actions[i].name.as_str()) {
                    assert(actions@[j as int].name@ == actions@[i as int].name@);
                    return Err(ModelError::DuplicateAction);
                }
                j = j + 1;
            }
            i = i + 1;
        }
        let idle = "idle";
        proof {
            reveal_strlit("idle");
            assert(idle@ =~= idle_name());
        }
        let mut i: usize = 0;
        let mut found = false;
        while i < n
            invariant
                n == actions@.len(),
                i <= n,
                eight_dirs(actions@),
                distinct_actions(actions@),
                idle@ == idle_name(),
                found == exists|k: int| 0 <= k < i && (#[trigger] actions@[k]).name@ == idle_name(),
            decreases n - i,
        {
            if str_eq(actions[i].name.as_str(), idle) {
                found = true;
            }
            i = i + 1;
        }
        if !found {
            return Err(ModelError::NoIdle);
        }
        let mut i: usize = 0;
        while i < n
            invariant
                n == actions@.len(),
                i <= n,
                eight_dirs(actions@),
                distinct_actions(actions@),
                has_idle(actions@),
                forall|k: int, d: int| 0 <= k < i && 0 <= d < actions@[k].dirs@.len() ==> (#[trigger] actions@[k].dirs@[d]).frames > 0,
            decreases n - i,
        {
            assert(actions@[i as int].dirs@.len() == 8);
            let mut d: usize = 0;
            while d < 8
                invariant
                    n == actions@.len(),
                    i < n,
                    eight_dirs(actions@),
                    distinct_actions(actions@),
                    has_idle(actions@),
                    actions@[i as int].dirs@.len() == 8,
                    d <= 8,
                    forall|e: int| 0 <= e < d ==> (#[trigger] actions@[i as int].dirs@[e]).frames > 0,
                decreases 8 - d,
            {
                if actions[i].dirs[d].frames == 0 {
                    assert(actions@[i as int].dirs@[d as int].frames == 0);
                    return Err(ModelError::EmptyStrip);
                }
                d = d + 1;
            }
            i = i + 1;
        }
        Ok(ActorModel { name, sheet, frame_w, frame_h, actions })
    }

    pub fn name(&self) -> (r: &str)
        ensures
            r@ == self.model_name(),
    {
        self.name.as_str()
    }

    /// The model's sheet as PNG bytes; frame regions index into it.
    pub fn sheet(&self) -> (r: &[u8])
        ensures
            r@ == self.model_sheet(),
    {
        self.sheet.as_slice()
    }

    fn position(&self, action: &str) -> (r: Option<usize>)
        ensures
            r matches Some(i) ==> action_pos(self.model_actions(), action@) == Some(i as int),
            r is None ==> action_pos(self.model_actions(), action@) is None,
    {
        proof {
            use_type_invariant(self);
        }
        let mut i: usize = 0;
        while i < self.actions.len()
            invariant
                actions_wf(self.actions@),
                i <= self.actions@.len(),
                forall|k: int| 0 <= k < i ==> (#[trigger] self.actions@[k]).name@ != action@,
            decreases self.actions@.len() - i,
        {
            if str_eq(self.actions[i].name.as_str(), action) {
                proof {
                    let c = choose|k: int|
                        0 <= k < self.actions@.len() && (#[trigger] self.actions@[k]).name@ == action@;
                    if c != i {
                        assert(self.actions@[c].name@ == self.actions@[i as int].name@);
                    }
                }
                return Some(i);
            }
            i = i + 1;
        }
        None
    }

    /// The row and strip `action` facing `dir` draws from, falling back to idle.
    pub fn strip(&self, action: &str, dir: u8) -> (r: (u64, &Strip))
        ensures
            r.0 == self.model_actions()[self.played(action@)].row + slot_of(dir),
            *r.1 == self.strip_of(action@, dir),
            r.1.frames > 0,
    {
        proof {
            use_type_invariant(self);
            reveal_strlit("idle");
            assert("idle"@ =~= idle_name());
        }
        let index = match self.position(action) {
            Some(i) => i,
            None => {
                match self.position("idle") {
                    Some(i) => i,
                    None => {
                        proof {
                            let k = choose|k: int|
                                0 <= k < self.actions@.len() && (#[trigger] self.actions@[k]).name@
                                    == idle_name();
                            assert(self.actions@[k].name@ == "idle"@);
                        }
                        0
                    },
                }
            },
        };
        let slot = dir_slot(dir);
        let spec_ = &self.actions[index];
        (spec_.row as u64 + slot as u64, &spec_.dirs[slot])
    }

    /// The pixel region of the frame drawn `elapsed` whole frames into `action` facing `dir`:
    /// the column loops through the strip, except for death, which holds its last frame.
    pub fn frame(&self, action: &str, dir: u8, elapsed: u64) -> (r: PixelRect)
        ensures
            ({
                let s = self.strip_of(action@, dir);
                let column = if action@ == death_name() {
                    if elapsed < s.frames - 1 { elapsed as int } else { s.frames - 1int }
                } else {
                    (elapsed as int) % (s.frames as int)
                };
                let row = self.model_actions()[self.played(action@)].row + slot_of(dir);
                &&& r.x == column * self.frame_size().0
                &&& r.y == row * self.frame_size().1
                &&& r.w == self.frame_size().0
                &&& r.h == self.frame_size().1
            }),
    {
        let (row, strip) = self.strip(action, dir);
        let frames = strip.frames as u64;
        proof {
            reveal_strlit("death");
            assert("death"@ =~= death_name());
        }
        let column: u64 = if str_eq(action, "death") {
            if elapsed < frames - 1 { elapsed } else { frames - 1 }
        } else {
            elapsed % frames
        };
        assert(column < 0x1_0000_0000);
        assert(row < 0x1_0000_0008);
        proof {
            lemma_mul_small(column as int, self.frame_w as int);
            lemma_mul_small(row as int, self.frame_h as int);
        }
        PixelRect {
            x: column as u128 * self.frame_w as u128,
            y: row as u128 * self.frame_h as u128,
            w: self.frame_w,
            h: self.frame_h,
        }
    }

    /// The run length of `action` facing `dir` at the native pace, never zero, and the moment
    /// of its apex frame (0 without one), both in milliseconds.
    pub fn timing(&self, action: &str, dir: u8) -> (r: (u64, u64))
        ensures
            r.0 == self.strip_of(action@, dir).frames * FRAME_MS,
            r.0 > 0,
            r.1 == match self.strip_of(action@, dir).apex {
                Some(a) => a * FRAME_MS,
                None => 0,
            },
    {
        let (_, strip) = self.strip(action, dir);
        let apex: u64 = match strip.apex {
            Some(a) => a as u64,
            None => 0,
        };
        (strip.frames as u64 * FRAME_MS, apex * FRAME_MS)
    }

    /// Sound cues whose frame was entered as the frame count advanced from `from` to `to`; see
    /// [`crossed`].
    pub fn sfx(&self, action: &str, dir: u8, from: i64, to: i64) -> (r: Vec<&SfxId>)
        requires
            -0x4000_0000_0000_0000 <= from <= 0x4000_0000_0000_0000,
            -0x4000_0000_0000_0000 <= to <= 0x4000_0000_0000_0000,
        ensures
            action_pos(self.model_actions(), action@) is None ==> r@.len() == 0,
            action_pos(self.model_actions(), action@) is Some ==> {
                let cues = self.strip_of(action@, dir).sfx@;
                let death = action@ == death_name();
                r@ == cues.filter(|c: Sfx| fires(death, self.strip_of(action@, dir).frames, c.frame, from as int, to as int)).map_values(|c: Sfx| &c.id)
            },
    {
        let position = self.position(action);
        match position {
            None => {
                return Vec::new();
            },
            Some(_) => {},
        }
        let (_, strip) = self.strip(action, dir);
        proof {
            reveal_strlit("death");
            assert("death"@ =~= death_name());
        }
        let death = str_eq(action, "death");
        let mut out: Vec<&SfxId> = Vec::new();
        let mut i: usize = 0;
        let ghost cues = strip.sfx@;
        let ghost pred = |c: Sfx| fires(death, strip.frames, c.frame, from as int, to as int);
        while i < strip.sfx.len()
            invariant
                cues == strip.sfx@,
                i <= cues.len(),
                strip.frames > 0,
                pred == (|c: Sfx| fires(death, strip.frames, c.frame, from as int, to as int)),
                -0x4000_0000_0000_0000 <= from <= 0x4000_0000_0000_0000,
                -0x4000_0000_0000_0000 <= to <= 0x4000_0000_0000_0000,
                out@ == cues.subrange(0, i as int).filter(pred).map_values(|c: Sfx| &c.id),
            decreases cues.len() - i,
        {
            let cue = &strip.sfx[i];
            let hit = crossed(death, strip.frames, cue.frame, from, to);
            proof {
                reveal_with_fuel(Seq::filter, 1);
                assert(cues.subrange(0, i + 1).drop_last() =~= cues.subrange(0, i as int));
            }
            if hit {
                out.push(&cue.id);
            }
            i = i + 1;
            proof {
                assert(out@ =~= cues.subrange(0, i as int).filter(pred).map_values(|c: Sfx| &c.id));
            }
        }
        assert(cues.subrange(0, cues.len() as int) =~= cues);
        out
    }

    /// Whether a step-cue frame was entered as the frame count advanced from `from` to `to`.
    pub fn steps_crossed(&self, action: &str, dir: u8, from: i64, to: i64) -> (r: bool)
        requires
            -0x4000_0000_0000_0000 <= from <= 0x4000_0000_0000_0000,
            -0x4000_0000_0000_0000 <= to <= 0x4000_0000_0000_0000,
        ensures
            r == (action_pos(self.model_actions(), action@) is Some && exists|k: int|
                0 <= k < self.strip_of(action@, dir).steps@.len() && fires(
                    action@ == death_name(),
                    self.strip_of(action@, dir).frames,
                    #[trigger] self.strip_of(action@, dir).steps@[k],
                    from as int,
                    to as int,
                )),
    {
        let position = self.position(action);
        match position {
            None => {
                return false;
            },
            Some(_) => {},
        }
        let (_, strip) = self.strip(action, dir);
        proof {
            reveal_strlit("death");
            assert("death"@ =~= death_name());
        }
        let death = str_eq(action, "death");
        assert(*strip == self.strip_of(action@, dir));
        assert(death == (action@ == death_name()));
        let mut i: usize = 0;
        while i < strip.steps.len()
            invariant
                i <= strip.steps@.len(),
                strip.frames > 0,
                -0x4000_0000_0000_0000 <= from <= 0x4000_0000_0000_0000,
                -0x4000_0000_0000_0000 <= to <= 0x4000_0000_0000_0000,
                *strip == self.strip_of(action@, dir),
                death == (action@ == death_name()),
                action_pos(self.model_actions(), action@) is Some,
                forall|k: int| 0 <= k < i ==> !fires(death, strip.frames, #[trigger] strip.steps@[k], from as int, to as int),
            decreases strip.steps@.len() - i,
        {
            if crossed(death, strip.frames, strip.steps[i], from, to) {
                assert(fires(death, strip.frames, strip.steps@[i as int], from as int, to as int));
                assert(self.strip_of(action@, dir).steps@[i as int] == strip.steps@[i as int]);
                return true;
            }
            i = i + 1;
        }
        false
    }

    /// Every cue id this model references, action by action, direction by direction.
    pub fn sfx_ids(&self) -> (r: Vec<&SfxId>)
        ensures
            r@.map_values(|x: &SfxId| *x) == cue_ids(self.model_actions()),
    {
        let ghost acts = self.actions@;
        let mut out: Vec<&SfxId> = Vec::new();
        let mut a: usize = 0;
        assert(acts.take(0) =~= Seq::<Action>::empty());
        assert(out@.map_values(|x: &SfxId| *x) =~= cue_ids(acts.take(0)));
        while a < self.actions.len()
            invariant
                acts == self.actions@,
                a <= acts.len(),
                out@.map_values(|x: &SfxId| *x) == cue_ids(acts.take(a as int)),
            decreases acts.len() - a,
        {
            let action = &self.actions[a];
            let ghost base = out@.map_values(|x: &SfxId| *x);
            let ghost dirs = action.dirs@;
            let mut d: usize = 0;
            assert(dirs.take(0) =~= Seq::<Strip>::empty());
            assert(out@.map_values(|x: &SfxId| *x) =~= base + strip_ids(dirs.take(0)));
            while d < action.dirs.len()
                invariant
                    dirs == action.dirs@,
                    d <= dirs.len(),
                    out@.map_values(|x: &SfxId| *x) == base + strip_ids(dirs.take(d as int)),
                decreases dirs.len() - d,
            {
                let strip = &action.dirs[d];
                let ghost cues = strip.sfx@;
                let ghost mid = out@.map_values(|x: &SfxId| *x);
                let mut c: usize = 0;
                assert(mid =~= mid + cues.take(0).map_values(|q: Sfx| q.id));
                while c < strip.sfx.len()
                    invariant
                        cues == strip.sfx@,
                        c <= cues.len(),
                        out@.map_values(|x: &SfxId| *x) == mid + cues.take(c as int).map_values(|q: Sfx| q.id),
                    decreases cues.len() - c,
                {
                    let ghost before = out@;
                    out.push(&strip.sfx[c].id);
                    proof {
                        assert(out@ =~= before.push(&cues[c as int].id));
                        assert(out@.map_values(|x: &SfxId| *x) =~= before.map_values(|x: &SfxId| *x).push(cues[c as int].id));
                        assert(cues.take(c + 1).map_values(|q: Sfx| q.id) =~= cues.take(c as int).map_values(|q: Sfx| q.id).push(cues[c as int].id));
                    }
                    c = c + 1;
                    assert(out@.map_values(|x: &SfxId| *x) =~= mid + cues.take(c as int).map_values(|q: Sfx| q.id));
                }
                assert(cues.take(cues.len() as int) =~= cues);
                d = d + 1;
                assert(dirs.take(d as int).drop_last() =~= dirs.take(d - 1));
                assert(out@.map_values(|x: &SfxId| *x) =~= base + strip_ids(dirs.take(d as int)));
            }
            assert(dirs.take(dirs.len() as int) =~= dirs);
            a = a + 1;
            assert(acts.take(a as int).drop_last() =~= acts.take(a - 1));
            assert(out@.map_values(|x: &SfxId| *x) =~= cue_ids(acts.take(a as int)));
        }
        assert(acts.take(acts.len() as int) =~= acts);
        out
    }
}

/// The cue ids of a run of strips, strip by strip.
pub open spec fn strip_ids(dirs: Seq<Strip>) -> Seq<SfxId>
    decreases dirs.len(),
{
    if dirs.len() == 0 {
        Seq::empty()
    } else {
        strip_ids(dirs.drop_last()) + dirs.last().sfx@.map_values(|q: Sfx| q.id)
    }
}

/// The cue ids of a run of actions, action by action.
pub open spec fn cue_ids(actions: Seq<Action>) -> Seq<SfxId>
    decreases actions.len(),
{
    if actions.len() == 0 {
        Seq::empty()
    } else {
        cue_ids(actions.drop_last()) + strip_ids(actions.last().dirs@)
    }
}

/// A pixel region of a sheet.
#[derive(Clone, Copy, PartialEq, Eq, Debug)]
pub struct PixelRect {
    pub x: u128,
    pub y: u128,
    pub w: u32,
    pub h: u32,
}

proof fn lemma_mul_small(a: int, b: int)
    requires
        0 <= a < 0x1_0000_0008,
        0 <= b < 0x1_0000_0000,
    ensures
        0 <= a * b < 0x1_0000_0008 * 0x1_0000_0000,
{
    assert(0 <= a * b < 0x1_0000_0008 * 0x1_0000_0000) by (nonlinear_arith)
        requires
            0 <= a < 0x1_0000_0008,
            0 <= b < 0x1_0000_0000,
    ;
}

/// The direction slot a wire direction selects; out-of-range directions read as the first.
pub fn dir_slot(dir: u8) -> (s: usize)
    ensures
        s == slot_of(dir),
{
    if dir > 7 {
        0
    } else {
        dir as usize
    }
}

/// `a / b` rounded toward negative infinity.
pub open spec fn floor_quotient(a: int, b: int) -> int {
    if b > 0 {
        a / b
    } else {
        (-a) / (-b)
    }
}

fn floor_div_positive(a: i128, b: i128) -> (q: i128)
    requires
        b > 0,
        -0x1_0000_0000_0000_0000 <= a <= 0x1_0000_0000_0000_0000,
        b <= 0x1_0000_0000_0000_0000,
    ensures
        q == a as int / b as int,
        -0x1_0000_0000_0000_0000 <= q <= 0x1_0000_0000_0000_0000,
{
    if a >= 0 {
        proof {
            assert(a / b <= a) by (nonlinear_arith)
                requires
                    a >= 0,
                    b > 0,
            ;
        }
        a / b
    } else {
        let m: i128 = -a;
        let t: i128 = (m + b - 1) / b;
        proof {
            lemma_floor_negative(m as int, b as int, t as int);
            assert(((m + b - 1) as int) / (b as int) <= m as int) by (nonlinear_arith)
                requires
                    m > 0,
                    b > 0,
            ;
        }
        -t
    }
}

/// Division rounding toward negative infinity.
pub fn floor_div(a: i64, b: i64) -> (q: i64)
    requires
        b != 0,
        !(a == i64::MIN && b == -1),
    ensures
        q == floor_quotient(a as int, b as int),
{
    let (n, d): (i128, i128) = if b > 0 {
        (a as i128, b as i128)
    } else {
        (-(a as i128), -(b as i128))
    };
    let q = floor_div_positive(n, d);
    proof {
        if d == 1 {
            assert(n / 1 == n);
        } else {
            assert(-0x8000_0000_0000_0000 <= n / d < 0x8000_0000_0000_0000) by (nonlinear_arith)
                requires
                    d >= 2,
                    -0x8000_0000_0000_0000 <= n <= 0x8000_0000_0000_0000,
            ;
        }
    }
    q as i64
}

proof fn lemma_floor_negative(m: int, b: int, t: int)
    requires
        m > 0,
        b > 0,
        t == (m + b - 1) / b,
    ensures
        (-m) / b == -t,
{
    let r = (m + b - 1) % b;
    assert(m + b - 1 == t * b + r && 0 <= r < b) by (nonlinear_arith)
        requires
            b > 0,
            t == (m + b - 1) / b,
            r == (m + b - 1) % b,
    ;
    assert(-m == (-t) * b + (b - 1 - r)) by (nonlinear_arith)
        requires
            m + b - 1 == t * b + r,
    ;
    assert((-m) / b == -t) by (nonlinear_arith)
        requires
            -m == (-t) * b + (b - 1 - r),
            0 <= b - 1 - r < b,
            b > 0,
    ;
}

/// Whether absolute `frame` is entered as the frame count advances from `from` to `to`: at most
/// once per call; death enters each frame only once and never again while holding its last,
/// looping actions enter it once per lap.
pub open spec fn fires(death: bool, frames: u32, frame: u32, from: int, to: int) -> bool {
    if to <= from {
        false
    } else if death {
        from < frame && frame <= to
    } else {
        floor_quotient(to - frame, frames as int) > floor_quotient(from - frame, frames as int)
    }
}

/// Death plays once and then holds, so across successive calls — frame counts `t[0] <= t[1] <=
/// ...` — a death cue fires in at most one step, and never in a step that starts once the
/// strip's last frame is reached.
pub proof fn lemma_death_cue_once(frames: u32, frame: u32, t: Seq<int>, i: int, j: int)
    requires
        forall|a: int, b: int| 0 <= a <= b < t.len() ==> t[a] <= t[b],
        1 <= i < j < t.len(),
    ensures
        !(fires(true, frames, frame, t[i - 1], t[i]) && fires(true, frames, frame, t[j - 1], t[j])),
        frame < frames && t[i - 1] >= frames - 1 ==> !fires(true, frames, frame, t[i - 1], t[i]),
{
    assert(t[i] <= t[j - 1]);
}

/// Whether absolute `frame` of a strip of `frames` is entered as the frame count advances from
/// `from` to `to`.
pub fn crossed(death: bool, frames: u32, frame: u32, from: i64, to: i64) -> (r: bool)
    requires
        frames > 0,
        -0x4000_0000_0000_0000 <= from <= 0x4000_0000_0000_0000,
        -0x4000_0000_0000_0000 <= to <= 0x4000_0000_0000_0000,
    ensures
        r == fires(death, frames, frame, from as int, to as int),
{
    if to <= from {
        return false;
    }
    let n = frames as i64;
    let f = frame as i64;
    if death {
        from < f && f <= to
    } else {
        floor_div(to - f, n) > floor_div(from - f, n)
    }
}

/// Sorts models by name, so that the index is the wire id.
pub fn models(all: Vec<ActorModel>) -> (r: Vec<ActorModel>)
    ensures
        r@.to_multiset() == all@.to_multiset(),
        forall|i: int, j: int|
            0 <= i < j < r@.len() ==> !name_before((#[trigger] r@[j]).model_name(), (#[trigger] r@[i]).model_name()),
{
    let mut rest = all;
    let mut out: Vec<ActorModel> = Vec::new();
    let ghost given = rest@;
    proof {
        broadcast use vstd::seq_lib::group_to_multiset_ensures;
        assert(out@.to_multiset() =~= vstd::multiset::Multiset::empty());
        assert(out@.to_multiset().add(rest@.to_multiset()) =~= given.to_multiset());
    }
    while rest.len() > 0
        invariant
            out@.to_multiset().add(rest@.to_multiset()) == given.to_multiset(),
            forall|i: int, j: int|
                0 <= i < j < out@.len() ==> !name_before((#[trigger] out@[j]).model_name(), (#[trigger] out@[i]).model_name()),
        decreases rest@.len(),
    {
        let ghost before_rest = rest@;
        let ghost before_out = out@;
        let m = rest.remove(0);
        proof {
            broadcast use vstd::seq_lib::group_to_multiset_ensures;
            assert(rest@.to_multiset() =~= before_rest.to_multiset().remove(m));
            assert(before_rest.to_multiset().count(m) > 0);
        }
        let mut p: usize = out.len();
        while p > 0 && name_lt(m.name(), out[p - 1].name())
            invariant
                p <= out@.len(),
                out@ == before_out,
                forall|k: int| p <= k < out@.len() ==> name_before(m.model_name(), (#[trigger] out@[k]).model_name()),
            decreases p,
        {
            p = p - 1;
        }
        proof {
            if p > 0 {
                assert(!name_before(m.model_name(), out@[p - 1].model_name()));
            }
        }
        out.insert(p, m);
        proof {
            broadcast use vstd::seq_lib::group_to_multiset_ensures;
            lemma_insert_multiset(before_out, p as int, m);
            assert(out@.to_multiset().add(rest@.to_multiset()) =~= given.to_multiset());
            assert forall|i: int, j: int|
                0 <= i < j < out@.len() implies !name_before((#[trigger] out@[j]).model_name(), (#[trigger] out@[i]).model_name()) by {
                lemma_name_order(before_out, p as int, m, i, j);
            }
        }
    }
    proof {
        broadcast use vstd::seq_lib::group_to_multiset_ensures;
        assert(rest@.to_multiset() =~= vstd::multiset::Multiset::empty());
        assert(out@.to_multiset() =~= given.to_multiset());
    }
    out
}

proof fn lemma_insert_multiset(s: Seq<ActorModel>, p: int, m: ActorModel)
    requires
        0 <= p <= s.len(),
    ensures
        s.insert(p, m).to_multiset() == s.to_multiset().insert(m),
{
    broadcast use vstd::seq_lib::group_to_multiset_ensures;

    let t = s.insert(p, m);
    assert(t.remove(p) =~= s);
    assert(t[p] == m);
    assert(s.to_multiset() =~= t.to_multiset().remove(m));
    assert(t.to_multiset().count(m) > 0);
    assert(t.to_multiset() =~= s.to_multiset().insert(m));
}

proof fn lemma_name_order(s: Seq<ActorModel>, p: int, m: ActorModel, i: int, j: int)
    requires
        0 <= p <= s.len(),
        forall|a: int, b: int| 0 <= a < b < s.len() ==> !name_before((#[trigger] s[b]).model_name(), (#[trigger] s[a]).model_name()),
        p > 0 ==> !name_before(m.model_name(), s[p - 1].model_name()),
        forall|k: int| p <= k < s.len() ==> name_before(m.model_name(), (#[trigger] s[k]).model_name()),
        0 <= i < j < s.len() + 1,
    ensures
        !name_before(s.insert(p, m)[j].model_name(), s.insert(p, m)[i].model_name()),
{
    let t = s.insert(p, m);
    if i < p && j < p {
        assert(t[i] == s[i] && t[j] == s[j]);
    } else if i < p && j == p {
        assert(t[i] == s[i]);
        if i < p - 1 {
            lemma_name_before_trans_neg(s[i].model_name(), s[p - 1].model_name(), m.model_name());
        }
    } else if i < p && j > p {
        assert(t[i] == s[i] && t[j] == s[j - 1]);
    } else if i == p {
        assert(t[j] == s[j - 1]);
        lemma_name_before_asym(m.model_name(), s[j - 1].model_name());
    } else {
        assert(t[i] == s[i - 1] && t[j] == s[j - 1]);
    }
}

/// `a` sorts strictly before `b`, comparing characters in order and a proper prefix first.
pub open spec fn name_before(a: Seq<char>, b: Seq<char>) -> bool
    decreases a.len(),
{
    if b.len() == 0 {
        false
    } else if a.len() == 0 {
        true
    } else if a[0] != b[0] {
        (a[0] as u32) < (b[0] as u32)
    } else {
        name_before(a.drop_first(), b.drop_first())
    }
}

pub(crate) proof fn lemma_name_before_asym(a: Seq<char>, b: Seq<char>)
    requires
        name_before(a, b),
    ensures
        !name_before(b, a),
    decreases a.len(),
{
    broadcast use vstd::utf8::char_u32_cast;

    if a.len() > 0 && b.len() > 0 && a[0] == b[0] {
        lemma_name_before_asym(a.drop_first(), b.drop_first());
    }
}

/// Not-before is transitive: if `b` is not before `a` and `c` is not before `b`, `c` is not
/// before `a`.
pub(crate) proof fn lemma_char_code_injective(x: char, y: char)
    requires
        (x as u32) == (y as u32),
    ensures
        x == y,
{
    vstd::utf8::char_u32_cast(x, x as u32);
    vstd::utf8::char_u32_cast(y, y as u32);
}

pub(crate) proof fn lemma_name_before_trans_neg(a: Seq<char>, b: Seq<char>, c: Seq<char>)
    requires
        !name_before(b, a),
        !name_before(c, b),
    ensures
        !name_before(c, a),
    decreases a.len(),
{
    if a.len() == 0 {
    } else if b.len() == 0 {
        assert(name_before(b, a));
    } else if c.len() == 0 {
        assert(name_before(c, b));
    } else {
        let (x, y, z) = (a[0], b[0], c[0]);
        if x == y && y == z {
            lemma_name_before_trans_neg(a.drop_first(), b.drop_first(), c.drop_first());
        } else {
            if (x as u32) == (y as u32) {
                lemma_char_code_injective(x, y);
            }
            if (y as u32) == (z as u32) {
                lemma_char_code_injective(y, z);
            }
            if (x as u32) == (z as u32) {
                lemma_char_code_injective(x, z);
            }
            assert(x != y ==> (y as u32) > (x as u32));
            assert(y != z ==> (z as u32) > (y as u32));
            assert(z != x);
        }
    }
}

/// Whether name `a` sorts strictly before name `b`.
pub fn name_lt(a: &str, b: &str) -> (r: bool)
    ensures
        r == name_before(a@, b@),
{
    let x = chars_of(a);
    let y = chars_of(b);
    assert(x@.subrange(0, x@.len() as int) =~= x@);
    assert(y@.subrange(0, y@.len() as int) =~= y@);
    let mut i: usize = 0;
    while i < x.len() && i < y.len() && x[i] == y[i]
        invariant
            i <= x@.len(),
            i <= y@.len(),
            x@ == a@,
            y@ == b@,
            name_before(a@, b@) == name_before(x@.subrange(i as int, x@.len() as int), y@.subrange(i as int, y@.len() as int)),
        decreases x@.len() - i,
    {
        proof {
            let xs = x@.subrange(i as int, x@.len() as int);
            let ys = y@.subrange(i as int, y@.len() as int);
            assert(xs.drop_first() =~= x@.subrange(i + 1, x@.len() as int));
            assert(ys.drop_first() =~= y@.subrange(i + 1, y@.len() as int));
        }
        i = i + 1;
    }
    if i == y.len() {
        false
    } else if i == x.len() {
        true
    } else {
        (x[i] as u32) < (y[i] as u32)
    }
}

/// The first model named `name`, by its position as wire id.
pub fn model_index(models: &Vec<ActorModel>, name: &str) -> (r: Option<ActorModelId>)
    ensures
        r matches Some(id) ==> exists|i: int|
            0 <= i < models@.len() && (#[trigger] models@[i]).model_name() == name@ && id.0 == i as u16
                && forall|k: int| 0 <= k < i ==> (#[trigger] models@[k]).model_name() != name@,
        r is None ==> forall|k: int| 0 <= k < models@.len() ==> (#[trigger] models@[k]).model_name() != name@,
{
    let mut i: usize = 0;
    while i < models.len()
        invariant
            i <= models@.len(),
            forall|k: int| 0 <= k < i ==> (#[trigger] models@[k]).model_name() != name@,
        decreases models@.len() - i,
    {
        if str_eq(models[i].name(), name) {
            return Some(ActorModelId(i as u16));
        }
        i = i + 1;
    }
    None
}

} // verus!
