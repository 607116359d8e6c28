//! How movement comes to rest and when it takes a portal: a stop mid-step keeps only the tile
//! being entered, so a resting actor always stands on a tile; a portal is taken only by an actor
//! that asked for it.

use vstd::prelude::*;

verus! {

/// The part of a path an actor keeps when it stops mid-step: the tile it is stepping onto (the
/// first of its path), if any.
pub open spec fn kept(p: Seq<(i32, i32)>) -> Seq<(i32, i32)> {
    if p.len() == 0 {
        p
    } else {
        seq![p[0]]
    }
}

/// The path left after stopping an actor whose path is `path`: none when it stands on a tile,
/// else only the tile it is stepping onto.
pub fn halted(path: Option<Vec<(i32, i32)>>, on_tile: bool) -> (r: Option<Vec<(i32, i32)>>)
    ensures
        on_tile ==> r is None,
        !on_tile ==> match path {
            Some(p) => r matches Some(v) && v@ == kept(p@),
            None => r is None,
        },
{
    if on_tile {
        return None;
    }
    match path {
        Some(mut p) => {
            let ghost before = p@;
            p.truncate(1);
            assert(p@ =~= kept(before));
            Some(p)
        },
        None => None,
    }
}

/// A stopped actor is at rest within one step: what it keeps of a path is at most one tile.
pub proof fn lemma_halt_rests(p: Seq<(i32, i32)>)
    ensures
        kept(p).len() <= 1,
        kept(p).len() > 0 ==> kept(p)[0] == p[0],
{
}

/// What happens about a portal this tick.
#[derive(Clone, Copy, PartialEq, Eq, Structural, Debug)]
pub enum Crossing {
    /// Nothing: no portal asked for, or not there yet.
    Stay,
    /// The portal asked for does not exist in this area: the wish is dropped.
    Abandon,
    /// The actor steps through portal `index` (and lets go of its target and path).
    Cross(u32),
}

/// The portal decision for an actor that asked for portal `want` (if any) in an area with
/// `portals` portals, standing inside that portal's rectangle or not.
pub open spec fn crossing_of(want: Option<u32>, portals: nat, inside: bool) -> Crossing {
    match want {
        None => Crossing::Stay,
        Some(i) => if i >= portals {
            Crossing::Abandon
        } else if inside {
            Crossing::Cross(i)
        } else {
            Crossing::Stay
        },
    }
}

/// Whether and where an actor crosses a portal this tick.
pub fn crossing(want: Option<u32>, portals: usize, inside: bool) -> (r: Crossing)
    ensures
        r == crossing_of(want, portals as nat, inside),
{
    match want {
        None => Crossing::Stay,
        Some(i) => {
            if i as usize >= portals {
                Crossing::Abandon
            } else if inside {
                Crossing::Cross(i)
            } else {
                Crossing::Stay
            }
        },
    }
}

/// Walking over a portal without having asked for it never crosses it, and a crossing is always
/// through the portal asked for.
pub proof fn lemma_crossing_needs_intent(want: Option<u32>, portals: nat, inside: bool)
    ensures
        want is None ==> crossing_of(want, portals, inside) == Crossing::Stay,
        crossing_of(want, portals, inside) matches Crossing::Cross(i) ==> want == Some(i) && i < portals && inside,
{
}

} // verus!
