//! Who replicates to whom: each client sees its own player or spectator anchor, everything
//! nearby in the same area, and — when spectating — the area's full player roster so the UI can
//! offer it. Spectator anchors stay invisible to everyone else.

use vstd::prelude::*;

use crate::tiles::AreaId;

verus! {

/// A replicated entity's id.
#[derive(Clone, Copy, PartialEq, Eq, Structural, Debug, Hash)]
pub struct Entity(pub u64);

/// What a client looks out from: its player or its spectator anchor.
#[derive(Clone, Copy, Debug)]
pub struct Sight {
    pub focus: Entity,
    /// Whether the focus has a position.
    pub located: bool,
    pub area: Option<AreaId>,
    pub spectating: bool,
}

/// An entity whose visibility is being decided.
#[derive(Clone, Copy, Debug)]
pub struct Subject {
    pub entity: Entity,
    pub area: Option<AreaId>,
    /// Whether it is a spectator anchor.
    pub anchor: bool,
}

/// A client's sight: its player when playing, else its spectator anchor; `None` for a client
/// that has neither.
pub fn sight(
    player: Option<Entity>,
    anchor: Option<Entity>,
    located: bool,
    area: Option<AreaId>,
) -> (r: Option<Sight>)
    ensures
        (player is None && anchor is None) <==> r is None,
        r matches Some(s) ==> s.focus == (if player is Some { player->0 } else { anchor->0 })
            && s.spectating == anchor is Some && s.located == located && s.area == area,
{
    let focus = match player {
        Some(p) => p,
        None => match anchor {
            Some(a) => a,
            None => return None,
        },
    };
    Some(Sight { focus, located, area, spectating: anchor.is_some() })
}

pub open spec fn sees_spec(sight: Option<Sight>, is_player: bool, subject: Subject, within_view: bool) -> bool {
    match sight {
        None => false,
        Some(s) => {
            if subject.entity == s.focus {
                true
            } else if !s.located || s.area is None {
                false
            } else if subject.area != s.area {
                false
            } else {
                (!subject.anchor && within_view) || (s.spectating && is_player)
            }
        },
    }
}

/// Whether a client with `sight` sees `subject`: always its own focus; otherwise only from a
/// located focus in the subject's area, a non-anchor within view distance (`within_view`), or —
/// when spectating — any player (`is_player`).
pub fn sees(sight: Option<&Sight>, is_player: bool, subject: &Subject, within_view: bool) -> (r: bool)
    ensures
        r == sees_spec(
            match sight {
                Some(s) => Some(*s),
                None => None,
            },
            is_player,
            *subject,
            within_view,
        ),
{
    let s = match sight {
        Some(s) => s,
        None => return false,
    };
    if subject.entity.0 == s.focus.0 {
        return true;
    }
    if !s.located {
        return false;
    }
    let area = match s.area {
        Some(a) => a,
        None => return false,
    };
    match subject.area {
        Some(sa) => {
            if sa.0 != area.0 {
                return false;
            }
        },
        None => return false,
    }
    (!subject.anchor && within_view) || (s.spectating && is_player)
}

/// Spectator anchors stay invisible to everyone but their own client: a client that is not the
/// anchor's sees it only if it spectates and the anchor counts as a player, which an anchor never
/// does.
pub proof fn lemma_anchors_stay_hidden(sight: Sight, subject: Subject, within_view: bool)
    requires
        subject.anchor,
        subject.entity != sight.focus,
    ensures
        !sees_spec(Some(sight), false, subject, within_view),
{
}

/// A client always sees its own focus, wherever it is.
pub proof fn lemma_focus_always_seen(sight: Sight, subject: Subject, is_player: bool, within_view: bool)
    requires
        subject.entity == sight.focus,
    ensures
        sees_spec(Some(sight), is_player, subject, within_view),
{
}

/// Nothing is seen across areas.
pub proof fn lemma_no_sight_across_areas(sight: Sight, subject: Subject, is_player: bool, within_view: bool)
    requires
        subject.entity != sight.focus,
        subject.area != sight.area,
    ensures
        !sees_spec(Some(sight), is_player, subject, within_view),
{
}

/// Beyond view distance only players are seen: a subject other than the client's focus that is
/// out of view and no player is never seen, spectating or not.
pub proof fn lemma_far_non_players_unseen(sight: Option<Sight>, subject: Subject)
    requires
        sight matches Some(s) ==> subject.entity != s.focus,
    ensures
        !sees_spec(sight, false, subject, false),
{
}

/// A client that is not spectating sees nothing but its focus beyond view distance.
pub proof fn lemma_players_see_only_near(sight: Sight, subject: Subject, is_player: bool)
    requires
        !sight.spectating,
        subject.entity != sight.focus,
    ensures
        !sees_spec(Some(sight), is_player, subject, false),
{
}

/// From a located focus in an area, a client sees every non-anchor of that area within view
/// distance, and, when spectating, every player of that area wherever it stands.
pub proof fn lemma_sees_own_area(sight: Sight, subject: Subject, is_player: bool, within_view: bool)
    requires
        sight.located,
        sight.area is Some,
        subject.area == sight.area,
    ensures
        !subject.anchor && within_view ==> sees_spec(Some(sight), is_player, subject, within_view),
        sight.spectating && is_player ==> sees_spec(Some(sight), is_player, subject, within_view),
{
}

/// Seeing anything but its focus takes a located focus in the subject's area.
pub proof fn lemma_sight_needs_place(sight: Sight, subject: Subject, is_player: bool, within_view: bool)
    requires
        subject.entity != sight.focus,
        sees_spec(Some(sight), is_player, subject, within_view),
    ensures
        sight.located,
        sight.area is Some,
        subject.area == sight.area,
{
}

} // verus!
