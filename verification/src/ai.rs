//! The decisions of a fight and of an npc's mind, one tick at a time: whom an npc considers
//! attacking, who has attacked whom, how an attacker closes in and commits to a swing, how a
//! swing lands and ends, and what an npc does when nothing holds its attention. Distances and
//! clocks are measured outside and come in as the answers to their questions.

use vstd::prelude::*;

use crate::content::Ai;
use crate::visibility::Entity;

verus! {

/// Whether `e` occurs in `s`.
pub open spec fn listed(s: Seq<Entity>, e: Entity) -> bool {
    exists|i: int| 0 <= i < s.len() && s[i] == e
}

fn contains_entity(s: &Vec<Entity>, e: Entity) -> (r: bool)
    ensures
        r == listed(s@, e),
{
    let mut i: usize = 0;
    while i < s.len()
        invariant
            i <= s@.len(),
            forall|k: int| 0 <= k < i ==> s@[k] != e,
        decreases s@.len() - i,
    {
        if s[i] == e {
            return true;
        }
        i = i + 1;
    }
    false
}

/// The candidates an npc of kind `ai` considers attacking: none for a pacifist; every player for
/// an aggressive one; the players that attacked it for a defensive one; whoever attacked its
/// group for a protective one.
pub open spec fn pool_of(ai: Ai, players: Seq<Entity>, attackers: Seq<Entity>, group_enemies: Seq<Entity>) -> Seq<
    Entity,
> {
    match ai {
        Ai::Pacifist => seq![],
        Ai::Aggressive => players,
        Ai::Defensive => players.filter(|p: Entity| listed(attackers, p)),
        Ai::Protective => group_enemies,
    }
}

/// The candidates an npc considers attacking, in order; the nearest of them within its aggro
/// range (measured outside) becomes its target.
pub fn aggro_pool(ai: Ai, players: &Vec<Entity>, attackers: &Vec<Entity>, group_enemies: &Vec<Entity>) -> (r: Vec<
    Entity,
>)
    ensures
        r@ == pool_of(ai, players@, attackers@, group_enemies@),
{
    match ai {
        Ai::Pacifist => Vec::new(),
        Ai::Aggressive => {
            let mut out: Vec<Entity> = Vec::new();
            let mut i: usize = 0;
            while i < players.len()
                invariant
                    i <= players@.len(),
                    out@ == players@.take(i as int),
                decreases players@.len() - i,
            {
                out.push(players[i]);
                i = i + 1;
                assert(out@ =~= players@.take(i as int));
            }
            assert(players@.take(players@.len() as int) =~= players@);
            out
        },
        Ai::Defensive => {
            let mut out: Vec<Entity> = Vec::new();
            let mut i: usize = 0;
            while i < players.len()
                invariant
                    i <= players@.len(),
                    out@ == players@.take(i as int).filter(|p: Entity| listed(attackers@, p)),
                decreases players@.len() - i,
            {
                proof {
                    reveal_with_fuel(Seq::filter, 1);
                    assert(players@.take(i + 1).drop_last() =~= players@.take(i as int));
                }
                if contains_entity(attackers, players[i]) {
                    out.push(players[i]);
                }
                i = i + 1;
                assert(out@ =~= players@.take(i as int).filter(|p: Entity| listed(attackers@, p)));
            }
            assert(players@.take(players@.len() as int) =~= players@);
            out
        },
        Ai::Protective => {
            let mut out: Vec<Entity> = Vec::new();
            let mut i: usize = 0;
            while i < group_enemies.len()
                invariant
                    i <= group_enemies@.len(),
                    out@ == group_enemies@.take(i as int),
                decreases group_enemies@.len() - i,
            {
                out.push(group_enemies[i]);
                i = i + 1;
                assert(out@ =~= group_enemies@.take(i as int));
            }
            assert(group_enemies@.take(group_enemies@.len() as int) =~= group_enemies@);
            out
        },
    }
}

/// `list` with `e` added at the end unless it is there already.
pub open spec fn with_entity(list: Seq<Entity>, e: Entity) -> Seq<Entity> {
    if listed(list, e) {
        list
    } else {
        list.push(e)
    }
}

/// Records that `by` attacked: its id joins the attackers once.
pub fn add_attacker(attackers: &mut Vec<Entity>, by: Entity)
    ensures
        final(attackers)@ == with_entity(old(attackers)@, by),
{
    if !contains_entity(attackers, by) {
        attackers.push(by);
    }
}

/// `list` with each of `more` added in order, each once.
pub open spec fn with_all(list: Seq<Entity>, more: Seq<Entity>) -> Seq<Entity>
    decreases more.len(),
{
    if more.len() == 0 {
        list
    } else {
        with_entity(with_all(list, more.drop_last()), more.last())
    }
}

/// Adds an npc's attackers to its group's list of enemies, each once, in order.
pub fn merge_enemies(enemies: &mut Vec<Entity>, attackers: &Vec<Entity>)
    ensures
        final(enemies)@ == with_all(old(enemies)@, attackers@),
{
    let ghost start = enemies@;
    let mut i: usize = 0;
    while i < attackers.len()
        invariant
            i <= attackers@.len(),
            enemies@ == with_all(start, attackers@.take(i as int)),
        decreases attackers@.len() - i,
    {
        assert(attackers@.take(i + 1).drop_last() =~= attackers@.take(i as int));
        assert(attackers@.take(i + 1).last() == attackers@[i as int]);
        add_attacker(enemies, attackers[i]);
        i = i + 1;
    }
    assert(attackers@.take(attackers@.len() as int) =~= attackers@);
}

/// A merged enemy list names nobody twice when the list it grew from did not.
pub proof fn lemma_enemies_distinct(list: Seq<Entity>, more: Seq<Entity>)
    requires
        forall|i: int, j: int| 0 <= i < j < list.len() ==> list[i] != list[j],
    ensures
        forall|i: int, j: int|
            0 <= i < j < with_all(list, more).len() ==> with_all(list, more)[i] != with_all(list, more)[j],
    decreases more.len(),
{
    if more.len() > 0 {
        lemma_enemies_distinct(list, more.drop_last());
        let prev = with_all(list, more.drop_last());
        let e = more.last();
        if !listed(prev, e) {
            assert forall|i: int, j: int| 0 <= i < j < prev.push(e).len() implies prev.push(e)[i] != prev.push(
                e,
            )[j] by {
                if j == prev.len() {
                    assert(prev.push(e)[i] == prev[i]);
                }
            }
        }
    }
}

/// What an attacker does this tick about its target.
#[derive(Clone, Copy, PartialEq, Eq, Structural, Debug)]
pub enum Engage {
    /// It lets go of its target (and its path).
    Forget,
    /// It carries on with the swing it is in.
    Busy,
    /// It walks towards the target, setting a fresh destination at the target when `retarget`.
    Approach { retarget: bool },
    /// It stops where it is and waits: to settle on a tile, or for its recovery to pass.
    Hold,
    /// It stops, faces the target and commits to a swing.
    Swing,
}

/// What an attacker does about its target, from what is known of the two this tick: whether
/// the attacker is dead or mid-swing, whether the target is gone (despawned, dead or in another
/// area), whether it is out of reach and whether the attacker is already heading close to it,
/// whether the attacker stands on a tile, and whether it is still recovering from its last
/// swing.
pub open spec fn engage_of(
    dead: bool,
    swinging: bool,
    target_gone: bool,
    out_of_reach: bool,
    heading: bool,
    on_tile: bool,
    recovering: bool,
) -> Engage {
    if dead {
        Engage::Forget
    } else if swinging {
        Engage::Busy
    } else if target_gone {
        Engage::Forget
    } else if out_of_reach {
        Engage::Approach { retarget: !heading }
    } else if !on_tile || recovering {
        Engage::Hold
    } else {
        Engage::Swing
    }
}

/// One attacker's combat decision for this tick.
pub fn engage_step(
    dead: bool,
    swinging: bool,
    target_gone: bool,
    out_of_reach: bool,
    heading: bool,
    on_tile: bool,
    recovering: bool,
) -> (r: Engage)
    ensures
        r == engage_of(dead, swinging, target_gone, out_of_reach, heading, on_tile, recovering),
{
    if dead {
        return Engage::Forget;
    }
    if swinging {
        return Engage::Busy;
    }
    if target_gone {
        return Engage::Forget;
    }
    if out_of_reach {
        return Engage::Approach { retarget: !heading };
    }
    if !on_tile || recovering {
        return Engage::Hold;
    }
    Engage::Swing
}

/// An attacker lets go of its target exactly when it is dead, or when, not mid-swing, its
/// target is gone (despawned, dead or in another area), however far the target was.
pub proof fn lemma_engage_forgets(
    dead: bool,
    swinging: bool,
    target_gone: bool,
    out_of_reach: bool,
    heading: bool,
    on_tile: bool,
    recovering: bool,
)
    ensures
        (engage_of(dead, swinging, target_gone, out_of_reach, heading, on_tile, recovering) == Engage::Forget)
            <==> (dead || (!swinging && target_gone)),
{
}

/// A live attacker mid-swing carries on with it, and only then.
pub proof fn lemma_engage_busy(
    dead: bool,
    swinging: bool,
    target_gone: bool,
    out_of_reach: bool,
    heading: bool,
    on_tile: bool,
    recovering: bool,
)
    ensures
        (engage_of(dead, swinging, target_gone, out_of_reach, heading, on_tile, recovering) == Engage::Busy)
            <==> (!dead && swinging),
{
}

/// An attacker walks towards its target only when that target is still there and out of
/// reach, and sets a fresh destination exactly when it is not already heading close to it.
pub proof fn lemma_engage_approaches(
    dead: bool,
    swinging: bool,
    target_gone: bool,
    out_of_reach: bool,
    heading: bool,
    on_tile: bool,
    recovering: bool,
)
    ensures
        (engage_of(dead, swinging, target_gone, out_of_reach, heading, on_tile, recovering) is Approach)
            <==> (!dead && !swinging && !target_gone && out_of_reach),
        engage_of(dead, swinging, target_gone, out_of_reach, heading, on_tile, recovering) matches Engage::Approach {
            retarget,
        } ==> retarget == !heading,
{
}

/// A swing is committed only at a present target within reach, standing on a tile and
/// recovered; in reach but off a tile or still recovering, the attacker holds.
pub proof fn lemma_engage_swings(
    dead: bool,
    swinging: bool,
    target_gone: bool,
    out_of_reach: bool,
    heading: bool,
    on_tile: bool,
    recovering: bool,
)
    ensures
        (engage_of(dead, swinging, target_gone, out_of_reach, heading, on_tile, recovering) == Engage::Swing)
            <==> (!dead && !swinging && !target_gone && !out_of_reach && on_tile && !recovering),
        (engage_of(dead, swinging, target_gone, out_of_reach, heading, on_tile, recovering) == Engage::Hold)
            <==> (!dead && !swinging && !target_gone && !out_of_reach && (!on_tile || recovering)),
{
}

/// What becomes of a committed swing this tick.
#[derive(Clone, Copy, PartialEq, Eq, Structural, Debug)]
pub struct SwingStep {
    /// The hit lands now.
    pub strike: bool,
    /// The swing is over and recovery starts: from now when it was cut short, from its planned
    /// end otherwise.
    pub over: bool,
    /// The swing was cut short by death or movement.
    pub cut: bool,
}

/// A swing's progress: death or movement cuts it short with no hit; otherwise the hit lands once
/// its moment has come (and only once), and the swing ends at its end.
pub open spec fn swing_of(cancelled: bool, struck: bool, hit_due: bool, ended: bool) -> SwingStep {
    if cancelled {
        SwingStep { strike: false, over: true, cut: true }
    } else {
        SwingStep { strike: !struck && hit_due, over: ended, cut: false }
    }
}

/// A committed swing's step this tick.
pub fn swing_step(cancelled: bool, struck: bool, hit_due: bool, ended: bool) -> (r: SwingStep)
    ensures
        r == swing_of(cancelled, struck, hit_due, ended),
{
    if cancelled {
        SwingStep { strike: false, over: true, cut: true }
    } else {
        SwingStep { strike: !struck && hit_due, over: ended, cut: false }
    }
}

/// Death or movement cuts a swing short: it ends now, with no hit. Otherwise it is never cut,
/// strikes exactly when its hit is due and has not landed yet, and ends exactly at its end.
pub proof fn lemma_swing_progress(cancelled: bool, struck: bool, hit_due: bool, ended: bool)
    ensures
        cancelled ==> !swing_of(cancelled, struck, hit_due, ended).strike && swing_of(cancelled, struck, hit_due, ended).over
            && swing_of(cancelled, struck, hit_due, ended).cut,
        !cancelled ==> !swing_of(cancelled, struck, hit_due, ended).cut && (swing_of(cancelled, struck, hit_due, ended).strike
            <==> (!struck && hit_due)) && (swing_of(cancelled, struck, hit_due, ended).over <==> ended),
{
}

/// A swing strikes at most once: after a step that struck, no later step strikes again.
pub proof fn lemma_one_hit_per_swing(hit_due: bool, ended: bool, later_due: bool, later_ended: bool)
    requires
        swing_of(false, false, hit_due, ended).strike,
    ensures
        !swing_of(false, true, later_due, later_ended).strike,
{
}

/// What an npc does this tick.
#[derive(Clone, Copy, PartialEq, Eq, Structural, Debug)]
pub enum Mind {
    /// It is dead: it lets go of everything.
    Forget,
    /// Its target is still within aggro range: it keeps chasing.
    Keep,
    /// It takes a new target and chases it at chase speed.
    Chase(Entity),
    /// It sets off to a random walkable tile.
    Wander,
    /// It carries on as it is.
    Idle,
}

/// An npc's decision: a dead one forgets; one whose target is still in aggro range keeps it;
/// otherwise (dropping a target that strayed) it chases the nearest candidate in range if there
/// is one, else wanders when it is not already walking and may wander (a pacifist's chance
/// roll) and a tile is there to wander to, else idles. `target` is whether the current target
/// (if any) is still in aggro range; `nearest` the nearest candidate in range.
pub open spec fn mind_of(
    dead: bool,
    target: Option<bool>,
    nearest: Option<Entity>,
    walking: bool,
    may_wander: bool,
    has_tile: bool,
) -> (bool, Mind) {
    if dead {
        (false, Mind::Forget)
    } else if target == Some(true) {
        (false, Mind::Keep)
    } else {
        let dropped = target == Some(false);
        match nearest {
            Some(e) => (dropped, Mind::Chase(e)),
            None => if !walking && may_wander && has_tile {
                (dropped, Mind::Wander)
            } else {
                (dropped, Mind::Idle)
            },
        }
    }
}

/// An npc's decision this tick, and whether it first drops a target that strayed out of range.
pub fn mind_step(
    dead: bool,
    target: Option<bool>,
    nearest: Option<Entity>,
    walking: bool,
    may_wander: bool,
    has_tile: bool,
) -> (r: (bool, Mind))
    ensures
        r == mind_of(dead, target, nearest, walking, may_wander, has_tile),
{
    if dead {
        return (false, Mind::Forget);
    }
    let dropped = match target {
        Some(true) => return (false, Mind::Keep),
        Some(false) => true,
        None => false,
    };
    match nearest {
        Some(e) => (dropped, Mind::Chase(e)),
        None => {
            if !walking && may_wander && has_tile {
                (dropped, Mind::Wander)
            } else {
                (dropped, Mind::Idle)
            }
        },
    }
}

/// A live npc drops its current target exactly when that target strayed out of aggro range,
/// whatever it goes on to do.
pub proof fn lemma_mind_drops_strayed(
    dead: bool,
    target: Option<bool>,
    nearest: Option<Entity>,
    walking: bool,
    may_wander: bool,
    has_tile: bool,
)
    ensures
        mind_of(dead, target, nearest, walking, may_wander, has_tile).0 <==> (!dead && target == Some(false)),
{
}

/// A dead npc forgets; a live one keeps a target still in range, and only then.
pub proof fn lemma_mind_keeps(
    dead: bool,
    target: Option<bool>,
    nearest: Option<Entity>,
    walking: bool,
    may_wander: bool,
    has_tile: bool,
)
    ensures
        (mind_of(dead, target, nearest, walking, may_wander, has_tile).1 == Mind::Forget) <==> dead,
        (mind_of(dead, target, nearest, walking, may_wander, has_tile).1 == Mind::Keep) <==> (!dead && target
            == Some(true)),
{
}

/// Without a target in range, a live npc chases the nearest candidate when there is one; with
/// none it wanders exactly when it is not walking, may wander and has a tile to go to, and
/// otherwise idles.
pub proof fn lemma_mind_chases_or_wanders(
    dead: bool,
    target: Option<bool>,
    nearest: Option<Entity>,
    walking: bool,
    may_wander: bool,
    has_tile: bool,
    e: Entity,
)
    requires
        !dead,
        target != Some(true),
    ensures
        nearest == Some(e) ==> mind_of(dead, target, nearest, walking, may_wander, has_tile).1 == Mind::Chase(e),
        nearest is None ==> ((mind_of(dead, target, nearest, walking, may_wander, has_tile).1 == Mind::Wander) <==> (
        !walking && may_wander && has_tile)),
        nearest is None ==> ((mind_of(dead, target, nearest, walking, may_wander, has_tile).1 == Mind::Idle) <==> !(
        !walking && may_wander && has_tile)),
{
}

} // verus!
