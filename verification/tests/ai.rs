use world::ai::{
    add_attacker, aggro_pool, engage_step, merge_enemies, mind_step, swing_step, Engage, Mind,
    SwingStep,
};
use world::content::Ai;
use world::visibility::Entity;

fn ids(v: &[u64]) -> Vec<Entity> {
    v.iter().map(|&e| Entity(e)).collect()
}

#[test]
fn each_kind_of_npc_considers_its_own_candidates() {
    let players = ids(&[1, 2, 3]);
    let attackers = ids(&[3, 9, 1]);
    let group = ids(&[7]);
    assert_eq!(aggro_pool(Ai::Pacifist, &players, &attackers, &group), ids(&[]));
    assert_eq!(aggro_pool(Ai::Aggressive, &players, &attackers, &group), ids(&[1, 2, 3]));
    assert_eq!(aggro_pool(Ai::Defensive, &players, &attackers, &group), ids(&[1, 3]));
    assert_eq!(aggro_pool(Ai::Protective, &players, &attackers, &group), ids(&[7]));
}

#[test]
fn attackers_are_recorded_once() {
    let mut attackers = ids(&[4]);
    add_attacker(&mut attackers, Entity(5));
    add_attacker(&mut attackers, Entity(4));
    assert_eq!(attackers, ids(&[4, 5]));
    let mut enemies = ids(&[5]);
    merge_enemies(&mut enemies, &ids(&[6, 5, 6, 8]));
    assert_eq!(enemies, ids(&[5, 6, 8]));
}

#[test]
fn an_attacker_closes_in_then_swings() {
    assert_eq!(engage_step(true, false, false, false, false, true, false), Engage::Forget);
    assert_eq!(engage_step(false, true, true, true, false, false, true), Engage::Busy);
    assert_eq!(engage_step(false, false, true, false, false, true, false), Engage::Forget);
    assert_eq!(engage_step(false, false, false, true, true, true, false), Engage::Approach { retarget: false });
    assert_eq!(engage_step(false, false, false, true, false, true, false), Engage::Approach { retarget: true });
    assert_eq!(engage_step(false, false, false, false, false, false, false), Engage::Hold);
    assert_eq!(engage_step(false, false, false, false, false, true, true), Engage::Hold);
    assert_eq!(engage_step(false, false, false, false, false, true, false), Engage::Swing);
}

#[test]
fn a_swing_strikes_once_then_ends() {
    let step = |c, s, h, e| swing_step(c, s, h, e);
    assert_eq!(step(false, false, false, false), SwingStep { strike: false, over: false, cut: false });
    assert_eq!(step(false, false, true, false), SwingStep { strike: true, over: false, cut: false });
    assert_eq!(step(false, true, true, false), SwingStep { strike: false, over: false, cut: false });
    assert_eq!(step(false, true, true, true), SwingStep { strike: false, over: true, cut: false });
    assert_eq!(step(true, false, true, true), SwingStep { strike: false, over: true, cut: true });
}

#[test]
fn an_npc_chases_keeps_or_wanders() {
    assert_eq!(mind_step(true, Some(true), Some(Entity(1)), false, true, true), (false, Mind::Forget));
    assert_eq!(mind_step(false, Some(true), Some(Entity(1)), false, true, true), (false, Mind::Keep));
    assert_eq!(mind_step(false, Some(false), Some(Entity(2)), false, true, true), (true, Mind::Chase(Entity(2))));
    assert_eq!(mind_step(false, None, None, false, true, true), (false, Mind::Wander));
    assert_eq!(mind_step(false, Some(false), None, true, true, true), (true, Mind::Idle));
    assert_eq!(mind_step(false, None, None, false, false, true), (false, Mind::Idle));
    assert_eq!(mind_step(false, None, None, false, true, false), (false, Mind::Idle));
}
