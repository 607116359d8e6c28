use world::identity::{join_admitted, player_name, spectate_allowed, Identity};
use world::protocol::{action_name, parse_rgba, Rgba, ACTION_ATTACK, ACTION_DEAD, ACTION_IDLE, ACTION_RUN, ACTION_WALK};
use world::tiles::AreaId;
use world::visibility::{sees, sight, Entity, Subject};

#[test]
fn wire_actions_name_model_actions() {
    assert_eq!(action_name(ACTION_IDLE), "idle");
    assert_eq!(action_name(ACTION_WALK), "walk");
    assert_eq!(action_name(ACTION_RUN), "run");
    assert_eq!(action_name(ACTION_ATTACK), "attack");
    assert_eq!(action_name(ACTION_DEAD), "death");
    assert_eq!(action_name(200), "idle");
}

#[test]
fn colors_read_as_eight_hex_digits() {
    assert_eq!(parse_rgba("#ff8000ff"), Some(Rgba(0xff8000ff)));
    assert_eq!(parse_rgba("#FF8000FF"), Some(Rgba(0xff8000ff)));
    assert_eq!(parse_rgba("#ff8000"), None);
    assert_eq!(parse_rgba("ff8000ff0"), None);
    assert_eq!(parse_rgba("#gg8000ff"), None);
}

fn identity(roles: &[&str]) -> Identity {
    Identity { id: "1".to_string(), name: "ann".to_string(), roles: roles.iter().map(|r| r.to_string()).collect() }
}

#[test]
fn spectating_needs_the_role_when_connections_are_authenticated() {
    assert!(identity(&["spectate"]).has_role("spectate"));
    assert!(!identity(&["admin"]).has_role("spectate"));
    assert!(spectate_allowed(false, Some(&identity(&["spectate"]))));
    assert!(!spectate_allowed(false, Some(&identity(&[]))));
    assert!(spectate_allowed(false, None));
    assert!(!spectate_allowed(true, None));
    assert!(join_admitted(false, false));
    assert!(!join_admitted(false, true));
    assert!(!join_admitted(true, false));
}

#[test]
fn players_never_see_spectators_and_nobody_sees_across_areas() {
    let here = Some(AreaId(1));
    let player = sight(Some(Entity(1)), None, true, here).unwrap();
    let spectator = sight(None, Some(Entity(2)), true, here).unwrap();
    let other_player = Subject { entity: Entity(3), area: here, anchor: false };
    let anchor = Subject { entity: Entity(4), area: here, anchor: true };
    let far_away = Subject { entity: Entity(5), area: Some(AreaId(2)), anchor: false };
    assert!(sees(Some(&player), true, &other_player, true));
    assert!(!sees(Some(&player), true, &other_player, false));
    assert!(!sees(Some(&player), true, &anchor, true));
    assert!(!sees(Some(&player), true, &far_away, true));
    assert!(sees(Some(&spectator), true, &other_player, false));
    assert!(!sees(None, true, &other_player, true));
    assert!(sight(None, None, true, here).is_none());
}

#[test]
fn a_joining_player_is_named_by_its_identity() {
    assert_eq!(player_name(Some(&identity(&[])), 7), "ann");
    assert_eq!(player_name(None, 42), "player 42");
    assert_eq!(player_name(None, u32::MAX), format!("player {}", u32::MAX));
}
