use world::client::{
    exit_requested, inventory_scroll, inventory_slot, next_watch, scroll_limit, parse_config, roster, spectate_status, Owned, proximity_node, session_args, spectate_mode, watched_name,
    DebugMode, DEFAULT_ADDRESS,
};
use world::nav::Grid;

fn args(v: &[&str]) -> Vec<String> {
    v.iter().map(|s| s.to_string()).collect()
}

#[test]
fn the_spectate_flag_anywhere_asks_for_spectating() {
    assert!(spectate_mode(&args(&["client", "host:1", "--spectate"])));
    assert!(!spectate_mode(&args(&["client", "host:1", "--spectator"])));
}

#[test]
fn the_session_reads_address_and_token_around_the_flag() {
    assert_eq!(
        session_args(&args(&["client", "--spectate", "host:1", "tok"])),
        ("host:1".to_string(), "tok".to_string())
    );
    assert_eq!(session_args(&args(&["client"])), (DEFAULT_ADDRESS.to_string(), String::new()));
    assert_eq!(session_args(&args(&["client", "host:2"])), ("host:2".to_string(), String::new()));
}

#[test]
fn the_game_page_config_is_two_lines() {
    assert_eq!(parse_config("wss://game/ws\n1"), ("wss://game/ws".to_string(), true));
    assert_eq!(parse_config("wss://game/ws\r\n0\n"), ("wss://game/ws".to_string(), false));
    assert_eq!(parse_config("wss://game/ws"), ("wss://game/ws".to_string(), false));
    assert_eq!(parse_config(""), (String::new(), false));
    // A carriage return counts only before a line feed, as `str::lines` reads it.
    assert_eq!(parse_config("wss://game/ws\n1\r"), ("wss://game/ws".to_string(), false));
    assert_eq!(parse_config("wss://game/ws\n1\r\n"), ("wss://game/ws".to_string(), true));
    assert_eq!(parse_config("wss://game/ws\r"), ("wss://game/ws\r".to_string(), false));
}

#[test]
fn spectating_cycles_through_the_roster() {
    let roster = vec![(4, "ann".to_string()), (9, "bo".to_string()), (2, String::new())];
    assert_eq!(next_watch(&roster, None), Some(4));
    assert_eq!(next_watch(&roster, Some(4)), Some(9));
    assert_eq!(next_watch(&roster, Some(2)), Some(4));
    assert_eq!(next_watch(&roster, Some(77)), Some(4));
    assert_eq!(next_watch(&vec![], Some(4)), None);
}

#[test]
fn the_watched_player_is_named_or_numbered() {
    let roster = vec![(4, "ann".to_string()), (2, String::new())];
    assert_eq!(watched_name(&roster, 4), "ann");
    assert_eq!(watched_name(&roster, 2), "player 2");
    assert_eq!(watched_name(&roster, 130), "player 130");
}

#[test]
fn the_debug_key_cycles_through_every_overlay() {
    let mut m = DebugMode::Off;
    let mut labels = Vec::new();
    for _ in 0..5 {
        m = m.next();
        labels.push(m.label());
    }
    assert!(matches!(m, DebugMode::Off));
    assert_eq!(labels.len(), 5);
    assert!(matches!(DebugMode::Off.next(), DebugMode::All));
    assert!(matches!(DebugMode::Obscured.next(), DebugMode::Off));
}

#[test]
fn the_proximity_node_prefers_the_cell_then_orthogonal_neighbours() {
    let g = Grid::new(3, 3, vec![false, true, false, false, false, false, false, false, true]);
    assert_eq!(proximity_node(&g, 1, 0), Some((1, 0)));
    assert_eq!(proximity_node(&g, 1, 1), Some((1, 0)));
    assert_eq!(proximity_node(&g, 2, 1), Some((2, 2)));
    assert_eq!(proximity_node(&g, 0, 2), None);
}

#[test]
fn only_the_desktop_client_quits_on_escape() {
    assert!(exit_requested(true, false));
    assert!(!exit_requested(false, false));
    assert!(!exit_requested(true, true));
}

#[test]
fn the_spectator_status_names_the_watched_player() {
    let roster = vec![(4, "ann".to_string()), (2, String::new())];
    assert_eq!(spectate_status(&roster, Some(4)), "spectating ann — N: next");
    assert_eq!(spectate_status(&roster, Some(2)), "spectating player 2 — N: next");
    assert_eq!(spectate_status(&roster, None), "spectating — press N to watch a player");
}

#[test]
fn the_roster_lists_other_players_by_client_id() {
    let owned = |client: u32, name: Option<&str>, actor: bool| Owned { client, name: name.map(str::to_string), actor };
    let owners = vec![
        owned(5, Some("eve"), true),
        owned(2, None, true),
        owned(9, Some("me"), true),
        owned(3, Some("anchor"), false),
        owned(1, Some("al"), true),
    ];
    assert_eq!(
        roster(&owners, Some(9)),
        vec![(1, "al".to_string()), (2, String::new()), (5, "eve".to_string())]
    );
    assert_eq!(roster(&owners, None).len(), 4);
    assert_eq!(roster(&vec![], Some(1)), vec![]);
}

#[test]
fn the_inventory_grid_scrolls_within_its_rows() {
    // 9 items in a grid 4 wide and 2 tall fill 3 rows: one row of scroll.
    assert_eq!(scroll_limit(9, 4, 2), 1);
    assert_eq!(scroll_limit(8, 4, 2), 0);
    assert_eq!(scroll_limit(0, 4, 2), 0);
    assert_eq!(inventory_scroll(0, 1, -1), 1);
    assert_eq!(inventory_scroll(1, 1, -1), 1);
    assert_eq!(inventory_scroll(1, 1, 1), 0);
    assert_eq!(inventory_scroll(0, 1, 1), 0);
    // A scroll beyond a shrunken limit is pulled back.
    assert_eq!(inventory_scroll(5, 1, 0), 1);
    assert_eq!(inventory_slot(1, 0, 3, 4, 9), Some(7));
    assert_eq!(inventory_slot(1, 1, 1, 4, 9), None);
}
