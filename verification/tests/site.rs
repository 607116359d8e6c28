use world::client::parse_config;
use world::site::{can_spectate, config_body, play_page, spectate_page, Page};

fn roles(v: &[&str]) -> Vec<String> {
    v.iter().map(|s| s.to_string()).collect()
}

#[test]
fn only_the_spectate_role_offers_spectating() {
    assert!(!can_spectate(None));
    assert!(!can_spectate(Some(&roles(&[]))));
    assert!(!can_spectate(Some(&roles(&["admin", "Spectate"]))));
    assert!(can_spectate(Some(&roles(&["admin", "spectate"]))));
}

#[test]
fn the_play_page_asks_to_sign_in_first() {
    assert_eq!(play_page(true), Page::Game);
    assert_eq!(play_page(false), Page::SignInRequired);
}

#[test]
fn the_spectate_page_refuses_players_without_the_role() {
    assert_eq!(spectate_page(None), Page::SignInRequired);
    assert_eq!(spectate_page(Some(&roles(&["player"]))), Page::Denied);
    assert_eq!(spectate_page(Some(&roles(&["player", "spectate"]))), Page::Game);
}

#[test]
fn the_config_body_is_read_back_by_the_client() {
    let body = config_body("wss://example.test/ws", true);
    assert_eq!(body, "wss://example.test/ws\n1");
    assert_eq!(parse_config(&body), ("wss://example.test/ws".to_string(), true));
    let body = config_body("ws://localhost:8080/ws", false);
    assert_eq!(body, "ws://localhost:8080/ws\n0");
    assert_eq!(parse_config(&body), ("ws://localhost:8080/ws".to_string(), false));
}
