use world::movement::{crossing, halted, Crossing};

#[test]
fn a_stop_mid_step_keeps_only_the_tile_being_entered() {
    assert_eq!(halted(Some(vec![(1, 2), (2, 2), (3, 2)]), false), Some(vec![(1, 2)]));
    assert_eq!(halted(Some(vec![(1, 2), (2, 2)]), true), None);
    assert_eq!(halted(Some(vec![]), false), Some(vec![]));
    assert_eq!(halted(None, false), None);
}

#[test]
fn portals_are_taken_only_on_request() {
    // Standing inside a portal without having asked for it does nothing.
    assert_eq!(crossing(None, 2, true), Crossing::Stay);
    assert_eq!(crossing(Some(1), 2, false), Crossing::Stay);
    assert_eq!(crossing(Some(1), 2, true), Crossing::Cross(1));
    assert_eq!(crossing(Some(2), 2, true), Crossing::Abandon);
}
