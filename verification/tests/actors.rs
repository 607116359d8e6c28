use world::actors::{
    crossed, dir_slot, floor_div, model_index, models, Action, ActorModel, ActorModelId, ModelError, PixelRect, Sfx,
    SfxId, Strip,
};

fn strip(frames: u32, steps: Vec<u32>, cues: Vec<(&str, u32)>) -> Strip {
    Strip {
        frames,
        apex: if frames > 1 { Some(frames - 1) } else { None },
        steps,
        sfx: cues.into_iter().map(|(id, frame)| Sfx { id: SfxId(id.to_string()), frame }).collect(),
    }
}

fn action(name: &str, row: u32, frames: u32) -> Action {
    Action { name: name.to_string(), row, dirs: (0..8).map(|_| strip(frames, vec![], vec![])).collect() }
}

fn adventurer() -> ActorModel {
    let mut walk = action("walk", 16, 4);
    walk.dirs[2] = strip(4, vec![1, 3], vec![("step", 1)]);
    let mut death = action("death", 8, 3);
    death.dirs[0] = strip(3, vec![], vec![("thud", 2)]);
    ActorModel::load(
        "adventurer".to_string(),
        vec![9, 9],
        32,
        48,
        vec![action("idle", 0, 2), death, walk, action("attack", 24, 5)],
    )
    .unwrap()
}

#[test]
fn a_model_without_idle_or_with_short_strips_is_refused() {
    let refused = ActorModel::load("x".to_string(), vec![], 1, 1, vec![action("walk", 0, 2)]);
    assert_eq!(refused.err(), Some(ModelError::NoIdle));
    let mut seven = action("idle", 0, 2);
    seven.dirs.pop();
    assert_eq!(ActorModel::load("x".to_string(), vec![], 1, 1, vec![seven]).err(), Some(ModelError::WrongDirections));
    assert_eq!(
        ActorModel::load("x".to_string(), vec![], 1, 1, vec![action("idle", 0, 0)]).err(),
        Some(ModelError::EmptyStrip)
    );
    assert_eq!(
        ActorModel::load("x".to_string(), vec![], 1, 1, vec![action("idle", 0, 1), action("idle", 8, 1)]).err(),
        Some(ModelError::DuplicateAction)
    );
}

#[test]
fn walking_cycles_over_frames() {
    let m = adventurer();
    assert_eq!(m.name(), "adventurer");
    assert_eq!(m.sheet(), &[9u8, 9][..]);
    assert_eq!(m.frame("walk", 2, 0), PixelRect { x: 0, y: 18 * 48, w: 32, h: 48 });
    assert_eq!(m.frame("walk", 2, 5), PixelRect { x: 32, y: 18 * 48, w: 32, h: 48 });
    assert_ne!(m.frame("walk", 0, 0), m.frame("walk", 0, 1));
}

#[test]
fn death_plays_once_then_holds() {
    let m = adventurer();
    assert_eq!(m.frame("death", 0, 1), PixelRect { x: 32, y: 8 * 48, w: 32, h: 48 });
    assert_eq!(m.frame("death", 0, 2), m.frame("death", 0, 50));
    assert_eq!(m.frame("death", 0, 90), PixelRect { x: 64, y: 8 * 48, w: 32, h: 48 });
}

#[test]
fn unknown_actions_and_directions_fall_back() {
    let m = adventurer();
    assert_eq!(m.frame("fly", 3, 1), PixelRect { x: 32, y: 3 * 48, w: 32, h: 48 });
    assert_eq!(m.frame("walk", 200, 0), PixelRect { x: 0, y: 16 * 48, w: 32, h: 48 });
    assert_eq!(dir_slot(9), 0);
    assert_eq!(dir_slot(7), 7);
}

#[test]
fn timing_runs_at_a_hundred_milliseconds_a_frame() {
    let m = adventurer();
    assert_eq!(m.timing("attack", 0), (500, 400));
    assert_eq!(m.timing("idle", 4), (200, 100));
}

#[test]
fn cues_fire_as_their_frame_is_entered() {
    let m = adventurer();
    let ids = |v: Vec<&SfxId>| v.into_iter().map(|s| s.0.clone()).collect::<Vec<_>>();
    assert_eq!(ids(m.sfx("walk", 2, -1, 0)), Vec::<String>::new());
    assert_eq!(ids(m.sfx("walk", 2, 0, 1)), vec!["step".to_string()]);
    assert_eq!(ids(m.sfx("walk", 2, 1, 4)), Vec::<String>::new());
    assert_eq!(ids(m.sfx("walk", 2, 2, 100)), vec!["step".to_string()]);
    assert_eq!(ids(m.sfx("death", 0, 0, 2)), vec!["thud".to_string()]);
    assert_eq!(ids(m.sfx("death", 0, 2, 40)), Vec::<String>::new());
    assert_eq!(ids(m.sfx("fly", 0, -1, 9)), Vec::<String>::new());
    assert!(m.steps_crossed("walk", 2, 0, 1));
    assert!(!m.steps_crossed("walk", 2, 1, 2));
    assert!(m.steps_crossed("walk", 2, 2, 3));
    assert!(!m.steps_crossed("fly", 2, 0, 9));
}

#[test]
fn every_cue_of_a_model_is_listed() {
    let m = adventurer();
    let ids: Vec<String> = m.sfx_ids().into_iter().map(|s| s.0.clone()).collect();
    assert_eq!(ids, vec!["thud".to_string(), "step".to_string()]);
}

#[test]
fn floor_division_rounds_down() {
    assert_eq!(floor_div(7, 2), 3);
    assert_eq!(floor_div(-7, 2), -4);
    assert_eq!(floor_div(-6, 3), -2);
    assert_eq!(floor_div(7, -2), -4);
}

#[test]
fn crossing_counts_cycles_of_a_looping_action() {
    assert!(crossed(false, 4, 1, 0, 1));
    assert!(!crossed(false, 4, 1, 1, 4));
    assert!(crossed(false, 4, 1, 1, 5));
    assert!(crossed(false, 4, 0, -1, 0));
    assert!(!crossed(false, 4, 0, 3, 3));
    assert!(crossed(true, 3, 0, -1, 0));
    assert!(!crossed(true, 3, 2, 5, 9));
}

#[test]
fn the_registry_is_sorted_by_name() {
    let named = |n: &str| ActorModel::load(n.to_string(), vec![], 1, 1, vec![action("idle", 0, 1)]).unwrap();
    let all = models(vec![named("slime"), named("adventurer"), named("bat")]);
    let names: Vec<&str> = all.iter().map(|m| m.name()).collect();
    assert_eq!(names, vec!["adventurer", "bat", "slime"]);
    assert_eq!(model_index(&all, "bat"), Some(ActorModelId(1)));
    assert_eq!(model_index(&all, "dragon"), None);
}

#[test]
fn walking_cycles_over_time() {
    // A quarter second in at the native pace is two whole 100 ms frames in.
    let m = adventurer();
    assert_ne!(m.frame("walk", 0, 0), m.frame("walk", 0, 250 / 100));
}

#[test]
fn a_missing_idle_action_is_named_before_an_empty_strip() {
    assert_eq!(
        ActorModel::load("x".to_string(), vec![], 1, 1, vec![action("walk", 0, 0)]).err(),
        Some(ModelError::NoIdle)
    );
}

#[test]
fn a_death_cue_fires_once_over_successive_steps() {
    // The death strip facing north has three frames and a cue on its last.
    let m = adventurer();
    let steps = [-1i64, 0, 1, 2, 5, 9];
    let fired: usize = steps.windows(2).map(|w| m.sfx("death", 0, w[0], w[1]).len()).sum();
    assert_eq!(fired, 1);
    assert!(m.sfx("death", 0, 2, 50).is_empty());
}
