use world::actors::SfxId;
use world::content::{
    area_layout, area_share, consume_slot, position_of, reward_row, first_consumable, grant, away, check_areas, clone_source, configure_areas, exit_portal, first_unknown, index,
    loot_npc, parse_goto, portal_dest, random_walkable, rewards_for, spawn_zone, spawns, validate,
    AreaDef, SfxDef, GotoError, ItemClass, MapRef, NpcId, Portal, Reward, RewardKind, SpawnRow, TableError,
};
use world::assets::AssetFile;
use world::protocol::ItemId;
use world::tiles::AreaId;

fn area(id: &str, spawn: Option<bool>) -> AreaDef {
    AreaDef { id: id.to_string(), map: MapRef(format!("{id}_map")), spawn }
}

/// The embedded asset table the content below refers to.
static FILES: [AssetFile; 7] = [
    ("maps/town_map.tmx", b"<map/>"),
    ("maps/meadow_map.tmx", b"<map/>"),
    ("maps/cave_map.tmx", b"<map/>"),
    ("sfx/step.ogg", b"OggS"),
    ("sfx/swing.ogg", b"OggS"),
    ("sfx/drink.ogg", b"OggS"),
    ("icons/potion.png", &[137, 80]),
];

fn sounds(v: &[&str]) -> Vec<SfxDef> {
    v.iter().map(|s| SfxDef { id: SfxId(s.to_string()), src: format!("sfx/{s}.ogg") }).collect()
}

fn strings(v: &[&str]) -> Vec<String> {
    v.iter().map(|s| s.to_string()).collect()
}

fn cues(v: &[&str]) -> Vec<SfxId> {
    v.iter().map(|s| SfxId(s.to_string())).collect()
}

#[test]
fn one_area_is_the_spawn_zone() {
    let defs = vec![area("town", None), area("meadow", Some(true)), area("cave", Some(false))];
    assert_eq!(check_areas(&FILES, &defs), Ok(()));
    assert_eq!(spawn_zone(&defs), AreaId(1));
}

#[test]
fn the_area_table_refuses_zero_or_two_spawn_areas() {
    let none = vec![area("town", None), area("cave", Some(false))];
    assert_eq!(check_areas(&FILES, &none), Err(TableError::SpawnCount(0)));
    let two = vec![area("town", Some(true)), area("cave", Some(true))];
    assert_eq!(check_areas(&FILES, &two), Err(TableError::SpawnCount(2)));
}

#[test]
fn the_area_table_refuses_a_repeated_id_first() {
    let defs = vec![area("town", Some(true)), area("cave", None), area("town", None), area("cave", Some(true))];
    assert_eq!(check_areas(&FILES, &defs), Err(TableError::DuplicateId("town".to_string())));
}

#[test]
fn areas_are_found_by_id() {
    let defs = vec![area("town", None), area("meadow", Some(true))];
    assert_eq!(index(&defs, "meadow"), Some(AreaId(1)));
    assert_eq!(index(&defs, "nowhere"), None);
}

#[test]
fn extra_areas_clone_the_table_round_robin() {
    assert_eq!(configure_areas(0, 3), 3);
    assert_eq!(configure_areas(10, 3), 10);
    assert_eq!(clone_source(7, 3), 1);
    assert_eq!(clone_source(2, 3), 2);
}

#[test]
fn the_world_lays_out_table_areas_then_portal_less_clones() {
    assert_eq!(area_layout(0, 3), vec![(0, true), (1, true), (2, true)]);
    assert_eq!(
        area_layout(7, 3),
        vec![(0, true), (1, true), (2, true), (0, false), (1, false), (2, false), (0, false)]
    );
    assert_eq!(area_layout(0, 0), vec![]);
}

#[test]
fn spawn_rows_of_a_zone_keep_their_row_numbers() {
    let row = |npc: u16, area: u32, population: u32| SpawnRow { npc: NpcId(npc), area: AreaId(area), population };
    let rows = vec![row(0, 1, 3), row(1, 0, 2), row(2, 1, 5)];
    assert_eq!(spawns(&rows, AreaId(1)), vec![(0, rows[0]), (2, rows[2])]);
    assert_eq!(spawns(&rows, AreaId(7)), vec![]);
}

#[test]
fn random_walkable_picks_by_the_draw() {
    let nodes = vec![(1, 1), (2, 1), (3, 4)];
    assert_eq!(random_walkable(7, &nodes), Some((2, 1)));
    assert_eq!(random_walkable(3, &nodes), Some((1, 1)));
    assert_eq!(random_walkable(7, &vec![]), None);
}

fn item_reward(npc: u16, item: u16, guaranteed: bool) -> Reward {
    Reward { npc: NpcId(npc), amount: 1, kind: RewardKind::Item { item: ItemId(item), guaranteed } }
}

#[test]
fn rewards_are_listed_per_npc() {
    let rewards = vec![
        Reward { npc: NpcId(0), amount: 10, kind: RewardKind::Xp },
        item_reward(1, 0, true),
        item_reward(0, 1, false),
    ];
    assert_eq!(rewards_for(&rewards, NpcId(0)), vec![rewards[0], rewards[2]]);
    assert_eq!(rewards_for(&rewards, NpcId(5)), vec![]);
}

#[test]
fn the_loot_npc_guarantees_a_consumable() {
    let classes = vec![ItemClass::Resource, ItemClass::Consumable];
    let rows = vec![
        SpawnRow { npc: NpcId(0), area: AreaId(0), population: 1 },
        SpawnRow { npc: NpcId(1), area: AreaId(1), population: 1 },
        SpawnRow { npc: NpcId(2), area: AreaId(0), population: 1 },
        SpawnRow { npc: NpcId(3), area: AreaId(0), population: 1 },
    ];
    let rewards = vec![
        item_reward(0, 1, false),
        item_reward(1, 1, true),
        item_reward(2, 0, true),
        item_reward(3, 1, true),
    ];
    assert_eq!(loot_npc(&rows, AreaId(0), &rewards, &classes), Some(NpcId(3)));
    assert_eq!(loot_npc(&rows, AreaId(1), &rewards, &classes), Some(NpcId(1)));
    assert_eq!(loot_npc(&rows, AreaId(2), &rewards, &classes), None);
}

#[test]
fn unknown_cues_are_found_in_order() {
    let known = cues(&["step", "swing"]);
    assert_eq!(first_unknown(&known, &cues(&["swing", "boom", "zap"])), Some(1));
    assert_eq!(first_unknown(&known, &cues(&["swing", "step"])), None);
}

#[test]
fn embedded_content_validates() {
    let areas = vec![area("town", Some(true)), area("cave", None)];
    let items = strings(&["potion", "ore"]);
    let npcs = strings(&["slime", "bat"]);
    let sfx = sounds(&["step", "swing", "drink"]);
    assert_eq!(validate(&FILES, &areas, &items, &npcs, &sfx, &cues(&["step", "drink"])), Ok(()));
}

#[test]
fn validation_names_what_breaks() {
    let areas = vec![area("town", Some(true))];
    let sfx = sounds(&["step"]);
    assert_eq!(
        validate(&FILES, &areas, &strings(&["ore", "ore"]), &strings(&[]), &sfx, &cues(&[])),
        Err(TableError::DuplicateId("ore".to_string()))
    );
    assert_eq!(
        validate(&FILES, &areas, &strings(&[]), &strings(&["bat", "bat"]), &sfx, &cues(&[])),
        Err(TableError::DuplicateId("bat".to_string()))
    );
    assert_eq!(
        validate(&FILES, &areas, &strings(&[]), &strings(&[]), &sounds(&["step", "step"]), &cues(&[])),
        Err(TableError::DuplicateId("step".to_string()))
    );
    assert_eq!(
        validate(&FILES, &areas, &strings(&[]), &strings(&[]), &sfx, &cues(&["step", "boom"])),
        Err(TableError::Unknown("boom".to_string()))
    );
    assert_eq!(
        validate(&FILES, &vec![area("town", None)], &strings(&[]), &strings(&[]), &sfx, &cues(&[])),
        Err(TableError::SpawnCount(0))
    );
}

#[test]
fn the_exit_portal_leads_elsewhere() {
    let portals = vec![Portal { dest_area: AreaId(0) }, Portal { dest_area: AreaId(2) }, Portal { dest_area: AreaId(3) }];
    assert_eq!(exit_portal(AreaId(0), &portals), Some(1));
    assert_eq!(away(AreaId(0), &portals), Some(AreaId(2)));
    assert_eq!(exit_portal(AreaId(0), &vec![Portal { dest_area: AreaId(0) }]), None);
    assert_eq!(away(AreaId(0), &vec![]), None);
}

#[test]
fn a_goto_splits_into_area_and_coordinates() {
    assert_eq!(
        parse_goto(" cave , 12.5,\t3 "),
        Some(("cave".to_string(), "12.5".to_string(), "3".to_string()))
    );
    assert_eq!(parse_goto("cave, 1, 2, 9"), Some(("cave".to_string(), "1".to_string(), "2".to_string())));
    assert_eq!(parse_goto("cave, 1"), None);
    assert_eq!(parse_goto("cave"), None);
}

#[test]
fn a_goto_names_a_known_area() {
    let defs = vec![area("town", Some(true)), area("cave", None)];
    assert_eq!(portal_dest(&defs, "cave, 4, 5"), Ok((AreaId(1), "4".to_string(), "5".to_string())));
    assert_eq!(portal_dest(&defs, "moon, 4, 5"), Err(GotoError::UnknownArea("moon".to_string())));
    assert_eq!(portal_dest(&defs, "cave 4 5"), Err(GotoError::Malformed));
}

#[test]
fn npcs_spread_evenly_over_areas() {
    let shares: Vec<usize> = (0..3).map(|slot| area_share(10, 3, slot)).collect();
    assert_eq!(shares, vec![4, 3, 3]);
    assert_eq!(shares.iter().sum::<usize>(), 10);
    assert_eq!(area_share(2, 4, 3), 0);
}

#[test]
fn only_consumables_are_used_up() {
    let classes = vec![ItemClass::Consumable, ItemClass::Resource];
    let mut inventory = vec![ItemId(0), ItemId(1)];
    assert_eq!(consume_slot(&mut inventory, 1, &classes), None);
    assert_eq!(inventory, vec![ItemId(0), ItemId(1)]);
    assert_eq!(consume_slot(&mut inventory, 5, &classes), None);
    assert_eq!(consume_slot(&mut inventory, 0, &classes), Some(ItemId(0)));
    assert_eq!(inventory, vec![ItemId(1)]);
}

fn xp_reward(npc: u16, amount: u32) -> Reward {
    Reward { npc: NpcId(npc), amount, kind: RewardKind::Xp }
}

#[test]
fn a_kill_grants_experience_and_the_rolled_items() {
    let loot = |item: u16, guaranteed: bool, amount: u32| Reward {
        npc: NpcId(1),
        amount,
        kind: RewardKind::Item { item: ItemId(item), guaranteed },
    };
    let rewards = vec![
        xp_reward(1, 10),
        loot(2, true, 2),
        loot(3, false, 1),
        xp_reward(2, 99),
        loot(4, false, 1),
    ];
    let mut inventory = vec![ItemId(7)];
    assert_eq!(grant(&rewards, NpcId(1), 5, &mut inventory, &vec![false, true]), 15);
    assert_eq!(inventory, vec![ItemId(7), ItemId(2), ItemId(2), ItemId(4)]);
    // A missing roll fails; experience wraps.
    let mut inventory = vec![];
    assert_eq!(grant(&rewards, NpcId(1), u32::MAX, &mut inventory, &vec![]), 9);
    assert_eq!(inventory, vec![ItemId(2), ItemId(2)]);
}

#[test]
fn the_first_consumable_slot_is_found() {
    let classes = vec![ItemClass::Resource, ItemClass::Consumable, ItemClass::Equipment];
    assert_eq!(first_consumable(&vec![ItemId(0), ItemId(2), ItemId(1), ItemId(1)], &classes), Some(2));
    assert_eq!(first_consumable(&vec![ItemId(0), ItemId(2)], &classes), None);
    assert_eq!(first_consumable(&vec![], &classes), None);
}

#[test]
fn areas_must_name_embedded_maps() {
    let defs = vec![area("town", Some(true)), area("moon", None), area("town", None)];
    assert_eq!(check_areas(&FILES, &defs), Err(TableError::UnknownMap("moon_map".to_string())));
    // A map is found by its file name anywhere under the maps directory, not outside it.
    let files: [AssetFile; 2] = [("icons/town_map.tmx", b""), ("maps/sub/town_map.tmx", b"")];
    assert_eq!(check_areas(&files, &vec![area("town", Some(true))]), Ok(()));
    assert_eq!(
        check_areas(&files[..1], &vec![area("town", Some(true))]),
        Err(TableError::UnknownMap("town_map".to_string()))
    );
}

#[test]
fn sounds_must_play_embedded_files() {
    let areas = vec![area("town", Some(true))];
    let mut sfx = sounds(&["step", "swing"]);
    sfx[1].src = "sfx/missing.ogg".to_string();
    assert_eq!(
        validate(&FILES, &areas, &strings(&[]), &strings(&[]), &sfx, &cues(&[])),
        Err(TableError::MissingSource("swing".to_string()))
    );
}

#[test]
fn table_rows_name_other_rows_by_their_first_position() {
    let ids = vec!["rat".to_string(), "wolf".to_string(), "rat".to_string()];
    assert_eq!(position_of(&ids, "rat"), Some(0));
    assert_eq!(position_of(&ids, "wolf"), Some(1));
    assert_eq!(position_of(&ids, "bear"), None);
}

#[test]
fn reward_rows_grant_experience_or_items() {
    let npc = NpcId(2);
    assert_eq!(reward_row(npc, 5, "xp", None, false), Some(Reward { npc, amount: 5, kind: RewardKind::Xp }));
    assert_eq!(
        reward_row(npc, 1, "item", Some(ItemId(3)), false),
        Some(Reward { npc, amount: 1, kind: RewardKind::Item { item: ItemId(3), guaranteed: true } })
    );
    assert_eq!(
        reward_row(npc, 1, "item", Some(ItemId(3)), true),
        Some(Reward { npc, amount: 1, kind: RewardKind::Item { item: ItemId(3), guaranteed: false } })
    );
    assert_eq!(reward_row(npc, 1, "item", None, false), None);
    assert_eq!(reward_row(npc, 1, "gold", None, false), None);
}
