use world::actors::SfxId;
use world::assets::embedded_key;
use world::groups::compute_groups;
use world::nav::Grid;
use world::tiles::{
    build_grid, fill_layer, is_dynamic_name, resolve, tile_def, tile_region, tile_sfx, tile_sfx_at,
    walkable_nodes, PixelRegion, PlacedTile, RenderLayer, TileInfo, TileRef, TileTable, TilesetGeometry,
};

static SHEET: [u8; 4] = [1, 2, 3, 4];

fn geometry() -> TilesetGeometry {
    TilesetGeometry { margin: 1, spacing: 2, tile_width: 16, tile_height: 16, columns: 4 }
}

fn info(key: u32, walkable: Option<bool>, group: Option<i64>, sfx: Option<&str>) -> TileInfo {
    TileInfo {
        key: (0, key),
        def: tile_def(&SHEET, geometry(), key, &vec![]),
        walkable,
        group,
        sfx: sfx.map(|s| SfxId(s.to_string())),
    }
}

#[test]
fn a_tile_reference_keeps_its_index_and_flips() {
    let t = TileRef::new(5, (true, false));
    assert_eq!(t.index(), Some(5));
    assert_eq!(t.flip(), (true, false));
    let t = TileRef::new(0, (false, true));
    assert_eq!(t.index(), Some(0));
    assert_eq!(t.flip(), (false, true));
    assert_eq!(TileRef::empty().index(), None);
    assert_eq!(TileRef::empty().flip(), (false, false));
}

#[test]
fn a_layer_reads_empty_outside() {
    let a = TileRef::new(0, (false, false));
    let b = TileRef::new(1, (false, false));
    let layer = RenderLayer::new(false, 2, 2, vec![a, a, a, b]);
    assert_eq!(layer.at(1, 1), b);
    assert_eq!(layer.at(0, 1), a);
    assert_eq!(layer.at(-1, 0), TileRef::empty());
    assert_eq!(layer.at(2, 0), TileRef::empty());
    assert_eq!(layer.at(0, 2), TileRef::empty());
}

#[test]
fn interning_a_tile_twice_gives_one_entry() {
    let mut table = TileTable::new();
    let first = table.intern(info(7, Some(true), None, None), (false, false));
    let again = table.intern(info(7, Some(false), None, None), (true, false));
    let other = table.intern(info(9, None, None, None), (false, false));
    assert_eq!(first.index(), Some(0));
    assert_eq!(again.index(), Some(0));
    assert_eq!(again.flip(), (true, false));
    assert_eq!(other.index(), Some(1));
    assert_eq!(table.len(), 2);
    assert_eq!(table.walkable_of(again), Some(true));
    assert_eq!(table.walkable_of(TileRef::empty()), None);
}

#[test]
fn walkability_needs_a_walkable_tile_no_blocking_tile_and_no_obscuring_object() {
    let mut table = TileTable::new();
    let floor = table.intern(info(0, Some(true), None, None), (false, false));
    let wall = table.intern(info(1, Some(false), None, None), (false, false));
    let plain = table.intern(info(2, None, None, None), (false, false));
    let e = TileRef::empty();
    let ground = RenderLayer::new(false, 3, 2, vec![floor, floor, floor, floor, plain, floor]);
    let top = RenderLayer::new(false, 3, 2, vec![e, wall, e, e, e, e]);
    let grid = build_grid(3, 2, &vec![ground, top], &table, &vec![(2, 1), (9, 9)]);
    assert_eq!(grid.size(), (3, 2));
    assert!(grid.walkable(0, 0));
    assert!(!grid.walkable(1, 0));
    assert!(grid.walkable(2, 0));
    assert!(grid.walkable(0, 1));
    assert!(!grid.walkable(1, 1));
    assert!(!grid.walkable(2, 1));
    assert_eq!(walkable_nodes(&grid), vec![(0, 0), (2, 0), (0, 1)]);
}

#[test]
fn the_topmost_layer_with_a_cue_wins() {
    let mut table = TileTable::new();
    let grass = table.intern(info(0, Some(true), None, Some("grass")), (false, false));
    let wood = table.intern(info(1, Some(true), None, Some("wood")), (false, false));
    let plain = table.intern(info(2, None, None, None), (false, false));
    let ground = RenderLayer::new(false, 2, 1, vec![grass, grass]);
    let top = RenderLayer::new(false, 2, 1, vec![wood, plain]);
    let sfx = tile_sfx(2, 1, &vec![ground, top], &table);
    assert_eq!(sfx, vec![Some(SfxId("wood".to_string())), Some(SfxId("grass".to_string()))]);
}

#[test]
fn groups_are_connected_runs_of_one_id_seeded_row_major() {
    let mut table = TileTable::new();
    let a = table.intern(info(0, None, Some(1), None), (false, false));
    let b = table.intern(info(1, None, Some(2), None), (false, false));
    let c = table.intern(info(2, None, None, None), (false, false));
    let floor = RenderLayer::new(false, 4, 3, vec![c; 12]);
    let dynamic = RenderLayer::new(true, 4, 3, vec![a, a, c, b, c, a, c, b, a, c, c, c]);
    let (groups, mask) = compute_groups(&vec![floor, dynamic], &table);
    assert_eq!(groups.len(), 3);
    assert_eq!(groups[0].tiles, vec![(0, 0, a), (1, 0, a), (1, 1, a)]);
    assert_eq!(groups[0].bottom, 1);
    assert_eq!(groups[1].tiles, vec![(3, 0, b), (3, 1, b)]);
    assert_eq!(groups[1].bottom, 1);
    assert_eq!(groups[2].tiles, vec![(0, 2, a)]);
    assert_eq!(groups[2].bottom, 2);
    assert_eq!(
        mask,
        vec![true, true, false, true, false, true, false, true, true, false, false, false]
    );
}

#[test]
fn a_group_lists_its_cells_in_the_order_the_stack_yields_them() {
    let mut table = TileTable::new();
    let a = table.intern(info(0, None, Some(1), None), (false, false));
    let dynamic = RenderLayer::new(true, 2, 2, vec![a; 4]);
    let (groups, _) = compute_groups(&vec![dynamic], &table);
    assert_eq!(groups.len(), 1);
    assert_eq!(groups[0].tiles, vec![(0, 0, a), (0, 1, a), (1, 1, a), (1, 0, a)]);
}

#[test]
fn no_dynamic_layer_means_no_groups() {
    let mut table = TileTable::new();
    let a = table.intern(info(0, None, Some(1), None), (false, false));
    let (groups, mask) = compute_groups(&vec![RenderLayer::new(false, 1, 1, vec![a])], &table);
    assert!(groups.is_empty());
    assert!(mask.is_empty());
}

#[test]
fn tiles_sit_in_atlas_rows() {
    let g = geometry();
    assert_eq!(tile_region(g, 5), PixelRegion { x: 19, y: 19, w: 16, h: 16 });
    assert_eq!(tile_region(g, 0), PixelRegion { x: 1, y: 1, w: 16, h: 16 });
    let single = TilesetGeometry { columns: 0, ..g };
    assert_eq!(tile_region(single, 3), PixelRegion { x: 1, y: 55, w: 16, h: 16 });
}

#[test]
fn animated_tiles_cycle_through_their_frames() {
    let g = geometry();
    let def = tile_def(&SHEET, g, 0, &vec![(1, 100), (2, 200)]);
    assert_eq!(def.total_ms, 300);
    assert_eq!(def.frame_at(0), tile_region(g, 1));
    assert_eq!(def.frame_at(99), tile_region(g, 1));
    assert_eq!(def.frame_at(100), tile_region(g, 2));
    assert_eq!(def.frame_at(299), tile_region(g, 2));
    assert_eq!(def.frame_at(300), tile_region(g, 1));
    let still = tile_def(&SHEET, g, 3, &vec![]);
    assert_eq!(still.total_ms, 0);
    assert_eq!(still.frame_at(12345), tile_region(g, 3));
}

#[test]
fn resolving_a_cell_gives_its_sprite() {
    let mut table = TileTable::new();
    let t = table.intern(info(6, None, None, None), (false, false));
    let flipped = TileRef::new(t.index().unwrap(), (false, true));
    let sprite = resolve(&table, flipped, 50).unwrap();
    assert_eq!(sprite.region, tile_region(geometry(), 6));
    assert_eq!(sprite.flip, (false, true));
    assert_eq!(sprite.sheet, &SHEET[..]);
    assert!(resolve(&table, TileRef::empty(), 0).is_none());
}

#[test]
fn the_dynamic_layer_is_named_in_any_case() {
    assert!(is_dynamic_name("Dynamic"));
    assert!(is_dynamic_name("dynamic"));
    assert!(is_dynamic_name("DYNAMIC"));
    assert!(!is_dynamic_name("Dynamics"));
    assert!(!is_dynamic_name("Ground"));
}

#[test]
fn loader_paths_normalize_to_asset_keys() {
    assert_eq!(embedded_key("maps/../tilesets/x.tsx"), "tilesets/x.tsx");
    assert_eq!(embedded_key("./maps/town.tmx"), "maps/town.tmx");
    assert_eq!(embedded_key("a/b/../../c"), "c");
    assert_eq!(embedded_key("../x"), "x");
    assert_eq!(embedded_key("/maps//a.tmx"), "maps/a.tmx");
}

#[test]
fn a_tile_layer_interns_its_cells_in_order() {
    let mut table = TileTable::new();
    table.intern(info(3, Some(false), None, None), (false, false));
    let placed = |key: u32, walkable: Option<bool>, flip: (bool, bool)| {
        Some(PlacedTile { info: info(key, walkable, None, None), flip })
    };
    let cells = vec![
        placed(5, Some(true), (false, false)),
        None,
        placed(3, Some(true), (true, false)),
        placed(5, Some(false), (false, true)),
    ];
    let layer = fill_layer(&mut table, "dynamic", 2, 2, cells);
    assert!(layer.dynamic());
    assert_eq!(table.len(), 2);
    assert_eq!(layer.at(0, 0).index(), Some(1));
    assert_eq!(layer.at(1, 0), TileRef::empty());
    assert_eq!(layer.at(0, 1).index(), Some(0));
    assert_eq!(layer.at(0, 1).flip(), (true, false));
    assert_eq!(layer.at(1, 1).index(), Some(1));
    assert_eq!(layer.at(1, 1).flip(), (false, true));
    // The first placement of a tile decides what the table holds for it.
    assert_eq!(table.walkable_of(layer.at(1, 1)), Some(true));
    assert_eq!(table.walkable_of(layer.at(0, 1)), Some(false));
    let plain = fill_layer(&mut table, "Ground", 1, 1, vec![None]);
    assert!(!plain.dynamic());
}

#[test]
fn a_cells_cue_is_looked_up_row_major() {
    let cues = vec![None, Some(SfxId("grass".to_string())), Some(SfxId("stone".to_string())), None];
    assert_eq!(tile_sfx_at(&cues, 2, 2, 1, 0), Some(&SfxId("grass".to_string())));
    assert_eq!(tile_sfx_at(&cues, 2, 2, 0, 1), Some(&SfxId("stone".to_string())));
    assert_eq!(tile_sfx_at(&cues, 2, 2, 1, 1), None);
    assert_eq!(tile_sfx_at(&cues, 2, 2, 2, 0), None);
    assert_eq!(tile_sfx_at(&cues, 2, 2, 0, -1), None);
}
