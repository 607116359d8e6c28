use world::assets::{
    bytes, dir, file_name, find, find_text, icon, is_under, stem, text, AssetFile, Icon, MAPS,
};

static FILES: [AssetFile; 4] = [
    ("maps/town.tmx", b"<map/>"),
    ("maps/sub/cave.tmx", b"<cave/>"),
    ("tilesets/grass.png", &[137, 80]),
    ("actors/slime.json", b"{}"),
];

#[test]
fn names_split_into_directory_file_and_stem() {
    assert_eq!(file_name("maps/sub/cave.tmx"), "cave.tmx");
    assert_eq!(file_name("cave.tmx"), "cave.tmx");
    assert_eq!(stem("actors/slime.json"), "slime");
    assert_eq!(stem("README"), "README");
    assert!(is_under("maps/town.tmx", MAPS));
    assert!(!is_under("mapsx/town.tmx", MAPS));
    assert!(!is_under("maps", MAPS));
}

#[test]
fn a_directory_lists_everything_under_it() {
    let maps: Vec<&str> = dir(&FILES, "maps").iter().map(|f| f.0).collect();
    assert_eq!(maps, vec!["maps/town.tmx", "maps/sub/cave.tmx"]);
    assert!(dir(&FILES, "sounds").is_empty());
}

#[test]
fn files_are_found_by_path_or_by_reference() {
    assert_eq!(bytes(&FILES, "tilesets/grass.png"), Some(&[137u8, 80][..]));
    assert_eq!(bytes(&FILES, "tilesets/none.png"), None);
    assert_eq!(text(&FILES, "maps/town.tmx"), Some("<map/>"));
    assert_eq!(find(&FILES, "maps", "cave.tmx").map(|f| f.0), Some("maps/sub/cave.tmx"));
    assert_eq!(find(&FILES, "maps", "grass.png"), None);
    assert_eq!(find_text(&FILES, "actors", "slime.json"), Some("{}"));
}

static ICON_FILES: [AssetFile; 3] = [
    ("maps/potion.png", b"not an icon"),
    ("icons/items/potion.png", &[1, 2, 3]),
    ("icons/potion.png", &[4, 5]),
];

#[test]
fn an_icon_is_the_first_png_of_its_name_under_the_icons() {
    assert_eq!(icon(&ICON_FILES, "potion"), Some(Icon(&[1, 2, 3])));
    assert_eq!(icon(&ICON_FILES, "sword"), None);
}

#[test]
fn a_reference_is_found_by_its_file_name_alone() {
    assert_eq!(find(&ICON_FILES, "icons", "elsewhere/deep/potion.png"), find(&ICON_FILES, "icons", "potion.png"));
    assert_eq!(find(&ICON_FILES, "icons", "potion.png").map(|f| f.0), Some("icons/items/potion.png"));
}
