use world::tilemap::{atlas_size, show_frame, IndexBuilder, TileAnimations};

#[test]
fn a_cell_texel_holds_the_id_bytes_flips_and_fill() {
    let mut b = IndexBuilder::new(3, 2, 0, 10);
    assert_eq!(b.data().len(), 24);
    assert!(b.data().iter().all(|&x| x == 0));
    b.set(2, 1, 0x1234, true, false);
    let i = 4 * (1 * 3 + 2);
    assert_eq!(&b.data()[i..i + 4], &[0x34, 0x12, 1, 255]);
    b.set(0, 0, 5, false, true);
    assert_eq!(&b.data()[0..4], &[5, 0, 2, 255]);
    b.set(1, 0, 0x1_0003, true, true);
    assert_eq!(&b.data()[4..8], &[3, 0, 3, 255]);
    // Untouched cells stay empty.
    assert_eq!(&b.data()[12..16], &[0, 0, 0, 0]);
}

#[test]
fn a_fresh_frame_map_shows_every_tile_as_itself() {
    let b = IndexBuilder::new(1, 1, 4, 300);
    let map = b.frame_map_data();
    assert_eq!(map.len(), 1200);
    assert_eq!(&map[4 * 299..4 * 299 + 4], &[43, 1, 0, 0]);
    assert_eq!(&map[0..4], &[0, 0, 0, 0]);
    let empty = IndexBuilder::new(1, 1, 4, 0);
    assert_eq!(empty.frame_map_data(), vec![0, 0, 0, 0]);
}

#[test]
fn only_multi_frame_tiles_animate_and_frames_follow_the_clock() {
    let animations = vec![
        vec![],
        vec![(7, 100)],
        vec![(2, 100), (3, 50), (4, 250)],
        vec![(8, 0), (9, 0)],
    ];
    let mut anims = TileAnimations::new(&animations);
    let mut map = vec![0u8; 16];
    // At 120 ms tile 2 plays its second frame; tile 3's cycle has no length and stays put.
    assert!(anims.advance(120));
    anims.write(&mut map);
    assert_eq!(&map[8..10], &[3, 0]);
    assert_eq!(&map[12..14], &[8, 0]);
    // 520 ms is 120 ms into the second cycle: nothing changes.
    assert!(!anims.advance(520));
    assert!(anims.advance(400 + 160));
    anims.write(&mut map);
    assert_eq!(&map[8..10], &[4, 0]);
    assert_eq!(&map[4..6], &[0, 0]);
}

#[test]
fn a_frame_map_entry_points_at_an_atlas_id() {
    let mut map = vec![9u8; 8];
    show_frame(&mut map, 1, 0x0203);
    assert_eq!(map, vec![9, 9, 9, 9, 3, 2, 9, 9]);
}

#[test]
fn an_atlas_without_an_image_is_one_row_of_tiles() {
    assert_eq!(atlas_size(Some((64, 32)), 4, 16, 16), (64, 32));
    assert_eq!(atlas_size(None, 4, 16, 16), (64, 16));
    assert_eq!(atlas_size(None, 0, 16, 0), (1, 1));
}
