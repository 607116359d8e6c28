use world::explore::nearest_tile;
use world::nav::Grid;

fn grid(rows: &[&str]) -> Grid {
    let height = rows.len() as u32;
    let width = rows[0].len() as u32;
    let cells = rows.iter().flat_map(|r| r.chars().map(|c| c == '.')).collect();
    Grid::new(width, height, cells)
}

fn all(g: &[&str]) -> Vec<bool> {
    vec![true; g.len() * g[0].len()]
}

#[test]
fn the_nearest_tile_at_least_some_steps_away() {
    let rows = ["....", "....", "...."];
    let g = grid(&rows);
    // Right first among the tiles one step away.
    assert_eq!(nearest_tile(&g, (1, 1), 1, &all(&rows)), Some((2, 1)));
    // Two steps: right then right is found before the others.
    assert_eq!(nearest_tile(&g, (0, 0), 2, &all(&rows)), Some((2, 0)));
}

#[test]
fn the_search_goes_around_walls() {
    let rows = [".#.", ".#.", "..."];
    let g = grid(&rows);
    let mut accept = vec![false; 9];
    accept[2] = true; // (2, 0), six steps around the wall
    assert_eq!(nearest_tile(&g, (0, 0), 1, &accept), Some((2, 0)));
}

#[test]
fn nothing_reachable_and_accepted_gives_none() {
    let rows = [".#.", ".#.", ".#."];
    let g = grid(&rows);
    let mut accept = vec![false; 9];
    accept[2] = true;
    assert_eq!(nearest_tile(&g, (0, 0), 1, &accept), None);
    // Far enough away is not reachable either.
    assert_eq!(nearest_tile(&g, (0, 0), 3, &all(&rows)), None);
}

#[test]
fn the_start_itself_is_never_the_answer() {
    let rows = ["."];
    let g = grid(&rows);
    assert_eq!(nearest_tile(&g, (0, 0), 1, &all(&rows)), None);
}

#[test]
fn among_equally_near_tiles_the_first_route_wins() {
    let rows = ["...", "...", "..."];
    let g = grid(&rows);
    let mut accept = vec![false; 9];
    accept[6] = true; // (0, 2): left then down at best
    accept[2] = true; // (2, 0): right then up
    assert_eq!(nearest_tile(&g, (1, 1), 1, &accept), Some((2, 0)));
    accept[2] = false;
    accept[0] = true; // (0, 0): left then up
    assert_eq!(nearest_tile(&g, (1, 1), 1, &accept), Some((0, 2)));
}
