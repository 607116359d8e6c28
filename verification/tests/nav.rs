use world::nav::{astar, neighbours, octile, route, Grid, DIAGONAL, ORTHOGONAL};

fn grid(rows: &[&str]) -> Grid {
    let height = rows.len() as u32;
    let width = rows[0].len() as u32;
    let walkable = rows.iter().flat_map(|row| row.chars().map(|c| c == '.')).collect();
    Grid::new(width, height, walkable)
}

#[test]
fn cells_off_the_grid_are_never_walkable() {
    let g = grid(&["..", "#."]);
    assert_eq!(g.size(), (2, 2));
    assert!(g.walkable(0, 0));
    assert!(!g.walkable(0, 1));
    assert!(!g.walkable(-1, 0));
    assert!(!g.walkable(2, 0));
    assert!(!g.walkable(0, 2));
}

#[test]
fn the_nearest_walkable_cell_is_found_ring_by_ring() {
    let g = grid(&["###", "###", "##."]);
    assert_eq!(g.nearest_walkable(2, 2), Some((2, 2)));
    assert_eq!(g.nearest_walkable(0, 0), Some((2, 2)));
    assert_eq!(g.nearest_walkable(-1, 2), Some((2, 2)));
    // A cell far off the grid still finds the grid's walkable cell.
    assert_eq!(g.nearest_walkable(-5, 2), Some((2, 2)));
    let one = grid(&["."]);
    assert_eq!(one.nearest_walkable(5, 5), Some((0, 0)));
    assert_eq!(one.nearest_walkable(i32::MIN, i32::MAX), Some((0, 0)));
    assert_eq!(g.nearest_walkable(i32::MAX, i32::MIN), Some((2, 2)));
    assert_eq!(blocked_far(), None);
    let blocked = grid(&["##", "##"]);
    assert_eq!(blocked.nearest_walkable(0, 0), None);
    let two = grid(&[".#.", "###", "###"]);
    // Both corners are two cells away; the ring's euclidean-closest wins, then the first found.
    assert_eq!(two.nearest_walkable(1, 2), Some((0, 0)));
}

#[test]
fn neighbours_step_orthogonally_then_diagonally() {
    let g = grid(&["...", ".#.", "..."]);
    let around = neighbours(&g, (0, 0));
    assert_eq!(around, vec![((1, 0), ORTHOGONAL), ((0, 1), ORTHOGONAL)]);
    let around = neighbours(&g, (2, 1));
    assert_eq!(around, vec![((2, 2), ORTHOGONAL), ((2, 0), ORTHOGONAL), ((1, 2), DIAGONAL), ((1, 0), DIAGONAL)]);
}

#[test]
fn octile_distance_counts_diagonal_steps() {
    assert_eq!(octile((0, 0), (3, 1)), 2 * ORTHOGONAL + DIAGONAL);
    assert_eq!(octile((5, 5), (5, 5)), 0);
    assert_eq!(octile((0, 0), (-2, -2)), 2 * DIAGONAL);
}

#[test]
fn astar_follows_the_only_corridor() {
    let g = grid(&["...#", "##.#", "#..."]);
    assert_eq!(
        astar(&g, (0, 0), (3, 2)),
        Some(vec![(0, 0), (1, 0), (2, 1), (3, 2)])
    );
    assert_eq!(astar(&g, (0, 0), (0, 0)), Some(vec![(0, 0)]));
}

#[test]
fn astar_refuses_blocked_or_unreachable_ends() {
    let g = grid(&[".#.", ".#.", ".#."]);
    assert_eq!(astar(&g, (0, 0), (2, 0)), None);
    assert_eq!(astar(&g, (1, 0), (0, 0)), None);
    assert_eq!(astar(&g, (0, 0), (1, 1)), None);
}

#[test]
fn a_route_skips_the_cell_underfoot_and_retargets_blocked_goals() {
    let g = grid(&["....", "###."]);
    assert_eq!(route(&g, (0, 0), (2, 0)), Some(vec![(1, 0), (2, 0)]));
    assert_eq!(route(&g, (0, 0), (0, 0)), Some(vec![(0, 0)]));
    // The goal (1, 1) is blocked; its nearest walkable cell is (1, 0).
    assert_eq!(route(&g, (3, 1), (1, 1)), Some(vec![(2, 0), (1, 0)]));
}

fn blocked_far() -> Option<(i32, i32)> {
    grid(&["##", "##"]).nearest_walkable(i32::MIN, i32::MIN)
}
