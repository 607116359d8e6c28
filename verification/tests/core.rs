use world::compass::{isqrt, Direction, Pos};

#[test]
fn vector_ops() {
    let p = |x, y| Pos::new(x, y);
    assert_eq!(p(1, 2).plus(p(3, 4)), p(4, 6));
    assert_eq!(p(3, 4).length(), 5);
    assert_eq!(p(0, 0).distance(p(0, 5)), 5);
}

#[test]
fn dir8_cardinals() {
    assert_eq!(Direction::from_vec(1, 0), Direction::E);
    assert_eq!(Direction::from_vec(0, 1), Direction::S);
    assert_eq!(Direction::from_vec(0, -1), Direction::N);
    assert_eq!(Direction::from_vec(-1, 0), Direction::W);
}

#[test]
fn diagonals_and_near_axis_vectors() {
    assert_eq!(Direction::from_vec(1, 1), Direction::SE);
    assert_eq!(Direction::from_vec(-1, -1), Direction::NW);
    assert_eq!(Direction::from_vec(1, -1), Direction::NE);
    assert_eq!(Direction::from_vec(-1, 1), Direction::SW);
    // 10 to the east and 3 down is under 22.5 degrees off east; 10 and 5 is over it.
    assert_eq!(Direction::from_vec(10, 3), Direction::E);
    assert_eq!(Direction::from_vec(10, 5), Direction::SE);
    assert_eq!(Direction::from_vec(0, 0), Direction::E);
}

#[test]
fn direction_slots_run_clockwise_from_north() {
    assert_eq!(Direction::N.slot(), 0);
    assert_eq!(Direction::E.slot(), 2);
    assert_eq!(Direction::S.slot(), 4);
    assert_eq!(Direction::NW.slot(), 7);
}

#[test]
fn whole_square_roots_round_down() {
    assert_eq!(isqrt(0), 0);
    assert_eq!(isqrt(24), 4);
    assert_eq!(isqrt(25), 5);
    assert_eq!(isqrt(u64::MAX), 4294967295);
    assert_eq!(Pos::new(1, 1).length(), 1);
    assert_eq!(Pos::new(-6, 8).minus(Pos::new(0, 0)).length(), 10);
}
