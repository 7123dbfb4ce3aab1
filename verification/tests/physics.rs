use nanorand::WyRand;
use sandtris::constants::{Color, Direction};
use sandtris::grid::Grid;
use sandtris::physics::{decide_direction, run_physics_line, run_rng_physics};

fn grain_count(grid: &Grid) -> usize {
    let mut n = 0;
    for y in 0..grid.height() {
        for x in 0..grid.width() {
            if grid.get(x, y).is_some() {
                n += 1;
            }
        }
    }
    n
}

#[test]
fn decision_is_none_exactly_when_all_blocked() {
    let mut rng = WyRand::new_seed(7);
    assert_eq!(decide_direction(&mut rng, true, true, true), None);
    for (left, down, right) in [
        (false, true, true),
        (true, false, true),
        (true, true, false),
        (false, true, false),
        (false, false, false),
        (true, false, false),
        (false, false, true),
    ] {
        assert!(decide_direction(&mut rng, left, down, right).is_some());
    }
}

#[test]
fn decision_deterministic_cases() {
    let mut rng = WyRand::new_seed(11);
    assert_eq!(
        decide_direction(&mut rng, false, true, true),
        Some((Direction::Left, None))
    );
    assert_eq!(
        decide_direction(&mut rng, true, false, true),
        Some((Direction::Down, None))
    );
    assert_eq!(
        decide_direction(&mut rng, true, true, false),
        Some((Direction::Right, None))
    );
}

#[test]
fn decision_never_down_when_below_occupied() {
    for seed in 0..200 {
        let mut rng = WyRand::new_seed(seed);
        let r = decide_direction(&mut rng, false, true, false).unwrap();
        assert_ne!(r.0, Direction::Down);
        match r {
            (Direction::Left, s) => assert_eq!(s, Some(Direction::Right)),
            (Direction::Right, s) => assert_eq!(s, Some(Direction::Left)),
            _ => unreachable!(),
        }
    }
}

#[test]
fn decision_with_open_floor_heavily_favors_down() {
    let mut down = 0;
    let mut diagonal = 0;
    for seed in 0..640 {
        let mut rng = WyRand::new_seed(seed);
        match decide_direction(&mut rng, false, false, false).unwrap() {
            (Direction::Down, s) => {
                assert_eq!(s, None);
                down += 1;
            }
            (_, s) => {
                assert_eq!(s, Some(Direction::Down));
                diagonal += 1;
            }
        }
    }
    // Two of the thirty-two slots are diagonals: about 40 of 640 draws.
    assert!(down > 500, "down was drawn only {down} times");
    assert!(diagonal > 0, "the rare diagonals never came up");
    assert!(diagonal < 140, "diagonals were drawn {diagonal} times");
}

#[test]
fn line_moves_lone_grains_straight_down() {
    let mut rng = WyRand::new_seed(3);
    let upper = vec![false, true, false, true, false];
    let lower = vec![true, false, true, false, true];
    let moves = run_physics_line(&mut rng, &upper, &lower);
    assert_eq!(
        moves,
        vec![
            None,
            Some(Direction::Down),
            None,
            Some(Direction::Down),
            None
        ]
    );
}

#[test]
fn line_resolves_diagonal_against_down_in_favor_of_down() {
    // The left grain wants to slip right, the right grain falls straight
    // down onto the same cell: down wins, the diagonal is cancelled.
    for seed in 0..50 {
        let mut rng = WyRand::new_seed(seed);
        let upper = vec![true, true];
        let lower = vec![true, false];
        let moves = run_physics_line(&mut rng, &upper, &lower);
        assert_eq!(moves, vec![None, Some(Direction::Down)]);
    }
}

#[test]
fn line_breaks_converging_diagonals_with_a_coin() {
    // Grains two apart, both aiming at the middle cell: exactly one moves.
    let mut left_won = 0;
    let mut right_won = 0;
    for seed in 0..200 {
        let mut rng = WyRand::new_seed(seed);
        let upper = vec![true, false, true];
        let lower = vec![true, false, true];
        let moves = run_physics_line(&mut rng, &upper, &lower);
        if moves == vec![Some(Direction::Right), None, None] {
            left_won += 1;
        } else if moves == vec![None, None, Some(Direction::Left)] {
            right_won += 1;
        } else {
            panic!("unexpected resolution {moves:?}");
        }
    }
    assert!(left_won > 0 && right_won > 0);
}

#[test]
fn tick_moves_a_lone_grain_into_the_empty_row_below() {
    // A single grain over an empty row falls; it lands straight below or,
    // rarely, one column to the side.
    let mut landed_below = 0;
    for seed in 0..100 {
        let mut grid = Grid::new(5, 2);
        grid.set(2, 0, Some(Color::Red));
        let mut rng = WyRand::new_seed(seed);
        run_rng_physics(&mut rng, &mut grid);
        assert_eq!(grid.get(2, 0), None);
        let landing: Vec<usize> = (0..5).filter(|&x| grid.get(x, 1).is_some()).collect();
        assert_eq!(landing.len(), 1);
        assert!(landing[0] >= 1 && landing[0] <= 3);
        if landing[0] == 2 {
            landed_below += 1;
        }
        assert_eq!(grain_count(&grid), 1);
    }
    assert!(landed_below > 80);
}

#[test]
fn tick_breaks_blocked_grain_ties_fairly() {
    // A grain sitting on another, both side cells free: across many seeds
    // it goes left about as often as right.
    let mut left = 0;
    let mut right = 0;
    for seed in 0..400 {
        let mut grid = Grid::new(5, 2);
        grid.set(2, 0, Some(Color::Blue));
        grid.set(2, 1, Some(Color::Red));
        let mut rng = WyRand::new_seed(seed);
        run_rng_physics(&mut rng, &mut grid);
        assert_eq!(grain_count(&grid), 2);
        assert_eq!(grid.get(2, 1), Some(Color::Red));
        assert_eq!(grid.get(2, 0), None);
        match (grid.get(1, 1), grid.get(3, 1)) {
            (Some(Color::Blue), None) => left += 1,
            (None, Some(Color::Blue)) => right += 1,
            other => panic!("grain ended nowhere sensible: {other:?}"),
        }
    }
    assert!(left > 120, "left was chosen only {left} of 400 times");
    assert!(right > 120, "right was chosen only {right} of 400 times");
}

#[test]
fn tick_conserves_grains_and_colors_on_a_crowded_board() {
    let colors = [Color::Red, Color::Yellow, Color::Blue, Color::Green];
    let mut grid = Grid::new(8, 8);
    let mut placed = 0;
    for y in 0..8 {
        for x in 0..8 {
            if (x * 7 + y * 13) % 3 != 0 {
                grid.set(x, y, Some(colors[(x + y) % 4]));
                placed += 1;
            }
        }
    }
    let mut per_color_before = [0usize; 4];
    for y in 0..8 {
        for x in 0..8 {
            if let Some(c) = grid.get(x, y) {
                per_color_before[colors.iter().position(|&k| k == c).unwrap()] += 1;
            }
        }
    }
    let mut rng = WyRand::new_seed(99);
    for _ in 0..20 {
        run_rng_physics(&mut rng, &mut grid);
        assert_eq!(grain_count(&grid), placed);
    }
    let mut per_color_after = [0usize; 4];
    for y in 0..8 {
        for x in 0..8 {
            if let Some(c) = grid.get(x, y) {
                per_color_after[colors.iter().position(|&k| k == c).unwrap()] += 1;
            }
        }
    }
    assert_eq!(per_color_before, per_color_after);
}

#[test]
fn tick_settles_a_full_bottom_row() {
    // Grains already on the floor stay exactly where they are, and the
    // settled board consumes nothing from the random stream.
    let mut grid = Grid::new(4, 3);
    for x in 0..4 {
        grid.set(x, 2, Some(Color::Green));
    }
    let mut rng = WyRand::new_seed(5);
    let mut untouched = WyRand::new_seed(5);
    run_rng_physics(&mut rng, &mut grid);
    for x in 0..4 {
        assert_eq!(grid.get(x, 2), Some(Color::Green));
        assert_eq!(grid.get(x, 1), None);
        assert_eq!(grid.get(x, 0), None);
    }
    let a: u64 = nanorand::Rng::generate(&mut rng);
    let b: u64 = nanorand::Rng::generate(&mut untouched);
    assert_eq!(a, b);
}

#[test]
fn one_row_board_is_left_alone() {
    // With a single row there is no row pair to sweep: the board keeps its
    // grains and the random stream is not advanced.
    let mut grid = Grid::new(5, 1);
    for x in 0..5 {
        grid.set(x, 0, Some(Color::Red));
    }
    let mut rng = WyRand::new_seed(77);
    let mut untouched = WyRand::new_seed(77);
    run_rng_physics(&mut rng, &mut grid);
    for x in 0..5 {
        assert_eq!(grid.get(x, 0), Some(Color::Red));
    }
    let a: u64 = nanorand::Rng::generate(&mut rng);
    let b: u64 = nanorand::Rng::generate(&mut untouched);
    assert_eq!(a, b);
}
