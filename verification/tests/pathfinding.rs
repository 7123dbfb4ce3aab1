use sandtris::constants::Color;
use sandtris::grid::Grid;
use sandtris::pathfinding::{find_connected_sand, find_neighbors, find_spanning_group, test_node};

fn empty_grid(w: usize, h: usize) -> Grid {
    Grid::new(w, h)
}

#[test]
fn spanning_on_empty_grid_is_none() {
    let grid = empty_grid(5, 4);
    assert_eq!(find_spanning_group(&grid), None);
}

#[test]
fn spanning_on_full_width_row_returns_column_zero_entry() {
    let mut grid = empty_grid(5, 3);
    for x in 0..5 {
        grid.set(x, 1, Some(Color::Blue));
    }
    assert_eq!(find_spanning_group(&grid), Some((0, 1)));
}

#[test]
fn no_spanning_when_colors_differ_across_the_middle() {
    let mut grid = empty_grid(5, 3);
    grid.set(0, 1, Some(Color::Blue));
    grid.set(1, 1, Some(Color::Blue));
    grid.set(2, 1, Some(Color::Red));
    grid.set(3, 1, Some(Color::Blue));
    grid.set(4, 1, Some(Color::Blue));
    assert_eq!(find_spanning_group(&grid), None);
}

#[test]
fn spanning_single_cell_board() {
    let mut grid = empty_grid(1, 2);
    assert_eq!(find_spanning_group(&grid), None);
    grid.set(0, 1, Some(Color::Green));
    assert_eq!(find_spanning_group(&grid), Some((0, 1)));
}

#[test]
fn spanning_wide_row_of_one_color() {
    // A 5-wide, 1-tall board, all cells the same color: the leftmost cell is
    // the entry, and the flood fill from it returns all five coordinates.
    let mut grid = empty_grid(5, 1);
    for x in 0..5 {
        grid.set(x, 0, Some(Color::Yellow));
    }
    assert_eq!(find_spanning_group(&grid), Some((0, 0)));
    let cells = find_connected_sand(&grid, 0, 0);
    assert_eq!(cells.len(), 5);
    for x in 0..5 {
        assert!(cells.contains(&(x, 0)));
    }
    assert_eq!(cells, vec![(0, 0), (1, 0), (2, 0), (3, 0), (4, 0)]);
}

#[test]
fn spanning_follows_a_bent_path() {
    // Same color snaking through three rows; a straight row is absent.
    let mut grid = empty_grid(3, 3);
    grid.set(0, 0, Some(Color::Red));
    grid.set(0, 1, Some(Color::Red));
    grid.set(1, 1, Some(Color::Red));
    grid.set(1, 2, Some(Color::Red));
    grid.set(2, 2, Some(Color::Red));
    assert_eq!(find_spanning_group(&grid), Some((0, 0)));
}

#[test]
fn flood_fill_returns_the_seed_component_only() {
    // Two same-colored cells with no shared neighbor: the fill seeded at
    // either returns a singleton holding only that cell.
    let mut grid = empty_grid(5, 5);
    grid.set(1, 1, Some(Color::Green));
    grid.set(3, 3, Some(Color::Green));
    assert_eq!(find_connected_sand(&grid, 1, 1), vec![(1, 1)]);
    assert_eq!(find_connected_sand(&grid, 3, 3), vec![(3, 3)]);
}

#[test]
fn flood_fill_collects_whole_region_and_nothing_else() {
    // A plus of blue around (2,2), a red cell touching it, a blue cell apart.
    let mut grid = empty_grid(5, 5);
    grid.set(2, 2, Some(Color::Blue));
    grid.set(1, 2, Some(Color::Blue));
    grid.set(3, 2, Some(Color::Blue));
    grid.set(2, 1, Some(Color::Blue));
    grid.set(2, 3, Some(Color::Blue));
    grid.set(4, 2, Some(Color::Red));
    grid.set(0, 0, Some(Color::Blue));
    let cells = find_connected_sand(&grid, 2, 2);
    assert_eq!(cells.len(), 5);
    for p in [(2, 2), (1, 2), (3, 2), (2, 1), (2, 3)] {
        assert!(cells.contains(&p));
    }
    assert!(!cells.contains(&(4, 2)));
    assert!(!cells.contains(&(0, 0)));
}

#[test]
fn flood_fill_discovery_order_is_left_up_right_down() {
    let mut grid = empty_grid(3, 3);
    grid.set(1, 1, Some(Color::Red));
    grid.set(0, 1, Some(Color::Red));
    grid.set(1, 0, Some(Color::Red));
    grid.set(2, 1, Some(Color::Red));
    grid.set(1, 2, Some(Color::Red));
    let cells = find_connected_sand(&grid, 1, 1);
    assert_eq!(cells, vec![(1, 1), (0, 1), (1, 0), (2, 1), (1, 2)]);
}

#[test]
fn flood_fill_on_empty_seed_returns_the_seed_alone() {
    let grid = empty_grid(4, 4);
    assert_eq!(find_connected_sand(&grid, 2, 2), vec![(2, 2)]);
}

#[test]
fn test_node_accepts_only_matching_occupied_cells() {
    let mut grid = empty_grid(3, 3);
    grid.set(1, 1, Some(Color::Red));
    assert_eq!(test_node(&grid, 1, 1, Color::Red), Some((1, 1)));
    assert_eq!(test_node(&grid, 1, 1, Color::Blue), None);
    assert_eq!(test_node(&grid, 0, 0, Color::Red), None);
    assert_eq!(test_node(&grid, 5, 1, Color::Red), None);
}

#[test]
fn find_neighbors_lists_same_color_neighbors_in_order() {
    let mut grid = empty_grid(3, 3);
    grid.set(1, 1, Some(Color::Red));
    grid.set(0, 1, Some(Color::Red));
    grid.set(1, 0, Some(Color::Blue));
    grid.set(2, 1, Some(Color::Red));
    grid.set(1, 2, Some(Color::Red));
    assert_eq!(
        find_neighbors(&grid, 1, 1, Color::Red),
        vec![(0, 1), (2, 1), (1, 2)]
    );
    let at_corner = find_neighbors(&grid, 0, 1, Color::Red);
    assert_eq!(at_corner, vec![(1, 1)]);
}
