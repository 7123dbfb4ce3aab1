use sandtris::block::Block;
use sandtris::constants::{scale_subpixel, Color, Direction, PlayMode, Shape, SAND_BLOCK_SIZE};
use sandtris::grid::Grid;

#[test]
fn new_grid_is_empty() {
    let grid = Grid::new(6, 4);
    assert_eq!(grid.width(), 6);
    assert_eq!(grid.height(), 4);
    for y in 0..4 {
        for x in 0..6 {
            assert_eq!(grid.get(x, y), None);
        }
    }
}

#[test]
fn set_changes_one_cell_only() {
    let mut grid = Grid::new(3, 3);
    grid.set(1, 2, Some(Color::Yellow));
    for y in 0..3 {
        for x in 0..3 {
            if (x, y) == (1, 2) {
                assert_eq!(grid.get(x, y), Some(Color::Yellow));
            } else {
                assert_eq!(grid.get(x, y), None);
            }
        }
    }
}

#[test]
fn shape_coords_scale_block_offsets_by_sand_cells() {
    let s = SAND_BLOCK_SIZE;
    assert_eq!(s, 8);
    assert_eq!(
        Shape::T.coords(10, 20),
        vec![(10, 20 + s), (10 + s, 20), (10 + s, 20 + s), (10 + 2 * s, 20 + s)]
    );
    assert_eq!(
        Shape::I.coords(0, 0),
        vec![(0, 0), (s, 0), (2 * s, 0), (3 * s, 0)]
    );
    assert_eq!(
        Shape::O.coords(4, 4),
        vec![(4, 4), (4, 4 + s), (4 + s, 4), (4 + s, 4 + s)]
    );
    assert_eq!(
        Shape::S.coords(0, 0),
        vec![(0, s), (s, 0), (s, s), (2 * s, 0)]
    );
    assert_eq!(
        Shape::Z.coords(0, 0),
        vec![(0, 0), (s, 0), (s, s), (2 * s, s)]
    );
}

#[test]
fn shape_dimensions() {
    assert_eq!((Shape::T.width(), Shape::T.height()), (3, 2));
    assert_eq!((Shape::S.width(), Shape::S.height()), (3, 2));
    assert_eq!((Shape::Z.width(), Shape::Z.height()), (3, 2));
    assert_eq!((Shape::I.width(), Shape::I.height()), (4, 1));
    assert_eq!((Shape::O.width(), Shape::O.height()), (2, 2));
}

#[test]
fn block_moves_shift_its_corner() {
    let b = Block { x: 5, y: 6, shape: Shape::O, color: Color::Red };
    assert_eq!(b.inc_x().x, 6);
    assert_eq!(b.dec_x().x, 4);
    assert_eq!(b.inc_y().y, 7);
    let moved = b.with_pos(1, 2);
    assert_eq!((moved.x, moved.y), (1, 2));
    assert_eq!(moved.shape, Shape::O);
    assert_eq!(moved.color, Color::Red);
    assert_eq!((b.width(), b.height()), (2, 2));
}

#[test]
fn add_sand_block_stamps_the_piece_regions() {
    let mut grid = Grid::new(32, 32);
    let b = Block { x: 2, y: 3, shape: Shape::O, color: Color::Green };
    grid.add_sand_block(&b);
    let mut filled = 0;
    for y in 0..32 {
        for x in 0..32 {
            if grid.get(x, y).is_some() {
                filled += 1;
                assert_eq!(grid.get(x, y), Some(Color::Green));
                assert!(x >= 2 && x < 18 && y >= 3 && y < 19);
            }
        }
    }
    // Four regions of SAND_BLOCK_SIZE squared cells each.
    assert_eq!(filled, 4 * 8 * 8);
}

#[test]
fn add_sand_block_stamps_only_the_shape_cells() {
    let mut grid = Grid::new(32, 32);
    let b = Block { x: 0, y: 0, shape: Shape::T, color: Color::Blue };
    grid.add_sand_block(&b);
    // The top-left region of the T's bounding box is not part of the shape.
    assert_eq!(grid.get(0, 0), None);
    assert_eq!(grid.get(7, 7), None);
    assert_eq!(grid.get(0, 8), Some(Color::Blue));
    assert_eq!(grid.get(8, 0), Some(Color::Blue));
    assert_eq!(grid.get(8, 8), Some(Color::Blue));
    assert_eq!(grid.get(16, 8), Some(Color::Blue));
    assert_eq!(grid.get(16, 0), None);
}

#[test]
fn can_move_respects_board_edges() {
    let grid = Grid::new(32, 32);
    let b = Block { x: 0, y: 0, shape: Shape::O, color: Color::Red };
    assert!(!grid.can_move(&b, Direction::Left));
    assert!(grid.can_move(&b, Direction::Right));
    assert!(grid.can_move(&b, Direction::Down));
    let at_right = Block { x: 16, y: 0, shape: Shape::O, color: Color::Red };
    assert!(!grid.can_move(&at_right, Direction::Right));
    let at_bottom = Block { x: 8, y: 16, shape: Shape::O, color: Color::Red };
    assert!(!grid.can_move(&at_bottom, Direction::Down));
}

#[test]
fn can_move_respects_settled_sand() {
    let mut grid = Grid::new(32, 32);
    let b = Block { x: 8, y: 8, shape: Shape::O, color: Color::Red };
    assert!(grid.can_move(&b, Direction::Down));
    // One grain just below the piece's lower-left region blocks the drop.
    grid.set(9, 24, Some(Color::Blue));
    assert!(!grid.can_move(&b, Direction::Down));
    assert!(grid.can_move(&b, Direction::Left));
    grid.set(7, 10, Some(Color::Blue));
    assert!(!grid.can_move(&b, Direction::Left));
    assert!(grid.can_move(&b, Direction::Right));
    grid.set(24, 17, Some(Color::Blue));
    assert!(!grid.can_move(&b, Direction::Right));
}

#[test]
fn pixel_colors_match_the_palette() {
    assert_eq!(Color::Red.pixel_color(), [204, 0, 0, 255]);
    assert_eq!(Color::Yellow.pixel_color(), [241, 194, 50, 255]);
    assert_eq!(Color::Blue.pixel_color(), [61, 133, 198, 255]);
    assert_eq!(Color::Green.pixel_color(), [106, 168, 79, 255]);
}

#[test]
fn scale_subpixel_interpolates_between_text_and_background() {
    assert_eq!(scale_subpixel(255, 0, 0), 255);
    assert_eq!(scale_subpixel(255, 0, 255), 0);
    assert_eq!(scale_subpixel(0, 255, 255), 255);
    assert_eq!(
        scale_subpixel(100, 200, 128),
        ((100u32 * 127 + 200 * 128) / 255) as u8
    );
}

#[test]
fn toggle_pause_flips_between_playing_and_paused() {
    assert_eq!(PlayMode::Playing.toggle_pause(), PlayMode::Paused);
    assert_eq!(PlayMode::Paused.toggle_pause(), PlayMode::Playing);
    assert_eq!(PlayMode::GameOver.toggle_pause(), PlayMode::GameOver);
}
