//! The small closed vocabularies of the game — grain colors, per-tick move
//! directions, tetromino shapes — together with the fixed geometry constants
//! and the shape lookup tables, written out as explicit data.

use vstd::prelude::*;

verus! {

/// Side of one tetromino block, in screen pixels.
pub const BLOCK_SIZE: usize = 32;

/// Side of one sand cell, in screen pixels.
pub const SAND_SIZE: usize = 4;

/// Sand cells per tetromino block side.
pub const SAND_BLOCK_SIZE: usize = BLOCK_SIZE / SAND_SIZE;

/// Number of slots in the weighted draw of the generic falling rule: one slot
/// per open diagonal, every other slot falls straight down. A visual-feel
/// tuning knob, not a fairness requirement.
pub const DIAGONAL_SLOTS: usize = 32;

/// Color of one sand grain. A grain carries exactly one of these.
#[derive(Debug, Clone, Copy, PartialEq, Eq, Structural)]
pub enum Color {
    Red,
    Yellow,
    Blue,
    Green,
}

impl Color {
    /// RGBA value that a grain of this color is drawn with.
    pub open spec fn spec_pixel_color(self) -> Seq<u8> {
        match self {
            Color::Red => seq![204u8, 0u8, 0u8, 255u8],
            Color::Yellow => seq![241u8, 194u8, 50u8, 255u8],
            Color::Blue => seq![61u8, 133u8, 198u8, 255u8],
            Color::Green => seq![106u8, 168u8, 79u8, 255u8],
        }
    }

    /// The RGBA bytes of this color.
    pub fn pixel_color(&self) -> (r: [u8; 4])
        ensures
            r@ == self.spec_pixel_color(),
    {
        let r: [u8; 4] = match self {
            Color::Red => [204, 0, 0, 255],
            Color::Yellow => [241, 194, 50, 255],
            Color::Blue => [61, 133, 198, 255],
            Color::Green => [106, 168, 79, 255],
        };
        proof {
            assert(r@ =~= self.spec_pixel_color());
        }
        r
    }
}

/// A grain's intended or resolved move for the current tick.
#[derive(Debug, Clone, Copy, PartialEq, Eq, Structural)]
pub enum Direction {
    Left,
    Right,
    Down,
}

/// The five tetromino shapes a falling piece can take.
#[derive(Debug, Clone, Copy, PartialEq, Eq, Structural)]
pub enum Shape {
    T,
    S,
    Z,
    I,
    O,
}

impl Shape {
    /// The block-unit cells of this shape: offsets (in whole blocks, x
    /// rightward, y downward) of the four blocks the shape is made of,
    /// in a fixed enumeration order.
    pub open spec fn block_cells(self) -> Seq<(int, int)> {
        match self {
            Shape::T => seq![(0int, 1int), (1int, 0int), (1int, 1int), (2int, 1int)],
            Shape::S => seq![(0int, 1int), (1int, 0int), (1int, 1int), (2int, 0int)],
            Shape::Z => seq![(0int, 0int), (1int, 0int), (1int, 1int), (2int, 1int)],
            Shape::I => seq![(0int, 0int), (1int, 0int), (2int, 0int), (3int, 0int)],
            Shape::O => seq![(0int, 0int), (0int, 1int), (1int, 0int), (1int, 1int)],
        }
    }

    /// Width of this shape, in whole blocks.
    pub open spec fn spec_width(self) -> int {
        match self {
            Shape::T => 3,
            Shape::S => 3,
            Shape::Z => 3,
            Shape::I => 4,
            Shape::O => 2,
        }
    }

    /// Height of this shape, in whole blocks.
    pub open spec fn spec_height(self) -> int {
        match self {
            Shape::T => 2,
            Shape::S => 2,
            Shape::Z => 2,
            Shape::I => 1,
            Shape::O => 2,
        }
    }

    /// Width of this shape, in whole blocks.
    pub fn width(&self) -> (r: usize)
        ensures
            r == self.spec_width(),
    {
        match self {
            Shape::T => 3,
            Shape::S => 3,
            Shape::Z => 3,
            Shape::I => 4,
            Shape::O => 2,
        }
    }

    /// Height of this shape, in whole blocks.
    pub fn height(&self) -> (r: usize)
        ensures
            r == self.spec_height(),
    {
        match self {
            Shape::T => 2,
            Shape::S => 2,
            Shape::Z => 2,
            Shape::I => 1,
            Shape::O => 2,
        }
    }

    /// Sand-cell coordinates of the top-left corner of every block of this
    /// shape when the shape's own top-left corner is stamped at `(x, y)`.
    pub fn coords(&self, x: usize, y: usize) -> (r: Vec<(usize, usize)>)
        requires
            x + self.spec_width() * SAND_BLOCK_SIZE <= usize::MAX,
            y + self.spec_height() * SAND_BLOCK_SIZE <= usize::MAX,
        ensures
            r@.len() == self.block_cells().len(),
            forall|i: int|
                0 <= i < r@.len() ==> r@[i].0 == x + self.block_cells()[i].0 * SAND_BLOCK_SIZE
                    && r@[i].1 == y + self.block_cells()[i].1 * SAND_BLOCK_SIZE,
    {
        let s = SAND_BLOCK_SIZE;
        match self {
            Shape::T => vec![(x, y + s), (x + s, y), (x + s, y + s), (x + 2 * s, y + s)],
            Shape::S => vec![(x, y + s), (x + s, y), (x + s, y + s), (x + 2 * s, y)],
            Shape::Z => vec![(x, y), (x + s, y), (x + s, y + s), (x + 2 * s, y + s)],
            Shape::I => vec![(x, y), (x + s, y), (x + 2 * s, y), (x + 3 * s, y)],
            Shape::O => vec![(x, y), (x, y + s), (x + s, y), (x + s, y + s)],
        }
    }
}

/// What the game is currently doing.
#[derive(Debug, Clone, Copy, PartialEq, Eq, Structural)]
pub enum PlayMode {
    Playing,
    Paused,
    GameOver,
}

impl PlayMode {
    /// Flip between playing and paused; a finished game stays finished.
    pub fn toggle_pause(&self) -> (r: PlayMode)
        ensures
            r == (match self {
                PlayMode::Playing => PlayMode::Paused,
                PlayMode::Paused => PlayMode::Playing,
                PlayMode::GameOver => PlayMode::GameOver,
            }),
    {
        match self {
            PlayMode::Playing => PlayMode::Paused,
            PlayMode::Paused => PlayMode::Playing,
            PlayMode::GameOver => PlayMode::GameOver,
        }
    }
}

/// Blend of one subpixel of text color over one subpixel of background color,
/// weighted by the font sprite's gray level: gray 0 gives the text value,
/// gray 255 the background value, with linear interpolation between.
pub fn scale_subpixel(text: u8, background: u8, scale: u8) -> (r: u8)
    ensures
        r == (text * (255 - scale) + background * scale) / 255,
{
    proof {
        assert(text as int * (255 - scale as int) + background as int * (scale as int) <= 255
            * 255) by (nonlinear_arith)
            requires
                text as int <= 255,
                background as int <= 255,
                0 <= scale as int <= 255,
        ;
    }
    let scale16 = scale as u16;
    ((text as u16 * (255 - scale16) + background as u16 * scale16) / 255) as u8
}

} // verus!
