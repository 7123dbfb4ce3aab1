//! The falling piece: a tetromino with a position and a color, and the two
//! operations the piece controller performs on the grid — testing whether
//! the piece can shift one sand cell in a direction, and stamping its blocks
//! into the grid as settled sand.

use vstd::prelude::*;

verus! {

use crate::constants::{Color, Direction, Shape, SAND_BLOCK_SIZE};
use crate::grid::Grid;

/// A falling tetromino: the sand-cell position of its top-left corner, its
/// shape and its color.
#[derive(Debug, Clone, Copy, PartialEq, Eq, Structural)]
pub struct Block {
    pub x: usize,
    pub y: usize,
    pub shape: Shape,
    pub color: Color,
}

/// Every block cell of a shape lies inside the shape's bounding box, and
/// every shape is made of exactly four blocks.
pub proof fn lemma_block_cells_bounds(s: Shape)
    ensures
        s.block_cells().len() == 4,
        forall|i: int|
            0 <= i < s.block_cells().len() ==> 0 <= (#[trigger] s.block_cells()[i]).0
                < s.spec_width() && 0 <= s.block_cells()[i].1 < s.spec_height(),
{
    assert forall|i: int|
        0 <= i < s.block_cells().len() implies 0 <= (#[trigger] s.block_cells()[i]).0
        < s.spec_width() && 0 <= s.block_cells()[i].1 < s.spec_height() by {
        match s {
            Shape::T => {
                assert(i == 0 || i == 1 || i == 2 || i == 3);
            },
            Shape::S => {
                assert(i == 0 || i == 1 || i == 2 || i == 3);
            },
            Shape::Z => {
                assert(i == 0 || i == 1 || i == 2 || i == 3);
            },
            Shape::I => {
                assert(i == 0 || i == 1 || i == 2 || i == 3);
            },
            Shape::O => {
                assert(i == 0 || i == 1 || i == 2 || i == 3);
            },
        }
    }
}

/// The block lies fully on the board.
pub open spec fn block_in_grid(g: Grid, b: Block) -> bool {
    &&& b.x + b.shape.spec_width() * SAND_BLOCK_SIZE <= g.spec_width()
    &&& b.y + b.shape.spec_height() * SAND_BLOCK_SIZE <= g.spec_height()
}

/// The sand cell `(cx, cy)` lies inside one of the block's stamped regions.
pub open spec fn block_covers(b: Block, cx: int, cy: int) -> bool {
    exists|i: int|
        0 <= i < b.shape.block_cells().len() && b.x + (#[trigger] b.shape.block_cells()[i]).0
            * SAND_BLOCK_SIZE <= cx && cx < b.x + b.shape.block_cells()[i].0 * SAND_BLOCK_SIZE
            + SAND_BLOCK_SIZE && b.y + b.shape.block_cells()[i].1 * SAND_BLOCK_SIZE <= cy && cy
            < b.y + b.shape.block_cells()[i].1 * SAND_BLOCK_SIZE + SAND_BLOCK_SIZE
}

impl Block {
    /// The same block moved to `(x, y)`.
    pub fn with_pos(self, x: usize, y: usize) -> (r: Block)
        ensures
            r == (Block { x, y, ..self }),
    {
        Block { x, y, ..self }
    }

    /// One sand cell to the right.
    pub fn inc_x(self) -> (r: Block)
        requires
            self.x < usize::MAX,
        ensures
            r == (Block { x: (self.x + 1) as usize, ..self }),
    {
        Block { x: self.x + 1, ..self }
    }

    /// One sand cell to the left.
    pub fn dec_x(self) -> (r: Block)
        requires
            self.x > 0,
        ensures
            r == (Block { x: (self.x - 1) as usize, ..self }),
    {
        Block { x: self.x - 1, ..self }
    }

    /// One sand cell down.
    pub fn inc_y(self) -> (r: Block)
        requires
            self.y < usize::MAX,
        ensures
            r == (Block { y: (self.y + 1) as usize, ..self }),
    {
        Block { y: self.y + 1, ..self }
    }

    /// Sand-cell coordinates of the top-left corners of the block's four
    /// stamped regions.
    pub fn coords(&self) -> (r: Vec<(usize, usize)>)
        requires
            self.x + self.shape.spec_width() * SAND_BLOCK_SIZE <= usize::MAX,
            self.y + self.shape.spec_height() * SAND_BLOCK_SIZE <= usize::MAX,
        ensures
            r@.len() == self.shape.block_cells().len(),
            forall|i: int|
                0 <= i < r@.len() ==> r@[i].0 == self.x + self.shape.block_cells()[i].0
                    * SAND_BLOCK_SIZE && r@[i].1 == self.y + self.shape.block_cells()[i].1
                    * SAND_BLOCK_SIZE,
    {
        self.shape.coords(self.x, self.y)
    }

    /// Width of the block, in whole blocks.
    pub fn width(&self) -> (r: usize)
        ensures
            r == self.shape.spec_width(),
    {
        self.shape.width()
    }

    /// Height of the block, in whole blocks.
    pub fn height(&self) -> (r: usize)
        ensures
            r == self.shape.spec_height(),
    {
        self.shape.height()
    }
}

impl Grid {
    /// Stamp the block into the grid: every cell of its four regions takes
    /// the block's color as settled sand; every other cell is untouched.
    #[verifier::loop_isolation(false)]
    pub fn add_sand_block(&mut self, block: &Block)
        requires
            old(self).wf(),
            block_in_grid(*old(self), *block),
        ensures
            final(self).wf(),
            final(self).spec_width() == old(self).spec_width(),
            final(self).spec_height() == old(self).spec_height(),
            forall|cx: int, cy: int|
                old(self).in_bounds(cx, cy) ==> final(self).at(cx, cy) == (if block_covers(
                    *block,
                    cx,
                    cy,
                ) {
                    Some(block.color)
                } else {
                    old(self).at(cx, cy)
                }),
    {
        proof {
            lemma_block_cells_bounds(block.shape);
        }
        let gw = self.width();
        let gh = self.height();
        proof {
            assert(block.x + block.shape.spec_width() * SAND_BLOCK_SIZE <= gw);
            assert(block.y + block.shape.spec_height() * SAND_BLOCK_SIZE <= gh);
        }
        let coords = block.coords();
        let ghost g0 = *self;
        let mut i: usize = 0;
        while i < coords.len()
            invariant
                self.wf(),
                self.spec_width() == g0.spec_width(),
                self.spec_height() == g0.spec_height(),
                g0.wf(),
                block_in_grid(g0, *block),
                i <= coords@.len(),
                coords@.len() == block.shape.block_cells().len(),
                block.shape.block_cells().len() == 4,
                forall|k: int|
                    0 <= k < coords@.len() ==> (#[trigger] coords@[k]).0 == block.x
                        + block.shape.block_cells()[k].0 * SAND_BLOCK_SIZE && coords@[k].1
                        == block.y + block.shape.block_cells()[k].1 * SAND_BLOCK_SIZE,
                forall|k: int|
                    0 <= k < coords@.len() ==> 0 <= (#[trigger] block.shape.block_cells()[k]).0
                        < block.shape.spec_width() && 0 <= block.shape.block_cells()[k].1
                        < block.shape.spec_height(),
                forall|cx: int, cy: int|
                    g0.in_bounds(cx, cy) ==> self.at(cx, cy) == (if covers_upto(
                        *block,
                        i as int,
                        cx,
                        cy,
                    ) {
                        Some(block.color)
                    } else {
                        g0.at(cx, cy)
                    }),
            decreases coords@.len() - i,
        {
            let p = coords[i];
            let px = p.0;
            let py = p.1;
            let mut dx: usize = 0;
            while dx < SAND_BLOCK_SIZE
                invariant
                    self.wf(),
                    self.spec_width() == g0.spec_width(),
                    self.spec_height() == g0.spec_height(),
                    g0.wf(),
                    block_in_grid(g0, *block),
                    i < coords@.len(),
                    coords@.len() == block.shape.block_cells().len(),
                    block.shape.block_cells().len() == 4,
                    forall|k: int|
                        0 <= k < coords@.len() ==> (#[trigger] coords@[k]).0 == block.x
                            + block.shape.block_cells()[k].0 * SAND_BLOCK_SIZE && coords@[k].1
                            == block.y + block.shape.block_cells()[k].1 * SAND_BLOCK_SIZE,
                    forall|k: int|
                        0 <= k < coords@.len() ==> 0 <= (#[trigger] block.shape.block_cells()[k]).0
                            < block.shape.spec_width() && 0 <= block.shape.block_cells()[k].1
                            < block.shape.spec_height(),
                    px == coords@[i as int].0,
                    py == coords@[i as int].1,
                    dx <= SAND_BLOCK_SIZE,
                    forall|cx: int, cy: int|
                        g0.in_bounds(cx, cy) ==> self.at(cx, cy) == (if covers_upto(
                            *block,
                            i as int,
                            cx,
                            cy,
                        ) || (px <= cx < px + dx && py <= cy < py + SAND_BLOCK_SIZE) {
                            Some(block.color)
                        } else {
                            g0.at(cx, cy)
                        }),
                decreases SAND_BLOCK_SIZE - dx,
            {
                let mut dy: usize = 0;
                while dy < SAND_BLOCK_SIZE
                    invariant
                        self.wf(),
                        self.spec_width() == g0.spec_width(),
                        self.spec_height() == g0.spec_height(),
                        g0.wf(),
                        block_in_grid(g0, *block),
                        i < coords@.len(),
                        coords@.len() == block.shape.block_cells().len(),
                        block.shape.block_cells().len() == 4,
                        forall|k: int|
                            0 <= k < coords@.len() ==> (#[trigger] coords@[k]).0 == block.x
                                + block.shape.block_cells()[k].0 * SAND_BLOCK_SIZE && coords@[k].1
                                == block.y + block.shape.block_cells()[k].1 * SAND_BLOCK_SIZE,
                        forall|k: int|
                            0 <= k < coords@.len() ==> 0 <= (
                            #[trigger] block.shape.block_cells()[k]).0 < block.shape.spec_width()
                                && 0 <= block.shape.block_cells()[k].1
                                < block.shape.spec_height(),
                        px == coords@[i as int].0,
                        py == coords@[i as int].1,
                        dx < SAND_BLOCK_SIZE,
                        dy <= SAND_BLOCK_SIZE,
                        forall|cx: int, cy: int|
                            g0.in_bounds(cx, cy) ==> self.at(cx, cy) == (if covers_upto(
                                *block,
                                i as int,
                                cx,
                                cy,
                            ) || (px <= cx < px + dx && py <= cy < py + SAND_BLOCK_SIZE) || (cx
                                == px + dx && py <= cy < py + dy) {
                                Some(block.color)
                            } else {
                                g0.at(cx, cy)
                            }),
                    decreases SAND_BLOCK_SIZE - dy,
                {
                    proof {
                        assert(block.x + block.shape.block_cells()[i as int].0 * SAND_BLOCK_SIZE
                            + SAND_BLOCK_SIZE <= g0.spec_width()) by (nonlinear_arith)
                            requires
                                0 <= block.shape.block_cells()[i as int].0
                                    < block.shape.spec_width(),
                                block.x + block.shape.spec_width() * SAND_BLOCK_SIZE
                                    <= g0.spec_width(),
                        ;
                        assert(block.y + block.shape.block_cells()[i as int].1 * SAND_BLOCK_SIZE
                            + SAND_BLOCK_SIZE <= g0.spec_height()) by (nonlinear_arith)
                            requires
                                0 <= block.shape.block_cells()[i as int].1
                                    < block.shape.spec_height(),
                                block.y + block.shape.spec_height() * SAND_BLOCK_SIZE
                                    <= g0.spec_height(),
                        ;
                    }
                    self.set(px + dx, py + dy, Some(block.color));
                    dy = dy + 1;
                }
                dx = dx + 1;
            }
            proof {
                assert forall|cx: int, cy: int| g0.in_bounds(cx, cy) implies self.at(cx, cy) == (
                if covers_upto(*block, i + 1, cx, cy) {
                    Some(block.color)
                } else {
                    g0.at(cx, cy)
                }) by {
                    if covers_upto(*block, i + 1, cx, cy) && !covers_upto(*block, i as int, cx, cy)
                        && !(px <= cx < px + SAND_BLOCK_SIZE && py <= cy < py
                        + SAND_BLOCK_SIZE) {
                        let k = choose|k: int|
                            0 <= k < i + 1 && k < block.shape.block_cells().len() && block.x + (
                            #[trigger] block.shape.block_cells()[k]).0
                                * SAND_BLOCK_SIZE <= cx && cx < block.x
                                + block.shape.block_cells()[k].0 * SAND_BLOCK_SIZE
                                + SAND_BLOCK_SIZE && block.y + block.shape.block_cells()[k].1
                                * SAND_BLOCK_SIZE <= cy && cy < block.y
                                + block.shape.block_cells()[k].1 * SAND_BLOCK_SIZE
                                + SAND_BLOCK_SIZE;
                        assert(k == i as int);
                        assert(false);
                    }
                    if covers_upto(*block, i as int, cx, cy) {
                        assert(covers_upto(*block, i + 1, cx, cy));
                    }
                    if px <= cx < px + SAND_BLOCK_SIZE && py <= cy < py + SAND_BLOCK_SIZE {
                        assert(covers_upto(*block, i + 1, cx, cy));
                    }
                }
            }
            i = i + 1;
        }
        proof {
            assert forall|cx: int, cy: int| g0.in_bounds(cx, cy) implies self.at(cx, cy) == (
            if block_covers(*block, cx, cy) {
                Some(block.color)
            } else {
                g0.at(cx, cy)
            }) by {
                assert(covers_upto(*block, 4, cx, cy) == block_covers(*block, cx, cy));
            }
        }
    }

    /// All `SAND_BLOCK_SIZE` cells of the column strip below `(cx, cy0)`
    /// are empty.
    #[verifier::loop_isolation(false)]
    fn column_clear(&self, cx: usize, cy0: usize) -> (r: bool)
        requires
            self.wf(),
            cx < self.spec_width(),
            cy0 + SAND_BLOCK_SIZE <= self.spec_height(),
        ensures
            r == (forall|cy: int| cy0 <= cy < cy0 + SAND_BLOCK_SIZE ==> self.at(cx as int, cy)
                is None),
    {
        let gh = self.height();
        proof {
            assert(cy0 + SAND_BLOCK_SIZE <= gh);
        }
        let mut dy: usize = 0;
        while dy < SAND_BLOCK_SIZE
            invariant
                dy <= SAND_BLOCK_SIZE,
                forall|cy: int| cy0 <= cy < cy0 + dy ==> self.at(cx as int, cy) is None,
            decreases SAND_BLOCK_SIZE - dy,
        {
            if self.get(cx, cy0 + dy).is_some() {
                return false;
            }
            dy = dy + 1;
        }
        true
    }

    /// All `SAND_BLOCK_SIZE` cells of the row strip right of `(cx0, cy)`
    /// are empty.
    #[verifier::loop_isolation(false)]
    fn row_clear(&self, cx0: usize, cy: usize) -> (r: bool)
        requires
            self.wf(),
            cx0 + SAND_BLOCK_SIZE <= self.spec_width(),
            cy < self.spec_height(),
        ensures
            r == (forall|cx: int| cx0 <= cx < cx0 + SAND_BLOCK_SIZE ==> self.at(cx, cy as int)
                is None),
    {
        let gw = self.width();
        proof {
            assert(cx0 + SAND_BLOCK_SIZE <= gw);
        }
        let mut dx: usize = 0;
        while dx < SAND_BLOCK_SIZE
            invariant
                dx <= SAND_BLOCK_SIZE,
                forall|cx: int| cx0 <= cx < cx0 + dx ==> self.at(cx, cy as int) is None,
            decreases SAND_BLOCK_SIZE - dx,
        {
            if self.get(cx0 + dx, cy).is_some() {
                return false;
            }
            dx = dx + 1;
        }
        true
    }

    /// Whether the falling piece can shift one sand cell in `direction`:
    /// the bound check of the board edge, then one probe strip per stamped
    /// region — a column left or right of it, or a row below it — all of
    /// which must be empty.
    #[verifier::loop_isolation(false)]
    pub fn can_move(&self, block: &Block, direction: Direction) -> (r: bool)
        requires
            self.wf(),
            block_in_grid(*self, *block),
        ensures
            r == can_move_spec(*self, *block, direction),
    {
        proof {
            lemma_block_cells_bounds(block.shape);
        }
        let gw = self.width();
        let gh = self.height();
        match direction {
            Direction::Left => {
                if block.x == 0 {
                    return false;
                }
            },
            Direction::Right => {
                if block.x + block.width() * SAND_BLOCK_SIZE >= gw {
                    return false;
                }
            },
            Direction::Down => {
                if block.y + block.height() * SAND_BLOCK_SIZE >= gh {
                    return false;
                }
            },
        }
        let coords = block.coords();
        let mut i: usize = 0;
        while i < coords.len()
            invariant
                i <= coords@.len(),
                forall|cx: int, cy: int|
                    #[trigger] probe_upto(*block, direction, i as int, cx, cy) ==> self.at(cx, cy)
                        is None,
            decreases coords@.len() - i,
        {
            let p = coords[i];
            let px = p.0;
            let py = p.1;
            proof {
                assert(block.x + block.shape.block_cells()[i as int].0 * SAND_BLOCK_SIZE
                    + SAND_BLOCK_SIZE <= gw) by (nonlinear_arith)
                    requires
                        0 <= block.shape.block_cells()[i as int].0 < block.shape.spec_width(),
                        block.x + block.shape.spec_width() * SAND_BLOCK_SIZE <= gw,
                ;
                assert(block.y + block.shape.block_cells()[i as int].1 * SAND_BLOCK_SIZE
                    + SAND_BLOCK_SIZE <= gh) by (nonlinear_arith)
                    requires
                        0 <= block.shape.block_cells()[i as int].1 < block.shape.spec_height(),
                        block.y + block.shape.spec_height() * SAND_BLOCK_SIZE <= gh,
                ;
            }
            let clear: bool;
            let probe_x: usize;
            let probe_y: usize;
            match direction {
                Direction::Left => {
                    proof {
                        assert(px >= block.x) by (nonlinear_arith)
                            requires
                                px == block.x + block.shape.block_cells()[i as int].0
                                    * SAND_BLOCK_SIZE,
                                block.shape.block_cells()[i as int].0 >= 0,
                                SAND_BLOCK_SIZE > 0,
                        ;
                    }
                    probe_x = px - 1;
                    probe_y = py;
                    clear = self.column_clear(probe_x, probe_y);
                },
                Direction::Right => {
                    proof {
                        assert(px + SAND_BLOCK_SIZE < gw) by (nonlinear_arith)
                            requires
                                px == block.x + block.shape.block_cells()[i as int].0
                                    * SAND_BLOCK_SIZE,
                                block.shape.block_cells()[i as int].0
                                    < block.shape.spec_width(),
                                block.x + block.shape.spec_width() * SAND_BLOCK_SIZE < gw,
                                SAND_BLOCK_SIZE > 0,
                        ;
                    }
                    probe_x = px + SAND_BLOCK_SIZE;
                    probe_y = py;
                    clear = self.column_clear(probe_x, probe_y);
                },
                Direction::Down => {
                    proof {
                        assert(py + SAND_BLOCK_SIZE < gh) by (nonlinear_arith)
                            requires
                                py == block.y + block.shape.block_cells()[i as int].1
                                    * SAND_BLOCK_SIZE,
                                block.shape.block_cells()[i as int].1
                                    < block.shape.spec_height(),
                                block.y + block.shape.spec_height() * SAND_BLOCK_SIZE < gh,
                                SAND_BLOCK_SIZE > 0,
                        ;
                    }
                    probe_x = px;
                    probe_y = py + SAND_BLOCK_SIZE;
                    clear = self.row_clear(probe_x, probe_y);
                },
            }
            if !clear {
                proof {
                    match direction {
                        Direction::Left => {
                            let cy = choose|cy: int|
                                probe_y <= cy < probe_y + SAND_BLOCK_SIZE && !((#[trigger] self.at(
                                    probe_x as int,
                                    cy,
                                )) is None);
                            assert(probe_x as int == block.x
                                + block.shape.block_cells()[i as int].0 * SAND_BLOCK_SIZE - 1);
                            assert(left_probe(*block, probe_x as int, cy));
                        },
                        Direction::Right => {
                            let cy = choose|cy: int|
                                probe_y <= cy < probe_y + SAND_BLOCK_SIZE && !((#[trigger] self.at(
                                    probe_x as int,
                                    cy,
                                )) is None);
                            assert(probe_x as int == block.x
                                + block.shape.block_cells()[i as int].0 * SAND_BLOCK_SIZE
                                + SAND_BLOCK_SIZE);
                            assert(right_probe(*block, probe_x as int, cy));
                        },
                        Direction::Down => {
                            let cx = choose|cx: int|
                                probe_x <= cx < probe_x + SAND_BLOCK_SIZE && !((#[trigger] self.at(
                                    cx,
                                    probe_y as int,
                                )) is None);
                            assert(probe_y as int == block.y
                                + block.shape.block_cells()[i as int].1 * SAND_BLOCK_SIZE
                                + SAND_BLOCK_SIZE);
                            assert(down_probe(*block, cx, probe_y as int));
                        },
                    }
                }
                return false;
            }
            proof {
                assert forall|cx: int, cy: int|
                    #[trigger] probe_upto(*block, direction, i + 1, cx, cy) implies self.at(
                    cx,
                    cy,
                ) is None by {
                    match direction {
                        Direction::Left => {
                            if left_probe_upto(*block, i as int, cx, cy) {
                                assert(probe_upto(*block, direction, i as int, cx, cy));
                            } else {
                                let k = choose|k: int|
                                    0 <= k < i + 1 && k < block.shape.block_cells().len() && cx
                                        == block.x + (#[trigger] block.shape.block_cells()[k]).0
                                        * SAND_BLOCK_SIZE - 1 && block.y
                                        + block.shape.block_cells()[k].1 * SAND_BLOCK_SIZE <= cy
                                        && cy < block.y + block.shape.block_cells()[k].1
                                        * SAND_BLOCK_SIZE + SAND_BLOCK_SIZE;
                                assert(k == i as int);
                                assert(cx == probe_x as int);
                                assert(probe_y <= cy < probe_y + SAND_BLOCK_SIZE);
                                assert(self.at(probe_x as int, cy) is None);
                            }
                        },
                        Direction::Right => {
                            if right_probe_upto(*block, i as int, cx, cy) {
                                assert(probe_upto(*block, direction, i as int, cx, cy));
                            } else {
                                let k = choose|k: int|
                                    0 <= k < i + 1 && k < block.shape.block_cells().len() && cx
                                        == block.x + (#[trigger] block.shape.block_cells()[k]).0
                                        * SAND_BLOCK_SIZE + SAND_BLOCK_SIZE && block.y
                                        + block.shape.block_cells()[k].1 * SAND_BLOCK_SIZE <= cy
                                        && cy < block.y + block.shape.block_cells()[k].1
                                        * SAND_BLOCK_SIZE + SAND_BLOCK_SIZE;
                                assert(k == i as int);
                                assert(cx == probe_x as int);
                                assert(probe_y <= cy < probe_y + SAND_BLOCK_SIZE);
                                assert(self.at(probe_x as int, cy) is None);
                            }
                        },
                        Direction::Down => {
                            if down_probe_upto(*block, i as int, cx, cy) {
                                assert(probe_upto(*block, direction, i as int, cx, cy));
                            } else {
                                let k = choose|k: int|
                                    0 <= k < i + 1 && k < block.shape.block_cells().len()
                                        && block.x + (#[trigger] block.shape.block_cells()[k]).0
                                        * SAND_BLOCK_SIZE <= cx && cx < block.x
                                        + block.shape.block_cells()[k].0 * SAND_BLOCK_SIZE
                                        + SAND_BLOCK_SIZE && cy == block.y
                                        + block.shape.block_cells()[k].1 * SAND_BLOCK_SIZE
                                        + SAND_BLOCK_SIZE;
                                assert(k == i as int);
                                assert(cy == probe_y as int);
                                assert(probe_x <= cx < probe_x + SAND_BLOCK_SIZE);
                                assert(self.at(cx, probe_y as int) is None);
                            }
                        },
                    }
                }
            }
            i = i + 1;
        }
        proof {
            let n = block.shape.block_cells().len() as int;
            assert forall|cx: int, cy: int|
                #[trigger] probe_upto(*block, direction, n, cx, cy) implies self.at(cx, cy)
                is None by {}
            match direction {
                Direction::Left => {
                    assert forall|cx: int, cy: int| #[trigger] left_probe(*block, cx, cy) implies
                        self.at(cx, cy) is None by {
                        assert(probe_upto(*block, direction, n, cx, cy));
                    }
                },
                Direction::Right => {
                    assert forall|cx: int, cy: int| #[trigger] right_probe(*block, cx, cy) implies
                        self.at(cx, cy) is None by {
                        assert(probe_upto(*block, direction, n, cx, cy));
                    }
                },
                Direction::Down => {
                    assert forall|cx: int, cy: int| #[trigger] down_probe(*block, cx, cy) implies
                        self.at(cx, cy) is None by {
                        assert(probe_upto(*block, direction, n, cx, cy));
                    }
                },
            }
        }
        true
    }
}

/// `(cx, cy)` lies on the one-cell strip left of one of the block's first
/// `n` regions: the cells that must be empty for a move to the left.
pub open spec fn left_probe_upto(b: Block, n: int, cx: int, cy: int) -> bool {
    exists|i: int|
        0 <= i < n && i < b.shape.block_cells().len() && cx == b.x
            + (#[trigger] b.shape.block_cells()[i]).0 * SAND_BLOCK_SIZE - 1 && b.y
            + b.shape.block_cells()[i].1 * SAND_BLOCK_SIZE <= cy && cy < b.y
            + b.shape.block_cells()[i].1 * SAND_BLOCK_SIZE + SAND_BLOCK_SIZE
}

/// The cells that must be empty for a move to the left.
pub open spec fn left_probe(b: Block, cx: int, cy: int) -> bool {
    left_probe_upto(b, b.shape.block_cells().len() as int, cx, cy)
}

/// `(cx, cy)` lies on the one-cell strip right of one of the block's first
/// `n` regions: the cells that must be empty for a move to the right.
pub open spec fn right_probe_upto(b: Block, n: int, cx: int, cy: int) -> bool {
    exists|i: int|
        0 <= i < n && i < b.shape.block_cells().len() && cx == b.x
            + (#[trigger] b.shape.block_cells()[i]).0 * SAND_BLOCK_SIZE + SAND_BLOCK_SIZE && b.y
            + b.shape.block_cells()[i].1 * SAND_BLOCK_SIZE <= cy && cy < b.y
            + b.shape.block_cells()[i].1 * SAND_BLOCK_SIZE + SAND_BLOCK_SIZE
}

/// The cells that must be empty for a move to the right.
pub open spec fn right_probe(b: Block, cx: int, cy: int) -> bool {
    right_probe_upto(b, b.shape.block_cells().len() as int, cx, cy)
}

/// `(cx, cy)` lies on the one-cell strip below one of the block's first `n`
/// regions: the cells that must be empty for a move down.
pub open spec fn down_probe_upto(b: Block, n: int, cx: int, cy: int) -> bool {
    exists|i: int|
        0 <= i < n && i < b.shape.block_cells().len() && b.x
            + (#[trigger] b.shape.block_cells()[i]).0 * SAND_BLOCK_SIZE <= cx && cx < b.x
            + b.shape.block_cells()[i].0 * SAND_BLOCK_SIZE + SAND_BLOCK_SIZE && cy == b.y
            + b.shape.block_cells()[i].1 * SAND_BLOCK_SIZE + SAND_BLOCK_SIZE
}

/// The cells that must be empty for a move down.
pub open spec fn down_probe(b: Block, cx: int, cy: int) -> bool {
    down_probe_upto(b, b.shape.block_cells().len() as int, cx, cy)
}

/// The probe strip of the first `n` regions for a move in direction `d`.
pub open spec fn probe_upto(b: Block, d: Direction, n: int, cx: int, cy: int) -> bool {
    match d {
        Direction::Left => left_probe_upto(b, n, cx, cy),
        Direction::Right => right_probe_upto(b, n, cx, cy),
        Direction::Down => down_probe_upto(b, n, cx, cy),
    }
}

/// The piece can shift one sand cell in the given direction: it stays on
/// the board, and every probed cell past its edge is empty.
pub open spec fn can_move_spec(g: Grid, b: Block, d: Direction) -> bool {
    match d {
        Direction::Left => b.x > 0 && (forall|cx: int, cy: int|
            #[trigger] left_probe(b, cx, cy) ==> g.at(cx, cy) is None),
        Direction::Right => b.x + b.shape.spec_width() * SAND_BLOCK_SIZE < g.spec_width() && (
        forall|cx: int, cy: int| #[trigger] right_probe(b, cx, cy) ==> g.at(cx, cy) is None),
        Direction::Down => b.y + b.shape.spec_height() * SAND_BLOCK_SIZE < g.spec_height() && (
        forall|cx: int, cy: int| #[trigger] down_probe(b, cx, cy) ==> g.at(cx, cy) is None),
    }
}

/// The cell `(cx, cy)` lies inside one of the first `n` stamped regions of
/// the block.
pub open spec fn covers_upto(b: Block, n: int, cx: int, cy: int) -> bool {
    exists|i: int|
        0 <= i < n && i < b.shape.block_cells().len() && b.x
            + (#[trigger] b.shape.block_cells()[i]).0 * SAND_BLOCK_SIZE <= cx && cx < b.x
            + b.shape.block_cells()[i].0 * SAND_BLOCK_SIZE + SAND_BLOCK_SIZE && b.y
            + b.shape.block_cells()[i].1 * SAND_BLOCK_SIZE <= cy && cy < b.y
            + b.shape.block_cells()[i].1 * SAND_BLOCK_SIZE + SAND_BLOCK_SIZE
}

} // verus!
