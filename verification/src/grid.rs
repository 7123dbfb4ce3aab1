//! The mutable 2D cell store: a fixed-size board of cells, each empty or
//! holding one colored grain. Origin is the top-left corner, `x` grows
//! rightward, `y` grows downward, so `y = height - 1` is the floor.

use vstd::prelude::*;

verus! {

use crate::constants::Color;

/// Number of occupied cells in a run of cells.
pub open spec fn count_grains(s: Seq<Option<Color>>) -> int
    decreases s.len(),
{
    if s.len() == 0 {
        0
    } else {
        count_grains(s.drop_last()) + if s.last() is Some {
            1int
        } else {
            0int
        }
    }
}

/// Number of cells holding a grain of color `c` in a run of cells.
pub open spec fn count_of_color(s: Seq<Option<Color>>, c: Color) -> int
    decreases s.len(),
{
    if s.len() == 0 {
        0
    } else {
        count_of_color(s.drop_last(), c) + if s.last() == Some(c) {
            1int
        } else {
            0int
        }
    }
}

/// Appending one cell raises each count by that cell's contribution.
pub proof fn lemma_count_push(s: Seq<Option<Color>>, v: Option<Color>)
    ensures
        count_grains(s.push(v)) == count_grains(s) + if v is Some {
            1int
        } else {
            0int
        },
        forall|c: Color|
            count_of_color(s.push(v), c) == count_of_color(s, c) + if v == Some(c) {
                1int
            } else {
                0int
            },
{
    assert(s.push(v).drop_last() =~= s);
}

/// Overwriting one cell shifts each count by the difference of the new and
/// old cells' contributions.
pub proof fn lemma_count_update(s: Seq<Option<Color>>, i: int, v: Option<Color>)
    requires
        0 <= i < s.len(),
    ensures
        count_grains(s.update(i, v)) == count_grains(s) + (if v is Some {
            1int
        } else {
            0int
        }) - (if s[i] is Some {
            1int
        } else {
            0int
        }),
        forall|c: Color|
            count_of_color(s.update(i, v), c) == count_of_color(s, c) + (if v == Some(c) {
                1int
            } else {
                0int
            }) - (if s[i] == Some(c) {
                1int
            } else {
                0int
            }),
    decreases s.len(),
{
    if i == s.len() - 1 {
        assert(s.update(i, v).drop_last() =~= s.drop_last());
        assert(s.update(i, v).last() == v);
        assert forall|c: Color|
            count_of_color(s.update(i, v), c) == count_of_color(s, c) + (if v == Some(c) {
                1int
            } else {
                0int
            }) - (if s[i] == Some(c) {
                1int
            } else {
                0int
            }) by {
            assert(count_of_color(s.update(i, v), c) == count_of_color(s.drop_last(), c) + if v
                == Some(c) {
                1int
            } else {
                0int
            });
            assert(count_of_color(s, c) == count_of_color(s.drop_last(), c) + if s.last() == Some(
                c,
            ) {
                1int
            } else {
                0int
            });
        }
    } else {
        assert(s.update(i, v).drop_last() =~= s.drop_last().update(i, v));
        assert(s.update(i, v).last() == s.last());
        lemma_count_update(s.drop_last(), i, v);
        assert(s.drop_last()[i] == s[i]);
        assert forall|c: Color|
            count_of_color(s.update(i, v), c) == count_of_color(s, c) + (if v == Some(c) {
                1int
            } else {
                0int
            }) - (if s[i] == Some(c) {
                1int
            } else {
                0int
            }) by {
            assert(count_of_color(s.drop_last().update(i, v), c) == count_of_color(
                s.drop_last(),
                c,
            ) + (if v == Some(c) {
                1int
            } else {
                0int
            }) - (if s.drop_last()[i] == Some(c) {
                1int
            } else {
                0int
            }));
            assert(count_of_color(s.update(i, v), c) == count_of_color(
                s.drop_last().update(i, v),
                c,
            ) + if s.last() == Some(c) {
                1int
            } else {
                0int
            });
            assert(count_of_color(s, c) == count_of_color(s.drop_last(), c) + if s.last() == Some(
                c,
            ) {
                1int
            } else {
                0int
            });
        }
    }
}

/// A flat index into a `width * height` cell store stays in range.
pub proof fn lemma_flat_index_bounds(x: int, y: int, width: int, height: int)
    requires
        0 <= x < width,
        0 <= y < height,
    ensures
        0 <= y * width + x < width * height,
{
    assert(0 <= y * width + x < width * height) by (nonlinear_arith)
        requires
            0 <= x < width,
            0 <= y < height,
    ;
}

/// Two distinct in-bounds cells have distinct flat indices.
pub proof fn lemma_flat_index_injective(x1: int, y1: int, x2: int, y2: int, width: int)
    requires
        0 <= x1 < width,
        0 <= x2 < width,
        0 <= y1,
        0 <= y2,
        y1 * width + x1 == y2 * width + x2,
    ensures
        x1 == x2 && y1 == y2,
{
    assert(x1 == x2 && y1 == y2) by (nonlinear_arith)
        requires
            0 <= x1 < width,
            0 <= x2 < width,
            0 <= y1,
            0 <= y2,
            y1 * width + x1 == y2 * width + x2,
    ;
}

/// The board: a fixed-size `width * height` array of cells. Dimensions are
/// immutable after creation; physics borrows it mutably, connectivity
/// immutably, never concurrently.
pub struct Grid {
    width: usize,
    height: usize,
    cells: Vec<Option<Color>>,
}

impl Grid {
    /// Board width in sand cells.
    pub closed spec fn spec_width(self) -> int {
        self.width as int
    }

    /// Board height in sand cells.
    pub closed spec fn spec_height(self) -> int {
        self.height as int
    }

    /// The cell store holds exactly one cell per board position.
    pub closed spec fn wf(self) -> bool {
        self.cells@.len() == self.spec_width() * self.spec_height()
    }

    /// `(x, y)` names a cell of the board.
    pub open spec fn in_bounds(self, x: int, y: int) -> bool {
        0 <= x < self.spec_width() && 0 <= y < self.spec_height()
    }

    /// Contents of the cell at `(x, y)`.
    pub closed spec fn at(self, x: int, y: int) -> Option<Color> {
        self.cells@[y * self.spec_width() + x]
    }

    /// The cell at `(x, y)` holds a grain.
    pub open spec fn occupied(self, x: int, y: int) -> bool {
        self.at(x, y) is Some
    }

    /// Total number of grains on the board.
    pub closed spec fn grain_count(self) -> int {
        count_grains(self.cells@)
    }

    /// Number of grains of color `c` on the board.
    pub closed spec fn color_count(self, c: Color) -> int {
        count_of_color(self.cells@, c)
    }

    /// An empty board of the given dimensions.
    pub fn new(width: usize, height: usize) -> (r: Grid)
        requires
            width * height <= usize::MAX,
        ensures
            r.wf(),
            r.spec_width() == width,
            r.spec_height() == height,
            forall|x: int, y: int| r.in_bounds(x, y) ==> r.at(x, y) is None,
            r.grain_count() == 0,
            forall|c: Color| r.color_count(c) == 0,
    {
        let n = width * height;
        let mut cells: Vec<Option<Color>> = Vec::new();
        let mut i: usize = 0;
        while i < n
            invariant
                i <= n,
                cells@.len() == i,
                forall|j: int| 0 <= j < i ==> cells@[j] is None,
                count_grains(cells@) == 0,
                forall|c: Color| count_of_color(cells@, c) == 0,
            decreases n - i,
        {
            proof {
                lemma_count_push(cells@, None);
            }
            cells.push(None);
            i = i + 1;
        }
        let r = Grid { width, height, cells };
        proof {
            assert forall|x: int, y: int| r.in_bounds(x, y) implies r.at(x, y) is None by {
                lemma_flat_index_bounds(x, y, r.spec_width(), r.spec_height());
            }
        }
        r
    }

    /// Board width in sand cells.
    pub fn width(&self) -> (r: usize)
        ensures
            r == self.spec_width(),
    {
        self.width
    }

    /// Board height in sand cells.
    pub fn height(&self) -> (r: usize)
        ensures
            r == self.spec_height(),
    {
        self.height
    }

    /// Number of cells of the board; it fits the machine word.
    pub fn area(&self) -> (r: usize)
        requires
            self.wf(),
        ensures
            r == self.spec_width() * self.spec_height(),
    {
        self.cells.len()
    }

    /// Read the cell at `(x, y)`.
    pub fn get(&self, x: usize, y: usize) -> (r: Option<Color>)
        requires
            self.wf(),
            self.in_bounds(x as int, y as int),
        ensures
            r == self.at(x as int, y as int),
    {
        proof {
            lemma_flat_index_bounds(x as int, y as int, self.spec_width(), self.spec_height());
        }
        let n = self.cells.len();
        assert(y * self.spec_width() + x < n);
        self.cells[y * self.width + x]
    }

    /// Overwrite the cell at `(x, y)`; every other cell keeps its contents,
    /// and the grain counts shift by the one cell's change.
    pub fn set(&mut self, x: usize, y: usize, v: Option<Color>)
        requires
            old(self).wf(),
            old(self).in_bounds(x as int, y as int),
        ensures
            final(self).wf(),
            final(self).spec_width() == old(self).spec_width(),
            final(self).spec_height() == old(self).spec_height(),
            final(self).at(x as int, y as int) == v,
            forall|i: int, j: int|
                old(self).in_bounds(i, j) && (i != x || j != y) ==> final(self).at(i, j) == old(
                    self,
                ).at(i, j),
            final(self).grain_count() == old(self).grain_count() + (if v is Some {
                1int
            } else {
                0int
            }) - (if old(self).at(x as int, y as int) is Some {
                1int
            } else {
                0int
            }),
            forall|c: Color|
                final(self).color_count(c) == old(self).color_count(c) + (if v == Some(c) {
                    1int
                } else {
                    0int
                }) - (if old(self).at(x as int, y as int) == Some(c) {
                    1int
                } else {
                    0int
                }),
    {
        proof {
            lemma_flat_index_bounds(x as int, y as int, self.spec_width(), self.spec_height());
            lemma_count_update(self.cells@, y as int * self.spec_width() + x as int, v);
        }
        let n = self.cells.len();
        assert(y * self.spec_width() + x < n);
        let idx = y * self.width + x;
        self.cells.set(idx, v);
        proof {
            assert forall|i: int, j: int|
                old(self).in_bounds(i, j) && (i != x || j != y) implies self.at(i, j) == old(
                self,
            ).at(i, j) by {
                lemma_flat_index_bounds(i, j, old(self).spec_width(), old(self).spec_height());
                if j * old(self).spec_width() + i == y * old(self).spec_width() + x {
                    lemma_flat_index_injective(i, j, x as int, y as int, old(self).spec_width());
                }
            }
        }
    }
}

} // verus!
