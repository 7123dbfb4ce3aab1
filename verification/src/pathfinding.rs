//! The connectivity engine: pure read-only queries over the settled grid.
//! `find_spanning_group` decides whether a same-colored 4-connected region
//! touches both the leftmost and the rightmost column, and names an entry
//! cell of it in column 0; `find_connected_sand` computes the whole region
//! around a seed cell, for the caller to clear.

use vstd::prelude::*;

verus! {

use crate::constants::Color;
use crate::grid::Grid;

/// The two cells are 4-neighbors.
pub open spec fn adjacent(x1: int, y1: int, x2: int, y2: int) -> bool {
    ||| (x1 == x2 && (y1 == y2 + 1 || y1 == y2 - 1))
    ||| (y1 == y2 && (x1 == x2 + 1 || x1 == x2 - 1))
}

/// One search step: from an occupied cell to a 4-neighbor of the same color.
pub open spec fn step(g: Grid, p: (int, int), q: (int, int)) -> bool {
    &&& g.in_bounds(p.0, p.1)
    &&& g.in_bounds(q.0, q.1)
    &&& adjacent(p.0, p.1, q.0, q.1)
    &&& g.at(p.0, p.1) is Some
    &&& g.at(q.0, q.1) == g.at(p.0, p.1)
}

/// A path of search steps; a single cell is a path to itself.
pub open spec fn is_path(g: Grid, path: Seq<(int, int)>) -> bool {
    &&& path.len() >= 1
    &&& forall|i: int| 0 <= i < path.len() - 1 ==> step(g, #[trigger] path[i], path[i + 1])
}

/// `q` lies in the same-colored 4-connected region of `p`.
pub open spec fn reachable(g: Grid, p: (int, int), q: (int, int)) -> bool {
    exists|path: Seq<(int, int)>|
        is_path(g, path) && path.first() == p && path.last() == q
}

/// The cell list holds `(x, y)`.
pub open spec fn contains_cell(s: Seq<(usize, usize)>, x: int, y: int) -> bool {
    exists|i: int| 0 <= i < s.len() && (#[trigger] s[i]).0 == x && s[i].1 == y
}

/// The cell list is closed under search steps: every same-color neighbor of
/// a listed cell is listed too.
pub open spec fn step_closed(g: Grid, s: Seq<(usize, usize)>) -> bool {
    forall|i: int, qx: int, qy: int|
        0 <= i < s.len() && #[trigger] step(g, (s[i].0 as int, s[i].1 as int), (qx, qy))
            ==> contains_cell(s, qx, qy)
}

/// Every cell is reachable from itself.
pub proof fn lemma_reachable_self(g: Grid, p: (int, int))
    ensures
        reachable(g, p, p),
{
    let path: Seq<(int, int)> = seq![p];
    assert(is_path(g, path) && path.first() == p && path.last() == p);
}

/// Reachability extends along one more step.
pub proof fn lemma_reachable_step(g: Grid, p: (int, int), q: (int, int), r: (int, int))
    requires
        reachable(g, p, q),
        step(g, q, r),
    ensures
        reachable(g, p, r),
{
    let path = choose|path: Seq<(int, int)>|
        is_path(g, path) && path.first() == p && path.last() == q;
    let path2 = path.push(r);
    assert forall|i: int| 0 <= i < path2.len() - 1 implies step(g, #[trigger] path2[i], path2[i + 1]) by {
        if i < path.len() - 1 {
            assert(path2[i] == path[i]);
            assert(path2[i + 1] == path[i + 1]);
        } else {
            assert(path2[i] == path.last());
            assert(path2[i + 1] == r);
        }
    }
    assert(is_path(g, path2) && path2.first() == p && path2.last() == r);
}

/// Reachability chains across a shared cell.
pub proof fn lemma_reachable_trans(g: Grid, p: (int, int), q: (int, int), r: (int, int))
    requires
        reachable(g, p, q),
        reachable(g, q, r),
    ensures
        reachable(g, p, r),
{
    let path1 = choose|path: Seq<(int, int)>|
        is_path(g, path) && path.first() == p && path.last() == q;
    let path2 = choose|path: Seq<(int, int)>|
        is_path(g, path) && path.first() == q && path.last() == r;
    if path2.len() == 1 {
        assert(q == r);
    } else {
        let joined = path1 + path2.subrange(1, path2.len() as int);
        assert forall|i: int|
            0 <= i < joined.len() - 1 implies step(g, #[trigger] joined[i], joined[i + 1]) by {
            if i < path1.len() - 1 {
                assert(joined[i] == path1[i]);
                assert(joined[i + 1] == path1[i + 1]);
            } else if i == path1.len() - 1 {
                assert(joined[i] == path1.last());
                assert(joined[i + 1] == path2[1]);
                assert(step(g, path2[0], path2[1]));
            } else {
                assert(joined[i] == path2[i - path1.len() + 1]);
                assert(joined[i + 1] == path2[i - path1.len() + 2]);
                assert(step(g, path2[i - path1.len() + 1], path2[i - path1.len() + 2]));
            }
        }
        assert(joined.first() == p);
        assert(joined.last() == path2[path2.len() - 1]);
        assert(is_path(g, joined));
    }
}

/// A path that starts in a step-closed cell list ends in it.
proof fn lemma_path_stays(g: Grid, path: Seq<(int, int)>, s: Seq<(usize, usize)>)
    requires
        is_path(g, path),
        contains_cell(s, path.first().0, path.first().1),
        step_closed(g, s),
    ensures
        contains_cell(s, path.last().0, path.last().1),
    decreases path.len(),
{
    if path.len() > 1 {
        let shorter = path.drop_last();
        assert(is_path(g, shorter));
        lemma_path_stays(g, shorter, s);
        let prev = shorter.last();
        assert(step(g, path[path.len() - 2], path.last()));
        let i = choose|i: int| 0 <= i < s.len() && (#[trigger] s[i]).0 == prev.0 && s[i].1 == prev.1;
        assert(step(g, (s[i].0 as int, s[i].1 as int), path.last()));
    }
}

/// The cell `(x, y)` if it is on the board and holds exactly `color`, else
/// nothing.
pub fn test_node(grid: &Grid, x: usize, y: usize, color: Color) -> (r: Option<(usize, usize)>)
    requires
        grid.wf(),
    ensures
        (r is Some) <==> (grid.in_bounds(x as int, y as int) && grid.at(x as int, y as int)
            == Some(color)),
        r matches Some(p) ==> p == (x, y),
{
    if x < grid.width() && y < grid.height() {
        match grid.get(x, y) {
            Some(c) => {
                if c == color {
                    Some((x, y))
                } else {
                    None
                }
            },
            None => None,
        }
    } else {
        None
    }
}

/// Position of a neighbor of `(x, y)` in the fixed enumeration order:
/// left, up, right, down.
pub open spec fn neighbor_rank(x: int, y: int, q: (usize, usize)) -> int {
    if q.0 == x - 1 && q.1 == y {
        0
    } else if q.0 == x && q.1 == y - 1 {
        1
    } else if q.0 == x + 1 && q.1 == y {
        2
    } else {
        3
    }
}

/// `parent` explains the breadth-first discovery order of the cell list
/// `s`: every cell after the seed was discovered while expanding the
/// earliest listed cell it steps from, expansions happen in list order, and
/// cells discovered from the same cell appear in the left, up, right, down
/// order of `neighbor_rank`. Together with the seed-first and
/// exactly-the-region clauses this pins the list.
pub open spec fn bfs_parent_ok(g: Grid, s: Seq<(usize, usize)>, parent: Seq<int>) -> bool {
    &&& parent.len() == s.len()
    &&& forall|i: int| 1 <= i < s.len() ==> 0 <= #[trigger] parent[i] < i
    &&& forall|i: int|
        1 <= i < s.len() ==> step(
            g,
            (s[#[trigger] parent[i]].0 as int, s[parent[i]].1 as int),
            (s[i].0 as int, s[i].1 as int),
        )
    &&& forall|i: int, k: int|
        1 <= i < s.len() && 0 <= k < parent[i] ==> !step(
            g,
            ((#[trigger] s[k]).0 as int, s[k].1 as int),
            ((#[trigger] s[i]).0 as int, s[i].1 as int),
        )
    &&& forall|a: int, b: int|
        1 <= a < b < s.len() ==> (parent[a] < parent[b] || (parent[a] == parent[b]
            && neighbor_rank(s[parent[a]].0 as int, s[parent[a]].1 as int, #[trigger] s[a])
            < neighbor_rank(s[parent[b]].0 as int, s[parent[b]].1 as int, #[trigger] s[b])))
}

/// A listed cell stays listed when another is appended.
proof fn lemma_contains_push(s: Seq<(usize, usize)>, e: (usize, usize), x: int, y: int)
    requires
        contains_cell(s, x, y),
    ensures
        contains_cell(s.push(e), x, y),
{
    let i = choose|i: int| 0 <= i < s.len() && (#[trigger] s[i]).0 == x && s[i].1 == y;
    assert(s.push(e)[i] == s[i]);
}

/// The same-color 4-neighbors of `(x, y)`, enumerated left, up, right, down.
/// The list holds exactly the cells one search step away.
pub fn find_neighbors(grid: &Grid, x: usize, y: usize, color: Color) -> (r: Vec<(usize, usize)>)
    requires
        grid.wf(),
        grid.in_bounds(x as int, y as int),
        grid.at(x as int, y as int) == Some(color),
    ensures
        forall|i: int|
            0 <= i < r@.len() ==> step(
                *grid,
                (x as int, y as int),
                ((#[trigger] r@[i]).0 as int, r@[i].1 as int),
            ),
        forall|qx: int, qy: int|
            #[trigger] step(*grid, (x as int, y as int), (qx, qy)) ==> contains_cell(r@, qx, qy),
        forall|i: int, j: int| 0 <= i < j < r@.len() ==> r@[i] != r@[j],
        forall|i: int, j: int|
            0 <= i < j < r@.len() ==> neighbor_rank(x as int, y as int, #[trigger] r@[i])
                < neighbor_rank(x as int, y as int, #[trigger] r@[j]),
{
    let w = grid.width();
    let h = grid.height();
    let mut r: Vec<(usize, usize)> = Vec::new();

    if x > 0 {
        if let Some(p) = test_node(grid, x - 1, y, color) {
            r.push(p);
            proof {
                assert(r@[0] == p);
            }
        }
    }
    proof {
        assert(step(*grid, (x as int, y as int), (x - 1, y as int)) ==> contains_cell(
            r@,
            x - 1,
            y as int,
        ));
    }
    let ghost s1 = r@;

    if y > 0 {
        if let Some(p) = test_node(grid, x, y - 1, color) {
            r.push(p);
            proof {
                if step(*grid, (x as int, y as int), (x - 1, y as int)) {
                    lemma_contains_push(s1, p, x - 1, y as int);
                }
                assert(r@[s1.len() as int] == p);
            }
        }
    }
    proof {
        assert(step(*grid, (x as int, y as int), (x - 1, y as int)) ==> contains_cell(
            r@,
            x - 1,
            y as int,
        ));
        assert(step(*grid, (x as int, y as int), (x as int, y - 1)) ==> contains_cell(
            r@,
            x as int,
            y - 1,
        ));
    }
    let ghost s2 = r@;

    if x + 1 < w {
        if let Some(p) = test_node(grid, x + 1, y, color) {
            r.push(p);
            proof {
                if step(*grid, (x as int, y as int), (x - 1, y as int)) {
                    lemma_contains_push(s2, p, x - 1, y as int);
                }
                if step(*grid, (x as int, y as int), (x as int, y - 1)) {
                    lemma_contains_push(s2, p, x as int, y - 1);
                }
                assert(r@[s2.len() as int] == p);
            }
        }
    }
    proof {
        assert(step(*grid, (x as int, y as int), (x - 1, y as int)) ==> contains_cell(
            r@,
            x - 1,
            y as int,
        ));
        assert(step(*grid, (x as int, y as int), (x as int, y - 1)) ==> contains_cell(
            r@,
            x as int,
            y - 1,
        ));
        assert(step(*grid, (x as int, y as int), (x + 1, y as int)) ==> contains_cell(
            r@,
            x + 1,
            y as int,
        ));
    }
    let ghost s3 = r@;

    if y + 1 < h {
        if let Some(p) = test_node(grid, x, y + 1, color) {
            r.push(p);
            proof {
                if step(*grid, (x as int, y as int), (x - 1, y as int)) {
                    lemma_contains_push(s3, p, x - 1, y as int);
                }
                if step(*grid, (x as int, y as int), (x as int, y - 1)) {
                    lemma_contains_push(s3, p, x as int, y - 1);
                }
                if step(*grid, (x as int, y as int), (x + 1, y as int)) {
                    lemma_contains_push(s3, p, x + 1, y as int);
                }
                assert(r@[s3.len() as int] == p);
            }
        }
    }

    proof {
        assert forall|qx: int, qy: int|
            #[trigger] step(*grid, (x as int, y as int), (qx, qy)) implies contains_cell(
            r@,
            qx,
            qy,
        ) by {
            assert((qx == x - 1 && qy == y) || (qx == x && qy == y - 1) || (qx == x + 1 && qy == y)
                || (qx == x && qy == y + 1));
        }
    }
    r
}

/// Number of raised flags in a row of flags.
spec fn count_true(s: Seq<bool>) -> int
    decreases s.len(),
{
    if s.len() == 0 {
        0
    } else {
        count_true(s.drop_last()) + if s.last() {
            1int
        } else {
            0int
        }
    }
}

proof fn lemma_count_true_bound(s: Seq<bool>)
    ensures
        0 <= count_true(s) <= s.len(),
    decreases s.len(),
{
    if s.len() > 0 {
        lemma_count_true_bound(s.drop_last());
    }
}

proof fn lemma_count_true_push(s: Seq<bool>, v: bool)
    ensures
        count_true(s.push(v)) == count_true(s) + if v {
            1int
        } else {
            0int
        },
{
    assert(s.push(v).drop_last() =~= s);
}

proof fn lemma_count_true_update(s: Seq<bool>, i: int, v: bool)
    requires
        0 <= i < s.len(),
    ensures
        count_true(s.update(i, v)) == count_true(s) + (if v {
            1int
        } else {
            0int
        }) - (if s[i] {
            1int
        } else {
            0int
        }),
    decreases s.len(),
{
    if i == s.len() - 1 {
        assert(s.update(i, v).drop_last() =~= s.drop_last());
        assert(s.update(i, v).last() == v);
    } else {
        assert(s.update(i, v).drop_last() =~= s.drop_last().update(i, v));
        assert(s.update(i, v).last() == s.last());
        lemma_count_true_update(s.drop_last(), i, v);
        assert(s.drop_last()[i] == s[i]);
    }
}

/// Breadth-first flood fill: every cell of the same-colored 4-connected
/// region around the seed `(x, y)`, in discovery order, the seed first and
/// each cell once. The result is exactly the region: each listed cell is
/// reachable from the seed, every cell reachable from the seed is listed,
/// and the list is closed under same-color adjacency. Every listed cell but
/// the seed itself carries the seed's color. Neighbor expansion order is
/// left, up, right, down.
#[verifier::loop_isolation(false)]
#[verifier::rlimit(100)]
#[verifier::spinoff_prover]
pub fn find_connected_sand(grid: &Grid, x: usize, y: usize) -> (r: Vec<(usize, usize)>)
    requires
        grid.wf(),
        grid.in_bounds(x as int, y as int),
    ensures
        r@.len() >= 1,
        r@[0] == (x, y),
        forall|i: int, j: int| 0 <= i < j < r@.len() ==> r@[i] != r@[j],
        forall|i: int|
            0 <= i < r@.len() ==> grid.in_bounds((#[trigger] r@[i]).0 as int, r@[i].1 as int)
                && reachable(*grid, (x as int, y as int), (r@[i].0 as int, r@[i].1 as int)),
        forall|i: int|
            1 <= i < r@.len() ==> grid.at(x as int, y as int) is Some && grid.at(
                (#[trigger] r@[i]).0 as int,
                r@[i].1 as int,
            ) == grid.at(x as int, y as int),
        step_closed(*grid, r@),
        forall|qx: int, qy: int|
            #[trigger] reachable(*grid, (x as int, y as int), (qx, qy)) ==> contains_cell(
                r@,
                qx,
                qy,
            ),
        exists|parent: Seq<int>| #[trigger] bfs_parent_ok(*grid, r@, parent),
{
    let w = grid.width();
    let h = grid.height();
    let n = grid.area();

    // One flag per cell: already discovered.
    let mut seen: Vec<bool> = Vec::new();
    let mut t: usize = 0;
    while t < n
        invariant
            t <= n,
            seen@.len() == t,
            count_true(seen@) == 0,
            forall|k: int| 0 <= k < t ==> !seen@[k],
        decreases n - t,
    {
        proof {
            lemma_count_true_push(seen@, false);
        }
        seen.push(false);
        t = t + 1;
    }

    let mut out: Vec<(usize, usize)> = Vec::new();
    out.push((x, y));
    let ghost mut parents: Seq<int> = seq![0int];
    proof {
        crate::grid::lemma_flat_index_bounds(x as int, y as int, w as int, h as int);
        lemma_count_true_update(seen@, y as int * w as int + x as int, true);
        lemma_reachable_self(*grid, (x as int, y as int));
    }
    let s0 = y * w + x;
    seen.set(s0, true);
    proof {
        assert(out@[0] == (x, y));
        assert forall|px: int, py: int| 0 <= px < w && 0 <= py < h implies seen@[py * (w as int)
            + px] == contains_cell(out@, px, py) by {
            crate::grid::lemma_flat_index_bounds(px, py, w as int, h as int);
            if px == x as int && py == y as int {
                assert(contains_cell(out@, px, py));
            } else {
                if py * (w as int) + px == y as int * (w as int) + x as int {
                    crate::grid::lemma_flat_index_injective(px, py, x as int, y as int, w as int);
                }
                if contains_cell(out@, px, py) {
                    let i2 = choose|i2: int|
                        0 <= i2 < out@.len() && (#[trigger] out@[i2]).0 == px && out@[i2].1 == py;
                    assert(out@[i2] == (x, y));
                    assert(false);
                }
            }
        }
    }

    let mut head: usize = 0;
    while head < out.len()
        invariant
            seen@.len() == n,
            head <= out@.len(),
            out@.len() >= 1,
            out@[0] == (x, y),
            count_true(seen@) == out@.len(),
            forall|px: int, py: int|
                0 <= px < w && 0 <= py < h ==> seen@[py * (w as int) + px] == contains_cell(
                    out@,
                    px,
                    py,
                ),
            forall|i: int, j: int| 0 <= i < j < out@.len() ==> out@[i] != out@[j],
            forall|i: int|
                0 <= i < out@.len() ==> grid.in_bounds(
                    (#[trigger] out@[i]).0 as int,
                    out@[i].1 as int,
                ) && reachable(*grid, (x as int, y as int), (out@[i].0 as int, out@[i].1 as int)),
            forall|i: int|
                1 <= i < out@.len() ==> grid.at(x as int, y as int) is Some && grid.at(
                    (#[trigger] out@[i]).0 as int,
                    out@[i].1 as int,
                ) == grid.at(x as int, y as int),
            forall|i: int, qx: int, qy: int|
                0 <= i < head && #[trigger] step(
                    *grid,
                    (out@[i].0 as int, out@[i].1 as int),
                    (qx, qy),
                ) ==> contains_cell(out@, qx, qy),
            parents.len() == out@.len(),
            forall|i: int| 1 <= i < out@.len() ==> 0 <= #[trigger] parents[i] < i,
            forall|i: int| 1 <= i < out@.len() ==> #[trigger] parents[i] < head,
            forall|i: int|
                1 <= i < out@.len() ==> step(
                    *grid,
                    (out@[#[trigger] parents[i]].0 as int, out@[parents[i]].1 as int),
                    (out@[i].0 as int, out@[i].1 as int),
                ),
            forall|i: int, k: int|
                1 <= i < out@.len() && 0 <= k < parents[i] ==> !step(
                    *grid,
                    ((#[trigger] out@[k]).0 as int, out@[k].1 as int),
                    ((#[trigger] out@[i]).0 as int, out@[i].1 as int),
                ),
            forall|a: int, b: int|
                1 <= a < b < out@.len() ==> (parents[a] < parents[b] || (parents[a] == parents[b]
                    && neighbor_rank(
                    out@[parents[a]].0 as int,
                    out@[parents[a]].1 as int,
                    #[trigger] out@[a],
                ) < neighbor_rank(
                    out@[parents[b]].0 as int,
                    out@[parents[b]].1 as int,
                    #[trigger] out@[b],
                ))),
        decreases n - head,
    {
        proof {
            lemma_count_true_bound(seen@);
        }
        let p = out[head];
        let cx = p.0;
        let cy = p.1;
        let cell = grid.get(cx, cy);
        if let Some(col) = cell {
            let neighbors = find_neighbors(grid, cx, cy, col);
            let mut t2: usize = 0;
            while t2 < neighbors.len()
                invariant
                    seen@.len() == n,
                    head < out@.len(),
                    out@[0] == (x, y),
                    out@[head as int] == p,
                    count_true(seen@) == out@.len(),
                    forall|px: int, py: int|
                        0 <= px < w && 0 <= py < h ==> seen@[py * (w as int) + px] == contains_cell(
                            out@,
                            px,
                            py,
                        ),
                    forall|i: int, j: int| 0 <= i < j < out@.len() ==> out@[i] != out@[j],
                    forall|i: int|
                        0 <= i < out@.len() ==> grid.in_bounds(
                            (#[trigger] out@[i]).0 as int,
                            out@[i].1 as int,
                        ) && reachable(
                            *grid,
                            (x as int, y as int),
                            (out@[i].0 as int, out@[i].1 as int),
                        ),
                    forall|i: int|
                        1 <= i < out@.len() ==> grid.at(x as int, y as int) is Some && grid.at(
                            (#[trigger] out@[i]).0 as int,
                            out@[i].1 as int,
                        ) == grid.at(x as int, y as int),
                    forall|i: int, qx: int, qy: int|
                        0 <= i < head && #[trigger] step(
                            *grid,
                            (out@[i].0 as int, out@[i].1 as int),
                            (qx, qy),
                        ) ==> contains_cell(out@, qx, qy),
                    parents.len() == out@.len(),
                    forall|i: int| 1 <= i < out@.len() ==> 0 <= #[trigger] parents[i] < i,
                    forall|i: int| 1 <= i < out@.len() ==> #[trigger] parents[i] <= head as int,
                forall|i: int|
                    1 <= i < out@.len() ==> step(
                        *grid,
                        (out@[#[trigger] parents[i]].0 as int, out@[parents[i]].1 as int),
                        (out@[i].0 as int, out@[i].1 as int),
                    ),
                forall|i: int, k: int|
                    1 <= i < out@.len() && 0 <= k < parents[i] ==> !step(
                        *grid,
                        ((#[trigger] out@[k]).0 as int, out@[k].1 as int),
                        ((#[trigger] out@[i]).0 as int, out@[i].1 as int),
                    ),
                forall|a: int, b: int|
                    1 <= a < b < out@.len() ==> (parents[a] < parents[b] || (parents[a] == parents[b]
                        && neighbor_rank(
                        out@[parents[a]].0 as int,
                        out@[parents[a]].1 as int,
                        #[trigger] out@[a],
                    ) < neighbor_rank(
                        out@[parents[b]].0 as int,
                        out@[parents[b]].1 as int,
                        #[trigger] out@[b],
                    ))),
                    forall|a: int|
                        1 <= a < out@.len() && #[trigger] parents[a] == head as int
                            ==> exists|t: int| 0 <= t < t2 && out@[a] == #[trigger] neighbors@[t],
                    t2 <= neighbors@.len(),
                    forall|i: int|
                        0 <= i < t2 ==> contains_cell(
                            out@,
                            (#[trigger] neighbors@[i]).0 as int,
                            neighbors@[i].1 as int,
                        ),
                decreases neighbors@.len() - t2,
            {
                let q = neighbors[t2];
                let nx = q.0;
                let ny = q.1;
                proof {
                    assert(step(*grid, (cx as int, cy as int), (nx as int, ny as int)));
                    crate::grid::lemma_flat_index_bounds(nx as int, ny as int, w as int, h as int);
                }
                let si = ny * w + nx;
                if !seen[si] {
                    let ghost prev_out = out@;
                    let ghost prev_seen = seen@;
                    proof {
                        lemma_count_true_update(seen@, si as int, true);
                        lemma_count_true_bound(seen@);
                    }
                    seen.set(si, true);
                    out.push(q);
                    proof {
                        parents = parents.push(head as int);
                        assert(out@[out@.len() - 1] == q);
                        assert(!contains_cell(prev_out, nx as int, ny as int));
                        // Discovery: the new cell is one step past a listed cell.
                        lemma_reachable_step(
                            *grid,
                            (x as int, y as int),
                            (cx as int, cy as int),
                            (nx as int, ny as int),
                        );
                        assert forall|px: int, py: int|
                            0 <= px < w && 0 <= py < h implies seen@[py * (w as int) + px]
                            == contains_cell(out@, px, py) by {
                            crate::grid::lemma_flat_index_bounds(px, py, w as int, h as int);
                            if px == nx as int && py == ny as int {
                                assert(contains_cell(out@, px, py));
                            } else {
                                if py * (w as int) + px == ny as int * (w as int) + nx as int {
                                    crate::grid::lemma_flat_index_injective(
                                        px,
                                        py,
                                        nx as int,
                                        ny as int,
                                        w as int,
                                    );
                                }
                                if contains_cell(prev_out, px, py) {
                                    lemma_contains_push(prev_out, q, px, py);
                                }
                                if contains_cell(out@, px, py) {
                                    let i2 = choose|i2: int|
                                        0 <= i2 < out@.len() && (#[trigger] out@[i2]).0 == px
                                            && out@[i2].1 == py;
                                    if i2 == out@.len() - 1 {
                                        assert(out@[i2] == q);
                                        assert(false);
                                    } else {
                                        assert(prev_out[i2] == out@[i2]);
                                        assert(contains_cell(prev_out, px, py));
                                    }
                                }
                            }
                        }
                        assert forall|i: int, qx: int, qy: int|
                            0 <= i < head && #[trigger] step(
                                *grid,
                                (out@[i].0 as int, out@[i].1 as int),
                                (qx, qy),
                            ) implies contains_cell(out@, qx, qy) by {
                            assert(out@[i] == prev_out[i]);
                            assert(contains_cell(prev_out, qx, qy));
                            lemma_contains_push(prev_out, q, qx, qy);
                        }
                        assert forall|i: int|
                            0 <= i < t2 + 1 implies contains_cell(
                            out@,
                            (#[trigger] neighbors@[i]).0 as int,
                            neighbors@[i].1 as int,
                        ) by {
                            if i < t2 {
                                assert(contains_cell(
                                    prev_out,
                                    neighbors@[i].0 as int,
                                    neighbors@[i].1 as int,
                                ));
                                lemma_contains_push(
                                    prev_out,
                                    q,
                                    neighbors@[i].0 as int,
                                    neighbors@[i].1 as int,
                                );
                            } else {
                                assert(contains_cell(out@, nx as int, ny as int));
                            }
                        }
                        // discovery order: the new cell's parent is the cell
                        // being expanded, no earlier cell steps to it, and it
                        // ranks after this expansion's earlier discoveries
                        assert(out@[out@.len() - 1].0 == nx && out@[out@.len() - 1].1 == ny);
                        assert(out@[head as int] == p);
                        assert(parents[out@.len() - 1] == head as int);
                        assert forall|k: int|
                            0 <= k < head as int implies !step(
                            *grid,
                            ((#[trigger] out@[k]).0 as int, out@[k].1 as int),
                            (out@[out@.len() - 1].0 as int, out@[out@.len() - 1].1 as int),
                        ) by {
                            if step(
                                *grid,
                                (out@[k].0 as int, out@[k].1 as int),
                                (nx as int, ny as int),
                            ) {
                                assert(prev_out[k] == out@[k]);
                                assert(contains_cell(prev_out, nx as int, ny as int));
                            }
                        }
                        assert forall|a: int|
                            1 <= a < out@.len() - 1 && #[trigger] parents[a]
                            == head as int implies neighbor_rank(cx as int, cy as int, out@[a])
                            < neighbor_rank(cx as int, cy as int, out@[out@.len() - 1]) by {
                            let t = choose|t: int|
                                0 <= t < t2 && prev_out[a] == #[trigger] neighbors@[t];
                            assert(out@[a] == prev_out[a]);
                            assert(neighbors@[t2 as int] == q);
                        }
                        assert(0 <= t2 < t2 + 1 && out@[out@.len() - 1] == neighbors@[t2 as int]);
                    }
                } else {
                    proof {
                        assert(seen@[ny as int * w as int + nx as int]);
                        assert(contains_cell(out@, nx as int, ny as int));
                    }
                }
                t2 = t2 + 1;
            }
            proof {
                assert forall|qx: int, qy: int|
                    #[trigger] step(*grid, (cx as int, cy as int), (qx, qy)) implies contains_cell(
                    out@,
                    qx,
                    qy,
                ) by {
                    assert(contains_cell(neighbors@, qx, qy));
                    let i2 = choose|i2: int|
                        0 <= i2 < neighbors@.len() && (#[trigger] neighbors@[i2]).0 == qx
                            && neighbors@[i2].1 == qy;
                    assert(contains_cell(out@, neighbors@[i2].0 as int, neighbors@[i2].1 as int));
                }
            }
        } else {
            proof {
                assert forall|qx: int, qy: int|
                    #[trigger] step(*grid, (cx as int, cy as int), (qx, qy)) implies contains_cell(
                    out@,
                    qx,
                    qy,
                ) by {
                    assert(grid.at(cx as int, cy as int) is None);
                }
            }
        }
        proof {
            assert forall|i: int, qx: int, qy: int|
                0 <= i < head + 1 && #[trigger] step(
                    *grid,
                    (out@[i].0 as int, out@[i].1 as int),
                    (qx, qy),
                ) implies contains_cell(out@, qx, qy) by {
                if i == head {
                    assert(out@[i] == p);
                    assert(step(*grid, (cx as int, cy as int), (qx, qy)));
                }
            }
        }
        head = head + 1;
    }

    proof {
        assert forall|qx: int, qy: int|
            #[trigger] reachable(*grid, (x as int, y as int), (qx, qy)) implies contains_cell(
            out@,
            qx,
            qy,
        ) by {
            let path = choose|path: Seq<(int, int)>|
                is_path(*grid, path) && path.first() == (x as int, y as int) && path.last() == (
                qx,
                qy,
            );
            assert(out@[0] == (x, y));
            assert(contains_cell(out@, x as int, y as int));
            lemma_path_stays(*grid, path, out@);
        }
        assert(bfs_parent_ok(*grid, out@, parents));
    }
    out
}

/// The column-0 cell `(0, y)` is an entry of a spanning group: it holds a
/// grain whose same-colored region reaches the rightmost column.
pub open spec fn spans_from(g: Grid, y: int) -> bool {
    &&& g.in_bounds(0, y)
    &&& g.at(0, y) is Some
    &&& exists|qy: int| #[trigger] reachable(g, (0, y), (g.spec_width() - 1, qy))
}

/// On an entirely empty board no cell leads a spanning group; with the
/// search's contract, `find_spanning_group` returns nothing there.
pub proof fn lemma_empty_grid_never_spans(g: Grid, y: int)
    requires
        forall|x: int, yy: int| g.in_bounds(x, yy) ==> g.at(x, yy) is None,
    ensures
        !spans_from(g, y),
{
}

/// Every cell of a full-width same-color row is reachable from the row's
/// column-0 cell.
proof fn lemma_row_reach(g: Grid, y: int, c: Color, x: int)
    requires
        0 <= y < g.spec_height(),
        0 <= x < g.spec_width(),
        forall|xx: int| 0 <= xx < g.spec_width() ==> g.at(xx, y) == Some(c),
    ensures
        reachable(g, (0, y), (x, y)),
    decreases x,
{
    if x == 0 {
        lemma_reachable_self(g, (0, y));
    } else {
        lemma_row_reach(g, y, c, x - 1);
        assert(step(g, (x - 1, y), (x, y)));
        lemma_reachable_step(g, (0, y), (x - 1, y), (x, y));
    }
}

/// A single row of one color across the full board width leads a spanning
/// group from its column-0 cell; with the search's contract,
/// `find_spanning_group` then returns a column-0 entry cell.
pub proof fn lemma_full_row_spans(g: Grid, y: int, c: Color)
    requires
        0 <= y < g.spec_height(),
        g.spec_width() >= 1,
        forall|x: int| 0 <= x < g.spec_width() ==> g.at(x, y) == Some(c),
    ensures
        spans_from(g, y),
{
    lemma_row_reach(g, y, c, g.spec_width() - 1);
}

/// Every cell of a multi-step path is on the board, occupied, and of the
/// same color as the path's first cell.
proof fn lemma_path_cells(g: Grid, path: Seq<(int, int)>, i: int)
    requires
        is_path(g, path),
        path.len() >= 2,
        0 <= i < path.len(),
    ensures
        g.in_bounds(path[i].0, path[i].1),
        g.at(path[i].0, path[i].1) == g.at(path[0].0, path[0].1),
        g.at(path[i].0, path[i].1) is Some,
    decreases i,
{
    if i == 0 {
        assert(step(g, path[0], path[1]));
    } else {
        lemma_path_cells(g, path, i - 1);
        assert(step(g, path[i - 1], path[i]));
    }
}

/// A path confined to one row moves one column at a time, so it visits
/// every column between its first and its last.
proof fn lemma_path_visits(g: Grid, path: Seq<(int, int)>, y0: int, xm: int)
    requires
        is_path(g, path),
        forall|i: int| 0 <= i < path.len() ==> (#[trigger] path[i]).1 == y0,
        path.first().0 == 0,
        0 <= xm <= path.last().0,
    ensures
        exists|i: int| 0 <= i < path.len() && (#[trigger] path[i]).0 == xm,
    decreases path.len(),
{
    if path.len() == 1 {
        assert(path[0].0 == xm);
    } else {
        let sub = path.drop_last();
        assert(is_path(g, sub));
        let xp = sub.last().0;
        assert(step(g, path[path.len() - 2], path.last()));
        assert(path.last().0 == xp + 1 || path.last().0 == xp - 1);
        if xm <= xp {
            lemma_path_visits(g, sub, y0, xm);
            let i = choose|i: int| 0 <= i < sub.len() && (#[trigger] sub[i]).0 == xm;
            assert(path[i].0 == xm);
        } else {
            assert(path[path.len() - 1].0 == xm);
        }
    }
}

/// When every grain of the board sits in one row and that row holds two
/// grains of different colors, no group spans: a spanning path would run
/// along the row through both columns, yet keep one color; with the
/// search's contract, `find_spanning_group` returns nothing.
pub proof fn lemma_split_row_never_spans(g: Grid, y0: int, xa: int, xb: int, y: int)
    requires
        0 <= y0 < g.spec_height(),
        forall|x: int, yy: int| g.in_bounds(x, yy) && (#[trigger] g.at(x, yy)) is Some ==> yy
            == y0,
        0 <= xa < g.spec_width(),
        0 <= xb < g.spec_width(),
        g.at(xa, y0) is Some,
        g.at(xb, y0) is Some,
        g.at(xa, y0) != g.at(xb, y0),
    ensures
        !spans_from(g, y),
{
    if spans_from(g, y) {
        let w = g.spec_width();
        let qy = choose|qy: int| #[trigger] reachable(g, (0, y), (w - 1, qy));
        let path = choose|path: Seq<(int, int)>|
            is_path(g, path) && path.first() == (0int, y) && path.last() == (w - 1, qy);
        if path.len() == 1 {
            assert(w == 1);
            assert(xa == 0 && xb == 0);
            assert(false);
        } else {
            assert(g.at(0, y) is Some);
            assert(y == y0);
            assert forall|i: int|
                0 <= i < path.len() implies (#[trigger] path[i]).1 == y0 && g.at(
                path[i].0,
                path[i].1,
            ) == g.at(0, y) by {
                lemma_path_cells(g, path, i);
            }
            lemma_path_visits(g, path, y0, xa);
            lemma_path_visits(g, path, y0, xb);
            let ia = choose|i: int| 0 <= i < path.len() && (#[trigger] path[i]).0 == xa;
            let ib = choose|i: int| 0 <= i < path.len() && (#[trigger] path[i]).0 == xb;
            assert(g.at(xa, y0) == g.at(0, y));
            assert(g.at(xb, y0) == g.at(0, y));
            assert(false);
        }
    }
}

/// Whether the region list reaches the rightmost column.
#[verifier::loop_isolation(false)]
fn touches_right_edge(grid: &Grid, comp: &Vec<(usize, usize)>) -> (r: bool)
    requires
        grid.wf(),
        grid.spec_width() >= 1,
    ensures
        r == (exists|tt: int|
            0 <= tt < comp@.len() && (#[trigger] comp@[tt]).0 == grid.spec_width() - 1),
{
    let w = grid.width();
    let mut t: usize = 0;
    while t < comp.len()
        invariant
            t <= comp@.len(),
            w == grid.spec_width(),
            forall|tt: int| 0 <= tt < t ==> (#[trigger] comp@[tt]).0 != w - 1,
        decreases comp@.len() - t,
    {
        let p = comp[t];
        if p.0 == w - 1 {
            proof {
                assert(comp@[t as int].0 == grid.spec_width() - 1);
            }
            return true;
        }
        t = t + 1;
    }
    false
}

/// Remember the cells of a fill that found no spanning group: a column-0
/// cell of the region leads the same region, so it cannot span either.
#[verifier::loop_isolation(false)]
fn mark_failed_region(seen: &mut Vec<bool>, grid: &Grid, comp: &Vec<(usize, usize)>, y: usize)
    requires
        grid.wf(),
        old(seen)@.len() == grid.spec_width() * grid.spec_height(),
        grid.in_bounds(0, y as int),
        !spans_from(*grid, y as int),
        forall|i: int|
            0 <= i < comp@.len() ==> grid.in_bounds(
                (#[trigger] comp@[i]).0 as int,
                comp@[i].1 as int,
            ) && reachable(*grid, (0, y as int), (comp@[i].0 as int, comp@[i].1 as int)),
        forall|py: int|
            0 <= py < grid.spec_height() && #[trigger] old(seen)@[py * grid.spec_width()]
                ==> !spans_from(*grid, py),
    ensures
        final(seen)@.len() == old(seen)@.len(),
        forall|py: int|
            0 <= py < grid.spec_height() && #[trigger] final(seen)@[py * grid.spec_width()]
                ==> !spans_from(*grid, py),
{
    let w = grid.width();
    let h = grid.height();
    let total = seen.len();
    proof {
        assert(w * h == total);
    }
    let mut t: usize = 0;
    while t < comp.len()
        invariant
            t <= comp@.len(),
            seen@.len() == old(seen)@.len(),
            forall|py: int|
                0 <= py < h && #[trigger] seen@[py * (w as int)] ==> !spans_from(*grid, py),
        decreases comp@.len() - t,
    {
        let p = comp[t];
        proof {
            crate::grid::lemma_flat_index_bounds(p.0 as int, p.1 as int, w as int, h as int);
            if p.0 == 0 && spans_from(*grid, p.1 as int) {
                let qy = choose|qy: int|
                    #[trigger] reachable(*grid, (0, p.1 as int), (grid.spec_width() - 1, qy));
                assert(reachable(*grid, (0, y as int), (p.0 as int, p.1 as int)));
                lemma_reachable_trans(
                    *grid,
                    (0, y as int),
                    (0, p.1 as int),
                    (grid.spec_width() - 1, qy),
                );
                assert(spans_from(*grid, y as int));
                assert(false);
            }
        }
        let si = p.1 * w + p.0;
        seen.set(si, true);
        proof {
            assert forall|py: int|
                0 <= py < h && #[trigger] seen@[py * (w as int)] implies !spans_from(
                *grid,
                py,
            ) by {
                crate::grid::lemma_flat_index_bounds(0, py, w as int, h as int);
                if py * (w as int) == si as int {
                    crate::grid::lemma_flat_index_injective(
                        0,
                        py,
                        p.0 as int,
                        p.1 as int,
                        w as int,
                    );
                }
            }
        }
        t = t + 1;
    }
}

/// Search for a same-colored 4-connected region touching both the leftmost
/// and the rightmost column. Returns a column-0 entry cell of such a region
/// — which entry when several exist is implementation-defined; here it is
/// the one with the smallest `y` — or nothing when no region spans, in
/// particular on an entirely empty board.
#[verifier::loop_isolation(false)]
#[verifier::rlimit(100)]
#[verifier::spinoff_prover]
pub fn find_spanning_group(grid: &Grid) -> (r: Option<(usize, usize)>)
    requires
        grid.wf(),
    ensures
        r matches Some(p) ==> p.0 == 0 && spans_from(*grid, p.1 as int) && (forall|yy: int|
            yy < p.1 ==> !spans_from(*grid, yy)),
        r is None ==> forall|yy: int| !spans_from(*grid, yy),
{
    let w = grid.width();
    let h = grid.height();
    if w == 0 {
        return None;
    }
    let n = grid.area();

    // Cells of fills that found no spanning group; a column-0 cell inside
    // one leads the same non-spanning region and is not filled again, which
    // keeps the whole search linear in the board size.
    let mut seen: Vec<bool> = Vec::new();
    let mut m: usize = 0;
    while m < n
        invariant
            m <= n,
            seen@.len() == m,
            forall|k: int| 0 <= k < m ==> !seen@[k],
        decreases n - m,
    {
        seen.push(false);
        m = m + 1;
    }

    proof {
        assert forall|py: int|
            0 <= py < h && #[trigger] seen@[py * (w as int)] implies !spans_from(*grid, py) by {
            crate::grid::lemma_flat_index_bounds(0, py, w as int, h as int);
        }
    }
    let mut y: usize = 0;
    while y < h
        invariant
            y <= h,
            seen@.len() == n,
            forall|yy: int| yy < y ==> !spans_from(*grid, yy),
            forall|py: int|
                0 <= py < h && #[trigger] seen@[py * (w as int)] ==> !spans_from(*grid, py),
        decreases h - y,
    {
        proof {
            crate::grid::lemma_flat_index_bounds(0, y as int, w as int, h as int);
        }
        let si0 = y * w;
        if grid.get(0, y).is_some() && !seen[si0] {
            let comp = find_connected_sand(grid, 0, y);
            if touches_right_edge(grid, &comp) {
                proof {
                    let tt = choose|tt: int|
                        0 <= tt < comp@.len() && (#[trigger] comp@[tt]).0 == grid.spec_width()
                            - 1;
                    assert(reachable(
                        *grid,
                        (0, y as int),
                        (comp@[tt].0 as int, comp@[tt].1 as int),
                    ));
                    assert(spans_from(*grid, y as int));
                }
                return Some((0, y));
            }
            proof {
                if spans_from(*grid, y as int) {
                    let qy = choose|qy: int|
                        #[trigger] reachable(*grid, (0, y as int), (grid.spec_width() - 1, qy));
                    assert(contains_cell(comp@, w - 1, qy));
                    let i2 = choose|i2: int|
                        0 <= i2 < comp@.len() && (#[trigger] comp@[i2]).0 == w - 1 && comp@[i2].1
                            == qy;
                    assert(false);
                }
                assert(!spans_from(*grid, y as int));
            }
            mark_failed_region(&mut seen, grid, &comp, y);
        } else {
            proof {
                if grid.at(0, y as int) is Some {
                    assert(seen@[y as int * (w as int)]);
                }
            }
        }
        y = y + 1;
    }
    None
}

} // verus!
