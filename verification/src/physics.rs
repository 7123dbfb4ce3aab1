//! The per-tick sand physics engine. For every grain of the upper row of an
//! adjacent row pair it decides a move into the lower row — down when free,
//! diagonally past obstacles, with randomized tie-breaking — then resolves
//! destination conflicts to a fixed point, and applies the moves. The driver
//! sweeps all row pairs bottom-to-top once per tick, so a grain falls at most
//! one cell per tick, and no grain is ever created, destroyed or recolored.

use vstd::prelude::*;

verus! {

use crate::constants::{Color, Direction, DIAGONAL_SLOTS};
use crate::grid::Grid;
use crate::rng::{rng_bool, rng_below};
use nanorand::WyRand;

/// A per-cell move request: the chosen direction, and the direction to fall
/// back to if the first is vetoed during conflict resolution.
pub type Request = Option<(Direction, Option<Direction>)>;

/// Column that a grain in column `j` moves to under direction `d`.
pub open spec fn dest_col(j: int, d: Direction) -> int {
    match d {
        Direction::Left => j - 1,
        Direction::Down => j,
        Direction::Right => j + 1,
    }
}

/// The lower-row cell that a move from column `j` in direction `d` would
/// enter is on the board and empty. Out-of-board columns count as occupied.
pub open spec fn open_toward(low: Seq<bool>, j: int, d: Direction) -> bool {
    0 <= dest_col(j, d) < low.len() && !low[dest_col(j, d)]
}

/// All three destination cells of column `j` are occupied or off the board.
pub open spec fn cell_blocked(low: Seq<bool>, j: int) -> bool {
    !open_toward(low, j, Direction::Left) && !open_toward(low, j, Direction::Down)
        && !open_toward(low, j, Direction::Right)
}

/// The grain at `(x, y)` cannot move this tick: each of the three cells
/// below it is occupied or off the board.
pub open spec fn supported(g: Grid, x: int, y: int) -> bool {
    &&& (x == 0 || g.occupied(x - 1, y + 1))
    &&& g.occupied(x, y + 1)
    &&& (x == g.spec_width() - 1 || g.occupied(x + 1, y + 1))
}

/// Every grain above the floor is supported: a tick leaves such a board
/// exactly as it is.
pub open spec fn settled(g: Grid) -> bool {
    forall|x: int, y: int|
        g.in_bounds(x, y) && y < g.spec_height() - 1 && #[trigger] g.occupied(x, y) ==> supported(
            g,
            x,
            y,
        )
}

/// Some grain in rows 0 through `k` is unsupported.
spec fn loose_grain_upto(g: Grid, k: int) -> bool {
    exists|x: int, y: int|
        g.in_bounds(x, y) && y <= k && y < g.spec_height() - 1 && (#[trigger] g.occupied(x, y))
            && !supported(g, x, y)
}

/// The grain now at `(x, y)` fell in from one of the three cells above it:
/// the cell holds exactly what the below-left, straight-above or
/// below-right origin cell of the previous board held. With the stay case
/// this bounds every grain's travel to one cell per tick, color riding
/// along.
pub open spec fn fell_from_above(g_old: Grid, g_new: Grid, x: int, y: int) -> bool {
    exists|j: int|
        x - 1 <= j <= x + 1 && g_old.in_bounds(j, y - 1) && (#[trigger] g_old.at(j, y - 1))
            is Some && g_new.at(x, y) == g_old.at(j, y - 1)
}

/// What the decision rule and conflict resolution keep true of one request,
/// given the occupancy `up` of the source row and `low` of the destination
/// row: requests come only from grains, only into free cells (the fallback
/// too), a grain with a free cell below keeps a way down, and a fully
/// blocked or absent grain requests nothing.
pub open spec fn request_entry_ok(up: Seq<bool>, low: Seq<bool>, j: int, e: Request) -> bool {
    &&& (e matches Some((d, s)) ==> {
        &&& up[j]
        &&& open_toward(low, j, d)
        &&& (s matches Some(s2) ==> open_toward(low, j, s2) && s2 != d)
    })
    &&& (up[j] && open_toward(low, j, Direction::Down) ==> (e matches Some((d, s)) && (d
        == Direction::Down || s == Some(Direction::Down))))
    &&& (!up[j] ==> e is None)
    &&& (up[j] && cell_blocked(low, j) ==> e is None)
}

/// Some grain of the row has a free destination cell.
pub open spec fn any_free(up: Seq<bool>, low: Seq<bool>) -> bool {
    exists|j: int| 0 <= j < up.len() && (#[trigger] up[j]) && !cell_blocked(low, j)
}

/// Some request of the row is still standing.
pub open spec fn any_request(req: Seq<Request>) -> bool {
    exists|j: int| 0 <= j < req.len() && (#[trigger] req[j]) is Some
}

/// Every request of the row is well-formed.
pub open spec fn requests_ok(up: Seq<bool>, low: Seq<bool>, req: Seq<Request>) -> bool {
    &&& req.len() == up.len()
    &&& up.len() == low.len()
    &&& forall|j: int| 0 <= j < req.len() ==> request_entry_ok(up, low, j, req[j])
}

/// Adjacent columns `j` and `j + 1` both target the same lower cell: a
/// diagonal move of one against the straight drop of the other.
pub open spec fn adj_conflict(req: Seq<Request>, j: int) -> bool {
    ||| (req[j] matches Some((Direction::Right, _)) && req[j + 1] matches Some((Direction::Down, _)))
    ||| (req[j] matches Some((Direction::Down, _)) && req[j + 1] matches Some((Direction::Left, _)))
}

/// Columns `j` and `j + 2` both request a diagonal into the cell between
/// them.
pub open spec fn dist2_conflict(req: Seq<Request>, j: int) -> bool {
    req[j] matches Some((Direction::Right, _)) && req[j + 2] matches Some((Direction::Left, _))
}

/// No two requests of the row target the same destination cell.
pub open spec fn no_conflicts(req: Seq<Request>) -> bool {
    &&& (forall|j: int| 0 <= j < req.len() - 1 ==> !adj_conflict(req, j))
    &&& (forall|j: int| 0 <= j < req.len() - 2 ==> !dist2_conflict(req, j))
}

/// Fuel of one request for the termination of conflict resolution: each
/// veto either consumes the fallback or cancels the request outright.
pub open spec fn entry_weight(e: Request) -> int {
    match e {
        None => 0,
        Some((_, None)) => 1,
        Some((_, Some(_))) => 2,
    }
}

/// Total fuel of the row.
pub open spec fn total_weight(req: Seq<Request>) -> int
    decreases req.len(),
{
    if req.len() == 0 {
        0
    } else {
        total_weight(req.drop_last()) + entry_weight(req.last())
    }
}

proof fn lemma_weight_nonneg(req: Seq<Request>)
    ensures
        0 <= total_weight(req),
    decreases req.len(),
{
    if req.len() > 0 {
        lemma_weight_nonneg(req.drop_last());
    }
}

proof fn lemma_weight_update(req: Seq<Request>, i: int, e: Request)
    requires
        0 <= i < req.len(),
    ensures
        total_weight(req.update(i, e)) == total_weight(req) + entry_weight(e) - entry_weight(
            req[i],
        ),
    decreases req.len(),
{
    if i == req.len() - 1 {
        assert(req.update(i, e).drop_last() =~= req.drop_last());
        assert(req.update(i, e).last() == e);
    } else {
        assert(req.update(i, e).drop_last() =~= req.drop_last().update(i, e));
        assert(req.update(i, e).last() == req.last());
        lemma_weight_update(req.drop_last(), i, e);
        assert(req.drop_last()[i] == req[i]);
    }
}

/// Decide the move of one grain from the occupancy of its three destination
/// cells (`left` = below-left, `down` = directly below, `right` =
/// below-right; `true` is occupied or off the board). Returns no move exactly
/// when all three are blocked; otherwise a direction toward a free cell,
/// never `Down` onto an occupied cell, and a fallback (when present) that
/// also points to a free cell. The blocked-down tie and the rare-diagonal
/// draw are the only consumers of randomness.
pub fn decide_direction(rng: &mut WyRand, left: bool, down: bool, right: bool) -> (r: Request)
    ensures
        (r is None) <==> (left && down && right),
        r matches Some((d, s)) ==> match d {
            Direction::Left => !left,
            Direction::Down => !down,
            Direction::Right => !right,
        },
        r matches Some((d, s)) ==> (s matches Some(s2) ==> (match s2 {
            Direction::Left => !left,
            Direction::Down => !down,
            Direction::Right => !right,
        } && s2 != d)),
        (!left && down && right) ==> r == Some((Direction::Left, Option::<Direction>::None)),
        (left && !down && right) ==> r == Some((Direction::Down, Option::<Direction>::None)),
        (left && down && !right) ==> r == Some((Direction::Right, Option::<Direction>::None)),
        (!left && down && !right) ==> (r == Some((Direction::Left, Some(Direction::Right))) || r
            == Some((Direction::Right, Some(Direction::Left)))),
        !down ==> (r matches Some((d, s)) && (d == Direction::Down || s == Some(Direction::Down))),
        (left && down) || (left && right) || (down && right) ==> *final(rng) == *old(rng),
{
    match (left, down, right) {
        (true, true, true) => None,
        (false, true, true) => Some((Direction::Left, None)),
        (true, false, true) => Some((Direction::Down, None)),
        (true, true, false) => Some((Direction::Right, None)),
        (false, true, false) => {
            if rng_bool(rng) {
                Some((Direction::Left, Some(Direction::Right)))
            } else {
                Some((Direction::Right, Some(Direction::Left)))
            }
        },
        _ => {
            // Down is free here; only the two boundary slots of the draw give
            // a (free) diagonal, so falling straight down dominates.
            let k = rng_below(rng, DIAGONAL_SLOTS);
            if k == 0 && !left {
                Some((Direction::Left, Some(Direction::Down)))
            } else if k == DIAGONAL_SLOTS - 1 && !right {
                Some((Direction::Right, Some(Direction::Down)))
            } else {
                Some((Direction::Down, None))
            }
        },
    }
}

/// The direction a resolved request moves in, forgetting the fallback.
pub open spec fn primary_of(e: Request) -> Option<Direction> {
    match e {
        None => None,
        Some((d, _)) => Some(d),
    }
}

/// Destination column of the resolved move of column `j`.
pub open spec fn move_dest(res: Seq<Option<Direction>>, j: int) -> int
    recommends
        res[j] is Some,
{
    dest_col(j, res[j]->0)
}

/// The request a vetoed grain is left with: its fallback, kept without a
/// further fallback of its own, or no move at all.
pub open spec fn fallback_spec(next: Option<Direction>) -> Request {
    match next {
        Some(d) => Some((d, None)),
        None => None,
    }
}

fn fallback(next: Option<Direction>) -> (r: Request)
    ensures
        r == fallback_spec(next),
{
    match next {
        Some(d) => Some((d, None)),
        None => None,
    }
}

/// Compute the resolved move of every grain of one row pair. `upper` and
/// `lower` give the occupancy of the source row and of the destination row
/// below it. Each grain gets a decision from `decide_direction`; then
/// destination conflicts are vetoed — the straight drop beats a diagonal, a
/// fair coin breaks ties between two converging diagonals, the loser falls
/// back or cancels — until none remain. Every pass that changes anything
/// consumes fallback fuel, which bounds the iteration.
///
/// The result has one entry per column: moves come only from grains, only
/// into free lower cells, no two moves share a destination, a grain with a
/// free cell directly below always moves, and a grain with all three lower
/// cells blocked never does.
pub fn run_physics_line(rng: &mut WyRand, upper: &Vec<bool>, lower: &Vec<bool>) -> (r: Vec<
    Option<Direction>,
>)
    requires
        upper@.len() == lower@.len(),
    ensures
        r@.len() == upper@.len(),
        forall|j: int|
            0 <= j < r@.len() ==> ((#[trigger] r@[j]) matches Some(d) ==> upper@[j] && open_toward(
                lower@,
                j,
                d,
            )),
        forall|j: int| 0 <= j < r@.len() && upper@[j] && !lower@[j] ==> r@[j] is Some,
        forall|j: int| 0 <= j < r@.len() && upper@[j] && cell_blocked(lower@, j) ==> r@[j] is None,
        forall|j: int| 0 <= j < r@.len() && !upper@[j] ==> r@[j] is None,
        forall|j: int, k: int|
            0 <= j < k < r@.len() && r@[j] is Some && r@[k] is Some ==> move_dest(r@, j)
                != move_dest(r@, k),
        any_free(upper@, lower@) ==> exists|j: int| 0 <= j < r@.len() && (#[trigger] r@[j])
            is Some,
        (forall|j: int|
            0 <= j < upper@.len() && (#[trigger] upper@[j]) ==> cell_blocked(
                lower@,
                j,
            )) ==> *final(rng) == *old(rng),
{
    let w = upper.len();

    // What each grain of sand wants to do, judged from the three lower cells
    // alone; columns off the board count as occupied.
    let mut requests: Vec<Request> = Vec::new();
    let mut j: usize = 0;
    while j < w
        invariant
            w == upper@.len(),
            upper@.len() == lower@.len(),
            j <= w,
            requests@.len() == j,
            forall|jj: int| 0 <= jj < j ==> request_entry_ok(upper@, lower@, jj, requests@[jj]),
            forall|jj: int|
                0 <= jj < j && (#[trigger] upper@[jj]) && !cell_blocked(lower@, jj)
                    ==> requests@[jj] is Some,
            (forall|jj: int|
                0 <= jj < upper@.len() && (#[trigger] upper@[jj]) ==> cell_blocked(
                    lower@,
                    jj,
                )) ==> *rng == *old(rng),
        decreases w - j,
    {
        let e: Request;
        if upper[j] {
            let left_blocked = j == 0 || lower[j - 1];
            let down_blocked = lower[j];
            let right_blocked = j + 1 == w || lower[j + 1];
            proof {
                assert(left_blocked == !open_toward(lower@, j as int, Direction::Left));
                assert(down_blocked == !open_toward(lower@, j as int, Direction::Down));
                assert(right_blocked == !open_toward(lower@, j as int, Direction::Right));
            }
            e = decide_direction(rng, left_blocked, down_blocked, right_blocked);
        } else {
            e = None;
        }
        requests.push(e);
        j = j + 1;
    }

    proof {
        if any_free(upper@, lower@) {
            let j0 = choose|j0: int|
                0 <= j0 < upper@.len() && (#[trigger] upper@[j0]) && !cell_blocked(lower@, j0);
            assert(requests@[j0] is Some);
            assert(any_request(requests@));
        }
    }

    // Veto colliding requests until a fixed point: a pass that found no
    // conflict and changed nothing leaves a conflict-free row. A veto's
    // winner keeps its request, so a row that had a request keeps one.
    let mut changed = true;
    while changed
        invariant
            upper@.len() == lower@.len(),
            requests@.len() == upper@.len(),
            requests_ok(upper@, lower@, requests@),
            any_free(upper@, lower@) ==> any_request(requests@),
            (forall|jj: int|
                0 <= jj < upper@.len() && (#[trigger] upper@[jj]) ==> cell_blocked(
                    lower@,
                    jj,
                )) ==> *rng == *old(rng),
            !changed ==> no_conflicts(requests@),
        decreases 2 * total_weight(requests@) + if changed {
            1int
        } else {
            0int
        },
    {
        proof {
            lemma_weight_nonneg(requests@);
        }
        let ghost w0 = total_weight(requests@);
        changed = false;

        // Neighboring grains converging on one cell: straight down wins.
        let mut i: usize = 1;
        while i < requests.len()
            invariant
                upper@.len() == lower@.len(),
                requests@.len() == upper@.len(),
                requests_ok(upper@, lower@, requests@),
                any_free(upper@, lower@) ==> any_request(requests@),
                1 <= i,
                changed ==> total_weight(requests@) < w0,
                !changed ==> total_weight(requests@) == w0,
                !changed ==> forall|jj: int| 0 <= jj < i - 1 ==> !adj_conflict(requests@, jj),
            decreases requests@.len() - i,
        {
            let a = requests[i - 1];
            let b = requests[i];
            let ghost prev = requests@;
            match (a, b) {
                (Some((Direction::Right, next)), Some((Direction::Down, _))) => {
                    let e = fallback(next);
                    proof {
                        lemma_weight_update(requests@, i as int - 1, e);
                    }
                    requests.set(i - 1, e);
                    changed = true;
                    proof {
                        assert(requests@[i as int] is Some);
                        assert forall|jj: int|
                            0 <= jj < requests@.len() implies request_entry_ok(
                            upper@,
                            lower@,
                            jj,
                            requests@[jj],
                        ) by {
                            assert(request_entry_ok(upper@, lower@, jj, prev[jj]));
                            if jj != i as int - 1 {
                                assert(requests@[jj] == prev[jj]);
                            }
                        }
                    }
                },
                (Some((Direction::Down, _)), Some((Direction::Left, next))) => {
                    let e = fallback(next);
                    proof {
                        lemma_weight_update(requests@, i as int, e);
                    }
                    requests.set(i, e);
                    changed = true;
                    proof {
                        assert(requests@[i as int - 1] is Some);
                        assert forall|jj: int|
                            0 <= jj < requests@.len() implies request_entry_ok(
                            upper@,
                            lower@,
                            jj,
                            requests@[jj],
                        ) by {
                            assert(request_entry_ok(upper@, lower@, jj, prev[jj]));
                            if jj != i as int {
                                assert(requests@[jj] == prev[jj]);
                            }
                        }
                    }
                },
                _ => {},
            }
            i = i + 1;
        }

        // Grains two columns apart converging on the cell between them: a
        // fair coin picks the loser.
        let mut i2: usize = 2;
        while i2 < requests.len()
            invariant
                upper@.len() == lower@.len(),
                requests@.len() == upper@.len(),
                requests_ok(upper@, lower@, requests@),
                any_free(upper@, lower@) ==> any_request(requests@),
                (forall|jj: int|
                    0 <= jj < upper@.len() && (#[trigger] upper@[jj]) ==> cell_blocked(
                        lower@,
                        jj,
                    )) ==> *rng == *old(rng),
                2 <= i2,
                changed ==> total_weight(requests@) < w0,
                !changed ==> total_weight(requests@) == w0,
                !changed ==> forall|jj: int|
                    0 <= jj < requests@.len() - 1 ==> !adj_conflict(requests@, jj),
                !changed ==> forall|jj: int| 0 <= jj < i2 - 2 ==> !dist2_conflict(requests@, jj),
            decreases requests@.len() - i2,
        {
            let a = requests[i2 - 2];
            let b = requests[i2];
            let ghost prev = requests@;
            if let (Some((Direction::Right, l_next)), Some((Direction::Left, r_next))) = (a, b) {
                proof {
                    if (forall|jj: int|
                        0 <= jj < upper@.len() && (#[trigger] upper@[jj]) ==> cell_blocked(
                            lower@,
                            jj,
                        )) {
                        assert(request_entry_ok(upper@, lower@, i2 - 2, requests@[i2 - 2]));
                        assert(false);
                    }
                }
                if rng_bool(rng) {
                    let e = fallback(l_next);
                    proof {
                        lemma_weight_update(requests@, i2 as int - 2, e);
                    }
                    requests.set(i2 - 2, e);
                } else {
                    let e = fallback(r_next);
                    proof {
                        lemma_weight_update(requests@, i2 as int, e);
                    }
                    requests.set(i2, e);
                }
                changed = true;
                proof {
                    assert(requests@[i2 as int] is Some || requests@[i2 as int - 2] is Some);
                    assert forall|jj: int|
                        0 <= jj < requests@.len() implies request_entry_ok(
                        upper@,
                        lower@,
                        jj,
                        requests@[jj],
                    ) by {
                        assert(request_entry_ok(upper@, lower@, jj, prev[jj]));
                        if requests@[jj] != prev[jj] {
                            assert(requests@[jj] == fallback_spec(
                                if jj == i2 as int - 2 {
                                    l_next
                                } else {
                                    r_next
                                },
                            ));
                        }
                    }
                }
            }
            i2 = i2 + 1;
        }

        proof {
            lemma_weight_nonneg(requests@);
        }
    }

    // Keep only the surviving directions.
    let mut result: Vec<Option<Direction>> = Vec::new();
    let mut j2: usize = 0;
    while j2 < requests.len()
        invariant
            upper@.len() == lower@.len(),
            requests@.len() == upper@.len(),
            requests_ok(upper@, lower@, requests@),
            any_free(upper@, lower@) ==> any_request(requests@),
            no_conflicts(requests@),
            j2 <= requests@.len(),
            result@.len() == j2,
            forall|jj: int| 0 <= jj < j2 ==> result@[jj] == primary_of(requests@[jj]),
        decreases requests@.len() - j2,
    {
        let e: Option<Direction> = match requests[j2] {
            Some((d, _)) => Some(d),
            None => None,
        };
        result.push(e);
        j2 = j2 + 1;
    }

    proof {
        let req = requests@;
        let res = result@;
        let up = upper@;
        let low = lower@;
        assert forall|jj: int, kk: int|
            0 <= jj < kk < res.len() && res[jj] is Some && res[kk] is Some implies move_dest(
            res,
            jj,
        ) != move_dest(res, kk) by {
            assert(request_entry_ok(up, low, jj, req[jj]));
            assert(request_entry_ok(up, low, kk, req[kk]));
            if kk == jj + 1 {
                assert(!adj_conflict(req, jj));
            } else if kk == jj + 2 {
                assert(!dist2_conflict(req, jj));
            }
        }
        assert forall|jj: int|
            0 <= jj < res.len() && up[jj] && !low[jj] implies res[jj] is Some by {
            assert(request_entry_ok(up, low, jj, req[jj]));
            assert(open_toward(low, jj, Direction::Down));
        }
        if any_free(up, low) {
            let j0 = choose|j0: int| 0 <= j0 < req.len() && (#[trigger] req[j0]) is Some;
            assert(res[j0] is Some);
        }
    }
    result
}

/// Occupancy of row `y`: one flag per column, `true` where a grain sits.
fn occupancy_row(grid: &Grid, y: usize) -> (r: Vec<bool>)
    requires
        grid.wf(),
        y < grid.spec_height(),
    ensures
        r@.len() == grid.spec_width(),
        forall|x: int| 0 <= x < r@.len() ==> r@[x] == grid.occupied(x, y as int),
{
    let w = grid.width();
    let mut r: Vec<bool> = Vec::new();
    let mut x: usize = 0;
    while x < w
        invariant
            grid.wf(),
            y < grid.spec_height(),
            w == grid.spec_width(),
            x <= w,
            r@.len() == x,
            forall|k: int| 0 <= k < x ==> r@[k] == grid.occupied(k, y as int),
        decreases w - x,
    {
        r.push(grid.get(x, y).is_some());
        x = x + 1;
    }
    r
}

/// One physics tick: sweep every adjacent row pair from the bottom pair up
/// to the top pair, resolve the moves of the upper row into the lower row,
/// and apply them. Each applied move relocates one grain into a previously
/// empty cell, so grains are conserved — overall and per color — whatever
/// the random stream returned, every grain either keeps its cell or falls
/// exactly one cell straight or diagonally down, and grains on the floor
/// row keep their cells. A tick is the identity exactly on settled boards,
/// and on a settled board (a one-row board among them) it consumes no
/// randomness.
pub fn run_rng_physics(rng: &mut WyRand, grid: &mut Grid)
    requires
        old(grid).wf(),
    ensures
        final(grid).wf(),
        final(grid).spec_width() == old(grid).spec_width(),
        final(grid).spec_height() == old(grid).spec_height(),
        final(grid).grain_count() == old(grid).grain_count(),
        forall|c: Color| final(grid).color_count(c) == old(grid).color_count(c),
        forall|x: int, y: int|
            old(grid).in_bounds(x, y) && (#[trigger] final(grid).at(x, y)) is Some
                ==> final(grid).at(x, y) == old(grid).at(x, y) || fell_from_above(
                *old(grid),
                *final(grid),
                x,
                y,
            ),
        forall|x: int, y: int|
            0 <= x < old(grid).spec_width() && y == old(grid).spec_height() - 1 && (
            #[trigger] old(grid).at(x, y)) is Some ==> final(grid).at(x, y) == old(grid).at(x, y),
        settled(*old(grid)) ==> *final(grid) == *old(grid),
        !settled(*old(grid)) ==> *final(grid) != *old(grid),
        settled(*old(grid)) ==> *final(rng) == *old(rng),
        old(grid).spec_height() <= 1 ==> *final(rng) == *old(rng),
{
    let h = grid.height();
    proof {
        if !settled(*old(grid)) {
            let (x0, y0) = choose|x0: int, y0: int|
                old(grid).in_bounds(x0, y0) && y0 < old(grid).spec_height() - 1 && (
                #[trigger] old(grid).occupied(x0, y0)) && !supported(*old(grid), x0, y0);
            assert(loose_grain_upto(*old(grid), h - 2));
        }
    }
    let mut i: usize = h;
    while i > 1
        invariant
            grid.wf(),
            grid.spec_width() == old(grid).spec_width(),
            grid.spec_height() == old(grid).spec_height(),
            grid.grain_count() == old(grid).grain_count(),
            forall|c: Color| grid.color_count(c) == old(grid).color_count(c),
            settled(*old(grid)) ==> *grid == *old(grid),
            settled(*old(grid)) ==> *rng == *old(rng),
            h <= 1 ==> *rng == *old(rng),
            !settled(*old(grid)) ==> ((*grid == *old(grid) && loose_grain_upto(
                *old(grid),
                i - 2,
            )) || (exists|cx: int, cy: int|
                old(grid).in_bounds(cx, cy) && cy >= i && (#[trigger] grid.at(cx, cy)) != old(
                    grid,
                ).at(cx, cy))),
            // rows the sweep has not reached are as the tick began
            forall|x: int, y: int|
                old(grid).in_bounds(x, y) && y <= i - 2 ==> (#[trigger] grid.at(x, y)) == old(
                    grid,
                ).at(x, y),
            // the next source row has only lost grains so far
            forall|x: int, y: int|
                0 <= x < old(grid).spec_width() && y == i - 1 && (#[trigger] grid.at(x, y))
                    is Some ==> grid.at(x, y) == old(grid).at(x, y),
            // swept rows hold grains that stayed or fell one cell
            forall|x: int, y: int|
                old(grid).in_bounds(x, y) && y >= i && (#[trigger] grid.at(x, y)) is Some
                    ==> grid.at(x, y) == old(grid).at(x, y) || fell_from_above(
                    *old(grid),
                    *grid,
                    x,
                    y,
                ),
            // the floor row keeps its grains
            forall|x: int, y: int|
                0 <= x < old(grid).spec_width() && y == old(grid).spec_height() - 1 && (
                #[trigger] old(grid).at(x, y)) is Some ==> grid.at(x, y) == old(grid).at(x, y),
            h == grid.spec_height(),
            i <= h,
            1 <= i || i == h,
        decreases i,
    {
        i = i - 1;
        // Source row i - 1 above, destination row i below.
        let ghost g0 = *grid;
        let upper = occupancy_row(grid, i - 1);
        let lower = occupancy_row(grid, i);
        let moves = run_physics_line(rng, &upper, &lower);
        let w = grid.width();
        proof {
            if settled(*old(grid)) {
                assert forall|k: int|
                    0 <= k < upper@.len() && (#[trigger] upper@[k]) implies cell_blocked(
                    lower@,
                    k,
                ) by {
                    assert(g0.occupied(k, i - 1));
                    assert(supported(g0, k, i - 1));
                    assert(!open_toward(lower@, k, Direction::Left));
                    assert(!open_toward(lower@, k, Direction::Down));
                    assert(!open_toward(lower@, k, Direction::Right));
                }
                assert(*rng == *old(rng));
                assert forall|k: int| 0 <= k < w implies moves@[k] is None by {
                    if upper@[k] {
                        assert(cell_blocked(lower@, k));
                    }
                }
            }
        }
        let mut jx: usize = 0;
        while jx < w
            invariant
                grid.wf(),
                grid.spec_width() == g0.spec_width(),
                grid.spec_height() == g0.spec_height(),
                g0.wf(),
                w == g0.spec_width(),
                1 <= i < g0.spec_height(),
                upper@.len() == w,
                lower@.len() == w,
                moves@.len() == w,
                forall|k: int| 0 <= k < w ==> upper@[k] == g0.occupied(k, i - 1),
                forall|k: int| 0 <= k < w ==> lower@[k] == g0.occupied(k, i as int),
                forall|k: int|
                    0 <= k < w ==> ((#[trigger] moves@[k]) matches Some(d) ==> upper@[k]
                        && open_toward(lower@, k, d)),
                forall|a: int, b: int|
                    0 <= a < b < w && moves@[a] is Some && moves@[b] is Some ==> move_dest(
                        moves@,
                        a,
                    ) != move_dest(moves@, b),
                grid.grain_count() == g0.grain_count(),
                forall|c: Color| grid.color_count(c) == g0.color_count(c),
                forall|k: int|
                    jx <= k < w && moves@[k] is Some ==> grid.at(k, i - 1) == g0.at(k, i - 1),
                forall|k: int|
                    jx <= k < w ==> ((#[trigger] moves@[k]) matches Some(d) ==> grid.at(
                        dest_col(k, d),
                        i as int,
                    ) is None),
                settled(*old(grid)) ==> (*grid == *old(grid) && forall|k: int|
                    0 <= k < w ==> moves@[k] is None),
                forall|cx: int, cy: int|
                    g0.in_bounds(cx, cy) && cy >= i + 1 ==> (#[trigger] grid.at(cx, cy)) == g0.at(
                        cx,
                        cy,
                    ),
                g0 == *old(grid) ==> ((*grid == g0 && (forall|k: int|
                    0 <= k < jx ==> moves@[k] is None)) || (exists|cx: int|
                    0 <= cx < w && (#[trigger] grid.at(cx, i as int)) != g0.at(cx, i as int))),
                // rows below the pair are untouched
                forall|x: int, y: int|
                    g0.in_bounds(x, y) && y <= i - 2 ==> (#[trigger] grid.at(x, y)) == g0.at(x, y),
                // the source row has only lost grains
                forall|x: int, y: int|
                    0 <= x < w && y == i - 1 && (#[trigger] grid.at(x, y)) is Some ==> grid.at(
                        x,
                        y,
                    ) == g0.at(x, y),
                // destination-row grains were there already or fell in from
                // the source row
                forall|x: int, y: int|
                    0 <= x < w && y == i as int && (#[trigger] grid.at(x, y)) is Some ==> grid.at(
                        x,
                        y,
                    ) == g0.at(x, y) || fell_from_above(g0, *grid, x, y),
                // the floor row keeps its grains
                forall|x: int, y: int|
                    0 <= x < w && y == g0.spec_height() - 1 && (#[trigger] old(grid).at(x, y))
                        is Some ==> grid.at(x, y) == old(grid).at(x, y),
                jx <= w,
            decreases w - jx,
        {
            if let Some(d) = moves[jx] {
                proof {
                    assert(open_toward(lower@, jx as int, d));
                }
                let dst: usize = match d {
                    Direction::Left => jx - 1,
                    Direction::Down => jx,
                    Direction::Right => jx + 1,
                };
                let src = grid.get(jx, i - 1);
                proof {
                    assert(grid.at(jx as int, i - 1) == g0.at(jx as int, i - 1));
                    assert(upper@[jx as int]);
                    assert(src is Some);
                    assert(grid.at(dest_col(jx as int, d), i as int) is None);
                    assert(dst as int == dest_col(jx as int, d));
                }
                let ghost gprev = *grid;
                grid.set(dst, i, src);
                grid.set(jx, i - 1, None);
                proof {
                    assert forall|k: int|
                        jx + 1 <= k < w && moves@[k] is Some implies grid.at(k, i - 1) == g0.at(
                        k,
                        i - 1,
                    ) by {}
                    assert forall|k: int|
                        jx + 1 <= k < w implies ((#[trigger] moves@[k]) matches Some(d2)
                        ==> grid.at(dest_col(k, d2), i as int) is None) by {
                        if moves@[k] is Some {
                            let d2 = moves@[k]->0;
                            assert(open_toward(lower@, k, d2));
                            assert(moves@[jx as int] is Some);
                            assert(move_dest(moves@, jx as int) == dest_col(jx as int, d));
                            assert(move_dest(moves@, k) == dest_col(k, d2));
                            assert(move_dest(moves@, k) != move_dest(moves@, jx as int));
                        }
                    }
                    if g0 == *old(grid) {
                        assert(!lower@[dest_col(jx as int, d)]);
                        assert(g0.at(dest_col(jx as int, d), i as int) is None);
                        assert(grid.at(dest_col(jx as int, d), i as int) is Some);
                    }
                    assert forall|x: int, y: int|
                        0 <= x < w && y == i as int && (#[trigger] grid.at(x, y))
                        is Some implies grid.at(x, y) == g0.at(x, y) || fell_from_above(
                        g0,
                        *grid,
                        x,
                        y,
                    ) by {
                        if x == dst as int {
                            assert(g0.in_bounds(jx as int, i - 1));
                            assert(grid.at(x, y) == g0.at(jx as int, i - 1));
                            assert(g0.at(jx as int, i - 1) is Some);
                            assert(fell_from_above(g0, *grid, x, y));
                        } else {
                            assert(grid.at(x, y) == gprev.at(x, y));
                            if gprev.at(x, y) is Some && gprev.at(x, y) != g0.at(x, y) {
                                let j = choose|j: int|
                                    x - 1 <= j <= x + 1 && g0.in_bounds(j, i - 1) && (
                                    #[trigger] g0.at(j, i - 1)) is Some && gprev.at(x, y)
                                        == g0.at(j, i - 1);
                                assert(fell_from_above(g0, *grid, x, y));
                            }
                        }
                    }
                    assert forall|x: int, y: int|
                        0 <= x < w && y == g0.spec_height() - 1 && (#[trigger] old(grid).at(x, y))
                        is Some implies grid.at(x, y) == old(grid).at(x, y) by {
                        if i as int == g0.spec_height() - 1 && x == dst as int {
                            assert(gprev.at(x, y) == old(grid).at(x, y));
                            assert(gprev.at(dst as int, i as int) is None);
                        }
                    }
                }
            }
            jx = jx + 1;
        }
        proof {
            // swept-rows movement fact for the new sweep boundary
            assert forall|x: int, y: int|
                old(grid).in_bounds(x, y) && y >= i && (#[trigger] grid.at(x, y))
                is Some implies grid.at(x, y) == old(grid).at(x, y) || fell_from_above(
                *old(grid),
                *grid,
                x,
                y,
            ) by {
                if y >= i + 1 {
                    assert(grid.at(x, y) == g0.at(x, y));
                    if g0.at(x, y) != old(grid).at(x, y) {
                        let j = choose|j: int|
                            x - 1 <= j <= x + 1 && old(grid).in_bounds(j, y - 1) && (
                            #[trigger] old(grid).at(j, y - 1)) is Some && g0.at(x, y) == old(
                                grid,
                            ).at(j, y - 1);
                        assert(fell_from_above(*old(grid), *grid, x, y));
                    }
                } else {
                    if grid.at(x, y) == g0.at(x, y) {
                        assert(g0.at(x, y) is Some);
                    } else {
                        let j = choose|j: int|
                            x - 1 <= j <= x + 1 && g0.in_bounds(j, y - 1) && (#[trigger] g0.at(
                                j,
                                y - 1,
                            )) is Some && grid.at(x, y) == g0.at(j, y - 1);
                        assert(old(grid).at(j, y - 1) == g0.at(j, y - 1));
                        assert(fell_from_above(*old(grid), *grid, x, y));
                    }
                }
            }
            assert forall|x: int, y: int|
                0 <= x < w && y == i - 1 && (#[trigger] grid.at(x, y)) is Some implies grid.at(
                x,
                y,
            ) == old(grid).at(x, y) by {
                assert(g0.at(x, y) == old(grid).at(x, y));
            }
            assert forall|x: int, y: int|
                old(grid).in_bounds(x, y) && y <= i - 2 implies (#[trigger] grid.at(x, y)) == old(
                grid,
            ).at(x, y) by {
                assert(grid.at(x, y) == g0.at(x, y));
            }
            if !settled(*old(grid)) {
                if g0 == *old(grid) && loose_grain_upto(*old(grid), i - 1) {
                    if !loose_grain_upto(*old(grid), i - 2) {
                        // The loose grain sits in this pair's source row, so
                        // the line kept a move and the pair changed row i.
                        let (x0, y0) = choose|x0: int, y0: int|
                            old(grid).in_bounds(x0, y0) && y0 <= i - 1 && y0 < old(
                                grid,
                            ).spec_height() - 1 && (#[trigger] old(grid).occupied(x0, y0))
                                && !supported(*old(grid), x0, y0);
                        assert(y0 == i - 1);
                        assert(upper@[x0]);
                        assert(!cell_blocked(lower@, x0));
                        assert(any_free(upper@, lower@));
                        let j0 = choose|j0: int|
                            0 <= j0 < moves@.len() && (#[trigger] moves@[j0]) is Some;
                        assert(!(forall|k: int| 0 <= k < w ==> moves@[k] is None));
                    }
                } else {
                    let (cx0, cy0) = choose|cx0: int, cy0: int|
                        old(grid).in_bounds(cx0, cy0) && cy0 >= i + 1 && (#[trigger] g0.at(
                            cx0,
                            cy0,
                        )) != old(grid).at(cx0, cy0);
                    assert(g0.in_bounds(cx0, cy0));
                    assert(grid.at(cx0, cy0) == g0.at(cx0, cy0));
                }
            }
        }
    }
    proof {
        if !settled(*old(grid)) && *grid == *old(grid) {
            assert(i == 1);
            assert(loose_grain_upto(*old(grid), i - 2));
            assert(false);
        }
        assert forall|x: int, y: int|
            old(grid).in_bounds(x, y) && (#[trigger] grid.at(x, y)) is Some implies grid.at(x, y)
            == old(grid).at(x, y) || fell_from_above(*old(grid), *grid, x, y) by {
            if y <= i - 1 {
                assert(grid.at(x, y) == old(grid).at(x, y));
            }
        }
    }
}

} // verus!
