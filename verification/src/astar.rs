//! A* shortest-path search over the 8-connected grid.
//!
//! Movement costs are exact: a path's cost is `s + d*sqrt(2)` for `s`
//! orthogonal and `d` diagonal steps, kept as the integer pair `(s, d)`
//! and compared without rounding.  The search refuses blocked cells and
//! never cuts a corner: a diagonal move is taken only when both cells
//! orthogonally adjacent to it are free.

use vstd::prelude::*;
use vstd::arithmetic::div_mod::{lemma_fundamental_div_mod, lemma_mod_bound};
use crate::grid::{Grid, GridPoint, ThreeGrid, cell_to_world_coord,
    lemma_cell_index_in_range, lemma_cell_index_injective};
use crate::robot::Vec3;
use crate::{MAX_DIM, MAX_WORLD};

verus! {

/// One move of the 8-connected neighborhood.
pub open spec fn is_dir(dx: int, dz: int) -> bool {
    (dx != 0 || dz != 0) && -1 <= dx <= 1 && -1 <= dz <= 1
}

/// A diagonal move.
pub open spec fn is_diag(dx: int, dz: int) -> bool {
    dx != 0 && dz != 0
}

/// One legal step of the search: both cells are on the grid and
/// 8-adjacent, the target cell is not blocked, and a diagonal move is
/// refused when either cell orthogonally adjacent to both endpoints
/// (a corner of the move) is blocked.
pub open spec fn can_step(g: Grid, x1: int, z1: int, x2: int, z2: int) -> bool {
    &&& g.in_bounds(x1, z1)
    &&& g.in_bounds(x2, z2)
    &&& is_dir(x2 - x1, z2 - z1)
    &&& !g.cell(x2, z2).blocked
    &&& (is_diag(x2 - x1, z2 - z1)
        ==> !g.cell(x2, z1).blocked && !g.cell(x1, z2).blocked)
}

/// An ordered cell sequence whose consecutive cells are legal steps.
pub open spec fn step_chain(g: Grid, path: Seq<GridPoint>) -> bool {
    forall|i: int| 0 <= i < path.len() - 1
        ==> can_step(g, (#[trigger] path[i]).gx as int, path[i].gz as int,
            path[i + 1].gx as int, path[i + 1].gz as int)
}

/// A walk from `start` to `goal` in legal steps; the goal cell is not
/// blocked.  (The start cell itself may be blocked: the search only
/// ever refuses to step onto a blocked cell.)
pub open spec fn valid_cell_path(
    g: Grid,
    path: Seq<GridPoint>,
    start: GridPoint,
    goal: GridPoint,
) -> bool {
    &&& path.len() >= 1
    &&& path[0] == start
    &&& path[path.len() - 1] == goal
    &&& g.in_bounds(start.gx as int, start.gz as int)
    &&& !g.cell(goal.gx as int, goal.gz as int).blocked
    &&& step_chain(g, path)
}

/// Law: no corner cutting.  Wherever a chain the search accepts takes
/// a diagonal move, neither cell orthogonally adjacent to the move is
/// blocked — so a diagonal across a blocked corner appears in no
/// returned path, even when the diagonal's target cell is free.
pub proof fn lemma_no_corner_cut(g: Grid, path: Seq<GridPoint>, i: int)
    requires
        step_chain(g, path),
        0 <= i < path.len() - 1,
        is_diag(path[i + 1].gx - path[i].gx, path[i + 1].gz - path[i].gz),
    ensures
        !g.cell(path[i + 1].gx as int, path[i].gz as int).blocked,
        !g.cell(path[i].gx as int, path[i + 1].gz as int).blocked,
{
    assert(can_step(g, path[i].gx as int, path[i].gz as int,
        path[i + 1].gx as int, path[i + 1].gz as int));
}

/// The world point of a cell.
pub open spec fn world_point_of(g: Grid, p: GridPoint) -> ThreeGrid {
    ThreeGrid {
        x: cell_to_world_coord(g.spec_width(), p.gx as int) as i64,
        z: cell_to_world_coord(g.spec_height(), p.gz as int) as i64,
    }
}

/// No cell appears twice.
pub open spec fn no_repeats(cells: Seq<GridPoint>) -> bool {
    forall|i: int, j: int| 0 <= i < j < cells.len()
        ==> (#[trigger] cells[i]) != (#[trigger] cells[j])
}

/// `world` is `cells`, converted cell by cell to world points.
pub open spec fn is_world_path(g: Grid, world: Seq<ThreeGrid>, cells: Seq<GridPoint>) -> bool {
    &&& world.len() == cells.len()
    &&& forall|i: int| 0 <= i < cells.len()
        ==> world[i] == world_point_of(g, #[trigger] cells[i])
}

/// Whether `s1 + d1*sqrt(2) <= s2 + d2*sqrt(2)`, decided exactly:
/// `s1 - s2 <= (d2 - d1)*sqrt(2)` holds iff the signs allow it and the
/// squares compare accordingly (for integers, `a*a == 2*b*b` only when
/// both sides are zero, so no rounding ambiguity exists).
pub open spec fn cost_le(s1: int, d1: int, s2: int, d2: int) -> bool {
    let a = s1 - s2;
    let b = d2 - d1;
    if b >= 0 {
        a <= 0 || a * a <= 2 * (b * b)
    } else {
        a < 0 && a * a >= 2 * (b * b)
    }
}

/// Whether `s1 + d1*sqrt(2) < s2 + d2*sqrt(2)`.
pub open spec fn cost_lt(s1: int, d1: int, s2: int, d2: int) -> bool {
    !cost_le(s2, d2, s1, d1)
}

/// Bound on every cost component the search stores; keeps the squared
/// comparison inside `i64`.
pub const COST_CAP: u64 = 2_000_000_000;

/// Decide the strict cost order on stored cost pairs.
fn cost_lt_exec(s1: u64, d1: u64, s2: u64, d2: u64) -> (r: bool)
    requires
        s1 <= COST_CAP,
        d1 <= COST_CAP,
        s2 <= COST_CAP,
        d2 <= COST_CAP,
    ensures
        r == cost_lt(s1 as int, d1 as int, s2 as int, d2 as int),
{
    let a: i64 = (s2 as i64) - (s1 as i64);
    let b: i64 = (d1 as i64) - (d2 as i64);
    proof {
        assert(a * a <= 4_000_000_000_000_000_000
            && 0 <= a * a
            && b * b <= 4_000_000_000_000_000_000
            && 0 <= b * b) by (nonlinear_arith)
            requires
                -2_000_000_000 <= a && a <= 2_000_000_000
                    && -2_000_000_000 <= b && b <= 2_000_000_000;
    }
    let le: bool = if b >= 0 {
        a <= 0 || a * a <= 2 * (b * b)
    } else {
        a < 0 && a * a >= 2 * (b * b)
    };
    !le
}

/// The cost order is transitive.
pub proof fn lemma_cost_le_trans(s1: int, d1: int, s2: int, d2: int, s3: int, d3: int)
    requires
        cost_le(s1, d1, s2, d2),
        cost_le(s2, d2, s3, d3),
    ensures
        cost_le(s1, d1, s3, d3),
{
    let a1 = s1 - s2;
    let b1 = d2 - d1;
    let a2 = s2 - s3;
    let b2 = d3 - d2;
    let a = s1 - s3;
    let b = d3 - d1;
    assert(if b >= 0 {
        a <= 0 || a * a <= 2 * (b * b)
    } else {
        a < 0 && a * a >= 2 * (b * b)
    }) by (nonlinear_arith)
        requires
            a == a1 + a2 && b == b1 + b2
                && (if b1 >= 0 {
                    a1 <= 0 || a1 * a1 <= 2 * (b1 * b1)
                } else {
                    a1 < 0 && a1 * a1 >= 2 * (b1 * b1)
                })
                && (if b2 >= 0 {
                    a2 <= 0 || a2 * a2 <= 2 * (b2 * b2)
                } else {
                    a2 < 0 && a2 * a2 >= 2 * (b2 * b2)
                });
}

/// The larger axis distance minus the smaller: the orthogonal steps of
/// the octile distance between two cells.
pub open spec fn octile_straight(a: GridPoint, b: GridPoint) -> int {
    let dx = abs_diff(a.gx as int, b.gx as int);
    let dz = abs_diff(a.gz as int, b.gz as int);
    if dx >= dz { dx - dz } else { dz - dx }
}

/// The smaller axis distance: the diagonal steps of the octile
/// distance between two cells.
pub open spec fn octile_diag(a: GridPoint, b: GridPoint) -> int {
    let dx = abs_diff(a.gx as int, b.gx as int);
    let dz = abs_diff(a.gz as int, b.gz as int);
    if dx >= dz { dz } else { dx }
}

/// Distance of two coordinates.
pub open spec fn abs_diff(a: int, b: int) -> int {
    if a >= b { a - b } else { b - a }
}

/// Cost of a chain, as (orthogonal, diagonal) step counts.
pub open spec fn chain_cost(path: Seq<GridPoint>) -> (int, int)
    decreases path.len(),
{
    if path.len() <= 1 {
        (0int, 0int)
    } else {
        let rest = chain_cost(path.subrange(1, path.len() as int));
        if is_diag(path[1].gx - path[0].gx, path[1].gz - path[0].gz) {
            (rest.0, rest.1 + 1)
        } else {
            (rest.0 + 1, rest.1)
        }
    }
}

/// One 8-connected move shortens the octile distance to any fixed cell
/// by at most the move's own cost.
proof fn lemma_octile_step(a: GridPoint, b: GridPoint, c: GridPoint)
    requires
        is_dir(b.gx - a.gx, b.gz - a.gz),
    ensures
        cost_le(octile_straight(a, c), octile_diag(a, c),
            (if is_diag(b.gx - a.gx, b.gz - a.gz) { 0int } else { 1int })
                + octile_straight(b, c),
            (if is_diag(b.gx - a.gx, b.gz - a.gz) { 1int } else { 0int })
                + octile_diag(b, c)),
{
    let dxa = abs_diff(a.gx as int, c.gx as int);
    let dza = abs_diff(a.gz as int, c.gz as int);
    let dxb = abs_diff(b.gx as int, c.gx as int);
    let dzb = abs_diff(b.gz as int, c.gz as int);
    let diag = is_diag(b.gx - a.gx, b.gz - a.gz);
    let s1 = octile_straight(a, c);
    let d1 = octile_diag(a, c);
    let s2 = octile_straight(b, c);
    let d2 = octile_diag(b, c);
    let ss: int = if diag { 0 } else { 1 };
    let sd: int = 1 - ss;
    let aa = s1 - (ss + s2);
    let bb = (sd + d2) - d1;
    assert(-1 <= dxb - dxa <= 1);
    assert(-1 <= dzb - dza <= 1);
    assert(!diag ==> dxb == dxa || dzb == dza);
    assert(if bb >= 0 {
        aa <= 0 || aa * aa <= 2 * (bb * bb)
    } else {
        aa < 0 && aa * aa >= 2 * (bb * bb)
    }) by (nonlinear_arith)
        requires
            0 <= dxa && 0 <= dza && 0 <= dxb && 0 <= dzb
                && -1 <= dxb - dxa && dxb - dxa <= 1
                && -1 <= dzb - dza && dzb - dza <= 1
                && (!diag ==> dxb == dxa || dzb == dza)
                && s1 == (if dxa >= dza { dxa - dza } else { dza - dxa })
                && d1 == (if dxa >= dza { dza } else { dxa })
                && s2 == (if dxb >= dzb { dxb - dzb } else { dzb - dxb })
                && d2 == (if dxb >= dzb { dzb } else { dxb })
                && ss == (if diag { 0int } else { 1int })
                && sd == 1 - ss
                && aa == s1 - (ss + s2)
                && bb == (sd + d2) - d1;
}

/// Law: no legal walk beats the octile distance.  Any chain the search
/// accepts costs at least the octile distance between its endpoints —
/// and on an obstacle-free grid that distance is itself the cost of a
/// legal walk, so it is the optimum there.
pub proof fn lemma_octile_lower_bound(g: Grid, path: Seq<GridPoint>)
    requires
        path.len() >= 1,
        step_chain(g, path),
    ensures
        cost_le(octile_straight(path[0], path[path.len() - 1]),
            octile_diag(path[0], path[path.len() - 1]),
            chain_cost(path).0, chain_cost(path).1),
    decreases path.len(),
{
    if path.len() > 1 {
        let last: int = path.len() - 1;
        let rest = path.subrange(1, path.len() as int);
        assert(can_step(g, path[0].gx as int, path[0].gz as int,
            path[1].gx as int, path[1].gz as int));
        assert forall|i: int| 0 <= i < rest.len() - 1
            implies can_step(g, (#[trigger] rest[i]).gx as int, rest[i].gz as int,
                rest[i + 1].gx as int, rest[i + 1].gz as int)
        by {
            assert(rest[i] == path[i + 1]);
            assert(rest[i + 1] == path[i + 2]);
        }
        lemma_octile_lower_bound(g, rest);
        assert(rest[0] == path[1]);
        assert(rest[rest.len() - 1] == path[last]);
        lemma_octile_step(path[0], path[1], path[last]);
        let step_s: int = if is_diag(path[1].gx - path[0].gx,
            path[1].gz - path[0].gz) { 0int } else { 1int };
        let step_d: int = 1 - step_s;
        lemma_cost_le_trans(
            octile_straight(path[0], path[last]), octile_diag(path[0], path[last]),
            step_s + octile_straight(path[1], path[last]),
            step_d + octile_diag(path[1], path[last]),
            step_s + chain_cost(rest).0,
            step_d + chain_cost(rest).1,
        );
    }
}

/// The octile heuristic: the cost of the cheapest conceivable
/// 8-connected walk between two cells, as many diagonal steps as the
/// smaller axis distance and orthogonal steps for the rest.
fn heuristic(a: &GridPoint, b: &GridPoint) -> (h: (u64, u64))
    requires
        0 <= a.gx <= MAX_DIM,
        0 <= a.gz <= MAX_DIM,
        0 <= b.gx <= MAX_DIM,
        0 <= b.gz <= MAX_DIM,
    ensures
        h.0 == octile_straight(*a, *b),
        h.1 == octile_diag(*a, *b),
        h.0 <= MAX_DIM,
        h.1 <= MAX_DIM,
{
    let dx: i64 = if a.gx >= b.gx { (a.gx - b.gx) as i64 } else { (b.gx - a.gx) as i64 };
    let dz: i64 = if a.gz >= b.gz { (a.gz - b.gz) as i64 } else { (b.gz - a.gz) as i64 };
    if dx >= dz {
        ((dx - dz) as u64, dz as u64)
    } else {
        ((dz - dx) as u64, dx as u64)
    }
}

/// Append the neighbor of `p` in direction `(dx, dz)` when stepping
/// there is legal; leave the list unchanged otherwise.  A direction no
/// earlier entry came from keeps the list free of duplicates.
fn push_neighbor(
    grid: &Grid,
    p: GridPoint,
    dx: i32,
    dz: i32,
    res: &mut Vec<(GridPoint, bool)>,
)
    requires
        grid.wf(),
        grid.in_bounds(p.gx as int, p.gz as int),
        is_dir(dx as int, dz as int),
        forall|i: int| 0 <= i < old(res)@.len()
            ==> !((#[trigger] old(res)@[i]).0.gx == p.gx + dx
                && old(res)@[i].0.gz == p.gz + dz),
        forall|i: int, j: int| 0 <= i < j < old(res)@.len()
            ==> (#[trigger] old(res)@[i]).0 != (#[trigger] old(res)@[j]).0,
    ensures
        forall|e: (GridPoint, bool)| old(res)@.contains(e) ==> final(res)@.contains(e),
        final(res)@.len() <= old(res)@.len() + 1,
        forall|i: int| old(res)@.len() <= i < final(res)@.len() ==> {
            let (q, diag) = (#[trigger] final(res)@[i]);
            &&& q.gx == p.gx + dx && q.gz == p.gz + dz
            &&& can_step(*grid, p.gx as int, p.gz as int, q.gx as int, q.gz as int)
            &&& diag == is_diag(dx as int, dz as int)
        },
        forall|i: int| 0 <= i < old(res)@.len()
            ==> #[trigger] final(res)@[i] == old(res)@[i],
        forall|i: int, j: int| 0 <= i < j < final(res)@.len()
            ==> (#[trigger] final(res)@[i]).0 != (#[trigger] final(res)@[j]).0,
        can_step(*grid, p.gx as int, p.gz as int, p.gx + dx, p.gz + dz)
            ==> final(res)@.contains((GridPoint { gx: (p.gx + dx) as i32, gz: (p.gz + dz) as i32 },
                is_diag(dx as int, dz as int))),
    {
        let nx: i32 = p.gx + dx;
        let nz: i32 = p.gz + dz;
        if nx < 0 || nz < 0 {
            return;
        }
        let w: usize = grid.width();
        let h: usize = grid.height();
        if nx as usize >= w || nz as usize >= h {
            return;
        }
        if grid.get_cell(nx as usize, nz as usize).blocked {
            return;
        }
        let diagonal: bool = dx != 0 && dz != 0;
        if diagonal {
            if grid.get_cell(nx as usize, p.gz as usize).blocked {
                return;
            }
            if grid.get_cell(p.gx as usize, nz as usize).blocked {
                return;
            }
        }
        let q: GridPoint = GridPoint { gx: nx, gz: nz };
        res.push((q, diagonal));
        proof {
            assert(res@[old(res)@.len() as int] == (q, diagonal));
            assert(res@.contains((q, diagonal)));
            assert forall|e: (GridPoint, bool)| old(res)@.contains(e)
                implies res@.contains(e)
            by {
                let i: int = choose|i: int| 0 <= i < old(res)@.len() && old(res)@[i] == e;
                assert(res@[i] == e);
            }
        }
    }

/// Entry `e` names the neighbor of `p` in direction `(dx, dz)`.
spec fn entry_in_dir(e: (GridPoint, bool), p: GridPoint, dx: int, dz: int) -> bool {
    e.0.gx == p.gx + dx && e.0.gz == p.gz + dz
}

/// The legal neighbors of `p`, each tagged with whether the move to it
/// is diagonal.  Complete: every cell one legal step from `p` is
/// listed.  At most eight entries, no cell listed twice.
fn get_neighbors(grid: &Grid, p: GridPoint) -> (res: Vec<(GridPoint, bool)>)
    requires
        grid.wf(),
        grid.in_bounds(p.gx as int, p.gz as int),
    ensures
        forall|i: int| 0 <= i < res@.len() ==> {
            let (q, diag) = (#[trigger] res@[i]);
            &&& can_step(*grid, p.gx as int, p.gz as int, q.gx as int, q.gz as int)
            &&& diag == is_diag(q.gx - p.gx, q.gz - p.gz)
        },
        forall|qx: int, qz: int| #[trigger] can_step(*grid, p.gx as int, p.gz as int, qx, qz)
            ==> res@.contains((GridPoint { gx: qx as i32, gz: qz as i32 },
                is_diag(qx - p.gx, qz - p.gz))),
        res@.len() <= 8,
        forall|i: int, j: int| 0 <= i < j < res@.len()
            ==> (#[trigger] res@[i]).0 != (#[trigger] res@[j]).0,
{
    let mut res: Vec<(GridPoint, bool)> = Vec::new();
    push_neighbor(grid, p, 1, 0, &mut res);
    proof {
        assert forall|i: int| 0 <= i < res@.len()
            implies entry_in_dir(#[trigger] res@[i], p, 1, 0)
        by {
        }
    }
    push_neighbor(grid, p, -1, 0, &mut res);
    proof {
        assert forall|i: int| 0 <= i < res@.len()
            implies entry_in_dir(#[trigger] res@[i], p, 1, 0)
                || entry_in_dir(res@[i], p, -1, 0)
        by {
        }
    }
    push_neighbor(grid, p, 0, 1, &mut res);
    proof {
        assert forall|i: int| 0 <= i < res@.len()
            implies entry_in_dir(#[trigger] res@[i], p, 1, 0)
                || entry_in_dir(res@[i], p, -1, 0)
                || entry_in_dir(res@[i], p, 0, 1)
        by {
        }
    }
    push_neighbor(grid, p, 0, -1, &mut res);
    proof {
        assert forall|i: int| 0 <= i < res@.len()
            implies entry_in_dir(#[trigger] res@[i], p, 1, 0)
                || entry_in_dir(res@[i], p, -1, 0)
                || entry_in_dir(res@[i], p, 0, 1)
                || entry_in_dir(res@[i], p, 0, -1)
        by {
        }
    }
    push_neighbor(grid, p, 1, 1, &mut res);
    proof {
        assert forall|i: int| 0 <= i < res@.len()
            implies entry_in_dir(#[trigger] res@[i], p, 1, 0)
                || entry_in_dir(res@[i], p, -1, 0)
                || entry_in_dir(res@[i], p, 0, 1)
                || entry_in_dir(res@[i], p, 0, -1)
                || entry_in_dir(res@[i], p, 1, 1)
        by {
        }
    }
    push_neighbor(grid, p, -1, -1, &mut res);
    proof {
        assert forall|i: int| 0 <= i < res@.len()
            implies entry_in_dir(#[trigger] res@[i], p, 1, 0)
                || entry_in_dir(res@[i], p, -1, 0)
                || entry_in_dir(res@[i], p, 0, 1)
                || entry_in_dir(res@[i], p, 0, -1)
                || entry_in_dir(res@[i], p, 1, 1)
                || entry_in_dir(res@[i], p, -1, -1)
        by {
        }
    }
    push_neighbor(grid, p, 1, -1, &mut res);
    proof {
        assert forall|i: int| 0 <= i < res@.len()
            implies entry_in_dir(#[trigger] res@[i], p, 1, 0)
                || entry_in_dir(res@[i], p, -1, 0)
                || entry_in_dir(res@[i], p, 0, 1)
                || entry_in_dir(res@[i], p, 0, -1)
                || entry_in_dir(res@[i], p, 1, 1)
                || entry_in_dir(res@[i], p, -1, -1)
                || entry_in_dir(res@[i], p, 1, -1)
        by {
        }
    }
    push_neighbor(grid, p, -1, 1, &mut res);
    proof {
        assert forall|qx: int, qz: int|
            #[trigger] can_step(*grid, p.gx as int, p.gz as int, qx, qz)
            implies res@.contains((GridPoint { gx: qx as i32, gz: qz as i32 },
                is_diag(qx - p.gx, qz - p.gz)))
        by {
            let dx: int = qx - p.gx;
            let dz: int = qz - p.gz;
            assert(is_dir(dx, dz));
            assert(qx == p.gx + dx && qz == p.gz + dz);
        }
    }
    res
}

/// How many cells a closed-flag sequence still leaves open.
pub open spec fn count_unclosed(s: Seq<bool>) -> int
    decreases s.len(),
{
    if s.len() == 0 {
        0
    } else {
        count_unclosed(s.drop_last()) + if s.last() { 0int } else { 1int }
    }
}

proof fn lemma_count_unclosed_nonneg(s: Seq<bool>)
    ensures
        0 <= count_unclosed(s),
    decreases s.len(),
{
    if s.len() > 0 {
        lemma_count_unclosed_nonneg(s.drop_last());
    }
}

/// Closing one open cell lowers the count by one.
proof fn lemma_count_unclosed_close(s: Seq<bool>, i: int)
    requires
        0 <= i < s.len(),
        !s[i],
    ensures
        count_unclosed(s.update(i, true)) == count_unclosed(s) - 1,
    decreases s.len(),
{
    let t = s.update(i, true);
    if i == s.len() - 1 {
        assert(t.drop_last() =~= s.drop_last());
    } else {
        assert(t.drop_last() =~= s.drop_last().update(i, true));
        lemma_count_unclosed_close(s.drop_last(), i);
        assert(t.last() == s.last());
    }
}

/// A flat index inside a `w x h` grid decomposes into valid cell
/// coordinates.
pub proof fn lemma_flat_coords(w: int, h: int, i: int)
    requires
        1 <= w,
        0 <= i < w * h,
    ensures
        0 <= i % w < w,
        0 <= i / w < h,
        (i / w) * w + (i % w) == i,
{
    lemma_fundamental_div_mod(i, w);
    lemma_mod_bound(i, w);
    let q = i / w;
    let r = i % w;
    assert(0 <= q && q < h && q * w == w * q) by (nonlinear_arith)
        requires
            w * q + r == i && 0 <= r && r < w && 0 <= i && i < w * h && 1 <= w;
}

/// One entry of the open list: a candidate cell with the cost pair it
/// was reached at (`gs`, `gd`) and its priority (`fs`, `fd`), the cost
/// plus the heuristic to the goal.
#[derive(Debug, Clone, Copy)]
struct OpenEntry {
    idx: usize,
    gs: u64,
    gd: u64,
    fs: u64,
    fd: u64,
}

/// Whether the search has recorded a cost for flat cell `c`.
spec fn known(gsc: Seq<Option<(u64, u64)>>, c: int) -> bool {
    gsc[c] is Some
}

/// Total step count of the cost recorded for flat cell `c`.
spec fn sd(gsc: Seq<Option<(u64, u64)>>, c: int) -> int {
    (gsc[c]->0).0 + (gsc[c]->0).1
}

/// The cell coordinates of a flat index.
pub open spec fn cell_of(g: Grid, idx: int) -> GridPoint {
    GridPoint {
        gx: (idx % g.spec_width()) as i32,
        gz: (idx / g.spec_width()) as i32,
    }
}

/// The predecessor record of cell `c` is coherent: its parent is a
/// settled cell one legal step away, one step cheaper.
spec fn link_ok(
    g: Grid,
    gsc: Seq<Option<(u64, u64)>>,
    came: Seq<Option<usize>>,
    closed: Seq<bool>,
    c: int,
) -> bool {
    let w = g.spec_width();
    let p = came[c]->0 as int;
    &&& 0 <= p < gsc.len()
    &&& closed[p]
    &&& known(gsc, p)
    &&& known(gsc, c)
    &&& sd(gsc, c) == sd(gsc, p) + 1
    &&& can_step(g, p % w, p / w, c % w, c / w)
}

/// The search state invariant, except the settled-cell closure.
spec fn inv_base(
    g: Grid,
    start: int,
    goal: int,
    gsc: Seq<Option<(u64, u64)>>,
    came: Seq<Option<usize>>,
    closed: Seq<bool>,
) -> bool {
    let n = g.spec_width() * g.spec_height();
    &&& g.wf()
    &&& gsc.len() == n
    &&& came.len() == n
    &&& closed.len() == n
    &&& 0 <= start < n
    &&& 0 <= goal < n
    &&& known(gsc, start)
    &&& gsc[start] == Some((0u64, 0u64))
    &&& came[start] is None
    &&& !closed[goal]
    &&& forall|c: int| 0 <= c < n && #[trigger] known(gsc, c) && c != start
        ==> came[c] is Some
    &&& forall|c: int| 0 <= c < n && #[trigger] closed[c] ==> known(gsc, c)
    &&& forall|c: int| 0 <= c < n && (#[trigger] came[c]) is Some
        ==> link_ok(g, gsc, came, closed, c)
    &&& forall|c: int| 0 <= c < n && #[trigger] known(gsc, c)
        ==> 0 <= sd(gsc, c) <= n - count_unclosed(closed) + 1
}

/// Every settled cell has offered all its legal steps: their targets
/// carry a recorded cost.
spec fn closure_ok(g: Grid, gsc: Seq<Option<(u64, u64)>>, closed: Seq<bool>) -> bool {
    forall|cx: int, cz: int, qx: int, qz: int|
        #[trigger] can_step(g, cx, cz, qx, qz) && closed[g.cell_index(cx, cz)]
            ==> known(gsc, g.cell_index(qx, qz))
}

/// As `closure_ok`, with one settled cell still being offered.
spec fn closure_except(
    g: Grid,
    gsc: Seq<Option<(u64, u64)>>,
    closed: Seq<bool>,
    skip: int,
) -> bool {
    forall|cx: int, cz: int, qx: int, qz: int|
        #[trigger] can_step(g, cx, cz, qx, qz) && closed[g.cell_index(cx, cz)]
            && g.cell_index(cx, cz) != skip
            ==> known(gsc, g.cell_index(qx, qz))
}

/// Every open-list entry names a cell with a recorded cost, and its
/// stored numbers are small enough to compare.
spec fn open_ok(g: Grid, gsc: Seq<Option<(u64, u64)>>, open: Seq<OpenEntry>) -> bool {
    forall|j: int| 0 <= j < open.len() ==> {
        let e = #[trigger] open[j];
        &&& 0 <= e.idx < gsc.len()
        &&& known(gsc, e.idx as int)
        &&& e.gs <= COST_CAP
        &&& e.gd <= COST_CAP
        &&& e.fs <= COST_CAP
        &&& e.fd <= COST_CAP
    }
}

/// Every reached but unsettled cell still waits in the open list.
spec fn open_covers(gsc: Seq<Option<(u64, u64)>>, closed: Seq<bool>, open: Seq<OpenEntry>) -> bool {
    forall|c: int| 0 <= c < gsc.len() && #[trigger] known(gsc, c) && !closed[c]
        ==> exists|j: int| 0 <= j < open.len() && open[j].idx == c
}

proof fn lemma_count_unclosed_le_len(s: Seq<bool>)
    ensures
        count_unclosed(s) <= s.len(),
    decreases s.len(),
{
    if s.len() > 0 {
        lemma_count_unclosed_le_len(s.drop_last());
    }
}

/// A valid cell coordinate round-trips through its flat index.
proof fn lemma_cell_of_index(g: Grid, gx: int, gz: int)
    requires
        g.in_bounds(gx, gz),
    ensures
        g.cell_index(gx, gz) % g.spec_width() == gx,
        g.cell_index(gx, gz) / g.spec_width() == gz,
        0 <= g.cell_index(gx, gz) < g.spec_width() * g.spec_height(),
        cell_of(g, g.cell_index(gx, gz)) == (GridPoint { gx: gx as i32, gz: gz as i32 }),
{
    let w = g.spec_width();
    let h = g.spec_height();
    let i = g.cell_index(gx, gz);
    lemma_cell_index_in_range(w, h, gx, gz);
    lemma_flat_coords(w, h, i);
    lemma_cell_index_injective(w, i % w, i / w, gx, gz);
}

/// When every reached cell is settled and every settled cell has
/// offered its steps, a legal chain from a settled cell ends settled.
proof fn lemma_chain_closed(
    g: Grid,
    cells: Seq<GridPoint>,
    gsc: Seq<Option<(u64, u64)>>,
    closed: Seq<bool>,
)
    requires
        g.wf(),
        gsc.len() == g.spec_width() * g.spec_height(),
        closed.len() == gsc.len(),
        cells.len() >= 1,
        step_chain(g, cells),
        g.in_bounds(cells[0].gx as int, cells[0].gz as int),
        closed[g.cell_index(cells[0].gx as int, cells[0].gz as int)],
        closure_ok(g, gsc, closed),
        forall|c: int| 0 <= c < gsc.len() && #[trigger] known(gsc, c) ==> closed[c],
    ensures
        g.in_bounds(cells.last().gx as int, cells.last().gz as int),
        closed[g.cell_index(cells.last().gx as int, cells.last().gz as int)],
    decreases cells.len(),
{
    lemma_cell_index_in_range(g.spec_width(), g.spec_height(),
        cells[0].gx as int, cells[0].gz as int);
    if cells.len() == 1 {
    } else {
        let a = cells[0];
        let b = cells[1];
        assert(can_step(g, a.gx as int, a.gz as int, b.gx as int, b.gz as int));
        assert(known(gsc, g.cell_index(b.gx as int, b.gz as int)));
        lemma_cell_index_in_range(g.spec_width(), g.spec_height(),
            b.gx as int, b.gz as int);
        assert(closed[g.cell_index(b.gx as int, b.gz as int)]);
        let rest = cells.subrange(1, cells.len() as int);
        assert(rest.len() == cells.len() - 1);
        assert forall|i: int| 0 <= i < rest.len() - 1
            implies can_step(g, (#[trigger] rest[i]).gx as int, rest[i].gz as int,
                rest[i + 1].gx as int, rest[i + 1].gz as int)
        by {
            assert(rest[i] == cells[i + 1]);
            assert(rest[i + 1] == cells[i + 2]);
        }
        lemma_chain_closed(g, rest, gsc, closed);
        assert(rest.last() == cells.last());
    }
}

/// Removing one open entry by a swap with the last keeps every other
/// waiting cell covered.
proof fn lemma_cover_after_swap_remove(
    gsc: Seq<Option<(u64, u64)>>,
    closed: Seq<bool>,
    open0: Seq<OpenEntry>,
    open2: Seq<OpenEntry>,
    best: int,
)
    requires
        0 <= best < open0.len(),
        open2 == open0.update(best, open0.last()).drop_last(),
        open_covers(gsc, closed, open0),
    ensures
        forall|c: int|
            0 <= c < gsc.len() && #[trigger] known(gsc, c) && !closed[c]
                && c != open0[best].idx as int
            ==> exists|j: int| 0 <= j < open2.len() && open2[j].idx == c,
        forall|j: int| 0 <= j < open2.len()
            ==> exists|j0: int| 0 <= j0 < open0.len() && #[trigger] open2[j] == open0[j0],
{
    assert forall|j: int| 0 <= j < open2.len()
        implies exists|j0: int| 0 <= j0 < open0.len() && #[trigger] open2[j] == open0[j0]
    by {
        if j == best {
            assert(open2[j] == open0[open0.len() - 1]);
        } else {
            assert(open2[j] == open0[j]);
        }
    }
    assert forall|c: int|
        0 <= c < gsc.len() && #[trigger] known(gsc, c) && !closed[c]
            && c != open0[best].idx as int
        implies exists|j: int| 0 <= j < open2.len() && open2[j].idx == c
    by {
        let jj: int = choose|j: int| 0 <= j < open0.len() && open0[j].idx == c;
        assert(jj != best);
        if jj == open0.len() - 1 {
            assert(open2[best].idx == c);
        } else {
            assert(open2[jj].idx == c);
        }
    }
}

/// Offering one neighbor (recording its cost, its predecessor and an
/// open entry) preserves the search invariants.
proof fn lemma_after_update(
    g: Grid,
    start: int,
    goal: int,
    gsc0: Seq<Option<(u64, u64)>>,
    came0: Seq<Option<usize>>,
    closed: Seq<bool>,
    open1: Seq<OpenEntry>,
    gsc1: Seq<Option<(u64, u64)>>,
    came1: Seq<Option<usize>>,
    open2: Seq<OpenEntry>,
    cur_idx: int,
    cx: int,
    cz: int,
    np: GridPoint,
    nidx: int,
    ts: u64,
    td: u64,
    e: OpenEntry,
)
    requires
        inv_base(g, start, goal, gsc0, came0, closed),
        closure_except(g, gsc0, closed, cur_idx),
        open_ok(g, gsc0, open1),
        open_covers(gsc0, closed, open1),
        0 <= cur_idx < gsc0.len(),
        closed[cur_idx],
        goal != cur_idx,
        cur_idx == g.cell_index(cx, cz),
        g.in_bounds(cx, cz),
        known(gsc0, cur_idx),
        can_step(g, cx, cz, np.gx as int, np.gz as int),
        nidx == g.cell_index(np.gx as int, np.gz as int),
        !closed[nidx],
        nidx != start,
        ts + td == sd(gsc0, cur_idx) + 1,
        ts + td <= gsc0.len() - count_unclosed(closed) + 1,
        gsc1 == gsc0.update(nidx, Some((ts, td))),
        came1 == came0.update(nidx, Some(cur_idx as usize)),
        open2 == open1.push(e),
        e.idx == nidx,
        e.gs <= COST_CAP && e.gd <= COST_CAP && e.fs <= COST_CAP && e.fd <= COST_CAP,
    ensures
        inv_base(g, start, goal, gsc1, came1, closed),
        closure_except(g, gsc1, closed, cur_idx),
        open_ok(g, gsc1, open2),
        open_covers(gsc1, closed, open2),
        forall|c: int| 0 <= c < gsc0.len() && #[trigger] known(gsc0, c) ==> known(gsc1, c),
        known(gsc1, nidx),
{
    let w = g.spec_width();
    let h = g.spec_height();
    let n = w * h;
    assert(n <= MAX_DIM * MAX_DIM) by (nonlinear_arith)
        requires n == w * h && 0 <= w <= MAX_DIM && 0 <= h <= MAX_DIM;
    lemma_cell_of_index(g, np.gx as int, np.gz as int);
    lemma_cell_of_index(g, cx, cz);
    assert((came1[nidx]->0) as int == cur_idx);
    assert(link_ok(g, gsc1, came1, closed, nidx));
    assert forall|c: int| 0 <= c < n && (#[trigger] came1[c]) is Some
        implies link_ok(g, gsc1, came1, closed, c)
    by {
        if c != nidx {
            assert(came1[c] == came0[c]);
            assert(link_ok(g, gsc0, came0, closed, c));
            let pp: int = came0[c]->0 as int;
            assert(closed[pp]);
            assert(pp != nidx);
        }
    }
    assert forall|c: int| 0 <= c < n && #[trigger] known(gsc1, c)
        implies 0 <= sd(gsc1, c) <= n - count_unclosed(closed) + 1
    by {
        if c != nidx {
            assert(known(gsc0, c));
        }
    }
    assert forall|cx2: int, cz2: int, qx: int, qz: int|
        #[trigger] can_step(g, cx2, cz2, qx, qz)
            && closed[g.cell_index(cx2, cz2)] && g.cell_index(cx2, cz2) != cur_idx
        implies known(gsc1, g.cell_index(qx, qz))
    by {
        lemma_cell_index_in_range(w, h, qx, qz);
        assert(known(gsc0, g.cell_index(qx, qz)));
    }
    assert forall|c: int|
        0 <= c < gsc1.len() && #[trigger] known(gsc1, c) && !closed[c]
        implies exists|j: int| 0 <= j < open2.len() && open2[j].idx == c
    by {
        if c == nidx {
            assert(open2[open2.len() - 1].idx == c);
        } else {
            assert(known(gsc0, c));
            let jj: int = choose|j: int| 0 <= j < open1.len() && open1[j].idx == c;
            assert(open2[jj] == open1[jj]);
            assert(open2[jj].idx == c);
        }
    }
}

/// What `astar` promises: a returned path is a legal walk between the
/// resolved start and goal cells, converted to world points; no path
/// is returned exactly when a coordinate falls off the grid, the goal
/// cell is blocked, or no legal walk exists.
pub open spec fn astar_post(
    g: Grid,
    start_world: Vec3,
    goal_world: Vec3,
    r: Option<Vec<ThreeGrid>>,
) -> bool {
    let sres = g.spec_point_to_cell(start_world.x as int, start_world.z as int);
    let tres = g.spec_point_to_cell(goal_world.x as int, goal_world.z as int);
    match r {
        Option::Some(path) => {
            &&& sres is Some
            &&& tres is Some
            &&& !g.cell((tres->0).gx as int, (tres->0).gz as int).blocked
            &&& path@.len() >= 1
            &&& (sres->0 == tres->0 ==> path@.len() == 1)
            &&& exists|cells: Seq<GridPoint>|
                valid_cell_path(g, cells, sres->0, tres->0)
                    && no_repeats(cells)
                    && is_world_path(g, path@, cells)
        },
        Option::None => {
            ||| sres is None
            ||| tres is None
            ||| g.cell((tres->0).gx as int, (tres->0).gz as int).blocked
            ||| forall|cells: Seq<GridPoint>| !valid_cell_path(g, cells, sres->0, tres->0)
        },
    }
}

/// A* over the current grid snapshot: resolve both world positions to
/// cells, search the 8-connected neighborhood with exact costs, and
/// hand back the walk as world points, start cell first.  A returned
/// walk never revisits a cell, and when start and goal share a cell it
/// is that single world point.
#[verifier::rlimit(100)]
pub fn astar(grid: &Grid, start_world: Vec3, goal_world: Vec3) -> (r: Option<Vec<ThreeGrid>>)
    requires
        grid.wf(),
        -MAX_WORLD <= start_world.x <= MAX_WORLD,
        -MAX_WORLD <= start_world.z <= MAX_WORLD,
        -MAX_WORLD <= goal_world.x <= MAX_WORLD,
        -MAX_WORLD <= goal_world.z <= MAX_WORLD,
    ensures
        astar_post(*grid, start_world, goal_world, r),
{
    let sres: Option<GridPoint> = grid.point_to_cell(start_world.x, start_world.z);
    let start: GridPoint = match sres {
        Option::Some(p) => p,
        Option::None => { return Option::None; },
    };
    let tres: Option<GridPoint> = grid.point_to_cell(goal_world.x, goal_world.z);
    let goal: GridPoint = match tres {
        Option::Some(p) => p,
        Option::None => { return Option::None; },
    };
    if grid.get_cell(goal.gx as usize, goal.gz as usize).blocked {
        return Option::None;
    }

    let w: usize = grid.width();
    let h: usize = grid.height();
    proof {
        assert(w * h <= MAX_DIM * MAX_DIM) by (nonlinear_arith)
            requires w <= MAX_DIM && h <= MAX_DIM;
        lemma_cell_index_in_range(w as int, h as int, start.gx as int, start.gz as int);
        lemma_cell_index_in_range(w as int, h as int, goal.gx as int, goal.gz as int);
    }
    let n: usize = w * h;
    let start_idx: usize = (start.gz as usize) * w + (start.gx as usize);
    let goal_idx: usize = (goal.gz as usize) * w + (goal.gx as usize);

    let mut g_score: Vec<Option<(u64, u64)>> = Vec::new();
    let mut came_from: Vec<Option<usize>> = Vec::new();
    let mut closed: Vec<bool> = Vec::new();
    let mut ii: usize = 0;
    while ii < n
        invariant
            ii <= n,
            g_score@.len() == ii,
            came_from@.len() == ii,
            closed@.len() == ii,
            forall|c: int| 0 <= c < ii ==> (#[trigger] g_score@[c]) is None,
            forall|c: int| 0 <= c < ii ==> (#[trigger] came_from@[c]) is None,
            forall|c: int| 0 <= c < ii ==> !(#[trigger] closed@[c]),
        decreases n - ii,
    {
        g_score.push(Option::None);
        came_from.push(Option::None);
        closed.push(false);
        ii = ii + 1;
    }

    g_score.set(start_idx, Option::Some((0u64, 0u64)));
    let hstart: (u64, u64) = heuristic(&start, &goal);
    let mut open: Vec<OpenEntry> = Vec::new();
    open.push(OpenEntry { idx: start_idx, gs: 0, gd: 0, fs: hstart.0, fd: hstart.1 });

    proof {
        lemma_count_unclosed_le_len(closed@);
        lemma_count_unclosed_nonneg(closed@);
        assert forall|cx2: int, cz2: int, qx: int, qz: int|
            #[trigger] can_step(*grid, cx2, cz2, qx, qz)
                && closed@[grid.cell_index(cx2, cz2)]
            implies known(g_score@, grid.cell_index(qx, qz))
        by {
            lemma_cell_index_in_range(w as int, h as int, cx2, cz2);
        }
        assert forall|c: int|
            0 <= c < n && #[trigger] known(g_score@, c) && !closed@[c]
            implies exists|j: int| 0 <= j < open@.len() && open@[j].idx == c
        by {
            assert(c == start_idx as int);
            assert(open@[0].idx == c);
        }
    }

    while open.len() != 0
        invariant
            grid.wf(),
            w == grid.spec_width(),
            h == grid.spec_height(),
            n == w * h,
            n <= MAX_DIM * MAX_DIM,
            grid.in_bounds(start.gx as int, start.gz as int),
            grid.in_bounds(goal.gx as int, goal.gz as int),
            !grid.cell(goal.gx as int, goal.gz as int).blocked,
            start_idx == grid.cell_index(start.gx as int, start.gz as int),
            goal_idx == grid.cell_index(goal.gx as int, goal.gz as int),
            start_idx < n,
            goal_idx < n,
            grid.spec_point_to_cell(start_world.x as int, start_world.z as int)
                == Some(start),
            grid.spec_point_to_cell(goal_world.x as int, goal_world.z as int)
                == Some(goal),
            inv_base(*grid, start_idx as int, goal_idx as int,
                g_score@, came_from@, closed@),
            closure_ok(*grid, g_score@, closed@),
            open_ok(*grid, g_score@, open@),
            open_covers(g_score@, closed@, open@),
            0 <= count_unclosed(closed@),
        decreases count_unclosed(closed@), open@.len(),
    {
        let mut best: usize = 0;
        let mut si: usize = 1;
        while si < open.len()
            invariant
                open@.len() >= 1,
                best < open@.len(),
                si <= open@.len(),
                open_ok(*grid, g_score@, open@),
            decreases open@.len() - si,
        {
            if cost_lt_exec(open[si].fs, open[si].fd, open[best].fs, open[best].fd) {
                best = si;
            }
            si = si + 1;
        }

        let ghost open0: Seq<OpenEntry> = open@;
        let cur: OpenEntry = open.swap_remove(best);

        proof {
            lemma_cover_after_swap_remove(g_score@, closed@, open0, open@, best as int);
            assert forall|j: int| 0 <= j < open@.len()
                implies ({
                    let e = #[trigger] open@[j];
                    &&& 0 <= e.idx < g_score@.len()
                    &&& known(g_score@, e.idx as int)
                    &&& e.gs <= COST_CAP
                    &&& e.gd <= COST_CAP
                    &&& e.fs <= COST_CAP
                    &&& e.fd <= COST_CAP
                })
            by {
                let j0: int = choose|j0: int| 0 <= j0 < open0.len() && open@[j] == open0[j0];
            }
        }

        if closed[cur.idx] {
            continue;
        }

        let cx: usize = cur.idx % w;
        let cz: usize = cur.idx / w;
        proof {
            lemma_flat_coords(w as int, h as int, cur.idx as int);
        }

        if cur.idx == goal_idx {
            // The goal has been reached: walk the predecessor links
            // back to the start, then convert the walk to world points.
            let mut rev: Vec<usize> = Vec::new();
            rev.push(cur.idx);
            let mut pidx: usize = cur.idx;
            while came_from[pidx].is_some()
                invariant
                    grid.wf(),
                    w == grid.spec_width(),
                    h == grid.spec_height(),
                    n == w * h,
                    start_idx < n,
                    inv_base(*grid, start_idx as int, goal_idx as int,
                        g_score@, came_from@, closed@),
                    pidx < n,
                    known(g_score@, pidx as int),
                    rev@.len() >= 1,
                    rev@[0] == goal_idx,
                    rev@.last() == pidx,
                    forall|t: int| 0 <= t < rev@.len() ==> (#[trigger] rev@[t]) < n,
                    forall|t: int| 0 <= t < rev@.len() - 1
                        ==> came_from@[#[trigger] rev@[t] as int] == Some(rev@[t + 1]),
                    forall|t: int| 0 <= t < rev@.len()
                        ==> sd(g_score@, #[trigger] rev@[t] as int)
                            == sd(g_score@, goal_idx as int) - t,
                decreases sd(g_score@, pidx as int),
            {
                let prev: usize = match came_from[pidx] {
                    Option::Some(q) => q,
                    Option::None => { proof { assert(false); } 0 },
                };
                proof {
                    assert(link_ok(*grid, g_score@, came_from@, closed@, pidx as int));
                }
                rev.push(prev);
                pidx = prev;
            }
            proof {
                assert(pidx == start_idx);
                assert(sd(g_score@, start_idx as int) == 0);
                assert(rev@.len() == sd(g_score@, goal_idx as int) + 1);
            }

            let m: usize = rev.len();
            let mut path: Vec<ThreeGrid> = Vec::new();
            let mut t: usize = m;
            while t > 0
                invariant
                    grid.wf(),
                    w == grid.spec_width(),
                    h == grid.spec_height(),
                    n == w * h,
                    m == rev@.len(),
                    t <= m,
                    path@.len() == m - t,
                    forall|t2: int| 0 <= t2 < rev@.len() ==> (#[trigger] rev@[t2]) < n,
                    forall|i: int| 0 <= i < path@.len()
                        ==> #[trigger] path@[i]
                            == world_point_of(*grid, cell_of(*grid, rev@[m - 1 - i] as int)),
                decreases t,
            {
                t = t - 1;
                let idx: usize = rev[t];
                let ccx: usize = idx % w;
                let ccz: usize = idx / w;
                proof {
                    lemma_flat_coords(w as int, h as int, idx as int);
                }
                let wp: ThreeGrid = grid.cell_to_point(ccx, ccz);
                path.push(wp);
            }

            let ghost cells: Seq<GridPoint> =
                Seq::new(m as nat, |i: int| cell_of(*grid, rev@[m - 1 - i] as int));
            proof {
                lemma_cell_of_index(*grid, start.gx as int, start.gz as int);
                lemma_cell_of_index(*grid, goal.gx as int, goal.gz as int);
                assert(cells[0] == start);
                assert(cells[cells.len() - 1] == goal);
                assert forall|i: int| 0 <= i < cells.len() - 1
                    implies can_step(*grid, (#[trigger] cells[i]).gx as int,
                        cells[i].gz as int, cells[i + 1].gx as int, cells[i + 1].gz as int)
                by {
                    let tpos: int = m - 2 - i;
                    assert(came_from@[rev@[tpos] as int] == Some(rev@[tpos + 1]));
                    assert(link_ok(*grid, g_score@, came_from@, closed@,
                        rev@[tpos] as int));
                    lemma_flat_coords(w as int, h as int, rev@[tpos] as int);
                    lemma_flat_coords(w as int, h as int, rev@[tpos + 1] as int);
                    assert(cells[i + 1] == cell_of(*grid, rev@[tpos] as int));
                    assert(cells[i] == cell_of(*grid, rev@[tpos + 1] as int));
                }
                assert(valid_cell_path(*grid, cells, start, goal));
                assert forall|i: int| 0 <= i < cells.len()
                    implies path@[i] == world_point_of(*grid, #[trigger] cells[i])
                by {
                }
                assert(is_world_path(*grid, path@, cells));
                assert forall|i: int, j: int| 0 <= i < j < cells.len()
                    implies (#[trigger] cells[i]) != (#[trigger] cells[j])
                by {
                    let t1: int = m - 1 - i;
                    let t2: int = m - 1 - j;
                    assert(sd(g_score@, rev@[t1] as int)
                        == sd(g_score@, goal_idx as int) - t1);
                    assert(sd(g_score@, rev@[t2] as int)
                        == sd(g_score@, goal_idx as int) - t2);
                    assert(rev@[t1] != rev@[t2]);
                    lemma_flat_coords(w as int, h as int, rev@[t1] as int);
                    lemma_flat_coords(w as int, h as int, rev@[t2] as int);
                    if cells[i] == cells[j] {
                        assert(rev@[t1] as int % (w as int)
                            == rev@[t2] as int % (w as int));
                        assert(rev@[t1] as int / (w as int)
                            == rev@[t2] as int / (w as int));
                        assert(false);
                    }
                }
                assert(no_repeats(cells));
                if start == goal {
                    assert(start_idx == goal_idx);
                    assert(path@.len() == 1);
                }
                assert(grid.spec_point_to_cell(
                    start_world.x as int, start_world.z as int) == Some(start));
                assert(grid.spec_point_to_cell(
                    goal_world.x as int, goal_world.z as int) == Some(goal));
                assert(exists|c2: Seq<GridPoint>|
                    valid_cell_path(*grid, c2, start, goal)
                        && no_repeats(c2)
                        && is_world_path(*grid, path@, c2));
            }
            return Option::Some(path);
        }

        let ghost closed0: Seq<bool> = closed@;
        closed.set(cur.idx, true);
        proof {
            lemma_count_unclosed_close(closed0, cur.idx as int);
            lemma_count_unclosed_nonneg(closed@);
        }

        let gpair: (u64, u64) = match g_score[cur.idx] {
            Option::Some(p) => p,
            Option::None => { proof { assert(false); } (0, 0) },
        };

        let cur_point: GridPoint = GridPoint { gx: cx as i32, gz: cz as i32 };
        let neighbors: Vec<(GridPoint, bool)> = get_neighbors(grid, cur_point);

        proof {
            assert(cur_point.gx as int == cx as int && cur_point.gz as int == cz as int);
            assert forall|cx2: int, cz2: int, qx: int, qz: int|
                #[trigger] can_step(*grid, cx2, cz2, qx, qz)
                    && closed@[grid.cell_index(cx2, cz2)]
                    && grid.cell_index(cx2, cz2) != cur.idx as int
                implies known(g_score@, grid.cell_index(qx, qz))
            by {
                lemma_cell_index_in_range(w as int, h as int, cx2, cz2);
                assert(closed0[grid.cell_index(cx2, cz2)]);
            }
        }

        let mut k: usize = 0;
        while k < neighbors.len()
            invariant
                grid.wf(),
                w == grid.spec_width(),
                h == grid.spec_height(),
                n == w * h,
                n <= MAX_DIM * MAX_DIM,
                grid.in_bounds(start.gx as int, start.gz as int),
                grid.in_bounds(goal.gx as int, goal.gz as int),
                !grid.cell(goal.gx as int, goal.gz as int).blocked,
                start_idx == grid.cell_index(start.gx as int, start.gz as int),
                goal_idx == grid.cell_index(goal.gx as int, goal.gz as int),
                start_idx < n,
                goal_idx < n,
                k <= neighbors@.len(),
                cur.idx < n,
                cur.idx != goal_idx,
                closed@[cur.idx as int],
                cur.idx as int == grid.cell_index(cx as int, cz as int),
                grid.in_bounds(cx as int, cz as int),
                cur_point == (GridPoint { gx: cx as i32, gz: cz as i32 }),
                known(g_score@, cur.idx as int),
                g_score@[cur.idx as int] == Some(gpair),
                gpair.0 + gpair.1 <= n - count_unclosed(closed@),
                0 <= count_unclosed(closed@),
                inv_base(*grid, start_idx as int, goal_idx as int,
                    g_score@, came_from@, closed@),
                closure_except(*grid, g_score@, closed@, cur.idx as int),
                open_ok(*grid, g_score@, open@),
                open_covers(g_score@, closed@, open@),
                forall|i: int| 0 <= i < neighbors@.len() ==> {
                    let (q, diag) = (#[trigger] neighbors@[i]);
                    &&& can_step(*grid, cx as int, cz as int, q.gx as int, q.gz as int)
                    &&& diag == is_diag(q.gx - cx, q.gz - cz)
                },
                forall|qx: int, qz: int|
                    #[trigger] can_step(*grid, cx as int, cz as int, qx, qz)
                        ==> neighbors@.contains((GridPoint { gx: qx as i32, gz: qz as i32 },
                            is_diag(qx - cx, qz - cz))),
                forall|j: int| 0 <= j < k
                    ==> known(g_score@,
                        grid.cell_index(((#[trigger] neighbors@[j]).0).gx as int,
                            (neighbors@[j].0).gz as int)),
            decreases neighbors@.len() - k,
        {
            let pair: (GridPoint, bool) = neighbors[k];
            let np: GridPoint = pair.0;
            let diag: bool = pair.1;
            proof {
                assert(can_step(*grid, cx as int, cz as int, np.gx as int, np.gz as int));
                lemma_cell_index_in_range(w as int, h as int, np.gx as int, np.gz as int);
            }
            let nidx: usize = (np.gz as usize) * w + (np.gx as usize);
            proof {
                assert(nidx as int == grid.cell_index(np.gx as int, np.gz as int));
            }
            if !closed[nidx] {
                let step_s: u64 = if diag { 0 } else { 1 };
                let step_d: u64 = if diag { 1 } else { 0 };
                proof {
                    lemma_count_unclosed_nonneg(closed@);
                    assert(gpair.0 + gpair.1 <= n);
                    if known(g_score@, nidx as int) {
                        assert(sd(g_score@, nidx as int)
                            <= n - count_unclosed(closed@) + 1);
                    }
                }
                let ts: u64 = gpair.0 + step_s;
                let td: u64 = gpair.1 + step_d;
                let do_update: bool = match g_score[nidx] {
                    Option::Some(b) => cost_lt_exec(ts, td, b.0, b.1),
                    Option::None => true,
                };
                if do_update {
                    proof {
                        if nidx == start_idx {
                            assert(g_score@[nidx as int] == Some((0u64, 0u64)));
                            assert(!cost_lt(ts as int, td as int, 0, 0));
                            assert(false);
                        }
                    }
                    let ghost gsc0: Seq<Option<(u64, u64)>> = g_score@;
                    let ghost came0: Seq<Option<usize>> = came_from@;
                    let ghost open1: Seq<OpenEntry> = open@;
                    came_from.set(nidx, Option::Some(cur.idx));
                    g_score.set(nidx, Option::Some((ts, td)));
                    let hc: (u64, u64) = heuristic(&np, &goal);
                    let entry: OpenEntry = OpenEntry {
                        idx: nidx,
                        gs: ts,
                        gd: td,
                        fs: ts + hc.0,
                        fd: td + hc.1,
                    };
                    open.push(entry);
                    proof {
                        lemma_after_update(*grid, start_idx as int, goal_idx as int,
                            gsc0, came0, closed@, open1, g_score@, came_from@, open@,
                            cur.idx as int, cx as int, cz as int, np, nidx as int,
                            ts, td, entry);
                    }
                }
                proof {
                    assert(known(g_score@, nidx as int));
                }
            } else {
                proof {
                    assert(closed@[nidx as int]);
                    assert(known(g_score@, nidx as int));
                }
            }
            proof {
                assert(known(g_score@, nidx as int));
                assert(np == neighbors@[k as int].0);
                assert forall|j: int| 0 <= j < k + 1
                    implies known(g_score@,
                        grid.cell_index(((#[trigger] neighbors@[j]).0).gx as int,
                            (neighbors@[j].0).gz as int))
                by {
                    let q = neighbors@[j].0;
                    assert(can_step(*grid, cx as int, cz as int,
                        q.gx as int, q.gz as int));
                    lemma_cell_index_in_range(w as int, h as int,
                        q.gx as int, q.gz as int);
                }
            }
            k = k + 1;
        }

        proof {
            assert forall|cx2: int, cz2: int, qx: int, qz: int|
                #[trigger] can_step(*grid, cx2, cz2, qx, qz)
                    && closed@[grid.cell_index(cx2, cz2)]
                implies known(g_score@, grid.cell_index(qx, qz))
            by {
                if grid.cell_index(cx2, cz2) == cur.idx as int {
                    lemma_cell_index_injective(w as int, cx2, cz2, cx as int, cz as int);
                    assert(can_step(*grid, cx as int, cz as int, qx, qz));
                    let e: (GridPoint, bool) =
                        (GridPoint { gx: qx as i32, gz: qz as i32 }, is_diag(qx - cx, qz - cz));
                    assert(neighbors@.contains(e));
                    let j: int = choose|j: int| 0 <= j < neighbors@.len() && neighbors@[j] == e;
                    assert(known(g_score@,
                        grid.cell_index((neighbors@[j].0).gx as int,
                            (neighbors@[j].0).gz as int)));
                    assert((qx as i32) as int == qx && (qz as i32) as int == qz);
                }
            }
            lemma_count_unclosed_nonneg(closed@);
        }
    }

    proof {
        assert forall|cells: Seq<GridPoint>|
            !valid_cell_path(*grid, cells, start, goal)
        by {
            if valid_cell_path(*grid, cells, start, goal) {
                assert forall|c: int|
                    0 <= c < n && #[trigger] known(g_score@, c)
                    implies closed@[c]
                by {
                    if !closed@[c] {
                        let jw: int = choose|j: int| 0 <= j < open@.len() && open@[j].idx == c;
                        assert(false);
                    }
                }
                lemma_cell_index_in_range(w as int, h as int,
                    start.gx as int, start.gz as int);
                assert(closed@[grid.cell_index(start.gx as int, start.gz as int)]);
                lemma_chain_closed(*grid, cells, g_score@, closed@);
                assert(closed@[goal_idx as int]);
                assert(false);
            }
        }
    }
    Option::None
}

} // verus!
