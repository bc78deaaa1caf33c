//! The spatial substrate: a `width x height` board of cells, the
//! bidirectional transform between continuous world coordinates and
//! discrete cell indices, and the obstacle bookkeeping (rocks, pillars,
//! the single marker flag).
//!
//! World coordinates are symmetric around the grid's midpoint: the world
//! origin maps to the grid center.  A cell `(gx, gz)` is addressed in the
//! flat cell vector at `gz * width + gx`.

use vstd::prelude::*;
use vstd::pervasive::VecAdditionalExecFns;
use crate::{MAX_DIM, MAX_WORLD, PILLAR_SIZE, WIDTH, HEIGHT, CHARACTER_OCCUPY_WIDTH,
    CHARACTER_OCCUPY_HEIGHT, WORLD_SCALE};

verus! {

/// Which mechanism blocked a cell; a block may be cleared only by that
/// mechanism's inverse.
#[derive(Debug, Clone, Copy, PartialEq, Eq, Structural)]
pub enum BlockedType {
    /// Not blocked by any mechanism.
    Clear,
    /// Blocked by pillar placement.
    Pillar,
}

/// One discrete unit of the grid.
#[derive(Debug, Clone, Copy, PartialEq, Eq, Structural)]
pub struct GridCell {
    /// Covered by a static decorative obstacle (rock).
    pub occupied: bool,
    /// Carries the single placeable marker flag.
    pub has_flag: bool,
    /// Impassable to pathfinding (wall/pillar).
    pub blocked: bool,
    /// Which mechanism caused the block.
    pub blocked_type: BlockedType,
}

/// Discrete cell coordinates; valid iff `0 <= gx < width` and
/// `0 <= gz < height`.
#[derive(Debug, Clone, Copy, PartialEq, Eq, Hash, Structural)]
pub struct GridPoint {
    pub gx: i32,
    pub gz: i32,
}

/// A continuous world position, in coordinate ticks
/// (`WORLD_SCALE` ticks per world unit).
#[derive(Debug, Clone, Copy, PartialEq, Eq, Structural)]
pub struct ThreeGrid {
    pub x: i64,
    pub z: i64,
}

/// A world position rounded to the nearest whole world unit.
#[derive(Debug, Clone, Copy, PartialEq, Eq, Structural)]
pub struct ThreeGridResultPoint {
    pub x: i64,
    pub z: i64,
}

/// A cell coordinate pair reported back to the caller.
#[derive(Debug, Clone, Copy, PartialEq, Eq, Structural)]
pub struct GridResultPoint {
    pub x: i32,
    pub z: i32,
}

/// The grid's construction-time properties.
#[derive(Debug, Clone, Copy, PartialEq, Eq, Structural)]
pub struct GridProps {
    pub width: usize,
    pub height: usize,
    pub character_occupy_width: usize,
    pub character_occupy_height: usize,
}

/// A pillar's display record: the world position of its footprint
/// center (in coordinate ticks) and its side length in cells.
#[derive(Debug, Clone, Copy, PartialEq, Eq, Structural)]
pub struct Pillar {
    /// World coordinate (ticks) of the center cell's world point.
    pub x: i64,
    /// World coordinate (ticks) of the center cell's world point.
    pub z: i64,
    /// Side length of the footprint, in cells.
    pub size: i64,
}

/// A rock's display record: the grid coordinates of its (truncated)
/// center cell and its per-axis footprint in cells.
#[derive(Debug, Clone, Copy)]
pub struct RockData {
    /// Center cell coordinates `(gx, 0, gz)`, truncated when the
    /// footprint has an even side.
    pub position: (i64, i64, i64),
    /// Footprint `(cells_x, 1, cells_z)`.
    pub scale: (i64, i64, i64),
}

/// World coordinate (in ticks) of a cell coordinate `g` on an axis of
/// `dim` cells: the axis is recentered so that the world origin sits at
/// the grid's midpoint.
pub open spec fn cell_to_world_coord(dim: int, g: int) -> int {
    g * (WORLD_SCALE as int) - dim * ((WORLD_SCALE / 2) as int)
}

/// Cell coordinate of a world coordinate `w` (in ticks) on an axis of
/// `dim` cells: shift by half the axis, then floor to a whole cell.
pub open spec fn world_to_cell_coord(dim: int, w: int) -> int {
    (w + dim * ((WORLD_SCALE / 2) as int)) / (WORLD_SCALE as int)
}

/// A world coordinate (in ticks) rounded to the nearest whole world
/// unit, halves away from zero.
pub open spec fn round_world_coord(w: int) -> int {
    if w >= 0 {
        (w + (WORLD_SCALE / 2) as int) / (WORLD_SCALE as int)
    } else {
        -((-w + (WORLD_SCALE / 2) as int) / (WORLD_SCALE as int))
    }
}

/// A world coordinate (in ticks) truncated toward zero to a whole
/// world unit count.
pub open spec fn trunc_world_units(w: int) -> int {
    if w >= 0 {
        w / (WORLD_SCALE as int)
    } else {
        -((-w) / (WORLD_SCALE as int))
    }
}

/// Cell coordinate of the left (top) edge of a pillar's footprint on
/// the x axis, recovered from its recorded world center.
pub open spec fn pillar_anchor_x(width: int, p: Pillar) -> int {
    world_to_cell_coord(width, p.x as int) - (PILLAR_SIZE / 2) as int
}

/// Cell coordinate of the top edge of a pillar's footprint on the z axis.
pub open spec fn pillar_anchor_z(height: int, p: Pillar) -> int {
    world_to_cell_coord(height, p.z as int) - (PILLAR_SIZE / 2) as int
}

/// Whether cell `(gx, gz)` lies inside pillar `p`'s footprint.
pub open spec fn pillar_covers(width: int, height: int, p: Pillar, gx: int, gz: int) -> bool {
    let ax = pillar_anchor_x(width, p);
    let az = pillar_anchor_z(height, p);
    ax <= gx < ax + PILLAR_SIZE as int && az <= gz < az + PILLAR_SIZE as int
}

/// A pillar record is well formed when it reports the fixed footprint
/// size, its center is exactly a cell's world point, and the whole
/// footprint lies inside the grid.
pub open spec fn pillar_record_wf(width: int, height: int, p: Pillar) -> bool {
    let ax = pillar_anchor_x(width, p);
    let az = pillar_anchor_z(height, p);
    &&& p.size == PILLAR_SIZE as int
    &&& p.x == cell_to_world_coord(width, ax + (PILLAR_SIZE / 2) as int)
    &&& p.z == cell_to_world_coord(height, az + (PILLAR_SIZE / 2) as int)
    &&& 0 <= ax && ax + PILLAR_SIZE as int <= width
    &&& 0 <= az && az + PILLAR_SIZE as int <= height
}

/// Cell coordinate of the left edge of a rock's footprint, recovered
/// from its recorded (truncated) center cell.
pub open spec fn rock_anchor_x(r: RockData) -> int {
    r.position.0 as int - (r.scale.0 as int - 1) / 2
}

/// Cell coordinate of the top edge of a rock's footprint.
pub open spec fn rock_anchor_z(r: RockData) -> int {
    r.position.2 as int - (r.scale.2 as int - 1) / 2
}

/// Whether cell `(gx, gz)` lies inside rock `r`'s footprint.
pub open spec fn rock_covers(r: RockData, gx: int, gz: int) -> bool {
    rock_anchor_x(r) <= gx < rock_anchor_x(r) + r.scale.0 as int
        && rock_anchor_z(r) <= gz < rock_anchor_z(r) + r.scale.2 as int
}

/// A rock record is well formed when each side spans one to five cells
/// and the whole footprint lies inside the grid.
pub open spec fn rock_record_wf(width: int, height: int, r: RockData) -> bool {
    &&& 1 <= r.scale.0 as int <= 5
    &&& r.scale.1 == 1
    &&& 1 <= r.scale.2 as int <= 5
    &&& r.position.1 == 0
    &&& 0 <= rock_anchor_x(r) && rock_anchor_x(r) + r.scale.0 as int <= width
    &&& 0 <= rock_anchor_z(r) && rock_anchor_z(r) + r.scale.2 as int <= height
}

/// Two cell sequences that agree on everything but the flag marks.
pub open spec fn same_cells_except_flags(a: Seq<GridCell>, b: Seq<GridCell>) -> bool {
    &&& a.len() == b.len()
    &&& forall|i: int| 0 <= i < a.len() ==> {
        &&& (#[trigger] b[i]).occupied == a[i].occupied
        &&& b[i].blocked == a[i].blocked
        &&& b[i].blocked_type == a[i].blocked_type
    }
}

/// The flat index of a valid cell coordinate lies inside a
/// `w * h` cell vector.
pub proof fn lemma_cell_index_in_range(w: int, h: int, gx: int, gz: int)
    requires
        0 <= gx < w,
        0 <= gz < h,
    ensures
        0 <= gz * w + gx < w * h,
{
    assert(0 <= gz * w + gx && gz * w + gx < w * h) by (nonlinear_arith)
        requires
            0 <= gx && gx < w && 0 <= gz && gz < h;
}

/// Distinct valid cell coordinates have distinct flat indices.
pub proof fn lemma_cell_index_injective(w: int, gx1: int, gz1: int, gx2: int, gz2: int)
    requires
        0 <= gx1 < w,
        0 <= gx2 < w,
        0 <= gz1,
        0 <= gz2,
        gz1 * w + gx1 == gz2 * w + gx2,
    ensures
        gx1 == gx2,
        gz1 == gz2,
{
    assert(gx1 == gx2 && gz1 == gz2) by (nonlinear_arith)
        requires
            0 <= gx1 && gx1 < w && 0 <= gx2 && gx2 < w && 0 <= gz1 && 0 <= gz2
                && gz1 * w + gx1 == gz2 * w + gx2;
}

/// The navigable surface: cell storage plus the derived display
/// records of the obstacles standing on it.
pub struct Grid {
    width: usize,
    height: usize,
    cells: Vec<GridCell>,
    rocks: Vec<RockData>,
    pillars: Vec<Pillar>,
}

impl Grid {
    /// Width in cells.
    pub closed spec fn spec_width(&self) -> int {
        self.width as int
    }

    /// Height in cells.
    pub closed spec fn spec_height(&self) -> int {
        self.height as int
    }

    /// The flat cell sequence, row by row.
    pub closed spec fn spec_cells(&self) -> Seq<GridCell> {
        self.cells@
    }

    /// The current pillar display records.
    pub closed spec fn spec_pillars(&self) -> Seq<Pillar> {
        self.pillars@
    }

    /// The cumulative rock display records.
    pub closed spec fn spec_rocks(&self) -> Seq<RockData> {
        self.rocks@
    }

    /// Whether `(gx, gz)` is a valid cell coordinate.
    pub open spec fn in_bounds(&self, gx: int, gz: int) -> bool {
        0 <= gx < self.spec_width() && 0 <= gz < self.spec_height()
    }

    /// Flat index of cell `(gx, gz)`.
    pub open spec fn cell_index(&self, gx: int, gz: int) -> int {
        gz * self.spec_width() + gx
    }

    /// The cell at `(gx, gz)`.
    pub open spec fn cell(&self, gx: int, gz: int) -> GridCell {
        self.spec_cells()[self.cell_index(gx, gz)]
    }

    /// Dimensions are bounded and the cell storage matches them.
    pub open spec fn dims_ok(&self) -> bool {
        &&& self.spec_width() <= MAX_DIM as int
        &&& self.spec_height() <= MAX_DIM as int
        &&& self.spec_cells().len() == self.spec_width() * self.spec_height()
    }

    /// At most one cell carries the marker flag.
    pub open spec fn flags_unique(&self) -> bool {
        forall|i: int, j: int|
            0 <= i < self.spec_cells().len() && 0 <= j < self.spec_cells().len()
                && (#[trigger] self.spec_cells()[i]).has_flag
                && (#[trigger] self.spec_cells()[j]).has_flag ==> i == j
    }

    /// A cell is blocked exactly when some mechanism's tag says so.
    pub open spec fn blocked_matches_type(&self) -> bool {
        forall|i: int| 0 <= i < self.spec_cells().len() ==> {
            (#[trigger] self.spec_cells()[i]).blocked
                <==> self.spec_cells()[i].blocked_type == BlockedType::Pillar
        }
    }

    /// The pillar display records and the cell tags never desynchronize:
    /// every record is well formed, every cell a record covers is tagged,
    /// and every tagged cell is covered by some record.
    pub open spec fn pillars_match_cells(&self) -> bool {
        &&& forall|k: int| 0 <= k < self.spec_pillars().len()
            ==> pillar_record_wf(self.spec_width(), self.spec_height(),
                #[trigger] self.spec_pillars()[k])
        &&& forall|k: int, gx: int, gz: int|
            0 <= k < self.spec_pillars().len()
                && #[trigger] pillar_covers(self.spec_width(), self.spec_height(),
                    self.spec_pillars()[k], gx, gz)
            ==> self.in_bounds(gx, gz) && self.cell(gx, gz).blocked_type == BlockedType::Pillar
        &&& forall|gx: int, gz: int|
            self.in_bounds(gx, gz)
                && (#[trigger] self.cell(gx, gz)).blocked_type == BlockedType::Pillar
            ==> exists|k: int| 0 <= k < self.spec_pillars().len()
                && pillar_covers(self.spec_width(), self.spec_height(),
                    self.spec_pillars()[k], gx, gz)
    }

    /// The rock display records and the cell marks never desynchronize:
    /// every record is well formed, every cell a record covers is
    /// occupied, and every occupied cell is covered by some record.
    pub open spec fn rocks_match_cells(&self) -> bool {
        &&& forall|k: int| 0 <= k < self.spec_rocks().len()
            ==> rock_record_wf(self.spec_width(), self.spec_height(),
                #[trigger] self.spec_rocks()[k])
        &&& forall|k: int, gx: int, gz: int|
            0 <= k < self.spec_rocks().len()
                && #[trigger] rock_covers(self.spec_rocks()[k], gx, gz)
            ==> self.in_bounds(gx, gz) && self.cell(gx, gz).occupied
        &&& forall|gx: int, gz: int|
            self.in_bounds(gx, gz) && (#[trigger] self.cell(gx, gz)).occupied
            ==> exists|k: int| 0 <= k < self.spec_rocks().len()
                && rock_covers(self.spec_rocks()[k], gx, gz)
    }

    /// The grid's internal invariant.
    pub open spec fn wf(&self) -> bool {
        &&& self.dims_ok()
        &&& self.flags_unique()
        &&& self.blocked_matches_type()
        &&& self.pillars_match_cells()
        &&& self.rocks_match_cells()
    }

    /// The cell `(gx, gz)` resolved from world coordinates `(x, z)`,
    /// or nothing when the floored coordinate falls outside the grid.
    pub open spec fn spec_point_to_cell(&self, x: int, z: int) -> Option<GridPoint> {
        let gx = world_to_cell_coord(self.spec_width(), x);
        let gz = world_to_cell_coord(self.spec_height(), z);
        if 0 <= gx < self.spec_width() && 0 <= gz < self.spec_height() {
            Some(GridPoint { gx: gx as i32, gz: gz as i32 })
        } else {
            None
        }
    }

    /// A fresh grid: all cells unblocked, unoccupied and flagless, with
    /// no obstacle records.
    pub fn new(width: usize, height: usize) -> (g: Grid)
        requires
            width <= MAX_DIM,
            height <= MAX_DIM,
        ensures
            g.wf(),
            g.spec_width() == width,
            g.spec_height() == height,
            g.spec_pillars() == Seq::<Pillar>::empty(),
            g.spec_rocks() == Seq::<RockData>::empty(),
            forall|i: int| 0 <= i < g.spec_cells().len()
                ==> #[trigger] g.spec_cells()[i] == (GridCell {
                    occupied: false,
                    has_flag: false,
                    blocked: false,
                    blocked_type: BlockedType::Clear,
                }),
    {
        proof {
            assert(width * height <= MAX_DIM * MAX_DIM) by (nonlinear_arith)
                requires width <= MAX_DIM && height <= MAX_DIM;
        }
        let total: usize = width * height;
        let mut cells: Vec<GridCell> = Vec::with_capacity(total);
        let mut i: usize = 0;
        while i < total
            invariant
                i <= total,
                cells@.len() == i,
                forall|j: int| 0 <= j < i ==> #[trigger] cells@[j] == (GridCell {
                    occupied: false,
                    has_flag: false,
                    blocked: false,
                    blocked_type: BlockedType::Clear,
                }),
            decreases total - i,
        {
            cells.push(GridCell {
                occupied: false,
                has_flag: false,
                blocked: false,
                blocked_type: BlockedType::Clear,
            });
            i = i + 1;
        }
        let g = Grid { width, height, cells, rocks: Vec::new(), pillars: Vec::new() };
        proof {
            assert forall|gx: int, gz: int| g.in_bounds(gx, gz)
                implies (#[trigger] g.cell(gx, gz)) == (GridCell {
                    occupied: false,
                    has_flag: false,
                    blocked: false,
                    blocked_type: BlockedType::Clear,
                })
            by {
                lemma_cell_index_in_range(g.spec_width(), g.spec_height(), gx, gz);
            }
        }
        g
    }

    /// Flat index of a valid cell, in range for the cell vector.
    fn index(&self, x: usize, z: usize) -> (i: usize)
        requires
            self.dims_ok(),
            x < self.spec_width(),
            z < self.spec_height(),
        ensures
            i == self.cell_index(x as int, z as int),
            i < self.spec_cells().len(),
    {
        proof {
            lemma_cell_index_in_range(
                self.spec_width(), self.spec_height(), x as int, z as int);
            assert(self.spec_width() * self.spec_height() <= MAX_DIM * MAX_DIM)
                by (nonlinear_arith)
                requires
                    0 <= self.spec_width() && self.spec_width() <= MAX_DIM as int
                        && 0 <= self.spec_height() && self.spec_height() <= MAX_DIM as int;
        }
        z * self.width + x
    }

    /// Read the cell at `(x, z)`.
    pub fn get_cell(&self, x: usize, z: usize) -> (c: &GridCell)
        requires
            self.dims_ok(),
            x < self.spec_width(),
            z < self.spec_height(),
        ensures
            *c == self.cell(x as int, z as int),
    {
        let i: usize = self.index(x, z);
        &self.cells[i]
    }

    /// Borrow the cell at `(x, z)` for mutation.  The caller is
    /// responsible for restoring the grid's invariant.
    pub fn get_cell_mut(&mut self, x: usize, z: usize) -> (c: &mut GridCell)
        requires
            old(self).dims_ok(),
            x < old(self).spec_width(),
            z < old(self).spec_height(),
        ensures
            *c == old(self).cell(x as int, z as int),
            final(self).spec_cells() == old(self).spec_cells()
                .update(old(self).cell_index(x as int, z as int), *final(c)),
            final(self).spec_width() == old(self).spec_width(),
            final(self).spec_height() == old(self).spec_height(),
            final(self).spec_pillars() == old(self).spec_pillars(),
            final(self).spec_rocks() == old(self).spec_rocks(),
    {
        let i: usize = self.index(x, z);
        &mut self.cells[i]
    }

    /// Round world coordinates (ticks) to whole world units.
    pub fn world_to_grid(grid: &ThreeGrid) -> (r: ThreeGridResultPoint)
        requires
            -MAX_WORLD <= grid.x <= MAX_WORLD,
            -MAX_WORLD <= grid.z <= MAX_WORLD,
        ensures
            r.x == round_world_coord(grid.x as int),
            r.z == round_world_coord(grid.z as int),
    {
        ThreeGridResultPoint { x: round_coord(grid.x), z: round_coord(grid.z) }
    }

    /// Report a cell coordinate pair back unchanged.
    pub fn grid_to_world(grid: &GridPoint) -> (r: GridResultPoint)
        ensures
            r.x == grid.gx,
            r.z == grid.gz,
    {
        GridResultPoint { x: grid.gx, z: grid.gz }
    }

    /// The cell coordinates of the default grid's center.
    pub fn get_init_point() -> (r: (usize, usize))
        ensures
            r.0 == WIDTH / 2,
            r.1 == HEIGHT / 2,
    {
        (WIDTH / 2, HEIGHT / 2)
    }

    /// The default construction-time properties.
    pub fn get_init_props() -> (r: GridProps)
        ensures
            r == (GridProps {
                width: WIDTH,
                height: HEIGHT,
                character_occupy_width: CHARACTER_OCCUPY_WIDTH,
                character_occupy_height: CHARACTER_OCCUPY_HEIGHT,
            }),
    {
        GridProps {
            width: WIDTH,
            height: HEIGHT,
            character_occupy_width: CHARACTER_OCCUPY_WIDTH,
            character_occupy_height: CHARACTER_OCCUPY_HEIGHT,
        }
    }

    /// Resolve world coordinates (ticks) to a cell, or nothing when the
    /// floored coordinate falls outside the grid.
    pub fn point_to_cell(&self, x: i64, z: i64) -> (r: Option<GridPoint>)
        requires
            self.dims_ok(),
            -MAX_WORLD <= x <= MAX_WORLD,
            -MAX_WORLD <= z <= MAX_WORLD,
        ensures
            r == self.spec_point_to_cell(x as int, z as int),
    {
        let half: i64 = WORLD_SCALE / 2;
        let xn: i64 = x + (self.width as i64) * half;
        let zn: i64 = z + (self.height as i64) * half;
        if xn < 0 || zn < 0 {
            return None;
        }
        let gx: u64 = (xn as u64) / (WORLD_SCALE as u64);
        let gz: u64 = (zn as u64) / (WORLD_SCALE as u64);
        if gx >= self.width as u64 || gz >= self.height as u64 {
            return None;
        }
        Some(GridPoint { gx: gx as i32, gz: gz as i32 })
    }

    /// The world point (ticks) of a valid cell.  Exact inverse of
    /// `point_to_cell` on valid cells.
    pub fn cell_to_point(&self, gx: usize, gz: usize) -> (r: ThreeGrid)
        requires
            self.dims_ok(),
            gx < self.spec_width(),
            gz < self.spec_height(),
        ensures
            r.x == cell_to_world_coord(self.spec_width(), gx as int),
            r.z == cell_to_world_coord(self.spec_height(), gz as int),
    {
        let half: i64 = WORLD_SCALE / 2;
        let x: i64 = (gx as i64) * WORLD_SCALE - (self.width as i64) * half;
        let z: i64 = (gz as i64) * WORLD_SCALE - (self.height as i64) * half;
        ThreeGrid { x, z }
    }

    /// Place the marker flag at the cell under world point `(x, z)`.
    ///
    /// Out of bounds: no mutation, reports failure.  Otherwise any
    /// previous flag is cleared first; the flag is then placed unless
    /// the target cell is blocked or occupied.
    pub fn place_flag(&mut self, x: i64, z: i64) -> (placed: bool)
        requires
            old(self).wf(),
            -MAX_WORLD <= x <= MAX_WORLD,
            -MAX_WORLD <= z <= MAX_WORLD,
        ensures
            final(self).wf(),
            final(self).spec_width() == old(self).spec_width(),
            final(self).spec_height() == old(self).spec_height(),
            final(self).spec_pillars() == old(self).spec_pillars(),
            final(self).spec_rocks() == old(self).spec_rocks(),
            same_cells_except_flags(old(self).spec_cells(), final(self).spec_cells()),
            match old(self).spec_point_to_cell(x as int, z as int) {
                Option::None => {
                    &&& !placed
                    &&& final(self).spec_cells() == old(self).spec_cells()
                },
                Option::Some(p) => {
                    let target = old(self).cell_index(p.gx as int, p.gz as int);
                    &&& placed == (!old(self).cell(p.gx as int, p.gz as int).blocked
                        && !old(self).cell(p.gx as int, p.gz as int).occupied)
                    &&& forall|i: int| 0 <= i < final(self).spec_cells().len()
                        ==> ((#[trigger] final(self).spec_cells()[i]).has_flag
                            <==> (placed && i == target))
                },
            },
    {
        let point: Option<GridPoint> = self.point_to_cell(x, z);
        match point {
            Option::None => false,
            Option::Some(p) => {
                self.clear_flag();
                let gx: usize = p.gx as usize;
                let gz: usize = p.gz as usize;
                let i: usize = self.index(gx, gz);
                let has_flag: bool = self.cells[i].has_flag;
                let blocked: bool = self.cells[i].blocked;
                let occupied: bool = self.cells[i].occupied;
                let blocked_type: BlockedType = self.cells[i].blocked_type;
                if has_flag || blocked || occupied {
                    return false;
                }
                self.cells.set(i, GridCell {
                    occupied,
                    has_flag: true,
                    blocked,
                    blocked_type,
                });
                proof {
                    lemma_wf_from_flag_change(*old(self), *self);
                }
                true
            },
        }
    }

    /// Remove the marker flag from every cell.
    pub fn clear_flag(&mut self)
        requires
            old(self).wf(),
        ensures
            final(self).wf(),
            final(self).spec_width() == old(self).spec_width(),
            final(self).spec_height() == old(self).spec_height(),
            final(self).spec_pillars() == old(self).spec_pillars(),
            final(self).spec_rocks() == old(self).spec_rocks(),
            same_cells_except_flags(old(self).spec_cells(), final(self).spec_cells()),
            forall|i: int| 0 <= i < final(self).spec_cells().len()
                ==> !(#[trigger] final(self).spec_cells()[i]).has_flag,
    {
        let n: usize = self.cells.len();
        let mut i: usize = 0;
        while i < n
            invariant
                i <= n,
                n == old(self).spec_cells().len(),
                self.spec_cells().len() == n,
                self.spec_width() == old(self).spec_width(),
                self.spec_height() == old(self).spec_height(),
                self.spec_pillars() == old(self).spec_pillars(),
                self.spec_rocks() == old(self).spec_rocks(),
                forall|j: int| 0 <= j < i ==> !(#[trigger] self.spec_cells()[j]).has_flag,
                forall|j: int| 0 <= j < i ==> {
                    &&& (#[trigger] self.spec_cells()[j]).occupied
                        == old(self).spec_cells()[j].occupied
                    &&& self.spec_cells()[j].blocked == old(self).spec_cells()[j].blocked
                    &&& self.spec_cells()[j].blocked_type
                        == old(self).spec_cells()[j].blocked_type
                },
                forall|j: int| i <= j < n
                    ==> #[trigger] self.spec_cells()[j] == old(self).spec_cells()[j],
            decreases n - i,
        {
            let occupied: bool = self.cells[i].occupied;
            let blocked: bool = self.cells[i].blocked;
            let blocked_type: BlockedType = self.cells[i].blocked_type;
            self.cells.set(i, GridCell {
                occupied,
                has_flag: false,
                blocked,
                blocked_type,
            });
            i = i + 1;
        }
        proof {
            lemma_wf_from_flag_change(*old(self), *self);
        }
    }

    /// Remove every pillar: the record list is emptied and every cell
    /// blocked by pillar placement is restored to unblocked.
    pub fn clear_pillars(&mut self)
        requires
            old(self).wf(),
        ensures
            final(self).wf(),
            final(self).spec_width() == old(self).spec_width(),
            final(self).spec_height() == old(self).spec_height(),
            final(self).spec_pillars() == Seq::<Pillar>::empty(),
            final(self).spec_rocks() == old(self).spec_rocks(),
            final(self).spec_cells().len() == old(self).spec_cells().len(),
            forall|i: int| 0 <= i < final(self).spec_cells().len() ==> {
                &&& !(#[trigger] final(self).spec_cells()[i]).blocked
                &&& final(self).spec_cells()[i].blocked_type == BlockedType::Clear
                &&& final(self).spec_cells()[i].occupied == old(self).spec_cells()[i].occupied
                &&& final(self).spec_cells()[i].has_flag == old(self).spec_cells()[i].has_flag
            },
    {
        self.pillars.clear();

        let n: usize = self.cells.len();
        let mut i: usize = 0;
        while i < n
            invariant
                i <= n,
                n == old(self).spec_cells().len(),
                self.spec_cells().len() == n,
                self.spec_width() == old(self).spec_width(),
                self.spec_height() == old(self).spec_height(),
                self.spec_pillars() == Seq::<Pillar>::empty(),
                self.spec_rocks() == old(self).spec_rocks(),
                old(self).blocked_matches_type(),
                forall|j: int| 0 <= j < i ==> {
                    &&& !(#[trigger] self.spec_cells()[j]).blocked
                    &&& self.spec_cells()[j].blocked_type == BlockedType::Clear
                    &&& self.spec_cells()[j].occupied == old(self).spec_cells()[j].occupied
                    &&& self.spec_cells()[j].has_flag == old(self).spec_cells()[j].has_flag
                },
                forall|j: int| i <= j < n
                    ==> #[trigger] self.spec_cells()[j] == old(self).spec_cells()[j],
            decreases n - i,
        {
            let occupied: bool = self.cells[i].occupied;
            let has_flag: bool = self.cells[i].has_flag;
            let is_pillar: bool = self.cells[i].blocked_type == BlockedType::Pillar;
            if is_pillar {
                self.cells.set(i, GridCell {
                    occupied,
                    has_flag,
                    blocked: false,
                    blocked_type: BlockedType::Clear,
                });
            }
            i = i + 1;
        }
        proof {
            assert forall|gx: int, gz: int| self.in_bounds(gx, gz)
                implies {
                    &&& (#[trigger] self.cell(gx, gz)).occupied
                        == old(self).cell(gx, gz).occupied
                    &&& !self.cell(gx, gz).blocked
                    &&& self.cell(gx, gz).blocked_type == BlockedType::Clear
                }
            by {
                lemma_cell_index_in_range(self.spec_width(), self.spec_height(), gx, gz);
            }
        }
    }

    /// Whether every cell of the `sx x sz` area anchored at `(ax, az)`
    /// is free of blocking, occupation and the flag.  Scans the whole
    /// area even after a collision is found.
    fn area_is_free(&self, ax: usize, az: usize, sx: usize, sz: usize) -> (free: bool)
        requires
            self.dims_ok(),
            ax + sx <= self.spec_width(),
            az + sz <= self.spec_height(),
        ensures
            free == area_free(*self, ax as int, az as int, sx as int, sz as int),
    {
        let mut free: bool = true;
        let mut dx: usize = 0;
        while dx < sx
            invariant
                self.dims_ok(),
                ax + sx <= self.spec_width(),
                az + sz <= self.spec_height(),
                dx <= sx,
                free ==> forall|gx: int, gz: int|
                    ax <= gx < ax + dx && az <= gz < az + sz
                        ==> cell_is_free(#[trigger] self.cell(gx, gz)),
                !free ==> !area_free(*self, ax as int, az as int, sx as int, sz as int),
            decreases sx - dx,
        {
            let mut dz: usize = 0;
            while dz < sz
                invariant
                    self.dims_ok(),
                    ax + sx <= self.spec_width(),
                    az + sz <= self.spec_height(),
                    dx < sx,
                    dz <= sz,
                    free ==> forall|gx: int, gz: int|
                        ax <= gx < ax + dx && az <= gz < az + sz
                            ==> cell_is_free(#[trigger] self.cell(gx, gz)),
                    free ==> forall|gz: int|
                        az <= gz < az + dz
                            ==> cell_is_free(#[trigger] self.cell(ax + dx as int, gz)),
                    !free ==> !area_free(*self, ax as int, az as int, sx as int, sz as int),
                decreases sz - dz,
            {
                let c: &GridCell = self.get_cell(ax + dx, az + dz);
                if c.blocked || c.occupied || c.has_flag {
                    free = false;
                    proof {
                        if area_free(*self, ax as int, az as int, sx as int, sz as int) {
                            assert(cell_is_free(
                                self.cell((ax + dx) as int, (az + dz) as int)));
                        }
                    }
                }
                dz = dz + 1;
            }
            dx = dx + 1;
        }
        free
    }

    /// Mark the fixed-size pillar footprint anchored at `(ax, az)` as
    /// blocked by pillar placement; every other cell is untouched.
    fn mark_pillar(&mut self, ax: usize, az: usize)
        requires
            old(self).dims_ok(),
            ax + PILLAR_SIZE <= old(self).spec_width(),
            az + PILLAR_SIZE <= old(self).spec_height(),
        ensures
            final(self).spec_pillars() == old(self).spec_pillars(),
            pillar_marked(*old(self), *final(self), ax as int, az as int),
    {
        let mut dx: usize = 0;
        while dx < PILLAR_SIZE
            invariant
                self.dims_ok(),
                old(self).dims_ok(),
                ax + PILLAR_SIZE <= self.spec_width(),
                az + PILLAR_SIZE <= self.spec_height(),
                dx <= PILLAR_SIZE,
                self.spec_width() == old(self).spec_width(),
                self.spec_height() == old(self).spec_height(),
                self.spec_pillars() == old(self).spec_pillars(),
                self.spec_rocks() == old(self).spec_rocks(),
                self.spec_cells().len() == old(self).spec_cells().len(),
                cells_agree_but_pillar_marks(*old(self), *self),
                forall|gx: int, gz: int|
                    ax <= gx < ax + dx && az <= gz < az + PILLAR_SIZE as int
                        ==> #[trigger] self.cell(gx, gz)
                            == marked_pillar_cell(old(self).cell(gx, gz)),
                forall|gx: int, gz: int|
                    self.in_bounds(gx, gz)
                        && !(ax <= gx < ax + dx && az <= gz < az + PILLAR_SIZE as int)
                        ==> #[trigger] self.cell(gx, gz) == old(self).cell(gx, gz),
            decreases PILLAR_SIZE - dx,
        {
            let mut dz: usize = 0;
            while dz < PILLAR_SIZE
                invariant
                    self.dims_ok(),
                    old(self).dims_ok(),
                    ax + PILLAR_SIZE <= self.spec_width(),
                    az + PILLAR_SIZE <= self.spec_height(),
                    dx < PILLAR_SIZE,
                    dz <= PILLAR_SIZE,
                    self.spec_width() == old(self).spec_width(),
                    self.spec_height() == old(self).spec_height(),
                    self.spec_pillars() == old(self).spec_pillars(),
                    self.spec_rocks() == old(self).spec_rocks(),
                    self.spec_cells().len() == old(self).spec_cells().len(),
                    cells_agree_but_pillar_marks(*old(self), *self),
                    forall|gx: int, gz: int|
                        ax <= gx < ax + dx && az <= gz < az + PILLAR_SIZE as int
                            ==> #[trigger] self.cell(gx, gz)
                                == marked_pillar_cell(old(self).cell(gx, gz)),
                    forall|gz: int|
                        az <= gz < az + dz
                            ==> #[trigger] self.cell(ax + dx as int, gz)
                                == marked_pillar_cell(old(self).cell(ax + dx as int, gz)),
                    forall|gx: int, gz: int|
                        self.in_bounds(gx, gz)
                            && !(ax <= gx < ax + dx && az <= gz < az + PILLAR_SIZE as int)
                            && !(gx == ax + dx && az <= gz < az + dz)
                            ==> #[trigger] self.cell(gx, gz) == old(self).cell(gx, gz),
                decreases PILLAR_SIZE - dz,
            {
                let ghost prev: Grid = *self;
                let cx: usize = ax + dx;
                let cz: usize = az + dz;
                let i: usize = self.index(cx, cz);
                let occupied: bool = self.cells[i].occupied;
                let has_flag: bool = self.cells[i].has_flag;
                self.cells.set(i, GridCell {
                    occupied,
                    has_flag,
                    blocked: true,
                    blocked_type: BlockedType::Pillar,
                });
                proof {
                    assert forall|gx: int, gz: int|
                        self.in_bounds(gx, gz) && !(gx == cx as int && gz == cz as int)
                        implies #[trigger] self.cell(gx, gz) == prev.cell(gx, gz)
                    by {
                        lemma_cell_index_in_range(
                            self.spec_width(), self.spec_height(), gx, gz);
                        if prev.cell_index(gx, gz) == prev.cell_index(cx as int, cz as int) {
                            lemma_cell_index_injective(
                                self.spec_width(), gx, gz, cx as int, cz as int);
                        }
                    }
                    assert(self.cell(cx as int, cz as int)
                        == marked_pillar_cell(old(self).cell(cx as int, cz as int)));
                }
                dz = dz + 1;
            }
            dx = dx + 1;
        }
    }

    /// Mark the `sx x sz` rock footprint anchored at `(ax, az)` as
    /// occupied; every other cell is untouched.  Prior occupation is
    /// not checked: rocks may overlap anything.
    fn mark_rock(&mut self, ax: usize, az: usize, sx: usize, sz: usize)
        requires
            old(self).dims_ok(),
            ax + sx <= old(self).spec_width(),
            az + sz <= old(self).spec_height(),
        ensures
            final(self).spec_pillars() == old(self).spec_pillars(),
            final(self).spec_rocks() == old(self).spec_rocks(),
            rock_marked(*old(self), *final(self),
                ax as int, az as int, sx as int, sz as int),
    {
        let mut dx: usize = 0;
        while dx < sx
            invariant
                self.dims_ok(),
                old(self).dims_ok(),
                ax + sx <= self.spec_width(),
                az + sz <= self.spec_height(),
                dx <= sx,
                self.spec_width() == old(self).spec_width(),
                self.spec_height() == old(self).spec_height(),
                self.spec_pillars() == old(self).spec_pillars(),
                self.spec_rocks() == old(self).spec_rocks(),
                self.spec_cells().len() == old(self).spec_cells().len(),
                cells_agree_but_occupation(*old(self), *self),
                forall|gx: int, gz: int|
                    ax <= gx < ax + dx && az <= gz < az + sz
                        ==> #[trigger] self.cell(gx, gz)
                            == occupied_cell(old(self).cell(gx, gz)),
                forall|gx: int, gz: int|
                    self.in_bounds(gx, gz)
                        && !(ax <= gx < ax + dx && az <= gz < az + sz)
                        ==> #[trigger] self.cell(gx, gz) == old(self).cell(gx, gz),
            decreases sx - dx,
        {
            let mut dz: usize = 0;
            while dz < sz
                invariant
                    self.dims_ok(),
                    old(self).dims_ok(),
                    ax + sx <= self.spec_width(),
                    az + sz <= self.spec_height(),
                    dx < sx,
                    dz <= sz,
                    self.spec_width() == old(self).spec_width(),
                    self.spec_height() == old(self).spec_height(),
                    self.spec_pillars() == old(self).spec_pillars(),
                    self.spec_rocks() == old(self).spec_rocks(),
                    self.spec_cells().len() == old(self).spec_cells().len(),
                    cells_agree_but_occupation(*old(self), *self),
                    forall|gx: int, gz: int|
                        ax <= gx < ax + dx && az <= gz < az + sz
                            ==> #[trigger] self.cell(gx, gz)
                                == occupied_cell(old(self).cell(gx, gz)),
                    forall|gz: int|
                        az <= gz < az + dz
                            ==> #[trigger] self.cell(ax + dx as int, gz)
                                == occupied_cell(old(self).cell(ax + dx as int, gz)),
                    forall|gx: int, gz: int|
                        self.in_bounds(gx, gz)
                            && !(ax <= gx < ax + dx && az <= gz < az + sz)
                            && !(gx == ax + dx && az <= gz < az + dz)
                            ==> #[trigger] self.cell(gx, gz) == old(self).cell(gx, gz),
                decreases sz - dz,
            {
                let ghost prev: Grid = *self;
                let cx: usize = ax + dx;
                let cz: usize = az + dz;
                let i: usize = self.index(cx, cz);
                let has_flag: bool = self.cells[i].has_flag;
                let blocked: bool = self.cells[i].blocked;
                let blocked_type: BlockedType = self.cells[i].blocked_type;
                self.cells.set(i, GridCell {
                    occupied: true,
                    has_flag,
                    blocked,
                    blocked_type,
                });
                proof {
                    assert forall|gx: int, gz: int|
                        self.in_bounds(gx, gz) && !(gx == cx as int && gz == cz as int)
                        implies #[trigger] self.cell(gx, gz) == prev.cell(gx, gz)
                    by {
                        lemma_cell_index_in_range(
                            self.spec_width(), self.spec_height(), gx, gz);
                        if prev.cell_index(gx, gz) == prev.cell_index(cx as int, cz as int) {
                            lemma_cell_index_injective(
                                self.spec_width(), gx, gz, cx as int, cz as int);
                        }
                    }
                    assert(self.cell(cx as int, cz as int)
                        == occupied_cell(old(self).cell(cx as int, cz as int)));
                }
                dz = dz + 1;
            }
            dx = dx + 1;
        }
    }

    /// Replace every pillar: all previously placed pillars are cleared,
    /// then up to `nums` new ones are placed, each anchored uniformly
    /// at random among positions whose whole footprint is free,
    /// retrying on collision.  A pillar whose placement exceeds
    /// `PILLAR_PLACE_TRIES` retries is reported missing from the
    /// returned list rather than retried forever; on a fully free grid
    /// the first pillar asked for is always placed, whatever the
    /// draws.  The returned footprints are pairwise disjoint and stand
    /// only on cells free of rocks and the flag.  Returns the full
    /// current pillar list.
    pub fn generate_pillars(&mut self, nums: usize) -> (res: Vec<Pillar>)
        requires
            old(self).wf(),
            PILLAR_SIZE < old(self).spec_width(),
            PILLAR_SIZE < old(self).spec_height(),
        ensures
            final(self).wf(),
            final(self).spec_width() == old(self).spec_width(),
            final(self).spec_height() == old(self).spec_height(),
            final(self).spec_rocks() == old(self).spec_rocks(),
            final(self).spec_cells().len() == old(self).spec_cells().len(),
            res@ == final(self).spec_pillars(),
            res@.len() <= nums,
            forall|i: int| 0 <= i < final(self).spec_cells().len() ==> {
                &&& (#[trigger] final(self).spec_cells()[i]).occupied
                    == old(self).spec_cells()[i].occupied
                &&& final(self).spec_cells()[i].has_flag
                    == old(self).spec_cells()[i].has_flag
            },
            forall|gx: int, gz: int| final(self).in_bounds(gx, gz) ==> {
                (#[trigger] final(self).cell(gx, gz)).blocked
                    <==> exists|k: int| 0 <= k < res@.len()
                        && pillar_covers(final(self).spec_width(),
                            final(self).spec_height(), res@[k], gx, gz)
            },
            pillars_disjoint(final(self).spec_width(), final(self).spec_height(), res@),
            blocked_cells_clean(*final(self)),
            nums >= 1 && all_cells_free(*old(self)) ==> res@.len() >= 1,
    {
        let ghost all_free0: bool = all_cells_free(*old(self));
        self.clear_pillars();
        proof {
            assert forall|gx: int, gz: int| self.in_bounds(gx, gz)
                implies !(#[trigger] self.cell(gx, gz)).blocked
                    && self.cell(gx, gz).occupied == old(self).cell(gx, gz).occupied
                    && self.cell(gx, gz).has_flag == old(self).cell(gx, gz).has_flag
            by {
                lemma_cell_index_in_range(self.spec_width(), self.spec_height(), gx, gz);
            }
        }

        let mut count: usize = 0;
        while count < nums
            invariant
                self.wf(),
                PILLAR_SIZE < self.spec_width(),
                PILLAR_SIZE < self.spec_height(),
                count <= nums,
                self.spec_width() == old(self).spec_width(),
                self.spec_height() == old(self).spec_height(),
                self.spec_rocks() == old(self).spec_rocks(),
                self.spec_cells().len() == old(self).spec_cells().len(),
                self.spec_pillars().len() <= count,
                forall|i: int| 0 <= i < self.spec_cells().len() ==> {
                    &&& (#[trigger] self.spec_cells()[i]).occupied
                        == old(self).spec_cells()[i].occupied
                    &&& self.spec_cells()[i].has_flag == old(self).spec_cells()[i].has_flag
                },
                pillars_disjoint(self.spec_width(), self.spec_height(), self.spec_pillars()),
                blocked_cells_clean(*self),
                all_free0 == all_cells_free(*old(self)),
                all_free0 && count == 0 ==> all_cells_free(*self),
                all_free0 && count >= 1 ==> self.spec_pillars().len() >= 1,
            decreases nums - count,
        {
            let ghost placed_before: int = self.spec_pillars().len() as int;
            let mut placed: bool = false;
            let mut tries: usize = 0;
            while !placed && tries < PILLAR_PLACE_TRIES
                invariant
                    self.wf(),
                    PILLAR_SIZE < self.spec_width(),
                    PILLAR_SIZE < self.spec_height(),
                    tries <= PILLAR_PLACE_TRIES,
                    self.spec_width() == old(self).spec_width(),
                    self.spec_height() == old(self).spec_height(),
                    self.spec_rocks() == old(self).spec_rocks(),
                    self.spec_cells().len() == old(self).spec_cells().len(),
                    self.spec_pillars().len()
                        == if placed { placed_before + 1 } else { placed_before },
                    forall|i: int| 0 <= i < self.spec_cells().len() ==> {
                        &&& (#[trigger] self.spec_cells()[i]).occupied
                            == old(self).spec_cells()[i].occupied
                        &&& self.spec_cells()[i].has_flag
                            == old(self).spec_cells()[i].has_flag
                    },
                    pillars_disjoint(self.spec_width(), self.spec_height(),
                        self.spec_pillars()),
                    blocked_cells_clean(*self),
                    all_free0 && count == 0 && !placed ==> all_cells_free(*self),
                    all_free0 && count == 0 && tries >= 1 ==> placed,
                decreases PILLAR_PLACE_TRIES - tries,
            {
                tries = tries + 1;
                let ax: usize = random_in_range(0, self.width - PILLAR_SIZE);
                let az: usize = random_in_range(0, self.height - PILLAR_SIZE);

                let can_place: bool = self.area_is_free(ax, az, PILLAR_SIZE, PILLAR_SIZE);

                proof {
                    if all_free0 && count == 0 {
                        assert forall|gx: int, gz: int|
                            ax <= gx < ax + PILLAR_SIZE as int
                                && az <= gz < az + PILLAR_SIZE as int
                            implies cell_is_free(#[trigger] self.cell(gx, gz))
                        by {
                            assert(self.in_bounds(gx, gz));
                        }
                        assert(area_free(*self, ax as int, az as int,
                            PILLAR_SIZE as int, PILLAR_SIZE as int));
                        assert(can_place);
                    }
                }

                if can_place {
                    let ghost before: Grid = *self;
                    self.mark_pillar(ax, az);
                    let ghost mid: Grid = *self;
                    let cx: usize = ax + PILLAR_SIZE / 2;
                    let cz: usize = az + PILLAR_SIZE / 2;
                    let point: ThreeGrid = self.cell_to_point(cx, cz);
                    let record: Pillar = Pillar {
                        x: point.x,
                        z: point.z,
                        size: PILLAR_SIZE as i64,
                    };
                    self.pillars.push(record);
                    proof {
                        lemma_wf_after_pillar_place(
                            before, mid, *self, record, ax as int, az as int);
                    }
                    placed = true;
                }
            }
            count = count + 1;
        }

        let res: Vec<Pillar> = self.pillars.clone();
        proof {
            assert forall|i: int| 0 <= i < res@.len()
                implies res@[i] == self.spec_pillars()[i]
            by {
            }
            assert(res@ =~= self.spec_pillars());
            assert forall|gx: int, gz: int| self.in_bounds(gx, gz)
                implies ((#[trigger] self.cell(gx, gz)).blocked
                    <==> exists|k: int| 0 <= k < res@.len()
                        && pillar_covers(self.spec_width(), self.spec_height(),
                            res@[k], gx, gz))
            by {
                lemma_cell_index_in_range(self.spec_width(), self.spec_height(), gx, gz);
            }
        }
        res
    }

    /// Place `num_rocks` additional rocks: each gets a random footprint
    /// of one to five cells per axis and a random anchor inside the
    /// grid, marks every covered cell occupied without checking prior
    /// occupancy, and appends its display record.  Returns the
    /// cumulative rock list.
    pub fn generate_rocks(&mut self, num_rocks: usize) -> (res: Vec<RockData>)
        requires
            old(self).wf(),
            old(self).spec_width() >= 5,
            old(self).spec_height() >= 5,
        ensures
            final(self).wf(),
            final(self).spec_width() == old(self).spec_width(),
            final(self).spec_height() == old(self).spec_height(),
            final(self).spec_pillars() == old(self).spec_pillars(),
            final(self).spec_cells().len() == old(self).spec_cells().len(),
            res@ == final(self).spec_rocks(),
            res@.len() == old(self).spec_rocks().len() + num_rocks,
            forall|k: int| 0 <= k < old(self).spec_rocks().len()
                ==> #[trigger] final(self).spec_rocks()[k] == old(self).spec_rocks()[k],
            forall|i: int| 0 <= i < final(self).spec_cells().len() ==> {
                &&& (#[trigger] final(self).spec_cells()[i]).has_flag
                    == old(self).spec_cells()[i].has_flag
                &&& final(self).spec_cells()[i].blocked == old(self).spec_cells()[i].blocked
                &&& final(self).spec_cells()[i].blocked_type
                    == old(self).spec_cells()[i].blocked_type
            },
            forall|gx: int, gz: int| final(self).in_bounds(gx, gz) ==> {
                (#[trigger] final(self).cell(gx, gz)).occupied
                    <==> old(self).cell(gx, gz).occupied
                        || exists|k: int| old(self).spec_rocks().len() <= k < res@.len()
                            && rock_covers(res@[k], gx, gz)
            },
    {
        let ghost base: Grid = *old(self);
        let mut j: usize = 0;
        while j < num_rocks
            invariant
                self.wf(),
                self.spec_width() >= 5,
                self.spec_height() >= 5,
                j <= num_rocks,
                self.spec_width() == base.spec_width(),
                self.spec_height() == base.spec_height(),
                self.spec_pillars() == base.spec_pillars(),
                self.spec_cells().len() == base.spec_cells().len(),
                self.spec_rocks().len() == base.spec_rocks().len() + j,
                forall|k: int| 0 <= k < base.spec_rocks().len()
                    ==> #[trigger] self.spec_rocks()[k] == base.spec_rocks()[k],
                forall|i: int| 0 <= i < self.spec_cells().len() ==> {
                    &&& (#[trigger] self.spec_cells()[i]).has_flag
                        == base.spec_cells()[i].has_flag
                    &&& self.spec_cells()[i].blocked == base.spec_cells()[i].blocked
                    &&& self.spec_cells()[i].blocked_type == base.spec_cells()[i].blocked_type
                },
                forall|gx: int, gz: int| self.in_bounds(gx, gz) ==> {
                    (#[trigger] self.cell(gx, gz)).occupied
                        <==> base.cell(gx, gz).occupied
                            || exists|k: int|
                                base.spec_rocks().len() <= k < self.spec_rocks().len()
                                && rock_covers(self.spec_rocks()[k], gx, gz)
                },
            decreases num_rocks - j,
        {
            let sx: usize = random_in_range(1, 6);
            let sz: usize = random_in_range(1, 6);
            let ax: usize = random_in_range(0, self.width - sx + 1);
            let az: usize = random_in_range(0, self.height - sz + 1);

            let ghost before: Grid = *self;
            self.mark_rock(ax, az, sx, sz);
            let ghost mid: Grid = *self;

            let cx: usize = ax + (sx - 1) / 2;
            let cz: usize = az + (sz - 1) / 2;
            let world: GridResultPoint =
                Grid::grid_to_world(&GridPoint { gx: cx as i32, gz: cz as i32 });
            let record: RockData = RockData {
                position: (world.x as i64, 0, world.z as i64),
                scale: (sx as i64, 1, sz as i64),
            };
            self.rocks.push(record);
            proof {
                lemma_wf_after_rock_place(before, mid, *self, record,
                    ax as int, az as int, sx as int, sz as int);
                assert forall|gx: int, gz: int| self.in_bounds(gx, gz)
                    implies #[trigger] self.cell(gx, gz) == mid.cell(gx, gz)
                by {
                }
                assert forall|gx: int, gz: int| self.in_bounds(gx, gz)
                    implies ((#[trigger] self.cell(gx, gz)).occupied
                        <==> base.cell(gx, gz).occupied
                            || exists|k: int|
                                base.spec_rocks().len() <= k < self.spec_rocks().len()
                                && rock_covers(self.spec_rocks()[k], gx, gz))
                by {
                    let lastr: int = self.spec_rocks().len() - 1;
                    let rec: RockData = self.spec_rocks()[lastr];
                    assert(rec == record);
                    assert(rock_anchor_x(rec) == ax);
                    assert(rock_anchor_z(rec) == az);
                    if ax <= gx < ax + sx && az <= gz < az + sz {
                        assert(self.cell(gx, gz) == occupied_cell(before.cell(gx, gz)));
                        assert(rock_covers(rec, gx, gz));
                    } else {
                        assert(self.cell(gx, gz) == before.cell(gx, gz));
                        if before.cell(gx, gz).occupied && !base.cell(gx, gz).occupied {
                            let k0: int = choose|k: int|
                                base.spec_rocks().len() <= k < before.spec_rocks().len()
                                    && rock_covers(before.spec_rocks()[k], gx, gz);
                            assert(self.spec_rocks()[k0] == before.spec_rocks()[k0]);
                            assert(rock_covers(self.spec_rocks()[k0], gx, gz));
                        }
                        if exists|k: int|
                            base.spec_rocks().len() <= k < self.spec_rocks().len()
                                && rock_covers(self.spec_rocks()[k], gx, gz) {
                            let k1: int = choose|k: int|
                                base.spec_rocks().len() <= k < self.spec_rocks().len()
                                    && rock_covers(self.spec_rocks()[k], gx, gz);
                            if k1 < lastr {
                                assert(self.spec_rocks()[k1] == before.spec_rocks()[k1]);
                                assert(rock_covers(before.spec_rocks()[k1], gx, gz));
                                assert(before.cell(gx, gz).occupied);
                            }
                        }
                    }
                }
            }
            j = j + 1;
        }

        let res: Vec<RockData> = self.rocks.clone();
        proof {
            assert forall|i: int| 0 <= i < res@.len()
                implies res@[i] == self.spec_rocks()[i]
            by {
            }
            assert(res@ =~= self.spec_rocks());
        }
        res
    }

    /// Width in cells.
    pub fn width(&self) -> (w: usize)
        ensures
            w == self.spec_width(),
    {
        self.width
    }

    /// Height in cells.
    pub fn height(&self) -> (h: usize)
        ensures
            h == self.spec_height(),
    {
        self.height
    }
}

/// Round a world coordinate (ticks) to whole world units, halves away
/// from zero.
fn round_coord(w: i64) -> (r: i64)
    requires
        -MAX_WORLD <= w <= MAX_WORLD,
    ensures
        r == round_world_coord(w as int),
{
    let half: i64 = WORLD_SCALE / 2;
    if w >= 0 {
        (((w as u64) + (half as u64)) / (WORLD_SCALE as u64)) as i64
    } else {
        -((((-w) as u64 + (half as u64)) / (WORLD_SCALE as u64)) as i64)
    }
}

/// How many random anchors pillar placement tries per pillar before it
/// gives the pillar up: a bound instead of the unbounded retry that
/// risks spinning forever on a nearly full grid.
pub const PILLAR_PLACE_TRIES: usize = 10_000;

/// A cell free of blocking, occupation and the flag.
pub open spec fn cell_is_free(c: GridCell) -> bool {
    !c.blocked && !c.occupied && !c.has_flag
}

/// Every cell of the `sx x sz` area anchored at `(ax, az)` is free.
pub open spec fn area_free(g: Grid, ax: int, az: int, sx: int, sz: int) -> bool {
    forall|gx: int, gz: int|
        ax <= gx < ax + sx && az <= gz < az + sz
            ==> cell_is_free(#[trigger] g.cell(gx, gz))
}

/// Every cell of the grid is free.
pub open spec fn all_cells_free(g: Grid) -> bool {
    forall|gx: int, gz: int|
        g.in_bounds(gx, gz) ==> cell_is_free(#[trigger] g.cell(gx, gz))
}

/// No two pillar records cover a common cell.
pub open spec fn pillars_disjoint(width: int, height: int, ps: Seq<Pillar>) -> bool {
    forall|k1: int, k2: int, gx: int, gz: int|
        0 <= k1 < ps.len() && 0 <= k2 < ps.len()
            && #[trigger] pillar_covers(width, height, ps[k1], gx, gz)
            && #[trigger] pillar_covers(width, height, ps[k2], gx, gz)
            ==> k1 == k2
}

/// Every blocked cell is free of occupation and the flag: pillars only
/// ever stand on ground that held nothing else.
pub open spec fn blocked_cells_clean(g: Grid) -> bool {
    forall|gx: int, gz: int|
        g.in_bounds(gx, gz) && (#[trigger] g.cell(gx, gz)).blocked
            ==> !g.cell(gx, gz).occupied && !g.cell(gx, gz).has_flag
}

/// The cell `c` after pillar placement marks it.
pub open spec fn marked_pillar_cell(c: GridCell) -> GridCell {
    GridCell {
        occupied: c.occupied,
        has_flag: c.has_flag,
        blocked: true,
        blocked_type: BlockedType::Pillar,
    }
}

/// The cell `c` after a rock covers it.
pub open spec fn occupied_cell(c: GridCell) -> GridCell {
    GridCell {
        occupied: true,
        has_flag: c.has_flag,
        blocked: c.blocked,
        blocked_type: c.blocked_type,
    }
}

/// Flat agreement on the marks that pillar placement never touches,
/// and preservation of the block/tag correspondence.
pub open spec fn cells_agree_but_pillar_marks(a: Grid, b: Grid) -> bool {
    &&& b.spec_cells().len() == a.spec_cells().len()
    &&& forall|i: int| 0 <= i < b.spec_cells().len() ==> {
        &&& (#[trigger] b.spec_cells()[i]).occupied == a.spec_cells()[i].occupied
        &&& b.spec_cells()[i].has_flag == a.spec_cells()[i].has_flag
        &&& ((a.spec_cells()[i].blocked
                <==> a.spec_cells()[i].blocked_type == BlockedType::Pillar)
            ==> (b.spec_cells()[i].blocked
                <==> b.spec_cells()[i].blocked_type == BlockedType::Pillar))
    }
}

/// Flat agreement on the marks that rock placement never touches.
pub open spec fn cells_agree_but_occupation(a: Grid, b: Grid) -> bool {
    &&& b.spec_cells().len() == a.spec_cells().len()
    &&& forall|i: int| 0 <= i < b.spec_cells().len() ==> {
        &&& (#[trigger] b.spec_cells()[i]).has_flag == a.spec_cells()[i].has_flag
        &&& b.spec_cells()[i].blocked == a.spec_cells()[i].blocked
        &&& b.spec_cells()[i].blocked_type == a.spec_cells()[i].blocked_type
    }
}

/// `b` is `a` with exactly the pillar footprint at `(ax, az)` marked.
pub open spec fn pillar_marked(a: Grid, b: Grid, ax: int, az: int) -> bool {
    &&& b.spec_width() == a.spec_width()
    &&& b.spec_height() == a.spec_height()
    &&& b.spec_rocks() == a.spec_rocks()
    &&& cells_agree_but_pillar_marks(a, b)
    &&& forall|gx: int, gz: int|
        b.in_bounds(gx, gz)
            && ax <= gx < ax + PILLAR_SIZE as int && az <= gz < az + PILLAR_SIZE as int
            ==> #[trigger] b.cell(gx, gz) == marked_pillar_cell(a.cell(gx, gz))
    &&& forall|gx: int, gz: int|
        b.in_bounds(gx, gz)
            && !(ax <= gx < ax + PILLAR_SIZE as int && az <= gz < az + PILLAR_SIZE as int)
            ==> #[trigger] b.cell(gx, gz) == a.cell(gx, gz)
}

/// `b` is `a` with exactly the `sx x sz` rock footprint at `(ax, az)`
/// marked occupied.
pub open spec fn rock_marked(a: Grid, b: Grid, ax: int, az: int, sx: int, sz: int) -> bool {
    &&& b.spec_width() == a.spec_width()
    &&& b.spec_height() == a.spec_height()
    &&& b.spec_pillars() == a.spec_pillars()
    &&& cells_agree_but_occupation(a, b)
    &&& forall|gx: int, gz: int|
        b.in_bounds(gx, gz) && ax <= gx < ax + sx && az <= gz < az + sz
            ==> #[trigger] b.cell(gx, gz) == occupied_cell(a.cell(gx, gz))
    &&& forall|gx: int, gz: int|
        b.in_bounds(gx, gz) && !(ax <= gx < ax + sx && az <= gz < az + sz)
            ==> #[trigger] b.cell(gx, gz) == a.cell(gx, gz)
}

/// Relies on rand's `Rng::random_range` on the thread-local generator
/// `rand::rng()`: it returns a uniform sample inside the half-open
/// range and panics only on an empty range, which the precondition
/// excludes.  Nothing beyond membership is assumed of the sample.
#[verifier::external_body]
fn random_in_range(lo: usize, hi: usize) -> (r: usize)
    requires
        lo < hi,
    ensures
        lo <= r < hi,
{
    rand::Rng::random_range(&mut rand::rng(), lo..hi)
}

/// Marking one free pillar footprint (`a` to `mid`) and appending its
/// record (`mid` to `b`) preserves the grid invariant.
proof fn lemma_wf_after_pillar_place(a: Grid, mid: Grid, b: Grid, p: Pillar, ax: int, az: int)
    requires
        a.wf(),
        pillar_marked(a, mid, ax, az),
        b.spec_width() == mid.spec_width(),
        b.spec_height() == mid.spec_height(),
        b.spec_cells() == mid.spec_cells(),
        b.spec_rocks() == mid.spec_rocks(),
        b.spec_pillars() == a.spec_pillars().push(p),
        0 <= ax,
        ax + PILLAR_SIZE as int <= a.spec_width(),
        0 <= az,
        az + PILLAR_SIZE as int <= a.spec_height(),
        area_free(a, ax, az, PILLAR_SIZE as int, PILLAR_SIZE as int),
        p.x == cell_to_world_coord(a.spec_width(), ax + (PILLAR_SIZE / 2) as int),
        p.z == cell_to_world_coord(a.spec_height(), az + (PILLAR_SIZE / 2) as int),
        p.size == PILLAR_SIZE as int,
        pillars_disjoint(a.spec_width(), a.spec_height(), a.spec_pillars()),
        blocked_cells_clean(a),
    ensures
        b.wf(),
        pillars_disjoint(b.spec_width(), b.spec_height(), b.spec_pillars()),
        blocked_cells_clean(b),
{
    let w: int = a.spec_width();
    let h: int = a.spec_height();
    assert forall|gx: int, gz: int| b.in_bounds(gx, gz)
        implies #[trigger] b.cell(gx, gz) == mid.cell(gx, gz)
    by {
    }
    assert(pillar_marked(a, b, ax, az));
    lemma_coord_round_trip(w, ax + (PILLAR_SIZE / 2) as int);
    lemma_coord_round_trip(h, az + (PILLAR_SIZE / 2) as int);
    assert(pillar_anchor_x(w, p) == ax);
    assert(pillar_anchor_z(h, p) == az);
    assert(pillar_record_wf(w, h, p));

    let last: int = b.spec_pillars().len() - 1;

    assert forall|k: int, gx: int, gz: int|
        0 <= k < b.spec_pillars().len()
            && #[trigger] pillar_covers(w, h, b.spec_pillars()[k], gx, gz)
        implies b.in_bounds(gx, gz) && b.cell(gx, gz).blocked_type == BlockedType::Pillar
    by {
        if k == last {
            assert(ax <= gx < ax + PILLAR_SIZE as int && az <= gz < az + PILLAR_SIZE as int);
            assert(b.cell(gx, gz) == marked_pillar_cell(a.cell(gx, gz)));
        } else {
            assert(b.spec_pillars()[k] == a.spec_pillars()[k]);
            assert(pillar_covers(w, h, a.spec_pillars()[k], gx, gz));
            assert(a.cell(gx, gz).blocked_type == BlockedType::Pillar);
            if ax <= gx < ax + PILLAR_SIZE as int && az <= gz < az + PILLAR_SIZE as int {
                assert(b.cell(gx, gz) == marked_pillar_cell(a.cell(gx, gz)));
            } else {
                assert(b.cell(gx, gz) == a.cell(gx, gz));
            }
        }
    }

    assert forall|gx: int, gz: int|
        b.in_bounds(gx, gz)
            && (#[trigger] b.cell(gx, gz)).blocked_type == BlockedType::Pillar
        implies exists|k: int| 0 <= k < b.spec_pillars().len()
            && pillar_covers(w, h, b.spec_pillars()[k], gx, gz)
    by {
        if ax <= gx < ax + PILLAR_SIZE as int && az <= gz < az + PILLAR_SIZE as int {
            assert(pillar_covers(w, h, b.spec_pillars()[last], gx, gz));
        } else {
            assert(b.cell(gx, gz) == a.cell(gx, gz));
            let k0: int = choose|k: int| 0 <= k < a.spec_pillars().len()
                && pillar_covers(w, h, a.spec_pillars()[k], gx, gz);
            assert(b.spec_pillars()[k0] == a.spec_pillars()[k0]);
            assert(pillar_covers(w, h, b.spec_pillars()[k0], gx, gz));
        }
    }

    assert forall|gx: int, gz: int| b.in_bounds(gx, gz)
        implies (#[trigger] b.cell(gx, gz)).occupied == a.cell(gx, gz).occupied
    by {
        if ax <= gx < ax + PILLAR_SIZE as int && az <= gz < az + PILLAR_SIZE as int {
            assert(b.cell(gx, gz) == marked_pillar_cell(a.cell(gx, gz)));
        }
    }

    assert forall|gx: int, gz: int|
        b.in_bounds(gx, gz) && (#[trigger] b.cell(gx, gz)).occupied
        implies exists|k: int| 0 <= k < b.spec_rocks().len()
            && rock_covers(b.spec_rocks()[k], gx, gz)
    by {
        assert(a.cell(gx, gz).occupied);
    }

    assert forall|k1: int, k2: int, gx: int, gz: int|
        0 <= k1 < b.spec_pillars().len() && 0 <= k2 < b.spec_pillars().len()
            && #[trigger] pillar_covers(w, h, b.spec_pillars()[k1], gx, gz)
            && #[trigger] pillar_covers(w, h, b.spec_pillars()[k2], gx, gz)
        implies k1 == k2
    by {
        if k1 < last && k2 == last {
            assert(b.spec_pillars()[k1] == a.spec_pillars()[k1]);
            assert(a.cell(gx, gz).blocked_type == BlockedType::Pillar);
            assert(a.in_bounds(gx, gz));
            lemma_cell_index_in_range(w, h, gx, gz);
            assert(a.cell(gx, gz).blocked);
            assert(cell_is_free(a.cell(gx, gz)));
        } else if k1 == last && k2 < last {
            assert(b.spec_pillars()[k2] == a.spec_pillars()[k2]);
            assert(a.cell(gx, gz).blocked_type == BlockedType::Pillar);
            assert(a.in_bounds(gx, gz));
            lemma_cell_index_in_range(w, h, gx, gz);
            assert(a.cell(gx, gz).blocked);
            assert(cell_is_free(a.cell(gx, gz)));
        } else if k1 < last && k2 < last {
            assert(b.spec_pillars()[k1] == a.spec_pillars()[k1]);
            assert(b.spec_pillars()[k2] == a.spec_pillars()[k2]);
        }
    }

    assert forall|gx: int, gz: int|
        b.in_bounds(gx, gz) && (#[trigger] b.cell(gx, gz)).blocked
        implies !b.cell(gx, gz).occupied && !b.cell(gx, gz).has_flag
    by {
        if ax <= gx < ax + PILLAR_SIZE as int && az <= gz < az + PILLAR_SIZE as int {
            assert(b.cell(gx, gz) == marked_pillar_cell(a.cell(gx, gz)));
            assert(cell_is_free(a.cell(gx, gz)));
        } else {
            assert(b.cell(gx, gz) == a.cell(gx, gz));
        }
    }
}

/// Marking one rock footprint occupied and appending its record
/// preserves the grid invariant.
proof fn lemma_wf_after_rock_place(
    a: Grid,
    mid: Grid,
    b: Grid,
    r: RockData,
    ax: int,
    az: int,
    sx: int,
    sz: int,
)
    requires
        a.wf(),
        rock_marked(a, mid, ax, az, sx, sz),
        b.spec_width() == mid.spec_width(),
        b.spec_height() == mid.spec_height(),
        b.spec_cells() == mid.spec_cells(),
        b.spec_pillars() == mid.spec_pillars(),
        b.spec_rocks() == a.spec_rocks().push(r),
        1 <= sx <= 5,
        1 <= sz <= 5,
        0 <= ax,
        ax + sx <= a.spec_width(),
        0 <= az,
        az + sz <= a.spec_height(),
        r.position.0 == ax + (sx - 1) / 2,
        r.position.1 == 0,
        r.position.2 == az + (sz - 1) / 2,
        r.scale.0 == sx,
        r.scale.1 == 1,
        r.scale.2 == sz,
    ensures
        b.wf(),
{
    let w: int = a.spec_width();
    let h: int = a.spec_height();
    assert forall|gx: int, gz: int| b.in_bounds(gx, gz)
        implies #[trigger] b.cell(gx, gz) == mid.cell(gx, gz)
    by {
    }
    assert(rock_marked(a, b, ax, az, sx, sz));
    assert(rock_anchor_x(r) == ax);
    assert(rock_anchor_z(r) == az);
    assert(rock_record_wf(w, h, r));

    let last: int = b.spec_rocks().len() - 1;

    assert forall|gx: int, gz: int| b.in_bounds(gx, gz)
        implies {
            &&& (#[trigger] b.cell(gx, gz)).blocked == a.cell(gx, gz).blocked
            &&& b.cell(gx, gz).blocked_type == a.cell(gx, gz).blocked_type
            &&& b.cell(gx, gz).has_flag == a.cell(gx, gz).has_flag
        }
    by {
        if ax <= gx < ax + sx && az <= gz < az + sz {
            assert(b.cell(gx, gz) == occupied_cell(a.cell(gx, gz)));
        }
    }

    assert forall|gx: int, gz: int|
        b.in_bounds(gx, gz)
            && (#[trigger] b.cell(gx, gz)).blocked_type == BlockedType::Pillar
        implies exists|k: int| 0 <= k < b.spec_pillars().len()
            && pillar_covers(w, h, b.spec_pillars()[k], gx, gz)
    by {
        assert(a.cell(gx, gz).blocked_type == BlockedType::Pillar);
    }

    assert forall|k: int, gx: int, gz: int|
        0 <= k < b.spec_rocks().len()
            && #[trigger] rock_covers(b.spec_rocks()[k], gx, gz)
        implies b.in_bounds(gx, gz) && b.cell(gx, gz).occupied
    by {
        if k == last {
            assert(ax <= gx < ax + sx && az <= gz < az + sz);
            assert(b.cell(gx, gz) == occupied_cell(a.cell(gx, gz)));
        } else {
            assert(b.spec_rocks()[k] == a.spec_rocks()[k]);
            assert(rock_covers(a.spec_rocks()[k], gx, gz));
            assert(a.cell(gx, gz).occupied);
            if ax <= gx < ax + sx && az <= gz < az + sz {
                assert(b.cell(gx, gz) == occupied_cell(a.cell(gx, gz)));
            } else {
                assert(b.cell(gx, gz) == a.cell(gx, gz));
            }
        }
    }

    assert forall|gx: int, gz: int|
        b.in_bounds(gx, gz) && (#[trigger] b.cell(gx, gz)).occupied
        implies exists|k: int| 0 <= k < b.spec_rocks().len()
            && rock_covers(b.spec_rocks()[k], gx, gz)
    by {
        if ax <= gx < ax + sx && az <= gz < az + sz {
            assert(rock_covers(b.spec_rocks()[last], gx, gz));
        } else {
            assert(b.cell(gx, gz) == a.cell(gx, gz));
            let k0: int = choose|k: int| 0 <= k < a.spec_rocks().len()
                && rock_covers(a.spec_rocks()[k], gx, gz);
            assert(b.spec_rocks()[k0] == a.spec_rocks()[k0]);
            assert(rock_covers(b.spec_rocks()[k0], gx, gz));
        }
    }
}

/// A change that touches only flag marks preserves the grid invariant,
/// provided flags stay unique.
proof fn lemma_wf_from_flag_change(a: Grid, b: Grid)
    requires
        a.wf(),
        b.spec_width() == a.spec_width(),
        b.spec_height() == a.spec_height(),
        b.spec_pillars() == a.spec_pillars(),
        b.spec_rocks() == a.spec_rocks(),
        same_cells_except_flags(a.spec_cells(), b.spec_cells()),
        b.flags_unique(),
    ensures
        b.wf(),
{
    assert forall|gx: int, gz: int| b.in_bounds(gx, gz)
        implies {
            &&& (#[trigger] b.cell(gx, gz)).occupied == a.cell(gx, gz).occupied
            &&& b.cell(gx, gz).blocked == a.cell(gx, gz).blocked
            &&& b.cell(gx, gz).blocked_type == a.cell(gx, gz).blocked_type
        }
    by {
        lemma_cell_index_in_range(b.spec_width(), b.spec_height(), gx, gz);
    }
}

/// Law: converting a valid cell coordinate to its world point and back
/// yields the same cell.
pub proof fn lemma_cell_world_round_trip(g: Grid, gx: int, gz: int)
    requires
        g.dims_ok(),
        0 <= gx < g.spec_width(),
        0 <= gz < g.spec_height(),
    ensures
        g.spec_point_to_cell(
            cell_to_world_coord(g.spec_width(), gx),
            cell_to_world_coord(g.spec_height(), gz),
        ) == Some(GridPoint { gx: gx as i32, gz: gz as i32 }),
{
    lemma_coord_round_trip(g.spec_width(), gx);
    lemma_coord_round_trip(g.spec_height(), gz);
}

/// Law (one axis): the world point of a cell coordinate floors back to
/// that coordinate.
pub proof fn lemma_coord_round_trip(dim: int, g: int)
    requires
        0 <= g < dim,
    ensures
        world_to_cell_coord(dim, cell_to_world_coord(dim, g)) == g,
{
    let s: int = WORLD_SCALE as int;
    assert(cell_to_world_coord(dim, g) + dim * ((WORLD_SCALE / 2) as int) == g * s);
    assert(g * s / s == g) by (nonlinear_arith)
        requires s == 1000 && 0 <= g;
}

} // verus!
