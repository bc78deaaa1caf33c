//! The agent: a frame-stepped kinematic controller that consumes the
//! paths the pathfinder returns and exposes a continuously queryable
//! motion state.
//!
//! Positions are world coordinates in ticks (`WORLD_SCALE` ticks per
//! world unit); speeds are ticks per second and time deltas are
//! thousandths of a second, so one step spans
//! `speed * delta / WORLD_SCALE` ticks.

use vstd::prelude::*;
use vstd::arithmetic::div_mod::{lemma_fundamental_div_mod, lemma_mod_bound};
use vstd::string::StringExecFns;
use crate::astar::{astar, valid_cell_path, is_world_path, world_point_of, can_step};
use crate::grid::{Grid, GridPoint, GridResultPoint, ThreeGrid, cell_to_world_coord,
    trunc_world_units};
use crate::{MAX_WORLD, WORLD_SCALE};

verus! {

/// Largest speed the controller accepts, in ticks per second
/// (a thousand world units per second).
pub const MAX_SPEED: i64 = 1_000_000;

/// Largest time delta the controller accepts, in thousandths of a
/// second (a thousand seconds).
pub const MAX_DELTA: i64 = 1_000_000;

/// The agent's display action, caller-set and independent of the
/// motion state machine.
#[derive(Debug, Clone, Copy, PartialEq, Eq, Structural)]
pub enum RobotAction {
    Idle,
    Walking,
    Running,
    Dance,
    Death,
    Sitting,
    Standing,
}

/// The agent's display emote.
#[derive(Debug, Clone, Copy, PartialEq, Eq, Structural)]
pub enum RobotEmote {
    Neutral,
    Jump,
    Yes,
    No,
    Wave,
    Punch,
    ThumbsUp,
}

/// A world position, in coordinate ticks.
#[derive(Debug, Clone, Copy, PartialEq, Eq, Structural)]
pub struct Vec3 {
    pub x: i64,
    pub y: i64,
    pub z: i64,
}

/// The agent's facing, kept as the last movement direction vector in
/// the ground plane; the facing angle is the angle of this vector,
/// measured from the world's forward axis (positive `z`) toward
/// positive `x`.  The initial value faces forward.
#[derive(Debug, Clone, Copy, PartialEq, Eq, Structural)]
pub struct Heading {
    pub x: i64,
    pub z: i64,
}

/// The agent's reportable motion state.
#[derive(Debug, Clone, Copy, PartialEq, Eq, Structural)]
pub struct RobotState {
    pub position: Vec3,
    pub is_moving: bool,
    pub rotation_y: Heading,
}

/// A position within the world the controller accepts.
pub open spec fn in_world(v: Vec3) -> bool {
    &&& -MAX_WORLD <= v.x <= MAX_WORLD
    &&& -MAX_WORLD <= v.y <= MAX_WORLD
    &&& -MAX_WORLD <= v.z <= MAX_WORLD
}

/// The waypoint of a cell: its world point at ground level.
pub open spec fn vec3_of(g: Grid, p: GridPoint) -> Vec3 {
    Vec3 {
        x: cell_to_world_coord(g.spec_width(), p.gx as int) as i64,
        y: 0,
        z: cell_to_world_coord(g.spec_height(), p.gz as int) as i64,
    }
}

/// `world` is `cells`, converted cell by cell to ground-level waypoints.
pub open spec fn vec3_path_of(g: Grid, world: Seq<Vec3>, cells: Seq<GridPoint>) -> bool {
    &&& world.len() == cells.len()
    &&& forall|i: int| 0 <= i < cells.len()
        ==> world[i] == vec3_of(g, #[trigger] cells[i])
}

/// The display action a caller-supplied tag names; anything
/// unrecognized resolves to the neutral action.
pub open spec fn action_of(s: Seq<char>) -> RobotAction {
    if s == "walking"@ {
        RobotAction::Walking
    } else if s == "running"@ {
        RobotAction::Running
    } else if s == "dance"@ {
        RobotAction::Dance
    } else if s == "death"@ {
        RobotAction::Death
    } else if s == "idle"@ {
        RobotAction::Idle
    } else if s == "sitting"@ {
        RobotAction::Sitting
    } else if s == "standing"@ {
        RobotAction::Standing
    } else {
        RobotAction::Idle
    }
}

/// The display emote a caller-supplied tag names; anything
/// unrecognized resolves to the neutral emote.
pub open spec fn emote_of(s: Seq<char>) -> RobotEmote {
    if s == "jump"@ {
        RobotEmote::Jump
    } else if s == "yes"@ {
        RobotEmote::Yes
    } else if s == "no"@ {
        RobotEmote::No
    } else if s == "wave"@ {
        RobotEmote::Wave
    } else if s == "punch"@ {
        RobotEmote::Punch
    } else if s == "thumbsup"@ {
        RobotEmote::ThumbsUp
    } else {
        RobotEmote::Neutral
    }
}

/// `r` is the floor of the square root of `dx*dx + dz*dz`.
pub open spec fn is_dist(dx: int, dz: int, r: int) -> bool {
    &&& 0 <= r
    &&& r * r <= dx * dx + dz * dz
    &&& dx * dx + dz * dz < (r + 1) * (r + 1)
}

/// The per-axis displacement of one tick of movement: the axis delta
/// `d` scaled by `step / dist` and truncated toward zero.
pub open spec fn scaled_step(d: int, step: int, dist: int) -> int {
    if d >= 0 {
        d * step / dist
    } else {
        -((-d) * step / dist)
    }
}

/// Floor of the square root.
fn isqrt(n: u64) -> (r: u64)
    ensures
        (r as int) * (r as int) <= n,
        n < (r + 1) * (r + 1),
        r < 4_294_967_296,
{
    let mut lo: u64 = 0;
    let mut hi: u64 = 4_294_967_296;
    proof {
        assert((hi as int) * (hi as int) > u64::MAX) by (nonlinear_arith)
            requires hi == 4_294_967_296u64;
    }
    while lo + 1 < hi
        invariant
            lo < hi,
            hi <= 4_294_967_296,
            (lo as int) * (lo as int) <= n,
            (hi as int) * (hi as int) > n,
        decreases hi - lo,
    {
        let mid: u64 = lo + (hi - lo) / 2;
        proof {
            assert((mid as int) * (mid as int) <= u64::MAX) by (nonlinear_arith)
                requires mid < 4_294_967_296u64;
        }
        if mid * mid <= n {
            lo = mid;
        } else {
            hi = mid;
        }
    }
    lo
}

/// Scaling a non-negative amount by `step / dist` with `step < dist`
/// never enlarges it.
proof fn lemma_scaled_le(a: int, s: int, dst: int)
    requires
        0 <= a,
        0 <= s < dst,
    ensures
        0 <= a * s / dst <= a,
{
    lemma_fundamental_div_mod(a * s, dst);
    lemma_mod_bound(a * s, dst);
    let q = a * s / dst;
    let r = a * s % dst;
    assert(0 <= q && q <= a) by (nonlinear_arith)
        requires
            dst * q + r == a * s && 0 <= r && r < dst && 0 <= a && 0 <= s && s < dst;
}

/// The agent: current and target world positions, a speed, a facing,
/// display action and emote, and the cached path with a cursor.
pub struct Robot {
    current: Vec3,
    target: Vec3,
    is_moving: bool,
    speed: i64,
    rotation_y: Heading,
    action: RobotAction,
    emote: RobotEmote,
    path: Vec<Vec3>,
    path_index: usize,
}

impl Robot {
    /// The agent's world position.
    pub closed spec fn spec_current(&self) -> Vec3 {
        self.current
    }

    /// The immediate sub-target the agent moves toward.
    pub closed spec fn spec_target(&self) -> Vec3 {
        self.target
    }

    /// Whether the agent is consuming a path.
    pub closed spec fn spec_is_moving(&self) -> bool {
        self.is_moving
    }

    /// Ticks per second the agent covers.
    pub closed spec fn spec_speed(&self) -> int {
        self.speed as int
    }

    /// The agent's facing.
    pub closed spec fn spec_rotation(&self) -> Heading {
        self.rotation_y
    }

    /// The display action.
    pub closed spec fn spec_action(&self) -> RobotAction {
        self.action
    }

    /// The display emote.
    pub closed spec fn spec_emote(&self) -> RobotEmote {
        self.emote
    }

    /// The cached path.
    pub closed spec fn spec_path(&self) -> Seq<Vec3> {
        self.path@
    }

    /// The cursor into the cached path.
    pub closed spec fn spec_path_index(&self) -> int {
        self.path_index as int
    }

    /// The controller's internal invariant: positions stay inside the
    /// world, the speed stays inside its range, and while moving the
    /// cursor points at a real waypoint.
    pub open spec fn wf(&self) -> bool {
        &&& in_world(self.spec_current())
        &&& in_world(self.spec_target())
        &&& 0 <= self.spec_speed() <= MAX_SPEED
        &&& forall|i: int| 0 <= i < self.spec_path().len()
            ==> in_world(#[trigger] self.spec_path()[i])
        &&& self.spec_path_index() <= self.spec_path().len()
        &&& self.spec_is_moving() ==> self.spec_path_index() < self.spec_path().len()
    }

    /// A fresh agent standing still at `(start_x, start_z)`, facing
    /// forward, with an empty path.
    pub fn new(start_x: i64, start_z: i64, speed: i64) -> (robot: Robot)
        requires
            -MAX_WORLD <= start_x <= MAX_WORLD,
            -MAX_WORLD <= start_z <= MAX_WORLD,
            0 <= speed <= MAX_SPEED,
        ensures
            robot.wf(),
            robot.spec_current() == (Vec3 { x: start_x, y: 0, z: start_z }),
            robot.spec_target() == (Vec3 { x: start_x, y: 0, z: start_z }),
            !robot.spec_is_moving(),
            robot.spec_speed() == speed,
            robot.spec_rotation() == (Heading { x: 0, z: WORLD_SCALE as i64 }),
            robot.spec_action() == RobotAction::Idle,
            robot.spec_emote() == RobotEmote::Neutral,
            robot.spec_path() == Seq::<Vec3>::empty(),
            robot.spec_path_index() == 0,
    {
        Robot {
            current: Vec3 { x: start_x, y: 0, z: start_z },
            target: Vec3 { x: start_x, y: 0, z: start_z },
            is_moving: false,
            rotation_y: Heading { x: 0, z: WORLD_SCALE },
            action: RobotAction::Idle,
            emote: RobotEmote::Neutral,
            path: Vec::new(),
            speed,
            path_index: 0,
        }
    }

    /// Ask the pathfinder for a route from the current position to
    /// `(x, 0, z)`.  On success the cached path is replaced, the cursor
    /// rewinds to the first waypoint, that waypoint becomes the
    /// sub-target and the agent starts moving; on failure the motion
    /// state is left untouched.  Returns the cached path either way.
    pub fn set_target(&mut self, grid: &Grid, x: i64, z: i64) -> (r: Vec<Vec3>)
        requires
            old(self).wf(),
            grid.wf(),
            -MAX_WORLD <= x <= MAX_WORLD,
            -MAX_WORLD <= z <= MAX_WORLD,
        ensures
            final(self).wf(),
            final(self).spec_current() == old(self).spec_current(),
            final(self).spec_speed() == old(self).spec_speed(),
            final(self).spec_rotation() == old(self).spec_rotation(),
            final(self).spec_action() == old(self).spec_action(),
            final(self).spec_emote() == old(self).spec_emote(),
            r@ == final(self).spec_path(),
            ({
                let sres = grid.spec_point_to_cell(
                    old(self).spec_current().x as int, old(self).spec_current().z as int);
                let tres = grid.spec_point_to_cell(x as int, z as int);
                ||| {
                    &&& sres is Some
                    &&& tres is Some
                    &&& !grid.cell((tres->0).gx as int, (tres->0).gz as int).blocked
                    &&& exists|cells: Seq<GridPoint>|
                        valid_cell_path(*grid, cells, sres->0, tres->0)
                            && vec3_path_of(*grid, final(self).spec_path(), cells)
                    &&& final(self).spec_path().len() >= 1
                    &&& final(self).spec_path_index() == 0
                    &&& final(self).spec_target() == final(self).spec_path()[0]
                    &&& final(self).spec_is_moving()
                }
                ||| {
                    &&& final(self).spec_path() == old(self).spec_path()
                    &&& final(self).spec_path_index() == old(self).spec_path_index()
                    &&& final(self).spec_target() == old(self).spec_target()
                    &&& final(self).spec_is_moving() == old(self).spec_is_moving()
                    &&& {
                        ||| sres is None
                        ||| tres is None
                        ||| grid.cell((tres->0).gx as int, (tres->0).gz as int).blocked
                        ||| forall|cells: Seq<GridPoint>|
                            !valid_cell_path(*grid, cells, sres->0, tres->0)
                    }
                }
            }),
    {
        let start_v: Vec3 = self.current;
        let goal_v: Vec3 = Vec3 { x, y: 0, z };
        let found: Option<Vec<ThreeGrid>> = astar(grid, start_v, goal_v);
        match found {
            Option::Some(path3) => {
                let ghost cells: Seq<GridPoint> = choose|cells: Seq<GridPoint>|
                    valid_cell_path(*grid,
                        cells,
                        grid.spec_point_to_cell(
                            start_v.x as int, start_v.z as int)->0,
                        grid.spec_point_to_cell(goal_v.x as int, goal_v.z as int)->0)
                        && is_world_path(*grid, path3@, cells);
                let mut newpath: Vec<Vec3> = Vec::new();
                let mut i: usize = 0;
                while i < path3.len()
                    invariant
                        i <= path3@.len(),
                        newpath@.len() == i,
                        forall|j: int| 0 <= j < i
                            ==> #[trigger] newpath@[j] == (Vec3 {
                                x: path3@[j].x,
                                y: 0,
                                z: path3@[j].z,
                            }),
                    decreases path3@.len() - i,
                {
                    let p: ThreeGrid = path3[i];
                    newpath.push(Vec3 { x: p.x, y: 0, z: p.z });
                    i = i + 1;
                }
                proof {
                    assert forall|j: int| 0 <= j < cells.len()
                        implies grid.in_bounds((#[trigger] cells[j]).gx as int,
                            cells[j].gz as int)
                    by {
                        if j > 0 {
                            assert(can_step(*grid, cells[j - 1].gx as int,
                                cells[j - 1].gz as int, cells[j].gx as int,
                                cells[j].gz as int));
                        }
                    }
                    assert forall|j: int| 0 <= j < newpath@.len()
                        implies #[trigger] newpath@[j] == vec3_of(*grid, cells[j])
                            && in_world(newpath@[j])
                    by {
                        assert(path3@[j] == world_point_of(*grid, cells[j]));
                    }
                    assert(vec3_path_of(*grid, newpath@, cells));
                }
                self.path = newpath;
                self.path_index = 0;
                if self.path.len() > 0 {
                    self.target = self.path[0];
                    self.is_moving = true;
                }
            },
            Option::None => {},
        }
        let r: Vec<Vec3> = self.path.clone();
        proof {
            assert forall|j: int| 0 <= j < r@.len()
                implies r@[j] == self.spec_path()[j]
            by {
            }
            assert(r@ =~= self.spec_path());
        }
        r
    }

    /// Drop the cached path and stop moving; the sub-target keeps its
    /// last value.
    pub fn clear_path(&mut self)
        requires
            old(self).wf(),
        ensures
            final(self).wf(),
            final(self).spec_path() == Seq::<Vec3>::empty(),
            final(self).spec_path_index() == 0,
            !final(self).spec_is_moving(),
            final(self).spec_current() == old(self).spec_current(),
            final(self).spec_target() == old(self).spec_target(),
            final(self).spec_speed() == old(self).spec_speed(),
            final(self).spec_rotation() == old(self).spec_rotation(),
            final(self).spec_action() == old(self).spec_action(),
            final(self).spec_emote() == old(self).spec_emote(),
    {
        self.path.clear();
        self.path_index = 0;
        self.is_moving = false;
    }

    /// Advance one frame of `delta` thousandths of a second.
    ///
    /// Standing still, nothing changes.  Otherwise, when the remaining
    /// distance to the sub-target fits into this frame's step, the
    /// agent snaps exactly onto the sub-target and the cursor advances:
    /// either the next waypoint becomes the sub-target or, with the
    /// path exhausted, the agent stops.  Otherwise the agent turns to
    /// face the sub-target and covers exactly one step toward it.
    pub fn update(&mut self, delta: i64)
        requires
            old(self).wf(),
            0 <= delta <= MAX_DELTA,
        ensures
            final(self).wf(),
            final(self).spec_speed() == old(self).spec_speed(),
            final(self).spec_action() == old(self).spec_action(),
            final(self).spec_emote() == old(self).spec_emote(),
            final(self).spec_path() == old(self).spec_path(),
            !old(self).spec_is_moving() ==> {
                &&& final(self).spec_current() == old(self).spec_current()
                &&& final(self).spec_target() == old(self).spec_target()
                &&& final(self).spec_rotation() == old(self).spec_rotation()
                &&& final(self).spec_is_moving() == old(self).spec_is_moving()
                &&& final(self).spec_path_index() == old(self).spec_path_index()
            },
            old(self).spec_is_moving() ==> ({
                let dx = old(self).spec_target().x - old(self).spec_current().x;
                let dz = old(self).spec_target().z - old(self).spec_current().z;
                let step = old(self).spec_speed() * delta / (WORLD_SCALE as int);
                exists|dist: int| #[trigger] is_dist(dx, dz, dist) && {
                    if dist <= step {
                        &&& final(self).spec_current() == old(self).spec_target()
                        &&& final(self).spec_path_index()
                            == old(self).spec_path_index() + 1
                        &&& final(self).spec_rotation() == old(self).spec_rotation()
                        &&& if old(self).spec_path_index() + 1
                                >= old(self).spec_path().len() {
                            &&& !final(self).spec_is_moving()
                            &&& final(self).spec_target() == old(self).spec_target()
                        } else {
                            &&& final(self).spec_is_moving()
                            &&& final(self).spec_target()
                                == old(self).spec_path()[old(self).spec_path_index() + 1]
                        }
                    } else {
                        &&& final(self).spec_current() == (Vec3 {
                            x: (old(self).spec_current().x
                                + scaled_step(dx, step, dist)) as i64,
                            y: old(self).spec_current().y,
                            z: (old(self).spec_current().z
                                + scaled_step(dz, step, dist)) as i64,
                        })
                        &&& final(self).spec_rotation()
                            == (Heading { x: dx as i64, z: dz as i64 })
                        &&& final(self).spec_target() == old(self).spec_target()
                        &&& final(self).spec_is_moving() == old(self).spec_is_moving()
                        &&& final(self).spec_path_index() == old(self).spec_path_index()
                    }
                }
            }),
    {
        if !self.is_moving {
            return;
        }

        let dx: i64 = self.target.x - self.current.x;
        let dz: i64 = self.target.z - self.current.z;
        proof {
            assert(dx * dx + dz * dz <= 8_000_000_000_000_000_000
                && 0 <= dx * dx && 0 <= dz * dz) by (nonlinear_arith)
                requires
                    -2_000_000_000 <= dx && dx <= 2_000_000_000
                        && -2_000_000_000 <= dz && dz <= 2_000_000_000;
        }
        let dist2: u64 = (dx * dx + dz * dz) as u64;
        let dist: u64 = isqrt(dist2);
        proof {
            assert((self.speed as u64) * (delta as u64) <= 1_000_000_000_000u64)
                by (nonlinear_arith)
                requires
                    (self.speed as u64) <= 1_000_000u64 && (delta as u64) <= 1_000_000u64;
        }
        let prod: u64 = (self.speed as u64) * (delta as u64);
        let max_step: u64 = prod / (WORLD_SCALE as u64);
        proof {
            lemma_fundamental_div_mod(prod as int, WORLD_SCALE as int);
            lemma_mod_bound(prod as int, WORLD_SCALE as int);
            assert(max_step <= 1_000_000_000u64) by (nonlinear_arith)
                requires
                    (WORLD_SCALE as int) * (max_step as int)
                        + ((prod as int) % (WORLD_SCALE as int)) == prod as int
                        && prod <= 1_000_000_000_000u64
                        && 0 <= (prod as int) % (WORLD_SCALE as int)
                        && WORLD_SCALE == 1000;
            assert(is_dist(dx as int, dz as int, dist as int));
        }

        if dist <= max_step {
            self.current = self.target;
            let plen: usize = self.path.len();
            self.path_index = self.path_index + 1;
            if self.path_index >= plen {
                self.is_moving = false;
                return;
            }
            self.target = self.path[self.path_index];
            return;
        }

        let adx: u64 = if dx >= 0 { dx as u64 } else { (-dx) as u64 };
        let adz: u64 = if dz >= 0 { dz as u64 } else { (-dz) as u64 };
        proof {
            assert(adx * max_step <= 4_000_000_000_000_000_000
                && adz * max_step <= 4_000_000_000_000_000_000) by (nonlinear_arith)
                requires
                    adx <= 2_000_000_000u64 && adz <= 2_000_000_000u64
                        && max_step <= 1_000_000_000u64;
            lemma_scaled_le(adx as int, max_step as int, dist as int);
            lemma_scaled_le(adz as int, max_step as int, dist as int);
        }
        let mx: u64 = adx * max_step / dist;
        let mz: u64 = adz * max_step / dist;

        self.rotation_y = Heading { x: dx, z: dz };
        let new_x: i64 = if dx >= 0 {
            self.current.x + mx as i64
        } else {
            self.current.x - mx as i64
        };
        let new_z: i64 = if dz >= 0 {
            self.current.z + mz as i64
        } else {
            self.current.z - mz as i64
        };
        self.current = Vec3 { x: new_x, y: self.current.y, z: new_z };
    }

    /// Resolve a caller-supplied action tag; `running` and `walking`
    /// also overwrite the speed with their fixed paces.
    pub fn set_action(&mut self, action: String)
        requires
            old(self).wf(),
        ensures
            final(self).wf(),
            final(self).spec_action() == action_of(action@),
            final(self).spec_speed() == (if action_of(action@) == RobotAction::Running {
                5000int
            } else if action_of(action@) == RobotAction::Walking {
                2500int
            } else {
                old(self).spec_speed()
            }),
            final(self).spec_current() == old(self).spec_current(),
            final(self).spec_target() == old(self).spec_target(),
            final(self).spec_rotation() == old(self).spec_rotation(),
            final(self).spec_is_moving() == old(self).spec_is_moving(),
            final(self).spec_emote() == old(self).spec_emote(),
            final(self).spec_path() == old(self).spec_path(),
            final(self).spec_path_index() == old(self).spec_path_index(),
    {
        self.action = if action == String::from_str("walking") {
            RobotAction::Walking
        } else if action == String::from_str("running") {
            RobotAction::Running
        } else if action == String::from_str("dance") {
            RobotAction::Dance
        } else if action == String::from_str("death") {
            RobotAction::Death
        } else if action == String::from_str("idle") {
            RobotAction::Idle
        } else if action == String::from_str("sitting") {
            RobotAction::Sitting
        } else if action == String::from_str("standing") {
            RobotAction::Standing
        } else {
            RobotAction::Idle
        };

        if self.action == RobotAction::Running {
            self.set_speed(5000);
        }

        if self.action == RobotAction::Walking {
            self.set_speed(2500);
        }
    }

    /// Resolve a caller-supplied emote tag.
    pub fn set_emote(&mut self, emote: String)
        requires
            old(self).wf(),
        ensures
            final(self).wf(),
            final(self).spec_emote() == emote_of(emote@),
            final(self).spec_current() == old(self).spec_current(),
            final(self).spec_target() == old(self).spec_target(),
            final(self).spec_rotation() == old(self).spec_rotation(),
            final(self).spec_is_moving() == old(self).spec_is_moving(),
            final(self).spec_speed() == old(self).spec_speed(),
            final(self).spec_action() == old(self).spec_action(),
            final(self).spec_path() == old(self).spec_path(),
            final(self).spec_path_index() == old(self).spec_path_index(),
    {
        self.emote = if emote == String::from_str("jump") {
            RobotEmote::Jump
        } else if emote == String::from_str("yes") {
            RobotEmote::Yes
        } else if emote == String::from_str("no") {
            RobotEmote::No
        } else if emote == String::from_str("wave") {
            RobotEmote::Wave
        } else if emote == String::from_str("punch") {
            RobotEmote::Punch
        } else if emote == String::from_str("thumbsup") {
            RobotEmote::ThumbsUp
        } else {
            RobotEmote::Neutral
        };
    }

    /// Overwrite the speed.
    pub fn set_speed(&mut self, speed: i64)
        requires
            old(self).wf(),
            0 <= speed <= MAX_SPEED,
        ensures
            final(self).wf(),
            final(self).spec_speed() == speed,
            final(self).spec_current() == old(self).spec_current(),
            final(self).spec_target() == old(self).spec_target(),
            final(self).spec_rotation() == old(self).spec_rotation(),
            final(self).spec_is_moving() == old(self).spec_is_moving(),
            final(self).spec_action() == old(self).spec_action(),
            final(self).spec_emote() == old(self).spec_emote(),
            final(self).spec_path() == old(self).spec_path(),
            final(self).spec_path_index() == old(self).spec_path_index(),
    {
        self.speed = speed;
    }

    /// The current world position.
    pub fn get_current(&self) -> (r: Vec3)
        ensures
            r == self.spec_current(),
    {
        self.current
    }

    /// The current position truncated to whole world units, reported
    /// as a coordinate pair.
    pub fn get_point(&self) -> (r: GridResultPoint)
        requires
            self.wf(),
        ensures
            r.x == trunc_world_units(self.spec_current().x as int),
            r.z == trunc_world_units(self.spec_current().z as int),
    {
        let ux: i64 = trunc_units(self.current.x);
        let uz: i64 = trunc_units(self.current.z);
        Grid::grid_to_world(&GridPoint { gx: ux as i32, gz: uz as i32 })
    }

    /// The immediate sub-target.
    pub fn get_target(&self) -> (r: Vec3)
        ensures
            r == self.spec_target(),
    {
        self.target
    }

    /// Whether the agent is consuming a path.
    pub fn get_moving(&self) -> (r: bool)
        ensures
            r == self.spec_is_moving(),
    {
        self.is_moving
    }

    /// The agent's facing.
    pub fn get_rotation_y(&self) -> (r: Heading)
        ensures
            r == self.spec_rotation(),
    {
        self.rotation_y
    }
}

/// Truncate a world coordinate in ticks toward zero to whole units.
fn trunc_units(w: i64) -> (r: i64)
    requires
        -MAX_WORLD <= w <= MAX_WORLD,
    ensures
        r == trunc_world_units(w as int),
        -MAX_WORLD <= r <= MAX_WORLD,
{
    if w >= 0 {
        ((w as u64) / (WORLD_SCALE as u64)) as i64
    } else {
        -((((-w) as u64) / (WORLD_SCALE as u64)) as i64)
    }
}

} // verus!
