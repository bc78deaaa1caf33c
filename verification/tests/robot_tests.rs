use gridnav::grid::Grid;
use gridnav::robot::{Heading, Robot};

/// Motion convergence: speed 2.0 units per second, a straight-line
/// target 10 units away, repeated half-second frames.  The first frame
/// snaps onto the path's start waypoint (the agent's own cell), then
/// each frame covers exactly one waypoint, so the agent reaches the
/// target on the eleventh frame and `is_moving` drops exactly there,
/// never earlier.
#[test]
fn straight_line_motion_converges() {
    let grid = Grid::new(200, 200);
    let mut robot = Robot::new(0, 0, 2000);
    let path = robot.set_target(&grid, 10_000, 0);
    assert_eq!(path.len(), 11);
    assert!(robot.get_moving());

    for _ in 0..10 {
        assert!(robot.get_moving());
        robot.update(500);
    }
    // ten frames in: one waypoint short of the target, still moving
    assert!(robot.get_moving());
    assert_eq!(robot.get_current().x, 9_000);
    assert_eq!(robot.get_current().z, 0);

    robot.update(500);
    assert!(!robot.get_moving());
    assert_eq!(robot.get_current().x, 10_000);
    assert_eq!(robot.get_current().z, 0);
}

/// Idempotent idle update: while not moving, a frame changes nothing.
#[test]
fn idle_update_changes_nothing() {
    let mut robot = Robot::new(3_000, -2_000, 2000);
    let before_current = robot.get_current();
    let before_target = robot.get_target();
    let before_rotation = robot.get_rotation_y();
    robot.update(500);
    robot.update(1_000);
    assert_eq!(robot.get_current(), before_current);
    assert_eq!(robot.get_target(), before_target);
    assert_eq!(robot.get_rotation_y(), before_rotation);
    assert!(!robot.get_moving());
}

/// A partial frame moves the agent by exactly `speed * delta` along
/// the direction to the sub-target, and turns it to face that way.
#[test]
fn partial_frame_moves_one_step() {
    let grid = Grid::new(200, 200);
    let mut robot = Robot::new(0, 0, 2000);
    robot.set_target(&grid, 10_000, 0);
    robot.update(500); // snaps onto the start waypoint
    robot.update(100); // 2.0 * 0.1 = 0.2 units toward the next one
    assert_eq!(robot.get_current().x, 200);
    assert_eq!(robot.get_current().z, 0);
    assert_eq!(robot.get_rotation_y(), Heading { x: 1000, z: 0 });
    assert!(robot.get_moving());
}

/// A failed target request leaves the motion state untouched.
#[test]
fn unreachable_target_keeps_motion_state() {
    let grid = Grid::new(200, 200);
    let mut robot = Robot::new(0, 0, 2000);
    let path = robot.set_target(&grid, 9_999_000, 0);
    assert!(path.is_empty());
    assert!(!robot.get_moving());
    assert_eq!(robot.get_current().x, 0);
    assert_eq!(robot.get_target().x, 0);
}

/// `running` and `walking` overwrite the speed with fixed paces; the
/// new pace shows in the per-frame displacement.
#[test]
fn running_action_sets_the_running_pace() {
    let grid = Grid::new(200, 200);
    let mut robot = Robot::new(0, 0, 2000);
    robot.set_action(String::from("running"));
    robot.set_target(&grid, 10_000, 0);
    robot.update(500); // snaps onto the start waypoint
    robot.update(100); // 5.0 * 0.1 = 0.5 units
    assert_eq!(robot.get_current().x, 500);

    let mut walker = Robot::new(0, 0, 2000);
    walker.set_action(String::from("walking"));
    walker.set_target(&grid, 10_000, 0);
    walker.update(500);
    walker.update(100); // 2.5 * 0.1 = 0.25 units
    assert_eq!(walker.get_current().x, 250);

    let mut idler = Robot::new(0, 0, 2000);
    idler.set_action(String::from("unknown tag"));
    idler.set_emote(String::from("wave"));
    idler.set_emote(String::from("unknown tag"));
    idler.set_target(&grid, 10_000, 0);
    idler.update(500);
    idler.update(100); // the default 2.0 * 0.1 = 0.2 units
    assert_eq!(idler.get_current().x, 200);
}

/// A caller-set speed shows in the per-frame displacement.
#[test]
fn set_speed_changes_the_pace() {
    let grid = Grid::new(200, 200);
    let mut robot = Robot::new(0, 0, 2000);
    robot.set_speed(4000);
    robot.set_target(&grid, 10_000, 0);
    robot.update(500); // snaps onto the start waypoint
    robot.update(100); // 4.0 * 0.1 = 0.4 units
    assert_eq!(robot.get_current().x, 400);
}

/// Clearing the path stops the agent.
#[test]
fn clear_path_stops_motion() {
    let grid = Grid::new(200, 200);
    let mut robot = Robot::new(0, 0, 2000);
    robot.set_target(&grid, 5_000, 5_000);
    assert!(robot.get_moving());
    robot.clear_path();
    assert!(!robot.get_moving());
    let path = robot.set_target(&grid, 9_999_000, 0);
    assert!(path.is_empty());
}

/// The reported coordinate pair truncates the position to whole units.
#[test]
fn reported_point_truncates_to_units() {
    let robot = Robot::new(9_700, -2_300, 2000);
    let point = robot.get_point();
    assert_eq!(point.x, 9);
    assert_eq!(point.z, -2);
}

/// A fresh agent faces forward and stands at its start.
#[test]
fn fresh_agent_state() {
    let robot = Robot::new(1_000, 2_000, 2000);
    assert_eq!(robot.get_current().x, 1_000);
    assert_eq!(robot.get_current().z, 2_000);
    assert_eq!(robot.get_target().x, 1_000);
    assert!(!robot.get_moving());
    assert_eq!(robot.get_rotation_y(), Heading { x: 0, z: 1000 });
}
