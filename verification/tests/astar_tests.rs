use gridnav::astar::astar;
use gridnav::grid::{BlockedType, Grid, ThreeGrid};
use gridnav::robot::Vec3;

fn at(x: i64, z: i64) -> Vec3 {
    Vec3 { x, y: 0, z }
}

/// Steps of a returned path, as (orthogonal, diagonal) counts.
fn step_counts(path: &[ThreeGrid]) -> (u32, u32) {
    let mut straight = 0;
    let mut diagonal = 0;
    for pair in path.windows(2) {
        let dx = (pair[1].x - pair[0].x) / 1000;
        let dz = (pair[1].z - pair[0].z) / 1000;
        assert!(dx.abs() <= 1 && dz.abs() <= 1 && (dx != 0 || dz != 0));
        if dx != 0 && dz != 0 {
            diagonal += 1;
        } else {
            straight += 1;
        }
    }
    (straight, diagonal)
}

/// Optimal cost on an open grid: from cell (0,0) to cell (3,4) the
/// path must lean on diagonal steps (cost 1 + 3*sqrt(2), about 5.24)
/// instead of seven orthogonal ones.
#[test]
fn open_grid_path_uses_diagonals() {
    let grid = Grid::new(10, 10);
    let start = grid.cell_to_point(0, 0);
    let goal = grid.cell_to_point(3, 4);
    let path = astar(&grid, at(start.x, start.z), at(goal.x, goal.z)).expect("a path");
    assert_eq!(path[0].x, start.x);
    assert_eq!(path[0].z, start.z);
    assert_eq!(path[path.len() - 1].x, goal.x);
    assert_eq!(path[path.len() - 1].z, goal.z);
    let (straight, diagonal) = step_counts(&path);
    assert_eq!(diagonal, 3);
    assert_eq!(straight, 1);
    assert_eq!(path.len(), 5);
}

fn block(grid: &mut Grid, gx: usize, gz: usize) {
    let c = grid.get_cell_mut(gx, gz);
    c.blocked = true;
    c.blocked_type = BlockedType::Pillar;
}

/// No corner-cutting: with both cells orthogonal to the diagonal
/// blocked, the diagonal move is refused even though the diagonal
/// cell itself is free — here that seals the start in completely.
#[test]
fn corner_cut_is_refused() {
    let mut grid = Grid::new(10, 10);
    block(&mut grid, 1, 0);
    block(&mut grid, 0, 1);
    let start = grid.cell_to_point(0, 0);
    let goal = grid.cell_to_point(1, 1);
    assert!(astar(&grid, at(start.x, start.z), at(goal.x, goal.z)).is_none());
}

/// A free corner still allows the diagonal.
#[test]
fn free_corner_allows_the_diagonal() {
    let grid = Grid::new(10, 10);
    let start = grid.cell_to_point(0, 0);
    let goal = grid.cell_to_point(1, 1);
    let path = astar(&grid, at(start.x, start.z), at(goal.x, goal.z)).expect("a path");
    assert_eq!(path.len(), 2);
    let (straight, diagonal) = step_counts(&path);
    assert_eq!((straight, diagonal), (0, 1));
}

/// Blocked goal: a path request onto a blocked cell returns no path.
#[test]
fn blocked_goal_returns_no_path() {
    let mut grid = Grid::new(10, 10);
    block(&mut grid, 6, 6);
    let start = grid.cell_to_point(0, 0);
    let goal = grid.cell_to_point(6, 6);
    assert!(astar(&grid, at(start.x, start.z), at(goal.x, goal.z)).is_none());
}

#[test]
fn out_of_bounds_endpoints_return_no_path() {
    let grid = Grid::new(10, 10);
    let inside = grid.cell_to_point(2, 2);
    assert!(astar(&grid, at(99_000, 0), at(inside.x, inside.z)).is_none());
    assert!(astar(&grid, at(inside.x, inside.z), at(99_000, 0)).is_none());
}

/// A path around a wall: the wall splits the route, the search walks
/// along it, and every step stays legal.
#[test]
fn path_detours_around_a_wall() {
    let mut grid = Grid::new(10, 10);
    for gz in 0..9usize {
        block(&mut grid, 5, gz);
    }
    let start = grid.cell_to_point(2, 2);
    let goal = grid.cell_to_point(8, 2);
    let path = astar(&grid, at(start.x, start.z), at(goal.x, goal.z)).expect("a path");
    for p in &path {
        let cell = grid.point_to_cell(p.x, p.z).expect("waypoint on the grid");
        assert!(!grid.get_cell(cell.gx as usize, cell.gz as usize).blocked);
    }
    // no waypoint repeats
    for i in 0..path.len() {
        for j in i + 1..path.len() {
            assert!(path[i].x != path[j].x || path[i].z != path[j].z);
        }
    }
    let (straight, diagonal) = step_counts(&path);
    assert!(straight + diagonal >= 10);
}

/// A fully walled-off goal region is unreachable.
#[test]
fn enclosed_goal_returns_no_path() {
    let mut grid = Grid::new(10, 10);
    for g in 0..10usize {
        block(&mut grid, 5, g);
    }
    let start = grid.cell_to_point(2, 2);
    let goal = grid.cell_to_point(8, 2);
    assert!(astar(&grid, at(start.x, start.z), at(goal.x, goal.z)).is_none());
}

/// Start and goal in the same cell: the path is that single cell.
#[test]
fn same_cell_path_is_a_single_waypoint() {
    let grid = Grid::new(10, 10);
    let start = grid.cell_to_point(4, 4);
    let path = astar(&grid, at(start.x, start.z), at(start.x + 400, start.z + 400))
        .expect("a path");
    assert_eq!(path.len(), 1);
    assert_eq!(path[0].x, start.x);
    assert_eq!(path[0].z, start.z);
}
