use gridnav::grid::{BlockedType, Grid, GridPoint, ThreeGrid};

/// Round-trip: for valid cells, the world point floors back to the
/// same cell, including on odd dimensions.
#[test]
fn world_round_trip() {
    let grid = Grid::new(7, 5);
    for gx in 0..7usize {
        for gz in 0..5usize {
            let p = grid.cell_to_point(gx, gz);
            let back = grid.point_to_cell(p.x, p.z).expect("in range");
            assert_eq!(back.gx, gx as i32);
            assert_eq!(back.gz, gz as i32);
        }
    }
}

#[test]
fn point_to_cell_rejects_out_of_range() {
    let grid = Grid::new(10, 10);
    assert!(grid.point_to_cell(10_000_000, 0).is_none());
    assert!(grid.point_to_cell(0, -10_000_000).is_none());
    assert!(grid.point_to_cell(5000, 0).is_none());
    assert!(grid.point_to_cell(4999, -5000).is_some());
}

#[test]
fn world_to_grid_rounds_half_away_from_zero() {
    let r = Grid::world_to_grid(&ThreeGrid { x: 2499, z: -2500 });
    assert_eq!(r.x, 2);
    assert_eq!(r.z, -3);
    let r2 = Grid::world_to_grid(&ThreeGrid { x: 2500, z: -2499 });
    assert_eq!(r2.x, 3);
    assert_eq!(r2.z, -2);
}

#[test]
fn grid_to_world_reports_the_pair() {
    let r = Grid::grid_to_world(&GridPoint { gx: 5, gz: 7 });
    assert_eq!(r.x, 5);
    assert_eq!(r.z, 7);
}

#[test]
fn init_props_report_the_defaults() {
    let props = Grid::get_init_props();
    assert_eq!(props.width, 200);
    assert_eq!(props.height, 200);
    assert_eq!(props.character_occupy_width, 2);
    assert_eq!(props.character_occupy_height, 2);
    assert_eq!(Grid::get_init_point(), (100, 100));
}

fn count_flags(grid: &Grid) -> usize {
    let mut n = 0;
    for gx in 0..grid.width() {
        for gz in 0..grid.height() {
            if grid.get_cell(gx, gz).has_flag {
                n += 1;
            }
        }
    }
    n
}

/// Flag uniqueness: after two sequential successful placements at
/// different free cells, exactly one cell carries the flag.
#[test]
fn flag_unique_after_two_placements() {
    let mut grid = Grid::new(10, 10);
    // cell (2, 3) and cell (7, 8), as world points
    let a = grid.cell_to_point(2, 3);
    let b = grid.cell_to_point(7, 8);
    assert!(grid.place_flag(a.x, a.z));
    assert_eq!(count_flags(&grid), 1);
    assert!(grid.get_cell(2, 3).has_flag);
    assert!(grid.place_flag(b.x, b.z));
    assert_eq!(count_flags(&grid), 1);
    assert!(grid.get_cell(7, 8).has_flag);
    assert!(!grid.get_cell(2, 3).has_flag);
}

#[test]
fn flag_refused_out_of_bounds_and_on_obstacles() {
    let mut grid = Grid::new(10, 10);
    assert!(!grid.place_flag(99_000, 0));
    {
        let c = grid.get_cell_mut(4, 4);
        c.blocked = true;
        c.blocked_type = BlockedType::Pillar;
    }
    let p = grid.cell_to_point(4, 4);
    assert!(!grid.place_flag(p.x, p.z));
    assert_eq!(count_flags(&grid), 0);
    {
        let c = grid.get_cell_mut(5, 5);
        c.occupied = true;
    }
    let q = grid.cell_to_point(5, 5);
    assert!(!grid.place_flag(q.x, q.z));
    assert_eq!(count_flags(&grid), 0);
}

#[test]
fn clear_flag_removes_the_flag_and_nothing_else() {
    let mut grid = Grid::new(10, 10);
    assert_eq!(grid.width(), 10);
    assert_eq!(grid.height(), 10);
    {
        let c = grid.get_cell_mut(3, 3);
        c.occupied = true;
    }
    let p = grid.cell_to_point(2, 3);
    assert!(grid.place_flag(p.x, p.z));
    grid.clear_flag();
    assert_eq!(count_flags(&grid), 0);
    assert!(grid.get_cell(3, 3).occupied);
}

/// The footprint cells of a pillar record, recovered from its world
/// center: the anchor is one cell up and left of the center.
fn pillar_anchor(grid: &Grid, px: i64, pz: i64) -> (usize, usize) {
    let ax = (px + grid.width() as i64 * 500) / 1000 - 1;
    let az = (pz + grid.height() as i64 * 500) / 1000 - 1;
    (ax as usize, az as usize)
}

/// Pillar clearing: a second generation leaves exactly the second
/// call's footprints blocked, with the tags of freed cells cleared.
#[test]
fn pillar_generation_replaces_the_previous_set() {
    let mut grid = Grid::new(20, 20);
    let first = grid.generate_pillars(2);
    assert_eq!(first.len(), 2);
    let second = grid.generate_pillars(3);
    assert_eq!(second.len(), 3);

    let mut covered = vec![vec![false; 20]; 20];
    for p in &second {
        assert_eq!(p.size, 2);
        let (ax, az) = pillar_anchor(&grid, p.x, p.z);
        for dx in 0..2 {
            for dz in 0..2 {
                // footprints never overlap
                assert!(!covered[ax + dx][az + dz]);
                covered[ax + dx][az + dz] = true;
            }
        }
    }
    for gx in 0..20usize {
        for gz in 0..20usize {
            let cell = grid.get_cell(gx, gz);
            if covered[gx][gz] {
                assert!(cell.blocked);
                assert_eq!(cell.blocked_type, BlockedType::Pillar);
            } else {
                assert!(!cell.blocked);
                assert_eq!(cell.blocked_type, BlockedType::Clear);
            }
        }
    }
}

/// On a fully free grid a requested pillar is always placed, and its
/// footprint stands on cells free of rocks and the flag.
#[test]
fn pillar_on_free_grid_always_lands() {
    let mut grid = Grid::new(10, 10);
    let pillars = grid.generate_pillars(1);
    assert_eq!(pillars.len(), 1);
    let (ax, az) = pillar_anchor(&grid, pillars[0].x, pillars[0].z);
    for dx in 0..2 {
        for dz in 0..2 {
            let cell = grid.get_cell(ax + dx, az + dz);
            assert!(cell.blocked);
            assert!(!cell.occupied);
            assert!(!cell.has_flag);
        }
    }
}

#[test]
fn rocks_occupy_their_footprints_and_accumulate() {
    let mut grid = Grid::new(20, 20);
    let first = grid.generate_rocks(2);
    assert_eq!(first.len(), 2);
    let all = grid.generate_rocks(3);
    assert_eq!(all.len(), 5);
    for r in &all {
        let (sx, sy, sz) = r.scale;
        assert_eq!(sy, 1);
        assert!((1..=5).contains(&sx));
        assert!((1..=5).contains(&sz));
        let ax = r.position.0 - (sx - 1) / 2;
        let az = r.position.2 - (sz - 1) / 2;
        for gx in ax..ax + sx {
            for gz in az..az + sz {
                assert!(grid.get_cell(gx as usize, gz as usize).occupied);
            }
        }
    }
}
