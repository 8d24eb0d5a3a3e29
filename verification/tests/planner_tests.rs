use fivee_core::grid::{Grid, GridCell};
use fivee_core::planner::{get_path, get_reachable_cells, ReachableMap};
use fivee_core::pos::GridPos;

fn open_grid(size: usize) -> Grid {
    let mut g = Grid::new(size);
    for x in 0..size as i32 {
        for y in 0..size as i32 {
            g.set(
                GridPos::new(x, y),
                GridCell { blocked: false, walkable: true, entity: None },
            );
        }
    }
    g
}

fn block(g: &mut Grid, x: i32, y: i32) {
    assert!(g.set(
        GridPos::new(x, y),
        GridCell { blocked: true, walkable: false, entity: None },
    ));
}

fn cost_of(m: &ReachableMap, x: i32, y: i32) -> i32 {
    m.get(GridPos::new(x, y)).expect("cell should be reachable").cost_ft
}

#[test]
fn open_grid_two_step_disc() {
    // 5x5 grid, all walkable, actor at (0,0), budget 10, step cost 5:
    // reachable set is exactly the 8 neighbors plus the cells within 2
    // steps (cost <= 10).  Off-grid cells are not explicitly blocked, so
    // the disc extends past the grid edge.
    let g = open_grid(5);
    let start = GridPos::new(0, 0);
    let m = get_reachable_cells(start, 10, &g);
    // a 5x5 window around the start, minus the start itself
    assert_eq!(m.len(), 24);
    for dx in -2..=2i32 {
        for dy in -2..=2i32 {
            if dx == 0 && dy == 0 {
                // the start coordinate is never part of the result
                assert!(m.get(start).is_none());
                continue;
            }
            let expected = if dx.abs() <= 1 && dy.abs() <= 1 { 5 } else { 10 };
            assert_eq!(cost_of(&m, dx, dy), expected);
        }
    }
    // nothing outside the 2-step disc
    assert!(m.get(GridPos::new(3, 0)).is_none());
    assert!(m.get(GridPos::new(2, 3)).is_none());
    // the cheapest route to (2,0) goes through (1,0)
    let rc = m.get(GridPos::new(2, 0)).unwrap();
    assert_eq!(rc.cost_ft, 10);
    assert_eq!(rc.from, GridPos::new(1, 0));
    assert_eq!(rc.to, GridPos::new(2, 0));
}

#[test]
fn costs_are_positive_step_multiples_within_budget() {
    let g = open_grid(6);
    let m = get_reachable_cells(GridPos::new(2, 2), 25, &g);
    for rc in m.entries().iter() {
        assert!(rc.cost_ft >= 5);
        assert_eq!(rc.cost_ft % 5, 0);
        assert!(rc.cost_ft <= 25);
    }
}

#[test]
fn blocked_neighbor_detour() {
    // single blocked cell at (1,0) adjacent to start (0,0): the reachable
    // set must not route through (1,0); (2,0) is still reached at cost 10
    // via a diagonal detour.
    let mut g = open_grid(5);
    block(&mut g, 1, 0);
    let start = GridPos::new(0, 0);
    let m = get_reachable_cells(start, 10, &g);
    assert!(m.get(GridPos::new(1, 0)).is_none());
    let rc = m.get(GridPos::new(2, 0)).expect("reachable via detour");
    assert_eq!(rc.cost_ft, 10);
    assert_ne!(rc.from, GridPos::new(1, 0));
    assert_eq!(rc.from, GridPos::new(1, -1));
    // no record anywhere names (1,0) as predecessor
    for rc in m.entries().iter() {
        assert_ne!(rc.from, GridPos::new(1, 0));
    }
    // with only one step of budget, (2,0) is out of reach
    let m5 = get_reachable_cells(start, 5, &g);
    assert!(m5.get(GridPos::new(2, 0)).is_none());
}

#[test]
fn walled_off_cell_is_unreachable() {
    // surround (3,3) with blocked cells: no budget reaches it
    let mut g = open_grid(7);
    for dx in -1..=1i32 {
        for dy in -1..=1i32 {
            if dx != 0 || dy != 0 {
                block(&mut g, 3 + dx, 3 + dy);
            }
        }
    }
    let m = get_reachable_cells(GridPos::new(0, 0), 60, &g);
    assert!(m.get(GridPos::new(3, 3)).is_none());
}

#[test]
fn negative_or_tiny_budget_reaches_nothing() {
    let g = open_grid(4);
    let m = get_reachable_cells(GridPos::new(1, 1), 4, &g);
    assert_eq!(m.len(), 0);
    let m2 = get_reachable_cells(GridPos::new(1, 1), -5, &g);
    assert_eq!(m2.len(), 0);
}

#[test]
fn path_to_start_is_empty() {
    let g = open_grid(5);
    let p = get_path(GridPos::new(2, 2), 30, GridPos::new(2, 2), &g);
    assert!(p.is_empty());
}

#[test]
fn path_to_blocked_or_unreachable_is_empty() {
    let mut g = open_grid(5);
    block(&mut g, 4, 4);
    let p = get_path(GridPos::new(0, 0), 30, GridPos::new(4, 4), &g);
    assert!(p.is_empty());
    // unreachable within budget
    let p2 = get_path(GridPos::new(0, 0), 10, GridPos::new(4, 0), &g);
    assert!(p2.is_empty());
}

#[test]
fn path_chains_from_start_to_destination() {
    let g = open_grid(6);
    let start = GridPos::new(0, 0);
    let dest = GridPos::new(3, 0);
    let p = get_path(start, 30, dest, &g);
    assert_eq!(p.len(), 3);
    assert_eq!(p[0].from, start);
    for i in 0..p.len() {
        assert_eq!(p[i].cost_ft, 5 * (i as i32 + 1));
        if i > 0 {
            assert_eq!(p[i].from, p[i - 1].to);
        }
    }
    assert_eq!(p[2].to, dest);
}

#[test]
fn path_detours_around_a_wall() {
    // a vertical wall between start and destination forces a detour
    let mut g = open_grid(5);
    block(&mut g, 2, 0);
    block(&mut g, 2, 1);
    let start = GridPos::new(1, 0);
    let dest = GridPos::new(3, 0);
    let p = get_path(start, 30, dest, &g);
    assert!(!p.is_empty());
    // every step avoids the wall
    for rc in p.iter() {
        assert_ne!(rc.to, GridPos::new(2, 0));
        assert_ne!(rc.to, GridPos::new(2, 1));
    }
    assert_eq!(p.last().unwrap().to, dest);
    // the wall can be rounded in two steps: over (2,-1) or (2,2)
    assert_eq!(p.len(), 2);
}
