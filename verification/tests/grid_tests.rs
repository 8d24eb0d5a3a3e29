use fivee_core::grid::{Grid, GridCell};
use fivee_core::pos::GridPos;
use fivee_core::token::EntityId;

fn cell(blocked: bool, walkable: bool) -> GridCell {
    GridCell { blocked, walkable, entity: None }
}

#[test]
fn new_grid_is_clear() {
    let g = Grid::new(4);
    assert_eq!(g.size(), 4);
    for x in 0..4 {
        for y in 0..4 {
            let p = GridPos::new(x, y);
            let c = g.get(p).expect("in-bounds cell");
            assert!(!c.blocked);
            assert!(!c.walkable);
            assert!(c.entity.is_none());
            assert!(!g.is_blocked(p));
            assert!(!g.is_walkable(p));
        }
    }
}

#[test]
fn out_of_bounds_is_absent_not_a_fault() {
    let g = Grid::new(3);
    assert!(g.get(GridPos::new(3, 0)).is_none());
    assert!(g.get(GridPos::new(0, 3)).is_none());
    assert!(g.get(GridPos::new(-1, 0)).is_none());
    assert!(g.get(GridPos::new(0, -1)).is_none());
    assert!(g.get(GridPos::new(1_000_000, 1_000_000)).is_none());
    // absent cells are neither blocked nor walkable
    assert!(!g.is_blocked(GridPos::new(-1, -1)));
    assert!(!g.is_walkable(GridPos::new(-1, -1)));
}

#[test]
fn set_updates_in_bounds_only() {
    let mut g = Grid::new(3);
    let p = GridPos::new(1, 2);
    assert!(g.set(p, cell(true, false)));
    assert!(g.is_blocked(p));
    assert!(!g.is_walkable(p));
    assert!(g.set(p, cell(false, true)));
    assert!(!g.is_blocked(p));
    assert!(g.is_walkable(p));
    // out of bounds: rejected, nothing changes
    assert!(!g.set(GridPos::new(5, 5), cell(true, true)));
    assert!(!g.set(GridPos::new(-1, 0), cell(true, true)));
    assert!(!g.is_blocked(GridPos::new(5, 5)));
}

#[test]
fn occupant_is_stored() {
    let mut g = Grid::new(2);
    let p = GridPos::new(0, 1);
    let c = GridCell { blocked: false, walkable: true, entity: Some(EntityId(7)) };
    assert!(g.set(p, c));
    let got = g.get(p).unwrap();
    assert_eq!(got.entity, Some(EntityId(7)));
}
