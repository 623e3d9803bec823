use gridcast::map::GridMap;
use gridcast::map::TileType;

fn open_map(w: i32, h: i32) -> GridMap {
    GridMap::new(w, h, TileType::Floor)
}

#[test]
fn xy_idx_and_back() {
    let m = open_map(5, 4);
    let idx = m.xy_idx(2, 3);
    assert_eq!(idx, 17);
    let (x, y) = m.idx_xy(idx);
    assert_eq!((x, y), (2, 3));
}

#[test]
fn in_bounds_edges() {
    let m = open_map(5, 4);
    assert!(m.in_bounds(0, 0));
    assert!(m.in_bounds(4, 3));
    assert!(!m.in_bounds(5, 0));
    assert!(!m.in_bounds(0, 4));
    assert!(!m.in_bounds(-1, 2));
}

#[test]
fn populate_blocked_marks_walls() {
    let mut m = open_map(4, 4);
    m.set_tile(2, 1, TileType::Wall);
    m.populate_blocked();
    let wall_idx = m.xy_idx(2, 1);
    let floor_idx = m.xy_idx(1, 1);
    assert!(m.is_blocked(wall_idx));
    assert!(m.is_opaque(wall_idx));
    assert!(!m.is_blocked(floor_idx));
    assert!(!m.is_opaque(floor_idx));
}

#[test]
fn omni_exits_inner_cell() {
    let m = open_map(5, 5);
    let idx = m.xy_idx(2, 2);
    let exits = m.get_available_exits(idx);
    assert_eq!(exits.len(), 8);
    let cardinal: Vec<&(usize, u32)> = exits.iter().filter(|e| e.1 == 100).collect();
    let diagonal: Vec<&(usize, u32)> = exits.iter().filter(|e| e.1 == 145).collect();
    assert_eq!(cardinal.len(), 4);
    assert_eq!(diagonal.len(), 4);
}

#[test]
fn border_cells_are_not_exits() {
    // Row zero and column zero are never valid exits, so a corner cell can
    // only be left toward the inside of the grid.
    let m = open_map(5, 5);
    let idx = m.xy_idx(0, 0);
    let exits = m.get_available_exits(idx);
    assert_eq!(exits.len(), 1);
    for e in exits.iter() {
        let (x, y) = m.idx_xy(e.0);
        assert!(x >= 1 && y >= 1);
    }
}

#[test]
fn cardinal_exits_inner_cell() {
    let m = open_map(5, 5);
    let idx = m.xy_idx(2, 2);
    let exits = m.get_available_cardinal_exits(idx);
    assert_eq!(exits.len(), 4);
    for e in exits.iter() {
        assert_eq!(e.1, 100);
    }
}

#[test]
fn blocked_neighbor_is_not_an_exit() {
    let mut m = open_map(5, 5);
    m.set_tile(3, 2, TileType::Wall);
    m.populate_blocked();
    let idx = m.xy_idx(2, 2);
    let blocked_idx = m.xy_idx(3, 2);
    let exits = m.get_available_exits(idx);
    assert_eq!(exits.len(), 7);
    assert!(exits.iter().all(|e| e.0 != blocked_idx));
}

#[test]
fn pythagoras_squared_exact() {
    assert_eq!(GridMap::distance2d_pythagoras_squared(0, 0, 3, 4), 25);
    assert_eq!(GridMap::distance2d_pythagoras_squared(2, 2, 2, 2), 0);
    assert_eq!(GridMap::distance2d_pythagoras_squared(-3, 1, 1, -2), 25);
}

#[test]
fn pythagoras_fixed_point() {
    // One hundred fixed-point units stand for one cell.
    assert_eq!(GridMap::distance2d_pythagoras(0, 0, 3, 4), 500);
    assert_eq!(GridMap::distance2d_pythagoras(0, 0, 1, 0), 100);
    // sqrt(2) in hundredths, rounded down
    assert_eq!(GridMap::distance2d_pythagoras(0, 0, 1, 1), 141);
}

#[test]
fn pathing_distance_between_cells() {
    let m = open_map(10, 10);
    let a = m.xy_idx(1, 1);
    let b = m.xy_idx(4, 5);
    assert_eq!(m.get_pathing_distance(a, b), 500);
    assert_eq!(m.get_pathing_distance(a, a), 0);
}
