use gridcast::map::GridMap;
use gridcast::map::TileType;
use gridcast::state::RunState;
use gridcast::visibility::field_of_view;
use gridcast::visibility::field_of_view_set;
use gridcast::visibility::Point;

fn open_map(w: i32, h: i32) -> GridMap {
    GridMap::new(w, h, TileType::Floor)
}

fn has(set: &[Point], x: i32, y: i32) -> bool {
    set.iter().any(|p| p.x == x && p.y == y)
}

#[test]
fn center_is_always_visible() {
    let m = open_map(9, 9);
    let set = field_of_view_set(Point::new(4, 4), 5, &m);
    assert!(has(&set, 4, 4));
}

#[test]
fn members_are_unique_and_in_bounds() {
    let m = open_map(9, 9);
    let set = field_of_view_set(Point::new(1, 1), 6, &m);
    for (i, p) in set.iter().enumerate() {
        assert!(p.x >= 0 && p.x < 9 && p.y >= 0 && p.y < 9);
        assert!(set.iter().skip(i + 1).all(|q| q != p));
    }
}

#[test]
fn degenerate_range_shows_at_most_center() {
    let m = open_map(5, 5);
    let zero = field_of_view_set(Point::new(2, 2), 0, &m);
    assert_eq!(zero.len(), 1);
    assert!(has(&zero, 2, 2));
    let negative = field_of_view_set(Point::new(2, 2), -3, &m);
    assert_eq!(negative.len(), 1);
}

#[test]
fn out_of_bounds_center_does_not_crash() {
    let m = open_map(5, 5);
    let set = field_of_view_set(Point::new(-4, -4), 3, &m);
    for p in set.iter() {
        assert!(p.x >= 0 && p.x < 5 && p.y >= 0 && p.y < 5);
    }
    assert!(!has(&set, -4, -4));
}

#[test]
fn diamond_footprint_on_open_grid() {
    // Seven by seven, center in the middle, range three: the diamond
    // footprint holds one center, three cells along each of the four axis
    // directions, and eight off-axis cells in each quadrant.
    let m = open_map(7, 7);
    let set = field_of_view_set(Point::new(3, 3), 3, &m);
    assert_eq!(set.len(), 45);
    // no member's softened distance exceeds the squared range
    for p in set.iter() {
        if p.x == 3 && p.y == 3 {
            continue;
        }
        let sx = 2 * (p.x - 3).abs() - 1;
        let sy = 2 * (p.y - 3).abs() - 1;
        assert!(sx * sx + sy * sy <= 4 * 9);
    }
    // the far corners of the diamond's bounding square are cut off
    assert!(!has(&set, 0, 0));
    assert!(!has(&set, 6, 6));
    assert!(!has(&set, 0, 6));
    assert!(!has(&set, 6, 0));
    // the axis tips are seen
    assert!(has(&set, 3, 0));
    assert!(has(&set, 3, 6));
    assert!(has(&set, 0, 3));
    assert!(has(&set, 6, 3));
}

#[test]
fn wall_occludes_the_cells_behind_it() {
    // A single opaque cell two steps north of the center: the wall itself
    // is visible, anything farther along that bearing is not.
    let mut m = open_map(7, 7);
    m.set_tile(3, 3, TileType::Wall);
    let center = Point::new(3, 5);
    let set = field_of_view_set(center, 5, &m);
    assert!(has(&set, 3, 4));
    assert!(has(&set, 3, 3));
    assert!(!has(&set, 3, 2));
    assert!(!has(&set, 3, 1));
    assert!(!has(&set, 3, 0));
}

#[test]
fn identical_inputs_identical_membership() {
    let mut m = open_map(11, 11);
    m.set_tile(5, 4, TileType::Wall);
    m.set_tile(6, 6, TileType::Wall);
    m.set_tile(2, 7, TileType::Wall);
    let a = field_of_view_set(Point::new(5, 5), 6, &m);
    let b = field_of_view_set(Point::new(5, 5), 6, &m);
    assert_eq!(a.len(), b.len());
    for p in a.iter() {
        assert!(has(&b, p.x, p.y));
    }
    for p in b.iter() {
        assert!(has(&a, p.x, p.y));
    }
}

#[test]
fn walls_are_seen_but_not_seen_through() {
    // A room wall east of the viewer: the wall cell shows, the cell beyond
    // it stays dark.
    let mut m = open_map(9, 9);
    for y in 1..8 {
        m.set_tile(6, y, TileType::Wall);
    }
    let set = field_of_view_set(Point::new(3, 4), 6, &m);
    assert!(has(&set, 6, 4));
    assert!(!has(&set, 7, 4));
    assert!(!has(&set, 8, 4));
}

#[test]
fn field_of_view_matches_the_set() {
    let mut m = open_map(9, 9);
    m.set_tile(4, 3, TileType::Wall);
    let set = field_of_view_set(Point::new(4, 4), 4, &m);
    let list = field_of_view(Point::new(4, 4), 4, &m);
    assert_eq!(set.len(), list.len());
    for p in set.iter() {
        assert!(list.contains(&(p.x, p.y)));
    }
}

#[test]
fn turn_phases_advance_in_order() {
    assert_eq!(RunState::PreRun.advance(false), RunState::AwaitingInput);
    assert_eq!(RunState::AwaitingInput.advance(false), RunState::AwaitingInput);
    assert_eq!(RunState::AwaitingInput.advance(true), RunState::PlayerTurn);
    assert_eq!(RunState::PlayerTurn.advance(true), RunState::MonsterTurn);
    assert_eq!(RunState::PlayerTurn.advance(false), RunState::MonsterTurn);
    assert_eq!(RunState::MonsterTurn.advance(false), RunState::AwaitingInput);
}

#[test]
fn corner_center_stays_on_grid() {
    let m = open_map(5, 5);
    let set = field_of_view_set(Point::new(0, 0), 2, &m);
    assert!(has(&set, 0, 0));
    for p in set.iter() {
        assert!(p.x >= 0 && p.x < 5 && p.y >= 0 && p.y < 5);
    }
}
