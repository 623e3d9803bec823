use gridcast::astar::a_star_search;
use gridcast::astar::a_star_search_cardinal;
use gridcast::astar::NavigationPath;
use gridcast::map::GridMap;
use gridcast::map::TileType;

fn open_map(w: i32, h: i32) -> GridMap {
    GridMap::new(w, h, TileType::Floor)
}

fn assert_route_shape(m: &GridMap, path: &NavigationPath, start: usize, end: usize, omni: bool) {
    assert!(path.success);
    assert_eq!(path.destination, end);
    assert!(!path.steps.is_empty());
    assert_eq!(*path.steps.first().unwrap(), start);
    assert_eq!(*path.steps.last().unwrap(), end);
    for w in path.steps.windows(2) {
        let (ax, ay) = m.idx_xy(w[0]);
        let (bx, by) = m.idx_xy(w[1]);
        let dx = (bx - ax).abs();
        let dy = (by - ay).abs();
        assert!(dx <= 1 && dy <= 1);
        assert!(dx + dy >= 1);
        if !omni {
            assert_eq!(dx + dy, 1);
        }
        // every stepped-onto cell is walkable and inside the border
        assert!(bx >= 1 && by >= 1);
        assert!(!m.is_blocked(w[1]));
    }
}

#[test]
fn empty_navigation_path() {
    let p = NavigationPath::new();
    assert_eq!(p.destination, 0);
    assert!(!p.success);
    assert!(p.steps.is_empty());
}

#[test]
fn search_to_self_is_trivial_success() {
    let m = open_map(5, 5);
    let s = m.xy_idx(2, 2);
    let path = a_star_search(s, s, &m);
    assert!(path.success);
    assert_eq!(path.steps, vec![s]);
    let path_c = a_star_search_cardinal(s, s, &m);
    assert!(path_c.success);
    assert_eq!(path_c.steps, vec![s]);
}

#[test]
fn open_grid_diagonal_route() {
    // Five by five, corner to corner: the start plus four diagonal moves.
    let m = open_map(5, 5);
    let start = m.xy_idx(0, 0);
    let end = m.xy_idx(4, 4);
    let path = a_star_search(start, end, &m);
    assert_route_shape(&m, &path, start, end, true);
    assert_eq!(path.steps.len(), 5);
}

#[test]
fn open_grid_omni_length_is_chebyshev() {
    // On a fully open grid the omnidirectional route takes max(|dx|, |dy|)
    // moves.
    let m = open_map(10, 10);
    let start = m.xy_idx(1, 1);
    let end = m.xy_idx(7, 4);
    let path = a_star_search(start, end, &m);
    assert_route_shape(&m, &path, start, end, true);
    assert_eq!(path.steps.len(), 7);
}

#[test]
fn open_grid_cardinal_length_is_manhattan() {
    let m = open_map(10, 10);
    let start = m.xy_idx(1, 1);
    let end = m.xy_idx(4, 3);
    let path = a_star_search_cardinal(start, end, &m);
    assert_route_shape(&m, &path, start, end, false);
    assert_eq!(path.steps.len(), 6);
}

#[test]
fn solid_wall_blocks_search() {
    // A full wall column with no gap: the search reports failure with an
    // empty step list, in both movement modes.
    let mut m = open_map(7, 7);
    for y in 0..7 {
        m.set_tile(3, y, TileType::Wall);
    }
    m.populate_blocked();
    let start = m.xy_idx(1, 3);
    let end = m.xy_idx(5, 3);
    let path = a_star_search(start, end, &m);
    assert!(!path.success);
    assert!(path.steps.is_empty());
    let path_c = a_star_search_cardinal(start, end, &m);
    assert!(!path_c.success);
    assert!(path_c.steps.is_empty());
}

#[test]
fn route_goes_around_a_gap() {
    // The same wall with one opening: the route must pass through the gap.
    let mut m = open_map(7, 7);
    for y in 0..7 {
        m.set_tile(3, y, TileType::Wall);
    }
    m.set_tile(3, 5, TileType::Floor);
    m.populate_blocked();
    let start = m.xy_idx(1, 1);
    let end = m.xy_idx(5, 1);
    let path = a_star_search(start, end, &m);
    assert_route_shape(&m, &path, start, end, true);
    let gap = m.xy_idx(3, 5);
    assert!(path.steps.contains(&gap));
}

#[test]
fn cardinal_route_never_cuts_corners() {
    let m = open_map(6, 6);
    let start = m.xy_idx(1, 1);
    let end = m.xy_idx(3, 3);
    let omni = a_star_search(start, end, &m);
    let cardinal = a_star_search_cardinal(start, end, &m);
    assert_route_shape(&m, &omni, start, end, true);
    assert_route_shape(&m, &cardinal, start, end, false);
    assert_eq!(omni.steps.len(), 3);
    assert_eq!(cardinal.steps.len(), 5);
}
