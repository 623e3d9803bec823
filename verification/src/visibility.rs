//! Field-of-view computation by recursive symmetric shadowcasting.
//!
//! From a center cell, eight principal rays probe the cardinal and diagonal
//! directions; each cardinal sector whose principal ray gets past the
//! immediate neighbor then spawns the two adjoining octant scans. A scan
//! sweeps the cells of one row (or column) at a growing distance, keeping a
//! window of angular slopes that narrows as opaque cells are found.
//!
//! Slopes are kept as exact integer fractions, and the softened range test
//! compares `(2|dx| - 1)^2 + (2|dy| - 1)^2` against `4 * range^2`, which
//! gives the visibility footprint its diamond-like shape.

use vstd::prelude::*;
use crate::map::GridMap;

verus! {

/// An (x, y) cell coordinate.
#[derive(Eq, PartialEq, Structural, Copy, Clone, Debug, Hash)]
pub struct Point {
    pub x: i32,
    pub y: i32,
}

impl Point {
    pub fn new(x: i32, y: i32) -> (r: Self)
        ensures
            r.x == x,
            r.y == y,
    {
        Point { x, y }
    }
}

/// Largest accepted sight range, so that its square fits the machine
/// integers the engine computes with.
pub const MAX_RANGE: i32 = 46340;

/// The point list holds `p`.
pub open spec fn seq_has_pt(s: Seq<Point>, p: Point) -> bool {
    exists|i: int| #![trigger s[i]] 0 <= i < s.len() && s[i] == p
}

/// No point occurs twice: the list stands for a set.
pub open spec fn pts_unique(s: Seq<Point>) -> bool {
    forall|i: int, j: int| 0 <= i < j < s.len() ==> s[i] != s[j]
}

/// The softened squared distance from the center to a cell, scaled by four:
/// each axis offset is reduced by half a cell before squaring, which is what
/// shapes the visibility footprint into a diamond rather than a circle.
pub open spec fn soft_dist2(cx: int, cy: int, px: int, py: int) -> int {
    let ax = if px >= cx { px - cx } else { cx - px };
    let ay = if py >= cy { py - cy } else { cy - py };
    (2 * ax - 1) * (2 * ax - 1) + (2 * ay - 1) * (2 * ay - 1)
}

/// Step `j` of the ray from `c` in direction `(dx, dy)` lands on the grid
/// and within the (unsoftened) squared range `r2`.
pub open spec fn ray_admissible(m: GridMap, c: Point, dx: int, dy: int, r2: int, j: int) -> bool {
    &&& m.spec_in_bounds(c.x + j * dx, c.y + j * dy)
    &&& (j * dx) * (j * dx) + (j * dy) * (j * dy) <= r2
}

/// Step `j` of the ray lands on an opaque cell.
pub open spec fn ray_blocked(m: GridMap, c: Point, dx: int, dy: int, j: int) -> bool {
    m.opaque_at(m.idx_of(c.x + j * dx, c.y + j * dy))
}

/// The cell `k` steps out along the ray is reached by the principal-ray
/// probe: every step up to it stays admissible, and no step strictly before
/// it is opaque. The cell at `k` itself may be opaque: a wall is seen, and
/// only the cells behind it are hidden.
pub open spec fn ray_visible(m: GridMap, c: Point, dx: int, dy: int, r2: int, k: int) -> bool {
    &&& 1 <= k
    &&& forall|j: int| 1 <= j <= k ==> #[trigger] ray_admissible(m, c, dx, dy, r2, j)
    &&& forall|j: int| 1 <= j < k ==> !#[trigger] ray_blocked(m, c, dx, dy, j)
}

/// An opaque cell on a ray hides every cell farther out on the same ray.
pub proof fn lemma_ray_occlusion(
    m: GridMap,
    c: Point,
    dx: int,
    dy: int,
    r2: int,
    d: int,
    k: int,
)
    requires
        1 <= d < k,
        ray_blocked(m, c, dx, dy, d),
    ensures
        !ray_visible(m, c, dx, dy, r2, k),
{
}

/// A cell other than the center that lies within the true squared range
/// also lies within the softened (diamond) range test.
pub proof fn lemma_soft_within(cx: int, cy: int, px: int, py: int, r2: int)
    requires
        (px - cx) * (px - cx) + (py - cy) * (py - cy) <= r2,
        px != cx || py != cy,
    ensures
        soft_dist2(cx, cy, px, py) <= 4 * r2,
{
    let ax = if px >= cx { px - cx } else { cx - px };
    let ay = if py >= cy { py - cy } else { cy - py };
    assert(ax * ax == (px - cx) * (px - cx) && ay * ay == (py - cy) * (py - cy))
        by (nonlinear_arith)
        requires
            ax == px - cx || ax == cx - px,
            ay == py - cy || ay == cy - py;
    assert(ax + ay >= 1);
    assert((2 * ax - 1) * (2 * ax - 1) + (2 * ay - 1) * (2 * ay - 1)
        == 4 * (ax * ax + ay * ay) - 4 * (ax + ay) + 2) by (nonlinear_arith);
}

/// Adds a point to the set unless it is already present.
fn insert_pt(pts: &mut Vec<Point>, p: Point)
    requires
        pts_unique(old(pts)@),
    ensures
        pts_unique(final(pts)@),
        forall|q: Point| #![trigger seq_has_pt(final(pts)@, q)]
            seq_has_pt(final(pts)@, q) <==> (seq_has_pt(old(pts)@, q) || q == p),
{
    let mut i: usize = 0;
    let n: usize = pts.len();
    while i < n
        invariant
            i <= n,
            n == pts@.len(),
            pts@ == old(pts)@,
            pts_unique(pts@),
            forall|j: int| 0 <= j < i ==> pts@[j] != p,
        decreases n - i,
    {
        if pts[i] == p {
            proof {
                assert(seq_has_pt(pts@, p));
                assert forall|q: Point|
                    seq_has_pt(pts@, q) <==> (seq_has_pt(old(pts)@, q) || q == p) by {}
            }
            return;
        }
        i = i + 1;
    }
    pts.push(p);
    proof {
        assert(pts@[pts@.len() - 1] == p);
        assert forall|q: Point| #![trigger seq_has_pt(pts@, q)]
            seq_has_pt(pts@, q) <==> (seq_has_pt(old(pts)@, q) || q == p) by {
            if seq_has_pt(old(pts)@, q) {
                let i0 = choose|i0: int| 0 <= i0 < old(pts)@.len() && old(pts)@[i0] == q;
                assert(pts@[i0] == q);
            }
            if seq_has_pt(pts@, q) && q != p {
                let i0 = choose|i0: int| 0 <= i0 < pts@.len() && pts@[i0] == q;
                assert(old(pts)@[i0] == q);
            }
        }
    }
}

/// A cell blocks sight when it is opaque; anything off the grid blocks
/// sight as well, so probes past the border stop there.
fn transparent_at(map: &GridMap, point: Point) -> (r: bool)
    requires
        map.wf(),
    ensures
        r == (map.spec_in_bounds(point.x as int, point.y as int)
            && !map.opaque_at(map.idx_of(point.x as int, point.y as int))),
{
    if map.in_bounds(point.x, point.y) {
        let idx: usize = map.xy_idx(point.x, point.y);
        !map.is_opaque(idx)
    } else {
        false
    }
}

/// The softened range test: whether `point` falls inside the visibility
/// diamond of squared radius `range_2` around `center`.
fn within_soft_range(center: Point, range_2: i32, point: Point) -> (r: bool)
    requires
        1 <= range_2,
        -0x10_0000 <= center.x <= 0x10_0000,
        -0x10_0000 <= center.y <= 0x10_0000,
        -0x20_0000 <= point.x <= 0x20_0000,
        -0x20_0000 <= point.y <= 0x20_0000,
    ensures
        r == (soft_dist2(center.x as int, center.y as int, point.x as int, point.y as int)
            <= 4 * range_2),
{
    let ax: i64 = if point.x >= center.x {
        (point.x as i64) - (center.x as i64)
    } else {
        (center.x as i64) - (point.x as i64)
    };
    let ay: i64 = if point.y >= center.y {
        (point.y as i64) - (center.y as i64)
    } else {
        (center.y as i64) - (point.y as i64)
    };
    let sx: i64 = 2 * ax - 1;
    let sy: i64 = 2 * ay - 1;
    proof {
        assert(0 <= sx * sx <= 0x70_0000 * 0x70_0000 && 0 <= sy * sy <= 0x70_0000 * 0x70_0000)
            by (nonlinear_arith)
            requires -0x70_0000 <= sx <= 0x70_0000, -0x70_0000 <= sy <= 0x70_0000;
    }
    sx * sx + sy * sy <= 4 * (range_2 as i64)
}

/// An angular slope kept as the exact fraction `num / den`, with
/// `-1 <= num / den <= 1` and a positive denominator.
#[derive(Clone, Copy)]
struct Slope {
    num: i32,
    den: i32,
}

/// The fraction is in lowest bounds for the scan arithmetic.
spec fn slope_wf(s: Slope) -> bool {
    &&& 1 <= s.den <= 93000
    &&& -s.den <= s.num <= s.den
}

/// Truncation toward zero of `num / den * d + 1/2`, as an exact integer.
spec fn spec_slope_offset(num: int, den: int, d: int) -> int {
    let v = 2 * num * d + den;
    let w = 2 * den;
    if v >= 0 {
        v / w
    } else {
        -((-v) / w)
    }
}

/// The column (or row) offset where a slope line crosses distance `d`:
/// `num / den * d`, rounded to the nearest cell (half rounds away from the
/// center of the sector, matching truncation of `slope * d + 0.5`).
fn slope_offset(s: Slope, d: i32) -> (r: i32)
    requires
        slope_wf(s),
        1 <= d <= MAX_RANGE,
    ensures
        r == spec_slope_offset(s.num as int, s.den as int, d as int),
        -(d - 1) <= r <= d,
{
    let num: i64 = s.num as i64;
    let den: i64 = s.den as i64;
    let dd: i64 = d as i64;
    proof {
        assert(-(2 * 93000 * 46340) <= 2 * num * dd <= 2 * 93000 * 46340) by (nonlinear_arith)
            requires 1 <= den <= 93000, -den <= num <= den, 1 <= dd <= 46340;
    }
    let v: i64 = 2 * num * dd + den;
    let w: i64 = 2 * den;
    proof {
        assert((v >= 0 ==> v <= den * (2 * dd + 1)) && (v < 0 ==> -v <= den * (2 * dd - 1)))
            by (nonlinear_arith)
            requires
                1 <= den <= 93000,
                -den <= num <= den,
                1 <= dd <= 46340,
                v == 2 * num * dd + den;
    }
    let q: i64 = if v >= 0 {
        ((v as u64) / (w as u64)) as i64
    } else {
        -((((-v) as u64) / (w as u64)) as i64)
    };
    proof {
        let vi = v as int;
        let wi = w as int;
        if v >= 0 {
            assert(q == vi / wi);
            assert(vi / wi <= dd) by (nonlinear_arith)
                requires vi >= 0, wi == 2 * den, 1 <= den, vi <= den * (2 * dd + 1), 1 <= dd;
            assert(vi / wi >= 0) by (nonlinear_arith)
                requires vi >= 0, wi >= 2;
        } else {
            assert(q == -((-vi) / wi));
            assert((-vi) / wi <= dd - 1) by (nonlinear_arith)
                requires -vi >= 0, wi == 2 * den, 1 <= den, -vi <= den * (2 * dd - 1), 1 <= dd;
            assert((-vi) / wi >= 0) by (nonlinear_arith)
                requires -vi >= 0, wi >= 2;
        }
    }
    q as i32
}

} // verus!

verus! {

/// `q` is the cell `j` steps from `c` along direction `(dx, dy)`.
pub open spec fn on_ray_at(c: Point, dx: int, dy: int, q: Point, j: int) -> bool {
    q.x == c.x + j * dx && q.y == c.y + j * dy
}

/// When the walk along a ray has stopped, the cells it reached — steps one
/// through `kk` — are exactly the cells the ray sees.
proof fn lemma_ray_break(
    m: GridMap,
    c: Point,
    dxi: int,
    dyi: int,
    r2i: int,
    kk: int,
    s_old: Seq<Point>,
    s: Seq<Point>,
)
    requires
        forall|j: int| 1 <= j <= kk ==> #[trigger] ray_visible(m, c, dxi, dyi, r2i, j),
        forall|j: int| #[trigger] ray_visible(m, c, dxi, dyi, r2i, j) ==> 1 <= j <= kk,
        forall|q: Point| #![trigger seq_has_pt(s, q)]
            seq_has_pt(s, q) <==> (seq_has_pt(s_old, q)
                || (exists|j: int| #![trigger on_ray_at(c, dxi, dyi, q, j)]
                    1 <= j <= kk && on_ray_at(c, dxi, dyi, q, j))),
    ensures
        forall|q: Point| #![trigger seq_has_pt(s, q)]
            seq_has_pt(s, q) <==> (seq_has_pt(s_old, q)
                || (exists|j: int| #![trigger on_ray_at(c, dxi, dyi, q, j)]
                    on_ray_at(c, dxi, dyi, q, j) && ray_visible(m, c, dxi, dyi, r2i, j))),
{
    assert forall|q: Point| #![trigger seq_has_pt(s, q)]
        seq_has_pt(s, q) <==> (seq_has_pt(s_old, q)
            || (exists|j: int| #![trigger on_ray_at(c, dxi, dyi, q, j)]
                on_ray_at(c, dxi, dyi, q, j) && ray_visible(m, c, dxi, dyi, r2i, j))) by {
        if seq_has_pt(s, q) && !seq_has_pt(s_old, q) {
            let j = choose|j: int| 1 <= j <= kk && #[trigger] on_ray_at(c, dxi, dyi, q, j);
            assert(ray_visible(m, c, dxi, dyi, r2i, j));
            assert(on_ray_at(c, dxi, dyi, q, j) && ray_visible(m, c, dxi, dyi, r2i, j));
        }
        if exists|j: int| #![trigger on_ray_at(c, dxi, dyi, q, j)]
            on_ray_at(c, dxi, dyi, q, j) && ray_visible(m, c, dxi, dyi, r2i, j) {
            let j = choose|j: int| #![trigger on_ray_at(c, dxi, dyi, q, j)]
                on_ray_at(c, dxi, dyi, q, j) && ray_visible(m, c, dxi, dyi, r2i, j);
            assert(1 <= j <= kk);
            assert(seq_has_pt(s, q));
        }
    }
}

/// Walks outward from the center one cell at a time along one of the eight
/// unit directions, inserting each reached cell, and stopping at the grid
/// border, at the range, or just after an opaque cell. Returns whether at
/// least one reached cell was transparent, which is what makes the sector
/// worth a full recursive scan.
fn scan_ray(
    map: &GridMap,
    center: Point,
    dx: i32,
    dy: i32,
    r2: i32,
    visible: &mut Vec<Point>,
) -> (active: bool)
    requires
        map.wf(),
        -1 <= dx <= 1,
        -1 <= dy <= 1,
        dx != 0 || dy != 0,
        1 <= r2 <= MAX_RANGE * MAX_RANGE,
        -0x10_0000 <= center.x <= 0x10_0000,
        -0x10_0000 <= center.y <= 0x10_0000,
        pts_unique(old(visible)@),
    ensures
        pts_unique(final(visible)@),
        forall|q: Point| #![trigger seq_has_pt(final(visible)@, q)]
            seq_has_pt(final(visible)@, q) <==> (seq_has_pt(old(visible)@, q)
                || (exists|j: int| #![trigger on_ray_at(center, dx as int, dy as int, q, j)]
                    on_ray_at(center, dx as int, dy as int, q, j)
                    && ray_visible(*map, center, dx as int, dy as int, r2 as int, j))),
        active == (exists|j: int|
            #![trigger ray_blocked(*map, center, dx as int, dy as int, j)]
            ray_visible(*map, center, dx as int, dy as int, r2 as int, j)
                && !ray_blocked(*map, center, dx as int, dy as int, j)),
        forall|q: Point| #![trigger seq_has_pt(final(visible)@, q)]
            seq_has_pt(final(visible)@, q) && !seq_has_pt(old(visible)@, q)
                ==> q != center
                    && soft_dist2(center.x as int, center.y as int, q.x as int, q.y as int)
                        <= 4 * (r2 as int),
{
    let ghost dxi = dx as int;
    let ghost dyi = dy as int;
    let ghost r2i = r2 as int;
    let mut cur: Point = center;
    let mut k: i32 = 0;
    let mut active: bool = false;
    loop
        invariant_except_break
            map.wf(),
            -1 <= dx <= 1,
            -1 <= dy <= 1,
            dx != 0 || dy != 0,
            1 <= r2 <= MAX_RANGE * MAX_RANGE,
            -0x10_0000 <= center.x <= 0x10_0000,
            -0x10_0000 <= center.y <= 0x10_0000,
            dxi == dx as int,
            dyi == dy as int,
            r2i == r2 as int,
            0 <= k <= MAX_RANGE,
            cur.x == center.x + k * dx,
            cur.y == center.y + k * dy,
            forall|j: int| 1 <= j <= k
                ==> #[trigger] ray_admissible(*map, center, dxi, dyi, r2i, j),
            forall|j: int| 1 <= j <= k
                ==> !#[trigger] ray_blocked(*map, center, dxi, dyi, j),
            pts_unique(visible@),
            forall|q: Point| #![trigger seq_has_pt(visible@, q)]
                seq_has_pt(visible@, q) <==> (seq_has_pt(old(visible)@, q)
                    || (exists|j: int| #![trigger on_ray_at(center, dxi, dyi, q, j)]
                        1 <= j <= k && on_ray_at(center, dxi, dyi, q, j))),
            forall|q: Point| #![trigger seq_has_pt(visible@, q)]
                seq_has_pt(visible@, q) && !seq_has_pt(old(visible)@, q)
                    ==> q != center
                        && soft_dist2(center.x as int, center.y as int, q.x as int, q.y as int)
                            <= 4 * r2i,
            active == (k >= 1),
        ensures
            pts_unique(visible@),
            forall|q: Point| #![trigger seq_has_pt(visible@, q)]
                seq_has_pt(visible@, q) <==> (seq_has_pt(old(visible)@, q)
                    || (exists|j: int| #![trigger on_ray_at(center, dxi, dyi, q, j)]
                        on_ray_at(center, dxi, dyi, q, j)
                        && ray_visible(*map, center, dxi, dyi, r2i, j))),
            active == (exists|j: int| #![trigger ray_blocked(*map, center, dxi, dyi, j)]
                ray_visible(*map, center, dxi, dyi, r2i, j)
                    && !ray_blocked(*map, center, dxi, dyi, j)),
            forall|q: Point| #![trigger seq_has_pt(visible@, q)]
                seq_has_pt(visible@, q) && !seq_has_pt(old(visible)@, q)
                    ==> q != center
                        && soft_dist2(center.x as int, center.y as int, q.x as int, q.y as int)
                            <= 4 * r2i,
        decreases MAX_RANGE + 1 - k,
    {
        proof {
            // The steps accepted so far stay within the range circle, which
            // bounds how far the walk can have gone.
            if k >= 1 {
                assert(ray_admissible(*map, center, dxi, dyi, r2i, k as int));
                assert(k * k <= (k * dxi) * (k * dxi) + (k * dyi) * (k * dyi))
                    by (nonlinear_arith)
                    requires 1 <= k, -1 <= dxi <= 1, -1 <= dyi <= 1, dxi != 0 || dyi != 0;
            }
        }
        let nxt = Point { x: cur.x + dx, y: cur.y + dy };
        proof {
            assert((k + 1) * dxi == k * dxi + dxi && (k + 1) * dyi == k * dyi + dyi)
                by (nonlinear_arith);
            assert(on_ray_at(center, dxi, dyi, nxt, k + 1));
        }
        if !map.in_bounds(nxt.x, nxt.y) {
            proof {
                assert(!ray_admissible(*map, center, dxi, dyi, r2i, k + 1));
                assert forall|j: int| #[trigger] ray_visible(*map, center, dxi, dyi, r2i, j)
                    implies 1 <= j <= k by {
                    if j > k {
                        assert(ray_admissible(*map, center, dxi, dyi, r2i, k + 1));
                    }
                }
                assert forall|j: int| 1 <= j <= k
                    implies #[trigger] ray_visible(*map, center, dxi, dyi, r2i, j) by {}
                lemma_ray_break(*map, center, dxi, dyi, r2i, k as int, old(visible)@, visible@);
                if active {
                    assert(ray_visible(*map, center, dxi, dyi, r2i, k as int));
                    assert(!ray_blocked(*map, center, dxi, dyi, k as int));
                } else {
                    if exists|j: int| #![trigger ray_blocked(*map, center, dxi, dyi, j)]
                        ray_visible(*map, center, dxi, dyi, r2i, j)
                            && !ray_blocked(*map, center, dxi, dyi, j) {
                        let j = choose|j: int| #![trigger ray_blocked(*map, center, dxi, dyi, j)]
                            ray_visible(*map, center, dxi, dyi, r2i, j)
                                && !ray_blocked(*map, center, dxi, dyi, j);
                        assert(1 <= j <= k);
                    }
                }
            }
            break;
        }
        let ddx: i64 = (nxt.x as i64) - (center.x as i64);
        let ddy: i64 = (nxt.y as i64) - (center.y as i64);
        proof {
            assert(ddx == (k + 1) * dxi && ddy == (k + 1) * dyi);
            assert(-46341 <= ddx <= 46341 && -46341 <= ddy <= 46341) by (nonlinear_arith)
                requires
                    ddx == (k + 1) * dxi,
                    ddy == (k + 1) * dyi,
                    0 <= k <= 46340,
                    -1 <= dxi <= 1,
                    -1 <= dyi <= 1;
            assert(0 <= ddx * ddx <= 46341 * 46341 && 0 <= ddy * ddy <= 46341 * 46341)
                by (nonlinear_arith)
                requires -46341 <= ddx <= 46341, -46341 <= ddy <= 46341;
        }
        if ddx * ddx + ddy * ddy > r2 as i64 {
            proof {
                assert(!ray_admissible(*map, center, dxi, dyi, r2i, k + 1));
                assert forall|j: int| #[trigger] ray_visible(*map, center, dxi, dyi, r2i, j)
                    implies 1 <= j <= k by {
                    if j > k {
                        assert(ray_admissible(*map, center, dxi, dyi, r2i, k + 1));
                    }
                }
                assert forall|j: int| 1 <= j <= k
                    implies #[trigger] ray_visible(*map, center, dxi, dyi, r2i, j) by {}
                lemma_ray_break(*map, center, dxi, dyi, r2i, k as int, old(visible)@, visible@);
                if active {
                    assert(ray_visible(*map, center, dxi, dyi, r2i, k as int));
                    assert(!ray_blocked(*map, center, dxi, dyi, k as int));
                } else {
                    if exists|j: int| #![trigger ray_blocked(*map, center, dxi, dyi, j)]
                        ray_visible(*map, center, dxi, dyi, r2i, j)
                            && !ray_blocked(*map, center, dxi, dyi, j) {
                        let j = choose|j: int| #![trigger ray_blocked(*map, center, dxi, dyi, j)]
                            ray_visible(*map, center, dxi, dyi, r2i, j)
                                && !ray_blocked(*map, center, dxi, dyi, j);
                        assert(1 <= j <= k);
                    }
                }
            }
            break;
        }
        proof {
            assert(ray_admissible(*map, center, dxi, dyi, r2i, k + 1));
        }
        let ghost pre = visible@;
        proof {
            assert(ddx != 0 || ddy != 0) by (nonlinear_arith)
                requires
                    ddx == (k + 1) * dxi,
                    ddy == (k + 1) * dyi,
                    k >= 0,
                    dxi != 0 || dyi != 0,
                    -1 <= dxi <= 1,
                    -1 <= dyi <= 1;
            assert(nxt != center);
            lemma_soft_within(center.x as int, center.y as int, nxt.x as int, nxt.y as int, r2i);
        }
        let idx: usize = map.xy_idx(nxt.x, nxt.y);
        insert_pt(visible, nxt);
        if map.is_opaque(idx) {
            proof {
                assert(ray_blocked(*map, center, dxi, dyi, k + 1));
                assert forall|j: int| #[trigger] ray_visible(*map, center, dxi, dyi, r2i, j)
                    implies 1 <= j <= k + 1 by {
                    if j > k + 1 {
                        assert(ray_blocked(*map, center, dxi, dyi, k + 1));
                    }
                }
                assert forall|j: int| 1 <= j <= k + 1
                    implies #[trigger] ray_visible(*map, center, dxi, dyi, r2i, j) by {}
                // The one new point stands for step k + 1: distinct steps
                // along a fixed direction land on distinct cells.
                assert forall|q: Point| #![trigger seq_has_pt(visible@, q)]
                    seq_has_pt(visible@, q) <==> (seq_has_pt(old(visible)@, q)
                        || (exists|j: int| #![trigger on_ray_at(center, dxi, dyi, q, j)]
                            1 <= j <= k + 1 && on_ray_at(center, dxi, dyi, q, j))) by {
                    if seq_has_pt(visible@, q) && !seq_has_pt(old(visible)@, q) {
                        if q == nxt {
                            assert(on_ray_at(center, dxi, dyi, q, k + 1));
                        } else {
                            assert(seq_has_pt(pre, q));
                        }
                    }
                    if exists|j: int| #![trigger on_ray_at(center, dxi, dyi, q, j)]
                        1 <= j <= k + 1 && on_ray_at(center, dxi, dyi, q, j) {
                        let j = choose|j: int| #![trigger on_ray_at(center, dxi, dyi, q, j)]
                            1 <= j <= k + 1 && on_ray_at(center, dxi, dyi, q, j);
                        if j <= k {
                            assert(seq_has_pt(pre, q));
                        } else {
                            assert(q.x == nxt.x && q.y == nxt.y);
                            assert(q == nxt);
                        }
                        assert(seq_has_pt(visible@, q));
                    }
                }
                lemma_ray_break(*map, center, dxi, dyi, r2i, k + 1, old(visible)@, visible@);
                if active {
                    assert(ray_visible(*map, center, dxi, dyi, r2i, k as int));
                    assert(!ray_blocked(*map, center, dxi, dyi, k as int));
                } else {
                    if exists|j: int| #![trigger ray_blocked(*map, center, dxi, dyi, j)]
                        ray_visible(*map, center, dxi, dyi, r2i, j)
                            && !ray_blocked(*map, center, dxi, dyi, j) {
                        let j = choose|j: int| #![trigger ray_blocked(*map, center, dxi, dyi, j)]
                            ray_visible(*map, center, dxi, dyi, r2i, j)
                                && !ray_blocked(*map, center, dxi, dyi, j);
                        assert(1 <= j <= k + 1);
                        assert(j == k + 1);
                    }
                }
            }
            break;
        }
        proof {
            assert((k + 1) * (k + 1)
                <= ((k + 1) * dxi) * ((k + 1) * dxi) + ((k + 1) * dyi) * ((k + 1) * dyi))
                by (nonlinear_arith)
                requires 0 <= k, -1 <= dxi <= 1, -1 <= dyi <= 1, dxi != 0 || dyi != 0;
            assert(((k + 1) * dxi) * ((k + 1) * dxi) + ((k + 1) * dyi) * ((k + 1) * dyi) <= r2i);
            assert(k + 1 <= 46340) by (nonlinear_arith)
                requires (k + 1) * (k + 1) <= 46340 * 46340, 0 <= k;
        }
        active = true;
        cur = nxt;
        k = k + 1;
        proof {
            assert forall|q: Point| #![trigger seq_has_pt(visible@, q)]
                seq_has_pt(visible@, q) <==> (seq_has_pt(old(visible)@, q)
                    || (exists|j: int| #![trigger on_ray_at(center, dxi, dyi, q, j)]
                        1 <= j <= k && on_ray_at(center, dxi, dyi, q, j))) by {
                if seq_has_pt(visible@, q) && !seq_has_pt(old(visible)@, q) {
                    if q == nxt {
                        assert(on_ray_at(center, dxi, dyi, q, k as int));
                    } else {
                        assert(seq_has_pt(pre, q));
                    }
                }
                if exists|j: int| #![trigger on_ray_at(center, dxi, dyi, q, j)]
                    1 <= j <= k && on_ray_at(center, dxi, dyi, q, j) {
                    let j = choose|j: int| #![trigger on_ray_at(center, dxi, dyi, q, j)]
                        1 <= j <= k && on_ray_at(center, dxi, dyi, q, j);
                    if j <= k - 1 {
                        assert(seq_has_pt(pre, q));
                    } else {
                        assert(q.x == nxt.x && q.y == nxt.y);
                        assert(q == nxt);
                    }
                    assert(seq_has_pt(visible@, q));
                }
            }
        }
    }
    active
}

} // verus!

verus! {

/// What every cell inserted by an octant scan satisfies: it lies inside the
/// softened range diamond, strictly on the scanned side of the center along
/// the major axis, and off the center's own row or column — cells straight
/// out from the center are the principal rays' alone.
pub open spec fn octant_prop(c: Point, r2: int, vertical: bool, maj_sign: int, q: Point) -> bool {
    &&& soft_dist2(c.x as int, c.y as int, q.x as int, q.y as int) <= 4 * r2
    &&& (vertical ==> (if maj_sign < 0 { q.y < c.y } else { q.y > c.y }) && q.x != c.x)
    &&& (!vertical ==> (if maj_sign < 0 { q.x < c.x } else { q.x > c.x }) && q.y != c.y)
}

/// Transient state of one field-of-view computation: the center, the grid
/// dimensions, the squared range with the distance `dmax` at which scans
/// stop, and the set of visible cells collected so far.
struct ScanFovData {
    center: Point,
    dimensions: Point,
    range_2: i32,
    dmax: i32,
    visible_points: Vec<Point>,
}

impl ScanFovData {
    /// The scan state is consistent with the grid `m`.
    spec fn sf_wf(self, m: GridMap) -> bool {
        &&& m.wf()
        &&& self.dimensions.x == m.width
        &&& self.dimensions.y == m.height
        &&& 1 <= self.range_2 <= MAX_RANGE * MAX_RANGE
        &&& 1 <= self.dmax <= MAX_RANGE
        &&& -0x10_0000 <= self.center.x <= 0x10_0000
        &&& -0x10_0000 <= self.center.y <= 0x10_0000
        &&& pts_unique(self.visible_points@)
    }

    /// Everything but the collected set is unchanged.
    spec fn same_frame(self, other: ScanFovData) -> bool {
        &&& self.center == other.center
        &&& self.dimensions == other.dimensions
        &&& self.range_2 == other.range_2
        &&& self.dmax == other.dmax
    }

    /// Records one cell reached by a column sweep: the cell enters the set
    /// when it passes the softened range test and is off the center's own
    /// column; the sweep keeps going past it only if it is transparent and
    /// in range.
    fn insert_visible_for_vertical(&mut self, map: &GridMap, point: Point) -> (is_visible: bool)
        requires
            old(self).sf_wf(*map),
            -0x20_0000 <= point.x <= 0x20_0000,
            -0x20_0000 <= point.y <= 0x20_0000,
        ensures
            final(self).sf_wf(*map),
            final(self).same_frame(*old(self)),
            forall|q: Point| #![trigger seq_has_pt(final(self).visible_points@, q)]
                seq_has_pt(final(self).visible_points@, q)
                    <==> (seq_has_pt(old(self).visible_points@, q)
                        || (q == point
                            && soft_dist2(old(self).center.x as int, old(self).center.y as int,
                                    point.x as int, point.y as int) <= 4 * old(self).range_2
                            && point.x != old(self).center.x)),
            is_visible == (map.spec_in_bounds(point.x as int, point.y as int)
                && !map.opaque_at(map.idx_of(point.x as int, point.y as int))
                && soft_dist2(old(self).center.x as int, old(self).center.y as int,
                        point.x as int, point.y as int) <= 4 * old(self).range_2),
    {
        let mut is_visible: bool = transparent_at(map, point);

        if within_soft_range(self.center, self.range_2, point) {
            if point.x != self.center.x {
                insert_pt(&mut self.visible_points, point);
            }
        } else {
            is_visible = false;
        }
        is_visible
    }

    /// Records one cell reached by a row sweep, skipping the center's own
    /// row instead of its column; otherwise as the column variant.
    fn insert_visible_for_horizontal(&mut self, map: &GridMap, point: Point) -> (is_visible: bool)
        requires
            old(self).sf_wf(*map),
            -0x20_0000 <= point.x <= 0x20_0000,
            -0x20_0000 <= point.y <= 0x20_0000,
        ensures
            final(self).sf_wf(*map),
            final(self).same_frame(*old(self)),
            forall|q: Point| #![trigger seq_has_pt(final(self).visible_points@, q)]
                seq_has_pt(final(self).visible_points@, q)
                    <==> (seq_has_pt(old(self).visible_points@, q)
                        || (q == point
                            && soft_dist2(old(self).center.x as int, old(self).center.y as int,
                                    point.x as int, point.y as int) <= 4 * old(self).range_2
                            && point.y != old(self).center.y)),
            is_visible == (map.spec_in_bounds(point.x as int, point.y as int)
                && !map.opaque_at(map.idx_of(point.x as int, point.y as int))
                && soft_dist2(old(self).center.x as int, old(self).center.y as int,
                        point.x as int, point.y as int) <= 4 * old(self).range_2),
    {
        let mut is_visible: bool = transparent_at(map, point);

        if within_soft_range(self.center, self.range_2, point) {
            if self.center.y != point.y {
                insert_pt(&mut self.visible_points, point);
            }
        } else {
            is_visible = false;
        }
        is_visible
    }

    /// One octant of the recursive shadowcast. All eight octants share this
    /// algorithm: `vertical` picks whether rows of constant y (the north and
    /// south sectors) or columns of constant x (east and west) are swept,
    /// `major_sign` picks which side of the center, and `minor_sign` the
    /// direction of the sweep within the row. The scan visits the cells of
    /// the row at `distance` whose angular position falls between
    /// `start_slope` and `end_slope`, then recurses to the next distance:
    /// immediately with a narrowed end slope when the sweep runs from light
    /// into shadow, and once at the end if the row finished in light.
    fn scan_octant(
        &mut self,
        map: &GridMap,
        vertical: bool,
        major_sign: i32,
        minor_sign: i32,
        distance: i32,
        start_slope: Slope,
        end_slope: Slope,
    )
        requires
            old(self).sf_wf(*map),
            major_sign == 1 || major_sign == -1,
            minor_sign == 1 || minor_sign == -1,
            1 <= distance <= MAX_RANGE + 1,
            slope_wf(start_slope),
            slope_wf(end_slope),
        ensures
            final(self).sf_wf(*map),
            final(self).same_frame(*old(self)),
            forall|q: Point| #![trigger seq_has_pt(old(self).visible_points@, q)]
                seq_has_pt(old(self).visible_points@, q)
                    ==> seq_has_pt(final(self).visible_points@, q),
            forall|q: Point| #![trigger seq_has_pt(final(self).visible_points@, q)]
                seq_has_pt(final(self).visible_points@, q)
                    && !seq_has_pt(old(self).visible_points@, q)
                    ==> octant_prop(old(self).center, old(self).range_2 as int, vertical,
                            major_sign as int, q),
        decreases old(self).dmax + 1 - distance,
    {
        if distance > self.dmax {
            return;
        }

        let cmaj: i32 = if vertical { self.center.y } else { self.center.x };
        let cmin: i32 = if vertical { self.center.x } else { self.center.y };
        let dim_maj: i32 = if vertical { self.dimensions.y } else { self.dimensions.x };
        let dim_min: i32 = if vertical { self.dimensions.x } else { self.dimensions.y };

        let maj: i32 = if major_sign > 0 { cmaj + distance } else { cmaj - distance };
        if major_sign > 0 {
            if maj >= dim_maj {
                return;
            }
        } else {
            if maj < 0 {
                return;
            }
        }

        let o_start: i32 = slope_offset(start_slope, distance);
        let pos_start: i32 = if minor_sign > 0 { cmin + o_start } else { cmin - o_start };
        if minor_sign > 0 {
            if pos_start >= dim_min {
                return;
            }
        } else {
            if pos_start < 0 {
                return;
            }
        }

        let o_end: i32 = slope_offset(end_slope, distance);
        let mut pos_end: i32 = if minor_sign > 0 { cmin + o_end } else { cmin - o_end };
        if minor_sign > 0 {
            if pos_end >= dim_min {
                pos_end = dim_min - 1;
            }
        } else {
            if pos_end < 0 {
                pos_end = 0;
            }
        }

        let first = if vertical {
            Point { x: pos_start, y: maj }
        } else {
            Point { x: maj, y: pos_start }
        };
        let mut last_visible: bool = transparent_at(map, first);
        let mut cur_start: Slope = start_slope;
        let mut pos: i32 = pos_start;

        while (minor_sign > 0 && pos <= pos_end) || (minor_sign < 0 && pos >= pos_end)
            invariant
                self.sf_wf(*map),
                self.same_frame(*old(self)),
                major_sign == 1 || major_sign == -1,
                minor_sign == 1 || minor_sign == -1,
                1 <= distance <= self.dmax,
                self.dmax <= MAX_RANGE,
                cmaj == if vertical { self.center.y } else { self.center.x },
                cmin == if vertical { self.center.x } else { self.center.y },
                dim_min == if vertical { self.dimensions.x } else { self.dimensions.y },
                maj == if major_sign > 0 { cmaj + distance } else { cmaj - distance },
                slope_wf(cur_start),
                -(distance - 1) <= (if minor_sign > 0 { pos - cmin } else { cmin - pos }),
                (if minor_sign > 0 { pos - cmin } else { cmin - pos }) <= distance + 1,
                (if minor_sign > 0 { pos_end - cmin } else { cmin - pos_end }) <= distance,
                forall|q: Point| #![trigger seq_has_pt(old(self).visible_points@, q)]
                    seq_has_pt(old(self).visible_points@, q)
                        ==> seq_has_pt(self.visible_points@, q),
                forall|q: Point| #![trigger seq_has_pt(self.visible_points@, q)]
                    seq_has_pt(self.visible_points@, q)
                        && !seq_has_pt(old(self).visible_points@, q)
                        ==> octant_prop(old(self).center, old(self).range_2 as int, vertical,
                                major_sign as int, q),
            decreases (if minor_sign > 0 { pos_end + 1 - pos } else { pos + 1 - pos_end }),
        {
            let ghost s_before = self.visible_points@;
            let current = if vertical {
                Point { x: pos, y: maj }
            } else {
                Point { x: maj, y: pos }
            };
            let is_visible = if vertical {
                self.insert_visible_for_vertical(map, current)
            } else {
                self.insert_visible_for_horizontal(map, current)
            };
            let ghost s_mid = self.visible_points@;
            let o: i32 = if minor_sign > 0 { pos - cmin } else { cmin - pos };

            if last_visible && !is_visible {
                // Light runs into shadow: scan the next row now, closing the
                // window at the corner of the obstacle.
                let new_end = Slope { num: 2 * o - 1, den: 2 * distance + 1 };
                self.scan_octant(map, vertical, major_sign, minor_sign, distance + 1,
                    cur_start, new_end);
            } else if !last_visible && is_visible {
                // Shadow opens back into light: narrow the window's start
                // for the rest of this row.
                cur_start = Slope { num: 2 * o - 1, den: 2 * distance - 1 };
            }
            last_visible = is_visible;
            pos = if minor_sign > 0 { pos + 1 } else { pos - 1 };
            proof {
                assert forall|q: Point| #![trigger seq_has_pt(old(self).visible_points@, q)]
                    seq_has_pt(old(self).visible_points@, q)
                        implies seq_has_pt(self.visible_points@, q) by {
                    assert(seq_has_pt(s_before, q));
                    assert(seq_has_pt(s_mid, q));
                }
                assert forall|q: Point| #![trigger seq_has_pt(self.visible_points@, q)]
                    seq_has_pt(self.visible_points@, q)
                        && !seq_has_pt(old(self).visible_points@, q)
                        implies octant_prop(old(self).center, old(self).range_2 as int, vertical,
                                major_sign as int, q) by {
                    if seq_has_pt(s_mid, q) {
                        if !seq_has_pt(s_before, q) {
                            assert(q == current);
                        }
                    }
                }
            }
        }
        if last_visible {
            self.scan_octant(map, vertical, major_sign, minor_sign, distance + 1,
                cur_start, end_slope);
        }
    }
}

} // verus!

verus! {

/// Runs the two octant scans of one cardinal sector, if its principal ray
/// found any open cell to look past.
fn scan_sector(
    sc: &mut ScanFovData,
    map: &GridMap,
    active: bool,
    vertical: bool,
    major_sign: i32,
    minor_a: i32,
    minor_b: i32,
)
    requires
        old(sc).sf_wf(*map),
        major_sign == 1 || major_sign == -1,
        minor_a == 1 || minor_a == -1,
        minor_b == 1 || minor_b == -1,
    ensures
        final(sc).sf_wf(*map),
        final(sc).same_frame(*old(sc)),
        forall|q: Point|
            #![trigger seq_has_pt(old(sc).visible_points@, q)]
            #![trigger seq_has_pt(final(sc).visible_points@, q)]
            seq_has_pt(old(sc).visible_points@, q)
                ==> seq_has_pt(final(sc).visible_points@, q),
        forall|q: Point| #![trigger seq_has_pt(final(sc).visible_points@, q)]
            seq_has_pt(final(sc).visible_points@, q)
                && !seq_has_pt(old(sc).visible_points@, q)
                ==> octant_prop(old(sc).center, old(sc).range_2 as int, vertical,
                        major_sign as int, q),
{
    if !active {
        return;
    }
    let zero = Slope { num: 0, den: 1 };
    let one = Slope { num: 1, den: 1 };
    sc.scan_octant(map, vertical, major_sign, minor_a, 1, zero, one);
    let ghost mid = sc.visible_points@;
    sc.scan_octant(map, vertical, major_sign, minor_b, 1, zero, one);
    proof {
        assert forall|q: Point| #![trigger seq_has_pt(sc.visible_points@, q)]
            seq_has_pt(sc.visible_points@, q) && !seq_has_pt(old(sc).visible_points@, q)
                implies octant_prop(old(sc).center, old(sc).range_2 as int, vertical,
                        major_sign as int, q) by {
            if seq_has_pt(mid, q) {
                assert(octant_prop(old(sc).center, old(sc).range_2 as int, vertical,
                        major_sign as int, q));
            }
        }
    }
}

/// Computes the set of cells visible from `center` out to `range`,
/// accounting for opacity. The result always lies on the grid and, for a
/// positive range, inside the softened range diamond; the center itself is
/// visible whenever it lies on the grid; a degenerate range shows at most
/// the center. Along each of the four cardinal rays the result is exact:
/// a cell straight out from the center is visible precisely when every
/// step out to it stays on the grid and in range and no step before it is
/// opaque, so an opaque cell is seen but hides everything behind it.
/// The result depends only on the center, the range and the grid, so equal
/// inputs always yield sets with equal membership.
pub fn field_of_view_set(center: Point, range: i32, map: &GridMap) -> (r: Vec<Point>)
    requires
        map.wf(),
        range <= MAX_RANGE,
        -0x10_0000 <= center.x <= 0x10_0000,
        -0x10_0000 <= center.y <= 0x10_0000,
    ensures
        pts_unique(r@),
        forall|q: Point| #![trigger seq_has_pt(r@, q)] seq_has_pt(r@, q)
            ==> map.spec_in_bounds(q.x as int, q.y as int),
        map.spec_in_bounds(center.x as int, center.y as int) ==> seq_has_pt(r@, center),
        forall|q: Point| #![trigger seq_has_pt(r@, q)] seq_has_pt(r@, q) && q != center
            ==> range >= 1
                && soft_dist2(center.x as int, center.y as int, q.x as int, q.y as int)
                    <= 4 * (range * range),
        forall|q: Point, k: int|
            #![trigger seq_has_pt(r@, q), on_ray_at(center, 0, -1, q, k)]
            1 <= k && on_ray_at(center, 0, -1, q, k)
                ==> (seq_has_pt(r@, q) <==> (range >= 1
                    && ray_visible(*map, center, 0, -1, range * range, k))),
        forall|q: Point, k: int|
            #![trigger seq_has_pt(r@, q), on_ray_at(center, 0, 1, q, k)]
            1 <= k && on_ray_at(center, 0, 1, q, k)
                ==> (seq_has_pt(r@, q) <==> (range >= 1
                    && ray_visible(*map, center, 0, 1, range * range, k))),
        forall|q: Point, k: int|
            #![trigger seq_has_pt(r@, q), on_ray_at(center, -1, 0, q, k)]
            1 <= k && on_ray_at(center, -1, 0, q, k)
                ==> (seq_has_pt(r@, q) <==> (range >= 1
                    && ray_visible(*map, center, -1, 0, range * range, k))),
        forall|q: Point, k: int|
            #![trigger seq_has_pt(r@, q), on_ray_at(center, 1, 0, q, k)]
            1 <= k && on_ray_at(center, 1, 0, q, k)
                ==> (seq_has_pt(r@, q) <==> (range >= 1
                    && ray_visible(*map, center, 1, 0, range * range, k))),
{
    if range <= 0 {
        let mut out: Vec<Point> = Vec::new();
        if map.in_bounds(center.x, center.y) {
            out.push(center);
        }
        proof {
            if map.spec_in_bounds(center.x as int, center.y as int) {
                assert(out@[0] == center);
                assert(seq_has_pt(out@, center));
            }
            assert forall|q: Point| #![trigger seq_has_pt(out@, q)]
                seq_has_pt(out@, q) implies q == center by {}
        }
        return out;
    }
    proof {
        assert(1 <= range * range <= 46340 * 46340) by (nonlinear_arith)
            requires 1 <= range <= 46340;
    }
    let r2: i32 = range * range;
    let ghost r2i = r2 as int;

    let mut visible: Vec<Point> = Vec::new();
    visible.push(center);
    let ghost s0 = visible@;
    proof {
        assert(s0[0] == center);
        assert forall|q: Point| #![trigger seq_has_pt(s0, q)]
            seq_has_pt(s0, q) <==> q == center by {
            if seq_has_pt(s0, q) {
                let i0 = choose|i0: int| 0 <= i0 < s0.len() && s0[i0] == q;
                assert(i0 == 0);
            }
        }
    }

    // Probe the eight principal rays; a cardinal sector is scanned in full
    // only when its ray found an open cell to look past.
    let act_n: bool = scan_ray(map, center, 0, -1, r2, &mut visible);
    let ghost s1 = visible@;
    let _act_ne: bool = scan_ray(map, center, 1, -1, r2, &mut visible);
    let ghost s2 = visible@;
    let act_e: bool = scan_ray(map, center, 1, 0, r2, &mut visible);
    let ghost s3 = visible@;
    let _act_se: bool = scan_ray(map, center, 1, 1, r2, &mut visible);
    let ghost s4 = visible@;
    let act_s: bool = scan_ray(map, center, 0, 1, r2, &mut visible);
    let ghost s5 = visible@;
    let _act_sw: bool = scan_ray(map, center, -1, 1, r2, &mut visible);
    let ghost s6 = visible@;
    let act_w: bool = scan_ray(map, center, -1, 0, r2, &mut visible);
    let ghost s7 = visible@;
    let _act_nw: bool = scan_ray(map, center, -1, -1, r2, &mut visible);
    let ghost s8 = visible@;

    let mut scanner = ScanFovData {
        center,
        dimensions: Point { x: map.width, y: map.height },
        range_2: r2,
        dmax: range,
        visible_points: visible,
    };
    scan_sector(&mut scanner, map, act_n, true, -1, -1, 1);
    let ghost u1 = scanner.visible_points@;
    scan_sector(&mut scanner, map, act_e, false, 1, -1, 1);
    let ghost u2 = scanner.visible_points@;
    scan_sector(&mut scanner, map, act_s, true, 1, 1, -1);
    let ghost u3 = scanner.visible_points@;
    scan_sector(&mut scanner, map, act_w, false, -1, 1, -1);
    let ghost st = scanner.visible_points@;

    proof {
        // Nothing a sector scan adds lies on the center's own row or column,
        // and everything it adds lies within the softened range.
        assert forall|q: Point| #![trigger seq_has_pt(st, q)]
            seq_has_pt(st, q) && !seq_has_pt(s8, q)
                implies q.x != center.x && q.y != center.y
                    && soft_dist2(center.x as int, center.y as int, q.x as int, q.y as int)
                        <= 4 * r2i by {
            if !seq_has_pt(u3, q) {
                assert(octant_prop(center, r2i, false, -1, q));
            } else if !seq_has_pt(u2, q) {
                assert(octant_prop(center, r2i, true, 1, q));
            } else if !seq_has_pt(u1, q) {
                assert(octant_prop(center, r2i, false, 1, q));
            } else {
                assert(octant_prop(center, r2i, true, -1, q));
            }
        }
    }

    // Keep only the cells that lie on the grid.
    let mut result: Vec<Point> = Vec::new();
    let total: usize = scanner.visible_points.len();
    let mut i: usize = 0;
    while i < total
        invariant
            i <= total,
            map.wf(),
            total == scanner.visible_points@.len(),
            scanner.visible_points@ == st,
            pts_unique(result@),
            forall|q: Point| #![trigger seq_has_pt(result@, q)] seq_has_pt(result@, q)
                ==> seq_has_pt(st, q) && map.spec_in_bounds(q.x as int, q.y as int),
            forall|j: int| 0 <= j < i
                ==> (map.spec_in_bounds(st[j].x as int, st[j].y as int)
                    ==> seq_has_pt(result@, #[trigger] st[j])),
        decreases total - i,
    {
        let p: Point = scanner.visible_points[i];
        if map.in_bounds(p.x, p.y) {
            insert_pt(&mut result, p);
        }
        i = i + 1;
    }

    proof {
        // Membership of the filtered list is membership of the scan set,
        // restricted to the grid.
        assert forall|q: Point| #![trigger seq_has_pt(result@, q)]
            seq_has_pt(result@, q)
                <==> (seq_has_pt(st, q) && map.spec_in_bounds(q.x as int, q.y as int)) by {
            if seq_has_pt(st, q) && map.spec_in_bounds(q.x as int, q.y as int) {
                let j = choose|j: int| 0 <= j < st.len() && st[j] == q;
                assert(seq_has_pt(result@, st[j]));
            }
        }

        // The center survives every phase.
        if map.spec_in_bounds(center.x as int, center.y as int) {
            assert(seq_has_pt(s0, center));
            assert(seq_has_pt(s1, center));
            assert(seq_has_pt(s2, center));
            assert(seq_has_pt(s3, center));
            assert(seq_has_pt(s4, center));
            assert(seq_has_pt(s5, center));
            assert(seq_has_pt(s6, center));
            assert(seq_has_pt(s7, center));
            assert(seq_has_pt(s8, center));
            assert(seq_has_pt(u1, center));
            assert(seq_has_pt(u2, center));
            assert(seq_has_pt(u3, center));
            assert(seq_has_pt(st, center));
            assert(seq_has_pt(result@, center));
        }

        // Everything but the center lies within the softened range.
        assert forall|q: Point| #![trigger seq_has_pt(result@, q)]
            seq_has_pt(result@, q) && q != center
                implies soft_dist2(center.x as int, center.y as int, q.x as int, q.y as int)
                    <= 4 * r2i by {
            assert(seq_has_pt(st, q));
            if seq_has_pt(s8, q) {
                if !seq_has_pt(s7, q) {
                } else if !seq_has_pt(s6, q) {
                } else if !seq_has_pt(s5, q) {
                } else if !seq_has_pt(s4, q) {
                } else if !seq_has_pt(s3, q) {
                } else if !seq_has_pt(s2, q) {
                } else if !seq_has_pt(s1, q) {
                } else if !seq_has_pt(s0, q) {
                } else {
                    assert(q == center);
                }
            }
        }

        // Along each cardinal ray the outcome is exactly the ray probe's.
        assert forall|q: Point, k: int|
            #![trigger seq_has_pt(result@, q), on_ray_at(center, 0, -1, q, k)]
            1 <= k && on_ray_at(center, 0, -1, q, k) implies
                (seq_has_pt(result@, q)
                    <==> ray_visible(*map, center, 0, -1, r2i, k)) by {
            if exists|j: int| #![trigger on_ray_at(center, 1, -1, q, j)]
                on_ray_at(center, 1, -1, q, j)
                    && ray_visible(*map, center, 1, -1, r2i, j) {
                let j = choose|j: int| #![trigger on_ray_at(center, 1, -1, q, j)]
                    on_ray_at(center, 1, -1, q, j)
                        && ray_visible(*map, center, 1, -1, r2i, j);
                assert(false);
            }
            if exists|j: int| #![trigger on_ray_at(center, 1, 0, q, j)]
                on_ray_at(center, 1, 0, q, j)
                    && ray_visible(*map, center, 1, 0, r2i, j) {
                let j = choose|j: int| #![trigger on_ray_at(center, 1, 0, q, j)]
                    on_ray_at(center, 1, 0, q, j)
                        && ray_visible(*map, center, 1, 0, r2i, j);
                assert(false);
            }
            if exists|j: int| #![trigger on_ray_at(center, 1, 1, q, j)]
                on_ray_at(center, 1, 1, q, j)
                    && ray_visible(*map, center, 1, 1, r2i, j) {
                let j = choose|j: int| #![trigger on_ray_at(center, 1, 1, q, j)]
                    on_ray_at(center, 1, 1, q, j)
                        && ray_visible(*map, center, 1, 1, r2i, j);
                assert(false);
            }
            if exists|j: int| #![trigger on_ray_at(center, 0, 1, q, j)]
                on_ray_at(center, 0, 1, q, j)
                    && ray_visible(*map, center, 0, 1, r2i, j) {
                let j = choose|j: int| #![trigger on_ray_at(center, 0, 1, q, j)]
                    on_ray_at(center, 0, 1, q, j)
                        && ray_visible(*map, center, 0, 1, r2i, j);
                assert(false);
            }
            if exists|j: int| #![trigger on_ray_at(center, -1, 1, q, j)]
                on_ray_at(center, -1, 1, q, j)
                    && ray_visible(*map, center, -1, 1, r2i, j) {
                let j = choose|j: int| #![trigger on_ray_at(center, -1, 1, q, j)]
                    on_ray_at(center, -1, 1, q, j)
                        && ray_visible(*map, center, -1, 1, r2i, j);
                assert(false);
            }
            if exists|j: int| #![trigger on_ray_at(center, -1, 0, q, j)]
                on_ray_at(center, -1, 0, q, j)
                    && ray_visible(*map, center, -1, 0, r2i, j) {
                let j = choose|j: int| #![trigger on_ray_at(center, -1, 0, q, j)]
                    on_ray_at(center, -1, 0, q, j)
                        && ray_visible(*map, center, -1, 0, r2i, j);
                assert(false);
            }
            if exists|j: int| #![trigger on_ray_at(center, -1, -1, q, j)]
                on_ray_at(center, -1, -1, q, j)
                    && ray_visible(*map, center, -1, -1, r2i, j) {
                let j = choose|j: int| #![trigger on_ray_at(center, -1, -1, q, j)]
                    on_ray_at(center, -1, -1, q, j)
                        && ray_visible(*map, center, -1, -1, r2i, j);
                assert(false);
            }
            assert(q != center);
            assert(!seq_has_pt(s0, q));
            if seq_has_pt(result@, q) {
                assert(seq_has_pt(st, q));
                assert(seq_has_pt(s8, q));
                assert(seq_has_pt(s7, q));
                assert(seq_has_pt(s6, q));
                assert(seq_has_pt(s5, q));
                assert(seq_has_pt(s4, q));
                assert(seq_has_pt(s3, q));
                assert(seq_has_pt(s2, q));
                assert(seq_has_pt(s1, q));
                let j = choose|j: int| #![trigger on_ray_at(center, 0, -1, q, j)]
                    on_ray_at(center, 0, -1, q, j)
                        && ray_visible(*map, center, 0, -1, r2i, j);
                assert(j == k);
            } else {
                if ray_visible(*map, center, 0, -1, r2i, k) {
                    assert(on_ray_at(center, 0, -1, q, k)
                        && ray_visible(*map, center, 0, -1, r2i, k));
                    assert(seq_has_pt(s1, q));
                    assert(seq_has_pt(s8, q));
                    assert(seq_has_pt(st, q));
                    assert(ray_admissible(*map, center, 0, -1, r2i, k));
                    assert(map.spec_in_bounds(q.x as int, q.y as int));
                    assert(seq_has_pt(result@, q));
                    assert(false);
                }
            }
        }
        assert forall|q: Point, k: int|
            #![trigger seq_has_pt(result@, q), on_ray_at(center, 0, 1, q, k)]
            1 <= k && on_ray_at(center, 0, 1, q, k) implies
                (seq_has_pt(result@, q)
                    <==> ray_visible(*map, center, 0, 1, r2i, k)) by {
            if exists|j: int| #![trigger on_ray_at(center, 0, -1, q, j)]
                on_ray_at(center, 0, -1, q, j)
                    && ray_visible(*map, center, 0, -1, r2i, j) {
                let j = choose|j: int| #![trigger on_ray_at(center, 0, -1, q, j)]
                    on_ray_at(center, 0, -1, q, j)
                        && ray_visible(*map, center, 0, -1, r2i, j);
                assert(false);
            }
            if exists|j: int| #![trigger on_ray_at(center, 1, -1, q, j)]
                on_ray_at(center, 1, -1, q, j)
                    && ray_visible(*map, center, 1, -1, r2i, j) {
                let j = choose|j: int| #![trigger on_ray_at(center, 1, -1, q, j)]
                    on_ray_at(center, 1, -1, q, j)
                        && ray_visible(*map, center, 1, -1, r2i, j);
                assert(false);
            }
            if exists|j: int| #![trigger on_ray_at(center, 1, 0, q, j)]
                on_ray_at(center, 1, 0, q, j)
                    && ray_visible(*map, center, 1, 0, r2i, j) {
                let j = choose|j: int| #![trigger on_ray_at(center, 1, 0, q, j)]
                    on_ray_at(center, 1, 0, q, j)
                        && ray_visible(*map, center, 1, 0, r2i, j);
                assert(false);
            }
            if exists|j: int| #![trigger on_ray_at(center, 1, 1, q, j)]
                on_ray_at(center, 1, 1, q, j)
                    && ray_visible(*map, center, 1, 1, r2i, j) {
                let j = choose|j: int| #![trigger on_ray_at(center, 1, 1, q, j)]
                    on_ray_at(center, 1, 1, q, j)
                        && ray_visible(*map, center, 1, 1, r2i, j);
                assert(false);
            }
            if exists|j: int| #![trigger on_ray_at(center, -1, 1, q, j)]
                on_ray_at(center, -1, 1, q, j)
                    && ray_visible(*map, center, -1, 1, r2i, j) {
                let j = choose|j: int| #![trigger on_ray_at(center, -1, 1, q, j)]
                    on_ray_at(center, -1, 1, q, j)
                        && ray_visible(*map, center, -1, 1, r2i, j);
                assert(false);
            }
            if exists|j: int| #![trigger on_ray_at(center, -1, 0, q, j)]
                on_ray_at(center, -1, 0, q, j)
                    && ray_visible(*map, center, -1, 0, r2i, j) {
                let j = choose|j: int| #![trigger on_ray_at(center, -1, 0, q, j)]
                    on_ray_at(center, -1, 0, q, j)
                        && ray_visible(*map, center, -1, 0, r2i, j);
                assert(false);
            }
            if exists|j: int| #![trigger on_ray_at(center, -1, -1, q, j)]
                on_ray_at(center, -1, -1, q, j)
                    && ray_visible(*map, center, -1, -1, r2i, j) {
                let j = choose|j: int| #![trigger on_ray_at(center, -1, -1, q, j)]
                    on_ray_at(center, -1, -1, q, j)
                        && ray_visible(*map, center, -1, -1, r2i, j);
                assert(false);
            }
            assert(q != center);
            assert(!seq_has_pt(s0, q));
            assert(!seq_has_pt(s1, q));
            assert(!seq_has_pt(s2, q));
            assert(!seq_has_pt(s3, q));
            assert(!seq_has_pt(s4, q));
            if seq_has_pt(result@, q) {
                assert(seq_has_pt(st, q));
                assert(seq_has_pt(s8, q));
                assert(seq_has_pt(s7, q));
                assert(seq_has_pt(s6, q));
                assert(seq_has_pt(s5, q));
                let j = choose|j: int| #![trigger on_ray_at(center, 0, 1, q, j)]
                    on_ray_at(center, 0, 1, q, j)
                        && ray_visible(*map, center, 0, 1, r2i, j);
                assert(j == k);
            } else {
                if ray_visible(*map, center, 0, 1, r2i, k) {
                    assert(on_ray_at(center, 0, 1, q, k)
                        && ray_visible(*map, center, 0, 1, r2i, k));
                    assert(seq_has_pt(s5, q));
                    assert(seq_has_pt(s8, q));
                    assert(seq_has_pt(st, q));
                    assert(ray_admissible(*map, center, 0, 1, r2i, k));
                    assert(map.spec_in_bounds(q.x as int, q.y as int));
                    assert(seq_has_pt(result@, q));
                    assert(false);
                }
            }
        }
        assert forall|q: Point, k: int|
            #![trigger seq_has_pt(result@, q), on_ray_at(center, -1, 0, q, k)]
            1 <= k && on_ray_at(center, -1, 0, q, k) implies
                (seq_has_pt(result@, q)
                    <==> ray_visible(*map, center, -1, 0, r2i, k)) by {
            if exists|j: int| #![trigger on_ray_at(center, 0, -1, q, j)]
                on_ray_at(center, 0, -1, q, j)
                    && ray_visible(*map, center, 0, -1, r2i, j) {
                let j = choose|j: int| #![trigger on_ray_at(center, 0, -1, q, j)]
                    on_ray_at(center, 0, -1, q, j)
                        && ray_visible(*map, center, 0, -1, r2i, j);
                assert(false);
            }
            if exists|j: int| #![trigger on_ray_at(center, 1, -1, q, j)]
                on_ray_at(center, 1, -1, q, j)
                    && ray_visible(*map, center, 1, -1, r2i, j) {
                let j = choose|j: int| #![trigger on_ray_at(center, 1, -1, q, j)]
                    on_ray_at(center, 1, -1, q, j)
                        && ray_visible(*map, center, 1, -1, r2i, j);
                assert(false);
            }
            if exists|j: int| #![trigger on_ray_at(center, 1, 0, q, j)]
                on_ray_at(center, 1, 0, q, j)
                    && ray_visible(*map, center, 1, 0, r2i, j) {
                let j = choose|j: int| #![trigger on_ray_at(center, 1, 0, q, j)]
                    on_ray_at(center, 1, 0, q, j)
                        && ray_visible(*map, center, 1, 0, r2i, j);
                assert(false);
            }
            if exists|j: int| #![trigger on_ray_at(center, 1, 1, q, j)]
                on_ray_at(center, 1, 1, q, j)
                    && ray_visible(*map, center, 1, 1, r2i, j) {
                let j = choose|j: int| #![trigger on_ray_at(center, 1, 1, q, j)]
                    on_ray_at(center, 1, 1, q, j)
                        && ray_visible(*map, center, 1, 1, r2i, j);
                assert(false);
            }
            if exists|j: int| #![trigger on_ray_at(center, 0, 1, q, j)]
                on_ray_at(center, 0, 1, q, j)
                    && ray_visible(*map, center, 0, 1, r2i, j) {
                let j = choose|j: int| #![trigger on_ray_at(center, 0, 1, q, j)]
                    on_ray_at(center, 0, 1, q, j)
                        && ray_visible(*map, center, 0, 1, r2i, j);
                assert(false);
            }
            if exists|j: int| #![trigger on_ray_at(center, -1, 1, q, j)]
                on_ray_at(center, -1, 1, q, j)
                    && ray_visible(*map, center, -1, 1, r2i, j) {
                let j = choose|j: int| #![trigger on_ray_at(center, -1, 1, q, j)]
                    on_ray_at(center, -1, 1, q, j)
                        && ray_visible(*map, center, -1, 1, r2i, j);
                assert(false);
            }
            if exists|j: int| #![trigger on_ray_at(center, -1, -1, q, j)]
                on_ray_at(center, -1, -1, q, j)
                    && ray_visible(*map, center, -1, -1, r2i, j) {
                let j = choose|j: int| #![trigger on_ray_at(center, -1, -1, q, j)]
                    on_ray_at(center, -1, -1, q, j)
                        && ray_visible(*map, center, -1, -1, r2i, j);
                assert(false);
            }
            assert(q != center);
            assert(!seq_has_pt(s0, q));
            assert(!seq_has_pt(s1, q));
            assert(!seq_has_pt(s2, q));
            assert(!seq_has_pt(s3, q));
            assert(!seq_has_pt(s4, q));
            assert(!seq_has_pt(s5, q));
            assert(!seq_has_pt(s6, q));
            if seq_has_pt(result@, q) {
                assert(seq_has_pt(st, q));
                assert(seq_has_pt(s8, q));
                assert(seq_has_pt(s7, q));
                let j = choose|j: int| #![trigger on_ray_at(center, -1, 0, q, j)]
                    on_ray_at(center, -1, 0, q, j)
                        && ray_visible(*map, center, -1, 0, r2i, j);
                assert(j == k);
            } else {
                if ray_visible(*map, center, -1, 0, r2i, k) {
                    assert(on_ray_at(center, -1, 0, q, k)
                        && ray_visible(*map, center, -1, 0, r2i, k));
                    assert(seq_has_pt(s7, q));
                    assert(seq_has_pt(s8, q));
                    assert(seq_has_pt(st, q));
                    assert(ray_admissible(*map, center, -1, 0, r2i, k));
                    assert(map.spec_in_bounds(q.x as int, q.y as int));
                    assert(seq_has_pt(result@, q));
                    assert(false);
                }
            }
        }
        assert forall|q: Point, k: int|
            #![trigger seq_has_pt(result@, q), on_ray_at(center, 1, 0, q, k)]
            1 <= k && on_ray_at(center, 1, 0, q, k) implies
                (seq_has_pt(result@, q)
                    <==> ray_visible(*map, center, 1, 0, r2i, k)) by {
            if exists|j: int| #![trigger on_ray_at(center, 0, -1, q, j)]
                on_ray_at(center, 0, -1, q, j)
                    && ray_visible(*map, center, 0, -1, r2i, j) {
                let j = choose|j: int| #![trigger on_ray_at(center, 0, -1, q, j)]
                    on_ray_at(center, 0, -1, q, j)
                        && ray_visible(*map, center, 0, -1, r2i, j);
                assert(false);
            }
            if exists|j: int| #![trigger on_ray_at(center, 1, -1, q, j)]
                on_ray_at(center, 1, -1, q, j)
                    && ray_visible(*map, center, 1, -1, r2i, j) {
                let j = choose|j: int| #![trigger on_ray_at(center, 1, -1, q, j)]
                    on_ray_at(center, 1, -1, q, j)
                        && ray_visible(*map, center, 1, -1, r2i, j);
                assert(false);
            }
            if exists|j: int| #![trigger on_ray_at(center, 1, 1, q, j)]
                on_ray_at(center, 1, 1, q, j)
                    && ray_visible(*map, center, 1, 1, r2i, j) {
                let j = choose|j: int| #![trigger on_ray_at(center, 1, 1, q, j)]
                    on_ray_at(center, 1, 1, q, j)
                        && ray_visible(*map, center, 1, 1, r2i, j);
                assert(false);
            }
            if exists|j: int| #![trigger on_ray_at(center, 0, 1, q, j)]
                on_ray_at(center, 0, 1, q, j)
                    && ray_visible(*map, center, 0, 1, r2i, j) {
                let j = choose|j: int| #![trigger on_ray_at(center, 0, 1, q, j)]
                    on_ray_at(center, 0, 1, q, j)
                        && ray_visible(*map, center, 0, 1, r2i, j);
                assert(false);
            }
            if exists|j: int| #![trigger on_ray_at(center, -1, 1, q, j)]
                on_ray_at(center, -1, 1, q, j)
                    && ray_visible(*map, center, -1, 1, r2i, j) {
                let j = choose|j: int| #![trigger on_ray_at(center, -1, 1, q, j)]
                    on_ray_at(center, -1, 1, q, j)
                        && ray_visible(*map, center, -1, 1, r2i, j);
                assert(false);
            }
            if exists|j: int| #![trigger on_ray_at(center, -1, 0, q, j)]
                on_ray_at(center, -1, 0, q, j)
                    && ray_visible(*map, center, -1, 0, r2i, j) {
                let j = choose|j: int| #![trigger on_ray_at(center, -1, 0, q, j)]
                    on_ray_at(center, -1, 0, q, j)
                        && ray_visible(*map, center, -1, 0, r2i, j);
                assert(false);
            }
            if exists|j: int| #![trigger on_ray_at(center, -1, -1, q, j)]
                on_ray_at(center, -1, -1, q, j)
                    && ray_visible(*map, center, -1, -1, r2i, j) {
                let j = choose|j: int| #![trigger on_ray_at(center, -1, -1, q, j)]
                    on_ray_at(center, -1, -1, q, j)
                        && ray_visible(*map, center, -1, -1, r2i, j);
                assert(false);
            }
            assert(q != center);
            assert(!seq_has_pt(s0, q));
            assert(!seq_has_pt(s1, q));
            assert(!seq_has_pt(s2, q));
            if seq_has_pt(result@, q) {
                assert(seq_has_pt(st, q));
                assert(seq_has_pt(s8, q));
                assert(seq_has_pt(s7, q));
                assert(seq_has_pt(s6, q));
                assert(seq_has_pt(s5, q));
                assert(seq_has_pt(s4, q));
                assert(seq_has_pt(s3, q));
                let j = choose|j: int| #![trigger on_ray_at(center, 1, 0, q, j)]
                    on_ray_at(center, 1, 0, q, j)
                        && ray_visible(*map, center, 1, 0, r2i, j);
                assert(j == k);
            } else {
                if ray_visible(*map, center, 1, 0, r2i, k) {
                    assert(on_ray_at(center, 1, 0, q, k)
                        && ray_visible(*map, center, 1, 0, r2i, k));
                    assert(seq_has_pt(s3, q));
                    assert(seq_has_pt(s8, q));
                    assert(seq_has_pt(st, q));
                    assert(ray_admissible(*map, center, 1, 0, r2i, k));
                    assert(map.spec_in_bounds(q.x as int, q.y as int));
                    assert(seq_has_pt(result@, q));
                    assert(false);
                }
            }
        }
    }
    result
}

/// Calculates field-of-view as a list of coordinate pairs, one for each
/// visible cell.
pub fn field_of_view(start: Point, range: i32, map: &GridMap) -> (r: Vec<(i32, i32)>)
    requires
        map.wf(),
        range <= MAX_RANGE,
        -0x10_0000 <= start.x <= 0x10_0000,
        -0x10_0000 <= start.y <= 0x10_0000,
    ensures
        forall|j: int| 0 <= j < r@.len()
            ==> map.spec_in_bounds(#[trigger] r@[j].0 as int, r@[j].1 as int),
        map.spec_in_bounds(start.x as int, start.y as int)
            ==> exists|j: int| 0 <= j < r@.len()
                && #[trigger] r@[j] == (start.x, start.y),
        forall|j: int| 0 <= j < r@.len()
            ==> ((#[trigger] r@[j]) == (start.x, start.y)
                || (range >= 1
                    && soft_dist2(start.x as int, start.y as int, r@[j].0 as int,
                            r@[j].1 as int) <= 4 * (range * range))),
{
    let pts: Vec<Point> = field_of_view_set(start, range, map);
    let mut out: Vec<(i32, i32)> = Vec::new();
    let n: usize = pts.len();
    let mut i: usize = 0;
    while i < n
        invariant
            i <= n,
            n == pts@.len(),
            out@.len() == i,
            forall|j: int| 0 <= j < i ==> #[trigger] out@[j] == (pts@[j].x, pts@[j].y),
        decreases n - i,
    {
        let p: Point = pts[i];
        out.push((p.x, p.y));
        i = i + 1;
    }
    proof {
        assert forall|j: int| #![trigger out@[j]] 0 <= j < out@.len()
            implies map.spec_in_bounds(out@[j].0 as int, out@[j].1 as int)
                && (out@[j] == (start.x, start.y)
                    || (range >= 1
                        && soft_dist2(start.x as int, start.y as int, out@[j].0 as int,
                                out@[j].1 as int) <= 4 * (range * range))) by {
            assert(pts@[j] == pts@[j]);
            assert(seq_has_pt(pts@, pts@[j]));
            if pts@[j] != start {
            }
        }
        if map.spec_in_bounds(start.x as int, start.y as int) {
            assert(seq_has_pt(pts@, start));
            let j = choose|j: int| 0 <= j < pts@.len() && pts@[j] == start;
            assert(out@[j] == (start.x, start.y));
        }
    }
    out
}

} // verus!
