//! Informed shortest-path search between two cells of a grid.
//!
//! The search keeps an open frontier of candidate nodes ordered by
//! `f = g + heuristic`, a closed set of already expanded cells, and a parent
//! trace used both to reject worse rediscoveries and to reconstruct the
//! route once the goal is reached. Ties on `f` are broken deterministically
//! by the lower cell index.

use vstd::prelude::*;
use crate::map::GridMap;

verus! {

/// Bail out if the search exceeds this many expansions.
pub const MAX_ASTAR_STEPS: usize = 65536;

/// Holds the result of a navigation query.
/// `destination` is the index of the target tile.
/// `success` is true if it reached the target, false otherwise.
/// `steps` is a vector of each step towards the target, *including* the
/// starting position.
#[derive(Clone, Default)]
pub struct NavigationPath {
    pub destination: usize,
    pub success: bool,
    pub steps: Vec<usize>,
}

impl NavigationPath {
    /// Makes a new (empty) NavigationPath.
    pub fn new() -> (r: NavigationPath)
        ensures
            r.destination == 0,
            !r.success,
            r.steps@ == Seq::<usize>::empty(),
    {
        NavigationPath { destination: 0, success: false, steps: Vec::new() }
    }
}

/// One step of a route: the move from `a` to `b` is grid-adjacent under the
/// mode in use and `b` is open to walk onto.
pub open spec fn move_ok(m: GridMap, a: int, b: int, cardinal: bool) -> bool {
    &&& if cardinal { m.adjacent_cardinal(a, b) } else { m.adjacent_omni(a, b) }
    &&& m.exit_ok(m.x_of(b), m.y_of(b))
}

/// An ordered route from `start` to `end`: it begins at `start`, ends at
/// `end`, stays on the grid, and every consecutive pair is a legal move.
pub open spec fn path_valid(
    m: GridMap,
    start: int,
    end: int,
    steps: Seq<usize>,
    cardinal: bool,
) -> bool {
    &&& steps.len() >= 1
    &&& steps[0] == start
    &&& steps[steps.len() - 1] == end
    &&& forall|i: int| 0 <= i < steps.len() ==> #[trigger] steps[i] < m.total_spec()
    &&& forall|i: int| 0 <= i < steps.len() - 1
        ==> move_ok(m, #[trigger] steps[i] as int, steps[i + 1] as int, cardinal)
}

/// An internal step of the search: the cell, its priority `f`, and the cost
/// `g` accumulated from the start.
#[derive(Clone, Copy)]
struct Node {
    idx: usize,
    f: u64,
    g: u64,
}

/// Removes and returns a node with the least priority; ties are broken by
/// the lower cell index. The rest of the frontier is untouched.
fn pop_min(open: &mut Vec<Node>) -> (r: Node)
    requires
        old(open)@.len() >= 1,
    ensures
        final(open)@.len() == old(open)@.len() - 1,
        exists|j: int| 0 <= j < old(open)@.len() && old(open)@[j] == r,
        forall|k: int| #![trigger final(open)@[k]] 0 <= k < final(open)@.len()
            ==> exists|j: int| 0 <= j < old(open)@.len() && old(open)@[j] == final(open)@[k],
        forall|j: int| #![trigger old(open)@[j]] 0 <= j < old(open)@.len()
            ==> r.f < old(open)@[j].f || (r.f == old(open)@[j].f && r.idx <= old(open)@[j].idx),
{
    let mut best: usize = 0;
    let mut i: usize = 1;
    while i < open.len()
        invariant
            open@ == old(open)@,
            open@.len() >= 1,
            best < i <= open@.len() || (best == 0 && i <= open@.len()),
            forall|j: int| #![trigger open@[j]] 0 <= j < i
                ==> open@[best as int].f < open@[j].f
                    || (open@[best as int].f == open@[j].f
                        && open@[best as int].idx <= open@[j].idx),
        decreases open@.len() - i,
    {
        let better: bool = open[i].f < open[best].f
            || (open[i].f == open[best].f && open[i].idx < open[best].idx);
        if better {
            best = i;
        }
        i = i + 1;
    }
    let r = open.swap_remove(best);
    proof {
        assert forall|k: int| 0 <= k < open@.len()
            implies exists|j: int| 0 <= j < old(open)@.len() && old(open)@[j] == #[trigger] open@[k]
        by {
            if k == best {
                assert(old(open)@[old(open)@.len() - 1] == open@[k]);
            } else {
                assert(old(open)@[k] == open@[k]);
            }
        }
    }
    r
}

/// Transient state for one shortest-path query.
struct AStar {
    start: usize,
    end: usize,
    cardinal: bool,
    open_list: Vec<Node>,
    closed_list: Vec<bool>,
    parents: Vec<Option<(usize, u64)>>,
    step_counter: usize,
    close_time: Ghost<Map<int, nat>>,
}

impl AStar {
    /// The search state is consistent with the grid `m`. `pending` names the
    /// one cell that was popped from the frontier this iteration and is
    /// about to be closed; new parent entries may point at it. Outside an
    /// expansion `pending` is -1 and every parent points at the start or at
    /// a closed cell.
    spec fn inv_core(self, m: GridMap, pending: int) -> bool {
        &&& m.wf()
        &&& self.start < m.total_spec()
        &&& self.end < m.total_spec()
        &&& self.parents@.len() == m.total_spec()
        &&& self.closed_list@.len() == m.total_spec()
        &&& self.step_counter <= MAX_ASTAR_STEPS
        &&& forall|k: int| #![trigger self.open_list@[k]] 0 <= k < self.open_list@.len()
            ==> {
                let n = self.open_list@[k];
                &&& n.idx < m.total_spec()
                &&& (n.idx == self.start || self.parents@[n.idx as int] is Some)
                &&& n.g <= 145 * self.step_counter
            }
        &&& forall|x: int| #![trigger self.parents@[x]] 0 <= x < m.total_spec()
            ==> (self.parents@[x] matches Some(pg) ==> {
                &&& pg.0 < m.total_spec()
                &&& move_ok(m, pg.0 as int, x, self.cardinal)
                &&& (pg.0 == self.start || self.closed_list@[pg.0 as int] || pg.0 == pending)
            })
        &&& forall|x: int| #![trigger self.closed_list@[x]] 0 <= x < m.total_spec()
                && self.closed_list@[x]
            ==> {
                &&& self.close_time@.dom().contains(x)
                &&& self.close_time@[x] < self.step_counter
                &&& (x == self.start || (self.parents@[x] matches Some(pg)
                        && (pg.0 == self.start
                            || (self.closed_list@[pg.0 as int]
                                && self.close_time@.dom().contains(pg.0 as int)
                                && self.close_time@[pg.0 as int] < self.close_time@[x]))))
            }
    }

    /// The search state between iterations: no expansion is in flight.
    spec fn inv(self, m: GridMap) -> bool {
        self.inv_core(m, -1)
    }

    /// Bound on the number of parent hops still ahead of the walk that
    /// rebuilds the route: closing times strictly decrease along the trace.
    spec fn rec_measure(self, current: int) -> int {
        if current == self.start {
            0
        } else if 0 <= current < self.closed_list@.len() && self.closed_list@[current]
            && self.close_time@.dom().contains(current) {
            self.close_time@[current] + 1int
        } else {
            self.step_counter + 1
        }
    }

    /// Creates a fresh search, with the start node alone on the frontier.
    fn new(start: usize, end: usize, cardinal: bool, map: &GridMap) -> (r: AStar)
        requires
            map.wf(),
            start < map.total_spec(),
            end < map.total_spec(),
        ensures
            r.inv(*map),
            r.start == start,
            r.end == end,
            r.cardinal == cardinal,
            r.step_counter == 0,
            r.open_list@.len() == 1,
            r.open_list@[0].idx == start,
    {
        let total: usize = map.tiles.len();
        let mut open_list: Vec<Node> = Vec::new();
        open_list.push(Node { idx: start, f: 0, g: 0 });
        let mut closed_list: Vec<bool> = Vec::new();
        let mut parents: Vec<Option<(usize, u64)>> = Vec::new();
        let mut i: usize = 0;
        while i < total
            invariant
                i <= total,
                closed_list@.len() == i,
                parents@.len() == i,
                forall|j: int| 0 <= j < i ==> !(#[trigger] closed_list@[j]),
                forall|j: int| 0 <= j < i ==> #[trigger] parents@[j] is None,
            decreases total - i,
        {
            closed_list.push(false);
            parents.push(None);
            i = i + 1;
        }
        AStar {
            start,
            end,
            cardinal,
            open_list,
            closed_list,
            parents,
            step_counter: 0,
            close_time: Ghost(Map::empty()),
        }
    }

    /// The heuristic: fixed-point straight-line distance to the goal.
    fn distance_to_end(&self, idx: usize, map: &GridMap) -> (r: u32)
        requires
            map.wf(),
            idx < map.total_spec(),
            self.end < map.total_spec(),
    {
        map.get_pathing_distance(idx, self.end)
    }

    /// Considers the move from the just-popped node `q` onto `idx`: unless
    /// the parent trace already records a discovery of `idx` at no worse a
    /// cost, or `idx` is already closed, pushes the node and records the
    /// trace entry.
    fn add_successor(&mut self, q: Node, idx: usize, cost: u32, map: &GridMap)
        requires
            old(self).inv_core(*map, q.idx as int),
            idx < map.total_spec(),
            q.idx < map.total_spec(),
            move_ok(*map, q.idx as int, idx as int, old(self).cardinal),
            cost <= 145,
            q.g + cost <= 145 * old(self).step_counter,
        ensures
            final(self).inv_core(*map, q.idx as int),
            final(self).start == old(self).start,
            final(self).end == old(self).end,
            final(self).cardinal == old(self).cardinal,
            final(self).step_counter == old(self).step_counter,
            final(self).closed_list == old(self).closed_list,
            final(self).close_time == old(self).close_time,
            final(self).parents@.len() == old(self).parents@.len(),
            forall|x: int| 0 <= x < old(self).parents@.len() && x != idx
                ==> final(self).parents@[x] == old(self).parents@[x],
            final(self).parents@[idx as int] is Some || final(self).parents@[idx as int]
                == old(self).parents@[idx as int],
    {
        let distance_to_end: u32 = self.distance_to_end(idx, map);
        let g_new: u64 = q.g + (cost as u64);
        let f_new: u64 = g_new + (distance_to_end as u64);
        let s = Node { idx, f: f_new, g: g_new };

        // If the trace already records this cell at a cost no worse than the
        // tentative one, skip the add.
        let mut should_add: bool = true;
        if let Some(e) = self.parents[idx] {
            if e.1 <= s.g {
                should_add = false;
            }
        }

        // A finalized cell is never reopened.
        if should_add && self.closed_list[idx] {
            should_add = false;
        }

        if should_add {
            self.open_list.push(s);
            self.parents.set(idx, Some((q.idx, s.g)));
        }
    }

    /// Rebuilds the route by walking the parent trace backward from the end
    /// cell, prepending each parent, finishing with the start cell.
    fn found_it(&self, map: &GridMap) -> (r: NavigationPath)
        requires
            self.inv(*map),
            self.end == self.start || self.parents@[self.end as int] is Some,
        ensures
            r.success,
            r.destination == self.end,
            path_valid(*map, self.start as int, self.end as int, r.steps@, self.cardinal),
            self.start == self.end ==> r.steps@ =~= seq![self.start],
    {
        let mut result = NavigationPath::new();
        result.success = true;
        result.destination = self.end;

        result.steps.push(self.end);
        let mut current: usize = self.end;
        while current != self.start
            invariant
                self.inv(*map),
                self.end == self.start || self.parents@[self.end as int] is Some,
                current < map.total_spec(),
                current == self.start || self.parents@[current as int] is Some,
                result.success,
                result.destination == self.end,
                result.steps@.len() >= 1,
                result.steps@[0] == current,
                result.steps@[result.steps@.len() - 1] == self.end,
                self.start == self.end ==> result.steps@ =~= seq![self.end],
                forall|i: int| 0 <= i < result.steps@.len()
                    ==> #[trigger] result.steps@[i] < map.total_spec(),
                forall|i: int| 0 <= i < result.steps@.len() - 1
                    ==> move_ok(*map, #[trigger] result.steps@[i] as int,
                            result.steps@[i + 1] as int, self.cardinal),
            decreases self.rec_measure(current as int),
        {
            let parent = self.parents[current].unwrap();
            proof {
                let c = current as int;
                let p = parent.0 as int;
                assert(self.parents@[c] matches Some(pg) && pg.0 == parent.0);
                if parent.0 != self.start {
                    assert(self.closed_list@[p]);
                    if self.closed_list@[c] {
                        assert(self.close_time@[p] < self.close_time@[c]);
                    } else {
                        assert(self.close_time@[p] < self.step_counter);
                    }
                }
                assert(self.rec_measure(p) < self.rec_measure(c));
            }
            result.steps.insert(0, parent.0);
            current = parent.0;
        }
        result
    }

    /// Runs the search to completion: repeatedly pops the cheapest frontier
    /// node, returns the reconstructed route when it is the goal, and
    /// otherwise expands its neighbors, until the frontier empties or the
    /// expansion budget runs out.
    #[verifier::rlimit(100)]
    #[verifier::spinoff_prover]
    fn search(&mut self, map: &GridMap) -> (r: NavigationPath)
        requires
            old(self).inv(*map),
            old(self).step_counter == 0,
            old(self).open_list@.len() == 1,
            old(self).open_list@[0].idx == old(self).start,
        ensures
            !r.success ==> r.steps@.len() == 0 && r.destination == 0,
            r.success ==> r.destination == old(self).end
                && path_valid(*map, old(self).start as int, old(self).end as int, r.steps@,
                        old(self).cardinal),
            old(self).start == old(self).end ==> r.success && r.steps@ =~= seq![old(self).start],
    {
        let result = NavigationPath::new();
        while self.open_list.len() != 0 && self.step_counter < MAX_ASTAR_STEPS
            invariant
                self.inv(*map),
                self.start == old(self).start,
                self.end == old(self).end,
                self.cardinal == old(self).cardinal,
                self.start == self.end
                    ==> self.open_list@.len() == 1 && self.open_list@[0].idx == self.start
                        && self.step_counter == 0,
                result.steps@.len() == 0,
                !result.success,
                result.destination == 0,
            decreases MAX_ASTAR_STEPS - self.step_counter,
        {
            let ghost t0 = self.step_counter as int;
            proof {
                // Every recorded closing time is below the counter as it
                // stands at the top of the iteration; the counter then
                // advances, so the popped cell can close at `t0` strictly
                // above every earlier closing time.
                assert(forall|x: int| 0 <= x < map.total_spec() && #[trigger] self.closed_list@[x]
                    ==> self.close_time@[x] < t0);
            }
            self.step_counter = self.step_counter + 1;

            // Pop the cheapest node off of the frontier.
            let q = pop_min(&mut self.open_list);
            if q.idx == self.end {
                let success = self.found_it(map);
                return success;
            }
            proof {
                // When start == end the first popped node is the goal, so
                // this point is unreachable in that case.
                assert(self.start != self.end);
            }

            // Generate successors.
            let exits = if self.cardinal {
                map.get_available_cardinal_exits(q.idx)
            } else {
                map.get_available_exits(q.idx)
            };
            let mut i: usize = 0;
            while i < exits.len()
                invariant
                    self.inv_core(*map, q.idx as int),
                    self.start == old(self).start,
                    self.end == old(self).end,
                    self.cardinal == old(self).cardinal,
                    self.step_counter <= MAX_ASTAR_STEPS,
                    self.step_counter >= 1,
                    q.idx < map.total_spec(),
                    q.idx == self.start || self.parents@[q.idx as int] is Some,
                    q.g + 145 <= 145 * self.step_counter,
                    self.step_counter == t0 + 1,
                    forall|x: int| 0 <= x < map.total_spec() && #[trigger] self.closed_list@[x]
                        ==> self.close_time@[x] < t0,
                    forall|k: int| #![trigger exits@[k]] 0 <= k < exits@.len()
                        ==> exits@[k].0 < map.total_spec()
                            && exits@[k].1 <= 145
                            && move_ok(*map, q.idx as int, exits@[k].0 as int, self.cardinal),
                decreases exits@.len() - i,
            {
                let (to, cost) = exits[i];
                self.add_successor(q, to, cost, map);
                i = i + 1;
            }

            // Finalize the popped cell, recording its closing time the first
            // time it is closed.
            let already_closed: bool = self.closed_list[q.idx];
            self.closed_list.set(q.idx, true);
            proof {
                if !already_closed {
                    self.close_time@ = self.close_time@.insert(q.idx as int, t0 as nat);
                }
                assert(self.inv(*map));
            }
        }
        result
    }
}

/// Requests a shortest-path search from `start` to `end` over the eight
/// omnidirectional moves. On success the returned route starts at `start`,
/// ends at `end`, and every consecutive pair of steps is a legal
/// omnidirectional move; on failure (no route, or budget exhausted — the two
/// are indistinguishable by design) the step list is empty. Searching from a
/// cell to itself always succeeds with the one-cell route.
pub fn a_star_search(start: usize, end: usize, map: &GridMap) -> (r: NavigationPath)
    requires
        map.wf(),
        start < map.total_spec(),
        end < map.total_spec(),
    ensures
        !r.success ==> r.steps@.len() == 0 && r.destination == 0,
        r.success ==> r.destination == end
            && path_valid(*map, start as int, end as int, r.steps@, false),
        start == end ==> r.success && r.steps@ =~= seq![start],
{
    let mut engine = AStar::new(start, end, false, map);
    engine.search(map)
}

/// Requests a shortest-path search from `start` to `end` over the four
/// cardinal moves only. The contract mirrors `a_star_search`, with cardinal
/// adjacency in place of omnidirectional adjacency.
pub fn a_star_search_cardinal(start: usize, end: usize, map: &GridMap) -> (r: NavigationPath)
    requires
        map.wf(),
        start < map.total_spec(),
        end < map.total_spec(),
    ensures
        !r.success ==> r.steps@.len() == 0 && r.destination == 0,
        r.success ==> r.destination == end
            && path_valid(*map, start as int, end as int, r.steps@, true),
        start == end ==> r.success && r.steps@ =~= seq![start],
{
    let mut engine = AStar::new(start, end, true, map);
    engine.search(map)
}

} // verus!

verus! {

/// Walking from a cell left of the column `wall_x` to a cell right of it,
/// one adjacent step at a time, some step after the first lands exactly on
/// the column.
proof fn lemma_path_crosses(
    m: GridMap,
    wall_x: int,
    steps: Seq<usize>,
    cardinal: bool,
    i: int,
)
    requires
        m.wf(),
        0 <= i < steps.len(),
        forall|t: int| 0 <= t < steps.len() ==> #[trigger] steps[t] < m.total_spec(),
        forall|t: int| 0 <= t < steps.len() - 1
            ==> move_ok(m, #[trigger] steps[t] as int, steps[t + 1] as int, cardinal),
        m.x_of(steps[i] as int) < wall_x,
        m.x_of(steps[steps.len() - 1] as int) > wall_x,
    ensures
        exists|j: int| i < j < steps.len() && m.x_of(#[trigger] steps[j] as int) == wall_x,
    decreases steps.len() - i,
{
    assert(i < steps.len() - 1);
    assert(move_ok(m, steps[i] as int, steps[i + 1] as int, cardinal));
    let xi = m.x_of(steps[i] as int);
    let xn = m.x_of(steps[i + 1] as int);
    assert(xn - xi <= 1);
    if xn == wall_x {
        assert(i < i + 1 < steps.len() && m.x_of(steps[i + 1] as int) == wall_x);
    } else if xn < wall_x {
        lemma_path_crosses(m, wall_x, steps, cardinal, i + 1);
        let j = choose|j: int| i + 1 < j < steps.len()
            && m.x_of(#[trigger] steps[j] as int) == wall_x;
        assert(i < j < steps.len() && m.x_of(steps[j] as int) == wall_x);
    } else {
        assert(false);
    }
}

/// A solid wall with no gap separates the grid: when every cell of the
/// column `wall_x` blocks movement, no route — under either movement
/// mode — leads from a cell strictly left of the column to a cell strictly
/// right of it. Together with the search contract this rules a successful
/// search out: a success would carry a valid route.
pub proof fn lemma_wall_blocks_path(
    m: GridMap,
    wall_x: int,
    start: int,
    end: int,
    steps: Seq<usize>,
    cardinal: bool,
)
    requires
        m.wf(),
        0 <= wall_x < m.width,
        forall|y: int| 0 <= y < m.height ==> m.blocked_at(#[trigger] m.idx_of(wall_x, y)),
        m.x_of(start) < wall_x,
        m.x_of(end) > wall_x,
    ensures
        !path_valid(m, start, end, steps, cardinal),
{
    if path_valid(m, start, end, steps, cardinal) {
        lemma_path_crosses(m, wall_x, steps, cardinal, 0);
        let j = choose|j: int| 0 < j < steps.len()
            && m.x_of(#[trigger] steps[j] as int) == wall_x;
        assert(move_ok(m, steps[j - 1] as int, steps[j] as int, cardinal));
        let y = m.y_of(steps[j] as int);
        assert(m.exit_ok(wall_x, y));
        assert(m.blocked_at(m.idx_of(wall_x, y)));
    }
}

} // verus!
