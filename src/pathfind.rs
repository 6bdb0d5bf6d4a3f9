//! Lateral-only A* search over the grid, with a per-cell cost field and a
//! set of impassable cells.
use vstd::prelude::*;
use crate::cellset::CellSet;
use crate::grid::{adjacent4, cell_index, in_grid, lemma_cell_index_bounds, Coord, MAX_SIZE};

verus! {

/// Positive traversal costs for the cells of a square grid.
pub struct CostField {
    size: usize,
    costs: Vec<u32>,
}

impl CostField {
    pub closed spec fn grid_size(&self) -> nat {
        self.size as nat
    }

    /// Cost of entering `c`; one off the grid.
    pub closed spec fn cost(&self, c: Coord) -> nat {
        if in_grid(self.size as int, c) {
            self.costs@[cell_index(self.size as int, c)] as nat
        } else {
            1
        }
    }

    pub closed spec fn wf(&self) -> bool {
        &&& 0 < self.size <= MAX_SIZE
        &&& self.costs@.len() == self.size * self.size
        &&& forall|k: int| 0 <= k < self.costs@.len() ==> #[trigger] self.costs@[k] >= 1
    }

    /// Every step onto a cell costs at least one.
    pub proof fn lemma_costs_positive(&self, c: Coord)
        requires
            self.wf(),
        ensures
            self.cost(c) >= 1,
    {
        if in_grid(self.size as int, c) {
            lemma_cell_index_bounds(self.size as int, c);
        }
    }

    /// Every cell costs one.
    pub fn new(size: usize) -> (r: CostField)
        requires
            0 < size <= MAX_SIZE,
        ensures
            r.wf(),
            r.grid_size() == size,
            forall|c: Coord| #[trigger] r.cost(c) == 1,
    {
        proof {
            assert(size * size <= MAX_SIZE * MAX_SIZE) by (nonlinear_arith)
                requires 0 < size <= MAX_SIZE;
        }
        let n: usize = size * size;
        let r = CostField { size, costs: vec![1u32; n] };
        proof {
            assert forall|c: Coord| #[trigger] r.cost(c) == 1 by {
                if in_grid(size as int, c) {
                    lemma_cell_index_bounds(size as int, c);
                }
            }
        }
        r
    }

    /// Sets the cost of an on-grid cell `c`.
    pub fn set(&mut self, c: Coord, cost: u32)
        requires
            old(self).wf(),
            in_grid(old(self).grid_size() as int, c),
            cost >= 1,
        ensures
            final(self).wf(),
            final(self).grid_size() == old(self).grid_size(),
            forall|x: Coord| #[trigger] final(self).cost(x) == if x == c { cost as nat } else { old(self).cost(x) },
    {
        let ghost sz = self.size as int;
        let ghost pre = self.costs@;
        proof { lemma_cell_index_bounds(sz, c); }
        let k: usize = c.1 as usize * self.size + c.0 as usize;
        self.costs.set(k, cost);
        proof {
            assert forall|x: Coord| #[trigger] self.cost(x) == if x == c { cost as nat } else { old(self).cost(x) } by {
                if in_grid(sz, x) && x != c {
                    lemma_cell_index_bounds(sz, x);
                    if cell_index(sz, x) == k {
                        crate::grid::lemma_cell_index_injective(sz, x, c);
                    }
                }
            }
        }
    }

    pub fn get(&self, c: Coord) -> (r: u32)
        requires
            self.wf(),
        ensures
            r == self.cost(c),
            r >= 1,
    {
        if c.0 < 0 || c.1 < 0 || c.0 as usize >= self.size || c.1 as usize >= self.size {
            return 1;
        }
        proof { lemma_cell_index_bounds(self.size as int, c); }
        self.costs[c.1 as usize * self.size + c.0 as usize]
    }
}

/// `path` runs from `start` to `goal` over on-grid cells outside `blocked`,
/// each step moving to one of the four axis-aligned neighbours.
pub open spec fn valid_path(path: Seq<Coord>, start: Coord, goal: Coord, size: int, blocked: Set<Coord>) -> bool {
    &&& path.len() >= 1
    &&& path[0] == start
    &&& path[path.len() - 1] == goal
    &&& forall|i: int| 0 <= i < path.len() ==> in_grid(size, #[trigger] path[i]) && !blocked.contains(path[i])
    &&& forall|i: int| 0 <= i < path.len() - 1 ==> adjacent4(#[trigger] path[i], path[i + 1])
}

/// Manhattan distance.
pub open spec fn manhattan(a: Coord, b: Coord) -> int {
    (if a.0 >= b.0 { a.0 - b.0 } else { b.0 - a.0 }) + (if a.1 >= b.1 { a.1 - b.1 } else { b.1 - a.1 })
}

/// Parent links that lead back toward the start: each link joins lateral
/// neighbours on the grid, both passable, with a strictly smaller cost so
/// far at the parent.
spec fn links_ok(sz: int, blocked: Set<Coord>, g: Seq<u64>, parent: Seq<Option<Coord>>) -> bool {
    forall|c: Coord| in_grid(sz, c) && (#[trigger] parent[cell_index(sz, c)]) is Some ==> {
        let p = parent[cell_index(sz, c)].unwrap();
        &&& in_grid(sz, p)
        &&& adjacent4(p, c)
        &&& g[cell_index(sz, p)] < g[cell_index(sz, c)]
        &&& !blocked.contains(p)
        &&& !blocked.contains(c)
    }
}

type HeapItem = (u64, u64, Coord);

spec fn item_less(a: HeapItem, b: HeapItem) -> bool {
    a.0 < b.0 || (a.0 == b.0 && a.1 < b.1)
}

fn less(a: HeapItem, b: HeapItem) -> (r: bool)
    ensures
        r == item_less(a, b),
{
    a.0 < b.0 || (a.0 == b.0 && a.1 < b.1)
}

/// Exchanging two entries keeps what the sequence holds.
proof fn lemma_swap_contains(h: Seq<HeapItem>, i: int, j: int, x: HeapItem)
    requires
        0 <= i < h.len(),
        0 <= j < h.len(),
    ensures
        h.update(i, h[j]).update(j, h[i]).contains(x) <==> h.contains(x),
{
    let s = h.update(i, h[j]).update(j, h[i]);
    if h.contains(x) {
        let k = choose|k: int| 0 <= k < h.len() && h[k] == x;
        if k == i {
            assert(s[j] == x);
        } else if k == j {
            assert(s[i] == x);
        } else {
            assert(s[k] == x);
        }
    }
    if s.contains(x) {
        let k = choose|k: int| 0 <= k < s.len() && s[k] == x;
        if k == j {
            assert(h[i] == x);
        } else if k == i {
            assert(h[j] == x);
        } else {
            assert(h[k] == x);
        }
    }
}

/// A binary min-heap ordered by `(priority, insertion number)`.
fn heap_push(h: &mut Vec<HeapItem>, e: HeapItem)
    ensures
        final(h)@.len() == old(h)@.len() + 1,
        forall|x: HeapItem| #[trigger] final(h)@.contains(x) <==> (old(h)@.contains(x) || x == e),
{
    let ghost h0 = h@;
    h.push(e);
    proof {
        assert forall|x: HeapItem| #[trigger] h@.contains(x) <==> (h0.contains(x) || x == e) by {
            if h0.contains(x) {
                let k = choose|k: int| 0 <= k < h0.len() && h0[k] == x;
                assert(h@[k] == x);
            }
            if x == e {
                assert(h@[h0.len() as int] == e);
            }
            if h@.contains(x) {
                let k = choose|k: int| 0 <= k < h@.len() && h@[k] == x;
                if k < h0.len() {
                    assert(h0[k] == x);
                }
            }
        }
    }
    let mut i: usize = h.len() - 1;
    let mut settled = false;
    while i > 0 && !settled
        invariant
            i < h@.len(),
            h@.len() == h0.len() + 1,
            forall|x: HeapItem| #[trigger] h@.contains(x) <==> (h0.contains(x) || x == e),
        decreases i + (if settled { 0int } else { 1int }),
    {
        let p: usize = (i - 1) / 2;
        if less(h[i], h[p]) {
            let ghost hs = h@;
            let a = h[i];
            let b = h[p];
            h.set(i, b);
            h.set(p, a);
            proof {
                assert forall|x: HeapItem| #[trigger] h@.contains(x) <==> (h0.contains(x) || x == e) by {
                    lemma_swap_contains(hs, i as int, p as int, x);
                }
            }
            i = p;
        } else {
            settled = true;
        }
    }
}

/// Removes the least entry. Every other entry stays.
fn heap_pop(h: &mut Vec<HeapItem>) -> (r: Option<HeapItem>)
    ensures
        r is None <==> old(h)@.len() == 0,
        r matches Some(e) ==> old(h)@.contains(e),
        final(h)@.len() == if old(h)@.len() == 0 { 0 } else { old(h)@.len() - 1 },
        forall|x: HeapItem| #[trigger] final(h)@.contains(x) ==> old(h)@.contains(x),
        r matches Some(e) ==> forall|x: HeapItem| #[trigger] old(h)@.contains(x) && x != e ==> final(h)@.contains(x),
{
    if h.len() == 0 {
        return None;
    }
    let ghost h0 = h@;
    let last = h.pop().unwrap();
    if h.len() == 0 {
        proof {
            assert forall|x: HeapItem| #[trigger] h0.contains(x) && x != last implies h@.contains(x) by {
                let k = choose|k: int| 0 <= k < h0.len() && h0[k] == x;
                assert(k == h0.len() - 1);
            }
            assert(h0[h0.len() - 1] == last);
        }
        return Some(last);
    }
    let top = h[0];
    h.set(0, last);
    let n = h.len();
    // what the heap must hold: every entry but the one at the top
    let ghost rest = h0.subrange(1, h0.len() as int);
    proof {
        assert forall|x: HeapItem| #[trigger] h@.contains(x) <==> rest.contains(x) by {
            if h@.contains(x) {
                let k = choose|k: int| 0 <= k < h@.len() && h@[k] == x;
                if k == 0 {
                    assert(rest[h0.len() - 2] == x);
                } else {
                    assert(rest[k - 1] == x);
                }
            }
            if rest.contains(x) {
                let k = choose|k: int| 0 <= k < rest.len() && rest[k] == x;
                if k == h0.len() - 2 {
                    assert(h@[0] == x);
                } else {
                    assert(h@[k + 1] == x);
                }
            }
        }
    }
    let mut i: usize = 0;
    let mut settled = false;
    while i < n && !settled
        invariant
            h@.len() == n,
            n == h0.len() - 1,
            forall|x: HeapItem| #[trigger] h@.contains(x) <==> rest.contains(x),
        decreases n - i + (if settled { 0int } else { 1int }),
    {
        let l: usize = if i <= (n - 1) / 2 { 2 * i + 1 } else { n };
        if l >= n {
            settled = true;
        } else {
            let r: usize = l + 1;
            let m: usize = if r < n && less(h[r], h[l]) { r } else { l };
            if less(h[m], h[i]) {
                let ghost hs = h@;
                let a = h[i];
                let b = h[m];
                h.set(i, b);
                h.set(m, a);
                proof {
                    assert forall|x: HeapItem| #[trigger] h@.contains(x) <==> rest.contains(x) by {
                        lemma_swap_contains(hs, i as int, m as int, x);
                    }
                }
                i = m;
            } else {
                settled = true;
            }
        }
    }
    proof {
        assert(h0[0] == top);
        assert forall|x: HeapItem| #[trigger] h0.contains(x) && x != top implies h@.contains(x) by {
            let k = choose|k: int| 0 <= k < h0.len() && h0[k] == x;
            assert(k != 0);
            assert(rest[k - 1] == x);
        }
        assert forall|x: HeapItem| #[trigger] h@.contains(x) implies h0.contains(x) by {
            let k = choose|k: int| 0 <= k < rest.len() && rest[k] == x;
            assert(h0[k + 1] == x);
        }
    }
    Some(top)
}

/// A lateral-only A* query: the four axis-aligned moves, Manhattan-distance
/// heuristic, ties broken by the order in which cells entered the frontier.
pub struct Astar {
    start: Coord,
    goal: Coord,
    impassable: CellSet,
    costs: CostField,
}

impl Astar {
    pub closed spec fn spec_start(&self) -> Coord {
        self.start
    }

    pub closed spec fn spec_goal(&self) -> Coord {
        self.goal
    }

    pub closed spec fn blocked(&self) -> Set<Coord> {
        self.impassable@
    }

    pub closed spec fn grid_size(&self) -> int {
        self.costs.size as int
    }

    pub closed spec fn cost(&self, c: Coord) -> nat {
        self.costs.cost(c)
    }

    pub closed spec fn wf(&self) -> bool {
        &&& self.impassable.wf()
        &&& self.costs.wf()
        &&& self.impassable.grid_size() == self.costs.size
    }

    /// A query on a `size` by `size` grid with nothing impassable and unit costs.
    pub fn new(size: usize, start: Coord, goal: Coord) -> (r: Astar)
        requires
            0 < size <= MAX_SIZE,
        ensures
            r.wf(),
            r.spec_start() == start,
            r.spec_goal() == goal,
            r.grid_size() == size,
            r.blocked() == Set::<Coord>::empty(),
    {
        Astar { start, goal, impassable: CellSet::new(size), costs: CostField::new(size) }
    }

    pub fn set_impassable(&mut self, blocked: CellSet)
        requires
            old(self).wf(),
            blocked.wf(),
            blocked.grid_size() == old(self).grid_size(),
        ensures
            final(self).wf(),
            final(self).blocked() == blocked@,
            final(self).spec_start() == old(self).spec_start(),
            final(self).spec_goal() == old(self).spec_goal(),
            final(self).grid_size() == old(self).grid_size(),
            forall|c: Coord| #[trigger] final(self).cost(c) == old(self).cost(c),
    {
        self.impassable = blocked;
    }

    pub fn set_costs(&mut self, costs: CostField)
        requires
            old(self).wf(),
            costs.wf(),
            costs.grid_size() == old(self).grid_size(),
        ensures
            final(self).wf(),
            forall|c: Coord| #[trigger] final(self).cost(c) == costs.cost(c),
            final(self).blocked() == old(self).blocked(),
            final(self).spec_start() == old(self).spec_start(),
            final(self).spec_goal() == old(self).spec_goal(),
            final(self).grid_size() == old(self).grid_size(),
    {
        self.costs = costs;
    }
    /// Searches for a path from the start to the goal; `None` exactly when
    /// no lateral path over passable on-grid cells joins them.
    pub fn calculate_path(&self) -> (r: Option<Vec<Coord>>)
        requires
            self.wf(),
        ensures
            r matches Some(p) ==> valid_path(p@, self.spec_start(), self.spec_goal(), self.grid_size(), self.blocked()),
            r is None <==> !exists|p: Seq<Coord>| valid_path(p, self.spec_start(), self.spec_goal(), self.grid_size(), self.blocked()),
            r matches Some(p) ==> forall|i: int| 0 <= i < p@.len() ==> self.cost(#[trigger] p@[i]) >= 1,
    {
        let r = find_path(&self.impassable, &self.costs, self.start, self.goal);
        proof {
            let sz = self.costs.grid_size() as int;
            assert(self.grid_size() == sz);
            match &r {
                Some(p) => {
                    assert(valid_path(p@, self.start, self.goal, sz, self.impassable@));
                },
                None => {
                    assert forall|p: Seq<Coord>| !valid_path(p, self.start, self.goal, sz, self.impassable@) by {
                        if valid_path(p, self.start, self.goal, sz, self.impassable@) {
                            assert(exists|q: Seq<Coord>| valid_path(q, self.start, self.goal, sz, self.impassable@));
                        }
                    }
                },
            }
        }
        r
    }
}

/// Number of `true` entries.
spec fn count_true(s: Seq<bool>) -> nat
    decreases s.len(),
{
    if s.len() == 0 {
        0
    } else {
        count_true(s.drop_last()) + if s.last() { 1nat } else { 0nat }
    }
}

proof fn lemma_count_true_le(s: Seq<bool>)
    ensures
        count_true(s) <= s.len(),
    decreases s.len(),
{
    if s.len() > 0 {
        lemma_count_true_le(s.drop_last());
    }
}

proof fn lemma_count_true_set(s: Seq<bool>, k: int)
    requires
        0 <= k < s.len(),
        !s[k],
    ensures
        count_true(s.update(k, true)) == count_true(s) + 1,
    decreases s.len(),
{
    let t = s.update(k, true);
    if k == s.len() - 1 {
        assert(t.drop_last() =~= s.drop_last());
    } else {
        assert(t.drop_last() =~= s.drop_last().update(k, true));
        lemma_count_true_set(s.drop_last(), k);
    }
}

/// The lateral moves, in the order they are tried.
spec fn lateral_offsets() -> Seq<(i32, i32)> {
    seq![(0i32, -1i32), (-1i32, 0i32), (1i32, 0i32), (0i32, 1i32)]
}

/// The index of the lateral move from `c` to `y`.
proof fn lemma_lateral_index(c: Coord, y: Coord) -> (d: int)
    requires
        adjacent4(c, y),
    ensures
        0 <= d < 4,
        y.0 == c.0 + lateral_offsets()[d].0,
        y.1 == c.1 + lateral_offsets()[d].1,
{
    if y.1 == c.1 - 1 && y.0 == c.0 {
        0
    } else if y.0 == c.0 - 1 {
        1
    } else if y.0 == c.0 + 1 {
        2
    } else {
        3
    }
}

/// A valid path from the start stays inside any set that holds the start
/// and, with each cell, its passable on-grid lateral neighbours.
proof fn lemma_path_stays_in(path: Seq<Coord>, start: Coord, goal: Coord, sz: int, blocked: Set<Coord>, inside: Set<Coord>, i: int)
    requires
        valid_path(path, start, goal, sz, blocked),
        0 <= i < path.len(),
        inside.contains(start),
        forall|x: Coord, y: Coord| #[trigger] inside.contains(x) && in_grid(sz, y) && !blocked.contains(y)
            && #[trigger] adjacent4(x, y) ==> inside.contains(y),
    ensures
        inside.contains(path[i]),
    decreases i,
{
    if i > 0 {
        lemma_path_stays_in(path, start, goal, sz, blocked, inside, i - 1);
        assert(adjacent4(path[i - 1], path[i]));
        assert(in_grid(sz, path[i]) && !blocked.contains(path[i]));
    }
}

proof fn lemma_count_true_none(m: nat)
    ensures
        count_true(Seq::new(m, |k: int| false)) == 0,
    decreases m,
{
    if m > 0 {
        assert(Seq::new(m, |k: int| false).drop_last() =~= Seq::new((m - 1) as nat, |k: int| false));
        lemma_count_true_none((m - 1) as nat);
    }
}

/// A lateral-only A* search from `start` to `goal` that avoids `blocked`
/// and pays `costs` to enter each cell. Returns a path exactly when one
/// exists: `None` means the goal is unreachable, off the grid, or either
/// end is blocked.
pub fn find_path(blocked: &CellSet, costs: &CostField, start: Coord, goal: Coord) -> (r: Option<Vec<Coord>>)
    requires
        blocked.wf(),
        costs.wf(),
        blocked.grid_size() == costs.grid_size(),
    ensures
        r matches Some(p) ==> valid_path(p@, start, goal, costs.grid_size() as int, blocked@),
        r is None <==> !exists|p: Seq<Coord>| valid_path(p, start, goal, costs.grid_size() as int, blocked@),
        !in_grid(costs.grid_size() as int, start) || !in_grid(costs.grid_size() as int, goal)
            || blocked@.contains(start) || blocked@.contains(goal) ==> r is None,
        r matches Some(p) ==> forall|i: int| 0 <= i < p@.len() ==> costs.cost(#[trigger] p@[i]) >= 1,
{
    let size = costs.size;
    let ghost sz = size as int;
    let ghost bset = blocked@;
    if start.0 < 0 || start.1 < 0 || start.0 as usize >= size || start.1 as usize >= size
        || goal.0 < 0 || goal.1 < 0 || goal.0 as usize >= size || goal.1 as usize >= size
        || blocked.contains(start) || blocked.contains(goal) {
        proof {
            assert forall|p: Seq<Coord>| !valid_path(p, start, goal, sz, bset) by {
                if valid_path(p, start, goal, sz, bset) {
                    assert(in_grid(sz, p[0]) && !bset.contains(p[0]));
                    assert(in_grid(sz, p[p.len() - 1]) && !bset.contains(p[p.len() - 1]));
                }
            }
        }
        return None;
    }
    proof {
        assert(size * size <= MAX_SIZE * MAX_SIZE) by (nonlinear_arith)
            requires 0 < size <= MAX_SIZE;
        lemma_cell_index_bounds(sz, start);
        lemma_cell_index_bounds(sz, goal);
    }
    let n: usize = size * size;
    let mut g: Vec<u64> = vec![u64::MAX; n];
    let mut parent: Vec<Option<Coord>> = vec![None; n];
    let mut closed: Vec<bool> = vec![false; n];
    let mut heap: Vec<HeapItem> = Vec::new();
    let ks: usize = start.1 as usize * size + start.0 as usize;
    g.set(ks, 0);
    let h0: u64 = heuristic(start, goal);
    heap_push(&mut heap, (h0, 0, start));
    let mut counter: u64 = 1;
    let mut found = false;
    let mut exhausted = false;
    let cap: u64 = 4 * n as u64 + 2;
    let mut steps: u64 = 0;
    let ghost mut nclosed: nat = 0;
    let ghost mut npush: nat = 1;
    let ghost u: int = 0xFFFF_FFFF;
    let offsets: [(i32, i32); 4] = [(0, -1), (-1, 0), (1, 0), (0, 1)];
    proof {
        assert forall|c: Coord| in_grid(sz, c) implies (#[trigger] parent@[cell_index(sz, c)]) is None by {
            lemma_cell_index_bounds(sz, c);
        }
        assert(closed@ =~= Seq::new(n as nat, |k: int| false));
        lemma_count_true_none(n as nat);
        assert forall|y: Coord| in_grid(sz, y) && #[trigger] g@[cell_index(sz, y)] != u64::MAX implies y == start by {
            lemma_cell_index_bounds(sz, y);
            if y != start {
                crate::grid::lemma_cell_index_injective(sz, y, start);
            }
        }
        assert forall|x: Coord| in_grid(sz, x) implies !(#[trigger] closed@[cell_index(sz, x)]) by {
            lemma_cell_index_bounds(sz, x);
        }
        assert(heap@.contains((h0, 0u64, start)));
    }
    while steps < cap && !found && !exhausted
        invariant
            blocked.wf(),
            costs.wf(),
            blocked.grid_size() == costs.size,
            bset == blocked@,
            sz == costs.size,
            size == costs.size,
            n == sz * sz,
            0 < sz <= MAX_SIZE,
            u == 0xFFFF_FFFF,
            g@.len() == n,
            parent@.len() == n,
            closed@.len() == n,
            in_grid(sz, start),
            in_grid(sz, goal),
            !bset.contains(start),
            !bset.contains(goal),
            ks == cell_index(sz, start),
            links_ok(sz, bset, g@, parent@),
            forall|x: HeapItem| #[trigger] heap@.contains(x) ==> in_grid(sz, x.2) && !bset.contains(x.2)
                && g@[cell_index(sz, x.2)] != u64::MAX,
            offsets@ == lateral_offsets(),
            nclosed == count_true(closed@),
            heap@.len() + steps == npush,
            npush <= 4 * nclosed + 1,
            cap == 4 * n + 2,
            g@[ks as int] == 0,
            forall|y: Coord| in_grid(sz, y) && #[trigger] g@[cell_index(sz, y)] != u64::MAX
                ==> g@[cell_index(sz, y)] <= nclosed * u,
            forall|y: Coord| in_grid(sz, y) && #[trigger] g@[cell_index(sz, y)] != u64::MAX
                ==> closed@[cell_index(sz, y)] || exists|x: HeapItem| #[trigger] heap@.contains(x) && x.2 == y,
            forall|y: Coord| in_grid(sz, y) && #[trigger] g@[cell_index(sz, y)] != u64::MAX && y != start
                ==> parent@[cell_index(sz, y)] is Some,
            forall|x: Coord| in_grid(sz, x) && #[trigger] closed@[cell_index(sz, x)] ==> {
                &&& !bset.contains(x)
                &&& g@[cell_index(sz, x)] != u64::MAX
                &&& (x == goal ==> found)
                &&& (x != goal ==> forall|y: Coord| in_grid(sz, y) && !bset.contains(y) && adjacent4(x, y)
                    ==> #[trigger] g@[cell_index(sz, y)] != u64::MAX)
            },
            exhausted ==> heap@.len() == 0,
            found ==> closed@[cell_index(sz, goal)],
            steps <= cap,
        decreases cap - steps + (if exhausted { 0int } else { 1int }),
    {
        proof {
            lemma_count_true_le(closed@);
            assert(steps < cap) by (nonlinear_arith)
                requires heap@.len() + steps == npush, npush <= 4 * nclosed + 1, nclosed <= n, cap == 4 * n + 2;
        }
        let ghost hp = heap@;
        let item = heap_pop(&mut heap);
        match item {
            None => {
                exhausted = true;
            },
            Some(e) => {
                steps = steps + 1;
                let c = e.2;
                proof {
                    lemma_cell_index_bounds(sz, c);
                }
                let kc: usize = c.1 as usize * size + c.0 as usize;
                if !closed[kc] {
                    let ghost cl0 = closed@;
                    closed.set(kc, true);
                    proof {
                        lemma_count_true_set(cl0, kc as int);
                        nclosed = nclosed + 1;
                        assert forall|x: Coord| in_grid(sz, x) && x != c implies
                            #[trigger] closed@[cell_index(sz, x)] == cl0[cell_index(sz, x)] by {
                            lemma_cell_index_bounds(sz, x);
                            if cell_index(sz, x) == kc {
                                crate::grid::lemma_cell_index_injective(sz, x, c);
                            }
                        }
                    }
                    if c.0 == goal.0 && c.1 == goal.1 {
                        found = true;
                    } else {
                        let mut d: usize = 0;
                        while d < 4
                            invariant
                                blocked.wf(),
                                costs.wf(),
                                blocked.grid_size() == costs.size,
                                bset == blocked@,
                                sz == costs.size,
                                size == costs.size,
                                n == sz * sz,
                                0 < sz <= MAX_SIZE,
                                u == 0xFFFF_FFFF,
                                g@.len() == n,
                                parent@.len() == n,
                                closed@.len() == n,
                                in_grid(sz, start),
                                in_grid(sz, goal),
                                ks == cell_index(sz, start),
                                in_grid(sz, c),
                                c != goal,
                                kc == cell_index(sz, c),
                                kc < n,
                                closed@[kc as int],
                                !bset.contains(c),
                                d <= 4,
                                links_ok(sz, bset, g@, parent@),
                                forall|x: HeapItem| #[trigger] heap@.contains(x) ==> in_grid(sz, x.2) && !bset.contains(x.2)
                                    && g@[cell_index(sz, x.2)] != u64::MAX,
                                offsets@ == lateral_offsets(),
                                nclosed == count_true(closed@),
                                nclosed >= 1,
                                heap@.len() + steps == npush,
                                npush <= 4 * (nclosed - 1) + 1 + d,
                                g@[ks as int] == 0,
                                g@[kc as int] != u64::MAX,
                                g@[kc as int] <= (nclosed - 1) * u,
                                forall|y: Coord| in_grid(sz, y) && #[trigger] g@[cell_index(sz, y)] != u64::MAX
                                    ==> g@[cell_index(sz, y)] <= nclosed * u,
                                forall|y: Coord| in_grid(sz, y) && #[trigger] g@[cell_index(sz, y)] != u64::MAX
                                    ==> closed@[cell_index(sz, y)] || exists|x: HeapItem| #[trigger] heap@.contains(x) && x.2 == y,
                                forall|y: Coord| in_grid(sz, y) && #[trigger] g@[cell_index(sz, y)] != u64::MAX && y != start
                                    ==> parent@[cell_index(sz, y)] is Some,
                                forall|x: Coord| in_grid(sz, x) && x != c && #[trigger] closed@[cell_index(sz, x)] ==> {
                                    &&& !bset.contains(x)
                                    &&& g@[cell_index(sz, x)] != u64::MAX
                                    &&& (x == goal ==> found)
                                    &&& (x != goal ==> forall|y: Coord| in_grid(sz, y) && !bset.contains(y) && adjacent4(x, y)
                                        ==> #[trigger] g@[cell_index(sz, y)] != u64::MAX)
                                },
                                forall|dd: int| 0 <= dd < d ==> {
                                    let y = ((c.0 + (#[trigger] lateral_offsets()[dd]).0) as i32, (c.1 + lateral_offsets()[dd].1) as i32);
                                    in_grid(sz, y) && !bset.contains(y) ==> g@[cell_index(sz, y)] != u64::MAX
                                },
                                !found,
                            decreases 4 - d,
                        {
                            let off = offsets[d];
                            let nb: Coord = (c.0 + off.0, c.1 + off.1);
                            proof {
                                assert(off == lateral_offsets()[d as int]);
                            }
                            if nb.0 >= 0 && nb.1 >= 0 && (nb.0 as usize) < size && (nb.1 as usize) < size
                                && !blocked.contains(nb) {
                                proof { lemma_cell_index_bounds(sz, nb); }
                                let kn: usize = nb.1 as usize * size + nb.0 as usize;
                                if !closed[kn] {
                                    let cost: u64 = costs.get(nb) as u64;
                                    let gc: u64 = g[kc];
                                    proof {
                                        lemma_count_true_le(closed@);
                                        assert((nclosed - 1) * u + u == nclosed * u) by (nonlinear_arith);
                                        assert(nclosed * u <= n * u) by (nonlinear_arith)
                                            requires nclosed <= n, u >= 0;
                                        assert(n * u <= 46340 * 46340 * 0xFFFF_FFFF) by (nonlinear_arith)
                                            requires n == sz * sz, 0 < sz <= 46340, u == 0xFFFF_FFFF;
                                        assert(cost <= u);
                                    }
                                    let ng: u64 = gc + cost;
                                    if ng < g[kn] {
                                        let ghost g0 = g@;
                                        let ghost p0 = parent@;
                                        let ghost hq = heap@;
                                        proof {
                                            assert(adjacent4(c, nb));
                                            if kn == kc {
                                                crate::grid::lemma_cell_index_injective(sz, nb, c);
                                            }
                                        }
                                        g.set(kn, ng);
                                        parent.set(kn, Some(c));
                                        let hh: u64 = heuristic(nb, goal);
                                        let f: u64 = if ng <= u64::MAX - hh { ng + hh } else { u64::MAX };
                                        heap_push(&mut heap, (f, counter, nb));
                                        proof {
                                            npush = npush + 1;
                                            let item = (f, counter, nb);
                                            assert(heap@.contains(item));
                                            assert forall|y: Coord| in_grid(sz, y) && y != nb implies
                                                #[trigger] g@[cell_index(sz, y)] == g0[cell_index(sz, y)] by {
                                                lemma_cell_index_bounds(sz, y);
                                                if cell_index(sz, y) == kn {
                                                    crate::grid::lemma_cell_index_injective(sz, y, nb);
                                                }
                                            }
                                            assert forall|y: Coord| in_grid(sz, y) && y != nb implies
                                                #[trigger] parent@[cell_index(sz, y)] == p0[cell_index(sz, y)] by {
                                                lemma_cell_index_bounds(sz, y);
                                                if cell_index(sz, y) == kn {
                                                    crate::grid::lemma_cell_index_injective(sz, y, nb);
                                                }
                                            }
                                            assert(g@[kc as int] == gc);
                                            assert forall|x: Coord| in_grid(sz, x) && (#[trigger] parent@[cell_index(sz, x)]) is Some implies {
                                                let p = parent@[cell_index(sz, x)].unwrap();
                                                &&& in_grid(sz, p)
                                                &&& adjacent4(p, x)
                                                &&& g@[cell_index(sz, p)] < g@[cell_index(sz, x)]
                                                &&& !bset.contains(p)
                                                &&& !bset.contains(x)
                                            } by {
                                                if x != nb {
                                                    assert(parent@[cell_index(sz, x)] == p0[cell_index(sz, x)]);
                                                    assert(p0[cell_index(sz, x)] is Some);
                                                    let p = p0[cell_index(sz, x)].unwrap();
                                                    lemma_cell_index_bounds(sz, p);
                                                    assert(g@[cell_index(sz, x)] == g0[cell_index(sz, x)]);
                                                    if p == nb {
                                                        assert(g@[cell_index(sz, p)] == ng);
                                                    } else {
                                                        assert(g@[cell_index(sz, p)] == g0[cell_index(sz, p)]);
                                                    }
                                                }
                                            }
                                            assert forall|y: Coord| in_grid(sz, y) && #[trigger] g@[cell_index(sz, y)] != u64::MAX
                                                implies closed@[cell_index(sz, y)] || exists|x: HeapItem| #[trigger] heap@.contains(x) && x.2 == y by {
                                                if y == nb {
                                                    assert(heap@.contains(item) && item.2 == y);
                                                } else if !closed@[cell_index(sz, y)] {
                                                    let x = choose|x: HeapItem| #[trigger] hq.contains(x) && x.2 == y;
                                                    assert(heap@.contains(x));
                                                }
                                            }
                                            assert forall|x: HeapItem| #[trigger] heap@.contains(x) implies in_grid(sz, x.2) && !bset.contains(x.2)
                                                && g@[cell_index(sz, x.2)] != u64::MAX by {
                                                if x != item {
                                                    assert(hq.contains(x));
                                                }
                                            }
                                        }
                                        if counter < u64::MAX {
                                            counter = counter + 1;
                                        }
                                    }
                                }
                            }
                            d = d + 1;
                        }
                        proof {
                            assert forall|y: Coord| in_grid(sz, y) && !bset.contains(y) && adjacent4(c, y)
                                implies #[trigger] g@[cell_index(sz, y)] != u64::MAX by {
                                let dd = lemma_lateral_index(c, y);
                            }
                        }
                    }
                    proof {
                        assert forall|y: Coord| in_grid(sz, y) && #[trigger] g@[cell_index(sz, y)] != u64::MAX
                            implies closed@[cell_index(sz, y)] || exists|x: HeapItem| #[trigger] heap@.contains(x) && x.2 == y by {
                            if !closed@[cell_index(sz, y)] {
                                let x = choose|x: HeapItem| #[trigger] heap@.contains(x) && x.2 == y;
                                assert(x.2 == y);
                            }
                        }
                    }
                } else {
                    proof {
                        assert forall|y: Coord| in_grid(sz, y) && #[trigger] g@[cell_index(sz, y)] != u64::MAX
                            implies closed@[cell_index(sz, y)] || exists|x: HeapItem| #[trigger] heap@.contains(x) && x.2 == y by {
                            if !closed@[cell_index(sz, y)] {
                                let x = choose|x: HeapItem| #[trigger] hp.contains(x) && x.2 == y;
                                if x == e {
                                    assert(y == c);
                                } else {
                                    assert(heap@.contains(x));
                                }
                            }
                        }
                    }
                }
            },
        }
    }
    if !found {
        proof {
            assert(exhausted) by {
                if !exhausted {
                    lemma_count_true_le(closed@);
                    assert(steps < cap) by (nonlinear_arith)
                        requires heap@.len() + steps == npush, npush <= 4 * nclosed + 1, nclosed <= n, cap == 4 * n + 2;
                }
            }
            let inside = Set::new(|x: Coord| in_grid(sz, x) && closed@[cell_index(sz, x)]);
            assert(inside.contains(start)) by {
                assert(g@[cell_index(sz, start)] != u64::MAX);
                if !closed@[cell_index(sz, start)] {
                    let x = choose|x: HeapItem| #[trigger] heap@.contains(x) && x.2 == start;
                }
            }
            assert forall|x: Coord, y: Coord| #[trigger] inside.contains(x) && in_grid(sz, y) && !bset.contains(y)
                && #[trigger] adjacent4(x, y) implies inside.contains(y) by {
                assert(x != goal);
                assert(g@[cell_index(sz, y)] != u64::MAX);
                if !closed@[cell_index(sz, y)] {
                    let z = choose|z: HeapItem| #[trigger] heap@.contains(z) && z.2 == y;
                }
            }
            assert forall|p: Seq<Coord>| !valid_path(p, start, goal, sz, bset) by {
                if valid_path(p, start, goal, sz, bset) {
                    lemma_path_stays_in(p, start, goal, sz, bset, inside, p.len() - 1);
                }
            }
        }
        return None;
    }
    // walk the parent links back from the goal
    let mut rev: Vec<Coord> = Vec::new();
    rev.push(goal);
    let mut cur: Coord = goal;
    let mut at_root = false;
    proof {
        lemma_cell_index_bounds(sz, goal);
    }
    while !at_root
        invariant
            blocked.wf(),
            costs.wf(),
            blocked.grid_size() == costs.size,
            bset == blocked@,
            sz == costs.size,
            size == costs.size,
            0 < sz <= MAX_SIZE,
            g@.len() == sz * sz,
            parent@.len() == sz * sz,
            links_ok(sz, bset, g@, parent@),
            forall|y: Coord| in_grid(sz, y) && #[trigger] g@[cell_index(sz, y)] != u64::MAX && y != start
                ==> parent@[cell_index(sz, y)] is Some,
            in_grid(sz, cur),
            !bset.contains(cur),
            g@[cell_index(sz, cur)] != u64::MAX,
            at_root ==> cur == start,
            rev@.len() >= 1,
            rev@[0] == goal,
            rev@[rev@.len() - 1] == cur,
            forall|i: int| 0 <= i < rev@.len() ==> in_grid(sz, #[trigger] rev@[i]) && !bset.contains(rev@[i]),
            forall|i: int| 0 <= i < rev@.len() - 1 ==> adjacent4(#[trigger] rev@[i], rev@[i + 1]),
        decreases (if at_root { 0 } else { g@[cell_index(sz, cur)] as int + 1 }),
    {
        proof { lemma_cell_index_bounds(sz, cur); }
        let kcur: usize = cur.1 as usize * size + cur.0 as usize;
        match parent[kcur] {
            None => {
                at_root = true;
            },
            Some(p) => {
                let ghost r0 = rev@;
                rev.push(p);
                proof {
                    assert(adjacent4(r0[r0.len() - 1], p));
                    assert forall|i: int| 0 <= i < rev@.len() - 1 implies adjacent4(#[trigger] rev@[i], rev@[i + 1]) by {
                        if i < r0.len() - 1 {
                            assert(rev@[i] == r0[i] && rev@[i + 1] == r0[i + 1]);
                        }
                    }
                }
                cur = p;
            },
        }
    }
    let m = rev.len();
    let mut path: Vec<Coord> = Vec::new();
    let mut i: usize = m;
    while i > 0
        invariant
            i <= m,
            m == rev@.len(),
            path@.len() == m - i,
            forall|j: int| 0 <= j < path@.len() ==> #[trigger] path@[j] == rev@[m - 1 - j],
        decreases i,
    {
        i = i - 1;
        path.push(rev[i]);
    }
    proof {
        assert forall|j: int| 0 <= j < path@.len() - 1 implies adjacent4(#[trigger] path@[j], path@[j + 1]) by {
            assert(adjacent4(rev@[m - 2 - j], rev@[m - 1 - j]));
        }
        assert forall|j: int| 0 <= j < path@.len() implies costs.cost(#[trigger] path@[j]) >= 1 by {
            costs.lemma_costs_positive(path@[j]);
        }
        assert forall|j: int| 0 <= j < path@.len() implies in_grid(sz, #[trigger] path@[j])
            && !bset.contains(path@[j]) by {
            assert(path@[j] == rev@[m - 1 - j]);
        }
        assert(valid_path(path@, start, goal, sz, bset));
    }
    Some(path)
}

/// Manhattan distance from `c` to `goal`, both on the grid.
fn heuristic(c: Coord, goal: Coord) -> (r: u64)
    requires
        in_grid(MAX_SIZE as int, c),
        in_grid(MAX_SIZE as int, goal),
    ensures
        r == manhattan(c, goal),
{
    let dx: i32 = if c.0 >= goal.0 { c.0 - goal.0 } else { goal.0 - c.0 };
    let dy: i32 = if c.1 >= goal.1 { c.1 - goal.1 } else { goal.1 - c.1 };
    dx as u64 + dy as u64
}

} // verus!
