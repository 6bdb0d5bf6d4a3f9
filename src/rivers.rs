//! Rivers: a lateral path from an open cell to the farthest map corner,
//! clipped where it leaves the open cells, thickened by one cell all round,
//! and stamped as water that later rivers may not cross.
use vstd::prelude::*;
use crate::cellset::CellSet;
use crate::grid::{adjacent4, adjacent8, cell_index, dist2, lemma_cell_index_bounds, get_surrounding, in_grid, surrounding_spec, Coord, MAX_SIZE};
use crate::pathfind::{find_path, valid_path, CostField};
use crate::random::{rand_below, rand_i32_between};
use crate::regions::{lemma_surrounding_index, VoronoiTiling};

verus! {

/// Cell costs are drawn from `1..MAX_COST`.
pub const MAX_COST: i32 = 3;

/// At most this many rivers are carved per map.
pub const MAX_RIVERS: usize = 3;

/// The on-grid cells of `path` and of their eight neighbours.
pub open spec fn thickened(path: Seq<Coord>, size: int) -> Set<Coord> {
    Set::new(|c: Coord| in_grid(size, c) && exists|i: int| 0 <= i < path.len()
        && (c == #[trigger] path[i] || adjacent8(c, path[i])))
}

/// The on-grid cells of `s` and of their eight neighbours.
pub open spec fn spread(s: Set<Coord>, size: int) -> Set<Coord> {
    Set::new(|c: Coord| in_grid(size, c) && exists|x: Coord| #[trigger] s.contains(x) && (c == x || adjacent8(c, x)))
}

pub proof fn lemma_spread_insert(s: Set<Coord>, x: Coord, size: int)
    ensures
        spread(s.insert(x), size) == spread(s, size).union(spread(set![x], size)),
{
    assert forall|c: Coord| #[trigger] spread(s.insert(x), size).contains(c) <==> spread(s, size).union(spread(set![x], size)).contains(c) by {
        if spread(s.insert(x), size).contains(c) {
            let y = choose|y: Coord| #[trigger] s.insert(x).contains(y) && (c == y || adjacent8(c, y));
            if y == x {
                assert(set![x].contains(x));
            } else {
                assert(s.contains(y));
            }
        }
        if spread(s, size).contains(c) {
            let y = choose|y: Coord| #[trigger] s.contains(y) && (c == y || adjacent8(c, y));
            assert(s.insert(x).contains(y));
        }
        if spread(set![x], size).contains(c) {
            assert(s.insert(x).contains(x));
        }
    }
    assert(spread(s.insert(x), size) =~= spread(s, size).union(spread(set![x], size)));
}

/// Blocks `c` and its on-grid neighbours.
fn block_around(obstacles: &mut CellSet, c: Coord)
    requires
        old(obstacles).wf(),
        in_grid(old(obstacles).grid_size() as int, c),
    ensures
        final(obstacles).wf(),
        final(obstacles).grid_size() == old(obstacles).grid_size(),
        final(obstacles)@ == old(obstacles)@.union(spread(set![c], old(obstacles).grid_size() as int)),
{
    let size = obstacles.size();
    let ghost sz = size as int;
    let ghost o0 = obstacles@;
    proof { obstacles.lemma_wf(); }
    obstacles.insert(c);
    let nb = get_surrounding(c);
    let mut m: usize = 0;
    while m < 8
        invariant
            0 <= m <= 8,
            obstacles.wf(),
            obstacles.grid_size() == size,
            sz == size,
            in_grid(sz, c),
            forall|kk: int| 0 <= kk < 8 ==> adjacent8(#[trigger] nb@[kk], c),
            forall|kk: int| 0 <= kk < 8 ==> (#[trigger] nb@[kk]).0 == surrounding_spec(c)[kk].0
                && nb@[kk].1 == surrounding_spec(c)[kk].1,
            obstacles@ == o0.insert(c).union(
                Set::new(|q: Coord| in_grid(sz, q) && exists|kk: int| 0 <= kk < m && q == #[trigger] nb@[kk])),
        decreases 8 - m,
    {
        let q = nb[m];
        if q.0 >= 0 && q.1 >= 0 && (q.0 as usize) < size && (q.1 as usize) < size {
            obstacles.insert(q);
        }
        m = m + 1;
        proof {
            assert(obstacles@ =~= o0.insert(c).union(
                Set::new(|q: Coord| in_grid(sz, q) && exists|kk: int| 0 <= kk < m && q == #[trigger] nb@[kk]))) by {
                assert forall|x: Coord| #[trigger] obstacles@.contains(x) <==> o0.insert(c).union(
                    Set::new(|q: Coord| in_grid(sz, q) && exists|kk: int| 0 <= kk < m && q == #[trigger] nb@[kk])).contains(x) by {
                    if in_grid(sz, x) && x == nb@[m - 1] {
                        assert(exists|kk: int| 0 <= kk < m && x == #[trigger] nb@[kk]);
                    }
                    if in_grid(sz, x) && (exists|kk: int| 0 <= kk < m && x == #[trigger] nb@[kk]) {
                        let kk = choose|kk: int| 0 <= kk < m && x == #[trigger] nb@[kk];
                        if kk < m - 1 {
                            assert(exists|kk2: int| 0 <= kk2 < m - 1 && x == #[trigger] nb@[kk2]);
                        }
                    }
                }
            }
        }
    }
    proof {
        assert(obstacles@ =~= o0.union(spread(set![c], sz))) by {
            assert forall|x: Coord| #[trigger] obstacles@.contains(x) <==> o0.union(spread(set![c], sz)).contains(x) by {
                if x == c {
                    assert(set![c].contains(c));
                }
                if in_grid(sz, x) && (exists|kk: int| 0 <= kk < 8 && x == #[trigger] nb@[kk]) {
                    let kk = choose|kk: int| 0 <= kk < 8 && x == #[trigger] nb@[kk];
                    assert(set![c].contains(c) && adjacent8(x, c));
                }
                if spread(set![c], sz).contains(x) && x != c {
                    let y = choose|y: Coord| #[trigger] set![c].contains(y) && (x == y || adjacent8(x, y));
                    assert(y == c);
                    let kk = lemma_surrounding_index(x, c);
                    assert(nb@[kk] == x);
                }
            }
        }
    }
}

/// Cells that the rivers of `rs` turned from land into water, given the
/// water `w0` before any of them.
pub open spec fn carved_land(rs: Seq<RiverCut>, w0: Set<Coord>) -> Set<Coord> {
    Set::new(|c: Coord| !w0.contains(c) && exists|r: int| 0 <= r < rs.len() && (#[trigger] rs[r]).cells@.contains(c))
}

/// One carved river: the path as planned, the part of it that was kept,
/// and the thickened cells.
pub struct RiverCut {
    pub planned: Vec<Coord>,
    pub path: Vec<Coord>,
    pub cells: Vec<Coord>,
}

/// Carves `path` into the map: the path is kept up to the first cell that is
/// not open, thickened, and every thickened cell leaves the open set and
/// becomes water; those that were not water before also become obstacles.
pub fn carve_river(
    tiling: &mut VoronoiTiling,
    water: &mut CellSet,
    obstacles: &mut CellSet,
    path: Vec<Coord>,
) -> (r: RiverCut)
    requires
        old(tiling).wf(),
        old(water).wf(),
        old(obstacles).wf(),
        old(water).grid_size() == old(tiling).grid_size(),
        old(obstacles).grid_size() == old(tiling).grid_size(),
    ensures
        final(tiling).wf(),
        final(water).wf(),
        final(obstacles).wf(),
        final(tiling).grid_size() == old(tiling).grid_size(),
        final(water).grid_size() == old(water).grid_size(),
        final(obstacles).grid_size() == old(obstacles).grid_size(),
        r.planned@ == path@,
        r.path@.len() <= path@.len(),
        r.path@ == path@.take(r.path@.len() as int),
        forall|i: int| 0 <= i < r.path@.len() ==> old(tiling).open().contains(#[trigger] r.path@[i]),
        r.path@.len() < path@.len() ==> !old(tiling).open().contains(path@[r.path@.len() as int]),
        r.cells@.no_duplicates(),
        r.cells@.to_set() == thickened(r.path@, old(tiling).grid_size()),
        final(tiling).open() == old(tiling).open().difference(thickened(r.path@, old(tiling).grid_size())),
        forall|c: Coord| #[trigger] final(tiling).owner_of(c) == old(tiling).owner_of(c),
        final(tiling).seeds() == old(tiling).seeds(),
        final(tiling).radius() == old(tiling).radius(),
        final(tiling).finished() == old(tiling).finished(),
        final(water)@ == old(water)@.union(thickened(r.path@, old(tiling).grid_size())),
        final(obstacles)@ == old(obstacles)@.union(spread(
            thickened(r.path@, old(tiling).grid_size()).difference(old(water)@), old(tiling).grid_size())),
{
    let ghost sz = tiling.grid_size();
    let size = tiling.size();
    let ghost tl_start = *tiling;
    let mut k: usize = 0;
    let mut stopped = false;
    while k < path.len() && !stopped
        invariant
            tiling.wf(),
            *tiling == tl_start,
            k <= path@.len(),
            forall|i: int| 0 <= i < k ==> tiling.open().contains(#[trigger] path@[i]),
            stopped ==> k < path@.len() && !tiling.open().contains(path@[k as int]),
        decreases path@.len() - k + (if stopped { 0int } else { 1int }),
    {
        if tiling.open_contains(path[k]) {
            k = k + 1;
        } else {
            stopped = true;
        }
    }
    proof {
        tiling.open_set_in_grid();
    }
    let mut kept: Vec<Coord> = Vec::new();
    let mut t = CellSet::new(size);
    let mut i: usize = 0;
    proof {
        assert(thickened(kept@, sz) =~= Set::<Coord>::empty());
    }
    while i < k
        invariant
            tiling.wf(),
            *tiling == tl_start,
            sz == tiling.grid_size(),
            size == sz,
            0 < sz <= MAX_SIZE,
            k <= path@.len(),
            i <= k,
            forall|ii: int| 0 <= ii < k ==> tiling.open().contains(#[trigger] path@[ii]),
            forall|c: Coord| #[trigger] tiling.open().contains(c) ==> in_grid(sz, c),
            kept@ == path@.take(i as int),
            t.wf(),
            t.grid_size() == size,
            t@ == thickened(kept@, sz),
        decreases k - i,
    {
        let p = path[i];
        proof { assert(tiling.open().contains(path@[i as int])); }
        t.insert(p);
        let nb = get_surrounding(p);
        let mut m: usize = 0;
        while m < 8
            invariant
                0 <= m <= 8,
                in_grid(sz, p),
                size == sz,
                0 < sz <= MAX_SIZE,
                t.wf(),
                t.grid_size() == size,
                forall|kk: int| 0 <= kk < 8 ==> adjacent8(#[trigger] nb@[kk], p),
                forall|kk: int| 0 <= kk < 8 ==> (#[trigger] nb@[kk]).0 == surrounding_spec(p)[kk].0
                    && nb@[kk].1 == surrounding_spec(p)[kk].1,
                t@ == thickened(kept@, sz).insert(p).union(
                    Set::new(|c: Coord| in_grid(sz, c) && exists|kk: int| 0 <= kk < m && c == #[trigger] nb@[kk])),
            decreases 8 - m,
        {
            let q = nb[m];
            let ghost t0 = t@;
            if q.0 >= 0 && q.1 >= 0 && (q.0 as usize) < size && (q.1 as usize) < size {
                t.insert(q);
            }
            m = m + 1;
            proof {
                assert(t@ =~= thickened(kept@, sz).insert(p).union(
                    Set::new(|c: Coord| in_grid(sz, c) && exists|kk: int| 0 <= kk < m && c == #[trigger] nb@[kk]))) by {
                    assert forall|c: Coord| #[trigger] t@.contains(c) <==> thickened(kept@, sz).insert(p).union(
                        Set::new(|c: Coord| in_grid(sz, c) && exists|kk: int| 0 <= kk < m && c == #[trigger] nb@[kk])).contains(c) by {
                        if in_grid(sz, c) && c == nb@[m - 1] {
                            assert(exists|kk: int| 0 <= kk < m && c == #[trigger] nb@[kk]);
                        }
                        if in_grid(sz, c) && (exists|kk: int| 0 <= kk < m && c == #[trigger] nb@[kk]) {
                            let kk = choose|kk: int| 0 <= kk < m && c == #[trigger] nb@[kk];
                            if kk < m - 1 {
                                assert(exists|kk2: int| 0 <= kk2 < m - 1 && c == #[trigger] nb@[kk2]);
                            }
                        }
                    }
                }
            }
        }
        let ghost kept0 = kept@;
        kept.push(p);
        i = i + 1;
        proof {
            assert(kept@ =~= path@.take(i as int));
            assert(t@ =~= thickened(kept@, sz)) by {
                assert forall|c: Coord| #[trigger] t@.contains(c) <==> thickened(kept@, sz).contains(c) by {
                    if thickened(kept0, sz).contains(c) {
                        let j = choose|j: int| 0 <= j < kept0.len() && (c == #[trigger] kept0[j] || adjacent8(c, kept0[j]));
                        assert(kept@[j] == kept0[j]);
                    }
                    if c == p {
                        assert(kept@[kept@.len() - 1] == p);
                    }
                    if in_grid(sz, c) && (exists|kk: int| 0 <= kk < 8 && c == #[trigger] nb@[kk]) {
                        let kk = choose|kk: int| 0 <= kk < 8 && c == #[trigger] nb@[kk];
                        assert(adjacent8(c, kept@[kept@.len() - 1]));
                    }
                    if thickened(kept@, sz).contains(c) {
                        let j = choose|j: int| 0 <= j < kept@.len() && (c == #[trigger] kept@[j] || adjacent8(c, kept@[j]));
                        if j < kept0.len() {
                            assert(kept0[j] == kept@[j]);
                            assert(thickened(kept0, sz).contains(c));
                        } else if c != p {
                            let kk = lemma_surrounding_index(c, p);
                            assert(nb@[kk] == c);
                        }
                    }
                }
            }
        }
    }
    let cells = t.to_vec();
    let ghost tset = t@;
    let ghost open0 = tiling.open();
    let ghost water0 = water@;
    let ghost obs0 = obstacles@;
    let ghost tl0 = *tiling;
    let mut j: usize = 0;
    while j < cells.len()
        invariant
            j <= cells@.len(),
            cells@.no_duplicates(),
            cells@.to_set() == tset,
            forall|c: Coord| #[trigger] tset.contains(c) ==> in_grid(sz, c),
            tiling.wf(),
            water.wf(),
            obstacles.wf(),
            tiling.grid_size() == sz,
            water.grid_size() == sz,
            obstacles.grid_size() == sz,
            tiling.open() == open0.difference(cells@.take(j as int).to_set()),
            water@ == water0.union(cells@.take(j as int).to_set()),
            obstacles@ == obs0.union(spread(cells@.take(j as int).to_set().difference(water0), sz)),
            0 < sz <= MAX_SIZE,
            forall|c: Coord| #[trigger] tiling.owner_of(c) == tl0.owner_of(c),
            tiling.seeds() == tl0.seeds(),
            tiling.radius() == tl0.radius(),
            tiling.finished() == tl0.finished(),
        decreases cells@.len() - j,
    {
        let c = cells[j];
        proof {
            assert(cells@.to_set().contains(c));
            if cells@.take(j as int).to_set().contains(c) {
                let jj = choose|jj: int| 0 <= jj < j && cells@.take(j as int)[jj] == c;
                assert(cells@[jj] == cells@[j as int]);
            }
        }
        tiling.remove_open(c);
        let ghost ob = obstacles@;
        if !water.contains(c) {
            block_around(obstacles, c);
        }
        water.insert(c);
        j = j + 1;
        proof {
            cells@.take(j as int - 1).lemma_push_to_set_commute(c);
            assert(cells@.take(j as int) =~= cells@.take(j as int - 1).push(c));
            assert(tiling.open() =~= open0.difference(cells@.take(j as int).to_set()));
            assert(water@ =~= water0.union(cells@.take(j as int).to_set()));
            let s0 = cells@.take(j as int - 1).to_set().difference(water0);
            let s1 = cells@.take(j as int).to_set().difference(water0);
            if water0.contains(c) {
                assert(s1 =~= s0);
            } else {
                assert(s1 =~= s0.insert(c));
                lemma_spread_insert(s0, c, sz);
            }
            assert(obstacles@ =~= obs0.union(spread(s1, sz)));
        }
    }
    proof {
        assert(cells@.take(cells@.len() as int) =~= cells@);
        assert(kept@ == path@.take(k as int));
        assert(obs0 == old(obstacles)@);
    }
    RiverCut { planned: path, path: kept, cells }
}

} // verus!

verus! {

/// The four corners of a `size` by `size` grid, in the order they are tried.
pub open spec fn corners(size: int) -> Seq<Coord> {
    seq![(0i32, 0i32), ((size - 1) as i32, 0i32), ((size - 1) as i32, (size - 1) as i32), (0i32, (size - 1) as i32)]
}

/// `r` is the corner farthest from `start`, the first in `corners` order
/// on ties.
pub open spec fn is_farthest_corner(start: Coord, size: int, r: Coord) -> bool {
    &&& corners(size).contains(r)
    &&& forall|k: int| 0 <= k < 4 ==> dist2(start, #[trigger] corners(size)[k]) <= dist2(start, r)
    &&& exists|k: int| 0 <= k < 4 && #[trigger] corners(size)[k] == r
        && forall|j: int| 0 <= j < k ==> dist2(start, corners(size)[j]) < dist2(start, r)
}

/// A lateral walk from `a` to `b`: along the row first, then the column.
pub open spec fn staircase(a: Coord, b: Coord) -> Seq<Coord>
    decreases (if a.0 >= b.0 { a.0 - b.0 } else { b.0 - a.0 }) + (if a.1 >= b.1 { a.1 - b.1 } else { b.1 - a.1 }),
{
    if a == b {
        seq![a]
    } else {
        let next: Coord = if a.0 < b.0 {
            ((a.0 + 1) as i32, a.1)
        } else if a.0 > b.0 {
            ((a.0 - 1) as i32, a.1)
        } else if a.1 < b.1 {
            (a.0, (a.1 + 1) as i32)
        } else {
            (a.0, (a.1 - 1) as i32)
        };
        seq![a] + staircase(next, b)
    }
}

/// With nothing blocked, any two cells of the grid are joined by a path.
pub proof fn lemma_staircase_valid(a: Coord, b: Coord, sz: int)
    requires
        in_grid(sz, a),
        in_grid(sz, b),
    ensures
        valid_path(staircase(a, b), a, b, sz, Set::<Coord>::empty()),
    decreases (if a.0 >= b.0 { a.0 - b.0 } else { b.0 - a.0 }) + (if a.1 >= b.1 { a.1 - b.1 } else { b.1 - a.1 }),
{
    if a != b {
        let next: Coord = if a.0 < b.0 {
            ((a.0 + 1) as i32, a.1)
        } else if a.0 > b.0 {
            ((a.0 - 1) as i32, a.1)
        } else if a.1 < b.1 {
            (a.0, (a.1 + 1) as i32)
        } else {
            (a.0, (a.1 - 1) as i32)
        };
        lemma_staircase_valid(next, b, sz);
        let rest = staircase(next, b);
        let p = staircase(a, b);
        assert(p == seq![a] + rest);
        assert forall|i: int| 0 <= i < p.len() implies in_grid(sz, #[trigger] p[i]) && !Set::<Coord>::empty().contains(p[i]) by {
            if i > 0 {
                assert(p[i] == rest[i - 1]);
            }
        }
        assert forall|i: int| 0 <= i < p.len() - 1 implies adjacent4(#[trigger] p[i], p[i + 1]) by {
            if i > 0 {
                assert(p[i] == rest[i - 1] && p[i + 1] == rest[i]);
            } else {
                assert(p[1] == rest[0]);
            }
        }
        assert(p[p.len() - 1] == rest[rest.len() - 1]);
    }
}

/// The corner farthest from `start`; the first in `corners` order on ties.
pub fn farthest_corner(start: Coord, size: usize) -> (r: Coord)
    requires
        0 < size <= MAX_SIZE,
        in_grid(size as int, start),
    ensures
        is_farthest_corner(start, size as int, r),
{
    let m: i32 = (size - 1) as i32;
    let cs: [Coord; 4] = [(0, 0), (m, 0), (m, m), (0, m)];
    let mut best: Coord = cs[0];
    let mut best_d: i64 = -1;
    let mut bi: usize = 0;
    let mut k: usize = 0;
    while k < 4
        invariant
            k <= 4,
            m == size - 1,
            0 < size <= MAX_SIZE,
            in_grid(size as int, start),
            cs@ == corners(size as int),
            bi < 4,
            k == 0 ==> best_d == -1 && bi == 0 && best == cs@[0],
            k > 0 ==> bi < k && best == cs@[bi as int] && best_d == dist2(start, best),
            forall|j: int| 0 <= j < k ==> dist2(start, #[trigger] cs@[j]) <= best_d,
            forall|j: int| 0 <= j < bi ==> dist2(start, #[trigger] cs@[j]) < best_d,
        decreases 4 - k,
    {
        let c = cs[k];
        let dx: i64 = start.0 as i64 - c.0 as i64;
        let dy: i64 = start.1 as i64 - c.1 as i64;
        proof {
            assert(0 <= dx * dx <= 46340 * 46340) by (nonlinear_arith)
                requires -46340 <= dx <= 46340;
            assert(0 <= dy * dy <= 46340 * 46340) by (nonlinear_arith)
                requires -46340 <= dy <= 46340;
        }
        let d: i64 = dx * dx + dy * dy;
        if d > best_d {
            best_d = d;
            best = c;
            bi = k;
        }
        k = k + 1;
    }
    proof {
        assert(cs@[bi as int] == best);
        assert(corners(size as int)[bi as int] == best);
    }
    best
}

/// The cost field whose cells, in row-major order, take the costs `draws`.
pub fn costs_from_draws(size: usize, draws: &Vec<u32>) -> (r: CostField)
    requires
        0 < size <= MAX_SIZE,
        draws@.len() == size * size,
        forall|k: int| 0 <= k < draws@.len() ==> #[trigger] draws@[k] >= 1,
    ensures
        r.wf(),
        r.grid_size() == size,
        forall|c: Coord| in_grid(size as int, c) ==> #[trigger] r.cost(c) == draws@[cell_index(size as int, c)],
{
    let mut costs = CostField::new(size);
    let mut y: usize = 0;
    while y < size
        invariant
            y <= size <= MAX_SIZE,
            draws@.len() == size * size,
            forall|k: int| 0 <= k < draws@.len() ==> #[trigger] draws@[k] >= 1,
            costs.wf(),
            costs.grid_size() == size,
            forall|c: Coord| in_grid(size as int, c) && c.1 < y ==> #[trigger] costs.cost(c) == draws@[cell_index(size as int, c)],
        decreases size - y,
    {
        let mut x: usize = 0;
        while x < size
            invariant
                x <= size <= MAX_SIZE,
                y < size,
                draws@.len() == size * size,
                forall|k: int| 0 <= k < draws@.len() ==> #[trigger] draws@[k] >= 1,
                costs.wf(),
                costs.grid_size() == size,
                forall|c: Coord| in_grid(size as int, c) && (c.1 < y || (c.1 == y && c.0 < x))
                    ==> #[trigger] costs.cost(c) == draws@[cell_index(size as int, c)],
            decreases size - x,
        {
            proof { lemma_cell_index_bounds(size as int, (x as i32, y as i32)); }
            let v = draws[y * size + x];
            costs.set((x as i32, y as i32), v);
            x = x + 1;
        }
        y = y + 1;
    }
    costs
}

/// A cost field whose cells, in row-major order, draw their costs from
/// `1..MAX_COST`.
pub fn random_costs(size: usize, rng: &mut fastrand::Rng) -> (r: CostField)
    requires
        0 < size <= MAX_SIZE,
    ensures
        r.wf(),
        r.grid_size() == size,
        forall|c: Coord| in_grid(size as int, c) ==> 1 <= #[trigger] r.cost(c) < MAX_COST,
{
    proof {
        assert(size * size <= MAX_SIZE * MAX_SIZE) by (nonlinear_arith)
            requires 0 < size <= MAX_SIZE;
    }
    let n: usize = size * size;
    let mut draws: Vec<u32> = Vec::new();
    let mut k: usize = 0;
    while k < n
        invariant
            k <= n,
            draws@.len() == k,
            forall|j: int| 0 <= j < k ==> 1 <= #[trigger] draws@[j] < MAX_COST,
        decreases n - k,
    {
        let v = rand_i32_between(rng, 1, MAX_COST - 1);
        draws.push(v as u32);
        k = k + 1;
    }
    let r = costs_from_draws(size, &draws);
    proof {
        assert forall|c: Coord| in_grid(size as int, c) implies 1 <= #[trigger] r.cost(c) < MAX_COST by {
            lemma_cell_index_bounds(size as int, c);
        }
    }
    r
}

/// Carves between one and `MAX_RIVERS` rivers. Each starts at an open cell
/// drawn at random and heads for the farthest corner over a random cost
/// field, avoiding cells that earlier rivers turned from land into water.
/// A river whose corner cannot be reached is skipped.
pub fn create_rivers(tiling: &mut VoronoiTiling, water: &mut CellSet, rng: &mut fastrand::Rng) -> (rivers: Vec<RiverCut>)
    requires
        old(tiling).wf(),
        old(water).wf(),
        old(water).grid_size() == old(tiling).grid_size(),
    ensures
        final(tiling).wf(),
        final(water).wf(),
        final(tiling).grid_size() == old(tiling).grid_size(),
        final(water).grid_size() == old(water).grid_size(),
        rivers@.len() <= MAX_RIVERS,
        forall|r: int| 0 <= r < rivers@.len() ==> {
            let p = (#[trigger] rivers@[r]).path@;
            &&& p.len() >= 1
            &&& forall|i: int| 0 <= i < p.len() ==> old(tiling).open().contains(#[trigger] p[i])
            &&& forall|i: int| 0 <= i < p.len() - 1 ==> adjacent4(#[trigger] p[i], p[i + 1])
            &&& rivers@[r].cells@.no_duplicates()
            &&& rivers@[r].cells@.to_set() == thickened(p, old(tiling).grid_size())
            &&& rivers@[r].planned@.len() >= p.len()
            &&& p == rivers@[r].planned@.take(p.len() as int)
            &&& valid_path(rivers@[r].planned@, p[0], rivers@[r].planned@.last(), old(tiling).grid_size(), Set::<Coord>::empty())
            &&& is_farthest_corner(p[0], old(tiling).grid_size(), rivers@[r].planned@.last())
        },
        old(tiling).open().len() > 0 ==> rivers@.len() >= 1,
        forall|c: Coord| #[trigger] final(tiling).open().contains(c) <==> (old(tiling).open().contains(c)
            && forall|r: int| 0 <= r < rivers@.len() ==> !(#[trigger] rivers@[r]).cells@.contains(c)),
        forall|c: Coord| #[trigger] final(water)@.contains(c) <==> (old(water)@.contains(c)
            || exists|r: int| 0 <= r < rivers@.len() && (#[trigger] rivers@[r]).cells@.contains(c)),
        forall|c: Coord| #[trigger] final(tiling).owner_of(c) == old(tiling).owner_of(c),
        final(tiling).seeds() == old(tiling).seeds(),
        forall|r1: int, r2: int, i: int| 0 <= r1 < r2 < rivers@.len() && 0 <= i < rivers@[r2].path@.len()
            ==> !(#[trigger] rivers@[r1]).cells@.contains(#[trigger] rivers@[r2].path@[i]),
        forall|r1: int, r2: int, c: Coord| 0 <= r1 < r2 < rivers@.len() && #[trigger] rivers@[r1].cells@.contains(c)
            && #[trigger] rivers@[r2].cells@.contains(c) ==> old(water)@.contains(c),
        forall|r: int, i: int| 0 <= r < rivers@.len() && 0 <= i < rivers@[r].planned@.len()
            ==> !carved_land(rivers@.take(r), old(water)@).contains(#[trigger] rivers@[r].planned@[i]),
        forall|r: int| 0 <= r < rivers@.len() && (#[trigger] rivers@[r]).path@.len() < rivers@[r].planned@.len() ==> {
            let x = rivers@[r].planned@[rivers@[r].path@.len() as int];
            !old(tiling).open().contains(x) || exists|r2: int| 0 <= r2 < r && (#[trigger] rivers@[r2]).cells@.contains(x)
        },
{
    let ghost tl0 = *tiling;
    let ghost w0 = water@;
    let ghost sz = tiling.grid_size();
    let size = tiling.size();
    proof { tiling.open_set_in_grid(); }
    let n = rand_below(rng, MAX_RIVERS) + 1;
    let costs = random_costs(size, rng);
    let mut obstacles = CellSet::new(size);
    let mut rivers: Vec<RiverCut> = Vec::new();
    let mut t: usize = 0;
    while t < n
        invariant
            t <= n <= MAX_RIVERS,
            rivers@.len() <= t,
            sz == tiling.grid_size(),
            size == sz,
            0 < sz <= MAX_SIZE,
            tiling.wf(),
            water.wf(),
            obstacles.wf(),
            costs.wf(),
            costs.grid_size() == size,
            water.grid_size() == sz,
            obstacles.grid_size() == sz,
            forall|r: int| 0 <= r < rivers@.len() ==> {
                let p = (#[trigger] rivers@[r]).path@;
                &&& p.len() >= 1
                &&& forall|i: int| 0 <= i < p.len() ==> tl0.open().contains(#[trigger] p[i])
                &&& forall|i: int| 0 <= i < p.len() - 1 ==> adjacent4(#[trigger] p[i], p[i + 1])
                &&& rivers@[r].cells@.no_duplicates()
                &&& rivers@[r].cells@.to_set() == thickened(p, sz)
                &&& rivers@[r].planned@.len() >= p.len()
                &&& p == rivers@[r].planned@.take(p.len() as int)
                &&& valid_path(rivers@[r].planned@, p[0], rivers@[r].planned@.last(), sz, Set::<Coord>::empty())
                &&& is_farthest_corner(p[0], sz, rivers@[r].planned@.last())
            },
            rivers@.len() == 0 ==> obstacles@ == Set::<Coord>::empty(),
            t > 0 && tl0.open().len() > 0 ==> rivers@.len() >= 1,
            forall|c: Coord| #[trigger] tiling.open().contains(c) <==> (tl0.open().contains(c)
                && forall|r: int| 0 <= r < rivers@.len() ==> !(#[trigger] rivers@[r]).cells@.contains(c)),
            forall|c: Coord| #[trigger] water@.contains(c) <==> (w0.contains(c)
                || exists|r: int| 0 <= r < rivers@.len() && (#[trigger] rivers@[r]).cells@.contains(c)),
            forall|c: Coord| #[trigger] tiling.owner_of(c) == tl0.owner_of(c),
            tiling.seeds() == tl0.seeds(),
            forall|r1: int, r2: int, i: int| 0 <= r1 < r2 < rivers@.len() && 0 <= i < rivers@[r2].path@.len()
                ==> !(#[trigger] rivers@[r1]).cells@.contains(#[trigger] rivers@[r2].path@[i]),
            spread(carved_land(rivers@, w0), sz).subset_of(obstacles@),
            forall|r1: int, r2: int, c: Coord| 0 <= r1 < r2 < rivers@.len() && #[trigger] rivers@[r1].cells@.contains(c)
                && #[trigger] rivers@[r2].cells@.contains(c) ==> w0.contains(c),
            forall|r: int, i: int| 0 <= r < rivers@.len() && 0 <= i < rivers@[r].planned@.len()
                ==> !carved_land(rivers@.take(r), w0).contains(#[trigger] rivers@[r].planned@[i]),
            forall|r: int| 0 <= r < rivers@.len() && (#[trigger] rivers@[r]).path@.len() < rivers@[r].planned@.len() ==> {
                let x = rivers@[r].planned@[rivers@[r].path@.len() as int];
                !tl0.open().contains(x) || exists|r2: int| 0 <= r2 < r && (#[trigger] rivers@[r2]).cells@.contains(x)
            },
        decreases n - t,
    {
        t = t + 1;
        proof {
            if rivers@.len() == 0 {
                assert(tiling.open() =~= tl0.open());
            }
        }
        if tiling.open_len() == 0 {
            continue;
        }
        proof { tiling.open_set_in_grid(); }
        let u = rand_below(rng, tiling.open_len());
        let start = tiling.open_cell(u);
        let goal = farthest_corner(start, size);
        let found = find_path(&obstacles, &costs, start, goal);
        match found {
            None => {
                proof {
                    if rivers@.len() == 0 {
                        lemma_staircase_valid(start, goal, sz);
                        assert(valid_path(staircase(start, goal), start, goal, costs.grid_size() as int, obstacles@));
                    }
                }
            },
            Some(path) => {
                let ghost tb = *tiling;
                let ghost wb = water@;
                let ghost rb = rivers@;
                let ghost pv = path@;
                let ghost ob = obstacles@;
                let cut = carve_river(tiling, water, &mut obstacles, path);
                proof {
                    let p = cut.path@;
                    assert(cut.planned@ == pv);
                    assert(pv[0] == start && pv.last() == goal);
                    assert(p[0] == start) by {
                        if p.len() == 0 {
                            assert(pv[0] == start);
                        }
                        assert(p[0] == pv.take(p.len() as int)[0]);
                    }
                    assert(p.len() >= 1) by {
                        if p.len() == 0 {
                            assert(path@[0] == start);
                        }
                    }
                    assert forall|i: int| 0 <= i < p.len() - 1 implies adjacent4(#[trigger] p[i], p[i + 1]) by {
                        assert(p[i] == path@[i] && p[i + 1] == path@[i + 1]);
                    }
                    assert forall|i: int| 0 <= i < p.len() implies tl0.open().contains(#[trigger] p[i]) by {
                        assert(tb.open().contains(p[i]));
                    }
                }
                rivers.push(cut);
                proof {
                    let nr = rivers@.len() as int;
                    let last = rivers@[nr - 1];
                    assert forall|r: int| 0 <= r < nr - 1 implies #[trigger] rivers@[r] == rb[r] by {}
                    assert forall|c: Coord| #[trigger] last.cells@.contains(c) <==> thickened(last.path@, sz).contains(c) by {
                        assert(last.cells@.to_set().contains(c) == last.cells@.contains(c));
                    }
                    assert forall|c: Coord| #[trigger] tiling.open().contains(c) <==> (tl0.open().contains(c)
                        && forall|r: int| 0 <= r < rivers@.len() ==> !(#[trigger] rivers@[r]).cells@.contains(c)) by {
                        if tiling.open().contains(c) {
                            assert(tb.open().contains(c));
                            assert forall|r: int| 0 <= r < rivers@.len() implies !(#[trigger] rivers@[r]).cells@.contains(c) by {
                                if r < nr - 1 {
                                    assert(rivers@[r] == rb[r]);
                                }
                            }
                        }
                        if tl0.open().contains(c) && (forall|r: int| 0 <= r < rivers@.len() ==> !(#[trigger] rivers@[r]).cells@.contains(c)) {
                            assert forall|r: int| 0 <= r < rb.len() implies !(#[trigger] rb[r]).cells@.contains(c) by {
                                assert(rivers@[r] == rb[r]);
                            }
                            assert(!rivers@[nr - 1].cells@.contains(c));
                        }
                    }
                    assert forall|c: Coord| #[trigger] water@.contains(c) <==> (w0.contains(c)
                        || exists|r: int| 0 <= r < rivers@.len() && (#[trigger] rivers@[r]).cells@.contains(c)) by {
                        if wb.contains(c) && !w0.contains(c) {
                            let r = choose|r: int| 0 <= r < rb.len() && (#[trigger] rb[r]).cells@.contains(c);
                            assert(rivers@[r] == rb[r]);
                        }
                        if last.cells@.contains(c) {
                            assert(rivers@[nr - 1].cells@.contains(c));
                        }
                        if exists|r: int| 0 <= r < rivers@.len() && (#[trigger] rivers@[r]).cells@.contains(c) {
                            let r = choose|r: int| 0 <= r < rivers@.len() && (#[trigger] rivers@[r]).cells@.contains(c);
                            if r < nr - 1 {
                                assert(rivers@[r] == rb[r]);
                            }
                        }
                    }
                    assert forall|r1: int, r2: int, i: int| 0 <= r1 < r2 < rivers@.len() && 0 <= i < rivers@[r2].path@.len()
                        implies !(#[trigger] rivers@[r1]).cells@.contains(#[trigger] rivers@[r2].path@[i]) by {
                        assert(rivers@[r1] == rb[r1]);
                        if r2 == nr - 1 {
                            assert(tb.open().contains(last.path@[i]));
                        } else {
                            assert(rivers@[r2] == rb[r2]);
                        }
                    }
                    let el = carved_land(rb, w0);
                    assert(rivers@.take(nr - 1) =~= rb);
                    assert forall|i: int| 0 <= i < pv.len() implies !el.contains(#[trigger] pv[i]) by {
                        if el.contains(pv[i]) {
                            assert(spread(el, sz).contains(pv[i]));
                            assert(ob.contains(pv[i]));
                        }
                    }
                    assert forall|r: int, i: int| 0 <= r < rivers@.len() && 0 <= i < rivers@[r].planned@.len()
                        implies !carved_land(rivers@.take(r), w0).contains(#[trigger] rivers@[r].planned@[i]) by {
                        if r < nr - 1 {
                            assert(rivers@[r] == rb[r]);
                            assert(rivers@.take(r) =~= rb.take(r));
                        } else {
                            assert(rivers@[r].planned@ == pv);
                        }
                    }
                    assert forall|r1: int, r2: int, c: Coord| 0 <= r1 < r2 < rivers@.len() && #[trigger] rivers@[r1].cells@.contains(c)
                        && #[trigger] rivers@[r2].cells@.contains(c) implies w0.contains(c) by {
                        assert(rivers@[r1] == rb[r1]);
                        if r2 < nr - 1 {
                            assert(rivers@[r2] == rb[r2]);
                        } else if !w0.contains(c) {
                            assert(el.contains(c));
                            assert(thickened(last.path@, sz).contains(c));
                            let q = choose|q: int| 0 <= q < last.path@.len() && (c == #[trigger] last.path@[q] || adjacent8(c, last.path@[q]));
                            let pq = last.path@[q];
                            assert(pq == pv[q]);
                            assert(in_grid(sz, pq));
                            assert(pq == c || adjacent8(pq, c));
                            assert(spread(el, sz).contains(pq));
                            assert(ob.contains(pq));
                        }
                    }
                    assert forall|r: int| 0 <= r < rivers@.len() && (#[trigger] rivers@[r]).path@.len() < rivers@[r].planned@.len() implies {
                        let x = rivers@[r].planned@[rivers@[r].path@.len() as int];
                        !tl0.open().contains(x) || exists|r2: int| 0 <= r2 < r && (#[trigger] rivers@[r2]).cells@.contains(x)
                    } by {
                        if r < nr - 1 {
                            assert(rivers@[r] == rb[r]);
                            let x = rivers@[r].planned@[rivers@[r].path@.len() as int];
                            if exists|r2: int| 0 <= r2 < r && (#[trigger] rb[r2]).cells@.contains(x) {
                                let r2 = choose|r2: int| 0 <= r2 < r && (#[trigger] rb[r2]).cells@.contains(x);
                                assert(rivers@[r2] == rb[r2]);
                            }
                        } else {
                            let x = pv[last.path@.len() as int];
                            assert(!tb.open().contains(x));
                            if tl0.open().contains(x) {
                                let r2 = choose|r2: int| 0 <= r2 < rb.len() && (#[trigger] rb[r2]).cells@.contains(x);
                                assert(rivers@[r2] == rb[r2]);
                            }
                        }
                    }
                    let en = carved_land(rivers@, w0);
                    let tn = thickened(last.path@, sz).difference(wb);
                    assert forall|c: Coord| #[trigger] spread(en, sz).contains(c) implies obstacles@.contains(c) by {
                        let x = choose|x: Coord| #[trigger] en.contains(x) && (c == x || adjacent8(c, x));
                        let r = choose|r: int| 0 <= r < rivers@.len() && (#[trigger] rivers@[r]).cells@.contains(x);
                        if r < nr - 1 {
                            assert(rivers@[r] == rb[r]);
                            assert(el.contains(x));
                            assert(spread(el, sz).contains(c));
                        } else {
                            if wb.contains(x) {
                                let r2 = choose|r2: int| 0 <= r2 < rb.len() && (#[trigger] rb[r2]).cells@.contains(x);
                                assert(el.contains(x));
                                assert(spread(el, sz).contains(c));
                            } else {
                                assert(last.cells@.contains(x));
                                assert(tn.contains(x));
                                assert(spread(tn, sz).contains(c));
                            }
                        }
                    }
                    assert forall|r: int| 0 <= r < nr implies {
                        let p = (#[trigger] rivers@[r]).path@;
                        &&& p.len() >= 1
                        &&& forall|i: int| 0 <= i < p.len() ==> tl0.open().contains(#[trigger] p[i])
                        &&& forall|i: int| 0 <= i < p.len() - 1 ==> adjacent4(#[trigger] p[i], p[i + 1])
                        &&& rivers@[r].cells@.no_duplicates()
                        &&& rivers@[r].cells@.to_set() == thickened(p, sz)
                    } by {
                        if r < nr - 1 {
                            assert(rivers@[r] == rb[r]);
                        }
                    }
                }
            },
        }
    }
    rivers
}

} // verus!
