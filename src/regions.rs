//! Region-growth tiler: seeds are placed on the open (land) cells, then all
//! regions grow outward one radius step at a time until no frontier moves.
use vstd::prelude::*;
use crate::cellset::{lemma_count_le, CellSet};
use crate::grid::{
    adjacent8, cell_index, dist2, get_surrounding, in_grid, lemma_cell_index_bounds,
    lemma_cell_index_injective, lemma_nbr_distinct, nbr, surrounding_spec, Coord, MAX_SIZE,
};
use crate::random::{rand_below, rand_i32_between};

verus! {

/// `d2 <= (r + sqrt(2) - 1)^2`, decided over the integers: with `s = r - 1`
/// the bound is `s^2 + 2 + 2 * sqrt(2) * s`, and for `r == 0` it is below one.
pub open spec fn within_growth_radius(d2: int, r: int) -> bool {
    let s = r - 1;
    if s < 0 {
        d2 <= 0
    } else {
        let t = d2 - s * s - 2;
        t <= 0 || t * t <= 8 * s * s
    }
}

/// A larger radius admits every distance that a smaller one admits.
pub proof fn lemma_growth_radius_monotone(d2: int, r1: int, r2: int)
    requires
        0 <= d2,
        0 <= r1 <= r2,
        within_growth_radius(d2, r1),
    ensures
        within_growth_radius(d2, r2),
{
    let s1 = r1 - 1;
    let s2 = r2 - 1;
    if s1 < 0 {
        if s2 >= 0 {
            assert(d2 - s2 * s2 - 2 <= 0) by (nonlinear_arith)
                requires d2 <= 0, s2 >= 0;
        }
    } else {
        let t1 = d2 - s1 * s1 - 2;
        let t2 = d2 - s2 * s2 - 2;
        assert(s1 * s1 <= s2 * s2) by (nonlinear_arith)
            requires 0 <= s1 <= s2;
        if t2 > 0 {
            assert(t2 * t2 <= t1 * t1) by (nonlinear_arith)
                requires 0 < t2 <= t1;
            assert(8 * s1 * s1 <= 8 * s2 * s2) by (nonlinear_arith)
                requires 0 <= s1 <= s2;
        }
    }
}

pub proof fn lemma_dist2_nonneg(a: Coord, b: Coord)
    ensures
        dist2(a, b) >= 0,
{
    let dx = a.0 - b.0;
    let dy = a.1 - b.1;
    assert(dx * dx + dy * dy >= 0) by (nonlinear_arith);
}

/// Whether `p` lies within `radius + sqrt(2) - 1` of `seed`.
pub fn within_growth_radius_exec(p: Coord, seed: Coord, radius: u32) -> (r: bool)
    requires
        in_grid(MAX_SIZE as int, p),
        in_grid(MAX_SIZE as int, seed),
    ensures
        r == within_growth_radius(dist2(p, seed), radius as int),
{
    let dx: i128 = p.0 as i128 - seed.0 as i128;
    let dy: i128 = p.1 as i128 - seed.1 as i128;
    proof {
        assert(dx * dx <= 46340 * 46340) by (nonlinear_arith)
            requires -46340 <= dx <= 46340;
        assert(dy * dy <= 46340 * 46340) by (nonlinear_arith)
            requires -46340 <= dy <= 46340;
        assert(dx * dx >= 0) by (nonlinear_arith);
        assert(dy * dy >= 0) by (nonlinear_arith);
    }
    let d2: i128 = dx * dx + dy * dy;
    if radius == 0 {
        return d2 <= 0;
    }
    let s: i128 = radius as i128 - 1;
    proof {
        assert(0 <= s * s <= 0x1_0000_0000 * 0x1_0000_0000) by (nonlinear_arith)
            requires 0 <= s <= 0x1_0000_0000;
    }
    let t: i128 = d2 - s * s - 2;
    if t <= 0 {
        return true;
    }
    proof {
        assert(t * t <= 0x1_0000_0000 * 0x1_0000_0000) by (nonlinear_arith)
            requires 0 < t <= 0x1_0000_0000;
        assert((8 * s) * s <= 8 * 0x1_0000_0000 * 0x1_0000_0000) by (nonlinear_arith)
            requires 0 <= s <= 0x1_0000_0000;
    }
    t * t <= 8 * s * s
}

/// The region index plus one that `owner` records for `c`, or zero.
pub open spec fn owner_in(size: int, owner: Seq<usize>, c: Coord) -> nat {
    if in_grid(size, c) {
        owner[cell_index(size, c)] as nat
    } else {
        0
    }
}

/// Between two states, cells only leave the open set by being claimed, and
/// each claim goes to a region whose index plus one lies in `lo + 1 ..= hi`.
pub open spec fn only_claims(
    size: int,
    pre_open: Set<Coord>,
    pre_owner: Seq<usize>,
    open: Set<Coord>,
    owner: Seq<usize>,
    lo: int,
    hi: int,
) -> bool {
    &&& forall|c: Coord| #[trigger] pre_open.contains(c) ==> owner_in(size, pre_owner, c) == 0
    &&& forall|c: Coord| #[trigger] open.contains(c) ==> pre_open.contains(c)
    &&& forall|c: Coord| #[trigger] owner_in(size, owner, c) != owner_in(size, pre_owner, c)
        ==> pre_open.contains(c) && !open.contains(c) && lo < owner_in(size, owner, c) <= hi
    &&& forall|c: Coord| #[trigger] pre_open.contains(c) && !open.contains(c)
        ==> owner_in(size, owner, c) != owner_in(size, pre_owner, c)
}

proof fn lemma_only_claims_trans(
    size: int,
    o1: Set<Coord>, w1: Seq<usize>,
    o2: Set<Coord>, w2: Seq<usize>,
    o3: Set<Coord>, w3: Seq<usize>,
    lo: int, mid: int, lo2: int, hi: int,
)
    requires
        lo <= lo2,
        mid <= hi,
        only_claims(size, o1, w1, o2, w2, lo, mid),
        forall|c: Coord| #[trigger] o2.contains(c) ==> owner_in(size, w2, c) == 0,
        forall|c: Coord| #[trigger] o3.contains(c) ==> o2.contains(c),
        forall|c: Coord| #[trigger] owner_in(size, w3, c) != owner_in(size, w2, c)
            ==> o2.contains(c) && !o3.contains(c) && lo2 < owner_in(size, w3, c) <= hi,
        forall|c: Coord| #[trigger] o2.contains(c) && !o3.contains(c)
            ==> owner_in(size, w3, c) != owner_in(size, w2, c),
    ensures
        only_claims(size, o1, w1, o3, w3, lo, hi),
{
    assert forall|c: Coord| #[trigger] owner_in(size, w3, c) != owner_in(size, w1, c)
        implies o1.contains(c) && !o3.contains(c) && lo < owner_in(size, w3, c) <= hi by {
        if owner_in(size, w3, c) != owner_in(size, w2, c) {
            assert(o2.contains(c));
        }
    }
    assert forall|c: Coord| #[trigger] o1.contains(c) && !o3.contains(c)
        implies owner_in(size, w3, c) != owner_in(size, w1, c) by {
        if o2.contains(c) {
            assert(owner_in(size, w2, c) == 0);
        }
    }
}

/// Index of `p` among the eight neighbours of `f`.
pub proof fn lemma_surrounding_index(p: Coord, f: Coord) -> (m: int)
    requires
        adjacent8(p, f),
    ensures
        0 <= m < 8,
        surrounding_spec(f)[m] == (p.0 as int, p.1 as int),
{
    let dx = p.0 - f.0;
    let dy = p.1 - f.1;
    if dy == -1 {
        if dx == -1 { 0 } else if dx == 0 { 1 } else { 2 }
    } else if dy == 0 {
        if dx == -1 { 3 } else { 4 }
    } else {
        if dx == -1 { 5 } else if dx == 0 { 6 } else { 7 }
    }
}

} // verus!

verus! {

/// A lattice point of spacing `density` among the first `grid_size` rows
/// and columns.
pub open spec fn lattice_point(c: Coord, grid_size: int, density: int) -> bool {
    &&& 0 <= c.0 < grid_size
    &&& 0 <= c.1 < grid_size
    &&& (c.0 as int) % density == 0
    &&& (c.1 as int) % density == 0
}

/// `cands` lists `lset` without repetition, column by column, and
/// `offsets` gives each of them a move of length at most `intensity` (none
/// when `intensity` is not positive).
pub open spec fn seeding_plan(cands: Seq<Coord>, offsets: Seq<(i32, i32)>, lset: Set<Coord>, intensity: int) -> bool {
    &&& cands.to_set() == lset
    &&& forall|i: int, j: int| 0 <= i < j < cands.len() ==> column_major_before(#[trigger] cands[i], #[trigger] cands[j])
    &&& offsets.len() == cands.len()
    &&& forall|i: int| 0 <= i < offsets.len() ==>
        (#[trigger] offsets[i]).0 * offsets[i].0 + offsets[i].1 * offsets[i].1 <= if intensity > 0 { intensity * intensity } else { 0 }
}

/// `a` comes before `b` column by column, top to bottom within a column.
pub open spec fn column_major_before(a: Coord, b: Coord) -> bool {
    a.0 < b.0 || (a.0 == b.0 && a.1 < b.1)
}

/// No multiple of `d` lies strictly between two consecutive multiples.
proof fn lemma_no_multiple_between(v: int, base: int, d: int)
    requires
        d > 0,
        v % d == 0,
        base % d == 0,
        base < v,
    ensures
        v >= base + d,
{
    vstd::arithmetic::div_mod::lemma_fundamental_div_mod(v, d);
    vstd::arithmetic::div_mod::lemma_fundamental_div_mod(base, d);
    let qv = v / d;
    let qb = base / d;
    assert(qv > qb) by (nonlinear_arith)
        requires v == d * qv, base == d * qb, base < v, d > 0;
    assert(v >= base + d) by (nonlinear_arith)
        requires v == d * qv, base == d * qb, qv >= qb + 1, d > 0;
}

/// `c` lies within distance `intensity` (none when it is not positive) of a
/// lattice point.
pub open spec fn near_lattice(c: Coord, grid_size: int, density: int, intensity: int) -> bool {
    exists|l: Coord| lattice_point(l, grid_size, density)
        && dist2(c, l) <= if intensity > 0 { intensity * intensity } else { 0 }
}

/// `cands[i]` moved by `offsets[i]`, for each `i`.
pub open spec fn shifted(cands: Seq<Coord>, offsets: Seq<(i32, i32)>) -> Seq<Coord> {
    Seq::new(cands.len(), |i: int| ((cands[i].0 + offsets[i].0) as i32, (cands[i].1 + offsets[i].1) as i32))
}

/// The points of `pts`, in order, that find their cell still open: open in
/// `open` and not taken by an earlier point.
pub open spec fn placed(open: Set<Coord>, pts: Seq<Coord>) -> Seq<Coord>
    decreases pts.len(),
{
    if pts.len() == 0 {
        Seq::empty()
    } else {
        let prev = placed(open, pts.drop_last());
        if open.contains(pts.last()) && !prev.contains(pts.last()) {
            prev.push(pts.last())
        } else {
            prev
        }
    }
}

/// What `placed` keeps comes from `pts`, once each, and in `open`.
pub proof fn lemma_placed_facts(open: Set<Coord>, pts: Seq<Coord>)
    ensures
        placed(open, pts).len() <= pts.len(),
        placed(open, pts).no_duplicates(),
        forall|c: Coord| #[trigger] placed(open, pts).contains(c) ==> pts.contains(c) && open.contains(c),
    decreases pts.len(),
{
    if pts.len() > 0 {
        lemma_placed_facts(open, pts.drop_last());
        let prev = placed(open, pts.drop_last());
        assert forall|c: Coord| #[trigger] placed(open, pts).contains(c) implies pts.contains(c) && open.contains(c) by {
            if prev.contains(c) {
                let k = choose|k: int| 0 <= k < pts.drop_last().len() && pts.drop_last()[k] == c;
                assert(pts[k] == c);
            } else {
                assert(c == pts.last());
                assert(pts[pts.len() - 1] == c);
            }
        }
    }
}

/// Distinct points, all in `open`, are all placed, in order.
pub proof fn lemma_placed_all(open: Set<Coord>, pts: Seq<Coord>)
    requires
        pts.no_duplicates(),
        forall|i: int| 0 <= i < pts.len() ==> open.contains(#[trigger] pts[i]),
    ensures
        placed(open, pts) == pts,
    decreases pts.len(),
{
    if pts.len() > 0 {
        lemma_placed_all(open, pts.drop_last());
        assert(!pts.drop_last().contains(pts.last())) by {
            if pts.drop_last().contains(pts.last()) {
                let k = choose|k: int| 0 <= k < pts.drop_last().len() && pts.drop_last()[k] == pts.last();
                assert(pts[k] == pts[pts.len() - 1]);
            }
        }
        assert(open.contains(pts[pts.len() - 1]));
        assert(pts.drop_last().push(pts.last()) =~= pts);
    }
}

/// Largest `r` with `r * r <= v`.
pub fn isqrt(v: i64) -> (r: i64)
    requires
        0 <= v <= 46340 * 46340,
    ensures
        0 <= r <= 46340,
        r * r <= v < (r + 1) * (r + 1),
{
    let mut r: i64 = 0;
    let mut next_sq: i64 = 1;
    while next_sq <= v
        invariant
            0 <= r <= 46340,
            r * r <= v,
            next_sq == (r + 1) * (r + 1),
            v <= 46340 * 46340,
        decreases v - r * r,
    {
        proof {
            assert(r + 1 <= 46340) by (nonlinear_arith)
                requires (r + 1) * (r + 1) <= v, v <= 46340 * 46340, r >= 0;
            assert(r * r < (r + 1) * (r + 1)) by (nonlinear_arith)
                requires r >= 0;
            assert((r + 2) * (r + 2) == (r + 1) * (r + 1) + 2 * (r + 1) + 1) by (nonlinear_arith);
        }
        r = r + 1;
        next_sq = next_sq + 2 * r + 1;
    }
    r
}

/// `c` touches a frontier cell of `frontier` and lies within `radius` of `seed`.
pub open spec fn candidate(c: Coord, frontier: Seq<Coord>, seed: Coord, radius: int) -> bool {
    touches(c, frontier) && within_growth_radius(dist2(c, seed), radius)
}

/// `c` is in `s` and has a neighbour, diagonals included, outside it.
pub open spec fn on_border(s: Set<Coord>, c: Coord) -> bool {
    s.contains(c) && exists|p: Coord| adjacent8(p, c) && !s.contains(p)
}

/// The cell lists held by `v`.
pub open spec fn lists(v: Seq<Vec<Coord>>) -> Seq<Seq<Coord>> {
    Seq::new(v.len(), |i: int| v[i]@)
}

/// Region-by-region concatenation of two outputs.
pub open spec fn merged(a: Seq<Seq<Coord>>, b: Seq<Seq<Coord>>) -> Seq<Seq<Coord>> {
    Seq::new(
        if a.len() >= b.len() { a.len() } else { b.len() },
        |i: int| (if i < a.len() { a[i] } else { Seq::<Coord>::empty() })
            + (if i < b.len() { b[i] } else { Seq::<Coord>::empty() }),
    )
}

/// The outputs of successive calls, concatenated region by region.
pub open spec fn merge_all(outs: Seq<Seq<Vec<Coord>>>) -> Seq<Seq<Coord>>
    decreases outs.len(),
{
    if outs.len() == 0 {
        Seq::empty()
    } else {
        merged(merge_all(outs.drop_last()), lists(outs.last()))
    }
}

/// `a` followed by `b`.
pub fn concat(a: &Vec<Coord>, b: &Vec<Coord>) -> (r: Vec<Coord>)
    ensures
        r@ == a@ + b@,
{
    let mut r: Vec<Coord> = Vec::new();
    let mut i: usize = 0;
    while i < a.len()
        invariant
            i <= a@.len(),
            r@ == a@.take(i as int),
        decreases a@.len() - i,
    {
        r.push(a[i]);
        i = i + 1;
        proof { assert(r@ =~= a@.take(i as int)); }
    }
    let mut j: usize = 0;
    while j < b.len()
        invariant
            i == a@.len(),
            j <= b@.len(),
            r@ == a@ + b@.take(j as int),
        decreases b@.len() - j,
    {
        r.push(b[j]);
        j = j + 1;
        proof { assert(r@ =~= a@ + b@.take(j as int)); }
    }
    proof {
        assert(a@.take(a@.len() as int) =~= a@);
        assert(b@.take(b@.len() as int) =~= b@);
    }
    r
}

/// Region-by-region concatenation of two outputs.
pub fn merge_outputs(a: &Vec<Vec<Coord>>, b: &Vec<Vec<Coord>>) -> (r: Vec<Vec<Coord>>)
    ensures
        lists(r@) == merged(lists(a@), lists(b@)),
{
    let m: usize = if a.len() >= b.len() { a.len() } else { b.len() };
    let empty: Vec<Coord> = Vec::new();
    let mut r: Vec<Vec<Coord>> = Vec::new();
    let mut i: usize = 0;
    while i < m
        invariant
            i <= m,
            m == if a@.len() >= b@.len() { a@.len() } else { b@.len() },
            empty@ == Seq::<Coord>::empty(),
            r@.len() == i,
            forall|k: int| 0 <= k < i ==> (#[trigger] r@[k])@ == merged(lists(a@), lists(b@))[k],
        decreases m - i,
    {
        let x = if i < a.len() { &a[i] } else { &empty };
        let y = if i < b.len() { &b[i] } else { &empty };
        let v = concat(x, y);
        r.push(v);
        i = i + 1;
    }
    proof {
        assert(lists(r@) =~= merged(lists(a@), lists(b@)));
    }
    r
}

/// The first `m` neighbours of `f`, in order, that are in `open` and lie
/// within `radius` of `seed`: what one frontier cell claims.
pub open spec fn scan_cell(f: Coord, open: Set<Coord>, seed: Coord, radius: int, m: int) -> Seq<Coord>
    decreases (if m <= 0 { 0 } else { m }),
{
    if m <= 0 {
        Seq::empty()
    } else {
        let prev = scan_cell(f, open, seed, radius, m - 1);
        let q = nbr(f, m - 1);
        if open.contains(q) && within_growth_radius(dist2(q, seed), radius) { prev.push(q) } else { prev }
    }
}

/// What a region with frontier `fr` claims in one pass, in order: each
/// frontier cell in turn claims from what earlier ones left open.
pub open spec fn scan(fr: Seq<Coord>, open: Set<Coord>, seed: Coord, radius: int) -> Seq<Coord>
    decreases fr.len(),
{
    if fr.len() == 0 {
        Seq::empty()
    } else {
        let prev = scan(fr.drop_last(), open, seed, radius);
        prev + scan_cell(fr.last(), open.difference(prev.to_set()), seed, radius, 8)
    }
}

/// `open` without the cells that regions before `i` claimed in `out`.
pub open spec fn open_before(open: Set<Coord>, out: Seq<Vec<Coord>>, i: int) -> Set<Coord> {
    Set::new(|c: Coord| open.contains(c) && forall|ii: int| 0 <= ii < i ==> !(#[trigger] out[ii])@.contains(c))
}

pub proof fn lemma_scan_cell(f: Coord, open: Set<Coord>, seed: Coord, radius: int, m: int)
    requires
        crate::grid::interior_i32(f),
        0 <= m <= 8,
    ensures
        forall|c: Coord| #[trigger] scan_cell(f, open, seed, radius, m).contains(c) ==>
            open.contains(c) && exists|k: int| 0 <= k < m && c == nbr(f, k),
    decreases m,
{
    if m > 0 {
        lemma_scan_cell(f, open, seed, radius, m - 1);
        let prev = scan_cell(f, open, seed, radius, m - 1);
        assert forall|c: Coord| #[trigger] scan_cell(f, open, seed, radius, m).contains(c) implies
            open.contains(c) && exists|k: int| 0 <= k < m && c == nbr(f, k) by {
            if prev.contains(c) {
                let k = choose|k: int| 0 <= k < m - 1 && c == nbr(f, k);
            } else {
                let q = choose|q: int| 0 <= q < scan_cell(f, open, seed, radius, m).len()
                    && scan_cell(f, open, seed, radius, m)[q] == c;
                assert(c == nbr(f, m - 1));
            }
        }
    }
}

/// `c` touches some cell of `s`, diagonals included.
pub open spec fn touches(c: Coord, s: Seq<Coord>) -> bool {
    exists|j: int| 0 <= j < s.len() && adjacent8(c, #[trigger] s[j])
}

/// Multi-seed region growth over the open cells of a square grid.
pub struct VoronoiTiling {
    size: usize,
    /// Seeds that random seeding places.
    desired_points: usize,
    /// Size of the open set when the current seeding round began.
    round_open_size: usize,
    open_set: CellSet,
    owner: Vec<usize>,
    growth_starts: Vec<Coord>,
    growth_frontiers: Vec<Vec<Coord>>,
    round_start: usize,
    /// Set by the host once the open set holds every land cell.
    ready_to_tile: bool,
    current_radius: u32,
    done: bool,
    grid_points: Option<(usize, i32, i32)>,
}

impl VoronoiTiling {
    pub closed spec fn grid_size(&self) -> int {
        self.size as int
    }

    /// Cells still eligible for region assignment.
    pub closed spec fn open(&self) -> Set<Coord> {
        self.open_set@
    }

    /// Region index plus one that owns `c`, or zero.
    pub closed spec fn owner_of(&self, c: Coord) -> nat {
        owner_in(self.size as int, self.owner@, c)
    }

    /// Cells claimed by the region grown from seed `i`.
    pub open spec fn region(&self, i: int) -> Set<Coord> {
        Set::new(|c: Coord| self.owner_of(c) == i + 1)
    }

    /// Cells claimed by any region.
    pub open spec fn claimed(&self) -> Set<Coord> {
        Set::new(|c: Coord| self.owner_of(c) != 0)
    }

    /// Cells that are open or claimed.
    pub open spec fn covered(&self) -> Set<Coord> {
        self.open().union(self.claimed())
    }

    /// The open cells in their storage order, which `open_cell` indexes.
    pub closed spec fn open_order(&self) -> Seq<Coord> {
        self.open_set.order()
    }

    pub closed spec fn seeds(&self) -> Seq<Coord> {
        self.growth_starts@
    }

    pub closed spec fn frontier(&self, i: int) -> Seq<Coord> {
        self.growth_frontiers@[i]@
    }

    /// Index of the first seed placed in the current seeding round.
    pub closed spec fn first_of_round(&self) -> nat {
        self.round_start as nat
    }

    pub closed spec fn radius(&self) -> nat {
        self.current_radius as nat
    }

    pub closed spec fn finished(&self) -> bool {
        self.done
    }

    pub closed spec fn desired(&self) -> nat {
        self.desired_points as nat
    }

    /// Size of the open set when the current round was seeded.
    pub closed spec fn round_size(&self) -> nat {
        self.round_open_size as nat
    }

    pub closed spec fn ready(&self) -> bool {
        self.ready_to_tile
    }

    pub closed spec fn grid_config(&self) -> Option<(usize, i32, i32)> {
        self.grid_points
    }

    closed spec fn core_wf(&self) -> bool {
        &&& 0 < self.size <= MAX_SIZE
        &&& self.open_set.wf()
        &&& self.open_set.grid_size() == self.size
        &&& self.owner@.len() == self.size * self.size
        &&& forall|k: int| 0 <= k < self.owner@.len()
            ==> #[trigger] self.owner@[k] <= self.growth_starts@.len()
        &&& forall|c: Coord| #[trigger] self.open_set@.contains(c) ==> self.owner_of(c) == 0
    }

    pub closed spec fn wf(&self) -> bool {
        &&& self.core_wf()
        &&& self.growth_frontiers@.len() == self.growth_starts@.len()
        &&& forall|i: int| 0 <= i < self.growth_starts@.len() ==> {
            &&& in_grid(self.size as int, #[trigger] self.growth_starts@[i])
            &&& self.owner_of(self.growth_starts@[i]) == i + 1
        }
        &&& forall|i: int, j: int| 0 <= i < self.growth_frontiers@.len()
            && 0 <= j < self.growth_frontiers@[i]@.len() ==> {
            &&& in_grid(self.size as int, #[trigger] self.growth_frontiers@[i]@[j])
            &&& self.owner_of(self.growth_frontiers@[i]@[j]) == i + 1
        }
        &&& self.round_start <= self.growth_starts@.len()
        &&& !self.done ==> self.current_radius as int <= 1 + self.claimed().len()
        &&& forall|i: int| 0 <= i < self.round_start ==> (#[trigger] self.growth_frontiers@[i])@.len() == 0
        &&& forall|c: Coord| #[trigger] self.owner_of(c) > self.round_start ==> within_growth_radius(
            dist2(c, self.growth_starts@[self.owner_of(c) - 1]),
            self.current_radius as int,
        )
    }

    /// An empty tiler for a `size` by `size` grid.
    pub fn new(size: usize) -> (r: VoronoiTiling)
        requires
            0 < size <= MAX_SIZE,
        ensures
            r.wf(),
            r.grid_size() == size,
            r.open() == Set::<Coord>::empty(),
            r.claimed() == Set::<Coord>::empty(),
            r.seeds().len() == 0,
            r.first_of_round() == 0,
            r.radius() == 0,
            !r.finished(),
            r.grid_config() is None,
            r.desired() == 0,
            !r.ready(),
    {
        proof {
            assert(size * size <= MAX_SIZE * MAX_SIZE) by (nonlinear_arith)
                requires 0 < size <= MAX_SIZE;
        }
        let n: usize = size * size;
        let r = VoronoiTiling {
            size,
            desired_points: 0,
            round_open_size: 0,
            open_set: CellSet::new(size),
            owner: vec![0usize; n],
            growth_starts: Vec::new(),
            growth_frontiers: Vec::new(),
            round_start: 0,
            ready_to_tile: false,
            current_radius: 0,
            done: false,
            grid_points: None,
        };
        proof {
            assert forall|c: Coord| #[trigger] r.owner_of(c) == 0 by {
                if in_grid(size as int, c) {
                    lemma_cell_index_bounds(size as int, c);
                }
            }
            assert(r.claimed() =~= Set::<Coord>::empty());
        }
        r
    }

    pub fn size(&self) -> (r: usize)
        requires
            self.wf(),
        ensures
            r == self.grid_size(),
    {
        self.size
    }

    /// The eight neighbours of `i`, in the fixed examination order.
    pub fn get_surrounding(i: Coord) -> (r: [Coord; 8])
        requires
            crate::grid::interior_i32(i),
        ensures
            forall|k: int| 0 <= k < 8 ==> (#[trigger] r@[k]).0 == surrounding_spec(i)[k].0
                && r@[k].1 == surrounding_spec(i)[k].1,
            forall|k: int| 0 <= k < 8 ==> adjacent8(#[trigger] r@[k], i),
    {
        get_surrounding(i)
    }

    /// The open cells lie on the grid, and there are finitely many.
    pub proof fn open_set_in_grid(&self)
        requires
            self.wf(),
        ensures
            forall|c: Coord| #[trigger] self.open().contains(c) ==> in_grid(self.grid_size(), c),
            0 < self.grid_size() <= MAX_SIZE,
            self.open().finite(),
    {
        self.open_set.lemma_wf();
    }

    /// Marks `c` as open; refused (`false`) for a cell off the grid or
    /// already claimed by a region.
    pub fn add_open(&mut self, c: Coord) -> (r: bool)
        requires
            old(self).wf(),
        ensures
            final(self).wf(),
            r == (in_grid(old(self).grid_size(), c) && old(self).owner_of(c) == 0),
            final(self).open() == if r { old(self).open().insert(c) } else { old(self).open() },
            final(self).open_order() == if r && !old(self).open().contains(c) {
                old(self).open_order().push(c)
            } else {
                old(self).open_order()
            },
            final(self).grid_size() == old(self).grid_size(),
            forall|x: Coord| #[trigger] final(self).owner_of(x) == old(self).owner_of(x),
            final(self).seeds() == old(self).seeds(),
            final(self).radius() == old(self).radius(),
            final(self).finished() == old(self).finished(),
    {
        if c.0 < 0 || c.1 < 0 || c.0 as usize >= self.size || c.1 as usize >= self.size {
            return false;
        }
        proof { lemma_cell_index_bounds(self.size as int, c); }
        let k: usize = c.1 as usize * self.size + c.0 as usize;
        if self.owner[k] != 0 {
            return false;
        }
        let ghost pre = *self;
        self.open_set.insert(c);
        proof { Self::lemma_wf_open_only(pre, *self); }
        true
    }

    /// Removes `c` from the open set; returns whether it was open.
    pub fn remove_open(&mut self, c: Coord) -> (r: bool)
        requires
            old(self).wf(),
        ensures
            final(self).wf(),
            r == old(self).open().contains(c),
            final(self).open() == old(self).open().remove(c),
            !r ==> final(self).open_order() == old(self).open_order(),
            r ==> exists|p: int| 0 <= p < old(self).open_order().len() && old(self).open_order()[p] == c
                && final(self).open_order() == old(self).open_order().update(p, old(self).open_order().last()).drop_last(),
            final(self).grid_size() == old(self).grid_size(),
            forall|x: Coord| #[trigger] final(self).owner_of(x) == old(self).owner_of(x),
            final(self).seeds() == old(self).seeds(),
            final(self).radius() == old(self).radius(),
            final(self).finished() == old(self).finished(),
    {
        let ghost pre = *self;
        let r = self.open_set.remove(c);
        proof {
            Self::lemma_wf_open_only(pre, *self);
            if r {
                let p = choose|p: int| 0 <= p < pre.open_set.order().len() && pre.open_set.order()[p] == c
                    && self.open_set.order() == pre.open_set.order().update(p, pre.open_set.order().last()).drop_last();
                assert(pre.open_order()[p] == c);
            }
        }
        r
    }

    /// Well-formedness survives a change of the open set that keeps every
    /// open cell unclaimed.
    proof fn lemma_wf_open_only(pre: Self, post: Self)
        requires
            pre.wf(),
            post.open_set.wf(),
            post.open_set.grid_size() == pre.size,
            forall|c: Coord| #[trigger] post.open_set@.contains(c) ==> pre.owner_of(c) == 0,
            post.size == pre.size,
            post.owner == pre.owner,
            post.growth_starts == pre.growth_starts,
            post.growth_frontiers == pre.growth_frontiers,
            post.round_start == pre.round_start,
            post.current_radius == pre.current_radius,
            !post.done ==> !pre.done,
        ensures
            post.wf(),
            forall|c: Coord| #[trigger] post.owner_of(c) == pre.owner_of(c),
    {
        assert forall|c: Coord| #[trigger] post.owner_of(c) == pre.owner_of(c) by {}
        assert(post.claimed() =~= pre.claimed());
        assert forall|c: Coord| #[trigger] post.owner_of(c) > post.round_start implies within_growth_radius(
            dist2(c, post.growth_starts@[post.owner_of(c) - 1]), post.current_radius as int) by {
            assert(pre.owner_of(c) > pre.round_start);
        }
        assert forall|i: int| 0 <= i < post.growth_starts@.len() implies {
            &&& in_grid(post.size as int, #[trigger] post.growth_starts@[i])
            &&& post.owner_of(post.growth_starts@[i]) == i + 1
        } by {
            assert(pre.owner_of(pre.growth_starts@[i]) == i + 1);
        }
        assert forall|i: int, j: int| 0 <= i < post.growth_frontiers@.len()
            && 0 <= j < post.growth_frontiers@[i]@.len() implies {
            &&& in_grid(post.size as int, #[trigger] post.growth_frontiers@[i]@[j])
            &&& post.owner_of(post.growth_frontiers@[i]@[j]) == i + 1
        } by {
            assert(pre.owner_of(pre.growth_frontiers@[i]@[j]) == i + 1);
        }
    }

    pub fn open_contains(&self, c: Coord) -> (r: bool)
        requires
            self.wf(),
        ensures
            r == self.open().contains(c),
    {
        self.open_set.contains(c)
    }

    pub fn open_len(&self) -> (r: usize)
        requires
            self.wf(),
        ensures
            r == self.open().len(),
    {
        self.open_set.len()
    }

    /// Open cell at storage position `i`.
    pub fn open_cell(&self, i: usize) -> (r: Coord)
        requires
            self.wf(),
            i < self.open().len(),
        ensures
            self.open().contains(r),
            r == self.open_order()[i as int],
    {
        self.open_set.get(i)
    }

    /// Every open cell, once each.
    pub fn open_cells(&self) -> (r: Vec<Coord>)
        requires
            self.wf(),
        ensures
            r@.to_set() == self.open(),
            r@.no_duplicates(),
    {
        self.open_set.to_vec()
    }

    /// Starts a new region at the open cell `pt`.
    fn add_seed(&mut self, pt: Coord)
        requires
            old(self).wf(),
            old(self).open_set@.contains(pt),
        ensures
            final(self).wf(),
            final(self).size == old(self).size,
            final(self).open_set@ == old(self).open_set@.remove(pt),
            final(self).growth_starts@ == old(self).growth_starts@.push(pt),
            final(self).growth_frontiers@.len() == old(self).growth_frontiers@.len() + 1,
            final(self).frontier(old(self).growth_starts@.len() as int) == seq![pt],
            forall|i: int| 0 <= i < old(self).growth_frontiers@.len() ==>
                #[trigger] final(self).growth_frontiers@[i] == old(self).growth_frontiers@[i],
            forall|c: Coord| #[trigger] final(self).owner_of(c) == if c == pt {
                old(self).growth_starts@.len() as int + 1
            } else {
                old(self).owner_of(c) as int
            },
            final(self).round_start == old(self).round_start,
            final(self).current_radius == old(self).current_radius,
            final(self).done == old(self).done,
            final(self).grid_points == old(self).grid_points,
            final(self).desired_points == old(self).desired_points,
            final(self).round_open_size == old(self).round_open_size,
            final(self).ready_to_tile == old(self).ready_to_tile,
    {
        let ghost sz = self.size as int;
        let ghost pre = *self;
        proof {
            self.open_set.lemma_wf();
            lemma_cell_index_bounds(sz, pt);
            assert forall|i: int| 0 <= i < self.growth_starts@.len() implies
                #[trigger] self.owner@[cell_index(sz, self.growth_starts@[i])] == i + 1 by {
                lemma_cell_index_bounds(sz, self.growth_starts@[i]);
                assert(self.owner_of(self.growth_starts@[i]) == i + 1);
            }
            assert(self.owner@[cell_index(sz, pt)] == 0);
            lemma_count_le(self.owner@, self.growth_starts@, sz);
        }
        self.open_set.remove(pt);
        let n = self.growth_starts.len();
        let k: usize = pt.1 as usize * self.size + pt.0 as usize;
        self.owner.set(k, n + 1);
        self.growth_starts.push(pt);
        let mut f: Vec<Coord> = Vec::new();
        f.push(pt);
        self.growth_frontiers.push(f);
        proof {
            assert forall|c: Coord| #[trigger] self.owner_of(c) == if c == pt { n as int + 1 } else { pre.owner_of(c) as int } by {
                if in_grid(sz, c) && c != pt {
                    lemma_cell_index_bounds(sz, c);
                    if cell_index(sz, c) == k {
                        lemma_cell_index_injective(sz, c, pt);
                    }
                }
            }
            assert forall|kk: int| 0 <= kk < self.owner@.len()
                implies #[trigger] self.owner@[kk] <= self.growth_starts@.len() by {
                if kk != k {
                    assert(self.owner@[kk] == pre.owner@[kk]);
                }
            }
            assert forall|i: int| 0 <= i < self.growth_starts@.len() implies {
                &&& in_grid(sz, #[trigger] self.growth_starts@[i])
                &&& self.owner_of(self.growth_starts@[i]) == i + 1
            } by {
                if i < n {
                    assert(self.growth_starts@[i] == pre.growth_starts@[i]);
                    assert(pre.owner_of(pre.growth_starts@[i]) == i + 1);
                }
            }
            assert forall|i: int, j: int| 0 <= i < self.growth_frontiers@.len()
                && 0 <= j < self.growth_frontiers@[i]@.len() implies {
                &&& in_grid(sz, #[trigger] self.growth_frontiers@[i]@[j])
                &&& self.owner_of(self.growth_frontiers@[i]@[j]) == i + 1
            } by {
                if i < n {
                    assert(self.growth_frontiers@[i] == pre.growth_frontiers@[i]);
                    assert(pre.owner_of(pre.growth_frontiers@[i]@[j]) == i + 1);
                }
            }
            assert forall|i: int| 0 <= i < self.round_start implies
                (#[trigger] self.growth_frontiers@[i])@.len() == 0 by {
                assert(self.growth_frontiers@[i] == pre.growth_frontiers@[i]);
            }
            assert forall|c: Coord| #[trigger] self.owner_of(c) > self.round_start implies within_growth_radius(
                dist2(c, self.growth_starts@[self.owner_of(c) - 1]), self.current_radius as int) by {
                if c == pt {
                    assert(dist2(c, pt) == 0);
                    if self.current_radius >= 1 {
                        let s0 = self.current_radius - 1;
                        assert(0 - s0 * s0 - 2 <= 0) by (nonlinear_arith);
                    }
                } else {
                    lemma_cell_index_bounds(sz, c);
                    assert(pre.owner@[cell_index(sz, c)] <= n);
                    assert(pre.owner_of(c) > pre.round_start);
                    assert(self.growth_starts@[pre.owner_of(c) - 1] == pre.growth_starts@[pre.owner_of(c) - 1]);
                }
            }
            pre.lemma_claimed_finite();
            self.lemma_claimed_finite();
            assert(pre.claimed().subset_of(self.claimed()));
            vstd::set_lib::lemma_len_subset(pre.claimed(), self.claimed());
        }
    }

    /// What holds after `count` seeds were added to the round that began at
    /// `pre`'s seed count: each new seed was open and forms a region of its
    /// own, and nothing else changed hands.
    pub open spec fn seeded(pre: &Self, post: &Self, count: nat) -> bool {
        let n0 = pre.seeds().len();
        &&& post.seeds().len() == n0 + count
        &&& post.seeds().subrange(0, n0 as int) == pre.seeds()
        &&& forall|j: int| n0 <= j < post.seeds().len() ==> pre.open().contains(#[trigger] post.seeds()[j])
        &&& forall|j: int| n0 <= j < post.seeds().len() ==> #[trigger] post.frontier(j) == seq![post.seeds()[j]]
        &&& forall|j: int, c: Coord| n0 <= j < post.seeds().len() ==>
            (#[trigger] post.region(j).contains(c) <==> c == post.seeds()[j])
        &&& forall|c: Coord| #[trigger] post.owner_of(c) != pre.owner_of(c) ==>
            pre.open().contains(c) && post.owner_of(c) > n0
        &&& forall|c: Coord| #[trigger] post.open().contains(c) <==> (pre.open().contains(c) && post.owner_of(c) == 0)
        &&& post.first_of_round() == pre.first_of_round()
        &&& post.grid_config() == pre.grid_config()
        &&& post.grid_size() == pre.grid_size()
    }

    /// Places `min(desired_points, |open|)` seeds on open cells drawn at random.
    fn seed_random(&mut self, rng: &mut fastrand::Rng) -> (out: Vec<Vec<Coord>>)
        requires
            old(self).wf(),
            old(self).growth_starts@.len() == old(self).round_start,
        ensures
            final(self).wf(),
            Self::seeded(old(self), final(self), vstd::math::min(old(self).desired_points as int, old(self).open_set@.len() as int) as nat),
            final(self).current_radius == 1,
            final(self).done == (old(self).done || vstd::math::min(old(self).desired_points as int, old(self).open_set@.len() as int) == 0),
            final(self).desired_points == old(self).desired_points,
            final(self).ready_to_tile == old(self).ready_to_tile,
            final(self).round_open_size == old(self).open_set@.len(),
            out@.len() == final(self).growth_starts@.len(),
            forall|j: int| 0 <= j < out@.len() ==> (#[trigger] out@[j])@ == if j < old(self).growth_starts@.len() {
                Seq::<Coord>::empty()
            } else {
                seq![final(self).growth_starts@[j]]
            },
    {
        let ghost pre = *self;
        let ghost sz = self.size as int;
        proof { self.open_set.lemma_wf(); }
        self.round_open_size = self.open_set.len();
        self.current_radius = 1;
        proof {
            assert forall|c: Coord| #[trigger] self.owner_of(c) > self.round_start implies within_growth_radius(
                dist2(c, self.growth_starts@[self.owner_of(c) - 1]), self.current_radius as int) by {
                lemma_cell_index_bounds(sz, c);
                assert(self.owner@[cell_index(sz, c)] <= self.growth_starts@.len());
            }
        }
        let n0 = self.growth_starts.len();
        let k: usize = if self.desired_points < self.open_set.len() {
            self.desired_points
        } else {
            self.open_set.len()
        };
        let mut out: Vec<Vec<Coord>> = Vec::new();
        let mut j: usize = 0;
        while j < n0
            invariant
                j <= n0,
                out@.len() == j,
                forall|jj: int| 0 <= jj < j ==> (#[trigger] out@[jj])@ == Seq::<Coord>::empty(),
            decreases n0 - j,
        {
            out.push(Vec::new());
            j = j + 1;
        }
        let ghost before_done = *self;
        if k == 0 {
            self.done = true;
        }
        let mut t: usize = 0;
        proof {
            Self::lemma_wf_open_only(before_done, *self);
            assert(self.growth_starts@.subrange(0, n0 as int) =~= pre.growth_starts@);
            assert forall|c: Coord| #[trigger] self.owner_of(c) == pre.owner_of(c) by {}
            assert forall|c: Coord| #[trigger] self.open().contains(c) <==> (pre.open().contains(c) && self.owner_of(c) == 0) by {
                if pre.open().contains(c) {
                    assert(pre.owner_of(c) == 0);
                }
            }
        }
        while t < k
            invariant
                t <= k,
                k <= pre.open_set@.len(),
                n0 == pre.growth_starts@.len(),
                pre.wf(),
                sz == pre.size,
                self.size == pre.size,
                pre.growth_starts@.len() == pre.round_start,
                self.wf(),
                self.open_set@.len() == pre.open_set@.len() - t,
                Self::seeded(&pre, self, t as nat),
                self.current_radius == 1,
                self.done == (pre.done || k == 0),
                self.desired_points == pre.desired_points,
                self.ready_to_tile == pre.ready_to_tile,
                self.round_open_size == pre.open_set@.len(),
                out@.len() == self.growth_starts@.len(),
                forall|jj: int| 0 <= jj < out@.len() ==> (#[trigger] out@[jj])@ == if jj < n0 {
                    Seq::<Coord>::empty()
                } else {
                    seq![self.growth_starts@[jj]]
                },
            decreases k - t,
        {
            proof { self.open_set.lemma_wf(); }
            let i = rand_below(rng, self.open_set.len());
            let pt = self.open_set.get(i);
            let ghost before = *self;
            self.add_seed(pt);
            let mut v: Vec<Coord> = Vec::new();
            v.push(pt);
            out.push(v);
            proof {
                self.open_set.lemma_wf();
                before.open_set.lemma_wf();
                let n1 = self.growth_starts@.len();
                assert(self.growth_starts@.subrange(0, n0 as int) =~= before.growth_starts@.subrange(0, n0 as int));
                assert(before.open().contains(pt));
                assert forall|jj: int| n0 <= jj < n1 implies pre.open().contains(#[trigger] self.seeds()[jj]) by {
                    if jj < n1 - 1 {
                        assert(self.seeds()[jj] == before.seeds()[jj]);
                        assert(pre.open().contains(before.seeds()[jj]));
                    } else {
                        assert(self.seeds()[jj] == pt);
                    }
                }
                assert forall|jj: int| n0 <= jj < n1 implies #[trigger] self.frontier(jj) == seq![self.seeds()[jj]] by {
                    if jj < n1 - 1 {
                        assert(self.seeds()[jj] == before.seeds()[jj]);
                        assert(self.growth_frontiers@[jj] == before.growth_frontiers@[jj]);
                        assert(before.frontier(jj) == seq![before.seeds()[jj]]);
                    } else {
                        assert(self.seeds()[jj] == pt);
                    }
                }
                assert forall|jj: int, c: Coord| n0 <= jj < n1 implies
                    (#[trigger] self.region(jj).contains(c) <==> c == self.growth_starts@[jj]) by {
                    if jj < n1 - 1 {
                        assert(self.growth_starts@[jj] == before.growth_starts@[jj]);
                        assert(before.region(jj).contains(c) <==> c == before.growth_starts@[jj]);
                        if c == pt {
                            assert(before.owner_of(pt) == 0);
                        }
                    } else {
                        if c != pt && in_grid(sz, c) {
                            lemma_cell_index_bounds(sz, c);
                            assert(before.owner@[cell_index(sz, c)] <= before.growth_starts@.len());
                        }
                    }
                }
                assert forall|c: Coord| #[trigger] self.owner_of(c) != pre.owner_of(c) implies
                    pre.open_set@.contains(c) && self.owner_of(c) > n0 by {
                    if c != pt {
                        assert(before.owner_of(c) != pre.owner_of(c));
                    } else {
                        assert(before.open_set@.contains(pt));
                    }
                }
                assert forall|c: Coord| #[trigger] self.open_set@.contains(c) <==> (pre.open_set@.contains(c) && self.owner_of(c) == 0) by {
                    if c != pt {
                        assert(before.open_set@.contains(c) <==> (pre.open_set@.contains(c) && before.owner_of(c) == 0));
                    }
                }
                assert forall|jj: int| 0 <= jj < out@.len() implies (#[trigger] out@[jj])@ == if jj < n0 {
                    Seq::<Coord>::empty()
                } else {
                    seq![self.growth_starts@[jj]]
                } by {
                    if jj < out@.len() - 1 {
                        assert(self.growth_starts@[jj] == before.growth_starts@[jj]);
                    } else {
                        assert(out@[jj]@ =~= seq![pt]);
                    }
                }
            }
            t = t + 1;
        }
        out
    }

    /// What one growth pass from `pre` to `post` does, `out` holding the
    /// cells each region claimed.
    pub open spec fn grew(pre: &Self, post: &Self, out: Seq<Vec<Coord>>) -> bool {
        let n = pre.seeds().len();
        &&& post.seeds() == pre.seeds()
        &&& post.first_of_round() == pre.first_of_round()
        &&& post.grid_size() == pre.grid_size()
        &&& post.radius() == if pre.radius() < u32::MAX { pre.radius() + 1 } else { pre.radius() }
        &&& post.finished() == forall|i: int| 0 <= i < n ==> (#[trigger] out[i])@.len() == 0
        &&& out.len() == n
        &&& forall|i: int| 0 <= i < n ==> (#[trigger] out[i])@.no_duplicates()
        &&& forall|i: int| 0 <= i < n ==> (#[trigger] out[i])@ == scan(pre.frontier(i),
            open_before(pre.open(), out, i), pre.seeds()[i], pre.radius() as int)
        &&& forall|i: int| 0 <= i < n ==> #[trigger] post.frontier(i) == out[i]@
        &&& forall|i: int, c: Coord| 0 <= i < n ==> (#[trigger] post.region(i).contains(c)
            <==> (pre.region(i).contains(c) || out[i]@.contains(c)))
        &&& forall|c: Coord| #[trigger] post.open().contains(c)
            <==> (pre.open().contains(c) && !post.claimed().contains(c))
        &&& post.covered() == pre.covered()
        &&& forall|i: int, k: int| 0 <= i < n && 0 <= k < out[i]@.len() ==> {
            &&& pre.open().contains(#[trigger] out[i]@[k])
            &&& within_growth_radius(dist2(out[i]@[k], pre.seeds()[i]), pre.radius() as int)
            &&& touches(out[i]@[k], pre.frontier(i))
        }
        &&& forall|i: int, j: int, p: Coord| 0 <= i < n && 0 <= j < pre.frontier(i).len()
            && adjacent8(p, #[trigger] pre.frontier(i)[j])
            && within_growth_radius(dist2(p, pre.seeds()[i]), pre.radius() as int)
            ==> !(#[trigger] post.open().contains(p))
        &&& forall|i: int, k: int, ii: int| 0 <= ii < i < n && 0 <= k < out[i]@.len() ==>
            !candidate(#[trigger] out[i]@[k], #[trigger] pre.frontier(ii), pre.seeds()[ii], pre.radius() as int)
    }

    /// `desired` seeds scaled by the share of `total` cells that `len`
    /// leaves, at least one and at most `len`.
    pub open spec fn rescaled_points(len: int, desired: int, total: int) -> int {
        let raw = if total == 0 {
            if desired > 0 { len } else { 0 }
        } else {
            len * desired / total
        };
        if raw < 1 { 1 } else if raw > len { len } else { raw }
    }

    /// What one call of `next` does, from `pre` to `post`, returning `out`.
    pub open spec fn stepped(pre: &Self, post: &Self, out: Seq<Vec<Coord>>) -> bool {
        &&& pre.finished() ==> out.len() == 0 && *post == *pre
        &&& !pre.finished() && pre.seeds().len() == pre.first_of_round()
            && !(pre.grid_config() matches Some(g) && g.1 > 0) ==> {
            &&& Self::seeded(pre, post, vstd::math::min(pre.desired() as int, pre.open().len() as int) as nat)
            &&& post.radius() == 1
            &&& post.round_size() == pre.open().len()
            &&& post.finished() == (vstd::math::min(pre.desired() as int, pre.open().len() as int) == 0)
            &&& out.len() == post.seeds().len()
            &&& forall|j: int| 0 <= j < out.len() ==> (#[trigger] out[j])@ == if j < pre.seeds().len() {
                Seq::<Coord>::empty()
            } else {
                seq![post.seeds()[j]]
            }
        }
        &&& !pre.finished() && pre.seeds().len() == pre.first_of_round()
            && (pre.grid_config() matches Some(g) && g.1 > 0) ==> {
            let g = pre.grid_config().unwrap();
            let n0 = pre.seeds().len();
            let lset = Set::new(|c: Coord| lattice_point(c, g.0 as int, g.1 as int) && pre.open().contains(c));
            &&& Self::seeded(pre, post, (post.seeds().len() - n0) as nat)
            &&& forall|j: int| n0 <= j < post.seeds().len() ==>
                near_lattice(#[trigger] post.seeds()[j], g.0 as int, g.1 as int, g.2 as int)
            &&& lset.finite()
            &&& post.seeds().len() - n0 <= lset.len()
            &&& exists|cs: Seq<Coord>, offs: Seq<(i32, i32)>| #[trigger] seeding_plan(cs, offs, lset, g.2 as int)
                && post.seeds().subrange(n0 as int, post.seeds().len() as int) == placed(pre.open(), shifted(cs, offs))
            &&& g.2 <= 0 ==> forall|c: Coord| #[trigger] lset.contains(c) <==>
                exists|j: int| n0 <= j < post.seeds().len() && post.seeds()[j] == c
            &&& g.2 <= 0 ==> forall|i: int, j: int| n0 <= i < j < post.seeds().len() ==>
                column_major_before(#[trigger] post.seeds()[i], #[trigger] post.seeds()[j])
            &&& post.radius() == 1
            &&& post.round_size() == pre.open().len()
            &&& post.desired() == post.seeds().len() - n0
            &&& post.finished() == (post.seeds().len() == n0)
            &&& out.len() == post.seeds().len()
            &&& forall|j: int| 0 <= j < out.len() ==> (#[trigger] out[j])@ == if j < n0 {
                Seq::<Coord>::empty()
            } else {
                seq![post.seeds()[j]]
            }
        }
        &&& !pre.finished() && pre.seeds().len() != pre.first_of_round() ==> Self::grew(pre, post, out)
        &&& post.ready() == pre.ready()
        &&& post.covered() == pre.covered()
    }

    /// Advances the tiler by one call: seeds the round when it has no seeds
    /// yet, and otherwise grows every region by one radius step. Returns, for
    /// each region, the cells it claimed in this call.
    pub fn next(&mut self, rng: &mut fastrand::Rng) -> (out: Vec<Vec<Coord>>)
        requires
            old(self).wf(),
        ensures
            final(self).wf(),
            Self::stepped(old(self), final(self), out@),
            old(self).finished() ==> *final(rng) == *old(rng),
            !old(self).finished() && old(self).seeds().len() == old(self).first_of_round()
                && (old(self).grid_config() matches Some(g) && g.1 > 0 && g.2 <= 0) ==> *final(rng) == *old(rng),
            !old(self).finished() && old(self).seeds().len() != old(self).first_of_round() ==> *final(rng) == *old(rng),
    {
        if self.done {
            return Vec::new();
        }
        if self.growth_starts.len() == self.round_start {
            let ghost pre = *self;
            let mut out: Vec<Vec<Coord>> = Vec::new();
            if self.initialize_with_grid_points(&mut out, rng) {
                proof {
                    lemma_seeded_keeps_covered(&pre, self, (self.seeds().len() - pre.seeds().len()) as nat);
                    assert forall|j: int| 0 <= j < out@.len() implies (#[trigger] out@[j])@ == if j < pre.seeds().len() {
                        Seq::<Coord>::empty()
                    } else {
                        seq![self.seeds()[j]]
                    } by {
                        assert(out@[0 + j] == out@[j]);
                    }
                }
                return out;
            }
            let out = self.seed_random(rng);
            proof { lemma_seeded_keeps_covered(&pre, self, (self.seeds().len() - pre.seeds().len()) as nat); }
            return out;
        }
        let ghost pre = *self;
        let out = self.grow_step();
        proof {
            let n = pre.seeds().len();
            assert forall|i: int| 0 <= i < n implies #[trigger] self.frontier(i) == out@[i]@ by {}
            assert forall|i: int, c: Coord| 0 <= i < n implies (#[trigger] self.region(i).contains(c)
                <==> (pre.region(i).contains(c) || out@[i]@.contains(c))) by {
                if self.owner_of(c) != pre.owner_of(c) {
                    assert(pre.open_set@.contains(c));
                }
            }
            assert forall|c: Coord| #[trigger] self.open().contains(c)
                <==> (pre.open().contains(c) && !self.claimed().contains(c)) by {}
            assert(self.covered() =~= pre.covered()) by {
                assert forall|c: Coord| #[trigger] self.covered().contains(c) <==> pre.covered().contains(c) by {
                    if self.owner_of(c) != pre.owner_of(c) {
                        assert(pre.open_set@.contains(c));
                    }
                    if pre.open().contains(c) {
                        assert(pre.owner_of(c) == 0);
                    }
                }
            }
            assert forall|i: int, k: int| 0 <= i < n && 0 <= k < out@[i]@.len() implies {
                &&& pre.open().contains(#[trigger] out@[i]@[k])
                &&& within_growth_radius(dist2(out@[i]@[k], pre.seeds()[i]), pre.radius() as int)
                &&& touches(out@[i]@[k], pre.frontier(i))
            } by {
                let c = out@[i]@[k];
                assert(out@[i]@.contains(c));
                assert(pre.open_set@.contains(c));
            }
            assert forall|i: int, j: int, p: Coord| 0 <= i < n && 0 <= j < pre.frontier(i).len()
                && adjacent8(p, #[trigger] pre.frontier(i)[j])
                && within_growth_radius(dist2(p, pre.seeds()[i]), pre.radius() as int)
                implies !(#[trigger] self.open().contains(p)) by {
                assert(adjacent8(p, pre.growth_frontiers@[i]@[j]));
            }
            assert forall|i: int, k: int, ii: int| 0 <= ii < i < n && 0 <= k < out@[i]@.len() implies
                !candidate(#[trigger] out@[i]@[k], #[trigger] pre.frontier(ii), pre.seeds()[ii], pre.radius() as int) by {
                assert(pre.frontier(ii) == pre.growth_frontiers@[ii]@);
            }
        }
        out
    }

    /// `outs[i]` is what the call of `next` from `states[i]` to
    /// `states[i + 1]` returned.
    pub open spec fn trace(states: Seq<Self>, outs: Seq<Seq<Vec<Coord>>>) -> bool {
        &&& states.len() == outs.len() + 1
        &&& forall|i: int| 0 <= i < outs.len() ==> #[trigger] Self::stepped(&states[i], &states[i + 1], outs[i])
    }

    /// Calls `next` `n` times and merges the claimed cells per region.
    pub fn next_n(&mut self, rng: &mut fastrand::Rng, n: usize) -> (out: Vec<Vec<Coord>>)
        requires
            old(self).wf(),
        ensures
            final(self).wf(),
            exists|states: Seq<Self>, outs: Seq<Seq<Vec<Coord>>>| #[trigger] Self::trace(states, outs)
                && outs.len() == n && states[0] == *old(self) && states[n as int] == *final(self)
                && lists(out@) == merge_all(outs),
            old(self).finished() ==> out@.len() == 0 && *final(self) == *old(self),
            final(self).ready() == old(self).ready(),
    {
        let mut out: Vec<Vec<Coord>> = Vec::new();
        let ghost pre = *self;
        let ghost mut states: Seq<Self> = seq![pre];
        let ghost mut outs: Seq<Seq<Vec<Coord>>> = Seq::empty();
        proof { assert(lists(out@) =~= merge_all(outs)); }
        let mut t: usize = 0;
        while t < n
            invariant
                t <= n,
                self.wf(),
                self.ready() == pre.ready(),
                Self::trace(states, outs),
                outs.len() == t,
                states[0] == pre,
                states[t as int] == *self,
                lists(out@) == merge_all(outs),
                pre.finished() ==> out@.len() == 0 && *self == pre,
            decreases n - t,
        {
            let ghost mid = *self;
            let data = self.next(rng);
            out = merge_outputs(&out, &data);
            proof {
                let s0 = states;
                let o0 = outs;
                states = states.push(*self);
                outs = outs.push(data@);
                assert(outs.drop_last() =~= o0);
                assert forall|i: int| 0 <= i < outs.len() implies #[trigger] Self::stepped(&states[i], &states[i + 1], outs[i]) by {
                    if i < o0.len() {
                        assert(states[i] == s0[i] && states[i + 1] == s0[i + 1] && outs[i] == o0[i]);
                        assert(Self::stepped(&s0[i], &s0[i + 1], o0[i]));
                    }
                }
                if pre.finished() {
                    assert(lists(out@) =~= Seq::<Seq<Coord>>::empty());
                }
            }
            t = t + 1;
        }
        proof { assert(Self::trace(states, outs)); }
        out
    }

    /// Opens a new seeding round over the cells still open, e.g. islands
    /// that no region reached: every frontier is cleared, the radius drops to
    /// zero, grid seeding is switched off, and the seed count is rescaled to
    /// the share of cells left. Does nothing when the open set is empty.
    pub fn continue_with_open_set(&mut self)
        requires
            old(self).wf(),
        ensures
            final(self).wf(),
            old(self).open().len() == 0 ==> *final(self) == *old(self),
            old(self).open().len() != 0 ==> {
                &&& !final(self).finished()
                &&& final(self).radius() == 0
                &&& final(self).grid_config() is None
                &&& final(self).first_of_round() == old(self).seeds().len()
                &&& final(self).seeds() == old(self).seeds()
                &&& final(self).open() == old(self).open()
                &&& final(self).claimed() == old(self).claimed()
                &&& forall|i: int| #[trigger] final(self).region(i) == old(self).region(i)
                &&& forall|i: int| 0 <= i < final(self).seeds().len() ==> (#[trigger] final(self).frontier(i)).len() == 0
                &&& final(self).desired() == Self::rescaled_points(old(self).open().len() as int,
                    old(self).desired() as int, old(self).round_size() as int)
                &&& final(self).round_size() == old(self).round_size()
            },
            final(self).ready() == old(self).ready(),
    {
        proof { self.open_set.lemma_wf(); }
        if self.open_set.len() == 0 {
            return;
        }
        let ghost pre = *self;
        let len = self.open_set.len();
        let raw: u128 = if self.round_open_size == 0 {
            if self.desired_points > 0 { len as u128 } else { 0 }
        } else {
            proof {
                assert(len as int * self.desired_points as int <= 0xFFFF_FFFF_FFFF_FFFF * 0xFFFF_FFFF_FFFF_FFFF) by (nonlinear_arith)
                    requires 0 <= len <= 0xFFFF_FFFF_FFFF_FFFF, 0 <= self.desired_points <= 0xFFFF_FFFF_FFFF_FFFF;
            }
            (len as u128 * self.desired_points as u128) / self.round_open_size as u128
        };
        self.desired_points = if raw < 1 { 1 } else if raw > len as u128 { len } else { raw as usize };
        let n = self.growth_starts.len();
        let mut fronts: Vec<Vec<Coord>> = Vec::new();
        let mut i: usize = 0;
        while i < n
            invariant
                i <= n,
                fronts@.len() == i,
                forall|ii: int| 0 <= ii < i ==> (#[trigger] fronts@[ii])@.len() == 0,
            decreases n - i,
        {
            fronts.push(Vec::new());
            i = i + 1;
        }
        self.growth_frontiers = fronts;
        self.round_start = n;
        self.current_radius = 0;
        self.done = false;
        self.grid_points = None;
        proof {
            assert forall|c: Coord| #[trigger] self.owner_of(c) == pre.owner_of(c) by {}
            assert forall|i: int| #[trigger] self.region(i) == pre.region(i) by {
                assert(self.region(i) =~= pre.region(i));
            }
            assert(self.claimed() =~= pre.claimed());
            assert forall|c: Coord| #[trigger] self.owner_of(c) > self.round_start implies within_growth_radius(
                dist2(c, self.growth_starts@[self.owner_of(c) - 1]), self.current_radius as int) by {
                lemma_cell_index_bounds(self.size as int, c);
                assert(self.owner@[cell_index(self.size as int, c)] <= n);
            }
            assert forall|i: int| 0 <= i < self.growth_starts@.len() implies {
                &&& in_grid(self.size as int, #[trigger] self.growth_starts@[i])
                &&& self.owner_of(self.growth_starts@[i]) == i + 1
            } by {
                assert(pre.owner_of(pre.growth_starts@[i]) == i + 1);
            }
        }
    }

    /// Closes a finished round: when cells are still open (islands no region
    /// reached) a new round over them begins; otherwise the tiling is
    /// complete. Returns whether it is complete; a round still growing is
    /// left alone.
    pub fn settle_round(&mut self) -> (complete: bool)
        requires
            old(self).wf(),
        ensures
            final(self).wf(),
            complete == (old(self).finished() && old(self).open().len() == 0),
            !(old(self).finished() && old(self).open().len() != 0) ==> *final(self) == *old(self),
            old(self).finished() && old(self).open().len() != 0 ==> {
                &&& !final(self).finished()
                &&& final(self).radius() == 0
                &&& final(self).first_of_round() == old(self).seeds().len()
                &&& final(self).open() == old(self).open()
                &&& final(self).claimed() == old(self).claimed()
                &&& final(self).desired() == Self::rescaled_points(old(self).open().len() as int,
                    old(self).desired() as int, old(self).round_size() as int)
            },
            final(self).ready() == old(self).ready(),
    {
        if !self.done {
            return false;
        }
        proof { self.open_set.lemma_wf(); }
        if self.open_set.len() == 0 {
            return true;
        }
        self.continue_with_open_set();
        false
    }

    /// Switches seeding to a lattice of spacing `density` over the first
    /// `grid_size` rows and columns, each point moved by a random offset of
    /// length at most `intensity`.
    pub fn with_grid_points(&mut self, grid_size: usize, density: i32, intensity: i32)
        requires
            old(self).wf(),
        ensures
            final(self).wf(),
            final(self).grid_config() == Some((grid_size, density, intensity)),
            final(self).open() == old(self).open(),
            final(self).claimed() == old(self).claimed(),
            final(self).seeds() == old(self).seeds(),
            final(self).finished() == old(self).finished(),
            final(self).ready() == old(self).ready(),
    {
        let ghost pre = *self;
        self.grid_points = Some((grid_size, density, intensity));
        proof {
            Self::lemma_wf_open_only(pre, *self);
            assert(self.claimed() =~= pre.claimed());
        }
    }

    pub fn set_desired_points(&mut self, n: usize)
        requires
            old(self).wf(),
        ensures
            final(self).wf(),
            final(self).desired() == n,
            final(self).open() == old(self).open(),
            final(self).claimed() == old(self).claimed(),
            final(self).seeds() == old(self).seeds(),
            final(self).finished() == old(self).finished(),
            final(self).grid_config() == old(self).grid_config(),
            final(self).ready() == old(self).ready(),
    {
        let ghost pre = *self;
        self.desired_points = n;
        proof {
            Self::lemma_wf_open_only(pre, *self);
            assert(self.claimed() =~= pre.claimed());
        }
    }

    pub fn desired_points(&self) -> (r: usize)
        ensures
            r == self.desired(),
    {
        self.desired_points
    }

    pub fn set_ready_to_tile(&mut self, ready: bool)
        requires
            old(self).wf(),
        ensures
            final(self).wf(),
            final(self).ready() == ready,
            final(self).open() == old(self).open(),
            final(self).claimed() == old(self).claimed(),
            final(self).seeds() == old(self).seeds(),
            final(self).finished() == old(self).finished(),
    {
        let ghost pre = *self;
        self.ready_to_tile = ready;
        proof {
            Self::lemma_wf_open_only(pre, *self);
            assert(self.claimed() =~= pre.claimed());
        }
    }

    pub fn ready_to_tile(&self) -> (r: bool)
        ensures
            r == self.ready(),
    {
        self.ready_to_tile
    }

    pub fn is_done(&self) -> (r: bool)
        ensures
            r == self.finished(),
    {
        self.done
    }

    pub fn current_radius(&self) -> (r: u32)
        ensures
            r == self.radius(),
    {
        self.current_radius
    }

    pub fn seed_count(&self) -> (r: usize)
        ensures
            r == self.seeds().len(),
    {
        self.growth_starts.len()
    }

    pub fn seed(&self, i: usize) -> (r: Coord)
        requires
            i < self.seeds().len(),
        ensures
            r == self.seeds()[i as int],
    {
        self.growth_starts[i]
    }

    /// Index of the region that owns `c`, if any.
    pub fn region_of(&self, c: Coord) -> (r: Option<usize>)
        requires
            self.wf(),
        ensures
            r == if self.owner_of(c) == 0 { None } else { Some((self.owner_of(c) - 1) as usize) },
    {
        if c.0 < 0 || c.1 < 0 || c.0 as usize >= self.size || c.1 as usize >= self.size {
            return None;
        }
        proof { lemma_cell_index_bounds(self.size as int, c); }
        let k: usize = c.1 as usize * self.size + c.0 as usize;
        let o = self.owner[k];
        if o == 0 { None } else { Some(o - 1) }
    }

    /// Moves each candidate `cands[i]` by `offsets[i]` and, in that order,
    /// starts a region at every moved point that lands on a cell that is
    /// still open. Appends `[seed]` to `out` for each new seed.
    pub fn seed_at_offsets(&mut self, cands: &Vec<Coord>, offsets: &Vec<(i32, i32)>, out: &mut Vec<Vec<Coord>>)
        requires
            old(self).wf(),
            cands@.len() == offsets@.len(),
            forall|i: int| 0 <= i < cands@.len() ==> in_grid(MAX_SIZE as int, #[trigger] cands@[i]),
            forall|i: int| 0 <= i < offsets@.len() ==> -46340 <= (#[trigger] offsets@[i]).0 <= 46340
                && -46340 <= offsets@[i].1 <= 46340,
        ensures
            final(self).wf(),
            Self::seeded(old(self), final(self), (final(self).seeds().len() - old(self).seeds().len()) as nat),
            final(self).seeds().subrange(old(self).seeds().len() as int, final(self).seeds().len() as int)
                == placed(old(self).open(), shifted(cands@, offsets@)),
            final(out)@.len() == old(out)@.len() + final(self).seeds().len() - old(self).seeds().len(),
            final(out)@.subrange(0, old(out)@.len() as int) == old(out)@,
            forall|j: int| old(self).seeds().len() <= j < final(self).seeds().len() ==>
                (#[trigger] final(out)@[old(out)@.len() + j - old(self).seeds().len()])@ == seq![final(self).seeds()[j]],
            final(self).radius() == old(self).radius(),
            final(self).finished() == old(self).finished(),
            final(self).desired() == old(self).desired(),
            final(self).grid_config() == old(self).grid_config(),
            final(self).round_size() == old(self).round_size(),
            final(self).ready() == old(self).ready(),
    {
        let ghost pre = *self;
        let ghost sz = self.size as int;
        let ghost out0 = out@;
        let ghost pts = shifted(cands@, offsets@);
        let n0 = self.growth_starts.len();
        proof {
            assert(self.growth_starts@.subrange(0, n0 as int) =~= pre.growth_starts@);
            assert(self.seeds().subrange(n0 as int, n0 as int) =~= placed(pre.open(), pts.take(0)));
            assert(out@.subrange(0, out0.len() as int) =~= out0);
        }
        let mut t: usize = 0;
        while t < cands.len()
            invariant
                t <= cands@.len(),
                cands@.len() == offsets@.len(),
                pts == shifted(cands@, offsets@),
                forall|i: int| 0 <= i < cands@.len() ==> in_grid(MAX_SIZE as int, #[trigger] cands@[i]),
                forall|i: int| 0 <= i < offsets@.len() ==> -46340 <= (#[trigger] offsets@[i]).0 <= 46340
                    && -46340 <= offsets@[i].1 <= 46340,
                n0 == pre.growth_starts@.len(),
                pre.wf(),
                sz == pre.size,
                self.size == pre.size,
                self.wf(),
                Self::seeded(&pre, self, (self.growth_starts@.len() - n0) as nat),
                self.growth_starts@.len() >= n0,
                self.seeds().subrange(n0 as int, self.seeds().len() as int) == placed(pre.open(), pts.take(t as int)),
                self.current_radius == pre.current_radius,
                self.done == pre.done,
                self.desired_points == pre.desired_points,
                self.grid_points == pre.grid_points,
                self.ready_to_tile == pre.ready_to_tile,
                self.round_open_size == pre.round_open_size,
                out@.len() == out0.len() + self.growth_starts@.len() - n0,
                out@.subrange(0, out0.len() as int) == out0,
                forall|jj: int| n0 <= jj < self.growth_starts@.len() ==>
                    (#[trigger] out@[out0.len() + jj - n0])@ == seq![self.growth_starts@[jj]],
            decreases cands@.len() - t,
        {
            let cand = cands[t];
            let off = offsets[t];
            let pt: Coord = (cand.0 + off.0, cand.1 + off.1);
            proof {
                assert(pt == pts[t as int]);
                let prev = placed(pre.open(), pts.take(t as int));
                assert(pts.take(t as int + 1).drop_last() =~= pts.take(t as int));
                assert(pts.take(t as int + 1).last() == pt);
                if !self.open_set@.contains(pt) && pre.open().contains(pt) {
                    assert(pre.owner_of(pt) == 0);
                    assert(self.open().contains(pt) <==> (pre.open().contains(pt) && self.owner_of(pt) == 0));
                    assert(self.owner_of(pt) != pre.owner_of(pt));
                    self.lemma_owner_bound(pt);
                    let j = (self.owner_of(pt) - 1) as int;
                    assert(self.region(j).contains(pt));
                    assert(self.seeds()[j] == pt);
                    assert(self.seeds().subrange(n0 as int, self.seeds().len() as int)[j - n0] == pt);
                    assert(prev.contains(pt));
                }
            }
            if self.open_set.contains(pt) {
                let ghost before = *self;
                self.add_seed(pt);
                let mut v: Vec<Coord> = Vec::new();
                v.push(pt);
                let ghost ob = out@;
                out.push(v);
                proof {
                    self.open_set.lemma_wf();
                    before.open_set.lemma_wf();
                    let n1 = self.growth_starts@.len();
                    assert(self.growth_starts@.subrange(0, n0 as int) =~= before.growth_starts@.subrange(0, n0 as int));
                    assert(out@.subrange(0, out0.len() as int) =~= ob.subrange(0, out0.len() as int));
                    assert(before.open().contains(pt));
                    assert forall|jj: int| n0 <= jj < n1 implies pre.open().contains(#[trigger] self.seeds()[jj]) by {
                        if jj < n1 - 1 {
                            assert(self.seeds()[jj] == before.seeds()[jj]);
                            assert(pre.open().contains(before.seeds()[jj]));
                        } else {
                            assert(self.seeds()[jj] == pt);
                        }
                    }
                    assert forall|jj: int| n0 <= jj < n1 implies #[trigger] self.frontier(jj) == seq![self.seeds()[jj]] by {
                        if jj < n1 - 1 {
                            assert(self.seeds()[jj] == before.seeds()[jj]);
                            assert(self.growth_frontiers@[jj] == before.growth_frontiers@[jj]);
                            assert(before.frontier(jj) == seq![before.seeds()[jj]]);
                        } else {
                            assert(self.seeds()[jj] == pt);
                        }
                    }
                    assert forall|jj: int, c: Coord| n0 <= jj < n1 implies
                        (#[trigger] self.region(jj).contains(c) <==> c == self.growth_starts@[jj]) by {
                        if jj < n1 - 1 {
                            assert(self.growth_starts@[jj] == before.growth_starts@[jj]);
                            assert(before.region(jj).contains(c) <==> c == before.growth_starts@[jj]);
                            if c == pt {
                                assert(before.owner_of(pt) == 0);
                            }
                        } else {
                            if c != pt && in_grid(sz, c) {
                                lemma_cell_index_bounds(sz, c);
                                assert(before.owner@[cell_index(sz, c)] <= before.growth_starts@.len());
                            }
                        }
                    }
                    assert forall|c: Coord| #[trigger] self.owner_of(c) != pre.owner_of(c) implies
                        pre.open_set@.contains(c) && self.owner_of(c) > n0 by {
                        if c != pt {
                            assert(before.owner_of(c) != pre.owner_of(c));
                        }
                    }
                    assert forall|c: Coord| #[trigger] self.open_set@.contains(c) <==> (pre.open_set@.contains(c) && self.owner_of(c) == 0) by {
                        if c != pt {
                            assert(before.open_set@.contains(c) <==> (pre.open_set@.contains(c) && before.owner_of(c) == 0));
                        }
                    }
                    assert forall|jj: int| n0 <= jj < n1 implies (#[trigger] out@[out0.len() + jj - n0])@ == seq![self.growth_starts@[jj]] by {
                        if jj < n1 - 1 {
                            assert(self.growth_starts@[jj] == before.growth_starts@[jj]);
                            assert(out@[out0.len() + jj - n0] == ob[out0.len() + jj - n0]);
                        } else {
                            assert(out@[out0.len() + jj - n0]@ =~= seq![pt]);
                        }
                    }
                    let prev = placed(pre.open(), pts.take(t as int));
                    assert(pts.take(t as int + 1).drop_last() =~= pts.take(t as int));
                    assert(pts.take(t as int + 1).last() == pt);
                    assert(!prev.contains(pt)) by {
                        if prev.contains(pt) {
                            let q = choose|q: int| 0 <= q < prev.len() && prev[q] == pt;
                            assert(before.seeds().subrange(n0 as int, before.seeds().len() as int)[q] == pt);
                            assert(before.seeds()[n0 + q] == pt);
                            assert(before.region(n0 + q).contains(pt));
                        }
                    }
                    assert(self.seeds().subrange(n0 as int, n1 as int) =~= prev.push(pt));
                }
            }
            t = t + 1;
        }
        proof {
            assert(pts.take(cands@.len() as int) =~= pts);
        }
    }

    /// Seeds the round from the lattice set by `with_grid_points`: every
    /// open lattice point, in column-major order, is moved by a random offset
    /// of length at most `intensity` and becomes a seed when it lands on a
    /// cell that is still open. Returns `false`, changing nothing, when no
    /// lattice is set or its spacing is not positive.
    #[verifier::rlimit(40)]
    pub fn initialize_with_grid_points(&mut self, out: &mut Vec<Vec<Coord>>, rng: &mut fastrand::Rng) -> (r: bool)
        requires
            old(self).wf(),
            old(self).seeds().len() == old(self).first_of_round(),
        ensures
            final(self).wf(),
            r == (old(self).grid_config() matches Some(g) && g.1 > 0),
            !r ==> *final(self) == *old(self) && final(out)@ == old(out)@ && *final(rng) == *old(rng),
            r ==> {
                let g = old(self).grid_config().unwrap();
                let n0 = old(self).seeds().len();
                let lset = Set::new(|c: Coord| lattice_point(c, g.0 as int, g.1 as int) && old(self).open().contains(c));
                &&& Self::seeded(old(self), final(self), (final(self).seeds().len() - n0) as nat)
                &&& forall|j: int| n0 <= j < final(self).seeds().len() ==>
                    near_lattice(#[trigger] final(self).seeds()[j], g.0 as int, g.1 as int, g.2 as int)
                &&& lset.finite()
                &&& final(self).seeds().len() - n0 <= lset.len()
                &&& exists|cs: Seq<Coord>, offs: Seq<(i32, i32)>| #[trigger] seeding_plan(cs, offs, lset, g.2 as int)
                    && final(self).seeds().subrange(n0 as int, final(self).seeds().len() as int) == placed(old(self).open(), shifted(cs, offs))
                &&& g.2 <= 0 ==> forall|c: Coord| #[trigger] lset.contains(c) <==>
                    exists|j: int| n0 <= j < final(self).seeds().len() && final(self).seeds()[j] == c
                &&& g.2 <= 0 ==> forall|i: int, j: int| n0 <= i < j < final(self).seeds().len() ==>
                    column_major_before(#[trigger] final(self).seeds()[i], #[trigger] final(self).seeds()[j])
                &&& g.2 <= 0 ==> *final(rng) == *old(rng)
                &&& final(self).radius() == 1
                &&& final(self).round_size() == old(self).open().len()
                &&& final(self).desired() == final(self).seeds().len() - n0
                &&& final(self).finished() == (old(self).finished() || final(self).seeds().len() == n0)
                &&& final(out)@.len() == old(out)@.len() + final(self).seeds().len()
                &&& forall|j: int| 0 <= j < final(self).seeds().len() ==>
                    (#[trigger] final(out)@[old(out)@.len() + j])@ == if j < n0 {
                        Seq::<Coord>::empty()
                    } else {
                        seq![final(self).seeds()[j]]
                    }
            },
            final(self).ready() == old(self).ready(),
    {
        let (grid_size, density, intensity) = match self.grid_points {
            Some(g) => g,
            None => return false,
        };
        if density <= 0 {
            return false;
        }
        let ghost before_size = *self;
        proof { self.open_set.lemma_wf(); }
        self.round_open_size = self.open_set.len();
        proof { Self::lemma_wf_open_only(before_size, *self); }
        let ghost pre = *self;
        let ghost sz = self.size as int;
        let ghost out0 = out@;
        let n0 = self.growth_starts.len();
        let mut j: usize = 0;
        while j < n0
            invariant
                j <= n0,
                out@.len() == out0.len() + j,
                out@.subrange(0, out0.len() as int) == out0,
                forall|jj: int| 0 <= jj < j ==> (#[trigger] out@[out0.len() + jj])@ == Seq::<Coord>::empty(),
            decreases n0 - j,
        {
            let ghost o = out@;
            out.push(Vec::new());
            proof {
                assert(out@.subrange(0, out0.len() as int) =~= o.subrange(0, out0.len() as int));
                assert forall|jj: int| 0 <= jj < j + 1 implies (#[trigger] out@[out0.len() + jj])@ == Seq::<Coord>::empty() by {
                    if jj < j {
                        assert(out@[out0.len() + jj] == o[out0.len() + jj]);
                    }
                }
            }
            j = j + 1;
        }
        // the lattice points that are open, column by column
        let limit: i64 = if grid_size < self.size { grid_size as i64 } else { self.size as i64 };
        let mut cands: Vec<Coord> = Vec::new();
        let mut x: i64 = 0;
        let ghost mut ix: int = 0;
        proof { pre.open_set_in_grid(); }
        while x < limit
            invariant
                0 <= x,
                x == ix * density,
                0 <= ix,
                density > 0,
                limit <= MAX_SIZE,
                limit <= grid_size,
                limit <= sz,
                limit == if grid_size < sz { grid_size as int } else { sz },
                sz == pre.size,
                *self == pre,
                pre.wf(),
                forall|c: Coord| #[trigger] pre.open().contains(c) ==> in_grid(sz, c),
                forall|i: int| 0 <= i < cands@.len() ==> lattice_point(#[trigger] cands@[i], grid_size as int, density as int)
                    && in_grid(sz, cands@[i]) && pre.open().contains(cands@[i]) && cands@[i].0 < x,
                forall|i: int, j: int| 0 <= i < j < cands@.len() ==> column_major_before(#[trigger] cands@[i], #[trigger] cands@[j]),
                forall|c: Coord| lattice_point(c, grid_size as int, density as int) && #[trigger] pre.open().contains(c)
                    && c.0 < x ==> cands@.contains(c),
            decreases limit + density - x,
        {
            let mut y: i64 = 0;
            let ghost mut iy: int = 0;
            proof {
                vstd::arithmetic::div_mod::lemma_mod_multiples_basic(ix, density as int);
            }
            while y < limit
                invariant
                    0 <= x < limit,
                    (x as int) % (density as int) == 0,
                    0 <= y,
                    y == iy * density,
                    0 <= iy,
                    density > 0,
                    limit <= MAX_SIZE,
                    limit <= grid_size,
                    limit <= sz,
                    limit == if grid_size < sz { grid_size as int } else { sz },
                    sz == pre.size,
                    *self == pre,
                    pre.wf(),
                    forall|c: Coord| #[trigger] pre.open().contains(c) ==> in_grid(sz, c),
                    forall|i: int| 0 <= i < cands@.len() ==> lattice_point(#[trigger] cands@[i], grid_size as int, density as int)
                        && in_grid(sz, cands@[i]) && pre.open().contains(cands@[i])
                        && (cands@[i].0 < x || (cands@[i].0 == x && cands@[i].1 < y)),
                    forall|i: int, j: int| 0 <= i < j < cands@.len() ==> column_major_before(#[trigger] cands@[i], #[trigger] cands@[j]),
                    forall|c: Coord| lattice_point(c, grid_size as int, density as int) && #[trigger] pre.open().contains(c)
                        && (c.0 < x || (c.0 == x && c.1 < y)) ==> cands@.contains(c),
                decreases limit + density - y,
            {
                let cand: Coord = (x as i32, y as i32);
                proof {
                    vstd::arithmetic::div_mod::lemma_mod_multiples_basic(iy, density as int);
                }
                let ghost c0 = cands@;
                if self.open_set.contains(cand) {
                    cands.push(cand);
                    proof {
                        assert forall|c: Coord| lattice_point(c, grid_size as int, density as int) && #[trigger] pre.open().contains(c)
                            && (c.0 < x || (c.0 == x && c.1 < y)) implies cands@.contains(c) by {
                            let q = choose|q: int| 0 <= q < c0.len() && c0[q] == c;
                            assert(cands@[q] == c);
                        }
                        assert(cands@[c0.len() as int] == cand);
                    }
                }
                proof {
                    assert((iy + 1) * density == iy * density + density) by (nonlinear_arith);
                    assert forall|c: Coord| lattice_point(c, grid_size as int, density as int) && #[trigger] pre.open().contains(c)
                        && (c.0 < x || (c.0 == x && c.1 < y + density)) implies cands@.contains(c) by {
                        if c.0 == x && c.1 > y {
                            lemma_no_multiple_between(c.1 as int, y as int, density as int);
                        }
                        if c == cand {
                            assert(cands@[cands@.len() - 1] == cand);
                        }
                    }
                }
                y = y + density as i64;
                proof { iy = iy + 1; }
            }
            proof {
                assert((ix + 1) * density == ix * density + density) by (nonlinear_arith);
                vstd::arithmetic::div_mod::lemma_mod_multiples_basic(ix, density as int);
                assert forall|c: Coord| lattice_point(c, grid_size as int, density as int) && #[trigger] pre.open().contains(c)
                    && c.0 < x + density implies cands@.contains(c) by {
                    if c.0 > x {
                        lemma_no_multiple_between(c.0 as int, x as int, density as int);
                    }
                }
            }
            x = x + density as i64;
            proof { ix = ix + 1; }
        }
        proof {
            assert(cands@.no_duplicates()) by {
                assert forall|i: int, j: int| 0 <= i < cands@.len() && 0 <= j < cands@.len() && i != j
                    implies cands@[i] != cands@[j] by {
                    if i < j {
                        assert(column_major_before(cands@[i], cands@[j]));
                    } else {
                        assert(column_major_before(cands@[j], cands@[i]));
                    }
                }
            }
            assert forall|c: Coord| lattice_point(c, grid_size as int, density as int) && #[trigger] pre.open().contains(c)
                implies cands@.contains(c) by {}
        }
        let k: i32 = if intensity <= 0 { 0 } else if intensity > 46340 { 46340 } else { intensity };
        // one offset of length at most `k` per candidate
        let ghost rng0 = *rng;
        let mut offsets: Vec<(i32, i32)> = Vec::new();
        let mut t: usize = 0;
        while t < cands.len()
            invariant
                t <= cands@.len(),
                offsets@.len() == t,
                0 <= k <= 46340,
                k == if intensity <= 0 { 0 } else if intensity > 46340 { 46340 } else { intensity },
                forall|i: int| 0 <= i < t ==> -k <= (#[trigger] offsets@[i]).0 <= k && -k <= offsets@[i].1 <= k
                    && offsets@[i].0 * offsets@[i].0 + offsets@[i].1 * offsets@[i].1 <= k * k,
                k == 0 ==> *rng == rng0,
            decreases cands@.len() - t,
        {
            if k > 0 {
                let dx = rand_i32_between(rng, -k, k);
                proof {
                    assert((k as i64) * (k as i64) <= 46340 * 46340) by (nonlinear_arith)
                        requires 0 < k <= 46340;
                    assert(0 <= (dx as i64) * (dx as i64) <= (k as i64) * (k as i64)) by (nonlinear_arith)
                        requires 0 < k <= 46340, -k <= dx <= k;
                    assert(0 <= (k as int) * (k as int) - (dx as int) * (dx as int) <= 46340 * 46340) by (nonlinear_arith)
                        requires 0 < k <= 46340, -k <= dx <= k;
                }
                let m = isqrt(k as i64 * k as i64 - dx as i64 * dx as i64);
                proof {
                    assert(m <= k) by (nonlinear_arith)
                        requires m * m <= k * k - dx * dx, m >= 0, k > 0;
                }
                let dy = rand_i32_between(rng, -(m as i32), m as i32);
                proof {
                    assert((dy as int) * (dy as int) <= (m as int) * (m as int)) by (nonlinear_arith)
                        requires -m <= dy <= m, m >= 0;
                }
                offsets.push((dx, dy));
            } else {
                offsets.push((0, 0));
            }
            t = t + 1;
        }
        self.current_radius = 1;
        proof {
            assert forall|c: Coord| #[trigger] self.owner_of(c) > self.round_start implies within_growth_radius(
                dist2(c, self.growth_starts@[self.owner_of(c) - 1]), self.current_radius as int) by {
                if in_grid(sz, c) {
                    lemma_cell_index_bounds(sz, c);
                    assert(self.owner@[cell_index(sz, c)] <= self.growth_starts@.len());
                }
            }
        }
        let ghost mid = *self;
        let ghost mid_out = out@;
        self.seed_at_offsets(&cands, &offsets, out);
        let placed_count = self.growth_starts.len() - n0;
        let ghost before_end = *self;
        self.desired_points = placed_count;
        if placed_count == 0 {
            self.done = true;
        }
        proof {
            let pts = shifted(cands@, offsets@);
            let lset = Set::new(|c: Coord| lattice_point(c, grid_size as int, density as int) && old(self).open().contains(c));
            Self::lemma_wf_open_only(before_end, *self);
            assert forall|c: Coord| #[trigger] mid.owner_of(c) == pre.owner_of(c) by {}
            assert forall|c: Coord| #[trigger] self.owner_of(c) == before_end.owner_of(c) by {}
            let o = *old(self);
            assert forall|c: Coord| #[trigger] o.owner_of(c) == pre.owner_of(c) by {}
            assert(Self::seeded(&mid, &before_end, placed_count as nat));
            assert forall|jj: int| n0 <= jj < self.seeds().len() implies #[trigger] self.frontier(jj) == seq![self.seeds()[jj]] by {
                assert(before_end.frontier(jj) == seq![before_end.seeds()[jj]]);
            }
            assert forall|jj: int, c: Coord| n0 <= jj < self.seeds().len() implies
                (#[trigger] self.region(jj).contains(c) <==> c == self.seeds()[jj]) by {
                assert(before_end.region(jj).contains(c) <==> c == before_end.seeds()[jj]);
            }
            assert forall|c: Coord| #[trigger] self.owner_of(c) != o.owner_of(c) implies
                o.open().contains(c) && self.owner_of(c) > n0 by {
                assert(before_end.owner_of(c) != mid.owner_of(c));
            }
            assert forall|c: Coord| #[trigger] self.open().contains(c) <==> (o.open().contains(c) && self.owner_of(c) == 0) by {
                assert(before_end.open().contains(c) <==> (mid.open().contains(c) && before_end.owner_of(c) == 0));
            }
            assert forall|jj: int| n0 <= jj < self.seeds().len() implies o.open().contains(#[trigger] self.seeds()[jj]) by {
                assert(mid.open().contains(before_end.seeds()[jj]));
            }
            assert(self.seeds().subrange(0, n0 as int) =~= before_end.seeds().subrange(0, n0 as int));
            assert(Self::seeded(&o, self, (self.seeds().len() - n0) as nat));
            // what was placed
            let newseeds = self.seeds().subrange(n0 as int, self.seeds().len() as int);
            assert(newseeds == placed(o.open(), pts));
            lemma_placed_facts(o.open(), pts);
            assert forall|jj: int| n0 <= jj < self.seeds().len() implies
                near_lattice(#[trigger] self.seeds()[jj], grid_size as int, density as int, intensity as int) by {
                let c = self.seeds()[jj];
                assert(newseeds[jj - n0] == c);
                assert(newseeds.contains(c));
                let i = choose|i: int| 0 <= i < pts.len() && pts[i] == c;
                let cd = cands@[i];
                let of = offsets@[i];
                assert(lattice_point(cd, grid_size as int, density as int));
                assert(dist2(c, cd) == of.0 * of.0 + of.1 * of.1);
                if intensity > 0 {
                    assert(k as int * k as int <= intensity as int * intensity as int) by (nonlinear_arith)
                        requires 0 < k <= intensity;
                }
            }
            cands@.unique_seq_to_set();
            assert(cands@.to_set() =~= lset) by {
                assert forall|c: Coord| #[trigger] lset.contains(c) implies cands@.contains(c) by {
                    o.open_set_in_grid();
                }
            }
            assert(placed_count <= lset.len());
            assert forall|i: int| 0 <= i < offsets@.len() implies
                (#[trigger] offsets@[i]).0 * offsets@[i].0 + offsets@[i].1 * offsets@[i].1
                    <= if intensity > 0 { intensity * intensity } else { 0 } by {
                if intensity > 0 {
                    assert(k as int * k as int <= intensity as int * intensity as int) by (nonlinear_arith)
                        requires 0 < k <= intensity;
                }
            }
            assert(seeding_plan(cands@, offsets@, lset, intensity as int));
            if intensity <= 0 {
                assert(pts =~= cands@);
                assert forall|i: int| 0 <= i < cands@.len() implies o.open().contains(#[trigger] cands@[i]) by {}
                lemma_placed_all(o.open(), cands@);
                assert(newseeds == cands@);
                assert forall|c: Coord| #[trigger] lset.contains(c) <==>
                    exists|j: int| n0 <= j < self.seeds().len() && self.seeds()[j] == c by {
                    if lset.contains(c) {
                        assert(cands@.to_set().contains(c));
                        let q = choose|q: int| 0 <= q < cands@.len() && cands@[q] == c;
                        assert(newseeds[q] == c);
                        assert(self.seeds()[n0 + q] == c);
                    }
                    if exists|j: int| n0 <= j < self.seeds().len() && self.seeds()[j] == c {
                        let j = choose|j: int| n0 <= j < self.seeds().len() && self.seeds()[j] == c;
                        assert(newseeds[j - n0] == c);
                        assert(cands@[j - n0] == c);
                        assert(cands@.to_set().contains(c));
                    }
                }
                assert forall|i: int, j: int| n0 <= i < j < self.seeds().len() implies
                    column_major_before(#[trigger] self.seeds()[i], #[trigger] self.seeds()[j]) by {
                    assert(newseeds[i - n0] == self.seeds()[i]);
                    assert(newseeds[j - n0] == self.seeds()[j]);
                    assert(column_major_before(cands@[i - n0], cands@[j - n0]));
                }
            }
            assert(out@.subrange(0, out0.len() as int) =~= out0) by {
                assert(out@.subrange(0, mid_out.len() as int) == mid_out);
                assert(mid_out.subrange(0, out0.len() as int) == out0);
                assert forall|q: int| 0 <= q < out0.len() implies out@[q] == out0[q] by {
                    assert(out@.subrange(0, mid_out.len() as int)[q] == mid_out[q]);
                    assert(mid_out.subrange(0, out0.len() as int)[q] == out0[q]);
                }
            }
            assert forall|jj: int| 0 <= jj < self.seeds().len() implies
                (#[trigger] out@[out0.len() + jj])@ == if jj < n0 {
                    Seq::<Coord>::empty()
                } else {
                    seq![self.seeds()[jj]]
                } by {
                if jj < n0 {
                    assert(out@.subrange(0, mid_out.len() as int)[out0.len() + jj] == mid_out[out0.len() + jj]);
                } else {
                    assert(out@[mid_out.len() + jj - n0]@ == seq![before_end.seeds()[jj]]);
                }
            }
        }
        true
    }

    /// The cells of region `i`, in row-major order.
    pub fn region_cells(&self, i: usize) -> (r: Vec<Coord>)
        requires
            self.wf(),
        ensures
            r@.to_set() == self.region(i as int),
            r@.no_duplicates(),
    {
        let ghost sz = self.size as int;
        let mut r: Vec<Coord> = Vec::new();
        let mut y: usize = 0;
        while y < self.size
            invariant
                sz == self.size,
                0 < sz <= MAX_SIZE,
                y <= sz,
                self.wf(),
                r@.no_duplicates(),
                forall|k: int| 0 <= k < r@.len() ==> (#[trigger] r@[k]).1 < y,
                forall|c: Coord| #[trigger] r@.contains(c) <==> (self.region(i as int).contains(c) && c.1 < y),
            decreases sz - y,
        {
            let mut x: usize = 0;
            while x < self.size
                invariant
                    sz == self.size,
                    0 < sz <= MAX_SIZE,
                    y < sz,
                    x <= sz,
                    self.wf(),
                    r@.no_duplicates(),
                    forall|k: int| 0 <= k < r@.len() ==> (#[trigger] r@[k]).1 < y || (r@[k].1 == y && r@[k].0 < x),
                    forall|c: Coord| #[trigger] r@.contains(c) <==> (self.region(i as int).contains(c)
                        && (c.1 < y || (c.1 == y && c.0 < x))),
                decreases sz - x,
            {
                let c: Coord = (x as i32, y as i32);
                proof { lemma_cell_index_bounds(sz, c); }
                let k: usize = y * self.size + x;
                if i < usize::MAX && self.owner[k] == i + 1 {
                    let ghost r0 = r@;
                    r.push(c);
                    proof {
                        assert forall|a: int, b: int| 0 <= a < r@.len() && 0 <= b < r@.len() && a != b
                            implies r@[a] != r@[b] by {
                            if a < r0.len() && b < r0.len() {
                                assert(r@[a] == r0[a] && r@[b] == r0[b]);
                            } else if a < r0.len() {
                                assert(r@[a] == r0[a]);
                            } else if b < r0.len() {
                                assert(r@[b] == r0[b]);
                            }
                        }
                        assert forall|cc: Coord| #[trigger] r@.contains(cc) <==> (self.region(i as int).contains(cc)
                            && (cc.1 < y || (cc.1 == y && cc.0 < x + 1))) by {
                            if r@.contains(cc) {
                                let kk = choose|kk: int| 0 <= kk < r@.len() && r@[kk] == cc;
                                if kk < r0.len() {
                                    assert(r0[kk] == cc);
                                    assert(r0.contains(cc));
                                }
                            }
                            if self.region(i as int).contains(cc) && cc.1 == y && cc.0 == x {
                                assert(r@[r@.len() - 1] == cc);
                            } else if self.region(i as int).contains(cc) && (cc.1 < y || (cc.1 == y && cc.0 < x)) {
                                assert(r0.contains(cc));
                                let kk = choose|kk: int| 0 <= kk < r0.len() && r0[kk] == cc;
                                assert(r@[kk] == cc);
                            }
                        }
                    }
                } else {
                    proof {
                        assert(!self.region(i as int).contains(c));
                    }
                }
                x = x + 1;
            }
            y = y + 1;
        }
        proof {
            assert forall|c: Coord| #[trigger] r@.to_set().contains(c) <==> self.region(i as int).contains(c) by {
                if self.region(i as int).contains(c) {
                    assert(in_grid(sz, c));
                }
            }
            assert(r@.to_set() =~= self.region(i as int));
        }
        r
    }

    /// The smallest box `(min_x, max_x, min_y, max_y)` holding region `i`;
    /// `None` when the region is empty.
    pub fn region_bounds(&self, i: usize) -> (r: Option<(i32, i32, i32, i32)>)
        requires
            self.wf(),
        ensures
            r is None <==> self.region(i as int) == Set::<Coord>::empty(),
            r matches Some(b) ==> {
                &&& forall|c: Coord| #[trigger] self.region(i as int).contains(c) ==> b.0 <= c.0 <= b.1 && b.2 <= c.1 <= b.3
                &&& exists|c: Coord| #[trigger] self.region(i as int).contains(c) && c.0 == b.0
                &&& exists|c: Coord| #[trigger] self.region(i as int).contains(c) && c.0 == b.1
                &&& exists|c: Coord| #[trigger] self.region(i as int).contains(c) && c.1 == b.2
                &&& exists|c: Coord| #[trigger] self.region(i as int).contains(c) && c.1 == b.3
            },
    {
        let cells = self.region_cells(i);
        if cells.len() == 0 {
            proof {
                assert(self.region(i as int) =~= Set::<Coord>::empty()) by {
                    assert forall|c: Coord| !self.region(i as int).contains(c) by {
                        if self.region(i as int).contains(c) {
                            assert(cells@.to_set().contains(c));
                        }
                    }
                }
            }
            return None;
        }
        let first = cells[0];
        let mut b: (i32, i32, i32, i32) = (first.0, first.0, first.1, first.1);
        let mut k: usize = 1;
        while k < cells.len()
            invariant
                1 <= k <= cells@.len(),
                first == cells@[0],
                forall|j: int| 0 <= j < k ==> b.0 <= (#[trigger] cells@[j]).0 <= b.1 && b.2 <= cells@[j].1 <= b.3,
                exists|j: int| 0 <= j < k && (#[trigger] cells@[j]).0 == b.0,
                exists|j: int| 0 <= j < k && (#[trigger] cells@[j]).0 == b.1,
                exists|j: int| 0 <= j < k && (#[trigger] cells@[j]).1 == b.2,
                exists|j: int| 0 <= j < k && (#[trigger] cells@[j]).1 == b.3,
            decreases cells@.len() - k,
        {
            let c = cells[k];
            if c.0 < b.0 { b.0 = c.0; }
            if c.0 > b.1 { b.1 = c.0; }
            if c.1 < b.2 { b.2 = c.1; }
            if c.1 > b.3 { b.3 = c.1; }
            k = k + 1;
            proof {
                assert(cells@[k - 1] == c);
            }
        }
        proof {
            assert forall|c: Coord| #[trigger] self.region(i as int).contains(c) implies b.0 <= c.0 <= b.1 && b.2 <= c.1 <= b.3 by {
                assert(cells@.to_set().contains(c));
            }
            let j0 = choose|j: int| 0 <= j < k && (#[trigger] cells@[j]).0 == b.0;
            assert(cells@.to_set().contains(cells@[j0]));
            let j1 = choose|j: int| 0 <= j < k && (#[trigger] cells@[j]).0 == b.1;
            assert(cells@.to_set().contains(cells@[j1]));
            let j2 = choose|j: int| 0 <= j < k && (#[trigger] cells@[j]).1 == b.2;
            assert(cells@.to_set().contains(cells@[j2]));
            let j3 = choose|j: int| 0 <= j < k && (#[trigger] cells@[j]).1 == b.3;
            assert(cells@.to_set().contains(cells@[j3]));
            assert(cells@.to_set().contains(first));
        }
        Some(b)
    }

    /// Whether `c` belongs to region `i` and has a neighbour, diagonals
    /// included, outside it.
    pub fn is_border(&self, i: usize, c: Coord) -> (r: bool)
        requires
            self.wf(),
        ensures
            r == on_border(self.region(i as int), c),
    {
        if self.region_of(c) != Some(i) {
            return false;
        }
        proof {
            assert(in_grid(self.size as int, c));
            assert(self.region(i as int).contains(c));
        }
        let nb = get_surrounding(c);
        let mut m: usize = 0;
        while m < 8
            invariant
                0 <= m <= 8,
                self.wf(),
                forall|kk: int| 0 <= kk < 8 ==> adjacent8(#[trigger] nb@[kk], c),
                forall|kk: int| 0 <= kk < 8 ==> (#[trigger] nb@[kk]).0 == surrounding_spec(c)[kk].0
                    && nb@[kk].1 == surrounding_spec(c)[kk].1,
                forall|kk: int| 0 <= kk < m ==> self.region(i as int).contains(#[trigger] nb@[kk]),
                self.region(i as int).contains(c),
            decreases 8 - m,
        {
            if self.region_of(nb[m]) != Some(i) {
                proof {
                    assert(adjacent8(nb@[m as int], c) && !self.region(i as int).contains(nb@[m as int]));
                }
                return true;
            }
            m = m + 1;
        }
        proof {
            assert forall|p: Coord| adjacent8(p, c) implies #[trigger] self.region(i as int).contains(p) by {
                let kk = lemma_surrounding_index(p, c);
                assert(nb@[kk] == p);
            }
        }
        false
    }

    /// Rows `min_y..=max_y`, columns `min_x..=max_x`: whether each cell is
    /// in region `i` (`outline == false`) or on its border (`outline == true`).
    pub fn region_mask(&self, i: usize, min_x: i32, max_x: i32, min_y: i32, max_y: i32, outline: bool) -> (r: Vec<Vec<bool>>)
        requires
            self.wf(),
        ensures
            min_x > max_x || min_y > max_y ==> r@.len() == 0,
            min_x <= max_x && min_y <= max_y ==> r@.len() == max_y - min_y + 1,
            forall|row: int| 0 <= row < r@.len() ==> (#[trigger] r@[row])@.len() == max_x - min_x + 1,
            forall|row: int, col: int| 0 <= row < r@.len() && 0 <= col < r@[row]@.len() ==> {
                let c = ((min_x + col) as i32, (min_y + row) as i32);
                #[trigger] r@[row]@[col] == if outline { on_border(self.region(i as int), c) } else { self.region(i as int).contains(c) }
            },
    {
        let mut rows: Vec<Vec<bool>> = Vec::new();
        if min_x > max_x || min_y > max_y {
            return rows;
        }
        let mut y: i64 = min_y as i64;
        while y <= max_y as i64
            invariant
                self.wf(),
                min_y <= y <= max_y as i64 + 1,
                min_x <= max_x,
                rows@.len() == y - min_y,
                forall|row: int| 0 <= row < rows@.len() ==> (#[trigger] rows@[row])@.len() == max_x - min_x + 1,
                forall|row: int, col: int| 0 <= row < rows@.len() && 0 <= col < rows@[row]@.len() ==> {
                    let c = ((min_x + col) as i32, (min_y + row) as i32);
                    #[trigger] rows@[row]@[col] == if outline { on_border(self.region(i as int), c) } else { self.region(i as int).contains(c) }
                },
            decreases max_y as i64 + 1 - y,
        {
            let mut line: Vec<bool> = Vec::new();
            let mut x: i64 = min_x as i64;
            while x <= max_x as i64
                invariant
                    self.wf(),
                    min_y <= y <= max_y,
                    min_x <= x <= max_x as i64 + 1,
                    line@.len() == x - min_x,
                    forall|col: int| 0 <= col < line@.len() ==> {
                        let c = ((min_x + col) as i32, y as i32);
                        #[trigger] line@[col] == if outline { on_border(self.region(i as int), c) } else { self.region(i as int).contains(c) }
                    },
                decreases max_x as i64 + 1 - x,
            {
                let c: Coord = (x as i32, y as i32);
                let v = if outline { self.is_border(i, c) } else { self.region_of(c) == Some(i) };
                line.push(v);
                x = x + 1;
            }
            rows.push(line);
            y = y + 1;
        }
        rows
    }

    /// One growth pass: every region, in seed order, claims the open cells
    /// next to its frontier that lie within the current radius; then the
    /// radius grows by one.
    fn grow_step(&mut self) -> (out: Vec<Vec<Coord>>)
        requires
            old(self).wf(),
        ensures
            final(self).wf(),
            final(self).size == old(self).size,
            final(self).growth_starts == old(self).growth_starts,
            final(self).round_start == old(self).round_start,
            final(self).grid_points == old(self).grid_points,
            final(self).desired_points == old(self).desired_points,
            final(self).round_open_size == old(self).round_open_size,
            final(self).ready_to_tile == old(self).ready_to_tile,
            final(self).current_radius == if old(self).current_radius < u32::MAX {
                (old(self).current_radius + 1) as u32
            } else {
                old(self).current_radius
            },
            final(self).done == (old(self).done || forall|i: int| 0 <= i < out@.len() ==> (#[trigger] out@[i])@.len() == 0),
            out@.len() == old(self).growth_starts@.len(),
            forall|i: int| 0 <= i < out@.len() ==> (#[trigger] out@[i])@.no_duplicates(),
            forall|i: int| 0 <= i < out@.len() ==> final(self).growth_frontiers@[i]@ == (#[trigger] out@[i])@,
            forall|i: int| 0 <= i < out@.len() ==> (#[trigger] out@[i])@ == scan(old(self).growth_frontiers@[i]@,
                open_before(old(self).open_set@, out@, i), old(self).growth_starts@[i], old(self).current_radius as int),
            forall|i: int, c: Coord| 0 <= i < out@.len() ==> (#[trigger] out@[i]@.contains(c) <==> (
                final(self).owner_of(c) == i + 1 && old(self).owner_of(c) != i + 1)),
            forall|c: Coord| #[trigger] final(self).owner_of(c) != old(self).owner_of(c) ==>
                old(self).owner_of(c) == 0 && old(self).open_set@.contains(c),
            forall|c: Coord| #[trigger] final(self).open_set@.contains(c) <==> (
                old(self).open_set@.contains(c) && final(self).owner_of(c) == 0),
            forall|i: int, k: int| 0 <= i < out@.len() && 0 <= k < out@[i]@.len() ==> {
                &&& within_growth_radius(dist2(#[trigger] out@[i]@[k], old(self).growth_starts@[i]),
                    old(self).current_radius as int)
                &&& touches(out@[i]@[k], old(self).growth_frontiers@[i]@)
            },
            forall|i: int, j: int, p: Coord| 0 <= i < out@.len() && 0 <= j < old(self).growth_frontiers@[i]@.len()
                && adjacent8(p, #[trigger] old(self).growth_frontiers@[i]@[j])
                && within_growth_radius(dist2(p, old(self).growth_starts@[i]), old(self).current_radius as int)
                ==> !(#[trigger] final(self).open_set@.contains(p)),
            forall|i: int, k: int, ii: int| 0 <= ii < i < out@.len() && 0 <= k < out@[i]@.len() ==>
                !candidate(#[trigger] out@[i]@[k], #[trigger] old(self).growth_frontiers@[ii]@,
                    old(self).growth_starts@[ii], old(self).current_radius as int),
    {
        let ghost sz = self.size as int;
        let ghost pre = *self;
        let mut fronts: Vec<Vec<Coord>> = Vec::new();
        std::mem::swap(&mut fronts, &mut self.growth_frontiers);
        let mut out: Vec<Vec<Coord>> = Vec::new();
        let mut new_fronts: Vec<Vec<Coord>> = Vec::new();
        let mut all_empty = true;
        let n = self.growth_starts.len();
        let radius = self.current_radius;
        let mut i: usize = 0;
        while i < n
            invariant
                0 <= i <= n,
                n == pre.growth_starts@.len(),
                pre.wf(),
                sz == pre.size,
                radius == pre.current_radius,
                fronts == pre.growth_frontiers,
                self.core_wf(),
                self.size == pre.size,
                self.growth_starts == pre.growth_starts,
                self.round_start == pre.round_start,
                self.current_radius == pre.current_radius,
                self.done == pre.done,
                self.grid_points == pre.grid_points,
                self.desired_points == pre.desired_points,
                self.round_open_size == pre.round_open_size,
                self.ready_to_tile == pre.ready_to_tile,
                only_claims(sz, pre.open_set@, pre.owner@, self.open_set@, self.owner@, 0, i as int),
                out@.len() == i,
                new_fronts@.len() == i,
                forall|ii: int| 0 <= ii < i ==> (#[trigger] new_fronts@[ii])@ == out@[ii]@,
                forall|ii: int, c: Coord| 0 <= ii < i ==> (#[trigger] out@[ii]@.contains(c) <==> (
                    self.owner_of(c) == ii + 1 && pre.owner_of(c) != ii + 1)),
                forall|ii: int, k: int| 0 <= ii < i && 0 <= k < out@[ii]@.len() ==> {
                    &&& within_growth_radius(dist2(#[trigger] out@[ii]@[k], pre.growth_starts@[ii]), radius as int)
                    &&& touches(out@[ii]@[k], fronts@[ii]@)
                },
                forall|ii: int, j: int, p: Coord| 0 <= ii < i && 0 <= j < fronts@[ii]@.len()
                    && adjacent8(p, #[trigger] fronts@[ii]@[j])
                    && within_growth_radius(dist2(p, pre.growth_starts@[ii]), radius as int)
                    ==> !(#[trigger] self.open_set@.contains(p)),
                all_empty == forall|ii: int| 0 <= ii < i ==> (#[trigger] out@[ii])@.len() == 0,
                forall|ii: int| 0 <= ii < i ==> (#[trigger] out@[ii])@.no_duplicates(),
                self.open_set@ == open_before(pre.open_set@, out@, i as int),
                forall|ii: int| 0 <= ii < i ==> (#[trigger] out@[ii])@ == scan(fronts@[ii]@,
                    open_before(pre.open_set@, out@, ii), pre.growth_starts@[ii], radius as int),
                forall|i2: int, k: int, ii: int| 0 <= ii < i2 < i && 0 <= k < out@[i2]@.len() ==>
                    !candidate(#[trigger] out@[i2]@[k], #[trigger] fronts@[ii]@, pre.growth_starts@[ii], radius as int),
            decreases n - i,
        {
            let seed = self.growth_starts[i];
            let mut claimed: Vec<Coord> = Vec::new();
            let mut copy: Vec<Coord> = Vec::new();
            let ghost mid = *self;
            let flen = fronts[i].len();
            let mut j: usize = 0;
            while j < flen
                invariant
                    0 <= j <= flen,
                    i < n,
                    n == pre.growth_starts@.len(),
                    flen == fronts@[i as int]@.len(),
                    pre.wf(),
                    sz == pre.size,
                    fronts == pre.growth_frontiers,
                    seed == pre.growth_starts@[i as int],
                    mid.core_wf(),
                    mid.size == pre.size,
                    mid.growth_starts == pre.growth_starts,
                    self.core_wf(),
                    self.size == pre.size,
                    self.growth_starts == pre.growth_starts,
                    self.round_start == pre.round_start,
                    self.current_radius == pre.current_radius,
                    self.done == pre.done,
                    self.grid_points == pre.grid_points,
                    self.desired_points == pre.desired_points,
                    self.round_open_size == pre.round_open_size,
                    self.ready_to_tile == pre.ready_to_tile,
                    only_claims(sz, mid.open_set@, mid.owner@, self.open_set@, self.owner@, i as int, i + 1),
                    copy@ == claimed@,
                    claimed@.no_duplicates(),
                    forall|k: int| 0 <= k < claimed@.len() ==> !self.open_set@.contains(#[trigger] claimed@[k]),
                    forall|c: Coord| #[trigger] claimed@.contains(c) <==> self.owner_of(c) != mid.owner_of(c),
                    forall|k: int| 0 <= k < claimed@.len() ==> {
                        &&& within_growth_radius(dist2(#[trigger] claimed@[k], seed), radius as int)
                        &&& touches(claimed@[k], fronts@[i as int]@)
                    },
                    forall|jj: int, p: Coord| 0 <= jj < j
                        && adjacent8(p, #[trigger] fronts@[i as int]@[jj])
                        && within_growth_radius(dist2(p, seed), radius as int)
                        ==> !(#[trigger] self.open_set@.contains(p)),
                    claimed@ == scan(fronts@[i as int]@.take(j as int), mid.open_set@, seed, radius as int),
                    self.open_set@ == mid.open_set@.difference(claimed@.to_set()),
                decreases flen - j,
            {
                let f = fronts[i][j];
                let ghost before = *self;
                let ghost before_claimed = claimed@;
                proof {
                    assert(forall|c: Coord| #[trigger] before_claimed.contains(c)
                        <==> before.owner_of(c) != mid.owner_of(c));
                    assert(in_grid(sz, fronts@[i as int]@[j as int]));
                }
                self.claim_around(i, f, seed, radius, &mut claimed, &mut copy);
                proof {
                    let fr = fronts@[i as int]@;
                    assert(fr.take(j as int + 1).drop_last() =~= fr.take(j as int));
                    assert(fr.take(j as int + 1).last() == f);
                    let lo0 = before_claimed.len() as int;
                    assert(claimed@ =~= before_claimed + claimed@.subrange(lo0, claimed@.len() as int));
                    assert(claimed@ == scan(fr.take(j as int + 1), mid.open_set@, seed, radius as int));
                    let sc = scan_cell(f, before.open_set@, seed, radius as int, 8);
                    assert(claimed@.to_set() =~= before_claimed.to_set().union(sc.to_set())) by {
                        assert forall|c: Coord| claimed@.to_set().contains(c) <==> before_claimed.to_set().union(sc.to_set()).contains(c) by {
                            if claimed@.contains(c) {
                                let q = choose|q: int| 0 <= q < claimed@.len() && claimed@[q] == c;
                                if q < lo0 {
                                    assert(before_claimed[q] == c);
                                } else {
                                    assert(sc[q - lo0] == c);
                                }
                            }
                            if sc.contains(c) {
                                let q = choose|q: int| 0 <= q < sc.len() && sc[q] == c;
                                assert(claimed@[lo0 + q] == c);
                            }
                            if before_claimed.contains(c) {
                                let q = choose|q: int| 0 <= q < before_claimed.len() && before_claimed[q] == c;
                                assert(claimed@[q] == c);
                            }
                        }
                    }
                    assert(self.open_set@ =~= mid.open_set@.difference(claimed@.to_set()));
                    lemma_only_claims_trans(sz, mid.open_set@, mid.owner@, before.open_set@, before.owner@,
                        self.open_set@, self.owner@, i as int, i + 1, i as int, i + 1);
                    let lo = before_claimed.len() as int;
                    assert(claimed@ =~= before_claimed + claimed@.subrange(lo, claimed@.len() as int));
                    assert forall|c: Coord| #[trigger] claimed@.contains(c) <==> self.owner_of(c) != mid.owner_of(c) by {
                        let added = claimed@.subrange(lo, claimed@.len() as int);
                        if self.owner_of(c) != before.owner_of(c) {
                            assert(before.open_set@.contains(c));
                            if before.owner_of(c) != mid.owner_of(c) {
                                assert(!before.open_set@.contains(c));
                            }
                        }
                        if before.owner_of(c) != mid.owner_of(c) {
                            assert(!before.open_set@.contains(c));
                            assert(self.owner_of(c) == before.owner_of(c));
                        }
                        if claimed@.contains(c) {
                            let k = choose|k: int| 0 <= k < claimed@.len() && claimed@[k] == c;
                            if k >= lo {
                                assert(added[k - lo] == c);
                                assert(added.contains(c));
                            } else {
                                assert(before_claimed[k] == c);
                                assert(before_claimed.contains(c));
                            }
                        }
                        if self.owner_of(c) != mid.owner_of(c) {
                            if before.owner_of(c) != mid.owner_of(c) {
                                assert(before_claimed.contains(c));
                                let k = choose|k: int| 0 <= k < before_claimed.len() && before_claimed[k] == c;
                                assert(claimed@[k] == c);
                            } else {
                                assert(added.contains(c));
                                let k = choose|k: int| 0 <= k < added.len() && added[k] == c;
                                assert(claimed@[k + lo] == c);
                            }
                        }
                    }
                    assert forall|k: int| 0 <= k < claimed@.len() implies {
                        &&& within_growth_radius(dist2(#[trigger] claimed@[k], seed), radius as int)
                        &&& touches(claimed@[k], fronts@[i as int]@)
                    } by {
                        if k >= lo {
                            assert(adjacent8(claimed@[k], fronts@[i as int]@[j as int]));
                        } else {
                            assert(claimed@[k] == before_claimed[k]);
                        }
                    }
                }
                j = j + 1;
            }
            proof {
                lemma_only_claims_trans(sz, pre.open_set@, pre.owner@, mid.open_set@, mid.owner@,
                    self.open_set@, self.owner@, 0, i as int, i as int, i + 1);
                assert forall|ii: int, c: Coord| 0 <= ii < i implies (#[trigger] out@[ii]@.contains(c) <==> (
                    self.owner_of(c) == ii + 1 && pre.owner_of(c) != ii + 1)) by {
                    if self.owner_of(c) != mid.owner_of(c) {
                        assert(mid.open_set@.contains(c));
                    }
                }
                assert forall|c: Coord| #[trigger] claimed@.contains(c) <==> (
                    self.owner_of(c) == i + 1 && pre.owner_of(c) != i + 1) by {
                    if mid.owner_of(c) != pre.owner_of(c) {
                        assert(!mid.open_set@.contains(c));
                    }
                }
            }
            proof {
                assert forall|k: int, ii: int| 0 <= ii < i && 0 <= k < claimed@.len() implies
                    !candidate(#[trigger] claimed@[k], #[trigger] fronts@[ii]@, pre.growth_starts@[ii], radius as int) by {
                    let c = claimed@[k];
                    assert(claimed@.contains(c));
                    assert(mid.open_set@.contains(c));
                    if candidate(c, fronts@[ii]@, pre.growth_starts@[ii], radius as int) {
                        let j = choose|j: int| 0 <= j < fronts@[ii]@.len() && adjacent8(c, #[trigger] fronts@[ii]@[j]);
                        assert(!mid.open_set@.contains(c));
                    }
                }
            }
            proof {
                assert(fronts@[i as int]@.take(flen as int) =~= fronts@[i as int]@);
            }
            let is_empty = claimed.len() == 0;
            let ghost old_out = out@;
            let ghost ob_i = open_before(pre.open_set@, out@, i as int);
            out.push(claimed);
            new_fronts.push(copy);
            if !is_empty {
                all_empty = false;
            }
            proof {
                assert forall|ii: int| 0 <= ii < i implies #[trigger] out@[ii] == old_out[ii] by {}
                assert(out@[i as int]@.len() == 0 <==> is_empty);
                assert forall|ii: int| 0 <= ii <= i implies #[trigger] open_before(pre.open_set@, out@, ii)
                    == open_before(pre.open_set@, old_out, ii) by {
                    assert(open_before(pre.open_set@, out@, ii) =~= open_before(pre.open_set@, old_out, ii)) by {
                        assert forall|c: Coord| open_before(pre.open_set@, out@, ii).contains(c) <==> open_before(pre.open_set@, old_out, ii).contains(c) by {
                            if open_before(pre.open_set@, old_out, ii).contains(c) {
                                assert forall|k: int| 0 <= k < ii implies !(#[trigger] out@[k])@.contains(c) by {
                                    assert(out@[k] == old_out[k]);
                                }
                            }
                            if open_before(pre.open_set@, out@, ii).contains(c) {
                                assert forall|k: int| 0 <= k < ii implies !(#[trigger] old_out[k])@.contains(c) by {
                                    assert(out@[k] == old_out[k]);
                                }
                            }
                        }
                    }
                }
                assert(mid.open_set@ == ob_i);
                assert(self.open_set@ =~= open_before(pre.open_set@, out@, i as int + 1)) by {
                    assert forall|c: Coord| self.open_set@.contains(c) <==> open_before(pre.open_set@, out@, i as int + 1).contains(c) by {
                        if open_before(pre.open_set@, out@, i as int + 1).contains(c) {
                            assert(!out@[i as int]@.contains(c));
                            assert forall|k: int| 0 <= k < i implies !(#[trigger] old_out[k])@.contains(c) by {
                                assert(out@[k] == old_out[k]);
                                assert(!out@[k]@.contains(c));
                            }
                            assert(ob_i.contains(c));
                            assert(!claimed@.to_set().contains(c));
                        }
                        if self.open_set@.contains(c) {
                            assert(ob_i.contains(c));
                            assert(!claimed@.to_set().contains(c));
                            assert forall|k: int| 0 <= k < i + 1 implies !(#[trigger] out@[k])@.contains(c) by {
                                if k < i {
                                    assert(out@[k] == old_out[k]);
                                }
                            }
                        }
                    }
                }
                assert forall|ii: int| 0 <= ii < i + 1 implies (#[trigger] out@[ii])@ == scan(fronts@[ii]@,
                    open_before(pre.open_set@, out@, ii), pre.growth_starts@[ii], radius as int) by {
                    if ii < i {
                        assert(out@[ii] == old_out[ii]);
                    }
                }
                assert forall|ii: int| 0 <= ii < i + 1 implies (#[trigger] out@[ii])@.no_duplicates() by {
                    if ii < i {
                        assert(out@[ii] == old_out[ii]);
                    }
                }
                assert forall|i2: int, k: int, ii: int| 0 <= ii < i2 < i + 1 && 0 <= k < out@[i2]@.len() implies
                    !candidate(#[trigger] out@[i2]@[k], #[trigger] fronts@[ii]@, pre.growth_starts@[ii], radius as int) by {
                    if i2 < i {
                        assert(out@[i2] == old_out[i2]);
                    }
                }
                if all_empty {
                    assert forall|ii: int| 0 <= ii < i + 1 implies (#[trigger] out@[ii])@.len() == 0 by {
                        if ii < i {
                            assert(old_out[ii]@.len() == 0);
                        }
                    }
                } else if is_empty {
                    assert(!forall|ii: int| 0 <= ii < i ==> (#[trigger] old_out[ii])@.len() == 0);
                    let w = choose|ii: int| !(0 <= ii < i ==> (#[trigger] old_out[ii])@.len() == 0);
                    assert(out@[w]@.len() != 0);
                } else {
                    assert(out@[i as int]@.len() != 0);
                }
            }
            i = i + 1;
        }
        self.growth_frontiers = new_fronts;
        if radius < u32::MAX {
            self.current_radius = radius + 1;
        }
        if all_empty {
            self.done = true;
        }
        proof {
            assert forall|c: Coord| #[trigger] self.owner_of(c) > self.round_start implies within_growth_radius(
                dist2(c, self.growth_starts@[self.owner_of(c) - 1]), self.current_radius as int) by {
                let ii = self.owner_of(c) - 1;
                lemma_cell_index_bounds(sz, c);
                assert(self.owner@[cell_index(sz, c)] <= n);
                lemma_dist2_nonneg(c, self.growth_starts@[ii]);
                if self.owner_of(c) != pre.owner_of(c) {
                    assert(out@[ii]@.contains(c));
                    let k = choose|k: int| 0 <= k < out@[ii]@.len() && out@[ii]@[k] == c;
                    assert(within_growth_radius(dist2(out@[ii]@[k], pre.growth_starts@[ii]), radius as int));
                } else {
                    assert(pre.owner_of(c) > pre.round_start);
                }
                lemma_growth_radius_monotone(dist2(c, self.growth_starts@[ii]), radius as int,
                    self.current_radius as int);
            }
            assert forall|ii: int| 0 <= ii < self.growth_starts@.len() implies {
                &&& in_grid(sz, #[trigger] self.growth_starts@[ii])
                &&& self.owner_of(self.growth_starts@[ii]) == ii + 1
            } by {
                let c = self.growth_starts@[ii];
                assert(pre.owner_of(c) == ii + 1);
                if self.owner_of(c) != pre.owner_of(c) {
                    assert(pre.open_set@.contains(c));
                }
            }
            assert forall|ii: int, k: int| 0 <= ii < self.growth_frontiers@.len()
                && 0 <= k < self.growth_frontiers@[ii]@.len() implies {
                &&& in_grid(sz, #[trigger] self.growth_frontiers@[ii]@[k])
                &&& self.owner_of(self.growth_frontiers@[ii]@[k]) == ii + 1
            } by {
                let c = self.growth_frontiers@[ii]@[k];
                assert(new_fronts@[ii]@ == out@[ii]@);
                assert(out@[ii]@.contains(c));
            }
            assert forall|ii: int| 0 <= ii < self.round_start implies
                (#[trigger] self.growth_frontiers@[ii])@.len() == 0 by {
                assert(pre.growth_frontiers@[ii]@.len() == 0);
                if out@[ii]@.len() != 0 {
                    assert(touches(out@[ii]@[0], fronts@[ii]@));
                }
                assert(new_fronts@[ii]@ == out@[ii]@);
            }
            assert forall|c: Coord| #[trigger] self.open_set@.contains(c) <==> (
                pre.open_set@.contains(c) && self.owner_of(c) == 0) by {
                if pre.open_set@.contains(c) && !self.open_set@.contains(c) {
                    assert(self.owner_of(c) != pre.owner_of(c));
                }
            }
            pre.lemma_claimed_finite();
            self.lemma_claimed_finite();
            assert(pre.claimed().subset_of(self.claimed())) by {
                assert forall|c: Coord| pre.claimed().contains(c) implies self.claimed().contains(c) by {
                    if self.owner_of(c) != pre.owner_of(c) {
                        assert(pre.open_set@.contains(c));
                    }
                }
            }
            if !self.done {
                assert(!pre.done);
                let w = choose|ii: int| !(0 <= ii < out@.len() ==> (#[trigger] out@[ii])@.len() == 0);
                let c = out@[w]@[0];
                assert(out@[w]@.contains(c));
                assert(pre.open_set@.contains(c));
                assert(!pre.claimed().contains(c));
                assert(self.claimed().contains(c));
                assert(pre.claimed().insert(c).subset_of(self.claimed()));
                vstd::set_lib::lemma_len_subset(pre.claimed().insert(c), self.claimed());
            }
        }
        out
    }

    /// Claims for region `i` each open neighbour of `f` within the growth radius.
    fn claim_around(
        &mut self,
        i: usize,
        f: Coord,
        seed: Coord,
        radius: u32,
        claimed: &mut Vec<Coord>,
        copy: &mut Vec<Coord>,
    )
        requires
            old(self).core_wf(),
            i < old(self).growth_starts@.len(),
            i < usize::MAX,
            in_grid(old(self).size as int, f),
            in_grid(old(self).size as int, seed),
            old(copy)@ == old(claimed)@,
            old(claimed)@.no_duplicates(),
            forall|k: int| 0 <= k < old(claimed)@.len() ==> !old(self).open_set@.contains(#[trigger] old(claimed)@[k]),
        ensures
            final(claimed)@.no_duplicates(),
            forall|k: int| 0 <= k < final(claimed)@.len() ==> !final(self).open_set@.contains(#[trigger] final(claimed)@[k]),
            final(claimed)@.subrange(old(claimed)@.len() as int, final(claimed)@.len() as int)
                == scan_cell(f, old(self).open_set@, seed, radius as int, 8),
            final(self).open_set@ == old(self).open_set@.difference(scan_cell(f, old(self).open_set@, seed, radius as int, 8).to_set()),
            final(self).core_wf(),
            final(self).size == old(self).size,
            final(self).growth_starts == old(self).growth_starts,
            final(self).growth_frontiers == old(self).growth_frontiers,
            final(self).round_start == old(self).round_start,
            final(self).current_radius == old(self).current_radius,
            final(self).done == old(self).done,
            final(self).grid_points == old(self).grid_points,
            final(self).desired_points == old(self).desired_points,
            final(self).round_open_size == old(self).round_open_size,
            final(self).ready_to_tile == old(self).ready_to_tile,
            only_claims(old(self).size as int, old(self).open_set@, old(self).owner@,
                final(self).open_set@, final(self).owner@, i as int, i + 1),
            final(copy)@ == final(claimed)@,
            final(claimed)@.len() >= old(claimed)@.len(),
            final(claimed)@.subrange(0, old(claimed)@.len() as int) == old(claimed)@,
            forall|c: Coord| #[trigger] final(claimed)@.subrange(old(claimed)@.len() as int,
                final(claimed)@.len() as int).contains(c)
                <==> final(self).owner_of(c) != old(self).owner_of(c),
            forall|k: int| old(claimed)@.len() <= k < final(claimed)@.len() ==> {
                &&& within_growth_radius(dist2(#[trigger] final(claimed)@[k], seed), radius as int)
                &&& adjacent8(final(claimed)@[k], f)
            },
            forall|p: Coord| adjacent8(p, f) && within_growth_radius(dist2(p, seed), radius as int)
                ==> !(#[trigger] final(self).open_set@.contains(p)),
    {
        let ghost sz = self.size as int;
        let ghost pre = *self;
        let ghost pre_claimed = claimed@;
        let ghost lo = claimed@.len() as int;
        let nb = get_surrounding(f);
        let mut m: usize = 0;
        while m < 8
            invariant
                0 <= m <= 8,
                self.core_wf(),
                self.size == pre.size,
                self.growth_starts == pre.growth_starts,
                self.growth_frontiers == pre.growth_frontiers,
                self.round_start == pre.round_start,
                self.current_radius == pre.current_radius,
                self.done == pre.done,
                self.grid_points == pre.grid_points,
                self.desired_points == pre.desired_points,
                self.round_open_size == pre.round_open_size,
                self.ready_to_tile == pre.ready_to_tile,
                pre.core_wf(),
                i < pre.growth_starts@.len(),
                i < usize::MAX,
                sz == pre.size,
                0 <= lo,
                in_grid(sz, seed),
                forall|k: int| 0 <= k < 8 ==> adjacent8(#[trigger] nb@[k], f),
                forall|k: int| 0 <= k < 8 ==> (#[trigger] nb@[k]).0 == surrounding_spec(f)[k].0
                    && nb@[k].1 == surrounding_spec(f)[k].1,
                only_claims(sz, pre.open_set@, pre.owner@, self.open_set@, self.owner@, i as int, i + 1),
                copy@ == claimed@,
                claimed@.no_duplicates(),
                forall|k: int| 0 <= k < claimed@.len() ==> !self.open_set@.contains(#[trigger] claimed@[k]),
                claimed@.len() >= lo,
                claimed@.subrange(0, lo) == pre_claimed,
                forall|c: Coord| #[trigger] claimed@.subrange(lo, claimed@.len() as int).contains(c)
                    <==> self.owner_of(c) != pre.owner_of(c),
                forall|k: int| lo <= k < claimed@.len() ==> {
                    &&& within_growth_radius(dist2(#[trigger] claimed@[k], seed), radius as int)
                    &&& adjacent8(claimed@[k], f)
                },
                forall|k: int| 0 <= k < m ==> within_growth_radius(dist2(#[trigger] nb@[k], seed), radius as int)
                    ==> !self.open_set@.contains(nb@[k]),
                claimed@.subrange(lo, claimed@.len() as int) == scan_cell(f, pre.open_set@, seed, radius as int, m as int),
                self.open_set@ == pre.open_set@.difference(claimed@.subrange(lo, claimed@.len() as int).to_set()),
                crate::grid::interior_i32(f),
            decreases 8 - m,
        {
            let p = nb[m];
            let ghost added = claimed@.subrange(lo, claimed@.len() as int);
            proof {
                assert(p == nbr(f, m as int));
                lemma_scan_cell(f, pre.open_set@, seed, radius as int, m as int);
                if added.to_set().contains(p) {
                    assert(added.contains(p));
                    let k = choose|k: int| 0 <= k < m && p == nbr(f, k);
                    lemma_nbr_distinct(f, k, m as int);
                }
                assert(self.open_set@.contains(p) <==> pre.open_set@.contains(p));
                assert(scan_cell(f, pre.open_set@, seed, radius as int, m as int + 1)
                    == if pre.open_set@.contains(p) && within_growth_radius(dist2(p, seed), radius as int) { added.push(p) } else { added });
            }
            if self.open_set.contains(p) {
                proof { self.open_set.lemma_wf(); }
                if within_growth_radius_exec(p, seed, radius) {
                    let ghost o_open = self.open_set@;
                    let ghost o_owner = self.owner@;
                    let ghost o_claimed = claimed@;
                    self.open_set.remove(p);
                    proof { lemma_cell_index_bounds(sz, p); }
                    let k: usize = p.1 as usize * self.size + p.0 as usize;
                    self.owner.set(k, i + 1);
                    claimed.push(p);
                    copy.push(p);
                    proof {
                        assert(!o_claimed.contains(p));
                        assert forall|a: int, b: int| 0 <= a < claimed@.len() && 0 <= b < claimed@.len() && a != b
                            implies claimed@[a] != claimed@[b] by {
                            if a < o_claimed.len() && b < o_claimed.len() {
                                assert(claimed@[a] == o_claimed[a] && claimed@[b] == o_claimed[b]);
                            } else if a < o_claimed.len() {
                                assert(claimed@[a] == o_claimed[a]);
                            } else if b < o_claimed.len() {
                                assert(claimed@[b] == o_claimed[b]);
                            }
                        }
                        assert forall|k: int| 0 <= k < claimed@.len() implies !self.open_set@.contains(#[trigger] claimed@[k]) by {
                            if k < o_claimed.len() {
                                assert(claimed@[k] == o_claimed[k]);
                            }
                        }
                        assert forall|c: Coord| c != p implies
                            #[trigger] owner_in(sz, self.owner@, c) == owner_in(sz, o_owner, c) by {
                            if in_grid(sz, c) {
                                lemma_cell_index_bounds(sz, c);
                                if cell_index(sz, c) == k {
                                    lemma_cell_index_injective(sz, c, p);
                                }
                            }
                        }
                        assert(owner_in(sz, o_owner, p) == 0);
                        assert(owner_in(sz, self.owner@, p) == i + 1);
                        assert forall|kk: int| 0 <= kk < self.owner@.len()
                            implies #[trigger] self.owner@[kk] <= self.growth_starts@.len() by {
                            if kk != k {
                                assert(self.owner@[kk] == o_owner[kk]);
                            }
                        }
                        assert(claimed@ == o_claimed.push(p));
                        assert(claimed@.subrange(0, lo) =~= o_claimed.subrange(0, lo));
                        assert(claimed@.subrange(lo, claimed@.len() as int)
                            =~= o_claimed.subrange(lo, o_claimed.len() as int).push(p));
                        o_claimed.subrange(lo, o_claimed.len() as int).lemma_push_to_set_commute(p);
                        assert forall|c: Coord| #[trigger] claimed@.subrange(lo, claimed@.len() as int).contains(c)
                            <==> self.owner_of(c) != pre.owner_of(c) by {
                            if c != p {
                                assert(claimed@.subrange(lo, claimed@.len() as int).to_set().contains(c)
                                    == o_claimed.subrange(lo, o_claimed.len() as int).to_set().contains(c));
                            } else {
                                assert(claimed@.subrange(lo, claimed@.len() as int)[
                                    claimed@.len() - 1 - lo] == p);
                            }
                        }
                    }
                }
            }
            m = m + 1;
        }
        proof {
            assert forall|p: Coord| adjacent8(p, f) && within_growth_radius(dist2(p, seed), radius as int)
                implies !(#[trigger] self.open_set@.contains(p)) by {
                let mm = lemma_surrounding_index(p, f);
                assert(nb@[mm] == p);
            }
        }
    }
}

} // verus!

verus! {

/// No cell belongs to two regions, and no claimed cell is still open.
pub proof fn lemma_regions_partition(t: &VoronoiTiling, i: int, j: int, c: Coord)
    requires
        t.wf(),
    ensures
        i != j ==> !(t.region(i).contains(c) && t.region(j).contains(c)),
        !(t.open().contains(c) && t.claimed().contains(c)),
        t.covered().contains(c) ==> in_grid(t.grid_size(), c),
{
    t.open_set_in_grid();
}

/// A growth pass never shrinks a region, and the radius grows by exactly
/// one per pass.
pub proof fn lemma_growth_monotone(pre: &VoronoiTiling, post: &VoronoiTiling, out: Seq<Vec<Coord>>, i: int)
    requires
        pre.wf(),
        VoronoiTiling::grew(pre, post, out),
        0 <= i < pre.seeds().len(),
    ensures
        pre.region(i).subset_of(post.region(i)),
        !pre.finished() ==> post.radius() == pre.radius() + 1,
        post.radius() >= pre.radius(),
{
    pre.lemma_claimed_finite_wf();
    assert forall|c: Coord| #[trigger] pre.region(i).contains(c) implies post.region(i).contains(c) by {}
}

/// Every cell of a region of the current round lies within the current
/// radius plus `sqrt(2) - 1` of its seed.
pub proof fn lemma_region_within_radius(t: &VoronoiTiling, i: int, c: Coord)
    requires
        t.wf(),
        t.first_of_round() <= i,
        t.region(i).contains(c),
    ensures
        i < t.seeds().len(),
        within_growth_radius(dist2(c, t.seeds()[i]), t.radius() as int),
{
    t.lemma_owner_bound(c);
}

/// Two growth passes from the same state claim the same cells for every
/// region and leave the same open set: a pass is a function of the state.
pub proof fn lemma_growth_deterministic(
    pre: &VoronoiTiling,
    post1: &VoronoiTiling,
    out1: Seq<Vec<Coord>>,
    post2: &VoronoiTiling,
    out2: Seq<Vec<Coord>>,
)
    requires
        pre.wf(),
        post1.wf(),
        post2.wf(),
        VoronoiTiling::grew(pre, post1, out1),
        VoronoiTiling::grew(pre, post2, out2),
    ensures
        forall|i: int| 0 <= i < pre.seeds().len() ==> #[trigger] post1.region(i) == post2.region(i),
        forall|i: int| 0 <= i < pre.seeds().len() ==> (#[trigger] out1[i])@ == out2[i]@,
        forall|i: int| 0 <= i < pre.seeds().len() ==> #[trigger] post1.frontier(i) == post2.frontier(i),
        post1.open() == post2.open(),
        post1.radius() == post2.radius(),
{
    assert forall|i: int| 0 <= i < pre.seeds().len() implies (#[trigger] out1[i])@ == out2[i]@ by {
        lemma_same_claims_upto(pre, post1, out1, post2, out2, i + 1);
    }
    let n = pre.seeds().len();
    assert forall|i: int, c: Coord| 0 <= i < n implies
        (#[trigger] out1[i]@.contains(c) <==> VoronoiTiling::first_claimant(pre, i, c)) by {
        lemma_claims_characterized(pre, post1, out1, i, c);
    }
    assert forall|i: int, c: Coord| 0 <= i < n implies
        (#[trigger] out2[i]@.contains(c) <==> VoronoiTiling::first_claimant(pre, i, c)) by {
        lemma_claims_characterized(pre, post2, out2, i, c);
    }
    assert forall|i: int| 0 <= i < n implies #[trigger] post1.region(i) == post2.region(i) by {
        assert(post1.region(i) =~= post2.region(i)) by {
            assert forall|c: Coord| post1.region(i).contains(c) <==> post2.region(i).contains(c) by {
                assert(out1[i]@.contains(c) <==> out2[i]@.contains(c));
            }
        }
    }
    assert(post1.open() =~= post2.open()) by {
        assert forall|c: Coord| post1.open().contains(c) <==> post2.open().contains(c) by {
            if pre.open().contains(c) {
                pre.lemma_open_unclaimed(c);
                if post1.claimed().contains(c) {
                    let j = post1.lemma_claimed_region(c);
                    post1.lemma_region_index_bound(j, c);
                    assert(post1.region(j).contains(c));
                    assert(out1[j]@.contains(c));
                    assert(out2[j]@.contains(c));
                    assert(post2.region(j).contains(c));
                }
                if post2.claimed().contains(c) {
                    let j = post2.lemma_claimed_region(c);
                    post2.lemma_region_index_bound(j, c);
                    assert(post2.region(j).contains(c));
                    assert(out2[j]@.contains(c));
                    assert(out1[j]@.contains(c));
                    assert(post1.region(j).contains(c));
                }
            }
        }
    }
}

/// Two passes from one state claim the same cells, in the same order, for
/// each of the first `k` regions.
proof fn lemma_same_claims_upto(
    pre: &VoronoiTiling,
    post1: &VoronoiTiling,
    out1: Seq<Vec<Coord>>,
    post2: &VoronoiTiling,
    out2: Seq<Vec<Coord>>,
    k: int,
)
    requires
        VoronoiTiling::grew(pre, post1, out1),
        VoronoiTiling::grew(pre, post2, out2),
        0 <= k <= pre.seeds().len(),
    ensures
        forall|i: int| 0 <= i < k ==> (#[trigger] out1[i])@ == out2[i]@,
    decreases k,
{
    if k > 0 {
        lemma_same_claims_upto(pre, post1, out1, post2, out2, k - 1);
        let i = k - 1;
        assert(open_before(pre.open(), out1, i) =~= open_before(pre.open(), out2, i)) by {
            assert forall|c: Coord| open_before(pre.open(), out1, i).contains(c) <==> open_before(pre.open(), out2, i).contains(c) by {
                if open_before(pre.open(), out1, i).contains(c) {
                    assert forall|ii: int| 0 <= ii < i implies !(#[trigger] out2[ii])@.contains(c) by {
                        assert(out1[ii]@ == out2[ii]@);
                        assert(!out1[ii]@.contains(c));
                    }
                }
                if open_before(pre.open(), out2, i).contains(c) {
                    assert forall|ii: int| 0 <= ii < i implies !(#[trigger] out1[ii])@.contains(c) by {
                        assert(out1[ii]@ == out2[ii]@);
                        assert(!out2[ii]@.contains(c));
                    }
                }
            }
        }
        assert(out1[i]@ == out2[i]@);
    }
}

/// What a pass claims for region `i`: the open cells that are candidates of
/// region `i` and of no region before it.
proof fn lemma_claims_characterized(pre: &VoronoiTiling, post: &VoronoiTiling, out: Seq<Vec<Coord>>, i: int, c: Coord)
    requires
        pre.wf(),
        post.wf(),
        VoronoiTiling::grew(pre, post, out),
        0 <= i < pre.seeds().len(),
    ensures
        out[i]@.contains(c) <==> VoronoiTiling::first_claimant(pre, i, c),
{
    let n = pre.seeds().len();
    if out[i]@.contains(c) {
        let k = choose|k: int| 0 <= k < out[i]@.len() && out[i]@[k] == c;
        assert(pre.open().contains(out[i]@[k]));
        assert forall|ii: int| 0 <= ii < i implies
            !candidate(c, #[trigger] pre.frontier(ii), pre.seeds()[ii], pre.radius() as int) by {
            assert(!candidate(out[i]@[k], pre.frontier(ii), pre.seeds()[ii], pre.radius() as int));
        }
    }
    if VoronoiTiling::first_claimant(pre, i, c) {
        let j = choose|j: int| 0 <= j < pre.frontier(i).len() && adjacent8(c, #[trigger] pre.frontier(i)[j]);
        assert(!post.open().contains(c));
        pre.lemma_open_unclaimed(c);
        assert(post.claimed().contains(c));
        let r = post.lemma_claimed_region(c);
        assert(!pre.region(r).contains(c));
        post.lemma_region_index_bound(r, c);
        assert(r < n);
        assert(out[r]@.contains(c));
        let k = choose|k: int| 0 <= k < out[r]@.len() && out[r]@[k] == c;
        if r < i {
            assert(candidate(out[r]@[k], pre.frontier(r), pre.seeds()[r], pre.radius() as int));
        } else if r > i {
            assert(!candidate(out[r]@[k], pre.frontier(i), pre.seeds()[i], pre.radius() as int));
        }
    }
}

impl VoronoiTiling {
    /// `c` is open and region `i` is the first, in seed order, to have it
    /// as a candidate in the next pass.
    pub open spec fn first_claimant(pre: &Self, i: int, c: Coord) -> bool {
        &&& pre.open().contains(c)
        &&& candidate(c, pre.frontier(i), pre.seeds()[i], pre.radius() as int)
        &&& forall|ii: int| 0 <= ii < i ==> !candidate(c, #[trigger] pre.frontier(ii), pre.seeds()[ii], pre.radius() as int)
    }

    proof fn lemma_owner_bound(&self, c: Coord)
        requires
            self.wf(),
        ensures
            self.owner_of(c) <= self.growth_starts@.len(),
    {
        if in_grid(self.size as int, c) {
            lemma_cell_index_bounds(self.size as int, c);
            assert(self.owner@[cell_index(self.size as int, c)] <= self.growth_starts@.len());
        }
    }

    proof fn lemma_open_unclaimed(&self, c: Coord)
        requires
            self.wf(),
            self.open().contains(c),
        ensures
            !self.claimed().contains(c),
            forall|i: int| 0 <= i ==> !(#[trigger] self.region(i)).contains(c),
    {
    }

    proof fn lemma_claimed_region(&self, c: Coord) -> (i: int)
        requires
            self.claimed().contains(c),
        ensures
            self.region(i).contains(c),
            0 <= i,
    {
        self.owner_of(c) - 1
    }

    proof fn lemma_region_index_bound(&self, i: int, c: Coord)
        requires
            self.wf(),
            self.region(i).contains(c),
        ensures
            i < self.seeds().len(),
    {
        self.lemma_owner_bound(c);
    }
}

} // verus!

verus! {

/// Seeding moves cells from the open set into regions and loses none.
pub proof fn lemma_seeded_keeps_covered(pre: &VoronoiTiling, post: &VoronoiTiling, count: nat)
    requires
        pre.wf(),
        post.wf(),
        VoronoiTiling::seeded(pre, post, count),
    ensures
        post.covered() == pre.covered(),
{
    assert forall|c: Coord| #[trigger] post.covered().contains(c) <==> pre.covered().contains(c) by {
        if pre.open().contains(c) {
            pre.lemma_open_unclaimed(c);
        }
    }
    assert(post.covered() =~= pre.covered());
}

} // verus!

verus! {

/// Every cell of a `size` by `size` grid.
pub open spec fn grid_cells(size: int) -> Set<Coord> {
    Set::new(|c: Coord| in_grid(size, c))
}

pub proof fn lemma_grid_cells_finite(size: int)
    requires
        0 < size <= MAX_SIZE,
    ensures
        grid_cells(size).finite(),
{
    let r = vstd::set_lib::set_int_range(0, size * size);
    vstd::set_lib::lemma_int_range(0, size * size);
    let f = |k: int| crate::grid::cell_at(size, k);
    r.lemma_map_finite(f);
    assert forall|c: Coord| #[trigger] grid_cells(size).contains(c) implies r.map(f).contains(c) by {
        lemma_cell_index_bounds(size, c);
        assert(r.contains(cell_index(size, c)));
        assert(f(cell_index(size, c)) == c);
    }
    vstd::set_lib::lemma_set_subset_finite(r.map(f), grid_cells(size));
}

pub proof fn lemma_grid_cells_len(size: int)
    requires
        0 < size <= MAX_SIZE,
    ensures
        grid_cells(size).finite(),
        grid_cells(size).len() <= size * size,
{
    let r = vstd::set_lib::set_int_range(0, size * size);
    vstd::set_lib::lemma_int_range(0, size * size);
    let f = |k: int| crate::grid::cell_at(size, k);
    vstd::set_lib::lemma_map_size_bound(r, r.map(f), f);
    assert forall|c: Coord| #[trigger] grid_cells(size).contains(c) implies r.map(f).contains(c) by {
        lemma_cell_index_bounds(size, c);
        assert(r.contains(cell_index(size, c)));
        assert(f(cell_index(size, c)) == c);
    }
    vstd::set_lib::lemma_set_subset_finite(r.map(f), grid_cells(size));
    vstd::set_lib::lemma_len_subset(grid_cells(size), r.map(f));
}

impl VoronoiTiling {
    /// While growth is not done the radius stays far below its type's
    /// limit: each pass that leaves the tiler unfinished claims a cell.
    pub proof fn lemma_claimed_finite_wf(&self)
        requires
            self.wf(),
        ensures
            !self.finished() ==> self.radius() < u32::MAX,
    {
        self.open_set.lemma_wf();
        self.lemma_claimed_finite();
    }

    /// The claimed cells are finitely many, at most one per grid cell.
    pub proof fn lemma_claimed_finite(&self)
        requires
            0 < self.grid_size() <= MAX_SIZE,
        ensures
            self.claimed().finite(),
            self.claimed().len() <= self.grid_size() * self.grid_size(),
            self.grid_size() * self.grid_size() <= MAX_SIZE * MAX_SIZE,
    {
        let sz = self.grid_size();
        lemma_grid_cells_len(sz);
        assert(self.claimed().subset_of(grid_cells(sz)));
        vstd::set_lib::lemma_set_subset_finite(grid_cells(sz), self.claimed());
        vstd::set_lib::lemma_len_subset(self.claimed(), grid_cells(sz));
        assert(sz * sz <= MAX_SIZE * MAX_SIZE) by (nonlinear_arith)
            requires 0 < sz <= MAX_SIZE;
    }
}

/// Cells of regions `0..k`.
pub open spec fn regions_upto(t: &VoronoiTiling, k: int) -> Set<Coord> {
    Set::new(|c: Coord| 1 <= t.owner_of(c) <= k)
}

/// Total size of regions `0..k`.
pub open spec fn region_sizes(t: &VoronoiTiling, k: int) -> int
    decreases k,
{
    if k <= 0 {
        0
    } else {
        region_sizes(t, k - 1) + t.region(k - 1).len()
    }
}

proof fn lemma_regions_upto_count(t: &VoronoiTiling, k: int)
    requires
        t.wf(),
        0 <= k,
    ensures
        regions_upto(t, k).finite(),
        regions_upto(t, k).len() == region_sizes(t, k),
        forall|i: int| 0 <= i < k ==> (#[trigger] t.region(i)).finite(),
    decreases k,
{
    t.open_set_in_grid();
    lemma_grid_cells_finite(t.grid_size());
    assert forall|c: Coord| #[trigger] regions_upto(t, k).contains(c) implies grid_cells(t.grid_size()).contains(c) by {}
    vstd::set_lib::lemma_set_subset_finite(grid_cells(t.grid_size()), regions_upto(t, k));
    assert forall|i: int| 0 <= i < k implies (#[trigger] t.region(i)).finite() by {
        assert forall|c: Coord| #[trigger] t.region(i).contains(c) implies grid_cells(t.grid_size()).contains(c) by {}
        vstd::set_lib::lemma_set_subset_finite(grid_cells(t.grid_size()), t.region(i));
    }
    if k == 0 {
        assert(regions_upto(t, 0) =~= Set::<Coord>::empty());
    } else {
        lemma_regions_upto_count(t, k - 1);
        assert(regions_upto(t, k) =~= regions_upto(t, k - 1).union(t.region(k - 1)));
        assert(regions_upto(t, k - 1).disjoint(t.region(k - 1)));
        vstd::set_lib::lemma_set_disjoint_lens(regions_upto(t, k - 1), t.region(k - 1));
    }
}

/// The open cells and the regions split the habitable cells between them:
/// their sizes add up to the number of cells the tiler accounts for.
pub proof fn lemma_partition_counts(t: &VoronoiTiling)
    requires
        t.wf(),
    ensures
        t.covered().finite(),
        t.covered().len() == t.open().len() + region_sizes(t, t.seeds().len() as int),
{
    let n = t.seeds().len() as int;
    lemma_regions_upto_count(t, n);
    t.open_set_in_grid();
    assert(t.claimed() =~= regions_upto(t, n)) by {
        assert forall|c: Coord| #[trigger] t.claimed().contains(c) implies regions_upto(t, n).contains(c) by {
            t.lemma_owner_bound(c);
        }
    }
    assert(t.open().disjoint(t.claimed()));
    vstd::set_lib::lemma_set_disjoint_lens(t.open(), t.claimed());
}

/// A call of `next` moves cells between the open set and the regions and
/// never changes their total: the habitable count stays as it was.
pub proof fn lemma_habitable_count_kept(pre: &VoronoiTiling, post: &VoronoiTiling)
    requires
        pre.wf(),
        post.wf(),
        post.covered() == pre.covered(),
    ensures
        post.open().len() + region_sizes(post, post.seeds().len() as int)
            == pre.open().len() + region_sizes(pre, pre.seeds().len() as int),
{
    lemma_partition_counts(pre);
    lemma_partition_counts(post);
}

} // verus!
