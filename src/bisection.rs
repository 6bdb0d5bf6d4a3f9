//! Two-way bisection tiler: two random cells of the undivided pool grow
//! alternately, one cell of frontier per step each, until both stall; any
//! resulting tile larger than the target size is split again.
use vstd::prelude::*;
use crate::cellset::CellSet;
use crate::grid::{adjacent8, get_surrounding, in_grid, interior_i32, lemma_nbr_distinct, nbr, surrounding_spec, Coord, MAX_SIZE};
use crate::random::rand_below;
use crate::regions::{concat, lemma_surrounding_index};

verus! {

/// The cells one half gained over successive calls (`a` for half A).
pub open spec fn cat_gained(outs: Seq<(bool, Seq<Coord>, Seq<Coord>)>, a: bool) -> Seq<Coord>
    decreases outs.len(),
{
    if outs.len() == 0 {
        Seq::empty()
    } else {
        cat_gained(outs.drop_last(), a) + if a { outs.last().1 } else { outs.last().2 }
    }
}

/// No cell lies in two tiles, or in a tile and in `rest`.
pub open spec fn tiles_apart(h: Seq<Vec<Coord>>, rest: Set<Coord>) -> bool {
    &&& forall|i: int, j: int, c: Coord| 0 <= i < h.len() && 0 <= j < h.len()
        && #[trigger] h[i]@.contains(c) && #[trigger] h[j]@.contains(c) ==> i == j
    &&& forall|i: int, c: Coord| 0 <= i < h.len() && #[trigger] h[i]@.contains(c) ==> !rest.contains(c)
}

pub proof fn lemma_apart_sub(h: Seq<Vec<Coord>>, r1: Set<Coord>, r2: Set<Coord>)
    requires
        tiles_apart(h, r1),
        r2.subset_of(r1),
    ensures
        tiles_apart(h, r2),
{
}

pub proof fn lemma_apart_push(h: Seq<Vec<Coord>>, v: Vec<Coord>, rest: Set<Coord>)
    requires
        tiles_apart(h, rest.union(v@.to_set())),
        rest.disjoint(v@.to_set()),
    ensures
        tiles_apart(h.push(v), rest),
{
    let h2 = h.push(v);
    assert forall|i: int, j: int, c: Coord| 0 <= i < h2.len() && 0 <= j < h2.len()
        && #[trigger] h2[i]@.contains(c) && #[trigger] h2[j]@.contains(c) implies i == j by {
        if i < h.len() && j < h.len() {
            assert(h2[i] == h[i] && h2[j] == h[j]);
        } else if i < h.len() {
            assert(h2[i] == h[i] && h2[j] == v);
            assert(v@.to_set().contains(c));
        } else if j < h.len() {
            assert(h2[j] == h[j] && h2[i] == v);
            assert(v@.to_set().contains(c));
        }
    }
    assert forall|i: int, c: Coord| 0 <= i < h2.len() && #[trigger] h2[i]@.contains(c) implies !rest.contains(c) by {
        if i < h.len() {
            assert(h2[i] == h[i]);
        } else {
            assert(h2[i] == v);
            assert(v@.to_set().contains(c));
        }
    }
}

pub proof fn lemma_apart_remove(h: Seq<Vec<Coord>>, i: int, rest: Set<Coord>)
    requires
        tiles_apart(h, rest),
        0 <= i < h.len(),
    ensures
        tiles_apart(h.remove(i), rest.union(h[i]@.to_set())),
{
    let h2 = h.remove(i);
    assert forall|a: int, b: int, c: Coord| 0 <= a < h2.len() && 0 <= b < h2.len()
        && #[trigger] h2[a]@.contains(c) && #[trigger] h2[b]@.contains(c) implies a == b by {
        let a1 = if a < i { a } else { a + 1 };
        let b1 = if b < i { b } else { b + 1 };
        assert(h2[a] == h[a1] && h2[b] == h[b1]);
        assert(h[a1]@.contains(c) && h[b1]@.contains(c));
    }
    assert forall|a: int, c: Coord| 0 <= a < h2.len() && #[trigger] h2[a]@.contains(c)
        implies !rest.union(h[i]@.to_set()).contains(c) by {
        let a1 = if a < i { a } else { a + 1 };
        assert(h2[a] == h[a1]);
        assert(h[a1]@.contains(c));
        if h[i]@.contains(c) {
            assert(a1 != i);
        }
    }
}

/// The cells of all finished tiles.
pub open spec fn hist_cells(h: Seq<Vec<Coord>>) -> Set<Coord> {
    Set::new(|c: Coord| exists|i: int| 0 <= i < h.len() && (#[trigger] h[i])@.contains(c))
}

/// The first `m` neighbours of `f`, in order, that lie in `open`.
pub open spec fn open_nbrs_upto(f: Coord, open: Set<Coord>, m: int) -> Seq<Coord>
    decreases (if m <= 0 { 0 } else { m }),
{
    if m <= 0 {
        Seq::empty()
    } else {
        let prev = open_nbrs_upto(f, open, m - 1);
        if open.contains(nbr(f, m - 1)) { prev.push(nbr(f, m - 1)) } else { prev }
    }
}

/// What `open_nbrs_upto` keeps are distinct neighbours among the first `m`.
pub proof fn lemma_open_nbrs(f: Coord, open: Set<Coord>, m: int)
    requires
        interior_i32(f),
        0 <= m <= 8,
    ensures
        open_nbrs_upto(f, open, m).len() <= m,
        open_nbrs_upto(f, open, m).no_duplicates(),
        forall|c: Coord| #[trigger] open_nbrs_upto(f, open, m).contains(c) ==>
            open.contains(c) && exists|k: int| 0 <= k < m && c == nbr(f, k),
    decreases m,
{
    if m > 0 {
        lemma_open_nbrs(f, open, m - 1);
        let prev = open_nbrs_upto(f, open, m - 1);
        let x = nbr(f, m - 1);
        assert(!prev.contains(x)) by {
            if prev.contains(x) {
                let k = choose|k: int| 0 <= k < m - 1 && x == nbr(f, k);
                lemma_nbr_distinct(f, k, m - 1);
            }
        }
        assert forall|c: Coord| #[trigger] open_nbrs_upto(f, open, m).contains(c) implies
            open.contains(c) && exists|k: int| 0 <= k < m && c == nbr(f, k) by {
            if prev.contains(c) {
                let k = choose|k: int| 0 <= k < m - 1 && c == nbr(f, k);
            } else {
                let q = choose|q: int| 0 <= q < open_nbrs_upto(f, open, m).len() && open_nbrs_upto(f, open, m)[q] == c;
                assert(c == x);
            }
        }
        if open.contains(x) {
            assert forall|a: int, b: int| 0 <= a < prev.len() + 1 && 0 <= b < prev.len() + 1 && a != b
                implies prev.push(x)[a] != prev.push(x)[b] by {
                if a < prev.len() && b == prev.len() {
                    assert(prev.contains(prev[a]));
                }
                if b < prev.len() && a == prev.len() {
                    assert(prev.contains(prev[b]));
                }
            }
        }
    }
}

/// Frontier cells from `head` on belong to `part`.
pub open spec fn frontier_ok(frontier: Seq<Coord>, head: int, part: Set<Coord>) -> bool {
    &&& 0 <= head <= frontier.len()
    &&& forall|i: int| head <= i < frontier.len() ==> part.contains(#[trigger] frontier[i])
}

impl RecursiveTiling {
    /// Removes two distinct cells of `set`, each drawn uniformly from what is
    /// left; `None`, changing nothing, when fewer than two remain.
    pub fn remove_two_random_from_set(set: &mut CellSet, rng: &mut fastrand::Rng) -> (r: Option<[Coord; 2]>)
        requires
            old(set).wf(),
        ensures
            final(set).wf(),
            final(set).grid_size() == old(set).grid_size(),
            r is None <==> old(set)@.len() < 2,
            r is None ==> final(set)@ == old(set)@ && *final(rng) == *old(rng),
            r matches Some(p) ==> {
                &&& p[0] != p[1]
                &&& old(set)@.contains(p[0])
                &&& old(set)@.contains(p[1])
                &&& final(set)@ == old(set)@.remove(p[0]).remove(p[1])
            },
    {
        proof { set.lemma_wf(); }
        if set.len() < 2 {
            return None;
        }
        let i = rand_below(rng, set.len());
        let a = set.get(i);
        set.remove(a);
        proof { set.lemma_wf(); }
        let j = rand_below(rng, set.len());
        let b = set.get(j);
        set.remove(b);
        Some([a, b])
    }

    /// Some member of `set`, or `None` when it is empty.
    pub fn get_random_from_frontier(set: &CellSet) -> (r: Option<Coord>)
        requires
            set.wf(),
        ensures
            r is None <==> set@.len() == 0,
            r matches Some(c) ==> set@.contains(c),
    {
        proof { set.lemma_wf(); }
        if set.len() == 0 {
            None
        } else {
            Some(set.get(0))
        }
    }

    /// The eight neighbours of `i`, followed by `i` itself when `include_self`;
    /// empty for `None`.
    pub fn get_surrounding(i: Option<Coord>, include_self: bool) -> (r: Vec<Coord>)
        requires
            i matches Some(c) ==> interior_i32(c),
        ensures
            i is None ==> r@.len() == 0,
            i matches Some(c) ==> {
                &&& r@.len() == if include_self { 9int } else { 8int }
                &&& forall|k: int| 0 <= k < 8 ==> (#[trigger] r@[k]).0 == surrounding_spec(c)[k].0
                    && r@[k].1 == surrounding_spec(c)[k].1
                &&& include_self ==> r@[8] == c
            },
    {
        let c = match i {
            Some(a) => a,
            None => return Vec::new(),
        };
        let nb = get_surrounding(c);
        let mut out: Vec<Coord> = Vec::new();
        let mut k: usize = 0;
        while k < 8
            invariant
                k <= 8,
                out@ == nb@.take(k as int),
            decreases 8 - k,
        {
            out.push(nb[k]);
            k = k + 1;
            proof { assert(out@ =~= nb@.take(k as int)); }
        }
        if include_self {
            out.push(c);
        }
        out
    }

    /// Expands one frontier cell: the cell at `head` leaves the frontier and
    /// every open neighbour of it moves from `open` to `current`, joining the
    /// frontier and `pushed`.
    pub fn check_frontier(
        frontier: &mut Vec<Coord>,
        head: &mut usize,
        open: &mut CellSet,
        current: &mut CellSet,
        other: &CellSet,
        pushed: &mut Vec<Coord>,
    )
        requires
            old(open).wf(),
            old(current).wf(),
            other.wf(),
            old(current).grid_size() == old(open).grid_size(),
            other.grid_size() == old(open).grid_size(),
            old(open)@.disjoint(old(current)@),
            old(open)@.disjoint(other@),
            old(current)@.disjoint(other@),
            frontier_ok(old(frontier)@, *old(head) as int, old(current)@),
        ensures
            final(open).wf(),
            final(current).wf(),
            final(current).grid_size() == old(current).grid_size(),
            final(open).grid_size() == old(open).grid_size(),
            final(open)@.disjoint(final(current)@),
            final(open)@.disjoint(other@),
            final(current)@.disjoint(other@),
            frontier_ok(final(frontier)@, *final(head) as int, final(current)@),
            *old(head) == old(frontier)@.len() ==> {
                &&& *final(head) == *old(head)
                &&& final(frontier)@ == old(frontier)@
                &&& final(open)@ == old(open)@
                &&& final(current)@ == old(current)@
                &&& final(pushed)@ == old(pushed)@
            },
            *old(head) < old(frontier)@.len() ==> {
                let f = old(frontier)@[*old(head) as int];
                let added = final(pushed)@.subrange(old(pushed)@.len() as int, final(pushed)@.len() as int);
                &&& *final(head) == *old(head) + 1
                &&& added == open_nbrs_upto(f, old(open)@, 8)
                &&& added.no_duplicates()
                &&& added.len() <= 8
                &&& final(pushed)@.len() >= old(pushed)@.len()
                &&& final(pushed)@.subrange(0, old(pushed)@.len() as int) == old(pushed)@
                &&& final(frontier)@ == old(frontier)@ + added
                &&& forall|k: int| 0 <= k < added.len() ==> old(open)@.contains(#[trigger] added[k]) && adjacent8(added[k], f)
                &&& final(open)@ == old(open)@.difference(added.to_set())
                &&& final(current)@ == old(current)@.union(added.to_set())
                &&& forall|p: Coord| adjacent8(p, f) ==> !(#[trigger] final(open)@.contains(p))
            },
    {
        if *head >= frontier.len() {
            return;
        }
        let f = frontier[*head];
        *head = *head + 1;
        proof {
            current.lemma_wf();
            assert(current@.contains(f));
        }
        let ghost open0 = open@;
        let ghost cur0 = current@;
        let ghost fr0 = frontier@;
        let ghost lo = pushed@.len() as int;
        let ghost pushed0 = pushed@;
        let nb = get_surrounding(f);
        let mut m: usize = 0;
        while m < 8
            invariant
                0 <= m <= 8,
                open.wf(),
                current.wf(),
                other.wf(),
                current.grid_size() == open.grid_size(),
                other.grid_size() == open.grid_size(),
                open.grid_size() == old(open).grid_size(),
                current.grid_size() == old(current).grid_size(),
                open@.disjoint(current@),
                open@.disjoint(other@),
                current@.disjoint(other@),
                forall|kk: int| 0 <= kk < 8 ==> adjacent8(#[trigger] nb@[kk], f),
                forall|kk: int| 0 <= kk < 8 ==> (#[trigger] nb@[kk]).0 == surrounding_spec(f)[kk].0
                    && nb@[kk].1 == surrounding_spec(f)[kk].1,
                0 <= lo,
                pushed@.len() >= lo,
                pushed@.subrange(0, lo) == pushed0,
                frontier@ == fr0 + pushed@.subrange(lo, pushed@.len() as int),
                frontier_ok(frontier@, *head as int, current@),
                forall|k: int| lo <= k < pushed@.len() ==> open0.contains(#[trigger] pushed@[k]) && adjacent8(pushed@[k], f),
            forall|k: int| lo <= k < pushed@.len() ==> !open@.contains(#[trigger] pushed@[k]),
            pushed@.subrange(lo, pushed@.len() as int).no_duplicates(),
                pushed@.subrange(lo, pushed@.len() as int) == open_nbrs_upto(f, open0, m as int),
                interior_i32(f),
                open@ == open0.difference(pushed@.subrange(lo, pushed@.len() as int).to_set()),
                current@ == cur0.union(pushed@.subrange(lo, pushed@.len() as int).to_set()),
                forall|kk: int| 0 <= kk < m ==> !(#[trigger] open@.contains(nb@[kk])),
            decreases 8 - m,
        {
            let p = nb[m];
            proof {
                assert(p == nbr(f, m as int));
                let ad = pushed@.subrange(lo, pushed@.len() as int);
                lemma_open_nbrs(f, open0, m as int);
                assert(open_nbrs_upto(f, open0, m as int + 1) == if open0.contains(p) { ad.push(p) } else { ad });
                if ad.to_set().contains(p) {
                    assert(ad.contains(p));
                    let k = choose|k: int| 0 <= k < m && p == nbr(f, k);
                    lemma_nbr_distinct(f, k, m as int);
                }
                assert(open@.contains(p) <==> open0.contains(p));
            }
            if open.contains(p) {
                proof {
                    open.lemma_wf();
                    assert(!current@.contains(p));
                }
                let ghost pu = pushed@;
                open.remove(p);
                current.insert(p);
                frontier.push(p);
                pushed.push(p);
                proof {
                    assert(pushed@ == pu.push(p));
                    assert(pushed@.subrange(0, lo) =~= pu.subrange(0, lo));
                    assert(pushed@.subrange(lo, pushed@.len() as int) =~= pu.subrange(lo, pu.len() as int).push(p));
                    pu.subrange(lo, pu.len() as int).lemma_push_to_set_commute(p);
                    assert(open@ =~= open0.difference(pushed@.subrange(lo, pushed@.len() as int).to_set()));
                    assert(current@ =~= cur0.union(pushed@.subrange(lo, pushed@.len() as int).to_set()));
                    assert(frontier@ =~= fr0 + pushed@.subrange(lo, pushed@.len() as int));
                    assert(open@.disjoint(current@));
                    assert forall|i: int| *head <= i < frontier@.len() implies current@.contains(#[trigger] frontier@[i]) by {
                        if i < frontier@.len() - 1 {
                            assert(frontier@[i] == (fr0 + pu.subrange(lo, pu.len() as int))[i]);
                        }
                    }
                }
            }
            m = m + 1;
        }
        proof {
            assert forall|p: Coord| adjacent8(p, f) implies !(#[trigger] open@.contains(p)) by {
                let kk = lemma_surrounding_index(p, f);
                assert(nb@[kk] == p);
            }
            lemma_open_nbrs(f, open0, 8);
        }
    }
}

} // verus!

verus! {

pub proof fn lemma_hist_push(h: Seq<Vec<Coord>>, v: Vec<Coord>)
    ensures
        hist_cells(h.push(v)) == hist_cells(h).union(v@.to_set()),
{
    assert forall|c: Coord| #[trigger] hist_cells(h.push(v)).contains(c) <==> hist_cells(h).union(v@.to_set()).contains(c) by {
        if hist_cells(h).contains(c) {
            let i = choose|i: int| 0 <= i < h.len() && (#[trigger] h[i])@.contains(c);
            assert(h.push(v)[i] == h[i]);
        }
        if v@.contains(c) {
            assert(h.push(v)[h.len() as int] == v);
        }
        if hist_cells(h.push(v)).contains(c) {
            let i = choose|i: int| 0 <= i < h.len() + 1 && (#[trigger] h.push(v)[i])@.contains(c);
            if i < h.len() {
                assert(h.push(v)[i] == h[i]);
            }
        }
    }
    assert(hist_cells(h.push(v)) =~= hist_cells(h).union(v@.to_set()));
}

pub proof fn lemma_hist_remove(h: Seq<Vec<Coord>>, i: int)
    requires
        0 <= i < h.len(),
    ensures
        hist_cells(h) == hist_cells(h.remove(i)).union(h[i]@.to_set()),
{
    let r = h.remove(i);
    assert forall|c: Coord| #[trigger] hist_cells(h).contains(c) <==> hist_cells(r).union(h[i]@.to_set()).contains(c) by {
        if hist_cells(h).contains(c) {
            let j = choose|j: int| 0 <= j < h.len() && (#[trigger] h[j])@.contains(c);
            if j < i {
                assert(r[j] == h[j]);
            } else if j > i {
                assert(r[j - 1] == h[j]);
            }
        }
        if hist_cells(r).contains(c) {
            let j = choose|j: int| 0 <= j < r.len() && (#[trigger] r[j])@.contains(c);
            if j < i {
                assert(r[j] == h[j]);
            } else {
                assert(r[j] == h[j + 1]);
            }
        }
        if h[i]@.contains(c) {
            assert(h[i]@.contains(c));
        }
    }
    assert(hist_cells(h) =~= hist_cells(r).union(h[i]@.to_set()));
}

/// Recursive two-way partition of the open cells into tiles of at most a
/// target size.
pub struct RecursiveTiling {
    size: usize,
    desired_tile_size: usize,
    ready_to_tile: bool,
    open_set: CellSet,
    past_sets: Vec<Vec<Coord>>,
    current_a_set: CellSet,
    current_b_set: CellSet,
    current_a_frontier: Vec<Coord>,
    a_head: usize,
    current_b_frontier: Vec<Coord>,
    b_head: usize,
    all_done: bool,
    should_reset_animation: bool,
}

impl RecursiveTiling {
    pub closed spec fn grid_size(&self) -> int {
        self.size as int
    }

    /// Cells of the pool that is being divided.
    pub closed spec fn pool(&self) -> Set<Coord> {
        self.open_set@
    }

    pub closed spec fn part_a(&self) -> Set<Coord> {
        self.current_a_set@
    }

    pub closed spec fn part_b(&self) -> Set<Coord> {
        self.current_b_set@
    }

    /// Finished (or not yet re-divided) tiles, oldest first.
    pub closed spec fn tiles(&self) -> Seq<Vec<Coord>> {
        self.past_sets@
    }

    pub closed spec fn desired(&self) -> nat {
        self.desired_tile_size as nat
    }

    pub closed spec fn finished(&self) -> bool {
        self.all_done
    }

    pub closed spec fn reset_pending(&self) -> bool {
        self.should_reset_animation
    }

    pub closed spec fn ready(&self) -> bool {
        self.ready_to_tile
    }

    /// The frontier cell that half A expands next, if any.
    pub closed spec fn head_a(&self) -> Option<Coord> {
        if self.a_head < self.current_a_frontier@.len() { Some(self.current_a_frontier@[self.a_head as int]) } else { None }
    }

    /// The frontier cell that half B expands next, if any.
    pub closed spec fn head_b(&self) -> Option<Coord> {
        if self.b_head < self.current_b_frontier@.len() { Some(self.current_b_frontier@[self.b_head as int]) } else { None }
    }

    /// Both growing halves have stalled.
    pub closed spec fn stalled(&self) -> bool {
        self.a_head == self.current_a_frontier@.len() && self.b_head == self.current_b_frontier@.len()
    }

    /// Every cell the tiler accounts for: pool, both halves and all tiles.
    pub open spec fn covered(&self) -> Set<Coord> {
        self.pool().union(self.part_a()).union(self.part_b()).union(hist_cells(self.tiles()))
    }

    pub closed spec fn wf(&self) -> bool {
        &&& 0 < self.size <= MAX_SIZE
        &&& self.open_set.wf()
        &&& self.current_a_set.wf()
        &&& self.current_b_set.wf()
        &&& self.open_set.grid_size() == self.size
        &&& self.current_a_set.grid_size() == self.size
        &&& self.current_b_set.grid_size() == self.size
        &&& self.open_set@.disjoint(self.current_a_set@)
        &&& self.open_set@.disjoint(self.current_b_set@)
        &&& self.current_a_set@.disjoint(self.current_b_set@)
        &&& frontier_ok(self.current_a_frontier@, self.a_head as int, self.current_a_set@)
        &&& frontier_ok(self.current_b_frontier@, self.b_head as int, self.current_b_set@)
        &&& self.stalled() ==> self.current_a_set@.len() == 0 && self.current_b_set@.len() == 0
        &&& forall|i: int, j: int| 0 <= i < self.past_sets@.len() && 0 <= j < self.past_sets@[i]@.len()
            ==> in_grid(self.size as int, #[trigger] self.past_sets@[i]@[j])
        &&& tiles_apart(self.past_sets@, self.open_set@.union(self.current_a_set@).union(self.current_b_set@))
        &&& forall|i: int| 0 <= i < self.past_sets@.len() ==> (#[trigger] self.past_sets@[i])@.no_duplicates()
        &&& self.all_done ==> forall|i: int| 0 <= i < self.past_sets@.len()
            ==> (#[trigger] self.past_sets@[i])@.len() <= self.desired_tile_size
    }

    /// No cell lies in two tiles, or in a tile and in the pool or a half.
    pub proof fn lemma_tiles_apart(&self)
        requires
            self.wf(),
        ensures
            tiles_apart(self.tiles(), self.pool().union(self.part_a()).union(self.part_b())),
    {
    }

    /// An empty tiler on a `size` by `size` grid that splits until every tile
    /// holds at most `desired_tile_size` cells.
    pub fn new(size: usize, desired_tile_size: usize) -> (r: RecursiveTiling)
        requires
            0 < size <= MAX_SIZE,
        ensures
            r.wf(),
            r.grid_size() == size,
            r.desired() == desired_tile_size,
            r.covered() == Set::<Coord>::empty(),
            !r.finished(),
            r.stalled(),
            r.tiles().len() == 0,
    {
        let r = RecursiveTiling {
            size,
            desired_tile_size,
            ready_to_tile: false,
            open_set: CellSet::new(size),
            past_sets: Vec::new(),
            current_a_set: CellSet::new(size),
            current_b_set: CellSet::new(size),
            current_a_frontier: Vec::new(),
            a_head: 0,
            current_b_frontier: Vec::new(),
            b_head: 0,
            all_done: false,
            should_reset_animation: false,
        };
        proof {
            assert(hist_cells(r.past_sets@) =~= Set::<Coord>::empty());
            assert(r.covered() =~= Set::<Coord>::empty());
        }
        r
    }

    /// Adds `c` to the pool; refused off the grid, inside a growing half, or
    /// once splitting has produced tiles.
    pub fn add_open(&mut self, c: Coord) -> (r: bool)
        requires
            old(self).wf(),
        ensures
            final(self).wf(),
            r == (in_grid(old(self).grid_size(), c) && !old(self).part_a().contains(c) && !old(self).part_b().contains(c)
                && old(self).tiles().len() == 0),
            final(self).pool() == if r { old(self).pool().insert(c) } else { old(self).pool() },
            final(self).part_a() == old(self).part_a(),
            final(self).part_b() == old(self).part_b(),
            final(self).tiles() == old(self).tiles(),
            final(self).finished() == old(self).finished(),
    {
        if c.0 < 0 || c.1 < 0 || c.0 as usize >= self.size || c.1 as usize >= self.size {
            return false;
        }
        if self.current_a_set.contains(c) || self.current_b_set.contains(c) || self.past_sets.len() > 0 {
            return false;
        }
        self.open_set.insert(c);
        true
    }

    pub fn pool_len(&self) -> (r: usize)
        requires
            self.wf(),
        ensures
            r == self.pool().len(),
    {
        self.open_set.len()
    }

    pub fn is_all_done(&self) -> (r: bool)
        ensures
            r == self.finished(),
    {
        self.all_done
    }

    pub fn set_ready_to_tile(&mut self, ready: bool)
        requires
            old(self).wf(),
        ensures
            final(self).wf(),
            final(self).ready() == ready,
            final(self).covered() == old(self).covered(),
            final(self).tiles() == old(self).tiles(),
            final(self).finished() == old(self).finished(),
    {
        self.ready_to_tile = ready;
    }

    pub fn ready_to_tile(&self) -> (r: bool)
        ensures
            r == self.ready(),
    {
        self.ready_to_tile
    }

    pub fn tile_count(&self) -> (r: usize)
        ensures
            r == self.tiles().len(),
    {
        self.past_sets.len()
    }

    /// The cells of tile `i`.
    pub fn tile(&self, i: usize) -> (r: Vec<Coord>)
        requires
            i < self.tiles().len(),
        ensures
            r@ == self.tiles()[i as int]@,
    {
        let t = &self.past_sets[i];
        let mut r: Vec<Coord> = Vec::new();
        let mut k: usize = 0;
        while k < t.len()
            invariant
                k <= t@.len(),
                r@ == t@.take(k as int),
            decreases t@.len() - k,
        {
            r.push(t[k]);
            k = k + 1;
            proof { assert(r@ =~= t@.take(k as int)); }
        }
        proof { assert(r@ =~= t@); }
        r
    }

    /// Reports, once, that a new pool was loaded since the last call.
    pub fn should_reset(&mut self) -> (r: bool)
        requires
            old(self).wf(),
        ensures
            final(self).wf(),
            r == old(self).reset_pending(),
            !final(self).reset_pending(),
            final(self).pool() == old(self).pool(),
            final(self).part_a() == old(self).part_a(),
            final(self).part_b() == old(self).part_b(),
            final(self).desired() == old(self).desired(),
            final(self).ready() == old(self).ready(),
            final(self).stalled() == old(self).stalled(),
            final(self).covered() == old(self).covered(),
            final(self).tiles() == old(self).tiles(),
            final(self).finished() == old(self).finished(),
    {
        if self.should_reset_animation {
            self.should_reset_animation = false;
            return true;
        }
        false
    }

    /// Takes out the first tile larger than the target size.
    pub fn get_next_set_to_divide(&mut self) -> (r: Option<Vec<Coord>>)
        requires
            old(self).wf(),
        ensures
            r is None ==> *final(self) == *old(self)
                && forall|i: int| 0 <= i < old(self).tiles().len() ==> (#[trigger] old(self).tiles()[i])@.len() <= old(self).desired(),
            r matches Some(v) ==> exists|i: int| 0 <= i < old(self).tiles().len()
                && v == old(self).tiles()[i]
                && v@.len() > old(self).desired()
                && final(self).tiles() == old(self).tiles().remove(i)
                && forall|j: int| 0 <= j < i ==> (#[trigger] old(self).tiles()[j])@.len() <= old(self).desired(),
            final(self).pool() == old(self).pool(),
            final(self).part_a() == old(self).part_a(),
            final(self).part_b() == old(self).part_b(),
            final(self).stalled() == old(self).stalled(),
            final(self).finished() == old(self).finished(),
            final(self).desired() == old(self).desired(),
            final(self).grid_size() == old(self).grid_size(),
            final(self).reset_pending() == old(self).reset_pending(),
            final(self).wf(),
            final(self).ready() == old(self).ready(),
    {
        let mut i: usize = 0;
        while i < self.past_sets.len()
            invariant
                i <= self.past_sets@.len(),
                *self == *old(self),
                old(self).wf(),
                forall|j: int| 0 <= j < i ==> (#[trigger] self.past_sets@[j])@.len() <= self.desired_tile_size,
            decreases self.past_sets@.len() - i,
        {
            if self.past_sets[i].len() > self.desired_tile_size {
                let ghost h = self.past_sets@;
                let ghost pre = *self;
                let v = self.past_sets.remove(i);
                proof {
                    assert(pre.wf());
                    assert(h == old(self).past_sets@);
                    assert(self.past_sets@ == h.remove(i as int));
                    assert(v == h[i as int]);
                    assert forall|a: int| 0 <= a < self.past_sets@.len() && self.all_done
                        implies (#[trigger] self.past_sets@[a])@.len() <= self.desired_tile_size by {
                        if a < i {
                            assert(self.past_sets@[a] == h[a]);
                            assert(h[a]@.len() <= self.desired_tile_size);
                        } else {
                            assert(self.past_sets@[a] == h[a + 1]);
                            assert(h[a + 1]@.len() <= self.desired_tile_size);
                        }
                    }
                    assert forall|a: int, b: int| 0 <= a < self.past_sets@.len() && 0 <= b < self.past_sets@[a]@.len()
                        implies in_grid(self.size as int, #[trigger] self.past_sets@[a]@[b]) by {
                        if a < i {
                            assert(self.past_sets@[a] == h[a]);
                            assert(in_grid(self.size as int, h[a]@[b]));
                        } else {
                            assert(self.past_sets@[a] == h[a + 1]);
                            assert(in_grid(self.size as int, h[a + 1]@[b]));
                        }
                    }
                    assert(old(self).tiles()[i as int] == v);
                }
                return Some(v);
            }
            i = i + 1;
        }
        None
    }
    /// The tiles once a pool of fewer than two cells is used up: a lone
    /// pool cell joins them as a tile of its own.
    pub open spec fn pending_tiles(pre: &Self, tl: Seq<Vec<Coord>>) -> bool {
        let n = pre.tiles().len();
        &&& pre.pool().len() == 0 ==> tl == pre.tiles()
        &&& pre.pool().len() == 1 ==> {
            &&& tl.len() == n + 1
            &&& tl.subrange(0, n as int) == pre.tiles()
            &&& tl[n as int]@.len() == 1
            &&& pre.pool().contains(tl[n as int]@[0])
        }
    }

    /// The first tile of `tl` larger than the target, if any, is taken out,
    /// the rest keeping their order, and becomes the pool (`reloaded`);
    /// otherwise the tiles are `tl` and the tiler is finished.
    pub open spec fn pool_reloaded(pre: &Self, post: &Self, tl: Seq<Vec<Coord>>, reloaded: bool) -> bool {
        &&& reloaded <==> exists|i: int| 0 <= i < tl.len() && (#[trigger] tl[i])@.len() > pre.desired()
        &&& reloaded ==> exists|i: int| 0 <= i < tl.len() && (#[trigger] tl[i])@.len() > pre.desired()
            && (forall|j: int| 0 <= j < i ==> (#[trigger] tl[j])@.len() <= pre.desired())
            && post.tiles() == tl.remove(i)
            && post.pool() == tl[i]@.to_set()
        &&& !reloaded ==> post.tiles() == tl && post.finished()
    }

    /// What one call of `next` does, from `pre` to `post`, returning `r`.
    pub open spec fn advanced(pre: &Self, post: &Self, r: (bool, Seq<Coord>, Seq<Coord>)) -> bool {
        &&& post.covered() == pre.covered()
        &&& post.desired() == pre.desired()
        &&& post.grid_size() == pre.grid_size()
        &&& post.ready() == pre.ready()
        &&& pre.finished() ==> r.0 && r.1.len() == 0 && r.2.len() == 0 && *post == *pre
        &&& post.finished() ==> forall|i: int| 0 <= i < post.tiles().len()
            ==> (#[trigger] post.tiles()[i])@.len() <= post.desired()
        &&& !pre.finished() && pre.stalled() && pre.pool().len() >= 2 ==> {
            &&& !r.0
            &&& r.1.len() == 1 && r.2.len() == 1
            &&& r.1[0] != r.2[0]
            &&& pre.pool().contains(r.1[0])
            &&& pre.pool().contains(r.2[0])
            &&& post.part_a() == set![r.1[0]]
            &&& post.part_b() == set![r.2[0]]
            &&& post.pool() == pre.pool().remove(r.1[0]).remove(r.2[0])
            &&& post.tiles() == pre.tiles()
        }
        &&& !pre.finished() && pre.stalled() && pre.pool().len() < 2 ==> {
            &&& r.1.len() == 0 && r.2.len() == 0
            &&& r.0 == !post.finished()
            &&& post.reset_pending()
            &&& r.0 ==> exists|c: Coord| #[trigger] post.pool().contains(c)
            &&& r.0 ==> exists|v: Vec<Coord>| #[trigger] v@.len() > pre.desired() && post.pool() == v@.to_set()
            &&& exists|tl: Seq<Vec<Coord>>| #[trigger] Self::pending_tiles(pre, tl) && Self::pool_reloaded(pre, post, tl, r.0)
            &&& !r.0 ==> forall|i: int| 0 <= i < post.tiles().len() ==> (#[trigger] post.tiles()[i])@.len() <= post.desired()
            &&& post.stalled()
        }
        &&& !pre.finished() && !pre.stalled() ==> {
            &&& !r.0
            &&& post.part_a() == pre.part_a().union(r.1.to_set()) || post.stalled()
            &&& post.part_b() == pre.part_b().union(r.2.to_set()) || post.stalled()
            &&& forall|k: int| 0 <= k < r.1.len() ==> pre.pool().contains(#[trigger] r.1[k])
            &&& forall|k: int| 0 <= k < r.2.len() ==> pre.pool().contains(#[trigger] r.2[k])
            &&& post.pool() == pre.pool().difference(r.1.to_set()).difference(r.2.to_set())
        }
        &&& !pre.finished() && !pre.stalled() ==> {
            &&& (pre.head_a() matches Some(f) ==> (forall|k: int| 0 <= k < r.1.len() ==> adjacent8(#[trigger] r.1[k], f))
                && forall|p: Coord| adjacent8(p, f) ==> !(#[trigger] post.pool().contains(p)))
            &&& (pre.head_a() is None ==> r.1.len() == 0)
            &&& (pre.head_a() matches Some(f) ==> r.1 == open_nbrs_upto(f, pre.pool(), 8))
            &&& (pre.head_b() matches Some(f) ==> r.2 == open_nbrs_upto(f, pre.pool().difference(r.1.to_set()), 8))
            &&& r.1.no_duplicates() && r.2.no_duplicates()
            &&& r.1.len() <= 8 && r.2.len() <= 8
            &&& r.1.to_set().disjoint(r.2.to_set())
            &&& (pre.head_b() matches Some(f) ==> (forall|k: int| 0 <= k < r.2.len() ==> adjacent8(#[trigger] r.2[k], f))
                && forall|p: Coord| adjacent8(p, f) ==> !(#[trigger] post.pool().contains(p)))
            &&& (pre.head_b() is None ==> r.2.len() == 0)
            &&& (post.stalled() ==> {
                let n = pre.tiles().len();
                &&& post.tiles().len() == n + 2
                &&& post.tiles().subrange(0, n as int) == pre.tiles()
                &&& post.tiles()[n as int]@.to_set() == pre.part_a().union(r.1.to_set())
                &&& post.tiles()[n as int + 1]@.to_set() == pre.part_b().union(r.2.to_set())
                &&& post.part_a() == Set::<Coord>::empty()
                &&& post.part_b() == Set::<Coord>::empty()
            })
            &&& (!post.stalled() ==> post.tiles() == pre.tiles())
        }
    }

    /// One step. With both halves stalled: two random pool cells start new
    /// halves, or, with fewer than two pool cells left, the pool (a lone cell
    /// becoming a tile of its own) gives way to the first oversized tile,
    /// reporting a reset, or, when there is none, the tiler is done.
    /// Otherwise each half in turn, A first, expands one frontier cell.
    /// Returns the reset flag and the cells each half gained.
    #[verifier::rlimit(60)]
    pub fn next(&mut self, rng: &mut fastrand::Rng) -> (r: (bool, Vec<Coord>, Vec<Coord>))
        requires
            old(self).wf(),
        ensures
            final(self).wf(),
            Self::advanced(old(self), final(self), (r.0, r.1@, r.2@)),
            old(self).finished() ==> *final(rng) == *old(rng),
            !old(self).finished() && !(old(self).stalled() && old(self).pool().len() >= 2) ==> *final(rng) == *old(rng),
    {
        let mut a_new: Vec<Coord> = Vec::new();
        let mut b_new: Vec<Coord> = Vec::new();
        if self.all_done {
            return (true, a_new, b_new);
        }
        let ghost pre = *self;
        if self.a_head >= self.current_a_frontier.len() && self.b_head >= self.current_b_frontier.len() {
            proof { self.open_set.lemma_wf(); }
            if self.open_set.len() > 1 {
                let pts = Self::remove_two_random_from_set(&mut self.open_set, rng);
                match pts {
                    Some(p) => {
                        let mut fa: Vec<Coord> = Vec::new();
                        fa.push(p[0]);
                        let mut fb: Vec<Coord> = Vec::new();
                        fb.push(p[1]);
                        self.current_a_frontier = fa;
                        self.current_b_frontier = fb;
                        self.a_head = 0;
                        self.b_head = 0;
                        proof {
                            self.current_a_set.lemma_wf();
                            self.current_b_set.lemma_wf();
                            self.open_set.lemma_wf();
                        }
                        self.current_a_set.insert(p[0]);
                        self.current_b_set.insert(p[1]);
                        a_new.push(p[0]);
                        b_new.push(p[1]);
                        proof {
                            assert(self.current_a_set@ =~= set![p[0]]);
                            assert(self.current_b_set@ =~= set![p[1]]);
                            assert(self.covered() =~= pre.covered());
                            lemma_apart_sub(self.past_sets@, pre.open_set@.union(pre.current_a_set@).union(pre.current_b_set@), self.open_set@.union(self.current_a_set@).union(self.current_b_set@));
                            assert(frontier_ok(self.current_a_frontier@, self.a_head as int, self.current_a_set@));
                            assert(frontier_ok(self.current_b_frontier@, self.b_head as int, self.current_b_set@));
                        }
                    },
                    None => {},
                }
                return (false, a_new, b_new);
            }
            if self.open_set.len() == 1 {
                let c = self.open_set.get(0);
                self.open_set.remove(c);
                let mut single: Vec<Coord> = Vec::new();
                single.push(c);
                let ghost h0 = self.past_sets@;
                self.past_sets.push(single);
                proof {
                    lemma_hist_push(h0, single);
                    assert(single@ == seq![c]);
                    assert forall|x: Coord| #[trigger] single@.to_set().contains(x) <==> set![c].contains(x) by {
                        if x == c {
                            assert(single@[0] == c);
                        }
                    }
                    assert(single@.to_set() =~= set![c]);
                    assert(self.open_set@ =~= Set::<Coord>::empty());
                    assert(pre.open_set@ =~= set![c]) by {
                        pre.open_set.lemma_wf();
                        assert(pre.open_set@.contains(c));
                        if exists|x: Coord| pre.open_set@.contains(x) && x != c {
                            let x = choose|x: Coord| pre.open_set@.contains(x) && x != c;
                            assert(pre.open_set@.remove(c).contains(x));
                            assert(pre.open_set@.remove(c).len() == 0);
                        }
                    }
                    pre.open_set.lemma_wf();
                    assert(in_grid(self.size as int, c));
                    assert forall|i: int, j: int| 0 <= i < self.past_sets@.len() && 0 <= j < self.past_sets@[i]@.len()
                        implies in_grid(self.size as int, #[trigger] self.past_sets@[i]@[j]) by {
                        if i < h0.len() {
                            assert(self.past_sets@[i] == h0[i]);
                        }
                    }
                    assert(self.covered() =~= pre.covered());
                    self.current_a_set.lemma_wf();
                    self.current_b_set.lemma_wf();
                    self.current_a_set@.lemma_len0_is_empty();
                    self.current_b_set@.lemma_len0_is_empty();
                    assert(self.open_set@.union(self.current_a_set@).union(self.current_b_set@).union(single@.to_set()) =~= pre.open_set@.union(pre.current_a_set@).union(pre.current_b_set@));
                    lemma_apart_push(h0, single, self.open_set@.union(self.current_a_set@).union(self.current_b_set@));
                    assert(self.past_sets@.subrange(0, h0.len() as int) =~= h0);
                    assert(self.past_sets@[h0.len() as int] == single);
                    assert(single@[0] == c);
                    assert(Self::pending_tiles(&pre, self.past_sets@));
                }
            }
            let ghost mid = *self;
            proof {
                if pre.open_set@.len() == 0 {
                    assert(Self::pending_tiles(&pre, mid.past_sets@));
                }
                assert(Self::pending_tiles(&pre, mid.past_sets@));
            }
            match self.get_next_set_to_divide() {
                Some(set) => {
                    proof {
                        let i = choose|i: int| 0 <= i < mid.tiles().len()
                            && set == mid.tiles()[i]
                            && set@.len() > mid.desired()
                            && self.tiles() == mid.tiles().remove(i);
                        lemma_hist_remove(mid.past_sets@, i);
                        assert forall|j: int| 0 <= j < set@.len() implies in_grid(self.size as int, #[trigger] set@[j]) by {
                            assert(mid.past_sets@[i]@[j] == set@[j]);
                        }
                    }
                    self.open_set = CellSet::from_cells(self.size, &set);
                    self.should_reset_animation = true;
                    proof {
                        assert(set@.len() > 0);
                        assert(self.open_set@.contains(set@[0]));
                        assert(self.current_a_set@.len() == 0);
                        assert(self.current_b_set@.len() == 0);
                        self.current_a_set.lemma_wf();
                        self.current_b_set.lemma_wf();
                        assert(self.current_a_set@ =~= Set::<Coord>::empty()) by {
                            self.current_a_set@.lemma_len0_is_empty();
                        }
                        assert(self.current_b_set@ =~= Set::<Coord>::empty()) by {
                            self.current_b_set@.lemma_len0_is_empty();
                        }
                        mid.open_set.lemma_wf();
                        assert(mid.open_set@ =~= Set::<Coord>::empty()) by {
                            mid.open_set@.lemma_len0_is_empty();
                        }
                        assert(self.covered() =~= pre.covered());
                        let i = choose|i: int| 0 <= i < mid.tiles().len()
                            && set == mid.tiles()[i]
                            && set@.len() > mid.desired()
                            && self.tiles() == mid.tiles().remove(i);
                        assert(set@.len() > pre.desired() && self.open_set@ == set@.to_set());
                        lemma_apart_remove(mid.past_sets@, i, mid.open_set@.union(mid.current_a_set@).union(mid.current_b_set@));
                        lemma_apart_sub(self.past_sets@, mid.open_set@.union(mid.current_a_set@).union(mid.current_b_set@).union(mid.past_sets@[i]@.to_set()), self.open_set@.union(self.current_a_set@).union(self.current_b_set@));
                        let i2 = choose|i: int| 0 <= i < mid.tiles().len()
                            && set == mid.tiles()[i]
                            && set@.len() > mid.desired()
                            && self.tiles() == mid.tiles().remove(i)
                            && forall|j: int| 0 <= j < i ==> (#[trigger] mid.tiles()[j])@.len() <= mid.desired();
                        let tl = mid.past_sets@;
                        assert(tl[i2]@.len() > pre.desired());
                        assert(Self::pool_reloaded(&pre, self, tl, true));
                        assert(Self::pending_tiles(&pre, tl));
                    }
                    return (true, a_new, b_new);
                },
                None => {
                    self.should_reset_animation = true;
                    self.all_done = true;
                    proof {
                        let tl = mid.past_sets@;
                        assert(!exists|i: int| 0 <= i < tl.len() && (#[trigger] tl[i])@.len() > pre.desired()) by {
                            if exists|i: int| 0 <= i < tl.len() && (#[trigger] tl[i])@.len() > pre.desired() {
                                let i = choose|i: int| 0 <= i < tl.len() && (#[trigger] tl[i])@.len() > pre.desired();
                                assert(mid.tiles()[i]@.len() <= mid.desired());
                            }
                        }
                        assert(Self::pool_reloaded(&pre, self, tl, false));
                        assert(Self::pending_tiles(&pre, tl));
                    }
                    return (false, a_new, b_new);
                },
            }
        }
        let ghost mid = *self;
        Self::check_frontier(
            &mut self.current_a_frontier,
            &mut self.a_head,
            &mut self.open_set,
            &mut self.current_a_set,
            &self.current_b_set,
            &mut a_new,
        );
        proof {
            assert(a_new@.subrange(0, 0) =~= Seq::<Coord>::empty());
            assert(a_new@.subrange(0, a_new@.len() as int) =~= a_new@);
            if a_new@.len() == 0 {
                assert(a_new@.to_set() =~= Set::<Coord>::empty());
            }
            assert(self.current_a_set@ =~= pre.current_a_set@.union(a_new@.to_set()));
            assert(self.open_set@ =~= pre.open_set@.difference(a_new@.to_set()));
        }
        let ghost mid2 = *self;
        Self::check_frontier(
            &mut self.current_b_frontier,
            &mut self.b_head,
            &mut self.open_set,
            &mut self.current_b_set,
            &self.current_a_set,
            &mut b_new,
        );
        proof {
            assert(b_new@.subrange(0, 0) =~= Seq::<Coord>::empty());
            assert(b_new@.subrange(0, b_new@.len() as int) =~= b_new@);
            if b_new@.len() == 0 {
                assert(b_new@.to_set() =~= Set::<Coord>::empty());
            }
            assert(self.current_b_set@ =~= pre.current_b_set@.union(b_new@.to_set()));
            assert(self.open_set@ =~= pre.open_set@.difference(a_new@.to_set()).difference(b_new@.to_set()));
        }
        if self.a_head >= self.current_a_frontier.len() && self.b_head >= self.current_b_frontier.len() {
            let ghost h0 = self.past_sets@;
            let av = self.current_a_set.to_vec();
            let bv = self.current_b_set.to_vec();
            let ghost aset = self.current_a_set@;
            let ghost bset = self.current_b_set@;
            proof {
                self.current_a_set.lemma_wf();
                self.current_b_set.lemma_wf();
                assert forall|j: int| 0 <= j < av@.len() implies in_grid(self.size as int, #[trigger] av@[j]) by {
                    assert(av@.to_set().contains(av@[j]));
                }
                assert forall|j: int| 0 <= j < bv@.len() implies in_grid(self.size as int, #[trigger] bv@[j]) by {
                    assert(bv@.to_set().contains(bv@[j]));
                }
            }
            self.past_sets.push(av);
            self.past_sets.push(bv);
            self.current_a_set.clear();
            self.current_b_set.clear();
            proof {
                lemma_hist_push(h0, av);
                lemma_hist_push(h0.push(av), bv);
                assert(self.past_sets@ == h0.push(av).push(bv));
                assert(self.past_sets@.subrange(0, h0.len() as int) =~= h0);
                assert(self.past_sets@[h0.len() as int] == av);
                assert(self.past_sets@[h0.len() as int + 1] == bv);
                assert forall|i: int, j: int| 0 <= i < self.past_sets@.len() && 0 <= j < self.past_sets@[i]@.len()
                    implies in_grid(self.size as int, #[trigger] self.past_sets@[i]@[j]) by {
                    if i < h0.len() {
                        assert(self.past_sets@[i] == h0[i]);
                    } else if i == h0.len() {
                        assert(self.past_sets@[i] == av);
                    } else {
                        assert(self.past_sets@[i] == bv);
                    }
                }
                assert(self.covered() =~= pre.covered());
                lemma_apart_sub(h0, pre.open_set@.union(pre.current_a_set@).union(pre.current_b_set@), self.open_set@.union(bset).union(av@.to_set()));
                lemma_apart_push(h0, av, self.open_set@.union(bset));
                lemma_apart_sub(h0.push(av), self.open_set@.union(bset), self.open_set@.union(bv@.to_set()));
                lemma_apart_push(h0.push(av), bv, self.open_set@);
                lemma_apart_sub(self.past_sets@, self.open_set@, self.open_set@.union(self.current_a_set@).union(self.current_b_set@));
            }
        } else {
            proof {
                assert(self.covered() =~= pre.covered());
                lemma_apart_sub(self.past_sets@, pre.open_set@.union(pre.current_a_set@).union(pre.current_b_set@), self.open_set@.union(self.current_a_set@).union(self.current_b_set@));
            }
        }
        (false, a_new, b_new)
    }

    /// `outs[i]` is what the call of `next` from `states[i]` to
    /// `states[i + 1]` returned; only the last call may report a reset.
    pub open spec fn trace(states: Seq<Self>, outs: Seq<(bool, Seq<Coord>, Seq<Coord>)>) -> bool {
        &&& states.len() == outs.len() + 1
        &&& forall|i: int| 0 <= i < outs.len() ==> #[trigger] Self::advanced(&states[i], &states[i + 1], outs[i])
        &&& forall|i: int| 0 <= i < outs.len() - 1 ==> !(#[trigger] outs[i]).0
    }

    /// Calls `next` up to `n` times, stopping after a step that reports a
    /// reset, and concatenates the cells each half gained.
    pub fn next_n(&mut self, rng: &mut fastrand::Rng, n: usize) -> (r: (bool, Vec<Coord>, Vec<Coord>))
        requires
            old(self).wf(),
        ensures
            final(self).wf(),
            exists|states: Seq<Self>, outs: Seq<(bool, Seq<Coord>, Seq<Coord>)>| #[trigger] Self::trace(states, outs)
                && outs.len() <= n
                && states[0] == *old(self)
                && states[outs.len() as int] == *final(self)
                && r.1@ == cat_gained(outs, true)
                && r.2@ == cat_gained(outs, false)
                && r.0 == (outs.len() > 0 && outs.last().0)
                && (outs.len() < n ==> r.0),
            final(self).covered() == old(self).covered(),
            final(self).desired() == old(self).desired(),
            final(self).ready() == old(self).ready(),
    {
        let mut a_new: Vec<Coord> = Vec::new();
        let mut b_new: Vec<Coord> = Vec::new();
        let mut reset = false;
        let mut t: usize = 0;
        let ghost pre = *self;
        let ghost mut states: Seq<Self> = seq![pre];
        let ghost mut outs: Seq<(bool, Seq<Coord>, Seq<Coord>)> = Seq::empty();
        while t < n && !reset
            invariant
                t <= n,
                self.wf(),
                self.covered() == pre.covered(),
                self.desired() == pre.desired(),
                self.ready() == pre.ready(),
                Self::trace(states, outs),
                outs.len() == t,
                states[0] == pre,
                states[t as int] == *self,
                a_new@ == cat_gained(outs, true),
                b_new@ == cat_gained(outs, false),
                reset == (outs.len() > 0 && outs.last().0),
            decreases n - t,
        {
            let (flag, a, b) = self.next(rng);
            a_new = concat(&a_new, &a);
            b_new = concat(&b_new, &b);
            proof {
                let s0 = states;
                let o0 = outs;
                states = states.push(*self);
                outs = outs.push((flag, a@, b@));
                assert(outs.drop_last() =~= o0);
                assert forall|i: int| 0 <= i < outs.len() implies #[trigger] Self::advanced(&states[i], &states[i + 1], outs[i]) by {
                    if i < o0.len() {
                        assert(states[i] == s0[i] && states[i + 1] == s0[i + 1] && outs[i] == o0[i]);
                    }
                }
                assert forall|i: int| 0 <= i < outs.len() - 1 implies !(#[trigger] outs[i]).0 by {
                    assert(outs[i] == o0[i]);
                }
            }
            if flag {
                reset = true;
            }
            t = t + 1;
        }
        proof { assert(Self::trace(states, outs)); }
        (reset, a_new, b_new)
    }
}

} // verus!

verus! {

/// Total number of cells listed by the tiles of `h`.
pub open spec fn tile_total(h: Seq<Vec<Coord>>) -> int
    decreases h.len(),
{
    if h.len() == 0 {
        0
    } else {
        tile_total(h.drop_last()) + h.last()@.len()
    }
}

proof fn lemma_hist_count(h: Seq<Vec<Coord>>, rest: Set<Coord>)
    requires
        tiles_apart(h, rest),
        forall|i: int| 0 <= i < h.len() ==> (#[trigger] h[i])@.no_duplicates(),
    ensures
        hist_cells(h).finite(),
        hist_cells(h).len() == tile_total(h),
    decreases h.len(),
{
    if h.len() == 0 {
        assert(hist_cells(h) =~= Set::<Coord>::empty());
    } else {
        let d = h.drop_last();
        let v = h.last();
        assert(tiles_apart(d, rest)) by {
            assert forall|i: int, j: int, c: Coord| 0 <= i < d.len() && 0 <= j < d.len()
                && #[trigger] d[i]@.contains(c) && #[trigger] d[j]@.contains(c) implies i == j by {
                assert(d[i] == h[i] && d[j] == h[j]);
            }
            assert forall|i: int, c: Coord| 0 <= i < d.len() && #[trigger] d[i]@.contains(c) implies !rest.contains(c) by {
                assert(d[i] == h[i]);
            }
        }
        assert forall|i: int| 0 <= i < d.len() implies (#[trigger] d[i])@.no_duplicates() by {
            assert(d[i] == h[i]);
        }
        lemma_hist_count(d, rest);
        assert(h == d.push(v));
        lemma_hist_push(d, v);
        assert(hist_cells(d).disjoint(v@.to_set())) by {
            assert forall|c: Coord| hist_cells(d).contains(c) implies !v@.to_set().contains(c) by {
                let i = choose|i: int| 0 <= i < d.len() && (#[trigger] d[i])@.contains(c);
                assert(h[i]@.contains(c));
                if v@.contains(c) {
                    assert(h[h.len() - 1]@.contains(c));
                }
            }
        }
        assert(h[h.len() - 1] == v);
        v@.unique_seq_to_set();
        vstd::set_lib::lemma_set_disjoint_lens(hist_cells(d), v@.to_set());
    }
}

impl RecursiveTiling {
    /// The pool, both halves and the tiles split the cells the tiler
    /// accounts for: their sizes add up to that number, which `next` keeps.
    pub proof fn lemma_bisection_counts(&self)
        requires
            self.wf(),
        ensures
            self.covered().finite(),
            self.covered().len() == self.pool().len() + self.part_a().len() + self.part_b().len()
                + tile_total(self.tiles()),
    {
        self.open_set.lemma_wf();
        self.current_a_set.lemma_wf();
        self.current_b_set.lemma_wf();
        let rest = self.pool().union(self.part_a()).union(self.part_b());
        lemma_hist_count(self.tiles(), rest);
        vstd::set_lib::lemma_set_disjoint_lens(self.pool(), self.part_a());
        vstd::set_lib::lemma_set_disjoint_lens(self.pool().union(self.part_a()), self.part_b());
        assert(rest.disjoint(hist_cells(self.tiles()))) by {
            assert forall|c: Coord| rest.contains(c) implies !hist_cells(self.tiles()).contains(c) by {
                if hist_cells(self.tiles()).contains(c) {
                    let i = choose|i: int| 0 <= i < self.tiles().len() && (#[trigger] self.tiles()[i])@.contains(c);
                }
            }
        }
        vstd::set_lib::lemma_set_disjoint_lens(rest, hist_cells(self.tiles()));
    }
}

} // verus!
