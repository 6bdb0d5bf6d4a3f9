//! A set of grid cells with constant-time membership, insertion, removal and
//! indexed access, backed by a flat slot array and a dense item list.
use vstd::prelude::*;
use crate::grid::{cell_index, in_grid, lemma_cell_index_bounds, lemma_cell_index_injective, Coord, MAX_SIZE};

verus! {

/// Cells of a `size` by `size` grid. `items` lists the members without
/// repetition; `slots` maps each cell's flat index to its position in
/// `items` plus one, or to zero for a non-member.
///
/// This takes the place of a hash set of coordinates: its storage order is
/// a function of the operations applied, never of a hasher's seed, so a
/// random pick by position is reproducible for a given generator seed; and
/// every operation has a contract over the set it holds.
pub struct CellSet {
    size: usize,
    slots: Vec<usize>,
    items: Vec<Coord>,
}

impl View for CellSet {
    type V = Set<Coord>;

    closed spec fn view(&self) -> Set<Coord> {
        self.items@.to_set()
    }
}

impl CellSet {
    /// Side length of the grid that the set lives on.
    pub closed spec fn grid_size(&self) -> nat {
        self.size as nat
    }

    /// The members in their current storage order.
    pub closed spec fn order(&self) -> Seq<Coord> {
        self.items@
    }

    pub closed spec fn wf(&self) -> bool {
        &&& 0 < self.size <= MAX_SIZE
        &&& self.slots@.len() == self.size * self.size
        &&& forall|i: int| 0 <= i < self.items@.len() ==> {
            &&& in_grid(self.size as int, #[trigger] self.items@[i])
            &&& self.slots@[cell_index(self.size as int, self.items@[i])] == i + 1
        }
        &&& forall|k: int| 0 <= k < self.slots@.len() ==> {
            &&& #[trigger] self.slots@[k] <= self.items@.len()
            &&& self.slots@[k] != 0 ==> cell_index(self.size as int, self.items@[self.slots@[k] - 1]) == k
        }
    }

    /// Facts that follow from well-formedness.
    pub proof fn lemma_wf(&self)
        requires
            self.wf(),
        ensures
            self.order().no_duplicates(),
            self.order().to_set() == self@,
            self@.finite(),
            self@.len() == self.order().len(),
            forall|c: Coord| #[trigger] self@.contains(c) ==> in_grid(self.grid_size() as int, c),
            0 < self.grid_size() <= MAX_SIZE,
    {
        let ghost s = self.size as int;
        assert forall|i: int, j: int| 0 <= i < self.items@.len() && 0 <= j < self.items@.len()
            && i != j implies self.items@[i] != self.items@[j] by {
            if self.items@[i] == self.items@[j] {
                assert(self.slots@[cell_index(s, self.items@[i])] == i + 1);
            }
        }
        self.items@.unique_seq_to_set();
        assert forall|c: Coord| #[trigger] self@.contains(c) implies in_grid(s, c) by {
            let i = choose|i: int| 0 <= i < self.items@.len() && self.items@[i] == c;
            assert(in_grid(s, self.items@[i]));
        }
    }

    /// An empty set on a `size` by `size` grid.
    pub fn new(size: usize) -> (r: CellSet)
        requires
            0 < size <= MAX_SIZE,
        ensures
            r.wf(),
            r@ == Set::<Coord>::empty(),
            r.grid_size() == size,
    {
        proof {
            assert(size * size <= MAX_SIZE * MAX_SIZE) by (nonlinear_arith)
                requires 0 < size <= MAX_SIZE;
        }
        let n: usize = size * size;
        let slots = vec![0usize; n];
        let r = CellSet { size, slots, items: Vec::new() };
        proof {
            assert(r@ =~= Set::<Coord>::empty());
        }
        r
    }

    pub fn size(&self) -> (r: usize)
        requires
            self.wf(),
        ensures
            r == self.grid_size(),
    {
        self.size
    }

    pub fn len(&self) -> (r: usize)
        requires
            self.wf(),
        ensures
            r == self@.len(),
    {
        proof { self.lemma_wf(); }
        self.items.len()
    }

    pub fn is_empty(&self) -> (r: bool)
        requires
            self.wf(),
        ensures
            r == (self@.len() == 0),
    {
        proof { self.lemma_wf(); }
        self.items.len() == 0
    }

    /// Member at storage position `i`.
    pub fn get(&self, i: usize) -> (r: Coord)
        requires
            self.wf(),
            i < self@.len(),
        ensures
            r == self.order()[i as int],
            self@.contains(r),
    {
        proof { self.lemma_wf(); }
        self.items[i]
    }

    pub fn contains(&self, c: Coord) -> (r: bool)
        requires
            self.wf(),
        ensures
            r == self@.contains(c),
    {
        proof { self.lemma_wf(); }
        if c.0 < 0 || c.1 < 0 || c.0 as usize >= self.size || c.1 as usize >= self.size {
            return false;
        }
        let ghost s = self.size as int;
        proof { lemma_cell_index_bounds(s, c); }
        let k: usize = c.1 as usize * self.size + c.0 as usize;
        let p = self.slots[k];
        proof {
            if p != 0 {
                lemma_cell_index_bounds(s, self.items@[p - 1]);
                lemma_cell_index_injective(s, self.items@[p - 1], c);
                assert(self.items@.contains(c));
            } else if self.items@.contains(c) {
                let i = choose|i: int| 0 <= i < self.items@.len() && self.items@[i] == c;
                assert(self.slots@[cell_index(s, self.items@[i])] == i + 1);
            }
        }
        p != 0
    }

    /// Adds `c`; returns whether it was absent before.
    pub fn insert(&mut self, c: Coord) -> (r: bool)
        requires
            old(self).wf(),
            in_grid(old(self).grid_size() as int, c),
        ensures
            final(self).wf(),
            final(self)@ == old(self)@.insert(c),
            final(self).grid_size() == old(self).grid_size(),
            r == !old(self)@.contains(c),
            r ==> final(self).order() == old(self).order().push(c),
            !r ==> final(self).order() == old(self).order(),
    {
        if self.contains(c) {
            proof { assert(self@.insert(c) =~= self@); }
            return false;
        }
        let ghost s = self.size as int;
        proof {
            self.lemma_wf();
            lemma_cell_index_bounds(s, c);
            assert(self.items@.len() < s * s) by {
                // the members are distinct cells of the grid
                let q = self.slots@[cell_index(s, c)];
                if q != 0 {
                    lemma_cell_index_bounds(s, self.items@[q - 1]);
                    lemma_cell_index_injective(s, self.items@[q - 1], c);
                    assert(self.items@.contains(c));
                }
                assert(self.slots@[cell_index(s, c)] == 0);
                lemma_count_le(self.slots@, self.items@, s);
            }
        }
        let k: usize = c.1 as usize * self.size + c.0 as usize;
        let ghost old_items = self.items@;
        let ghost old_slots = self.slots@;
        self.items.push(c);
        let n = self.items.len();
        self.slots.set(k, n);
        proof {
            assert forall|i: int| 0 <= i < self.items@.len() implies {
                &&& in_grid(s, #[trigger] self.items@[i])
                &&& self.slots@[cell_index(s, self.items@[i])] == i + 1
            } by {
                if i < old_items.len() {
                    lemma_cell_index_bounds(s, old_items[i]);
                    if cell_index(s, old_items[i]) == k {
                        lemma_cell_index_injective(s, old_items[i], c);
                        assert(old_items.contains(c));
                    }
                }
            }
            assert(self.items@ =~= old_items.push(c));
            old_items.lemma_push_to_set_commute(c);
            assert(self@ =~= old_items.to_set().insert(c));
        }
        true
    }

    /// Removes `c`; returns whether it was present before.
    pub fn remove(&mut self, c: Coord) -> (r: bool)
        requires
            old(self).wf(),
        ensures
            final(self).wf(),
            final(self)@ == old(self)@.remove(c),
            final(self).grid_size() == old(self).grid_size(),
            r == old(self)@.contains(c),
            !r ==> final(self).order() == old(self).order(),
            r ==> exists|p: int| 0 <= p < old(self).order().len() && old(self).order()[p] == c
                && final(self).order() == old(self).order().update(p, old(self).order().last()).drop_last(),
    {
        if !self.contains(c) {
            proof { assert(self@.remove(c) =~= self@); }
            return false;
        }
        let ghost s = self.size as int;
        proof {
            self.lemma_wf();
            lemma_cell_index_bounds(s, c);
        }
        let k: usize = c.1 as usize * self.size + c.0 as usize;
        let p: usize = self.slots[k] - 1;
        let last: usize = self.items.len() - 1;
        let ghost old_items = self.items@;
        proof {
            lemma_cell_index_bounds(s, old_items[p as int]);
            lemma_cell_index_injective(s, old_items[p as int], c);
        }
        let moved = self.items[last];
        proof { lemma_cell_index_bounds(s, moved); }
        let km: usize = moved.1 as usize * self.size + moved.0 as usize;
        self.items.swap_remove(p);
        self.slots.set(km, p + 1);
        self.slots.set(k, 0);
        proof {
            let new_items = self.items@;
            assert(new_items.len() == last);
            assert forall|i: int| 0 <= i < new_items.len() implies {
                &&& in_grid(s, #[trigger] new_items[i])
                &&& self.slots@[cell_index(s, new_items[i])] == i + 1
            } by {
                lemma_cell_index_bounds(s, new_items[i]);
                if i == p {
                    assert(new_items[i] == moved);
                    assert(moved != c);
                    if km == k {
                        lemma_cell_index_injective(s, moved, c);
                    }
                } else {
                    assert(new_items[i] == old_items[i]);
                    assert(old_items[i] != c);
                    assert(old_items[i] != moved);
                    if cell_index(s, old_items[i]) == k {
                        lemma_cell_index_injective(s, old_items[i], c);
                    }
                    if cell_index(s, old_items[i]) == km {
                        lemma_cell_index_bounds(s, old_items[i]);
                        lemma_cell_index_injective(s, old_items[i], moved);
                    }
                }
            }
            assert forall|kk: int| 0 <= kk < self.slots@.len() implies {
                &&& #[trigger] self.slots@[kk] <= new_items.len()
                &&& self.slots@[kk] != 0 ==> cell_index(s, new_items[self.slots@[kk] - 1]) == kk
            } by {
                if kk != k && kk != km {
                    let q = self.slots@[kk];
                    if q != 0 {
                        assert(cell_index(s, old_items[q - 1]) == kk);
                        assert(q - 1 != last);
                        assert(q - 1 != p);
                        assert(new_items[q - 1] == old_items[q - 1]);
                    }
                }
            }
            assert forall|x: Coord| #[trigger] self@.contains(x) == old_items.to_set().remove(c).contains(x) by {
                if old_items.to_set().remove(c).contains(x) {
                    let i = choose|i: int| 0 <= i < old_items.len() && old_items[i] == x;
                    if i == last {
                        assert(new_items[p as int] == x);
                    } else {
                        assert(new_items[i] == x);
                    }
                }
                if self@.contains(x) {
                    let i = choose|i: int| 0 <= i < new_items.len() && new_items[i] == x;
                    if i == p {
                        assert(old_items[last as int] == x);
                    } else {
                        assert(old_items[i] == x);
                    }
                }
            }
            assert(self@ =~= old_items.to_set().remove(c));
            assert(old_items[p as int] == c);
            assert(self.items@ =~= old_items.update(p as int, old_items.last()).drop_last());
        }
        true
    }

    /// Removes every member.
    pub fn clear(&mut self)
        requires
            old(self).wf(),
        ensures
            final(self).wf(),
            final(self)@ == Set::<Coord>::empty(),
            final(self).grid_size() == old(self).grid_size(),
    {
        proof { self.lemma_wf(); }
        while self.items.len() > 0
            invariant
                self.wf(),
                self.grid_size() == old(self).grid_size(),
            decreases self.items@.len(),
        {
            proof { self.lemma_wf(); }
            let c = self.items[self.items.len() - 1];
            proof { assert(self@.contains(c)); }
            self.remove(c);
            proof { self.lemma_wf(); }
        }
        proof {
            self.lemma_wf();
            assert(self@ =~= Set::<Coord>::empty());
        }
    }

    /// A set on a `size` by `size` grid holding the cells of `cells`.
    pub fn from_cells(size: usize, cells: &Vec<Coord>) -> (r: CellSet)
        requires
            0 < size <= MAX_SIZE,
            forall|i: int| 0 <= i < cells@.len() ==> in_grid(size as int, #[trigger] cells@[i]),
        ensures
            r.wf(),
            r.grid_size() == size,
            r@ == cells@.to_set(),
    {
        let mut r = CellSet::new(size);
        let mut i: usize = 0;
        while i < cells.len()
            invariant
                i <= cells@.len(),
                0 < size <= MAX_SIZE,
                forall|j: int| 0 <= j < cells@.len() ==> in_grid(size as int, #[trigger] cells@[j]),
                r.wf(),
                r.grid_size() == size,
                r@ == cells@.take(i as int).to_set(),
            decreases cells@.len() - i,
        {
            r.insert(cells[i]);
            proof {
                cells@.take(i as int).lemma_push_to_set_commute(cells@[i as int]);
                assert(cells@.take(i as int + 1) =~= cells@.take(i as int).push(cells@[i as int]));
            }
            i = i + 1;
        }
        proof { assert(cells@.take(i as int) =~= cells@); }
        r
    }

    /// The members, each once, in storage order.
    pub fn to_vec(&self) -> (r: Vec<Coord>)
        requires
            self.wf(),
        ensures
            r@ == self.order(),
            r@.to_set() == self@,
            r@.no_duplicates(),
    {
        proof { self.lemma_wf(); }
        let mut r: Vec<Coord> = Vec::new();
        let mut i: usize = 0;
        while i < self.items.len()
            invariant
                i <= self.items@.len(),
                r@ == self.items@.subrange(0, i as int),
            decreases self.items@.len() - i,
        {
            r.push(self.items[i]);
            i = i + 1;
            proof { assert(r@ =~= self.items@.subrange(0, i as int)); }
        }
        proof { assert(r@ =~= self.items@); }
        r
    }
}

/// A list of distinct flat indices into `slots`, each mapped to a nonzero
/// slot, is shorter than `slots` when some slot is zero.
pub(crate) proof fn lemma_count_le(slots: Seq<usize>, items: Seq<Coord>, s: int)
    requires
        0 < s <= MAX_SIZE,
        slots.len() == s * s,
        forall|i: int| 0 <= i < items.len() ==> in_grid(s, #[trigger] items[i]),
        forall|i: int| 0 <= i < items.len() ==> #[trigger] slots[cell_index(s, items[i])] == i + 1,
        exists|k: int| 0 <= k < slots.len() && slots[k] == 0,
    ensures
        items.len() < s * s,
{
    let idx = items.map(|i: int, c: Coord| cell_index(s, c));
    assert forall|i: int, j: int| 0 <= i < idx.len() && 0 <= j < idx.len() && i != j
        implies idx[i] != idx[j] by {
        assert(slots[cell_index(s, items[i])] == i + 1);
        assert(slots[cell_index(s, items[j])] == j + 1);
    }
    let k0 = choose|k: int| 0 <= k < slots.len() && slots[k] == 0;
    let range = Set::new(|k: int| 0 <= k < s * s && k != k0);
    assert forall|k: int| #[trigger] idx.to_set().contains(k) implies range.contains(k) by {
        let i = choose|i: int| 0 <= i < idx.len() && idx[i] == k;
        lemma_cell_index_bounds(s, items[i]);
        assert(slots[cell_index(s, items[i])] == i + 1);
    }
    idx.unique_seq_to_set();
    assert(range =~= vstd::set_lib::set_int_range(0, s * s).remove(k0));
    vstd::set_lib::lemma_int_range(0, s * s);
    vstd::set_lib::lemma_len_subset(idx.to_set(), range);
}

} // verus!
