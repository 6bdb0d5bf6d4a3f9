//! The queue of cells that height sampling walks: every cell of the grid,
//! in row-major order, handed out in batches.
use vstd::prelude::*;
use crate::grid::{Coord, MAX_SIZE};

verus! {

/// Every cell of a `size` by `size` grid, row by row.
pub open spec fn row_major(size: int) -> Seq<Coord> {
    Seq::new((size * size) as nat, |k: int| ((k % size) as i32, (k / size) as i32))
}

/// Streams the cells of the grid in row-major order, each exactly once.
pub struct RandomMapGen {
    square_size: usize,
    seed: u64,
    remaining: Vec<Coord>,
    fill_speed: usize,
}

impl RandomMapGen {
    /// Cells not handed out yet, in the order they will come.
    pub closed spec fn queue(&self) -> Seq<Coord> {
        self.remaining@
    }

    pub closed spec fn spec_square_size(&self) -> nat {
        self.square_size as nat
    }

    pub closed spec fn spec_fill_speed(&self) -> nat {
        self.fill_speed as nat
    }

    pub closed spec fn spec_seed(&self) -> u64 {
        self.seed
    }

    /// A sampler over a `square_size` by `square_size` grid that hands out
    /// `fill_speed` cells per batch; `seed` seeds the height noise.
    pub fn new(square_size: usize, fill_speed: usize, seed: u64) -> (r: RandomMapGen)
        requires
            0 < square_size <= MAX_SIZE,
        ensures
            r.queue() == row_major(square_size as int),
            r.spec_square_size() == square_size,
            r.spec_fill_speed() == fill_speed,
            r.spec_seed() == seed,
    {
        let ghost s = square_size as int;
        let mut remaining: Vec<Coord> = Vec::new();
        let mut y: usize = 0;
        while y < square_size
            invariant
                y <= square_size <= MAX_SIZE,
                s == square_size,
                remaining@ == row_major(s).take(y * s),
            decreases square_size - y,
        {
            let mut x: usize = 0;
            while x < square_size
                invariant
                    x <= square_size <= MAX_SIZE,
                    y < square_size,
                    s == square_size,
                    remaining@ == row_major(s).take(y * s + x),
                decreases square_size - x,
            {
                proof {
                    assert(y * s + x < s * s) by (nonlinear_arith)
                        requires x < s, y < s;
                    vstd::arithmetic::div_mod::lemma_fundamental_div_mod_converse(y * s + x, s, y as int, x as int);
                    assert(row_major(s).take(y * s + x + 1) =~= row_major(s).take(y * s + x).push(
                        (x as i32, y as i32)));
                }
                remaining.push((x as i32, y as i32));
                x = x + 1;
            }
            proof {
                assert(y * s + s == (y + 1) * s) by (nonlinear_arith);
            }
            y = y + 1;
        }
        proof {
            assert(row_major(s).take(s * s) =~= row_major(s));
        }
        RandomMapGen { square_size, seed, remaining, fill_speed }
    }

    pub fn square_size(&self) -> (r: usize)
        ensures
            r == self.spec_square_size(),
    {
        self.square_size
    }

    pub fn seed(&self) -> (r: u64)
        ensures
            r == self.spec_seed(),
    {
        self.seed
    }

    pub fn remaining_len(&self) -> (r: usize)
        ensures
            r == self.queue().len(),
    {
        self.remaining.len()
    }

    /// Removes and returns the next `n` queued cells, or all that are left
    /// when fewer remain; empty once the queue is exhausted.
    pub fn get_next_n(&mut self, n: usize) -> (r: Vec<Coord>)
        ensures
            r@ == old(self).queue().take(vstd::math::min(n as int, old(self).queue().len() as int)),
            final(self).queue() == old(self).queue().skip(vstd::math::min(n as int, old(self).queue().len() as int)),
            final(self).spec_square_size() == old(self).spec_square_size(),
            final(self).spec_fill_speed() == old(self).spec_fill_speed(),
            final(self).spec_seed() == old(self).spec_seed(),
    {
        let n = if n > self.remaining.len() { self.remaining.len() } else { n };
        let mut head = self.remaining.split_off(n);
        std::mem::swap(&mut head, &mut self.remaining);
        proof {
            assert(head@ =~= old(self).queue().take(n as int));
            assert(self.remaining@ =~= old(self).queue().skip(n as int));
        }
        head
    }

    /// The next batch of `fill_speed` cells.
    pub fn get_next(&mut self) -> (r: Vec<Coord>)
        ensures
            r@ == old(self).queue().take(vstd::math::min(old(self).spec_fill_speed() as int, old(self).queue().len() as int)),
            final(self).queue() == old(self).queue().skip(vstd::math::min(old(self).spec_fill_speed() as int, old(self).queue().len() as int)),
            final(self).spec_square_size() == old(self).spec_square_size(),
            final(self).spec_fill_speed() == old(self).spec_fill_speed(),
            final(self).spec_seed() == old(self).spec_seed(),
    {
        self.get_next_n(self.fill_speed)
    }

    /// Every cell still queued.
    pub fn finish(&mut self) -> (r: Vec<Coord>)
        ensures
            r@ == old(self).queue(),
            final(self).queue().len() == 0,
            final(self).spec_square_size() == old(self).spec_square_size(),
            final(self).spec_fill_speed() == old(self).spec_fill_speed(),
            final(self).spec_seed() == old(self).spec_seed(),
    {
        let n = self.remaining.len();
        let r = self.get_next_n(n);
        proof {
            assert(old(self).queue().take(n as int) =~= old(self).queue());
        }
        r
    }
}

proof fn lemma_row_major_at(size: int, k: int)
    requires
        0 < size <= MAX_SIZE,
        0 <= k < size * size,
    ensures
        0 <= k % size < size,
        0 <= k / size < size,
        k == size * (k / size) + k % size,
        row_major(size)[k].0 == k % size,
        row_major(size)[k].1 == k / size,
{
    vstd::arithmetic::div_mod::lemma_fundamental_div_mod(k, size);
    vstd::arithmetic::div_mod::lemma_mod_bound(k, size);
    vstd::arithmetic::div_mod::lemma_div_pos_is_pos(k, size);
    vstd::arithmetic::div_mod::lemma_div_is_ordered(k, size * size - 1, size);
    assert((size * size - 1) / size < size) by {
        vstd::arithmetic::div_mod::lemma_div_by_multiple_is_strongly_ordered(size * size - 1, size * size, size, size);
        vstd::arithmetic::div_mod::lemma_div_multiples_vanish(size, size);
    }
    assert(k * 1 == k);
}

/// Draining the whole queue hands out every cell of the grid exactly once,
/// in row-major order, and the order depends on the size alone.
pub proof fn lemma_drain_covers_grid(size: int, c: Coord)
    requires
        0 <= size <= MAX_SIZE,
    ensures
        row_major(size).contains(c) <==> (0 <= c.0 < size && 0 <= c.1 < size),
        row_major(size).no_duplicates(),
        row_major(size).len() == size * size,
{
    if size == 0 {
        assert(size * size == 0);
        return;
    }
    if 0 <= c.0 < size && 0 <= c.1 < size {
        let k = c.1 * size + c.0;
        assert(0 <= k < size * size) by (nonlinear_arith)
            requires 0 <= c.0 < size, 0 <= c.1 < size, k == c.1 * size + c.0;
        vstd::arithmetic::div_mod::lemma_fundamental_div_mod_converse(k, size, c.1 as int, c.0 as int);
        lemma_row_major_at(size, k);
        assert(row_major(size)[k] == c);
    }
    if row_major(size).contains(c) {
        let k = choose|k: int| 0 <= k < row_major(size).len() && row_major(size)[k] == c;
        lemma_row_major_at(size, k);
    }
    assert forall|i: int, j: int| 0 <= i < row_major(size).len() && 0 <= j < row_major(size).len() && i != j
        implies row_major(size)[i] != row_major(size)[j] by {
        lemma_row_major_at(size, i);
        lemma_row_major_at(size, j);
    }
}

} // verus!
