//! Grid coordinates, flat cell indexing and the 8-neighbourhood.
use vstd::prelude::*;

verus! {

/// A grid coordinate `(x, y)`.
pub type Coord = (i32, i32);

/// Largest supported side length: `size * size` cells stay below `2^31`.
pub const MAX_SIZE: usize = 46340;

/// `c` lies on a `size` by `size` grid.
pub open spec fn in_grid(size: int, c: Coord) -> bool {
    0 <= c.0 < size && 0 <= c.1 < size
}

/// Row-major position of `c` in a flat array of `size * size` cells.
pub open spec fn cell_index(size: int, c: Coord) -> int {
    c.1 * size + c.0
}

/// The coordinate stored at flat position `k`.
pub open spec fn cell_at(size: int, k: int) -> Coord {
    ((k % size) as i32, (k / size) as i32)
}

pub proof fn lemma_cell_index_bounds(size: int, c: Coord)
    requires
        0 < size <= MAX_SIZE,
        in_grid(size, c),
    ensures
        0 <= cell_index(size, c) < size * size,
        size * size <= MAX_SIZE * MAX_SIZE,
        cell_at(size, cell_index(size, c)) == c,
{
    let x = c.0 as int;
    let y = c.1 as int;
    assert(0 <= y * size + x < size * size) by (nonlinear_arith)
        requires 0 <= x < size, 0 <= y < size;
    assert(size * size <= MAX_SIZE * MAX_SIZE) by (nonlinear_arith)
        requires 0 < size <= MAX_SIZE;
    vstd::arithmetic::div_mod::lemma_fundamental_div_mod_converse(y * size + x, size, y, x);
}

pub proof fn lemma_cell_index_injective(size: int, a: Coord, b: Coord)
    requires
        0 < size <= MAX_SIZE,
        in_grid(size, a),
        in_grid(size, b),
        cell_index(size, a) == cell_index(size, b),
    ensures
        a == b,
{
    lemma_cell_index_bounds(size, a);
    lemma_cell_index_bounds(size, b);
}

/// The eight offsets of the neighbourhood, in the fixed examination order.
pub open spec fn surrounding_spec(c: Coord) -> Seq<(int, int)> {
    let x = c.0 as int;
    let y = c.1 as int;
    seq![
        (x - 1, y - 1), (x, y - 1), (x + 1, y - 1),
        (x - 1, y), (x + 1, y),
        (x - 1, y + 1), (x, y + 1), (x + 1, y + 1),
    ]
}

/// `a` and `b` are distinct and touch, diagonals included.
pub open spec fn adjacent8(a: Coord, b: Coord) -> bool {
    a != b && -1 <= a.0 - b.0 <= 1 && -1 <= a.1 - b.1 <= 1
}

/// `a` and `b` differ by one step along one axis.
pub open spec fn adjacent4(a: Coord, b: Coord) -> bool {
    (a.0 == b.0 && (a.1 - b.1 == 1 || b.1 - a.1 == 1))
        || (a.1 == b.1 && (a.0 - b.0 == 1 || b.0 - a.0 == 1))
}

/// Coordinates whose neighbours can be formed without overflow.
pub open spec fn interior_i32(c: Coord) -> bool {
    i32::MIN < c.0 < i32::MAX && i32::MIN < c.1 < i32::MAX
}

/// The eight neighbours of `c`, in the order of `surrounding_spec`.
pub fn get_surrounding(c: Coord) -> (r: [Coord; 8])
    requires
        interior_i32(c),
    ensures
        forall|k: int| 0 <= k < 8 ==> (#[trigger] r@[k]).0 == surrounding_spec(c)[k].0
            && r@[k].1 == surrounding_spec(c)[k].1,
        forall|k: int| 0 <= k < 8 ==> adjacent8(#[trigger] r@[k], c),
{
    let (x, y) = c;
    [
        (x - 1, y - 1), (x, y - 1), (x + 1, y - 1),
        (x - 1, y), (x + 1, y),
        (x - 1, y + 1), (x, y + 1), (x + 1, y + 1),
    ]
}

/// The `k`-th neighbour of `f`, in the fixed examination order.
pub open spec fn nbr(f: Coord, k: int) -> Coord {
    (surrounding_spec(f)[k].0 as i32, surrounding_spec(f)[k].1 as i32)
}

pub proof fn lemma_nbr_distinct(f: Coord, k: int, m: int)
    requires
        interior_i32(f),
        0 <= k < 8,
        0 <= m < 8,
        k != m,
    ensures
        nbr(f, k) != nbr(f, m),
{
    let s = surrounding_spec(f);
    assert(s[0] == (f.0 - 1, f.1 - 1) && s[1] == (f.0 as int, f.1 - 1) && s[2] == (f.0 + 1, f.1 - 1));
    assert(s[3] == (f.0 - 1, f.1 as int) && s[4] == (f.0 + 1, f.1 as int));
    assert(s[5] == (f.0 - 1, f.1 + 1) && s[6] == (f.0 as int, f.1 + 1) && s[7] == (f.0 + 1, f.1 + 1));
}

/// Squared Euclidean distance between two coordinates.
pub open spec fn dist2(a: Coord, b: Coord) -> int {
    (a.0 - b.0) * (a.0 - b.0) + (a.1 - b.1) * (a.1 - b.1)
}

} // verus!
