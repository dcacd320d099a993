//! Linear cell indices: layer by layer, within a layer row by row along X,
//! within a row along Z.
use vstd::prelude::*;
use crate::{CHUNK_AREA, CHUNK_HIGHT, CHUNK_SIZE};
use crate::dir::Dir;

verus! {

/// The index of cell (x, y, z) in a chunk whose layers are `size` by `size`.
pub open spec fn spec_index(size: int, x: int, y: int, z: int) -> int {
    y * (size * size) + x * size + z
}

/// The cell (x, y, z) at an index, in a chunk whose layers are `size` by `size`.
pub open spec fn spec_coords(size: int, index: int) -> (int, int, int) {
    ((index / size) % size, index / (size * size), index % size)
}

/// Whether (x, y, z) lies in a chunk of `size` by `height` by `size` cells.
pub open spec fn in_bounds(size: int, height: int, x: int, y: int, z: int) -> bool {
    0 <= x < size && 0 <= y < height && 0 <= z < size
}

/// Indices of cells inside the chunk fill exactly `0 .. size * size * height`,
/// and reading the cell back from its index gives the same cell.
pub proof fn lemma_index_round_trip(size: int, height: int, x: int, y: int, z: int)
    requires
        in_bounds(size, height, x, y, z),
    ensures
        0 <= spec_index(size, x, y, z) < size * size * height,
        spec_coords(size, spec_index(size, x, y, z)) == (x, y, z),
{
    let i = spec_index(size, x, y, z);
    let a = size * size;
    assert(0 <= x * size + z < a) by (nonlinear_arith)
        requires 0 <= x < size, 0 <= z < size, a == size * size;
    assert(i == y * a + (x * size + z));
    assert(0 <= i < a * height) by (nonlinear_arith)
        requires i == y * a + (x * size + z), 0 <= x * size + z < a, 0 <= y < height;
    assert(a * height == size * size * height) by (nonlinear_arith) requires a == size * size;
    lemma_div_mod_split(i, a, y, x * size + z);
    assert(i == (y * size + x) * size + z) by (nonlinear_arith)
        requires i == y * (size * size) + x * size + z;
    assert(y * size + x >= 0) by (nonlinear_arith) requires y >= 0, x >= 0, size > 0;
    lemma_div_mod_split(i, size, y * size + x, z);
    lemma_div_mod_split(y * size + x, size, y, x);
}

/// Reading the cell from an index inside the chunk gives a cell inside the
/// chunk whose index is the one read.
pub proof fn lemma_coords_round_trip(size: int, height: int, i: int)
    requires
        size > 0,
        height >= 0,
        0 <= i < size * size * height,
    ensures
        in_bounds(size, height, spec_coords(size, i).0, spec_coords(size, i).1, spec_coords(size, i).2),
        spec_index(size, spec_coords(size, i).0, spec_coords(size, i).1, spec_coords(size, i).2) == i,
{
    let a = size * size;
    assert(a > 0) by (nonlinear_arith) requires size > 0, a == size * size;
    assert(a * height == size * size * height) by (nonlinear_arith) requires a == size * size;
    let q = i / size;
    let x = q % size;
    let y = i / a;
    let z = i % size;
    vstd::arithmetic::div_mod::lemma_fundamental_div_mod(i, size);
    vstd::arithmetic::div_mod::lemma_fundamental_div_mod(q, size);
    assert(i == size * q + z);
    assert(q == size * (q / size) + x);
    vstd::arithmetic::div_mod::lemma_div_denominator(i, size, size);
    assert(q / size == y);
    assert(i == y * a + x * size + z) by (nonlinear_arith)
        requires i == size * q + z, q == size * y + x, a == size * size;
    assert(y < height) by (nonlinear_arith)
        requires y == i / a, i < a * height, a > 0, i >= 0;
    assert(y >= 0) by (nonlinear_arith) requires y == i / a, a > 0, i >= 0;
}

/// Division with remainder is unique.
proof fn lemma_div_mod_split(i: int, d: int, q: int, r: int)
    requires
        d > 0,
        0 <= r < d,
        i == q * d + r,
    ensures
        i / d == q,
        i % d == r,
{
    vstd::arithmetic::div_mod::lemma_fundamental_div_mod_converse(i, d, q, r);
}

/// The index of cell (x, y, z) in a chunk of `size` by `height` by `size` cells.
pub fn index_of(size: usize, height: usize, x: usize, y: usize, z: usize) -> (r: usize)
    requires
        in_bounds(size as int, height as int, x as int, y as int, z as int),
        size * size * height <= usize::MAX,
    ensures
        r as int == spec_index(size as int, x as int, y as int, z as int),
        r < size * size * height,
{
    proof {
        lemma_index_round_trip(size as int, height as int, x as int, y as int, z as int);
        assert(y * (size * size) + x * size + z < size * size * height);
        assert(0 <= y * (size * size) <= y * (size * size) + x * size + z) by (nonlinear_arith)
            requires x >= 0, size >= 0, z >= 0, y >= 0;
        assert(0 <= x * size <= y * (size * size) + x * size + z) by (nonlinear_arith)
            requires x >= 0, size >= 0, z >= 0, y >= 0;
        assert(size * size <= size * size * height) by (nonlinear_arith)
            requires size >= 0, height >= 1;
    }
    y * (size * size) + x * size + z
}

/// The cell (x, y, z) at an index, in a chunk whose layers are `size` by `size`.
pub fn coords_of(size: usize, index: usize) -> (r: (usize, usize, usize))
    requires
        size > 0,
        size * size <= usize::MAX,
    ensures
        (r.0 as int, r.1 as int, r.2 as int) == spec_coords(size as int, index as int),
{
    proof {
        assert(size * size > 0) by (nonlinear_arith) requires size > 0;
    }
    let z = index % size;
    let x = index / size % size;
    let y = index / (size * size);
    (x, y, z)
}

/// The index of cell (x, y, z) in a chunk of the default dimensions.
pub fn get_index(x: usize, y: usize, z: usize) -> (r: usize)
    requires
        in_bounds(CHUNK_SIZE as int, CHUNK_HIGHT as int, x as int, y as int, z as int),
    ensures
        r as int == spec_index(CHUNK_SIZE as int, x as int, y as int, z as int),
        r < CHUNK_AREA * CHUNK_HIGHT,
{
    proof {
        lemma_index_round_trip(CHUNK_SIZE as int, CHUNK_HIGHT as int, x as int, y as int, z as int);
    }
    y * CHUNK_AREA + x * CHUNK_SIZE + z
}

/// The cell (x, y, z) at an index, in a chunk of the default dimensions.
pub fn from_index(index: usize) -> (r: (usize, usize, usize))
    ensures
        (r.0 as int, r.1 as int, r.2 as int) == spec_coords(CHUNK_SIZE as int, index as int),
{
    let z = index % CHUNK_SIZE;
    let x = index / CHUNK_SIZE % CHUNK_SIZE;
    let y = index / CHUNK_AREA;
    (x, y, z)
}

/// Within the default chunk, `from_index` undoes `get_index`.
pub proof fn lemma_get_index_from_index(x: int, y: int, z: int)
    requires
        in_bounds(CHUNK_SIZE as int, CHUNK_HIGHT as int, x, y, z),
    ensures
        spec_coords(CHUNK_SIZE as int, spec_index(CHUNK_SIZE as int, x, y, z)) == (x, y, z),
{
    lemma_index_round_trip(CHUNK_SIZE as int, CHUNK_HIGHT as int, x, y, z);
}

/// The cell next to cell `p` in direction `d`, in a chunk of `size` by
/// `height` by `size` cells; `None` at the chunk's border.
pub open spec fn spec_neighbor(size: int, height: int, p: int, d: Dir) -> Option<int> {
    let c = spec_coords(size, p);
    let v = d.spec_vec3();
    if in_bounds(size, height, c.0 + v.0, c.1 + v.1, c.2 + v.2) {
        Some(spec_index(size, c.0 + v.0, c.1 + v.1, c.2 + v.2))
    } else {
        None
    }
}

/// Neighbourhood is symmetric: the cell next to `p` in direction `d` is
/// another cell of the chunk, and `p` is next to it in the opposite direction.
pub proof fn lemma_neighbor_symmetric(size: int, height: int, p: int, d: Dir)
    requires
        size > 0,
        height >= 0,
        0 <= p < size * size * height,
        spec_neighbor(size, height, p, d) is Some,
    ensures
        ({
            let q = spec_neighbor(size, height, p, d)->0;
            &&& 0 <= q < size * size * height
            &&& q != p
            &&& spec_neighbor(size, height, q, d.spec_opposite()) == Some(p)
        }),
{
    lemma_coords_round_trip(size, height, p);
    let c = spec_coords(size, p);
    let v = d.spec_vec3();
    lemma_index_round_trip(size, height, c.0 + v.0, c.1 + v.1, c.2 + v.2);
}

} // verus!
