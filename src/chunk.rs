//! Chunks of placed tiles, and the wave function collapse that fills them.
use vstd::prelude::*;
use crate::tile::TileID;
use crate::util::{in_bounds, index_of, spec_coords, spec_index};
use crate::{CHUNK_HIGHT, CHUNK_SIZE, CHUNK_VOLUME};

verus! {

/// The grid position of a chunk, in chunks along X and Z.
#[derive(Default, Hash, Eq, PartialEq, Debug, Clone, Copy, Structural)]
pub struct ChunkId {
    x: i32,
    z: i32,
}

impl View for ChunkId {
    type V = (int, int);

    closed spec fn view(&self) -> (int, int) {
        (self.x as int, self.z as int)
    }
}

impl ChunkId {
    pub fn new(x: i32, z: i32) -> (r: ChunkId)
        ensures
            r@ == (x as int, z as int),
    {
        ChunkId { x, z }
    }

    pub fn x(&self) -> (r: i32)
        ensures
            r as int == self@.0,
    {
        self.x
    }

    pub fn z(&self) -> (r: i32)
        ensures
            r as int == self@.1,
    {
        self.z
    }

    /// The chunk that holds the cell at world cell coordinates (x, z).
    pub fn from_position(x: i32, z: i32) -> (r: ChunkId)
        ensures
            r@ == (x as int / CHUNK_SIZE as int, z as int / CHUNK_SIZE as int),
    {
        ChunkId::new(floor_div_chunk(x), floor_div_chunk(z))
    }

    pub fn x_offset(self, offset: i32) -> (r: ChunkId)
        requires
            i32::MIN <= self@.0 + offset <= i32::MAX,
        ensures
            r@ == (self@.0 + offset, self@.1),
    {
        ChunkId { x: self.x + offset, z: self.z }
    }

    pub fn z_offset(self, offset: i32) -> (r: ChunkId)
        requires
            i32::MIN <= self@.1 + offset <= i32::MAX,
        ensures
            r@ == (self@.0, self@.1 + offset),
    {
        ChunkId { x: self.x, z: self.z + offset }
    }
}

/// `v` divided by the chunk size, rounded down.
fn floor_div_chunk(v: i32) -> (r: i32)
    ensures
        r as int == v as int / CHUNK_SIZE as int,
{
    let size: i32 = CHUNK_SIZE as i32;
    if v >= 0 {
        v / size
    } else {
        let w: i32 = -(v + 1);
        let q: i32 = w / size;
        proof {
            let vi = v as int;
            let wi = w as int;
            let qi = q as int;
            vstd::arithmetic::div_mod::lemma_fundamental_div_mod(wi, 32);
            vstd::arithmetic::div_mod::lemma_fundamental_div_mod_converse(vi, 32, -qi - 1, 31 - wi % 32);
        }
        -q - 1
    }
}

/// The contents of a chunk: its position, its dimensions, and for each cell
/// (by linear index) the tile variant placed there, if any.
pub struct ChunkView {
    pub id: (int, int),
    pub size: int,
    pub height: int,
    pub tiles: Seq<Option<TileID>>,
}

impl ChunkView {
    /// The cell count matches the dimensions, and indices fit in memory.
    pub open spec fn wf(&self) -> bool {
        &&& self.size >= 0
        &&& self.height >= 0
        &&& self.tiles.len() == self.size * self.size * self.height
        &&& self.size * self.size <= usize::MAX
        &&& self.size * self.size * self.height <= usize::MAX
    }

    /// The layer of the cell at linear index `i`.
    pub open spec fn layer(&self, i: int) -> int {
        spec_coords(self.size, i).1
    }
}

/// A cell position outside the chunk.
#[derive(Debug, Clone, Copy, PartialEq, Eq, Structural)]
pub struct OutOfRange;

/// A generated chunk of tiles; it does not change once built.
pub struct Chunk {
    id: ChunkId,
    size: usize,
    height: usize,
    tiles: Vec<Option<TileID>>,
}

impl View for Chunk {
    type V = ChunkView;

    closed spec fn view(&self) -> ChunkView {
        ChunkView {
            id: self.id@,
            size: self.size as int,
            height: self.height as int,
            tiles: self.tiles@,
        }
    }
}

impl Chunk {
    /// A chunk of the default dimensions whose bottom layer holds `ground`
    /// in every cell and whose other cells are empty.
    pub fn new(id: ChunkId, ground: Option<TileID>) -> (r: Chunk)
        ensures
            r@.wf(),
            r@.id == id@,
            r@.size == CHUNK_SIZE,
            r@.height == CHUNK_HIGHT,
            forall|i: int|
                0 <= i < r@.tiles.len() ==> #[trigger] r@.tiles[i] == if r@.layer(i) == 0 {
                    ground
                } else {
                    None
                },
    {
        let mut tiles: Vec<Option<TileID>> = Vec::new();
        let mut i: usize = 0;
        while i < CHUNK_VOLUME
            invariant
                0 <= i <= CHUNK_VOLUME,
                tiles@.len() == i,
                forall|j: int|
                    0 <= j < i ==> #[trigger] tiles@[j] == if spec_coords(CHUNK_SIZE as int, j).1 == 0 {
                        ground
                    } else {
                        None
                    },
            decreases CHUNK_VOLUME - i,
        {
            if i < CHUNK_SIZE * CHUNK_SIZE {
                tiles.push(ground);
            } else {
                tiles.push(None);
            }
            i += 1;
        }
        Chunk { id, size: CHUNK_SIZE, height: CHUNK_HIGHT, tiles }
    }

    pub fn id(&self) -> (r: ChunkId)
        ensures
            r@ == self@.id,
    {
        self.id
    }

    /// The tile variant at cell (x, y, z), if any.
    pub fn get_tile(&self, x: usize, y: usize, z: usize) -> (r: Option<TileID>)
        requires
            self@.wf(),
            in_bounds(self@.size, self@.height, x as int, y as int, z as int),
        ensures
            r == self@.tiles[spec_index(self@.size, x as int, y as int, z as int)],
    {
        let i = index_of(self.size, self.height, x, y, z);
        self.tiles[i]
    }

    /// The tile variant at cell (x, y, z), if any; an error when the cell
    /// lies outside the chunk.
    pub fn tile_at(&self, x: usize, y: usize, z: usize) -> (r: Result<Option<TileID>, OutOfRange>)
        requires
            self@.wf(),
        ensures
            in_bounds(self@.size, self@.height, x as int, y as int, z as int) ==> r == Ok::<Option<TileID>, OutOfRange>(
                self@.tiles[spec_index(self@.size, x as int, y as int, z as int)],
            ),
            !in_bounds(self@.size, self@.height, x as int, y as int, z as int) ==> r == Err::<Option<TileID>, OutOfRange>(
                OutOfRange,
            ),
    {
        if x < self.size && y < self.height && z < self.size {
            Ok(self.get_tile(x, y, z))
        } else {
            Err(OutOfRange)
        }
    }

    /// The world position of the chunk's corner cell, in cells.
    pub fn pos(&self) -> (r: (i64, i64, i64))
        requires
            self@.size <= i32::MAX,
        ensures
            r.0 == self@.id.0 * self@.size,
            r.1 == 0,
            r.2 == self@.id.1 * self@.size,
    {
        let size = self.size as i64;
        proof {
            assert(-0x8000_0000 * 0x7fff_ffff <= self.id.x as int * size <= 0x7fff_ffff * 0x7fff_ffff) by (nonlinear_arith)
                requires i32::MIN <= self.id.x <= i32::MAX, 0 <= size <= i32::MAX;
            assert(-0x8000_0000 * 0x7fff_ffff <= self.id.z as int * size <= 0x7fff_ffff * 0x7fff_ffff) by (nonlinear_arith)
                requires i32::MIN <= self.id.z <= i32::MAX, 0 <= size <= i32::MAX;
        }
        (self.id.x as i64 * size, 0, self.id.z as i64 * size)
    }

    /// A chunk with the given contents.
    pub(crate) fn from_parts(id: ChunkId, size: usize, height: usize, tiles: Vec<Option<TileID>>) -> (r: Chunk)
        ensures
            r@ == (ChunkView { id: id@, size: size as int, height: height as int, tiles: tiles@ }),
    {
        Chunk { id, size, height, tiles }
    }

    /// The dimensions (size, height) of the chunk.
    pub fn dims(&self) -> (r: (usize, usize))
        ensures
            r.0 == self@.size,
            r.1 == self@.height,
    {
        (self.size, self.height)
    }
}

/// The generated chunks, each under its position.
pub struct WorldMap {
    chunks: Vec<Chunk>,
}

impl WorldMap {
    /// The chunks held, in the order they were first added.
    pub closed spec fn spec_chunks(&self) -> Seq<ChunkView> {
        self.chunks@.map_values(|c: Chunk| c@)
    }

    /// No two chunks share a position.
    pub open spec fn wf(&self) -> bool {
        forall|i: int, j: int|
            0 <= i < j < self.spec_chunks().len() ==> #[trigger] self.spec_chunks()[i].id
                != #[trigger] self.spec_chunks()[j].id
    }

    /// Whether a chunk at position `id` is held.
    pub open spec fn spec_contains(&self, id: (int, int)) -> bool {
        exists|i: int| 0 <= i < self.spec_chunks().len() && #[trigger] self.spec_chunks()[i].id == id
    }

    /// An empty map.
    pub fn new() -> (r: WorldMap)
        ensures
            r.wf(),
            r.spec_chunks().len() == 0,
    {
        WorldMap { chunks: Vec::new() }
    }

    pub fn contains(&self, id: &ChunkId) -> (r: bool)
        ensures
            r == self.spec_contains(id@),
    {
        let mut i: usize = 0;
        while i < self.chunks.len()
            invariant
                0 <= i <= self.chunks@.len(),
                forall|j: int| 0 <= j < i ==> #[trigger] self.spec_chunks()[j].id != id@,
            decreases self.chunks@.len() - i,
        {
            if self.chunks[i].id == *id {
                assert(self.spec_chunks()[i as int].id == id@);
                return true;
            }
            i += 1;
        }
        false
    }

    /// Stores `chunk` under its position, replacing a chunk held there.
    pub fn add_chunk(&mut self, chunk: Chunk)
        requires
            old(self).wf(),
        ensures
            final(self).wf(),
            final(self).spec_contains(chunk@.id),
            forall|i: int|
                0 <= i < final(self).spec_chunks().len() && #[trigger] final(self).spec_chunks()[i].id == chunk@.id
                    ==> final(self).spec_chunks()[i] == chunk@,
            forall|k: (int, int)| k != chunk@.id ==> (final(self).spec_contains(k) == old(self).spec_contains(k)),
            forall|i: int|
                0 <= i < old(self).spec_chunks().len() && old(self).spec_chunks()[i].id != chunk@.id
                    ==> final(self).spec_chunks().contains(#[trigger] old(self).spec_chunks()[i]),
    {
        let ghost before = self.spec_chunks();
        let ghost c = chunk@;
        let mut i: usize = 0;
        while i < self.chunks.len()
            invariant
                0 <= i <= self.chunks@.len(),
                self.spec_chunks() == before,
                before == old(self).spec_chunks(),
                c == chunk@,
                forall|j: int, k: int| 0 <= j < k < before.len() ==> #[trigger] before[j].id != #[trigger] before[k].id,
                forall|j: int| 0 <= j < i ==> #[trigger] before[j].id != chunk@.id,
            decreases self.chunks@.len() - i,
        {
            assert(self.spec_chunks()[i as int] == self.chunks@[i as int]@);
            if self.chunks[i].id == chunk.id {
                assert(before[i as int].id == c.id);
                self.chunks.set(i, chunk);
                proof {
                    assert(self.spec_chunks() =~= before.update(i as int, c));
                    assert forall|k: (int, int)| k != c.id implies (self.spec_contains(k) == exists|j: int|
                        0 <= j < before.len() && #[trigger] before[j].id == k) by {
                        if exists|j: int| 0 <= j < before.len() && #[trigger] before[j].id == k {
                            let j = choose|j: int| 0 <= j < before.len() && #[trigger] before[j].id == k;
                            assert(self.spec_chunks()[j].id == k);
                        }
                        if self.spec_contains(k) {
                            let j = choose|j: int| 0 <= j < self.spec_chunks().len() && #[trigger] self.spec_chunks()[j].id == k;
                            assert(before[j].id == k);
                        }
                    }
                    assert forall|j: int| 0 <= j < before.len() && before[j].id != c.id
                        implies self.spec_chunks().contains(#[trigger] before[j]) by {
                        assert(self.spec_chunks()[j] == before[j]);
                    }
                    assert(self.spec_chunks()[i as int].id == c.id);
                    let after = self.spec_chunks();
                    assert forall|j: int, k: int| 0 <= j < k < after.len() implies #[trigger] after[j].id
                        != #[trigger] after[k].id by {
                        assert(before[j].id != before[k].id);
                    }
                    assert forall|j: int| 0 <= j < after.len() && #[trigger] after[j].id == c.id implies after[j] == c by {
                        if j != i {
                            assert(before[j].id != before[i as int].id);
                        }
                    }
                }
                return;
            }
            i += 1;
        }
        self.chunks.push(chunk);
        proof {
            assert(self.spec_chunks() =~= before.push(c));
            let after = self.spec_chunks();
            assert forall|j: int, k: int| 0 <= j < k < after.len() implies #[trigger] after[j].id
                != #[trigger] after[k].id by {
                if k < before.len() {
                    assert(before[j].id != before[k].id);
                }
            }
            assert forall|j: int| 0 <= j < after.len() && #[trigger] after[j].id == c.id implies after[j] == c by {
                if j < before.len() {
                    assert(before[j].id != c.id);
                }
            }
            assert(self.spec_chunks()[before.len() as int].id == c.id);
            assert forall|k: (int, int)| k != c.id implies (self.spec_contains(k) == exists|j: int|
                0 <= j < before.len() && #[trigger] before[j].id == k) by {
                if exists|j: int| 0 <= j < before.len() && #[trigger] before[j].id == k {
                    let j = choose|j: int| 0 <= j < before.len() && #[trigger] before[j].id == k;
                    assert(self.spec_chunks()[j].id == k);
                }
                if self.spec_contains(k) {
                    let j = choose|j: int| 0 <= j < self.spec_chunks().len() && #[trigger] self.spec_chunks()[j].id == k;
                    assert(j < before.len());
                    assert(before[j].id == k);
                }
            }
            assert forall|j: int| 0 <= j < before.len() && before[j].id != c.id
                implies self.spec_chunks().contains(#[trigger] before[j]) by {
                assert(self.spec_chunks()[j] == before[j]);
            }
        }
    }
}

} // verus!
