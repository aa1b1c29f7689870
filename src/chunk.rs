//! A 16 x 16 x 16 chunk of voxels: a padded solidity bitset plus a dense list of
//! the solid blocks, in scan order (x fastest, then y, then z).

use vstd::prelude::*;
use bitvec::vec::BitVec;
use crate::block::{Block, BlockSide, side_index};

verus! {

/// Cells along each edge of a chunk.
pub const CHUNK_DIMENSION: usize = 16;
/// Cells in one plane of a chunk.
pub const CHUNK_PLANE_SIZE: usize = 256;
/// Cells in a chunk.
pub const CHUNK_SIZE: usize = 4096;
/// Edge of the bitset grid: the chunk plus one padding cell on each face.
pub const CHUNK_DIMENSION_WRAPPED: usize = 18;
/// One plane of the bitset grid.
pub const CHUNK_PLANE_SIZE_WRAPPED: usize = 324;
/// The whole bitset grid.
pub const CHUNK_SIZE_WRAPPED: usize = 5832;

/// The solidity bits of a chunk, padding included.
#[verifier::external_body]
pub struct SolidBits {
    bits: BitVec,
}

/// What a `SolidBits` holds, bit by bit.
pub uninterp spec fn bits_of(b: SolidBits) -> Seq<bool>;

/// Relies on bitvec's BitVec::with_capacity: a new, empty bit vector.
#[verifier::external_body]
pub(crate) fn bits_with_capacity(capacity: usize) -> (r: SolidBits)
    ensures
        bits_of(r) == Seq::<bool>::empty(),
{
    SolidBits { bits: BitVec::with_capacity(capacity) }
}

/// Relies on bitvec's BitVec::push: appends one bit.
#[verifier::external_body]
pub(crate) fn bits_push(b: &mut SolidBits, value: bool)
    requires
        bits_of(*old(b)).len() < CHUNK_SIZE_WRAPPED,
    ensures
        bits_of(*final(b)) == bits_of(*old(b)).push(value),
{
    b.bits.push(value)
}

/// Relies on indexing a bitvec BitVec: the bit at `i`.
#[verifier::external_body]
pub(crate) fn bits_get(b: &SolidBits, i: usize) -> (r: bool)
    requires
        i < bits_of(*b).len(),
    ensures
        r == bits_of(*b)[i as int],
{
    b.bits[i]
}

/// Relies on bitvec's BitSlice::set: overwrites the bit at `i`.
#[verifier::external_body]
fn bits_set(b: &mut SolidBits, i: usize, value: bool)
    requires
        i < bits_of(*old(b)).len(),
    ensures
        bits_of(*final(b)) == bits_of(*old(b)).update(i as int, value),
{
    b.bits.set(i, value)
}

/// Position of a chunk in the world, in whole chunks.
#[derive(PartialEq, Eq, Structural, Hash, Copy, Clone, Debug)]
pub struct ChunkPosition {
    pub x: i32,
    pub y: i32,
    pub z: i32,
}

/// A single integer that identifies a chunk position; distinct positions get
/// distinct keys.
pub open spec fn position_key(p: ChunkPosition) -> i128 {
    (p.x as int * 0x1_0000_0000_0000_0000 + p.y as int * 0x1_0000_0000 + p.z as int) as i128
}

/// Two chunk positions share a key exactly when they are the same position.
pub proof fn lemma_position_key_injective(a: ChunkPosition, b: ChunkPosition)
    ensures
        position_key(a) == position_key(b) <==> a == b,
{
}

impl ChunkPosition {
    pub fn new(x: i32, y: i32, z: i32) -> (r: ChunkPosition)
        ensures
            r == (ChunkPosition { x, y, z }),
    {
        ChunkPosition { x, y, z }
    }

    pub fn key(&self) -> (r: i128)
        ensures
            r == position_key(*self),
    {
        self.x as i128 * 0x1_0000_0000_0000_0000i128 + self.y as i128 * 0x1_0000_0000i128
            + self.z as i128
    }
}

/// Index in the padded bitset of cell `(x, y, z)`; padding cells have a
/// coordinate of -1 or 16.
pub open spec fn padded(x: int, y: int, z: int) -> int {
    (x + 1) + 18 * (y + 1) + 324 * (z + 1)
}

/// Scan index of cell `(x, y, z)`.
pub open spec fn scan(x: int, y: int, z: int) -> int {
    x + 16 * y + 256 * z
}

pub open spec fn in_chunk(x: int, y: int, z: int) -> bool {
    0 <= x < 16 && 0 <= y < 16 && 0 <= z < 16
}

/// Bitset index of the cell with scan index `n`.
pub open spec fn padded_of_scan(n: int) -> int {
    padded(n % 16, (n / 16) % 16, n / 256)
}

pub proof fn lemma_scan_padded(x: int, y: int, z: int)
    requires
        in_chunk(x, y, z),
    ensures
        padded_of_scan(scan(x, y, z)) == padded(x, y, z),
        0 <= scan(x, y, z) < 4096,
{
    let n = scan(x, y, z);
    assert(n % 16 == x && n / 16 == y + 16 * z) by {
        vstd::arithmetic::div_mod::lemma_fundamental_div_mod_converse(n, 16, y + 16 * z, x);
    }
    assert((y + 16 * z) % 16 == y && (y + 16 * z) / 16 == z) by {
        vstd::arithmetic::div_mod::lemma_fundamental_div_mod_converse(y + 16 * z, 16, z, y);
    }
    assert(n / 256 == z) by {
        vstd::arithmetic::div_mod::lemma_fundamental_div_mod_converse(n, 256, z, x + 16 * y);
    }
}

/// The offset to the neighbouring cell on `side`, in the padded bitset.
pub open spec fn neighbour_offset(side: BlockSide) -> int {
    match side {
        BlockSide::FRONT => -1,
        BlockSide::BACK => 1,
        BlockSide::BOTTOM => -18,
        BlockSide::TOP => 18,
        BlockSide::LEFT => -324,
        BlockSide::RIGHT => 324,
    }
}

/// Whether the cell with scan index `n` is solid.
pub open spec fn solid_at(bits: Seq<bool>, n: int) -> bool {
    bits[padded_of_scan(n)]
}

/// Whether the cell with scan index `n` is solid and shows a face on `side`,
/// its neighbour there being empty.
pub open spec fn exposed_at(bits: Seq<bool>, n: int, side: BlockSide) -> bool {
    bits[padded_of_scan(n)] && !bits[padded_of_scan(n) + neighbour_offset(side)]
}

/// Number of solid cells among the first `n` in scan order.
pub open spec fn count_solid(bits: Seq<bool>, n: int) -> int
    decreases n,
{
    if n <= 0 {
        0
    } else {
        count_solid(bits, n - 1) + if solid_at(bits, n - 1) {
            1int
        } else {
            0
        }
    }
}

/// Number of faces on `side` shown by the first `n` cells in scan order.
pub open spec fn count_exposed(bits: Seq<bool>, n: int, side: BlockSide) -> int
    decreases n,
{
    if n <= 0 {
        0
    } else {
        count_exposed(bits, n - 1, side) + if exposed_at(bits, n - 1, side) {
            1int
        } else {
            0
        }
    }
}

pub proof fn lemma_count_solid_monotone(bits: Seq<bool>, a: int, b: int)
    requires
        0 <= a <= b,
    ensures
        count_solid(bits, a) <= count_solid(bits, b),
        a < b && solid_at(bits, a) ==> count_solid(bits, a) < count_solid(bits, b),
    decreases b - a,
{
    if a < b {
        lemma_count_solid_monotone(bits, a, b - 1);
    }
}

/// A bitset grid whose padding cells are all clear.
pub open spec fn padding_clear(bits: Seq<bool>) -> bool {
    forall|x: int, y: int, z: int|
        -1 <= x <= 16 && -1 <= y <= 16 && -1 <= z <= 16 && !in_chunk(x, y, z) ==> !bits[#[trigger] padded(x, y, z)]
}

/// A fixed cubic region of typed cells.
pub struct Chunk {
    /// Position of this chunk, in whole chunks.
    pub position: ChunkPosition,
    /// One bit per cell of the padded grid: set where the cell is solid.
    pub solid_array: SolidBits,
    /// For each z plane, how many solid blocks lie in it and the planes before it.
    pub offsets_at_plane: Vec<u32>,
    /// The solid blocks, in scan order.
    pub blocks: Vec<Block>,
}

impl Chunk {
    /// The solidity bits.
    pub open spec fn bits(&self) -> Seq<bool> {
        bits_of(self.solid_array)
    }

    /// Grid of the right size, clear padding, and one block per solid cell.
    pub open spec fn wf(&self) -> bool {
        &&& self.bits().len() == CHUNK_SIZE_WRAPPED
        &&& padding_clear(self.bits())
        &&& self.blocks@.len() == count_solid(self.bits(), 4096)
        &&& self.offsets_at_plane@.len() == 16
        &&& forall|z: int| 0 <= z < 16 ==> #[trigger] self.offsets_at_plane@[z] == count_solid(self.bits(), 256 * (z + 1))
    }

    /// Whether the bitset cell at padded coordinates `(cx, cy, cz)` is set.
    pub fn is_block_solid(&self, cx: usize, cy: usize, cz: usize) -> (r: bool)
        requires
            cx < 18 && cy < 18 && cz < 18,
            self.bits().len() == CHUNK_SIZE_WRAPPED,
        ensures
            r == self.bits()[padded(cx - 1, cy - 1, cz - 1)],
    {
        bits_get(
            &self.solid_array,
            cx + CHUNK_DIMENSION_WRAPPED * cy + CHUNK_PLANE_SIZE_WRAPPED * cz,
        )
    }

    /// Sets or clears the bitset cell at padded coordinates `(cx, cy, cz)`.
    pub fn update_solid_array(&mut self, cx: usize, cy: usize, cz: usize, solid_value: bool)
        requires
            cx < 18 && cy < 18 && cz < 18,
            old(self).bits().len() == CHUNK_SIZE_WRAPPED,
        ensures
            final(self).bits() == old(self).bits().update(padded(cx - 1, cy - 1, cz - 1), solid_value),
            final(self).position == old(self).position,
            final(self).blocks == old(self).blocks,
            final(self).offsets_at_plane == old(self).offsets_at_plane,
    {
        bits_set(
            &mut self.solid_array,
            cx + CHUNK_DIMENSION_WRAPPED * cy + CHUNK_PLANE_SIZE_WRAPPED * cz,
            solid_value,
        )
    }

    /// For the cell `(x, y, z)`, whether its neighbour on each side is solid, by
    /// side index.
    pub fn generate_adjacent_blocks(&self, x: usize, y: usize, z: usize) -> (r: [bool; 6])
        requires
            in_chunk(x as int, y as int, z as int),
            self.bits().len() == CHUNK_SIZE_WRAPPED,
        ensures
            forall|s: BlockSide|
                #[trigger] r@[side_index(s) as int] == self.bits()[padded(x as int, y as int, z as int)
                    + neighbour_offset(s)],
    {
        let i = x + 1;
        let j = y + 1;
        let k = z + 1;
        let mut adjacency_data = [false;6];
        adjacency_data[0] = self.is_block_solid(i - 1, j, k);
        adjacency_data[1] = self.is_block_solid(i + 1, j, k);
        adjacency_data[2] = self.is_block_solid(i, j - 1, k);
        adjacency_data[3] = self.is_block_solid(i, j + 1, k);
        adjacency_data[4] = self.is_block_solid(i, j, k - 1);
        adjacency_data[5] = self.is_block_solid(i, j, k + 1);
        adjacency_data
    }
}

} // verus!
