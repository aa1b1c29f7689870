//! Builds a chunk cell by cell in scan order, keeping the bitset and the dense
//! block list in step.

use vstd::prelude::*;
use crate::block::{Block, BlockType, type_code};
use crate::chunk::{CHUNK_SIZE, CHUNK_DIMENSION, CHUNK_PLANE_SIZE, ChunkPosition, SolidBits, bits_of, bits_push, bits_with_capacity, scan, padded, in_chunk, Chunk, solid_at, count_solid, padding_clear, lemma_scan_padded, CHUNK_SIZE_WRAPPED, CHUNK_DIMENSION_WRAPPED, CHUNK_PLANE_SIZE_WRAPPED};

verus! {

/// Number of set entries among the first `n` of `cells`.
pub open spec fn count_true(cells: Seq<bool>, n: int) -> int
    decreases n,
{
    if n <= 0 {
        0
    } else {
        count_true(cells, n - 1) + if cells[n - 1] {
            1int
        } else {
            0
        }
    }
}

proof fn lemma_count_matches(bits: Seq<bool>, cells: Seq<bool>, n: int)
    requires
        0 <= n <= 4096,
        cells.len() >= n,
        forall|m: int| 0 <= m < n ==> solid_at(bits, m) == #[trigger] cells[m],
    ensures
        count_solid(bits, n) == count_true(cells, n),
    decreases n,
{
    if n > 0 {
        lemma_count_matches(bits, cells, n - 1);
    }
}

/// A chunk under construction.
pub struct ChunkCreationIterator {
    position: ChunkPosition,
    solid_array: SolidBits,
    offsets_at_plane: Vec<u32>,
    blocks: Vec<Block>,
    local_x: usize,
    local_y: usize,
    local_z: usize,
    block_offset: u32,
    /// Solidity of the cells pushed so far, in scan order.
    cells: Ghost<Seq<bool>>,
}

impl ChunkCreationIterator {
    /// Number of cells pushed so far.
    pub closed spec fn pushed(&self) -> int {
        scan(self.local_x - 1, self.local_y - 1, self.local_z - 1)
    }

    pub closed spec fn chunk_position(&self) -> ChunkPosition {
        self.position
    }

    pub closed spec fn cells(&self) -> Seq<bool> {
        self.cells@
    }

    pub closed spec fn block_list(&self) -> Seq<Block> {
        self.blocks@
    }

    pub closed spec fn wf(&self) -> bool {
        let bits = bits_of(self.solid_array);
        let n = self.pushed();
        &&& 1 <= self.local_x <= 16
        &&& 1 <= self.local_y <= 16
        &&& 1 <= self.local_z <= 17
        &&& self.local_z == 17 ==> self.local_x == 1 && self.local_y == 1
        &&& self.cells@.len() == n
        &&& n < 4096 ==> bits.len() == padded(
            self.local_x - 1,
            self.local_y - 1,
            self.local_z - 1,
        )
        &&& n == 4096 ==> bits.len() == CHUNK_SIZE_WRAPPED
        &&& forall|x: int, y: int, z: int|
            -1 <= x <= 16 && -1 <= y <= 16 && -1 <= z <= 16 && !in_chunk(x, y, z) && padded(x, y, z)
                < bits.len() ==> !bits[#[trigger] padded(x, y, z)]
        &&& forall|x: int, y: int, z: int|
            in_chunk(x, y, z) && scan(x, y, z) < n ==> bits[#[trigger] padded(x, y, z)]
                == self.cells@[scan(x, y, z)]
        &&& self.blocks@.len() == count_true(self.cells@, n)
        &&& self.block_offset == self.blocks@.len()
        &&& self.offsets_at_plane@.len() == self.local_z - 1
        &&& forall|z: int| 0 <= z < self.offsets_at_plane@.len() ==> #[trigger] self.offsets_at_plane@[z] == count_true(self.cells@, 256 * (z + 1))
    }

    /// A builder with no cells pushed yet, for a chunk at `position`.
    pub fn new(position: ChunkPosition) -> (r: ChunkCreationIterator)
        ensures
            r.wf(),
            r.pushed() == 0,
            r.cells().len() == 0,
            r.block_list().len() == 0,
            r.chunk_position() == position,
    {
        let mut solid_array = bits_with_capacity(CHUNK_SIZE_WRAPPED);
        let mut i: usize = 0;
        while i < CHUNK_PLANE_SIZE_WRAPPED + CHUNK_DIMENSION_WRAPPED + 1
            invariant
                i <= 343,
                bits_of(solid_array).len() == i,
                forall|p: int| 0 <= p < i ==> !bits_of(solid_array)[p],
            decreases 343 - i,
        {
            bits_push(&mut solid_array, false);
            i = i + 1;
        }
        ChunkCreationIterator {
            position,
            solid_array,
            offsets_at_plane: Vec::new(),
            blocks: Vec::new(),
            local_x: 1,
            local_y: 1,
            local_z: 1,
            block_offset: 0,
            cells: Ghost(Seq::empty()),
        }
    }

    /// Pushes `count` padding bits.
    fn push_padding(&mut self, count: usize)
        requires
            bits_of(old(self).solid_array).len() + count <= CHUNK_SIZE_WRAPPED,
        ensures
            bits_of(final(self).solid_array) == bits_of(old(self).solid_array) + Seq::new(
                count as nat,
                |p: int| false,
            ),
            final(self).position == old(self).position,
            final(self).blocks == old(self).blocks,
            final(self).offsets_at_plane == old(self).offsets_at_plane,
            final(self).local_x == old(self).local_x,
            final(self).local_y == old(self).local_y,
            final(self).local_z == old(self).local_z,
            final(self).block_offset == old(self).block_offset,
            final(self).cells == old(self).cells,
    {
        let ghost start = bits_of(self.solid_array);
        let mut i: usize = 0;
        while i < count
            invariant
                i <= count,
                start.len() + count <= CHUNK_SIZE_WRAPPED,
                bits_of(self.solid_array) == start + Seq::new(i as nat, |p: int| false),
                self.position == old(self).position,
                self.blocks == old(self).blocks,
                self.offsets_at_plane == old(self).offsets_at_plane,
                self.local_x == old(self).local_x,
                self.local_y == old(self).local_y,
                self.local_z == old(self).local_z,
                self.block_offset == old(self).block_offset,
                self.cells == old(self).cells,
            decreases count - i,
        {
            bits_push(&mut self.solid_array, false);
            i = i + 1;
            assert(bits_of(self.solid_array) =~= start + Seq::new(i as nat, |p: int| false));
        }
    }

    /// The finished chunk.
    pub fn return_chunk(self) -> (r: Chunk)
        requires
            self.wf(),
            self.pushed() == 4096,
        ensures
            r.wf(),
            r.position == self.chunk_position(),
            r.blocks@ == self.block_list(),
            forall|m: int| 0 <= m < 4096 ==> solid_at(r.bits(), m) == #[trigger] self.cells()[m],
    {
        let r = Chunk {
            position: self.position,
            solid_array: self.solid_array,
            offsets_at_plane: self.offsets_at_plane,
            blocks: self.blocks,
        };
        proof {
            let bits = r.bits();
            assert forall|m: int| 0 <= m < 4096 implies solid_at(bits, m) == #[trigger] self.cells@[m] by {
                let (x, y, z) = (m % 16, (m / 16) % 16, m / 256);
                assert(m == scan(x, y, z) && in_chunk(x, y, z)) by (nonlinear_arith)
                    requires 0 <= m < 4096, x == m % 16, y == (m / 16) % 16, z == m / 256;
                lemma_scan_padded(x, y, z);
            }
            lemma_count_matches(bits, self.cells@, 4096);
            assert(padding_clear(bits));
            assert forall|z: int| 0 <= z < 16 implies #[trigger] r.offsets_at_plane@[z] == count_solid(bits, 256 * (z + 1)) by {
                lemma_count_matches(bits, self.cells@, 256 * (z + 1));
            }
        }
        r
    }

    /// Pushes the next cell in scan order: its bit, and its block when solid.
    pub fn push_block_type(&mut self, block_type: BlockType)
        requires
            old(self).wf(),
            old(self).pushed() < 4096,
        ensures
            final(self).wf(),
            final(self).pushed() == old(self).pushed() + 1,
            final(self).chunk_position() == old(self).chunk_position(),
            final(self).cells() == old(self).cells().push(block_type != BlockType::AIR),
            final(self).block_list() == if block_type != BlockType::AIR {
                old(self).block_list().push(Block { block_type: type_code(block_type) })
            } else {
                old(self).block_list()
            },
    {
        let is_solid = block_type != BlockType::AIR;
        let ghost old_bits = bits_of(self.solid_array);
        let ghost n = self.pushed();
        let ghost (a, b, c) = (self.local_x - 1, self.local_y - 1, self.local_z - 1);
        proof {
            lemma_count_true_le(self.cells@, n);
        }
        bits_push(&mut self.solid_array, is_solid);
        if is_solid {
            self.blocks.push(Block::new(block_type));
            self.block_offset = self.block_offset + 1;
        }
        self.cells = Ghost(self.cells@.push(is_solid));
        proof {
            lemma_count_true_push(old(self).cells@, is_solid);
        }
        self.local_x = self.local_x + 1;
        if self.local_x == CHUNK_DIMENSION_WRAPPED - 1 {
            self.push_padding(2);
            self.local_x = 1;
            self.local_y = self.local_y + 1;
            if self.local_y == CHUNK_DIMENSION_WRAPPED - 1 {
                proof {
                    assert(n + 1 == 256 * self.offsets_at_plane@.len() + 256);
                    assert(self.block_offset == count_true(self.cells@, n + 1));
                }
                self.offsets_at_plane.push(self.block_offset);
                self.push_padding(2 * CHUNK_DIMENSION_WRAPPED);
                self.local_y = 1;
                self.local_z = self.local_z + 1;
                if self.local_z == CHUNK_DIMENSION_WRAPPED - 1 {
                    self.push_padding(CHUNK_PLANE_SIZE_WRAPPED - CHUNK_DIMENSION_WRAPPED - 1);
                }
            }
        }
        proof {
            let bits = bits_of(self.solid_array);
            let len0 = old_bits.len() as int;
            assert(len0 == padded(a, b, c));
            assert(bits.len() > len0);
            assert(bits[len0] == is_solid);
            assert(forall|p: int| 0 <= p < len0 ==> bits[p] == old_bits[p]);
            assert(forall|p: int| len0 < p < bits.len() ==> !bits[p]);
            lemma_grid_after_push(old_bits, bits, a, b, c, n, old(self).cells@, is_solid);
            let offs = self.offsets_at_plane@;
            let old_offs = old(self).offsets_at_plane@;
            assert(self.cells@ =~= old(self).cells@ + seq![is_solid]);
            assert forall|z: int| 0 <= z < offs.len() implies #[trigger] offs[z] == count_true(self.cells@, 256 * (z + 1)) by {
                if z < old_offs.len() {
                    assert(offs[z] == old_offs[z]);
                    lemma_count_true_prefix(old(self).cells@, seq![is_solid], 256 * (z + 1));
                }
            }
        }
    }
}

proof fn lemma_padded_unique(x: int, y: int, z: int, a: int, b: int, c: int)
    requires
        -1 <= x <= 16 && -1 <= y <= 16 && -1 <= z <= 16,
        -1 <= a <= 16 && -1 <= b <= 16 && -1 <= c <= 16,
        padded(x, y, z) == padded(a, b, c),
    ensures
        x == a && y == b && z == c,
{
}

proof fn lemma_scan_before(x: int, y: int, z: int, a: int, b: int, c: int)
    requires
        in_chunk(x, y, z),
        in_chunk(a, b, c),
        scan(x, y, z) < scan(a, b, c),
    ensures
        padded(x, y, z) < padded(a, b, c),
{
}

proof fn lemma_grid_after_push(
    old_bits: Seq<bool>,
    bits: Seq<bool>,
    a: int,
    b: int,
    c: int,
    n: int,
    cells: Seq<bool>,
    is_solid: bool,
)
    requires
        in_chunk(a, b, c),
        n == scan(a, b, c),
        cells.len() == n,
        old_bits.len() == padded(a, b, c),
        bits.len() > old_bits.len(),
        bits[old_bits.len() as int] == is_solid,
        forall|p: int| 0 <= p < old_bits.len() ==> bits[p] == old_bits[p],
        forall|p: int| old_bits.len() < p < bits.len() ==> !bits[p],
        forall|x: int, y: int, z: int|
            -1 <= x <= 16 && -1 <= y <= 16 && -1 <= z <= 16 && !in_chunk(x, y, z) && padded(x, y, z)
                < old_bits.len() ==> !old_bits[#[trigger] padded(x, y, z)],
        forall|x: int, y: int, z: int|
            in_chunk(x, y, z) && scan(x, y, z) < n ==> old_bits[#[trigger] padded(x, y, z)]
                == cells[scan(x, y, z)],
    ensures
        forall|x: int, y: int, z: int|
            -1 <= x <= 16 && -1 <= y <= 16 && -1 <= z <= 16 && !in_chunk(x, y, z) && padded(x, y, z)
                < bits.len() ==> !bits[#[trigger] padded(x, y, z)],
        forall|x: int, y: int, z: int|
            in_chunk(x, y, z) && scan(x, y, z) < n + 1 ==> bits[#[trigger] padded(x, y, z)]
                == cells.push(is_solid)[scan(x, y, z)],
{
    let len0 = old_bits.len() as int;
    assert forall|x: int, y: int, z: int|
        -1 <= x <= 16 && -1 <= y <= 16 && -1 <= z <= 16 && !in_chunk(x, y, z) && padded(x, y, z)
            < bits.len() implies !bits[#[trigger] padded(x, y, z)] by {
        if padded(x, y, z) == len0 {
            lemma_padded_unique(x, y, z, a, b, c);
        }
    }
    assert forall|x: int, y: int, z: int|
        in_chunk(x, y, z) && scan(x, y, z) < n + 1 implies bits[#[trigger] padded(x, y, z)]
        == cells.push(is_solid)[scan(x, y, z)] by {
        if scan(x, y, z) < n {
            lemma_scan_before(x, y, z, a, b, c);
        } else {
            assert(x == a && y == b && z == c);
        }
    }
}

proof fn lemma_count_true_le(cells: Seq<bool>, n: int)
    requires
        0 <= n,
    ensures
        0 <= count_true(cells, n) <= n,
    decreases n,
{
    if n > 0 {
        lemma_count_true_le(cells, n - 1);
    }
}

proof fn lemma_count_true_prefix(cells: Seq<bool>, more: Seq<bool>, n: int)
    requires
        0 <= n <= cells.len(),
    ensures
        count_true(cells + more, n) == count_true(cells, n),
    decreases n,
{
    if n > 0 {
        lemma_count_true_prefix(cells, more, n - 1);
        assert((cells + more)[n - 1] == cells[n - 1]);
    }
}

proof fn lemma_count_true_push(cells: Seq<bool>, v: bool)
    ensures
        count_true(cells.push(v), cells.len() + 1int) == count_true(cells, cells.len() as int) + if v {
            1int
        } else {
            0
        },
{
    lemma_count_true_prefix(cells, seq![v], cells.len() as int);
    assert(cells.push(v) =~= cells + seq![v]);
}

/// Whether the cell with scan index `m` is solid in the checkerboard pattern:
/// cells whose coordinates sum to an even number.
pub open spec fn checker_solid(m: int) -> bool {
    (m % 16 + (m / 16) % 16 + m / 256) % 2 == 0
}

#[verifier::rlimit(50)]
proof fn lemma_checker_step(i: int)
    requires
        0 <= i < 4095,
    ensures
        checker_solid(i + 1) == if (i + 1) % 256 == 0 {
            !checker_solid(i)
        } else if (i + 1) % 16 == 0 {
            checker_solid(i)
        } else {
            !checker_solid(i)
        },
{
    let (x, y, z) = (i % 16, (i / 16) % 16, i / 256);
    assert(i == x + 16 * y + 256 * z && 0 <= x < 16 && 0 <= y < 16) by (nonlinear_arith)
        requires
            0 <= i,
            x == i % 16,
            y == (i / 16) % 16,
            z == i / 256,
    {
        assert(i / 256 == (i / 16) / 16) by {
            vstd::arithmetic::div_mod::lemma_div_denominator(i, 16, 16);
        }
    }
    if x < 15 {
        lemma_scan_padded(x + 1, y, z);
        lemma_scan_padded(x, y, z);
        assert((i + 1) % 16 != 0);
    } else if y < 15 {
        lemma_scan_padded(0, y + 1, z);
        assert((i + 1) % 16 == 0 && (i + 1) % 256 != 0);
    } else {
        lemma_scan_padded(0, 0, z + 1);
        assert((i + 1) % 256 == 0);
    }
}

impl Chunk {
    /// A chunk at `position` with every cell empty.
    pub fn empty(position: &ChunkPosition) -> (r: Chunk)
        ensures
            r.wf(),
            r.position == *position,
            forall|m: int| 0 <= m < 4096 ==> !#[trigger] solid_at(r.bits(), m),
            r.blocks@.len() == 0,
    {
        let mut cci = ChunkCreationIterator::new(*position);
        let mut i: usize = 0;
        while i < CHUNK_SIZE
            invariant
                i <= 4096,
                cci.wf(),
                cci.pushed() == i,
                cci.chunk_position() == *position,
                forall|m: int| 0 <= m < i ==> !#[trigger] cci.cells()[m],
                cci.block_list().len() == 0,
            decreases 4096 - i,
        {
            cci.push_block_type(BlockType::AIR);
            i = i + 1;
        }
        let ghost cells = cci.cells();
        let r = cci.return_chunk();
        assert forall|m: int| 0 <= m < 4096 implies !#[trigger] solid_at(r.bits(), m) by {
            assert(solid_at(r.bits(), m) == cells[m]);
        }
        r
    }

    /// A chunk at `position` with every cell dirt.
    pub fn solid(position: &ChunkPosition) -> (r: Chunk)
        ensures
            r.wf(),
            r.position == *position,
            forall|m: int| 0 <= m < 4096 ==> #[trigger] solid_at(r.bits(), m),
            forall|b: int|
                0 <= b < r.blocks@.len() ==> (#[trigger] r.blocks@[b]).block_type == type_code(
                    BlockType::DIRT,
                ),
    {
        let mut cci = ChunkCreationIterator::new(*position);
        let mut i: usize = 0;
        while i < CHUNK_SIZE
            invariant
                i <= 4096,
                cci.wf(),
                cci.pushed() == i,
                cci.chunk_position() == *position,
                forall|m: int| 0 <= m < i ==> #[trigger] cci.cells()[m],
                forall|b: int|
                    0 <= b < cci.block_list().len() ==> (#[trigger] cci.block_list()[b]).block_type
                        == type_code(BlockType::DIRT),
            decreases 4096 - i,
        {
            cci.push_block_type(BlockType::DIRT);
            i = i + 1;
        }
        let ghost cells = cci.cells();
        let r = cci.return_chunk();
        assert forall|m: int| 0 <= m < 4096 implies #[trigger] solid_at(r.bits(), m) by {
            assert(solid_at(r.bits(), m) == cells[m]);
        }
        r
    }

    /// A chunk at `position` whose cells alternate between dirt and empty along
    /// every axis, starting with dirt at the origin.
    pub fn checkerboard(position: &ChunkPosition) -> (r: Chunk)
        ensures
            r.wf(),
            r.position == *position,
            forall|m: int| 0 <= m < 4096 ==> #[trigger] solid_at(r.bits(), m) == checker_solid(m),
            forall|b: int|
                0 <= b < r.blocks@.len() ==> (#[trigger] r.blocks@[b]).block_type == type_code(
                    BlockType::DIRT,
                ),
    {
        let mut push_air = false;
        let mut cci = ChunkCreationIterator::new(*position);
        let mut i: usize = 0;
        while i < CHUNK_SIZE
            invariant
                i <= 4096,
                cci.wf(),
                cci.pushed() == i,
                cci.chunk_position() == *position,
                i < 4096 ==> push_air == !checker_solid(i as int),
                forall|m: int| 0 <= m < i ==> #[trigger] cci.cells()[m] == checker_solid(m),
                forall|b: int|
                    0 <= b < cci.block_list().len() ==> (#[trigger] cci.block_list()[b]).block_type
                        == type_code(BlockType::DIRT),
            decreases 4096 - i,
        {
            if push_air {
                cci.push_block_type(BlockType::AIR);
            } else {
                cci.push_block_type(BlockType::DIRT);
            }
            push_air = !push_air;
            if (i + 1) % CHUNK_DIMENSION == 0 {
                push_air = !push_air;
            }
            if (i + 1) % CHUNK_PLANE_SIZE == 0 {
                push_air = !push_air;
            }
            proof {
                if i + 1 < 4096 {
                    lemma_checker_step(i as int);
                }
            }
            i = i + 1;
        }
        let ghost cells = cci.cells();
        let r = cci.return_chunk();
        assert forall|m: int| 0 <= m < 4096 implies #[trigger] solid_at(r.bits(), m) == checker_solid(m) by {
            assert(solid_at(r.bits(), m) == cells[m]);
        }
        r
    }
}

} // verus!
