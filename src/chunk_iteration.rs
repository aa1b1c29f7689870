//! Walks the solid cells of a chunk in scan order, pairing each with its block.

use vstd::prelude::*;
use crate::block::Block;
use crate::chunk::{
    Chunk, bits_get, scan, padded, in_chunk, solid_at, count_solid, lemma_scan_padded,
    lemma_count_solid_monotone, CHUNK_DIMENSION_WRAPPED,
};
use crate::face::Point3;

verus! {

/// A cursor over the solid cells of a chunk.
pub struct ChunkBlockIterator<'a> {
    chunk_ref: &'a Chunk,
    current_solid_offset: usize,
    current_block_offset: usize,
    local_x: usize,
    local_y: usize,
    local_z: usize,
}

impl<'a> ChunkBlockIterator<'a> {
    /// The chunk being walked.
    pub closed spec fn chunk(&self) -> Chunk {
        *self.chunk_ref
    }

    /// Scan index of the next cell to look at; 4096 once the walk is over.
    pub closed spec fn position(&self) -> int {
        scan(self.local_x - 1, self.local_y - 1, self.local_z - 1)
    }

    pub closed spec fn wf(&self) -> bool {
        &&& self.chunk_ref.wf()
        &&& 1 <= self.local_x <= 17
        &&& 1 <= self.local_y <= 16
        &&& 1 <= self.local_z <= 17
        &&& self.local_z == 17 ==> self.local_x == 1 && self.local_y == 1
        &&& self.current_solid_offset == padded(
            self.local_x - 1,
            self.local_y - 1,
            self.local_z - 1,
        )
        &&& self.current_block_offset == count_solid(self.chunk_ref.bits(), self.position())
    }

    pub proof fn lemma_position_bound(&self)
        requires
            self.wf(),
        ensures
            0 <= self.position() <= 4096,
    {
    }

    pub fn new(chunk_ref: &'a Chunk) -> (r: ChunkBlockIterator<'a>)
        requires
            chunk_ref.wf(),
        ensures
            r.wf(),
            r.chunk() == *chunk_ref,
            r.position() == 0,
    {
        ChunkBlockIterator {
            chunk_ref,
            current_solid_offset: 1 + CHUNK_DIMENSION_WRAPPED + 324,
            current_block_offset: 0,
            local_x: 1,
            local_y: 1,
            local_z: 1,
        }
    }

    /// Moves past a finished row or plane; false once the chunk is done.
    fn wrap(&mut self) -> (more: bool)
        requires
            old(self).wf(),
            old(self).local_z <= 16,
        ensures
            final(self).wf(),
            final(self).chunk() == old(self).chunk(),
            final(self).position() == old(self).position(),
            more ==> final(self).local_x <= 16 && final(self).local_z <= 16,
            !more ==> final(self).position() == 4096,
    {
        if self.local_x == CHUNK_DIMENSION_WRAPPED - 1 {
            self.current_solid_offset = self.current_solid_offset + 2;
            self.local_x = 1;
            self.local_y = self.local_y + 1;
            if self.local_y == CHUNK_DIMENSION_WRAPPED - 1 {
                self.current_solid_offset = self.current_solid_offset + 2
                    * CHUNK_DIMENSION_WRAPPED;
                self.local_y = 1;
                self.local_z = self.local_z + 1;
                if self.local_z == CHUNK_DIMENSION_WRAPPED - 1 {
                    return false;
                }
            }
        }
        true
    }

    /// The next solid cell at or after the cursor, with its block; `None` when
    /// no solid cell is left.
    pub fn get_next_block(&mut self) -> (r: Option<(Point3, Block)>)
        requires
            old(self).wf(),
        ensures
            final(self).wf(),
            final(self).chunk() == old(self).chunk(),
            final(self).position() >= old(self).position(),
            match r {
                Some((p, block)) => {
                    let m = scan(p.x as int, p.y as int, p.z as int);
                    &&& in_chunk(p.x as int, p.y as int, p.z as int)
                    &&& old(self).position() <= m
                    &&& final(self).position() == m + 1
                    &&& solid_at(old(self).chunk().bits(), m)
                    &&& forall|k: int|
                        old(self).position() <= k < m ==> !#[trigger] solid_at(
                            old(self).chunk().bits(),
                            k,
                        )
                    &&& block == old(self).chunk().blocks@[count_solid(old(self).chunk().bits(), m)]
                },
                None => forall|k: int|
                    old(self).position() <= k < 4096 ==> !#[trigger] solid_at(
                        old(self).chunk().bits(),
                        k,
                    ),
            },
    {
        let ghost bits = self.chunk_ref.bits();
        let ghost start = self.position();
        if self.current_block_offset >= self.chunk_ref.blocks.len() {
            proof {
                assert forall|k: int| start <= k < 4096 implies !#[trigger] solid_at(bits, k) by {
                    if solid_at(bits, k) {
                        lemma_count_solid_monotone(bits, start, k);
                        lemma_count_solid_monotone(bits, k, 4096);
                    }
                }
            }
            return None;
        }
        if self.local_z == CHUNK_DIMENSION_WRAPPED - 1 {
            return None;
        }
        if !self.wrap() {
            return None;
        }
        proof {
            lemma_scan_padded(self.local_x - 1, self.local_y - 1, self.local_z - 1);
        }
        while !bits_get(&self.chunk_ref.solid_array, self.current_solid_offset)
            invariant
                self.wf(),
                self.chunk_ref.bits() == bits,
                self.chunk() == old(self).chunk(),
                start == old(self).position(),
                bits == old(self).chunk().bits(),
                self.local_x <= 16,
                self.local_z <= 16,
                start <= self.position() < 4096,
                self.current_solid_offset == crate::chunk::padded_of_scan(self.position()),
                forall|k: int| start <= k < self.position() ==> !#[trigger] solid_at(bits, k),
            decreases 4096 - self.position(),
        {
            let ghost skipped = self.position();
            assert(!solid_at(bits, skipped));
            self.local_x = self.local_x + 1;
            self.current_solid_offset = self.current_solid_offset + 1;
            assert(self.position() == skipped + 1);
            if !self.wrap() {
                return None;
            }
            proof {
                lemma_scan_padded(self.local_x - 1, self.local_y - 1, self.local_z - 1);
            }
        }
        let ghost m = self.position();
        proof {
            lemma_count_solid_monotone(bits, m, 4096);
        }
        let block = self.chunk_ref.blocks[self.current_block_offset];
        let position = Point3::new(self.local_x - 1, self.local_y - 1, self.local_z - 1);
        self.current_block_offset = self.current_block_offset + 1;
        self.current_solid_offset = self.current_solid_offset + 1;
        self.local_x = self.local_x + 1;
        Some((position, block))
    }
}

} // verus!
