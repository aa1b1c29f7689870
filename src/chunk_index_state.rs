//! Small integer slots for loaded chunks: the key of the chunk's world position
//! on the GPU.

use vstd::prelude::*;
use std::collections::{HashMap, VecDeque};
use crate::buffer_commands::{BufferWriteCommand, WritePayload};
use crate::chunk::{ChunkPosition, position_key};

verus! {

broadcast use vstd::std_specs::hash::group_hash_axioms;

/// Chunks loaded around the player along each axis, on either side.
pub const RENDER_DISTANCE: usize = 2;
/// Slots in the chunk index table: twice the chunks within render distance.
pub const WORLD_DIMENSION: u32 = 250;
/// Name of the GPU buffer that holds the coordinates of each slot's chunk.
pub const CHUNK_INDEX_BUFFER_NAME: &'static str = "chunk_index_buffer";
/// Bytes of one slot in that buffer: three 32-bit coordinates.
pub const CHUNK_INDEX_ENTRY_SIZE: u64 = 12;

/// The slot table: which chunk holds which slot, and the free slots in order.
pub struct ChunkIndexState {
    chunk_position_to_gpu_index: HashMap<i128, u32>,
    available_chunk_indices: VecDeque<u32>,
    num_slots: u32,
}

impl ChunkIndexState {
    /// Slot of each loaded chunk, by chunk key.
    pub closed spec fn slots(&self) -> Map<i128, u32> {
        self.chunk_position_to_gpu_index@
    }

    /// Free slots, next to be handed out first.
    pub closed spec fn free(&self) -> Seq<u32> {
        self.available_chunk_indices@
    }

    pub closed spec fn capacity(&self) -> int {
        self.num_slots as int
    }

    /// Slots lie below the capacity; no slot is free twice, held twice, or both
    /// free and held; together free and held slots make up the whole table.
    pub closed spec fn wf(&self) -> bool {
        let m = self.chunk_position_to_gpu_index@;
        let f = self.available_chunk_indices@;
        &&& m.dom().finite()
        &&& forall|i: int| 0 <= i < f.len() ==> #[trigger] f[i] < self.num_slots
        &&& forall|k: i128| #[trigger] m.contains_key(k) ==> m[k] < self.num_slots
        &&& f.no_duplicates()
        &&& forall|k1: i128, k2: i128|
            #[trigger] m.contains_key(k1) && #[trigger] m.contains_key(k2) && k1 != k2 ==> m[k1]
                != m[k2]
        &&& forall|k: i128, i: int| #[trigger] m.contains_key(k) && 0 <= i < f.len() ==> m[k] != #[trigger] f[i]
        &&& f.len() + m.dom().len() == self.num_slots
    }

    /// No slot is handed out twice: the free slots are distinct, loaded chunks
    /// hold distinct slots, and no held slot is free.
    pub proof fn lemma_slots_distinct(&self)
        requires
            self.wf(),
        ensures
            self.free().no_duplicates(),
            forall|k1: i128, k2: i128|
                #[trigger] self.slots().contains_key(k1) && #[trigger] self.slots().contains_key(k2) && k1 != k2
                    ==> self.slots()[k1] != self.slots()[k2],
            forall|k: i128, i: int|
                #[trigger] self.slots().contains_key(k) && 0 <= i < self.free().len() ==> self.slots()[k]
                    != #[trigger] self.free()[i],
    {
    }

    pub proof fn lemma_counts(&self)
        requires
            self.wf(),
        ensures
            self.slots().dom().finite(),
            self.free().len() + self.slots().dom().len() == self.capacity(),
            forall|k: i128| #[trigger] self.slots().contains_key(k) ==> self.slots()[k] < self.capacity(),
    {
    }

    /// A table of `num_slots` free slots, handed out in increasing order.
    pub fn new(num_slots: u32) -> (r: ChunkIndexState)
        ensures
            r.wf(),
            r.capacity() == num_slots,
            r.slots().dom().len() == 0,
            r.free() == Seq::new(num_slots as nat, |i: int| i as u32),
    {
        let mut available_chunk_indices: VecDeque<u32> = VecDeque::new();
        let mut i: u32 = 0;
        while i < num_slots
            invariant
                i <= num_slots,
                available_chunk_indices@ == Seq::new(i as nat, |j: int| j as u32),
            decreases num_slots - i,
        {
            available_chunk_indices.push_back(i);
            i = i + 1;
            proof {
                assert(available_chunk_indices@ =~= Seq::new(i as nat, |j: int| j as u32));
            }
        }
        let r = ChunkIndexState {
            chunk_position_to_gpu_index: HashMap::new(),
            available_chunk_indices,
            num_slots,
        };
        proof {
            assert(r.chunk_position_to_gpu_index@.dom() =~= Set::<i128>::empty());
        }
        r
    }

    /// Frees the slots of the listed chunks; chunks without a slot are skipped.
    pub fn unload_chunk_positions(&mut self, chunk_positions: &Vec<ChunkPosition>)
        requires
            old(self).wf(),
        ensures
            final(self).wf(),
            final(self).capacity() == old(self).capacity(),
            forall|i: int|
                0 <= i < chunk_positions@.len() ==> !final(self).slots().contains_key(
                    position_key(#[trigger] chunk_positions@[i]),
                ),
            forall|k: i128|
                #[trigger] final(self).slots().contains_key(k) ==> old(self).slots().contains_key(k)
                    && final(self).slots()[k] == old(self).slots()[k],
            forall|k: i128|
                #[trigger] old(self).slots().contains_key(k) && (forall|i: int|
                    0 <= i < chunk_positions@.len() ==> position_key(#[trigger] chunk_positions@[i])
                        != k) ==> final(self).slots().contains_key(k),
            forall|i: int|
                0 <= i < chunk_positions@.len() && old(self).slots().contains_key(position_key(#[trigger] chunk_positions@[i]))
                    ==> final(self).free().contains(old(self).slots()[position_key(chunk_positions@[i])]),
    {
        let mut i: usize = 0;
        while i < chunk_positions.len()
            invariant
                i <= chunk_positions@.len(),
                self.wf(),
                self.num_slots == old(self).num_slots,
                forall|j: int|
                    0 <= j < i ==> !self.slots().contains_key(
                        position_key(#[trigger] chunk_positions@[j]),
                    ),
                forall|k: i128|
                    #[trigger] self.slots().contains_key(k) ==> old(self).slots().contains_key(k)
                        && self.slots()[k] == old(self).slots()[k],
                forall|k: i128|
                    #[trigger] old(self).slots().contains_key(k) && (forall|j: int|
                        0 <= j < i ==> position_key(#[trigger] chunk_positions@[j]) != k)
                        ==> self.slots().contains_key(k),
                forall|j: int|
                    0 <= j < i && old(self).slots().contains_key(position_key(#[trigger] chunk_positions@[j]))
                        ==> self.free().contains(old(self).slots()[position_key(chunk_positions@[j])]),
            decreases chunk_positions@.len() - i,
        {
            let key = chunk_positions[i].key();
            let ghost m0 = self.chunk_position_to_gpu_index@;
            assert(m0 == self.slots());
            let ghost f0 = self.available_chunk_indices@;
            if let Some(available_index) = self.chunk_position_to_gpu_index.remove(&key) {
                self.available_chunk_indices.push_back(available_index);
                proof {
                    assert(self.free() == f0.push(available_index));
                    assert forall|j: int|
                        0 <= j < i + 1 && old(self).slots().contains_key(position_key(#[trigger] chunk_positions@[j]))
                            implies self.free().contains(old(self).slots()[position_key(chunk_positions@[j])]) by {
                        if j < i {
                            let v = old(self).slots()[position_key(chunk_positions@[j])];
                            let w = choose|w: int| 0 <= w < f0.len() && f0[w] == v;
                            assert(self.free()[w] == v);
                        } else {
                            assert(m0.contains_key(key));
                            assert(old(self).slots()[key] == m0[key]);
                            assert(self.free()[f0.len() as int] == available_index);
                        }
                    }
                    let m = self.chunk_position_to_gpu_index@;
                    let f = self.available_chunk_indices@;
                    assert(m == m0.remove(key));
                    assert(m.dom() =~= m0.dom().remove(key));
                    assert forall|k: i128| #[trigger] m.contains_key(k) implies old(self).slots().contains_key(k)
                        && m[k] == old(self).slots()[k] by {
                        assert(m0.contains_key(k) && m[k] == m0[k]);
                        assert(self.slots().contains_key(k));
                    }
                    assert(f == f0.push(available_index));
                    assert forall|a: int, b: int| 0 <= a < f.len() && 0 <= b < f.len() && a != b implies f[a] != f[b] by {
                        if a == f.len() - 1 {
                            assert(m0.contains_key(key) && f[b] == f0[b]);
                        } else if b == f.len() - 1 {
                            assert(m0.contains_key(key) && f[a] == f0[a]);
                        }
                    }
                    assert forall|k: i128, j: int| #[trigger] m.contains_key(k) && 0 <= j < f.len() implies m[k] != #[trigger] f[j] by {
                        assert(m0.contains_key(k) && m0.contains_key(key) && k != key);
                        if j < f0.len() {
                            assert(f[j] == f0[j]);
                        }
                    }
                    assert forall|j: int| 0 <= j < f.len() implies #[trigger] f[j] < self.num_slots by {
                        if j < f0.len() {
                            assert(f[j] == f0[j]);
                        }
                    }
                }
            } else {
                proof {
                    assert(self.chunk_position_to_gpu_index@ =~= m0);
                    assert forall|j: int|
                        0 <= j < i + 1 && old(self).slots().contains_key(position_key(#[trigger] chunk_positions@[j]))
                            implies self.free().contains(old(self).slots()[position_key(chunk_positions@[j])]) by {
                        if j == i {
                            assert(!m0.contains_key(key));
                        }
                    }
                }
            }
            i = i + 1;
        }
    }

    /// Gives each listed chunk a slot (a chunk that already has one keeps it) and
    /// returns, per listed chunk, the write of its coordinates into the slot's
    /// entry of the chunk index buffer.
    pub fn load_chunk_positions(&mut self, chunk_positions: &Vec<ChunkPosition>) -> (r: Vec<
        BufferWriteCommand,
    >)
        requires
            old(self).wf(),
            chunk_positions@.len() <= old(self).free().len(),
        ensures
            final(self).wf(),
            final(self).capacity() == old(self).capacity(),
            forall|i: int|
                0 <= i < chunk_positions@.len() ==> final(self).slots().contains_key(
                    position_key(#[trigger] chunk_positions@[i]),
                ),
            forall|k: i128|
                #[trigger] old(self).slots().contains_key(k) ==> final(self).slots().contains_key(k)
                    && final(self).slots()[k] == old(self).slots()[k],
            forall|k: i128|
                #[trigger] final(self).slots().contains_key(k) ==> old(self).slots().contains_key(k)
                    || exists|i: int| 0 <= i < chunk_positions@.len() && position_key(#[trigger] chunk_positions@[i]) == k,
            forall|k: i128|
                #[trigger] final(self).slots().contains_key(k) && !old(self).slots().contains_key(k)
                    ==> old(self).free().contains(final(self).slots()[k]),
            final(self).free() == old(self).free().subrange(
                old(self).free().len() - final(self).free().len(),
                old(self).free().len() as int,
            ),
            r@.len() == chunk_positions@.len(),
            forall|i: int|
                0 <= i < chunk_positions@.len() ==> {
                    let p = chunk_positions@[i];
                    let slot = final(self).slots()[position_key(p)];
                    &&& (#[trigger] r@[i]).buffer_name == CHUNK_INDEX_BUFFER_NAME
                    &&& r@[i].offset == slot * CHUNK_INDEX_ENTRY_SIZE
                    &&& r@[i].data == WritePayload::Coordinates([p.x, p.y, p.z])
                },
    {
        let mut commands: Vec<BufferWriteCommand> = Vec::new();
        let mut i: usize = 0;
        while i < chunk_positions.len()
            invariant
                i <= chunk_positions@.len(),
                self.wf(),
                self.num_slots == old(self).num_slots,
                chunk_positions@.len() - i <= self.free().len(),
                forall|k: i128|
                    #[trigger] old(self).slots().contains_key(k) ==> self.slots().contains_key(k)
                        && self.slots()[k] == old(self).slots()[k],
                commands@.len() == i,
                forall|k: i128|
                    #[trigger] self.slots().contains_key(k) ==> old(self).slots().contains_key(k)
                        || exists|j: int| 0 <= j < i && position_key(#[trigger] chunk_positions@[j]) == k,
                forall|k: i128|
                    #[trigger] self.slots().contains_key(k) && !old(self).slots().contains_key(k)
                        ==> old(self).free().contains(self.slots()[k]),
                self.free().len() <= old(self).free().len(),
                self.free() == old(self).free().subrange(
                    old(self).free().len() - self.free().len(),
                    old(self).free().len() as int,
                ),
                forall|j: int|
                    0 <= j < i ==> {
                        let p = chunk_positions@[j];
                        let slot = self.slots()[position_key(p)];
                        &&& self.slots().contains_key(position_key(p))
                        &&& (#[trigger] commands@[j]).buffer_name == CHUNK_INDEX_BUFFER_NAME
                        &&& commands@[j].offset == slot * CHUNK_INDEX_ENTRY_SIZE
                        &&& commands@[j].data == WritePayload::Coordinates([p.x, p.y, p.z])
                    },
            decreases chunk_positions@.len() - i,
        {
            let pos = chunk_positions[i];
            let key = pos.key();
            let ghost s0 = self.slots();
            let ghost m0 = self.chunk_position_to_gpu_index@;
            let ghost f0 = self.available_chunk_indices@;
            let index = match self.chunk_position_to_gpu_index.get(&key) {
                Some(existing) => *existing,
                None => {
                    let fresh = self.available_chunk_indices.pop_front().unwrap();
                    self.chunk_position_to_gpu_index.insert(key, fresh);
                    proof {
                        let m = self.chunk_position_to_gpu_index@;
                        let f = self.available_chunk_indices@;
                        assert(f =~= f0.subrange(1, f0.len() as int));
                        let of = old(self).free();
                        let off = of.len() - f0.len();
                        assert(f0[0] == of[off]);
                        assert(f =~= of.subrange(of.len() - f.len(), of.len() as int));
                        assert forall|k: i128| #[trigger] m.contains_key(k) && !old(self).slots().contains_key(k)
                            implies of.contains(m[k]) by {
                            if k == key {
                                assert(of[off] == m[k]);
                            } else {
                                assert(m0.contains_key(k) && m[k] == m0[k]);
                            }
                        }
                        assert(m == m0.insert(key, fresh));
                        assert(m.dom() =~= m0.dom().insert(key));
                        assert(fresh == f0[0]);
                        assert forall|k1: i128, k2: i128|
                            #[trigger] m.contains_key(k1) && #[trigger] m.contains_key(k2) && k1 != k2 implies m[k1] != m[k2] by {
                            if k1 == key {
                                assert(m0.contains_key(k2));
                            } else if k2 == key {
                                assert(m0.contains_key(k1));
                            }
                        }
                        assert forall|k: i128, j: int| #[trigger] m.contains_key(k) && 0 <= j < f.len() implies m[k] != #[trigger] f[j] by {
                            assert(f[j] == f0[j + 1]);
                            if k != key {
                                assert(m0.contains_key(k));
                            }
                        }
                        assert forall|j: int| 0 <= j < f.len() implies #[trigger] f[j] < self.num_slots by {
                            assert(f[j] == f0[j + 1]);
                        }
                        assert(f.no_duplicates()) by {
                            assert forall|a: int, b: int| 0 <= a < f.len() && 0 <= b < f.len() && a != b implies f[a] != f[b] by {
                                assert(f[a] == f0[a + 1] && f[b] == f0[b + 1]);
                            }
                        }
                    }
                    fresh
                },
            };
            let ghost c0 = commands@;
            commands.push(
                BufferWriteCommand {
                    buffer_name: CHUNK_INDEX_BUFFER_NAME,
                    offset: index as u64 * CHUNK_INDEX_ENTRY_SIZE,
                    data: WritePayload::Coordinates([pos.x, pos.y, pos.z]),
                },
            );
            proof {
                assert forall|k: i128| #[trigger] self.slots().contains_key(k) implies old(self).slots().contains_key(k)
                    || exists|j: int| 0 <= j < i + 1 && position_key(#[trigger] chunk_positions@[j]) == k by {
                    if k == key {
                        assert(position_key(chunk_positions@[i as int]) == k);
                    } else {
                        assert(s0.contains_key(k));
                    }
                }
                assert forall|j: int| 0 <= j < i + 1 implies {
                    let p = chunk_positions@[j];
                    let slot = self.slots()[position_key(p)];
                    &&& self.slots().contains_key(position_key(p))
                    &&& (#[trigger] commands@[j]).buffer_name == CHUNK_INDEX_BUFFER_NAME
                    &&& commands@[j].offset == slot * CHUNK_INDEX_ENTRY_SIZE
                    &&& commands@[j].data == WritePayload::Coordinates([p.x, p.y, p.z])
                } by {
                    if j < i {
                        assert(commands@[j] == c0[j]);
                    }
                }
            }
            i = i + 1;
        }
        proof {
            assert forall|j: int| 0 <= j < chunk_positions@.len() implies self.slots().contains_key(
                position_key(#[trigger] chunk_positions@[j]),
            ) by {
                let c = commands@[j];
            }
        }
        commands
    }

    /// Whether a free slot is left.
    pub fn can_allocate_index(&self) -> (r: bool)
        requires
            self.wf(),
        ensures
            r == (self.free().len() > 0),
    {
        self.available_chunk_indices.len() > 0
    }

    /// The slot of a loaded chunk.
    pub fn get_index_for_position(&self, chunk_position: ChunkPosition) -> (r: u32)
        requires
            self.slots().contains_key(position_key(chunk_position)),
        ensures
            r == self.slots()[position_key(chunk_position)],
    {
        *self.chunk_position_to_gpu_index.get(&chunk_position.key()).unwrap()
    }
}

} // verus!
