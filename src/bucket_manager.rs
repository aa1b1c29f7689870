//! Fixed-capacity slots ("buckets") of GPU vertex and index memory, one free
//! queue per block side, with a record of which chunk owns which buckets.

use vstd::prelude::*;
use std::collections::{HashMap, VecDeque};
use crate::block::{BlockSide, side_at, side_index};
use crate::chunk::{ChunkPosition, position_key};
use crate::mesh::Vertex;

verus! {

broadcast use vstd::std_specs::hash::group_hash_axioms;

/// Buckets in one backing buffer.
pub const NUM_BUCKETS_PER_BUFFER: u64 = 2048;
/// Vertices one bucket holds.
pub const NUM_VERTICES_PER_BUCKET: u64 = 1024;
/// Indices one bucket holds: one and a half per vertex.
pub const NUM_INDICES_PER_BUCKET: u64 = 1536;
/// Bytes of one vertex on the GPU.
pub const VERTEX_SIZE: u64 = 28;
/// Bytes of one index.
pub const INDEX_SIZE: u64 = 4;
/// Bytes of one indexed indirect draw record.
pub const INDIRECT_ARGS_SIZE: u64 = 20;
/// Bytes of vertex memory per bucket.
pub const VERTEX_BUCKET_SIZE: u64 = 28672;
/// Bytes of index memory per bucket.
pub const INDEX_BUCKET_SIZE: u64 = 6144;

/// Where one bucket lives: its buffer, its byte offsets and its draw slot.
#[derive(PartialEq, Eq, Structural, Copy, Clone, Debug)]
pub struct BucketLocation {
    pub buffer_number: usize,
    /// Offset in the vertex buffer, in bytes.
    pub vertex_buffer_offset: u64,
    /// Offset in the index buffer, in bytes.
    pub index_buffer_offset: u64,
    /// Slot of this bucket's indirect draw record.
    pub indirect_bucket_index: u64,
    pub side: BlockSide,
}

/// Bucket number `k` of a side's initial free queue: buffers one after the
/// other, slots in order within each.
pub open spec fn initial_bucket(side: BlockSide, k: int) -> BucketLocation {
    let slot = k % 2048;
    BucketLocation {
        buffer_number: (k / 2048) as usize,
        vertex_buffer_offset: (slot * 28672) as u64,
        index_buffer_offset: (slot * 6144) as u64,
        indirect_bucket_index: slot as u64,
        side,
    }
}

/// Buckets needed for `n` vertices.
pub open spec fn buckets_needed(n: int) -> int {
    (n + 1023) / 1024
}

/// The buckets of one side in a list, in order.
pub open spec fn of_side(s: Seq<BucketLocation>, side: BlockSide) -> Seq<BucketLocation>
    decreases s.len(),
{
    if s.len() == 0 {
        s
    } else if s.last().side == side {
        of_side(s.drop_last(), side).push(s.last())
    } else {
        of_side(s.drop_last(), side)
    }
}

/// How many buckets of `side` the chunks of `m` own together.
pub open spec fn used_on_side(m: Map<i128, Vec<BucketLocation>>, side: BlockSide) -> int
    decreases m.dom().len(),
{
    if m.dom().finite() && m.dom().len() > 0 {
        let k = m.dom().choose();
        of_side(m[k]@, side).len() + used_on_side(m.remove(k), side)
    } else {
        0
    }
}

pub proof fn lemma_of_side_append(a: Seq<BucketLocation>, b: Seq<BucketLocation>, side: BlockSide)
    ensures
        of_side(a + b, side) == of_side(a, side) + of_side(b, side),
    decreases b.len(),
{
    if b.len() == 0 {
        assert(a + b =~= a);
        assert(of_side(a, side) + of_side(b, side) =~= of_side(a, side));
    } else {
        lemma_of_side_append(a, b.drop_last(), side);
        assert((a + b).drop_last() =~= a + b.drop_last());
        assert((a + b).last() == b.last());
        if b.last().side == side {
            assert(of_side(a, side) + of_side(b.drop_last(), side).push(b.last()) =~= (of_side(
                a,
                side,
            ) + of_side(b.drop_last(), side)).push(b.last()));
        }
    }
}

pub proof fn lemma_of_side_all(s: Seq<BucketLocation>, side: BlockSide)
    requires
        forall|k: int| 0 <= k < s.len() ==> (#[trigger] s[k]).side == side,
    ensures
        of_side(s, side) == s,
    decreases s.len(),
{
    if s.len() > 0 {
        lemma_of_side_all(s.drop_last(), side);
        assert(of_side(s.drop_last(), side).push(s.last()) =~= s);
    }
}

pub proof fn lemma_of_side_none(s: Seq<BucketLocation>, side: BlockSide)
    requires
        forall|k: int| 0 <= k < s.len() ==> (#[trigger] s[k]).side != side,
    ensures
        of_side(s, side).len() == 0,
    decreases s.len(),
{
    if s.len() > 0 {
        lemma_of_side_none(s.drop_last(), side);
    }
}

pub proof fn lemma_used_remove(m: Map<i128, Vec<BucketLocation>>, k: i128, side: BlockSide)
    requires
        m.dom().finite(),
        m.dom().contains(k),
    ensures
        used_on_side(m, side) == of_side(m[k]@, side).len() + used_on_side(m.remove(k), side),
    decreases m.dom().len(),
{
    let k0 = m.dom().choose();
    if k0 != k {
        let m0 = m.remove(k0);
        let mk = m.remove(k);
        assert(m0.dom().len() < m.dom().len());
        lemma_used_remove(m0, k, side);
        lemma_used_remove(mk, k0, side);
        assert(m0.remove(k) =~= mk.remove(k0));
    }
}

pub proof fn lemma_used_insert(
    m: Map<i128, Vec<BucketLocation>>,
    k: i128,
    v: Vec<BucketLocation>,
    side: BlockSide,
)
    requires
        m.dom().finite(),
    ensures
        used_on_side(m.insert(k, v), side) == of_side(v@, side).len() + used_on_side(m, side) - if m.dom().contains(k) {
            of_side(m[k]@, side).len() as int
        } else {
            0
        },
{
    let mi = m.insert(k, v);
    lemma_used_remove(mi, k, side);
    if m.dom().contains(k) {
        lemma_used_remove(m, k, side);
        assert(mi.remove(k) =~= m.remove(k));
    } else {
        assert(mi.remove(k) =~= m);
    }
}

pub proof fn lemma_used_empty(m: Map<i128, Vec<BucketLocation>>, side: BlockSide)
    requires
        m.dom().len() == 0,
        m.dom().finite(),
    ensures
        used_on_side(m, side) == 0,
{
}

/// The buckets given back when the chunks `ps` are unloaded one after the other
/// from ownership `m`, in that order.
pub open spec fn released(m: Map<i128, Vec<BucketLocation>>, ps: Seq<ChunkPosition>) -> Seq<
    BucketLocation,
>
    decreases ps.len(),
{
    if ps.len() == 0 {
        Seq::empty()
    } else {
        let k = position_key(ps[0]);
        (if m.contains_key(k) {
            m[k]@
        } else {
            Seq::empty()
        }) + released(m.remove(k), ps.subrange(1, ps.len() as int))
    }
}

/// Ownership after the chunks `ps` are unloaded from `m`.
pub open spec fn remaining(m: Map<i128, Vec<BucketLocation>>, ps: Seq<ChunkPosition>) -> Map<
    i128,
    Vec<BucketLocation>,
>
    decreases ps.len(),
{
    if ps.len() == 0 {
        m
    } else {
        remaining(m.remove(position_key(ps[0])), ps.subrange(1, ps.len() as int))
    }
}

/// No bucket is listed twice: not twice in one free queue or one chunk's list,
/// not for two chunks, and not both free and owned.
pub open spec fn buckets_distinct(free: Seq<VecDeque<BucketLocation>>, owned: Map<i128, Vec<BucketLocation>>) -> bool {
    &&& forall|t: int| 0 <= t < free.len() ==> (#[trigger] free[t])@.no_duplicates()
    &&& forall|k: i128| #[trigger] owned.contains_key(k) ==> owned[k]@.no_duplicates()
    &&& forall|k1: i128, k2: i128, i: int, j: int|
        owned.contains_key(k1) && owned.contains_key(k2) && k1 != k2 && 0 <= i < owned[k1]@.len() && 0 <= j
            < owned[k2]@.len() ==> #[trigger] owned[k1]@[i] != #[trigger] owned[k2]@[j]
    &&& forall|k: i128, i: int, t: int, j: int|
        owned.contains_key(k) && 0 <= i < owned[k]@.len() && 0 <= t < free.len() && 0 <= j < free[t]@.len()
            ==> #[trigger] owned[k]@[i] != #[trigger] free[t]@[j]
}

pub proof fn lemma_of_side_no_dup(s: Seq<BucketLocation>, side: BlockSide)
    requires
        s.no_duplicates(),
    ensures
        of_side(s, side).no_duplicates(),
    decreases s.len(),
{
    if s.len() > 0 {
        let init = s.drop_last();
        assert(init.no_duplicates()) by {
            assert forall|a: int, b: int| 0 <= a < init.len() && 0 <= b < init.len() && a != b implies init[a] != init[b] by {
                assert(init[a] == s[a] && init[b] == s[b]);
            }
        }
        lemma_of_side_no_dup(init, side);
        if s.last().side == side {
            let o = of_side(init, side);
            assert forall|a: int, b: int| 0 <= a < o.len() + 1 && 0 <= b < o.len() + 1 && a != b implies o.push(s.last())[a]
                != o.push(s.last())[b] by {
                if a == o.len() || b == o.len() {
                    let x = if a == o.len() { b } else { a };
                    lemma_of_side_subset(init, side, x);
                    let w = choose|w: int| 0 <= w < init.len() && init[w] == #[trigger] of_side(init, side)[x];
                    assert(s[w] == init[w]);
                    assert(s[s.len() - 1] == s.last());
                }
            }
        }
    }
}

/// Giving a chunk's buckets back to the free queues keeps every bucket listed
/// once.
pub proof fn lemma_distinct_after_release(
    a0: Seq<VecDeque<BucketLocation>>,
    m: Map<i128, Vec<BucketLocation>>,
    key: i128,
    avail: Seq<VecDeque<BucketLocation>>,
)
    requires
        buckets_distinct(a0, m),
        m.contains_key(key),
        a0.len() == 6,
        avail.len() == 6,
        forall|u: int| 0 <= u < 6 ==> (#[trigger] avail[u])@ == a0[u]@ + of_side(m[key]@, side_at(u)),
    ensures
        buckets_distinct(avail, m.remove(key)),
{
    let v = m[key]@;
    let m2 = m.remove(key);
    assert forall|u: int| 0 <= u < avail.len() implies (#[trigger] avail[u])@.no_duplicates() by {
        let os = of_side(v, side_at(u));
        lemma_of_side_no_dup(v, side_at(u));
        assert(a0[u]@.no_duplicates());
        let all = avail[u]@;
        assert forall|a: int, b: int| 0 <= a < all.len() && 0 <= b < all.len() && a != b implies all[a] != all[b] by {
            let n0 = a0[u]@.len() as int;
            if a < n0 && b < n0 {
                assert(all[a] == a0[u]@[a] && all[b] == a0[u]@[b]);
            } else if a >= n0 && b >= n0 {
                assert(all[a] == os[a - n0] && all[b] == os[b - n0]);
            } else {
                let (x, y) = if a < n0 { (a, b) } else { (b, a) };
                lemma_of_side_subset(v, side_at(u), y - n0);
                let w = choose|w: int| 0 <= w < v.len() && v[w] == #[trigger] of_side(v, side_at(u))[y - n0];
                assert(all[x] == a0[u]@[x]);
                assert(all[y] == v[w]);
                assert(v[w] != a0[u]@[x]);
            }
        }
    }
    assert forall|k: i128, i: int, t: int, j: int|
        m2.contains_key(k) && 0 <= i < m2[k]@.len() && 0 <= t < avail.len() && 0 <= j < avail[t]@.len()
            implies #[trigger] m2[k]@[i] != #[trigger] avail[t]@[j] by {
        let n0 = a0[t]@.len() as int;
        assert(m.contains_key(k) && k != key && m2[k] == m[k]);
        if j < n0 {
            assert(avail[t]@[j] == a0[t]@[j]);
        } else {
            lemma_of_side_subset(v, side_at(t), j - n0);
            let w = choose|w: int| 0 <= w < v.len() && v[w] == #[trigger] of_side(v, side_at(t))[j - n0];
            assert(avail[t]@[j] == v[w]);
            assert(m[k]@[i] != m[key]@[w]);
        }
    }
    assert forall|k1: i128, k2: i128, i: int, j: int|
        m2.contains_key(k1) && m2.contains_key(k2) && k1 != k2 && 0 <= i < m2[k1]@.len() && 0 <= j < m2[k2]@.len()
            implies #[trigger] m2[k1]@[i] != #[trigger] m2[k2]@[j] by {
        assert(m2[k1] == m[k1] && m2[k2] == m[k2]);
    }
    assert forall|k: i128| #[trigger] m2.contains_key(k) implies m2[k]@.no_duplicates() by {
        assert(m2[k] == m[k]);
    }
}

/// Free queues and ownership records of the bucket pool.
pub struct MeshBucketManager {
    available_buckets: Vec<VecDeque<BucketLocation>>,
    chunk_position_to_used_buckets: HashMap<i128, Vec<BucketLocation>>,
    buckets_per_side: usize,
}

impl MeshBucketManager {
    /// The free queue of side number `t`.
    pub closed spec fn free(&self, t: int) -> Seq<BucketLocation> {
        self.available_buckets@[t]@
    }

    /// The buckets each chunk owns, by chunk key.
    pub closed spec fn owned(&self) -> Map<i128, Vec<BucketLocation>> {
        self.chunk_position_to_used_buckets@
    }

    /// Buckets per side in the whole pool.
    pub closed spec fn capacity(&self) -> int {
        self.buckets_per_side as int
    }

    /// Every free bucket sits in the queue of its side, and for each side the free
    /// buckets and the owned ones together make up the whole pool.
    pub closed spec fn wf(&self) -> bool {
        &&& self.available_buckets@.len() == 6
        &&& self.chunk_position_to_used_buckets@.dom().finite()
        &&& forall|t: int, k: int|
            0 <= t < 6 && 0 <= k < self.available_buckets@[t]@.len()
                ==> (#[trigger] self.available_buckets@[t]@[k]).side == side_at(t)
        &&& forall|t: int, k: int|
            0 <= t < 6 && 0 <= k < self.available_buckets@[t]@.len()
                ==> (#[trigger] self.available_buckets@[t]@[k]).indirect_bucket_index < NUM_BUCKETS_PER_BUFFER
        &&& forall|key: i128, j: int|
            #[trigger] self.chunk_position_to_used_buckets@.contains_key(key) && 0 <= j
                < self.chunk_position_to_used_buckets@[key]@.len()
                ==> (#[trigger] self.chunk_position_to_used_buckets@[key]@[j]).indirect_bucket_index
                < NUM_BUCKETS_PER_BUFFER
        &&& forall|t: int|
            0 <= t < 6 ==> (#[trigger] self.available_buckets@[t]@).len() + used_on_side(
                self.chunk_position_to_used_buckets@,
                side_at(t),
            ) == self.buckets_per_side
        &&& buckets_distinct(self.available_buckets@, self.chunk_position_to_used_buckets@)
    }

    /// The free-bucket count of side number `t`.
    pub closed spec fn free_count(&self, t: int) -> int {
        self.available_buckets@[t]@.len() as int
    }

    /// A pool of `num_buffers_per_side` buffers of 2048 buckets for each side, all
    /// free, owned by no chunk.
    pub fn new(num_buffers_per_side: usize) -> (r: MeshBucketManager)
        requires
            num_buffers_per_side * 2048 <= usize::MAX,
        ensures
            r.wf(),
            r.capacity() == num_buffers_per_side * 2048,
            r.owned().dom().len() == 0,
            forall|t: int, k: int|
                0 <= t < 6 && 0 <= k < num_buffers_per_side * 2048 ==> #[trigger] r.free(t)[k]
                    == initial_bucket(side_at(t), k),
            forall|t: int| 0 <= t < 6 ==> (#[trigger] r.free(t)).len() == num_buffers_per_side * 2048,
    {
        let mut available_buckets: Vec<VecDeque<BucketLocation>> = Vec::new();
        let total = num_buffers_per_side * 2048;
        let mut t: usize = 0;
        while t < 6
            invariant
                t <= 6,
                total == num_buffers_per_side * 2048,
                available_buckets@.len() == t,
                forall|u: int| 0 <= u < t ==> (#[trigger] available_buckets@[u])@.len() == total,
                forall|u: int, k: int|
                    0 <= u < t && 0 <= k < total ==> #[trigger] available_buckets@[u]@[k]
                        == initial_bucket(side_at(u), k),
            decreases 6 - t,
        {
            let side = BlockSide::from_index(t);
            let mut queue: VecDeque<BucketLocation> = VecDeque::new();
            let mut buffer_number: usize = 0;
            while buffer_number < num_buffers_per_side
                invariant
                    buffer_number <= num_buffers_per_side,
                    num_buffers_per_side * 2048 <= usize::MAX,
                    queue@.len() == buffer_number * 2048,
                    forall|k: int| 0 <= k < queue@.len() ==> #[trigger] queue@[k] == initial_bucket(side, k),
                decreases num_buffers_per_side - buffer_number,
            {
                let mut bucket_index: u64 = 0;
                while bucket_index < NUM_BUCKETS_PER_BUFFER
                    invariant
                        buffer_number < num_buffers_per_side,
                        num_buffers_per_side * 2048 <= usize::MAX,
                        bucket_index <= 2048,
                        queue@.len() == buffer_number * 2048 + bucket_index,
                        forall|k: int| 0 <= k < queue@.len() ==> #[trigger] queue@[k] == initial_bucket(side, k),
                    decreases 2048 - bucket_index,
                {
                    proof {
                        let k = buffer_number * 2048 + bucket_index;
                        vstd::arithmetic::div_mod::lemma_fundamental_div_mod_converse(
                            k,
                            2048,
                            buffer_number as int,
                            bucket_index as int,
                        );
                        assert(buffer_number * 2048 + 2048 <= num_buffers_per_side * 2048) by (nonlinear_arith)
                            requires buffer_number < num_buffers_per_side;
                    }
                    queue.push_back(
                        BucketLocation {
                            buffer_number,
                            vertex_buffer_offset: bucket_index * VERTEX_BUCKET_SIZE,
                            index_buffer_offset: bucket_index * INDEX_BUCKET_SIZE,
                            indirect_bucket_index: bucket_index,
                            side,
                        },
                    );
                    bucket_index = bucket_index + 1;
                }
                proof {
                    assert(buffer_number * 2048 + 2048 == (buffer_number + 1) * 2048) by (nonlinear_arith);
                }
                buffer_number = buffer_number + 1;
            }
            available_buckets.push(queue);
            t = t + 1;
        }
        let r = MeshBucketManager {
            available_buckets,
            chunk_position_to_used_buckets: HashMap::new(),
            buckets_per_side: total,
        };
        proof {
            assert forall|t: int, k: int|
                0 <= t < 6 && 0 <= k < r.available_buckets@[t]@.len()
                    implies (#[trigger] r.available_buckets@[t]@[k]).side == side_at(t) by {
                assert(r.available_buckets@[t]@[k] == initial_bucket(side_at(t), k));
            }
            assert forall|t: int, k: int|
                0 <= t < 6 && 0 <= k < r.available_buckets@[t]@.len()
                    implies (#[trigger] r.available_buckets@[t]@[k]).indirect_bucket_index < NUM_BUCKETS_PER_BUFFER by {
                assert(r.available_buckets@[t]@[k] == initial_bucket(side_at(t), k));
            }
            assert forall|t: int| 0 <= t < 6 implies (#[trigger] r.available_buckets@[t]@).len() + used_on_side(
                r.chunk_position_to_used_buckets@,
                side_at(t),
            ) == r.buckets_per_side by {
                lemma_used_empty(r.chunk_position_to_used_buckets@, side_at(t));
            }
        }
        r
    }

    /// Whether every side has enough free buckets for the given vertex counts.
    pub fn can_allocate_buckets(&self, num_vertices_per_side: [u64; 6]) -> (r: bool)
        requires
            self.wf(),
        ensures
            r == forall|t: int|
                0 <= t < 6 ==> buckets_needed(#[trigger] num_vertices_per_side@[t] as int) <= self.free(
                    t,
                ).len(),
    {
        let mut t: usize = 0;
        while t < 6
            invariant
                t <= 6,
                self.wf(),
                forall|u: int|
                    0 <= u < t ==> buckets_needed(#[trigger] num_vertices_per_side@[u] as int) <= self.free(
                        u,
                    ).len(),
            decreases 6 - t,
        {
            let num_vertices = num_vertices_per_side[t];
            let num_buckets_needed = num_vertices / NUM_VERTICES_PER_BUCKET + if num_vertices
                % NUM_VERTICES_PER_BUCKET != 0 {
                1
            } else {
                0
            };
            proof {
                lemma_buckets_needed(num_vertices as int);
            }
            if (self.available_buckets[t].len() as u64) < num_buckets_needed {
                return false;
            }
            t = t + 1;
        }
        true
    }

    /// Splits one side's vertex and index lists into buckets taken from the front
    /// of that side's free queue, and records them as owned by the chunk.
    ///
    /// Bucket `b` gets vertices `1024 b ..` (at most 1024) and indices `1536 b ..`
    /// (one and a half per vertex), each index lowered by `1024 b` so that it
    /// counts from the bucket's first vertex.
    #[verifier::rlimit(80)]
    pub fn allocate_buckets(
        &mut self,
        chunk_position: ChunkPosition,
        vertex_vec: Vec<Vertex>,
        index_vec: Vec<u32>,
        side: BlockSide,
    ) -> (r: Vec<(BucketLocation, Vec<Vertex>, Vec<u32>)>)
        requires
            old(self).wf(),
            index_vec@.len() == vertex_vec@.len() * 3 / 2,
            vertex_vec@.len() <= u32::MAX,
            buckets_needed(vertex_vec@.len() as int) <= old(self).free(side_index(side) as int).len(),
            forall|p: int|
                0 <= p < index_vec@.len() ==> #[trigger] index_vec@[p] >= 1024 * (p / 1536),
        ensures
            final(self).wf(),
            final(self).capacity() == old(self).capacity(),
            ({
                let n = buckets_needed(vertex_vec@.len() as int);
                let t = side_index(side) as int;
                let key = position_key(chunk_position);
                let taken = old(self).free(t).subrange(0, n);
                &&& r@.len() == n
                &&& Self::took_buckets(*old(self), *final(self), key, t, n)
                &&& forall|b1: int, b2: int| 0 <= b1 < n && 0 <= b2 < n && b1 != b2 ==> (#[trigger] r@[b1]).0 != (#[trigger] r@[b2]).0
                &&& forall|b: int|
                    0 <= b < n ==> {
                        let (bucket, vs, is) = #[trigger] r@[b];
                        let vc = if vertex_vec@.len() - 1024 * b < 1024 {
                            vertex_vec@.len() - 1024 * b
                        } else {
                            1024
                        };
                        &&& bucket == taken[b]
                        &&& vs@ == vertex_vec@.subrange(1024 * b, 1024 * b + vc)
                        &&& is@.len() == vc * 3 / 2
                        &&& 0 < vs@.len() <= NUM_VERTICES_PER_BUCKET
                        &&& is@.len() <= NUM_INDICES_PER_BUCKET
                        &&& forall|p: int|
                            0 <= p < is@.len() ==> #[trigger] is@[p] == index_vec@[1536 * b + p] - 1024 * b
                    }
            }),
    {
        let t = side.index();
        let ghost free0 = self.available_buckets@[t as int]@;
        let nv = vertex_vec.len();
        let ni = index_vec.len();
        let num_buckets_needed = nv / 1024 + if nv % 1024 != 0 {
            1
        } else {
            0
        };
        proof {
            lemma_buckets_needed(nv as int);
        }
        let mut allocated_buckets: Vec<(BucketLocation, Vec<Vertex>, Vec<u32>)> = Vec::new();
        let mut used_buckets: Vec<BucketLocation> = Vec::new();
        let mut current_vertex_count: u32 = 0;
        let mut b: usize = 0;
        while b < num_buckets_needed
            invariant
                b <= num_buckets_needed,
                num_buckets_needed == buckets_needed(nv as int),
                num_buckets_needed * 1024 < nv + 1024,
                num_buckets_needed * 1024 >= nv,
                nv == vertex_vec@.len(),
                ni == index_vec@.len(),
                ni == nv * 3 / 2,
                nv <= u32::MAX,
                t == side_index(side),
                num_buckets_needed <= free0.len(),
                current_vertex_count == if 1024 * b < nv { 1024 * b } else { nv as int },
                self.available_buckets@.len() == 6,
                self.available_buckets@[t as int]@ == free0.subrange(b as int, free0.len() as int),
                forall|u: int| 0 <= u < 6 && u != t ==> #[trigger] self.available_buckets@[u] == old(
                    self,
                ).available_buckets@[u],
                self.chunk_position_to_used_buckets == old(self).chunk_position_to_used_buckets,
                self.buckets_per_side == old(self).buckets_per_side,
                used_buckets@ == free0.subrange(0, b as int),
                allocated_buckets@.len() == b,
                forall|p: int|
                    0 <= p < index_vec@.len() ==> #[trigger] index_vec@[p] >= 1024 * (p / 1536),
                forall|bb: int|
                    0 <= bb < b ==> {
                        let (bucket, vs, is) = #[trigger] allocated_buckets@[bb];
                        let vc = if nv - 1024 * bb < 1024 {
                            nv - 1024 * bb
                        } else {
                            1024
                        };
                        &&& bucket == free0[bb]
                        &&& vs@ == vertex_vec@.subrange(1024 * bb, 1024 * bb + vc)
                        &&& is@.len() == vc * 3 / 2
                        &&& 0 < vs@.len() <= NUM_VERTICES_PER_BUCKET
                        &&& is@.len() <= NUM_INDICES_PER_BUCKET
                        &&& forall|p: int|
                            0 <= p < is@.len() ==> #[trigger] is@[p] == index_vec@[1536 * bb + p] - 1024 * bb
                    },
            decreases num_buckets_needed - b,
        {
            let bucket = self.available_buckets[t].pop_front().unwrap();
            let start_v: usize = b * 1024;
            let remaining = nv - start_v;
            let vertex_count: usize = if remaining < 1024 {
                remaining
            } else {
                1024
            };
            let index_count: usize = vertex_count * 3 / 2;
            let start_i: usize = b * 1536;
            proof {
                assert(1024 * b < nv) by (nonlinear_arith)
                    requires b < num_buckets_needed, num_buckets_needed * 1024 < nv + 1024;
                assert(start_i + index_count <= ni) by (nonlinear_arith)
                    requires
                        start_i == b * 1536,
                        start_v == b * 1024,
                        index_count == vertex_count * 3 / 2,
                        ni == nv * 3 / 2,
                        vertex_count + start_v <= nv,
                ;
            }
            let mut bucket_vertices: Vec<Vertex> = Vec::new();
            let mut k: usize = 0;
            while k < vertex_count
                invariant
                    k <= vertex_count,
                    start_v + vertex_count <= nv,
                    nv == vertex_vec@.len(),
                    bucket_vertices@ == vertex_vec@.subrange(start_v as int, start_v + k),
                decreases vertex_count - k,
            {
                bucket_vertices.push(vertex_vec[start_v + k]);
                k = k + 1;
                proof {
                    assert(bucket_vertices@ =~= vertex_vec@.subrange(start_v as int, start_v + k));
                }
            }
            let mut bucket_indices: Vec<u32> = Vec::new();
            let mut k: usize = 0;
            while k < index_count
                invariant
                    k <= index_count,
                    index_count <= 1536,
                    start_i == b * 1536,
                    current_vertex_count == 1024 * b,
                    start_i + index_count <= ni,
                    ni == index_vec@.len(),
                    forall|p: int|
                        0 <= p < index_vec@.len() ==> #[trigger] index_vec@[p] >= 1024 * (p / 1536),
                    bucket_indices@.len() == k,
                    forall|p: int|
                        0 <= p < k ==> #[trigger] bucket_indices@[p] == index_vec@[start_i + p] - 1024 * b,
                decreases index_count - k,
            {
                let value = index_vec[start_i + k];
                proof {
                    let pp = start_i + k;
                    vstd::arithmetic::div_mod::lemma_fundamental_div_mod_converse(pp as int, 1536, b as int, k as int);
                    assert(index_vec@[pp as int] >= 1024 * (pp / 1536));
                }
                bucket_indices.push(value - current_vertex_count);
                k = k + 1;
            }
            proof {
                assert(free0.subrange(b as int, free0.len() as int)[0] == free0[b as int]);
                assert(self.available_buckets@[t as int]@ =~= free0.subrange(b + 1, free0.len() as int));
                assert(used_buckets@.push(bucket) =~= free0.subrange(0, b + 1));
                assert(vertex_count > 0) by (nonlinear_arith)
                    requires
                        b < num_buckets_needed,
                        num_buckets_needed * 1024 < nv + 1024,
                        remaining == nv - b * 1024,
                        vertex_count == if remaining < 1024 { remaining } else { 1024 };
            }
            current_vertex_count = current_vertex_count + vertex_count as u32;
            used_buckets.push(bucket);
            allocated_buckets.push((bucket, bucket_vertices, bucket_indices));
            b = b + 1;
        }
        let key = chunk_position.key();
        let ghost owned0 = self.chunk_position_to_used_buckets@;
        let ghost taken = used_buckets@;
        let prior = self.chunk_position_to_used_buckets.remove(&key);
        match prior {
            Some(mut prior_buckets) => {
                prior_buckets.append(&mut used_buckets);
                self.chunk_position_to_used_buckets.insert(key, prior_buckets);
            },
            None => {
                self.chunk_position_to_used_buckets.insert(key, used_buckets);
            },
        }
        proof {
            let owned1 = self.chunk_position_to_used_buckets@;
            let newv = owned1[key];
            assert(owned1 == owned0.insert(key, newv));
            assert(owned1.remove(key) =~= owned0.remove(key));
            if owned0.contains_key(key) {
                assert(newv@ =~= owned0[key]@ + taken);
            } else {
                assert(newv@ =~= Seq::<BucketLocation>::empty() + taken);
            }
            assert forall|k: int| 0 <= k < taken.len() implies (#[trigger] taken[k]).side == side by {
                assert(taken[k] == free0[k]);
            }
            assert forall|u: int| 0 <= u < 6 implies (#[trigger] self.available_buckets@[u]@).len()
                + used_on_side(owned1, side_at(u)) == self.buckets_per_side by {
                lemma_used_insert(owned0, key, newv, side_at(u));
                if owned0.contains_key(key) {
                    lemma_of_side_append(owned0[key]@, taken, side_at(u));
                }
                if u == t {
                    lemma_of_side_all(taken, side);
                    assert(side_at(u) == side);
                } else {
                    assert(side_at(u) != side);
                    lemma_of_side_none(taken, side_at(u));
                }
                if !owned0.contains_key(key) {
                    assert(newv@ =~= taken);
                }
            }
            assert forall|u: int, k: int|
                0 <= u < 6 && 0 <= k < self.available_buckets@[u]@.len()
                    implies (#[trigger] self.available_buckets@[u]@[k]).side == side_at(u)
                    && self.available_buckets@[u]@[k].indirect_bucket_index < NUM_BUCKETS_PER_BUFFER by {
                if u == t {
                    assert(self.available_buckets@[u]@[k] == free0[k + b]);
                } else {
                    assert(self.available_buckets@[u] == old(self).available_buckets@[u]);
                }
            }
            assert forall|kk: i128, j: int|
                #[trigger] owned1.contains_key(kk) && 0 <= j < owned1[kk]@.len()
                    implies (#[trigger] owned1[kk]@[j]).indirect_bucket_index < NUM_BUCKETS_PER_BUFFER by {
                if kk == key {
                    if owned0.contains_key(key) && j < owned0[key]@.len() {
                        assert(owned1[kk]@[j] == owned0[key]@[j]);
                    } else {
                        let off = if owned0.contains_key(key) { owned0[key]@.len() as int } else { 0 };
                        assert(owned1[kk]@[j] == taken[j - off]);
                        assert(taken[j - off] == free0[j - off]);
                    }
                } else {
                    assert(owned1.remove(key).contains_key(kk));
                    assert(owned1[kk] == owned0[kk]);
                }
            }
            assert(free0.no_duplicates());
            assert forall|b1: int, b2: int| 0 <= b1 < num_buckets_needed && 0 <= b2 < num_buckets_needed && b1 != b2
                implies (#[trigger] allocated_buckets@[b1]).0 != (#[trigger] allocated_buckets@[b2]).0 by {
                assert(allocated_buckets@[b1].0 == free0[b1]);
                assert(allocated_buckets@[b2].0 == free0[b2]);
            }
        }
        allocated_buckets
    }

    /// Gives every bucket owned by the listed chunks back to its side's free
    /// queue, forgets their ownership, and returns the buckets in release order.
    pub fn deallocate_buckets(&mut self, chunk_positions: &Vec<ChunkPosition>) -> (r: Vec<
        BucketLocation,
    >)
        requires
            old(self).wf(),
        ensures
            final(self).wf(),
            final(self).capacity() == old(self).capacity(),
            Self::gave_back(*old(self), *final(self), chunk_positions@, r@),
    {
        let ghost ps = chunk_positions@;
        let ghost m0 = self.chunk_position_to_used_buckets@;
        let ghost f0 = self.available_buckets@;
        proof {
            assert(f0.len() == 6);
        }
        let mut buckets_deallocated: Vec<BucketLocation> = Vec::new();
        let mut i: usize = 0;
        proof {
            assert(ps.subrange(0, ps.len() as int) =~= ps);
        }
        while i < chunk_positions.len()
            invariant
                i <= ps.len(),
                ps == chunk_positions@,
                self.wf(),
                self.buckets_per_side == old(self).buckets_per_side,
                f0.len() == 6,
                buckets_deallocated@ + released(
                    self.chunk_position_to_used_buckets@,
                    ps.subrange(i as int, ps.len() as int),
                ) == released(m0, ps),
                remaining(self.chunk_position_to_used_buckets@, ps.subrange(i as int, ps.len() as int))
                    == remaining(m0, ps),
                forall|u: int|
                    0 <= u < 6 ==> #[trigger] self.available_buckets@[u]@ == f0[u]@ + of_side(
                        buckets_deallocated@,
                        side_at(u),
                    ),
            decreases ps.len() - i,
        {
            let key = chunk_positions[i].key();
            let ghost m_i = self.chunk_position_to_used_buckets@;
            let ghost rest = ps.subrange(i as int, ps.len() as int);
            proof {
                assert(self.available_buckets@.len() == 6);
                assert(rest[0] == ps[i as int]);
                assert(rest.subrange(1, rest.len() as int) =~= ps.subrange(i + 1, ps.len() as int));
            }
            let removed = self.chunk_position_to_used_buckets.remove(&key);
            if let Some(owned_buckets) = removed {
                let ghost d0 = buckets_deallocated@;
                let ghost a0 = self.available_buckets@;
                let mut j: usize = 0;
                while j < owned_buckets.len()
                    invariant
                        j <= owned_buckets@.len(),
                        self.available_buckets@.len() == 6,
                        a0.len() == 6,
                        f0.len() == 6,
                        self.chunk_position_to_used_buckets@ == m_i.remove(key),
                        self.buckets_per_side == old(self).buckets_per_side,
                        forall|u: int|
                            0 <= u < 6 ==> (#[trigger] a0[u])@.len() + used_on_side(m_i, side_at(u))
                                == self.buckets_per_side,
                        forall|u: int|
                            0 <= u < 6 ==> #[trigger] a0[u]@ == f0[u]@ + of_side(d0, side_at(u)),
                        buckets_deallocated@ == d0 + owned_buckets@.subrange(0, j as int),
                        forall|u: int|
                            0 <= u < 6 ==> #[trigger] self.available_buckets@[u]@ == a0[u]@ + of_side(
                                owned_buckets@.subrange(0, j as int),
                                side_at(u),
                            ),
                    decreases owned_buckets@.len() - j,
                {
                    let bucket = owned_buckets[j];
                    let bt = bucket.side.index();
                    proof {
                        crate::block::lemma_side_index_round_trip(bucket.side);
                        assert(owned_buckets@.subrange(0, j + 1).drop_last() =~= owned_buckets@.subrange(0, j as int));
                    }
                    self.available_buckets[bt].push_back(bucket);
                    buckets_deallocated.push(bucket);
                    proof {
                        assert(buckets_deallocated@ =~= d0 + owned_buckets@.subrange(0, j + 1));
                        assert forall|u: int| 0 <= u < 6 implies #[trigger] self.available_buckets@[u]@ == a0[u]@ + of_side(
                            owned_buckets@.subrange(0, j + 1),
                            side_at(u),
                        ) by {
                            if u == bt {
                                assert(self.available_buckets@[u]@ =~= (a0[u]@ + of_side(
                                    owned_buckets@.subrange(0, j as int), side_at(u))).push(bucket));
                            } else {
                                assert(side_at(u) != bucket.side);
                            }
                        }
                    }
                    j = j + 1;
                }
                proof {
                    let v = owned_buckets@;
                    assert(v.subrange(0, v.len() as int) =~= v);
                    let m_next = self.chunk_position_to_used_buckets@;
                    assert forall|u: int| 0 <= u < 6 implies (#[trigger] self.available_buckets@[u])@ == a0[u]@ + of_side(
                        m_i[key]@, side_at(u)) by {}
                    assert(buckets_distinct(a0, m_i));
                    lemma_distinct_after_release(a0, m_i, key, self.available_buckets@);
                    assert(m_next == m_i.remove(key));
                    assert(m_i.contains_key(key) && m_i[key] == owned_buckets);
                    assert(buckets_deallocated@ + released(m_next, ps.subrange(i + 1, ps.len() as int))
                        =~= d0 + released(m_i, rest));
                    assert forall|u: int| 0 <= u < 6 implies #[trigger] self.available_buckets@[u]@ == f0[u]@ + of_side(
                        buckets_deallocated@,
                        side_at(u),
                    ) by {
                        lemma_of_side_append(d0, v, side_at(u));
                        assert(a0[u]@ == f0[u]@ + of_side(d0, side_at(u)));
                        lemma_used_remove(m_i, key, side_at(u));
                    }
                    assert forall|u: int| 0 <= u < 6 implies (#[trigger] self.available_buckets@[u]@).len()
                        + used_on_side(m_next, side_at(u)) == self.buckets_per_side by {
                        lemma_used_remove(m_i, key, side_at(u));
                        assert(a0[u]@.len() + used_on_side(m_i, side_at(u)) == self.buckets_per_side);
                    }
                    assert forall|u: int, k: int|
                        0 <= u < 6 && 0 <= k < self.available_buckets@[u]@.len()
                            implies (#[trigger] self.available_buckets@[u]@[k]).indirect_bucket_index < NUM_BUCKETS_PER_BUFFER by {
                        if k >= a0[u]@.len() {
                            lemma_of_side_subset(v, side_at(u), k - a0[u]@.len());
                        } else {
                            assert(self.available_buckets@[u]@[k] == a0[u]@[k]);
                        }
                    }
                    assert forall|kk: i128, j: int|
                        #[trigger] m_next.contains_key(kk) && 0 <= j < m_next[kk]@.len()
                            implies (#[trigger] m_next[kk]@[j]).indirect_bucket_index < NUM_BUCKETS_PER_BUFFER by {
                        assert(m_i.contains_key(kk) && m_next[kk] == m_i[kk]);
                    }
                    assert forall|u: int, k: int|
                        0 <= u < 6 && 0 <= k < self.available_buckets@[u]@.len()
                            implies (#[trigger] self.available_buckets@[u]@[k]).side == side_at(u) by {
                        lemma_of_side_sides(buckets_deallocated@, side_at(u));
                        if k >= f0[u]@.len() {
                            assert(self.available_buckets@[u]@[k] == of_side(buckets_deallocated@, side_at(u))[k - f0[u]@.len()]);
                        } else {
                            assert(self.available_buckets@[u]@[k] == f0[u]@[k]);
                        }
                    }
                }
            } else {
                proof {
                    assert(self.chunk_position_to_used_buckets@ =~= m_i.remove(key));
                    assert(self.chunk_position_to_used_buckets@ =~= m_i);
                    assert(released(m_i, rest) =~= released(m_i.remove(key), ps.subrange(i + 1, ps.len() as int)));
                }
            }
            proof {
                assert(self.chunk_position_to_used_buckets@.dom() =~= m_i.dom().remove(key));
                assert(self.chunk_position_to_used_buckets@.dom().finite());
                assert(self.available_buckets@.len() == 6);
            }
            i = i + 1;
        }
        proof {
            assert(ps.subrange(ps.len() as int, ps.len() as int) =~= Seq::<ChunkPosition>::empty());
            assert(buckets_deallocated@ =~= released(m0, ps));
        }
        buckets_deallocated
    }

    /// `new` is `old` after the chunk keyed `key` took the first `n` free buckets
    /// of side number `t`.
    pub open spec fn took_buckets(old: Self, new: Self, key: i128, t: int, n: int) -> bool {
        let taken = old.free(t).subrange(0, n);
        &&& new.free(t) == old.free(t).subrange(n, old.free(t).len() as int)
        &&& forall|u: int| 0 <= u < 6 && u != t ==> #[trigger] new.free(u) == old.free(u)
        &&& new.owned().contains_key(key)
        &&& new.owned()[key]@ == (if old.owned().contains_key(key) {
            old.owned()[key]@
        } else {
            Seq::empty()
        }) + taken
        &&& new.owned().remove(key) == old.owned().remove(key)
    }

    /// `new` is `old` after the chunks `ps` were unloaded, releasing `r`.
    pub open spec fn gave_back(old: Self, new: Self, ps: Seq<ChunkPosition>, r: Seq<BucketLocation>) -> bool {
        &&& r == released(old.owned(), ps)
        &&& new.owned() == remaining(old.owned(), ps)
        &&& forall|u: int| 0 <= u < 6 ==> #[trigger] new.free(u) == old.free(u) + of_side(r, side_at(u))
    }

    /// The number of free buckets of `side`.
    pub fn free_bucket_count(&self, side: BlockSide) -> (r: usize)
        requires
            self.wf(),
        ensures
            r == self.free(side_index(side) as int).len(),
    {
        self.available_buckets[side.index()].len()
    }

    /// Whether the chunk at `chunk_position` owns buckets.
    pub fn is_chunk_allocated(&self, chunk_position: ChunkPosition) -> (r: bool)
        requires
            self.wf(),
        ensures
            r == self.owned().contains_key(position_key(chunk_position)),
    {
        self.chunk_position_to_used_buckets.contains_key(&chunk_position.key())
    }

    pub fn get_number_vertices_per_bucket(&self) -> (r: u64)
        ensures
            r == NUM_VERTICES_PER_BUCKET,
    {
        NUM_VERTICES_PER_BUCKET
    }

    pub fn get_vertex_bucket_buffer_size(&self) -> (r: u64)
        ensures
            r == NUM_BUCKETS_PER_BUFFER * VERTEX_BUCKET_SIZE,
    {
        NUM_BUCKETS_PER_BUFFER * VERTEX_BUCKET_SIZE
    }

    pub fn get_number_indices_per_bucket(&self) -> (r: u64)
        ensures
            r == NUM_INDICES_PER_BUCKET,
    {
        NUM_INDICES_PER_BUCKET
    }

    pub fn get_index_bucket_buffer_size(&self) -> (r: u64)
        ensures
            r == NUM_BUCKETS_PER_BUFFER * INDEX_BUCKET_SIZE,
    {
        NUM_BUCKETS_PER_BUFFER * INDEX_BUCKET_SIZE
    }

    pub fn get_number_buckets_per_buffer(&self) -> (r: u64)
        ensures
            r == NUM_BUCKETS_PER_BUFFER,
    {
        NUM_BUCKETS_PER_BUFFER
    }

    pub fn get_indirect_bucket_buffer_size(&self) -> (r: u64)
        ensures
            r == NUM_BUCKETS_PER_BUFFER * INDIRECT_ARGS_SIZE,
    {
        NUM_BUCKETS_PER_BUFFER * INDIRECT_ARGS_SIZE
    }

    /// The pool never lists a bucket twice: free queues hold distinct buckets,
    /// each chunk's list holds distinct buckets, no bucket belongs to two
    /// chunks, and no owned bucket is free.
    pub proof fn lemma_buckets_distinct(&self)
        requires
            self.wf(),
        ensures
            forall|t: int| 0 <= t < 6 ==> (#[trigger] self.free(t)).no_duplicates(),
            forall|k: i128| #[trigger] self.owned().contains_key(k) ==> self.owned()[k]@.no_duplicates(),
            forall|k1: i128, k2: i128, i: int, j: int|
                self.owned().contains_key(k1) && self.owned().contains_key(k2) && k1 != k2 && 0 <= i
                    < self.owned()[k1]@.len() && 0 <= j < self.owned()[k2]@.len() ==> #[trigger] self.owned()[k1]@[i]
                    != #[trigger] self.owned()[k2]@[j],
            forall|k: i128, i: int, t: int, j: int|
                self.owned().contains_key(k) && 0 <= i < self.owned()[k]@.len() && 0 <= t < 6 && 0 <= j
                    < self.free(t).len() ==> #[trigger] self.owned()[k]@[i] != #[trigger] self.free(t)[j],
    {
    }

    pub proof fn lemma_free_count(&self, t: int)
        requires
            self.wf(),
            0 <= t < 6,
        ensures
            self.free_count(t) == self.free(t).len(),
            0 <= used_on_side(self.owned(), side_at(t)),
            self.free(t).len() <= self.capacity(),
            self.owned().dom().finite(),
            self.owned().dom().len() == 0 ==> self.free(t).len() == self.capacity(),
            forall|k: int| 0 <= k < self.free(t).len() ==> (#[trigger] self.free(t)[k]).side == side_at(t)
                && self.free(t)[k].indirect_bucket_index < NUM_BUCKETS_PER_BUFFER,
            forall|key: i128, j: int|
                #[trigger] self.owned().contains_key(key) && 0 <= j < self.owned()[key]@.len()
                    ==> (#[trigger] self.owned()[key]@[j]).indirect_bucket_index < NUM_BUCKETS_PER_BUFFER,
    {
        lemma_used_nonneg(self.owned(), side_at(t));
    }
}

pub proof fn lemma_buckets_needed(n: int)
    requires
        0 <= n,
    ensures
        buckets_needed(n) == n / 1024 + if n % 1024 != 0 {
            1int
        } else {
            0
        },
        buckets_needed(n) * 1024 >= n,
        buckets_needed(n) * 1024 < n + 1024,
        n / 1024 <= buckets_needed(n),
{
    let q = n / 1024;
    let r = n % 1024;
    vstd::arithmetic::div_mod::lemma_fundamental_div_mod(n, 1024);
    if r == 0 {
        vstd::arithmetic::div_mod::lemma_fundamental_div_mod_converse(n + 1023, 1024, q, 1023);
    } else {
        vstd::arithmetic::div_mod::lemma_fundamental_div_mod_converse(n + 1023, 1024, q + 1, r - 1);
    }
}

/// Allocating buckets for a chunk that owned none and then unloading that chunk
/// gives every taken bucket back to its side: ownership is as before, each side
/// has as many free buckets as before, and the taken ones wait at the back of
/// their queue.
pub proof fn lemma_allocation_round_trip(
    a: MeshBucketManager,
    b: MeshBucketManager,
    c: MeshBucketManager,
    p: ChunkPosition,
    t: int,
    n: int,
    r: Seq<BucketLocation>,
)
    requires
        a.wf(),
        0 <= t < 6,
        0 <= n <= a.free(t).len(),
        !a.owned().contains_key(position_key(p)),
        MeshBucketManager::took_buckets(a, b, position_key(p), t, n),
        MeshBucketManager::gave_back(b, c, seq![p], r),
    ensures
        c.owned() == a.owned(),
        forall|u: int| 0 <= u < 6 ==> (#[trigger] c.free(u)).len() == a.free(u).len(),
        c.free(t) == a.free(t).subrange(n, a.free(t).len() as int) + a.free(t).subrange(0, n),
        forall|u: int| 0 <= u < 6 && u != t ==> #[trigger] c.free(u) == a.free(u),
{
    let k = position_key(p);
    let taken = a.free(t).subrange(0, n);
    let ps = seq![p];
    assert(ps.subrange(1, 1) =~= Seq::<ChunkPosition>::empty());
    assert(released(b.owned().remove(k), Seq::<ChunkPosition>::empty()) == Seq::<BucketLocation>::empty());
    assert(remaining(b.owned().remove(k), Seq::<ChunkPosition>::empty()) == b.owned().remove(k));
    assert(b.owned().contains_key(k));
    assert(r =~= b.owned()[k]@ + Seq::empty());
    assert(b.owned().remove(k) =~= a.owned());
    assert(c.owned() =~= a.owned());
    assert(b.owned()[k]@ =~= taken);
    assert forall|j: int| 0 <= j < taken.len() implies (#[trigger] taken[j]).side == side_at(t) by {
        assert(taken[j] == a.free(t)[j]);
    }
    lemma_of_side_all(taken, side_at(t));
    assert(r =~= taken);
    assert forall|u: int| 0 <= u < 6 && u != t implies #[trigger] c.free(u) == a.free(u) by {
        lemma_of_side_none(taken, side_at(u));
        assert(of_side(r, side_at(u)) =~= Seq::<BucketLocation>::empty());
        assert(c.free(u) =~= a.free(u));
    }
}

/// Each bucket of `of_side(s, side)` is a bucket of `s` with an equal bound.
pub proof fn lemma_of_side_subset(s: Seq<BucketLocation>, side: BlockSide, k: int)
    requires
        0 <= k < of_side(s, side).len(),
    ensures
        exists|j: int| 0 <= j < s.len() && s[j] == #[trigger] of_side(s, side)[k],
    decreases s.len(),
{
    let init = s.drop_last();
    if s.last().side == side && k == of_side(s, side).len() - 1 {
        assert(s[s.len() - 1] == of_side(s, side)[k]);
    } else {
        lemma_of_side_subset(init, side, k);
        let j = choose|j: int| 0 <= j < init.len() && init[j] == #[trigger] of_side(init, side)[k];
        assert(s[j] == of_side(s, side)[k]);
    }
}

/// However allocations and releases interleave, the buckets of a side held by
/// chunks never outnumber the pool's buckets for that side: the free ones and
/// the owned ones together are exactly the pool, so chunks can hold at most
/// `capacity * 1024` vertices of one side.
pub proof fn lemma_pool_bound(m: MeshBucketManager, t: int)
    requires
        m.wf(),
        0 <= t < 6,
    ensures
        m.free(t).len() + used_on_side(m.owned(), side_at(t)) == m.capacity(),
        0 <= used_on_side(m.owned(), side_at(t)) <= m.capacity(),
        used_on_side(m.owned(), side_at(t)) * NUM_VERTICES_PER_BUCKET <= m.capacity() * 1024,
{
    m.lemma_free_count(t);
}

pub proof fn lemma_of_side_sides(s: Seq<BucketLocation>, side: BlockSide)
    ensures
        forall|k: int| 0 <= k < of_side(s, side).len() ==> (#[trigger] of_side(s, side)[k]).side == side,
    decreases s.len(),
{
    if s.len() > 0 {
        lemma_of_side_sides(s.drop_last(), side);
    }
}

pub proof fn lemma_used_nonneg(m: Map<i128, Vec<BucketLocation>>, side: BlockSide)
    ensures
        used_on_side(m, side) >= 0,
    decreases m.dom().len(),
{
    if m.dom().finite() && m.dom().len() > 0 {
        let k = m.dom().choose();
        assert(m.remove(k).dom().len() < m.dom().len());
        lemma_used_nonneg(m.remove(k), side);
    }
}

} // verus!
