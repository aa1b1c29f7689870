//! The mesh manager: meshes chunks, finds room for their geometry in the bucket
//! pool by evicting the least recently meshed chunks, and turns the result into
//! buffer writes.

use vstd::prelude::*;
use crate::block::{BlockSide, side_at, side_index};
use crate::bucket_manager::{
    MeshBucketManager, BucketLocation, buckets_needed, released, remaining, of_side,
    NUM_BUCKETS_PER_BUFFER, NUM_INDICES_PER_BUCKET, NUM_VERTICES_PER_BUCKET, INDIRECT_ARGS_SIZE,
};
use crate::buffer_commands::{BufferWriteCommand, WritePayload, DrawIndexedIndirectArgs};
use crate::chunk::{Chunk, ChunkPosition, position_key, count_exposed};
use crate::chunk_index_state::{ChunkIndexState, WORLD_DIMENSION};
use crate::greedy::{greedy_sided, requested};
use crate::mesh::{Mesh, Vertex, side_wf};
use crate::recency::{
    Recency, recency_order, recency_capacity, recency_new, recency_push, recency_pop_lru,
    recency_promote, recency_len, recency_remove, without, differs,
};

verus! {

pub const VERTEX_BUFFER_FRONT: &'static str = "Vertex Buffer Front";
pub const VERTEX_BUFFER_BACK: &'static str = "Vertex Buffer Back";
pub const VERTEX_BUFFER_LEFT: &'static str = "Vertex Buffer Left";
pub const VERTEX_BUFFER_RIGHT: &'static str = "Vertex Buffer Right";
pub const VERTEX_BUFFER_TOP: &'static str = "Vertex Buffer Top";
pub const VERTEX_BUFFER_BOTTOM: &'static str = "Vertex Buffer Bottom";
pub const INDEX_BUFFER_FRONT: &'static str = "Index Buffer Front";
pub const INDEX_BUFFER_BACK: &'static str = "Index Buffer Back";
pub const INDEX_BUFFER_LEFT: &'static str = "Index Buffer Left";
pub const INDEX_BUFFER_RIGHT: &'static str = "Index Buffer Right";
pub const INDEX_BUFFER_TOP: &'static str = "Index Buffer Top";
pub const INDEX_BUFFER_BOTTOM: &'static str = "Index Buffer Bottom";
pub const INDIRECT_BUFFER_FRONT: &'static str = "Indirect Buffer Front";
pub const INDIRECT_BUFFER_BACK: &'static str = "Indirect Buffer Back";
pub const INDIRECT_BUFFER_LEFT: &'static str = "Indirect Buffer Left";
pub const INDIRECT_BUFFER_RIGHT: &'static str = "Indirect Buffer Right";
pub const INDIRECT_BUFFER_TOP: &'static str = "Indirect Buffer Top";
pub const INDIRECT_BUFFER_BOTTOM: &'static str = "Indirect Buffer Bottom";

/// Backing buffers per side.
pub const NUM_BUFFERS_PER_SIDE: usize = 1;
/// Chunks the recency cache tracks at most.
pub const RECENCY_CAPACITY: usize = 10000;

pub open spec fn vertex_buffer_name(side: BlockSide) -> &'static str {
    match side {
        BlockSide::FRONT => VERTEX_BUFFER_FRONT,
        BlockSide::BACK => VERTEX_BUFFER_BACK,
        BlockSide::BOTTOM => VERTEX_BUFFER_BOTTOM,
        BlockSide::TOP => VERTEX_BUFFER_TOP,
        BlockSide::LEFT => VERTEX_BUFFER_LEFT,
        BlockSide::RIGHT => VERTEX_BUFFER_RIGHT,
    }
}

pub open spec fn index_buffer_name(side: BlockSide) -> &'static str {
    match side {
        BlockSide::FRONT => INDEX_BUFFER_FRONT,
        BlockSide::BACK => INDEX_BUFFER_BACK,
        BlockSide::BOTTOM => INDEX_BUFFER_BOTTOM,
        BlockSide::TOP => INDEX_BUFFER_TOP,
        BlockSide::LEFT => INDEX_BUFFER_LEFT,
        BlockSide::RIGHT => INDEX_BUFFER_RIGHT,
    }
}

pub open spec fn indirect_buffer_name(side: BlockSide) -> &'static str {
    match side {
        BlockSide::FRONT => INDIRECT_BUFFER_FRONT,
        BlockSide::BACK => INDIRECT_BUFFER_BACK,
        BlockSide::BOTTOM => INDIRECT_BUFFER_BOTTOM,
        BlockSide::TOP => INDIRECT_BUFFER_TOP,
        BlockSide::LEFT => INDIRECT_BUFFER_LEFT,
        BlockSide::RIGHT => INDIRECT_BUFFER_RIGHT,
    }
}

/// The write that stops a freed bucket from being drawn: its draw record with
/// no indices and no instances.
pub open spec fn cleared_draw(b: BucketLocation) -> BufferWriteCommand {
    BufferWriteCommand {
        buffer_name: indirect_buffer_name(b.side),
        offset: (b.indirect_bucket_index * INDIRECT_ARGS_SIZE) as u64,
        data: WritePayload::DrawArgs(
            DrawIndexedIndirectArgs {
                index_count: 0,
                instance_count: 0,
                first_index: (b.indirect_bucket_index * NUM_INDICES_PER_BUCKET) as u32,
                base_vertex: (b.indirect_bucket_index * NUM_VERTICES_PER_BUCKET) as i32,
                first_instance: 0,
            },
        ),
    }
}

/// Three writes starting at `base + 3 k`.
pub open spec fn write_group(cmds: Seq<BufferWriteCommand>, base: int, k: int) -> Seq<BufferWriteCommand> {
    cmds.subrange(base + 3 * k, base + 3 * k + 3)
}

/// Vertices bucket `k` of a side's list holds: the next 1024, or what is left.
pub open spec fn bucket_vertex_count(n: int, k: int) -> int {
    if n - 1024 * k < 1024 {
        n - 1024 * k
    } else {
        1024
    }
}

/// The three writes of bucket `k` of one side of a mesh: its slice of the
/// vertices, its slice of the indices lowered by `1024 k`, and a draw record of
/// one instance over those indices, into that side's buffers.
pub open spec fn bucket_content(
    cmds: Seq<BufferWriteCommand>,
    side: BlockSide,
    k: int,
    vertices: Seq<Vertex>,
    indices: Seq<u32>,
) -> bool {
    let vc = bucket_vertex_count(vertices.len() as int, k);
    &&& cmds.len() == 3
    &&& cmds[0].buffer_name == vertex_buffer_name(side)
    &&& (match cmds[0].data {
        WritePayload::Vertices(v) => v@ == vertices.subrange(1024 * k, 1024 * k + vc),
        _ => false,
    })
    &&& cmds[1].buffer_name == index_buffer_name(side)
    &&& (match cmds[1].data {
        WritePayload::Indices(v) => v@.len() == vc * 3 / 2 && forall|p: int|
            0 <= p < v@.len() ==> #[trigger] v@[p] == indices[1536 * k + p] - 1024 * k,
        _ => false,
    })
    &&& cmds[2].buffer_name == indirect_buffer_name(side)
    &&& (match cmds[2].data {
        WritePayload::DrawArgs(a) => a.index_count == vc * 3 / 2 && a.instance_count == 1
            && a.first_instance == 0,
        _ => false,
    })
}

/// The three writes land in bucket `b`: at its offsets and in its draw slot.
pub open spec fn bucket_placement(cmds: Seq<BufferWriteCommand>, b: BucketLocation) -> bool {
    &&& cmds[0].offset == b.vertex_buffer_offset
    &&& cmds[1].offset == b.index_buffer_offset
    &&& cmds[2].offset == b.indirect_bucket_index * INDIRECT_ARGS_SIZE
    &&& (match cmds[2].data {
        WritePayload::DrawArgs(a) => a.first_index == (b.indirect_bucket_index * NUM_INDICES_PER_BUCKET) as u32
            && a.base_vertex == (b.indirect_bucket_index * NUM_VERTICES_PER_BUCKET) as i32,
        _ => false,
    })
}

pub open spec fn coords(p: ChunkPosition) -> (i32, i32, i32) {
    (p.x, p.y, p.z)
}

pub open spec fn coords_key(c: (i32, i32, i32)) -> i128 {
    position_key(ChunkPosition { x: c.0, y: c.1, z: c.2 })
}

/// Whether the chunk keyed `k` is in the recency order.
pub open spec fn is_recent(order: Seq<(i32, i32, i32)>, k: i128) -> bool {
    exists|i: int| 0 <= i < order.len() && coords_key(#[trigger] order[i]) == k
}

/// Buckets needed by the six sides of a mesh with the given vertex counts.
pub open spec fn mesh_buckets(lens: Seq<u64>) -> int {
    buckets_needed(lens[0] as int) + buckets_needed(lens[1] as int) + buckets_needed(
        lens[2] as int,
    ) + buckets_needed(lens[3] as int) + buckets_needed(lens[4] as int) + buckets_needed(
        lens[5] as int,
    )
}

/// One side's allocation extends the chunk's bucket list by the buckets taken
/// from that side's queue, keeping what came before.
proof fn lemma_record_step(
    before: MeshBucketManager,
    after: MeshBucketManager,
    mid: MeshBucketManager,
    key: i128,
    t: int,
    nb: int,
    lens: Seq<u64>,
    prior: Seq<BucketLocation>,
    free_start: Seq<Seq<BucketLocation>>,
)
    requires
        0 <= t < 6,
        nb == buckets_needed(lens[t] as int),
        MeshBucketManager::took_buckets(before, after, key, t, nb),
        before.free(t) == free_start[t],
        nb <= free_start[t].len(),
        prior == if mid.owned().contains_key(key) {
            mid.owned()[key]@
        } else {
            Seq::<BucketLocation>::empty()
        },
        partial_buckets(lens, t) == 0 ==> before.owned() == mid.owned(),
        partial_buckets(lens, t) > 0 ==> before.owned().contains_key(key) && before.owned()[key]@.len() == prior.len()
            + partial_buckets(lens, t) && before.owned()[key]@.subrange(0, prior.len() as int) == prior,
        forall|u: int, k: int|
            0 <= u < t && 0 <= k < buckets_needed(lens[u] as int) ==> #[trigger] before.owned()[key]@[prior.len()
                + partial_buckets(lens, u) + k] == free_start[u][k],
    ensures
        after.owned().contains_key(key),
        after.owned()[key]@.len() == prior.len() + partial_buckets(lens, t + 1),
        after.owned()[key]@.subrange(0, prior.len() as int) == prior,
        forall|u: int, k: int|
            0 <= u < t + 1 && 0 <= k < buckets_needed(lens[u] as int) ==> #[trigger] after.owned()[key]@[prior.len()
                + partial_buckets(lens, u) + k] == free_start[u][k],
{
    lemma_partial_buckets_mono(lens, 0, t);
    let rec = after.owned()[key]@;
    let old_rec: Seq<BucketLocation> = if before.owned().contains_key(key) {
        before.owned()[key]@
    } else {
        Seq::empty()
    };
    assert(rec == old_rec + free_start[t].subrange(0, nb));
    if partial_buckets(lens, t) == 0 {
        assert(old_rec == prior);
    }
    assert(partial_buckets(lens, t + 1) == partial_buckets(lens, t) + nb);
    assert(old_rec.len() == prior.len() + partial_buckets(lens, t));
    assert(rec.subrange(0, prior.len() as int) =~= prior) by {
        if partial_buckets(lens, t) > 0 {
            assert forall|q: int| 0 <= q < prior.len() implies rec[q] == prior[q] by {
                assert(old_rec.subrange(0, prior.len() as int)[q] == prior[q]);
            }
        }
    }
    assert forall|u: int, k: int|
        0 <= u < t + 1 && 0 <= k < buckets_needed(lens[u] as int) implies #[trigger] after.owned()[key]@[prior.len()
            + partial_buckets(lens, u) + k] == free_start[u][k] by {
        lemma_partial_buckets_mono(lens, 0, u);
        if u < t {
            lemma_partial_buckets_mono(lens, u + 1, t);
            assert(partial_buckets(lens, u + 1) == partial_buckets(lens, u) + buckets_needed(lens[u] as int));
            assert(before.owned()[key]@[prior.len() + partial_buckets(lens, u) + k] == free_start[u][k]);
        }
    }
}

proof fn lemma_partial_buckets_mono(lens: Seq<u64>, a: int, b: int)
    requires
        0 <= a <= b,
    ensures
        partial_buckets(lens, a) <= partial_buckets(lens, b),
    decreases b - a,
{
    if a < b {
        lemma_partial_buckets_mono(lens, a, b - 1);
        assert(buckets_needed(lens[b - 1] as int) >= 0);
    }
}

/// A write of vertices puts in only vertices whose chunk slot is at byte
/// `offset` of the chunk index buffer; other writes pass.
pub open spec fn vertices_carry(c: BufferWriteCommand, offset: u64) -> bool {
    match c.data {
        WritePayload::Vertices(v) => forall|i: int| 0 <= i < v@.len() ==> (#[trigger] v@[i]).chunk_coordinate_index as int * 12 == offset,
        _ => true,
    }
}

/// Write number `d` of the bucket writes of a mesh falls in the group of
/// bucket `k` of side `u`.
proof fn lemma_group_of(lens: Seq<u64>, t: int, d: int) -> (uk: (int, int))
    requires
        0 <= t <= 6,
        0 <= d < 3 * partial_buckets(lens, t),
    ensures
        0 <= uk.0 < t,
        0 <= uk.1 < buckets_needed(lens[uk.0] as int),
        3 * (partial_buckets(lens, uk.0) + uk.1) <= d < 3 * (partial_buckets(lens, uk.0) + uk.1) + 3,
    decreases t,
{
    lemma_partial_buckets_mono(lens, 0, t - 1);
    let base = 3 * partial_buckets(lens, t - 1);
    if d >= base {
        let rest = d - base;
        vstd::arithmetic::div_mod::lemma_fundamental_div_mod(rest, 3);
        (t - 1, rest / 3)
    } else {
        lemma_group_of(lens, t - 1, d)
    }
}

/// Every vertex written for a chunk's mesh carries the slot whose coordinates
/// the final write stores.
proof fn lemma_generated_writes(
    early: Seq<BufferWriteCommand>,
    prep: Seq<BufferWriteCommand>,
    idx: Seq<BufferWriteCommand>,
    counts: Seq<u64>,
    mesh_sides: Seq<crate::mesh::MeshSide>,
    off: u64,
    chunk_index: u32,
)
    requires
        counts == Seq::new(6, |t: int| mesh_sides[t].vertices@.len() as u64),
        forall|i: int| 0 <= i < early.len() ==> is_clearing(#[trigger] early[i]),
        prep.len() >= 3 * mesh_buckets(counts),
        forall|i: int| 0 <= i < prep.len() - 3 * mesh_buckets(counts) ==> is_clearing(#[trigger] prep[i]),
        forall|u: int, k: int|
            0 <= u < 6 && 0 <= k < buckets_needed(counts[u] as int) ==> bucket_content(
                #[trigger] write_group(prep, prep.len() - 3 * mesh_buckets(counts) + 3 * partial_buckets(counts, u), k),
                side_at(u),
                k,
                mesh_sides[u].vertices@,
                mesh_sides[u].indices@,
            ),
        forall|u: int, i: int|
            0 <= u < 6 && 0 <= i < mesh_sides[u].vertices@.len() ==> (#[trigger] mesh_sides[u].vertices@[i]).chunk_coordinate_index
                == chunk_index,
        idx.len() == 1,
        idx[0].data is Coordinates,
        off == chunk_index as int * 12,
    ensures
        forall|q: int| 0 <= q < (early + prep + idx).len() ==> #[trigger] vertices_carry((early + prep + idx)[q], off),
{
    let r = early + prep + idx;
    let e = prep.len() - 3 * mesh_buckets(counts);
    assert forall|q: int| 0 <= q < r.len() implies #[trigger] vertices_carry(r[q], off) by {
        if q < early.len() {
            assert(r[q] == early[q]);
            assert(is_clearing(early[q]));
        } else if q < early.len() + prep.len() {
            let qp = q - early.len();
            assert(r[q] == prep[qp]);
            if qp < e {
                assert(is_clearing(prep[qp]));
            } else {
                reveal_with_fuel(partial_buckets, 7);
                assert(partial_buckets(counts, 6) == mesh_buckets(counts));
                let (u, k) = lemma_group_of(counts, 6, qp - e);
                let g = write_group(prep, e + 3 * partial_buckets(counts, u), k);
                assert(bucket_content(g, side_at(u), k, mesh_sides[u].vertices@, mesh_sides[u].indices@));
                let o = qp - e - 3 * (partial_buckets(counts, u) + k);
                assert(prep[qp] == g[o]);
                if o == 0 {
                    match g[0].data {
                        WritePayload::Vertices(v) => {
                            assert forall|i: int| 0 <= i < v@.len() implies (#[trigger] v@[i]).chunk_coordinate_index as int * 12
                                == off by {
                                let n = mesh_sides[u].vertices@.len() as int;
                                let vc = bucket_vertex_count(n, k);
                                assert(v@[i] == mesh_sides[u].vertices@[1024 * k + i]);
                            }
                        },
                        _ => {},
                    }
                }
            }
        } else {
            assert(r[q] == idx[q - early.len() - prep.len()]);
        }
    }
}

/// The vertex count of each side of a mesh.
pub open spec fn vertex_counts(mesh: &Mesh) -> Seq<u64> {
    Seq::new(6, |t: int| mesh.mesh@[t].vertices@.len() as u64)
}

/// Buckets needed by the first `t` sides.
pub open spec fn partial_buckets(lens: Seq<u64>, t: int) -> int
    decreases t,
{
    if t <= 0 {
        0
    } else {
        partial_buckets(lens, t - 1) + buckets_needed(lens[t - 1] as int)
    }
}

/// A mesh whose sides are whole quads that each fit the bucket pool of `capacity`
/// buckets per side.
pub open spec fn mesh_fits(mesh: &Mesh, capacity: int) -> bool {
    &&& mesh.wf()
    &&& forall|t: int|
        0 <= t < 6 ==> bucketable(#[trigger] mesh.mesh@[t].vertices@.len() as int, mesh.mesh@[t].indices@)
            && buckets_needed(mesh.mesh@[t].vertices@.len() as int) <= capacity
}

/// A side's lists can be cut into buckets: one and a half indices per vertex,
/// and no index points below the first vertex of its bucket.
pub open spec fn bucketable(n: int, indices: Seq<u32>) -> bool {
    &&& n <= u32::MAX
    &&& indices.len() == n * 3 / 2
    &&& forall|p: int| 0 <= p < indices.len() ==> #[trigger] indices[p] >= 1024 * (p / 1536)
}

/// Whole quads with the usual index pattern can be cut into buckets.
pub proof fn lemma_quads_bucketable(side: &crate::mesh::MeshSide)
    requires
        side_wf(side),
        side.vertices@.len() <= u32::MAX,
    ensures
        bucketable(side.vertices@.len() as int, side.indices@),
{
    let n = side.vertices@.len() as int;
    let q = (n / 4) as nat;
    crate::mesh::lemma_quad_indices_len(q);
    assert(n * 3 / 2 == 6 * q) by (nonlinear_arith)
        requires n % 4 == 0, q == n / 4;
    assert(4 * q <= n) by (nonlinear_arith) requires q == n / 4, n >= 0;
    crate::mesh::lemma_quad_indices_local(q);
}

/// Whether a write only clears a draw record.
pub open spec fn is_clearing(c: BufferWriteCommand) -> bool {
    match c.data {
        WritePayload::DrawArgs(args) => args.instance_count == 0 && args.index_count == 0,
        _ => false,
    }
}

proof fn lemma_released_bounded(m: Map<i128, Vec<BucketLocation>>, ps: Seq<ChunkPosition>)
    requires
        forall|key: i128, j: int|
            #[trigger] m.contains_key(key) && 0 <= j < m[key]@.len() ==> (#[trigger] m[key]@[j]).indirect_bucket_index
                < NUM_BUCKETS_PER_BUFFER,
    ensures
        forall|i: int|
            0 <= i < released(m, ps).len() ==> (#[trigger] released(m, ps)[i]).indirect_bucket_index
                < NUM_BUCKETS_PER_BUFFER,
    decreases ps.len(),
{
    if ps.len() > 0 {
        let k = position_key(ps[0]);
        let m2 = m.remove(k);
        assert forall|key: i128, j: int|
            #[trigger] m2.contains_key(key) && 0 <= j < m2[key]@.len() implies (#[trigger] m2[key]@[j]).indirect_bucket_index
                < NUM_BUCKETS_PER_BUFFER by {
            assert(m.contains_key(key) && m2[key] == m[key]);
        }
        lemma_released_bounded(m2, ps.subrange(1, ps.len() as int));
        let head: Seq<BucketLocation> = if m.contains_key(k) {
            m[k]@
        } else {
            Seq::empty()
        };
        let tail = released(m2, ps.subrange(1, ps.len() as int));
        assert forall|i: int| 0 <= i < released(m, ps).len() implies (#[trigger] released(m, ps)[i]).indirect_bucket_index
            < NUM_BUCKETS_PER_BUFFER by {
            assert(released(m, ps) == head + tail);
            if i >= head.len() {
                assert(released(m, ps)[i] == tail[i - head.len()]);
            } else {
                assert(released(m, ps)[i] == m[k]@[i]);
            }
        }
    }
}

proof fn lemma_remaining_subset(m: Map<i128, Vec<BucketLocation>>, ps: Seq<ChunkPosition>, k: i128)
    ensures
        remaining(m, ps).contains_key(k) ==> m.contains_key(k),
    decreases ps.len(),
{
    if ps.len() > 0 {
        lemma_remaining_subset(m.remove(position_key(ps[0])), ps.subrange(1, ps.len() as int), k);
    }
}

/// The chunk positions of a run of recency keys.
pub open spec fn positions_of(order: Seq<(i32, i32, i32)>) -> Seq<ChunkPosition> {
    order.map_values(|c: (i32, i32, i32)| ChunkPosition { x: c.0, y: c.1, z: c.2 })
}

/// The writes clearing the draw records of `bs`, in order.
pub open spec fn cleared_draws(bs: Seq<BucketLocation>) -> Seq<BufferWriteCommand> {
    bs.map_values(|b: BucketLocation| cleared_draw(b))
}

proof fn lemma_released_push(m: Map<i128, Vec<BucketLocation>>, ps: Seq<ChunkPosition>, p: ChunkPosition)
    ensures
        released(m, ps.push(p)) == released(m, ps) + released(remaining(m, ps), seq![p]),
        remaining(m, ps.push(p)) == remaining(remaining(m, ps), seq![p]),
    decreases ps.len(),
{
    if ps.len() == 0 {
        assert(ps.push(p) =~= seq![p]);
        assert(released(m, ps) + released(remaining(m, ps), seq![p]) =~= released(m, seq![p]));
    } else {
        let k0 = position_key(ps[0]);
        let m2 = m.remove(k0);
        let rest = ps.subrange(1, ps.len() as int);
        lemma_released_push(m2, rest, p);
        assert(ps.push(p).subrange(1, ps.push(p).len() as int) =~= rest.push(p));
        assert(ps.push(p)[0] == ps[0]);
        let head: Seq<BucketLocation> = if m.contains_key(k0) { m[k0]@ } else { Seq::empty() };
        assert(released(m, ps.push(p)) == head + released(m2, rest.push(p)));
        assert(head + (released(m2, rest) + released(remaining(m2, rest), seq![p])) =~= (head + released(m2, rest))
            + released(remaining(m2, rest), seq![p]));
    }
}

/// After the chunks `ps` are unloaded, none of them owns buckets.
proof fn lemma_remaining_drops(m: Map<i128, Vec<BucketLocation>>, ps: Seq<ChunkPosition>, i: int)
    requires
        0 <= i < ps.len(),
    ensures
        !remaining(m, ps).contains_key(position_key(ps[i])),
    decreases ps.len(),
{
    let k0 = position_key(ps[0]);
    let rest = ps.subrange(1, ps.len() as int);
    if i == 0 {
        lemma_remaining_subset(m.remove(k0), rest, k0);
    } else {
        assert(rest[i - 1] == ps[i]);
        lemma_remaining_drops(m.remove(k0), rest, i - 1);
    }
}

proof fn lemma_recent_contains(order: Seq<(i32, i32, i32)>, p: ChunkPosition)
    requires
        is_recent(order, position_key(p)),
    ensures
        order.contains(coords(p)),
{
    let i = choose|i: int| 0 <= i < order.len() && coords_key(#[trigger] order[i]) == position_key(p);
    let c = order[i];
    crate::chunk::lemma_position_key_injective(ChunkPosition { x: c.0, y: c.1, z: c.2 }, p);
    assert(order[i] == coords(p));
}

proof fn lemma_recent_remove(o: Seq<(i32, i32, i32)>, c: (i32, i32, i32), k: i128, p: ChunkPosition)
    requires
        is_recent(o, k),
        c == coords(p),
        k != position_key(p),
    ensures
        is_recent(without(o, c), k),
{
    let w = without(o, c);
    let ii = choose|ii: int| 0 <= ii < o.len() && coords_key(#[trigger] o[ii]) == k;
    assert(o[ii] != c);
    o.lemma_filter_contains(differs(c), ii);
    let jj = choose|jj: int| 0 <= jj < w.len() && w[jj] == o[ii];
    assert(coords_key(w[jj]) == k);
}

proof fn lemma_recent_pop(order: Seq<(i32, i32, i32)>, k: i128)
    requires
        order.len() > 0,
        is_recent(order, k),
        coords_key(order[0]) != k,
    ensures
        is_recent(order.subrange(1, order.len() as int), k),
{
    let i = choose|i: int| 0 <= i < order.len() && coords_key(#[trigger] order[i]) == k;
    assert(order.subrange(1, order.len() as int)[i - 1] == order[i]);
}

proof fn lemma_recent_push(order: Seq<(i32, i32, i32)>, c: (i32, i32, i32), k: i128)
    requires
        is_recent(order, k) || coords_key(c) == k,
    ensures
        is_recent(without(order, c).push(c), k),
        is_recent(order.push(c), k),
{
    let w = without(order, c);
    if coords_key(c) == k {
        assert(coords_key(w.push(c)[w.len() as int]) == k);
        assert(coords_key(order.push(c)[order.len() as int]) == k);
    } else {
        let i = choose|i: int| 0 <= i < order.len() && coords_key(#[trigger] order[i]) == k;
        assert(coords_key(order.push(c)[i]) == k);
        if order[i] == c {
            assert(coords_key(w.push(c)[w.len() as int]) == k);
        } else {
            order.lemma_filter_contains(differs(c), i);
            assert(w.contains(order[i]));
            let j = choose|j: int| 0 <= j < w.len() && w[j] == order[i];
            assert(w.push(c)[j] == w[j]);
            assert(coords_key(w.push(c)[j]) == k);
        }
    }
}

/// Owner of the bucket pool, the chunk index table and the recency cache.
pub struct MeshManager {
    bucket_manager: MeshBucketManager,
    chunk_index_state: ChunkIndexState,
    least_recently_meshed_chunks: Recency,
    recency_capacity: usize,
}

impl MeshManager {
    pub closed spec fn buckets(&self) -> MeshBucketManager {
        self.bucket_manager
    }

    pub closed spec fn index_table(&self) -> ChunkIndexState {
        self.chunk_index_state
    }

    /// Meshed chunks, least recently meshed first.
    pub closed spec fn recency(&self) -> Seq<(i32, i32, i32)> {
        recency_order(self.least_recently_meshed_chunks)
    }

    pub closed spec fn recency_cap(&self) -> nat {
        recency_capacity(self.least_recently_meshed_chunks)
    }

    /// Both tables are consistent, the index table has a slot, and every chunk that
    /// owns buckets or a slot is in the recency order, so that evicting down to an
    /// empty order frees the whole pool.
    pub closed spec fn wf(&self) -> bool {
        &&& self.bucket_manager.wf()
        &&& self.chunk_index_state.wf()
        &&& self.chunk_index_state.capacity() >= 1
        &&& recency_capacity(self.least_recently_meshed_chunks) >= 1
        &&& recency_capacity(self.least_recently_meshed_chunks) == self.recency_capacity
        &&& forall|k: i128|
            #[trigger] self.bucket_manager.owned().contains_key(k) ==> is_recent(
                recency_order(self.least_recently_meshed_chunks),
                k,
            )
        &&& forall|k: i128|
            #[trigger] self.chunk_index_state.slots().contains_key(k) ==> is_recent(
                recency_order(self.least_recently_meshed_chunks),
                k,
            )
    }

    pub fn get_vertex_buffer_name(side: BlockSide) -> (r: &'static str)
        ensures
            r == vertex_buffer_name(side),
    {
        match side {
            BlockSide::FRONT => VERTEX_BUFFER_FRONT,
            BlockSide::BACK => VERTEX_BUFFER_BACK,
            BlockSide::BOTTOM => VERTEX_BUFFER_BOTTOM,
            BlockSide::TOP => VERTEX_BUFFER_TOP,
            BlockSide::LEFT => VERTEX_BUFFER_LEFT,
            BlockSide::RIGHT => VERTEX_BUFFER_RIGHT,
        }
    }

    pub fn get_index_buffer_name(side: BlockSide) -> (r: &'static str)
        ensures
            r == index_buffer_name(side),
    {
        match side {
            BlockSide::FRONT => INDEX_BUFFER_FRONT,
            BlockSide::BACK => INDEX_BUFFER_BACK,
            BlockSide::BOTTOM => INDEX_BUFFER_BOTTOM,
            BlockSide::TOP => INDEX_BUFFER_TOP,
            BlockSide::LEFT => INDEX_BUFFER_LEFT,
            BlockSide::RIGHT => INDEX_BUFFER_RIGHT,
        }
    }

    pub fn get_indirect_buffer_name(side: BlockSide) -> (r: &'static str)
        ensures
            r == indirect_buffer_name(side),
    {
        match side {
            BlockSide::FRONT => INDIRECT_BUFFER_FRONT,
            BlockSide::BACK => INDIRECT_BUFFER_BACK,
            BlockSide::BOTTOM => INDIRECT_BUFFER_BOTTOM,
            BlockSide::TOP => INDIRECT_BUFFER_TOP,
            BlockSide::LEFT => INDIRECT_BUFFER_LEFT,
            BlockSide::RIGHT => INDIRECT_BUFFER_RIGHT,
        }
    }

    /// A manager with `num_buffers_per_side` buffers of buckets per side,
    /// `num_slots` chunk index slots and a recency cache of `recency_capacity`
    /// chunks; nothing is meshed.
    pub fn with_capacity(num_buffers_per_side: usize, num_slots: u32, recency_capacity: usize) -> (r:
        MeshManager)
        requires
            num_buffers_per_side * 2048 <= usize::MAX,
            num_slots >= 1,
            recency_capacity >= 1,
        ensures
            r.wf(),
            r.buckets().capacity() == num_buffers_per_side * 2048,
            r.buckets().owned().dom().len() == 0,
            forall|t: int| 0 <= t < 6 ==> (#[trigger] r.buckets().free(t)).len() == num_buffers_per_side * 2048,
            r.index_table().capacity() == num_slots,
            r.index_table().slots().dom().len() == 0,
            r.recency().len() == 0,
    {
        let chunk_index_state = ChunkIndexState::new(num_slots);
        let bucket_manager = MeshBucketManager::new(num_buffers_per_side);
        let least_recently_meshed_chunks = recency_new(recency_capacity);
        proof {
            bucket_manager.lemma_free_count(0);
            chunk_index_state.lemma_counts();
            vstd::set_lib::lemma_set_empty_equivalency_len(bucket_manager.owned().dom());
            vstd::set_lib::lemma_set_empty_equivalency_len(chunk_index_state.slots().dom());
        }
        MeshManager {
            bucket_manager,
            chunk_index_state,
            least_recently_meshed_chunks,
            recency_capacity,
        }
    }

    /// The manager the engine uses: one buffer of buckets per side, a slot for
    /// every chunk within twice the render distance, and room for ten thousand
    /// chunks in the recency cache.
    pub fn new() -> (r: MeshManager)
        ensures
            r.wf(),
            r.buckets().capacity() == 2048,
            r.buckets().owned().dom().len() == 0,
            r.index_table().capacity() == WORLD_DIMENSION,
            r.recency().len() == 0,
    {
        MeshManager::with_capacity(NUM_BUFFERS_PER_SIDE, WORLD_DIMENSION, RECENCY_CAPACITY)
    }

    /// Unloads the listed chunks from both tables and clears the draw records of
    /// the buckets they gave back; the recency cache is left as it is.
    fn unload_parts(&mut self, chunk_positions: &Vec<ChunkPosition>) -> (r: Vec<BufferWriteCommand>)
        requires
            old(self).bucket_manager.wf(),
            old(self).chunk_index_state.wf(),
        ensures
            final(self).bucket_manager.wf(),
            final(self).chunk_index_state.wf(),
            final(self).least_recently_meshed_chunks == old(self).least_recently_meshed_chunks,
            final(self).recency_capacity == old(self).recency_capacity,
            final(self).bucket_manager.capacity() == old(self).bucket_manager.capacity(),
            final(self).chunk_index_state.capacity() == old(self).chunk_index_state.capacity(),
            MeshBucketManager::gave_back(
                old(self).bucket_manager,
                final(self).bucket_manager,
                chunk_positions@,
                released(old(self).bucket_manager.owned(), chunk_positions@),
            ),
            forall|i: int|
                0 <= i < chunk_positions@.len() ==> !final(self).chunk_index_state.slots().contains_key(
                    position_key(#[trigger] chunk_positions@[i]),
                ),
            forall|k: i128|
                #[trigger] final(self).chunk_index_state.slots().contains_key(k) ==> old(
                    self,
                ).chunk_index_state.slots().contains_key(k) && final(self).chunk_index_state.slots()[k]
                    == old(self).chunk_index_state.slots()[k],
            forall|k: i128|
                #[trigger] old(self).chunk_index_state.slots().contains_key(k) && (forall|i: int|
                    0 <= i < chunk_positions@.len() ==> position_key(#[trigger] chunk_positions@[i]) != k)
                    ==> final(self).chunk_index_state.slots().contains_key(k),
            r@.len() == released(old(self).bucket_manager.owned(), chunk_positions@).len(),
            forall|i: int|
                0 <= i < r@.len() ==> #[trigger] r@[i] == cleared_draw(
                    released(old(self).bucket_manager.owned(), chunk_positions@)[i],
                ),
    {
        self.chunk_index_state.unload_chunk_positions(chunk_positions);
        let buckets_deallocated = self.bucket_manager.deallocate_buckets(chunk_positions);
        proof {
            old(self).bucket_manager.lemma_free_count(0);
            lemma_released_bounded(old(self).bucket_manager.owned(), chunk_positions@);
        }
        let mut write_commands: Vec<BufferWriteCommand> = Vec::new();
        let index_count = NUM_INDICES_PER_BUCKET as u32;
        let mut i: usize = 0;
        while i < buckets_deallocated.len()
            invariant
                i <= buckets_deallocated@.len(),
                index_count == NUM_INDICES_PER_BUCKET,
                buckets_deallocated@ == released(old(self).bucket_manager.owned(), chunk_positions@),
                forall|j: int|
                    0 <= j < buckets_deallocated@.len() ==> (#[trigger] buckets_deallocated@[j]).indirect_bucket_index
                        < NUM_BUCKETS_PER_BUFFER,
                write_commands@.len() == i,
                forall|j: int| 0 <= j < i ==> #[trigger] write_commands@[j] == cleared_draw(buckets_deallocated@[j]),
            decreases buckets_deallocated@.len() - i,
        {
            let bucket = buckets_deallocated[i];
            let command = BufferWriteCommand {
                buffer_name: MeshManager::get_indirect_buffer_name(bucket.side),
                offset: bucket.indirect_bucket_index * INDIRECT_ARGS_SIZE,
                data: WritePayload::DrawArgs(
                    DrawIndexedIndirectArgs {
                        index_count: 0,
                        instance_count: 0,
                        first_index: bucket.indirect_bucket_index as u32 * index_count,
                        base_vertex: (bucket.indirect_bucket_index * NUM_VERTICES_PER_BUCKET) as i32,
                        first_instance: 0,
                    },
                ),
            };
            write_commands.push(command);
            i = i + 1;
        }
        write_commands
    }

    /// Unloads the listed chunks: their slots and buckets become free again, and
    /// the draw record of every bucket they owned is cleared, in release order.
    pub fn unload_chunk_positions(&mut self, chunk_positions: &Vec<ChunkPosition>) -> (r: Vec<
        BufferWriteCommand,
    >)
        requires
            old(self).wf(),
        ensures
            final(self).wf(),
            forall|i: int| 0 <= i < chunk_positions@.len() ==> !final(self).recency().contains(
                coords(#[trigger] chunk_positions@[i]),
            ),
            forall|x: (i32, i32, i32)|
                old(self).recency().contains(x) && (forall|i: int|
                    0 <= i < chunk_positions@.len() ==> coords(#[trigger] chunk_positions@[i]) != x)
                    ==> #[trigger] final(self).recency().contains(x),
            final(self).recency_cap() == old(self).recency_cap(),
            final(self).buckets().capacity() == old(self).buckets().capacity(),
            final(self).index_table().capacity() == old(self).index_table().capacity(),
            MeshBucketManager::gave_back(
                old(self).buckets(),
                final(self).buckets(),
                chunk_positions@,
                released(old(self).buckets().owned(), chunk_positions@),
            ),
            forall|i: int|
                0 <= i < chunk_positions@.len() ==> !final(self).index_table().slots().contains_key(
                    position_key(#[trigger] chunk_positions@[i]),
                ),
            r@.len() == released(old(self).buckets().owned(), chunk_positions@).len(),
            forall|i: int|
                0 <= i < r@.len() ==> #[trigger] r@[i] == cleared_draw(
                    released(old(self).buckets().owned(), chunk_positions@)[i],
                ),
    {
        let r = self.unload_parts(chunk_positions);
        proof {
            self.lemma_tracking_after_unload(*old(self), chunk_positions@);
            assert forall|i: int| 0 <= i < chunk_positions@.len() implies !self.buckets().owned().contains_key(
                position_key(#[trigger] chunk_positions@[i])) by {
                lemma_remaining_drops(old(self).buckets().owned(), chunk_positions@, i);
            }
        }
        let ghost mid = *self;
        let mut i: usize = 0;
        while i < chunk_positions.len()
            invariant
                i <= chunk_positions@.len(),
                self.wf(),
                self.bucket_manager == mid.bucket_manager,
                self.chunk_index_state == mid.chunk_index_state,
                self.recency_capacity == mid.recency_capacity,
                self.recency_cap() == mid.recency_cap(),
                forall|j: int| 0 <= j < chunk_positions@.len() ==> !self.buckets().owned().contains_key(
                    position_key(#[trigger] chunk_positions@[j])),
                forall|j: int| 0 <= j < chunk_positions@.len() ==> !self.index_table().slots().contains_key(
                    position_key(#[trigger] chunk_positions@[j])),
                forall|j: int| 0 <= j < i ==> !self.recency().contains(coords(#[trigger] chunk_positions@[j])),
                forall|x: (i32, i32, i32)|
                    mid.recency().contains(x) && (forall|j: int|
                        0 <= j < i ==> coords(#[trigger] chunk_positions@[j]) != x) ==> #[trigger] self.recency().contains(x),
            decreases chunk_positions@.len() - i,
        {
            let p = chunk_positions[i];
            let ghost o = self.recency();
            let c = (p.x, p.y, p.z);
            recency_remove(&mut self.least_recently_meshed_chunks, c);
            proof {
                let w = self.recency();
                assert(w == without(o, c));
                assert forall|k: i128| #[trigger] self.bucket_manager.owned().contains_key(k) implies is_recent(w, k) by {
                    lemma_recent_remove(o, c, k, p);
                }
                assert forall|k: i128| #[trigger] self.chunk_index_state.slots().contains_key(k) implies is_recent(w, k) by {
                    lemma_recent_remove(o, c, k, p);
                }
                assert(!w.contains(c)) by {
                    if w.contains(c) {
                        let jj = choose|jj: int| 0 <= jj < w.len() && w[jj] == c;
                        o.lemma_filter_pred(differs(c), jj);
                    }
                }
                assert forall|j: int| 0 <= j < i + 1 implies !w.contains(coords(#[trigger] chunk_positions@[j])) by {
                    if j < i {
                        let cj = coords(chunk_positions@[j]);
                        if w.contains(cj) {
                            o.lemma_filter_contains_rev(differs(c), cj);
                            assert(o.contains(cj));
                        }
                    }
                }
                assert forall|x: (i32, i32, i32)|
                    mid.recency().contains(x) && (forall|j: int|
                        0 <= j < i + 1 ==> coords(#[trigger] chunk_positions@[j]) != x) implies #[trigger] w.contains(x) by {
                    assert(coords(chunk_positions@[i as int]) != x);
                    assert(o.contains(x));
                    let ii = choose|ii: int| 0 <= ii < o.len() && o[ii] == x;
                    o.lemma_filter_contains(differs(c), ii);
                }
            }
            i = i + 1;
        }
        r
    }

    proof fn lemma_tracking_after_unload(&self, before: MeshManager, ps: Seq<ChunkPosition>)
        requires
            before.wf(),
            self.bucket_manager.wf(),
            self.chunk_index_state.wf(),
            self.least_recently_meshed_chunks == before.least_recently_meshed_chunks,
            self.recency_capacity == before.recency_capacity,
            self.chunk_index_state.capacity() == before.chunk_index_state.capacity(),
            self.bucket_manager.owned() == remaining(before.bucket_manager.owned(), ps),
            forall|k: i128|
                #[trigger] self.chunk_index_state.slots().contains_key(k)
                    ==> before.chunk_index_state.slots().contains_key(k),
        ensures
            self.wf(),
    {
        assert forall|k: i128| #[trigger] self.bucket_manager.owned().contains_key(k) implies is_recent(
            recency_order(self.least_recently_meshed_chunks),
            k,
        ) by {
            lemma_remaining_subset(before.bucket_manager.owned(), ps, k);
        }
    }

    /// Evicts the least recently meshed chunk.
    fn evict_least_recent(&mut self) -> (r: Vec<BufferWriteCommand>)
        requires
            old(self).wf(),
            old(self).recency().len() > 0,
        ensures
            final(self).wf(),
            final(self).recency() == old(self).recency().subrange(1, old(self).recency().len() as int),
            final(self).recency_cap() == old(self).recency_cap(),
            final(self).recency_capacity == old(self).recency_capacity,
            final(self).buckets().capacity() == old(self).buckets().capacity(),
            final(self).index_table().capacity() == old(self).index_table().capacity(),
            forall|i: int| 0 <= i < r@.len() ==> is_clearing(#[trigger] r@[i]),
            ({
                let ps = positions_of(old(self).recency().subrange(0, 1));
                &&& r@ == cleared_draws(released(old(self).buckets().owned(), ps))
                &&& MeshBucketManager::gave_back(old(self).buckets(), final(self).buckets(), ps, released(old(self).buckets().owned(), ps))
                &&& !final(self).index_table().slots().contains_key(coords_key(old(self).recency()[0]))
                &&& forall|k: i128| #[trigger] final(self).index_table().slots().contains_key(k)
                    ==> old(self).index_table().slots().contains_key(k) && final(self).index_table().slots()[k]
                    == old(self).index_table().slots()[k]
                &&& forall|k: i128| #[trigger] old(self).index_table().slots().contains_key(k)
                    && k != coords_key(old(self).recency()[0]) ==> final(self).index_table().slots().contains_key(k)
            }),
    {
        let ghost order = self.recency();
        let lru_chunk_position = recency_pop_lru(&mut self.least_recently_meshed_chunks).unwrap();
        let position = ChunkPosition::new(lru_chunk_position.0, lru_chunk_position.1, lru_chunk_position.2);
        let positions = vec![position];
        let ghost before = *self;
        let r = self.unload_parts(&positions);
        proof {
            assert forall|k: i128| #[trigger] before.chunk_index_state.slots().contains_key(k)
                && k != coords_key(order[0]) implies self.chunk_index_state.slots().contains_key(k) by {
                assert(positions@[0] == position);
                assert forall|i: int| 0 <= i < positions@.len() implies position_key(#[trigger] positions@[i]) != k by {}
            }
            assert(positions@ =~= positions_of(order.subrange(0, 1)));
            assert(r@ =~= cleared_draws(released(before.bucket_manager.owned(), positions@)));
            let k = position_key(position);
            assert(coords_key(order[0]) == k);
            let ps = positions@;
            assert(ps.subrange(1, 1) =~= Seq::<ChunkPosition>::empty());
            assert(remaining(before.bucket_manager.owned().remove(k), Seq::<ChunkPosition>::empty())
                == before.bucket_manager.owned().remove(k));
            assert(self.bucket_manager.owned() == before.bucket_manager.owned().remove(k));
            assert forall|kk: i128| #[trigger] self.bucket_manager.owned().contains_key(kk) implies is_recent(
                recency_order(self.least_recently_meshed_chunks),
                kk,
            ) by {
                assert(old(self).bucket_manager.owned().contains_key(kk));
                lemma_recent_pop(order, kk);
            }
            assert forall|kk: i128| #[trigger] self.chunk_index_state.slots().contains_key(kk) implies is_recent(
                recency_order(self.least_recently_meshed_chunks),
                kk,
            ) by {
                assert(old(self).chunk_index_state.slots().contains_key(kk));
                assert(kk != k);
                lemma_recent_pop(order, kk);
            }
        }
        r
    }

    /// Whether the pool can take a mesh with these vertex counts right away: room
    /// in every side's free queue, a free slot, and room in the recency cache.
    pub open spec fn has_room(&self, lens: Seq<u64>) -> bool {
        &&& forall|t: int| 0 <= t < 6 ==> buckets_needed(#[trigger] lens[t] as int) <= self.buckets().free(t).len()
        &&& self.index_table().free().len() > 0
        &&& self.recency().len() < self.recency_cap()
    }

    /// `new` is `old` after evicting its `j` least recently meshed chunks, which
    /// released their buckets (cleared by the writes `r`, in release order) and
    /// their slots; nothing else changed.
    pub open spec fn evicted_prefix(old: MeshManager, new: MeshManager, r: Seq<BufferWriteCommand>, j: int) -> bool {
        let ps = positions_of(old.recency().subrange(0, j));
        let gone = released(old.buckets().owned(), ps);
        &&& 0 <= j <= old.recency().len()
        &&& new.recency() == old.recency().subrange(j, old.recency().len() as int)
        &&& r == cleared_draws(gone)
        &&& new.buckets().owned() == remaining(old.buckets().owned(), ps)
        &&& forall|u: int| 0 <= u < 6 ==> #[trigger] new.buckets().free(u) == old.buckets().free(u) + of_side(gone, side_at(u))
        &&& forall|i: int| 0 <= i < j ==> !new.index_table().slots().contains_key(coords_key(#[trigger] old.recency()[i]))
        &&& forall|k: i128| #[trigger] new.index_table().slots().contains_key(k)
            ==> old.index_table().slots().contains_key(k) && new.index_table().slots()[k] == old.index_table().slots()[k]
    }

    /// `new` and the writes `r` are what putting a mesh with side vertex counts
    /// `lens` for the chunk keyed `key` into `old` gives, when the `j` least
    /// recently meshed chunks were evicted first:
    /// - the writes clear the draw records of the buckets the evicted chunks gave
    ///   back, in release order, then write each new bucket;
    /// - the evicted chunks own no buckets and hold no slot, other chunks keep
    ///   their buckets and slots;
    /// - the chunk's bucket list is its list after eviction followed by, side by
    ///   side, the first buckets of each side's free queue, into which the
    ///   bucket writes land;
    /// - each free queue is the old one, plus the released buckets of its side,
    ///   less the buckets taken from its front.
    pub open spec fn prepared(
        old: MeshManager,
        new: MeshManager,
        key: i128,
        lens: Seq<u64>,
        r: Seq<BufferWriteCommand>,
        j: int,
    ) -> bool {
        let ps = positions_of(old.recency().subrange(0, j));
        let gone = released(old.buckets().owned(), ps);
        let mid = remaining(old.buckets().owned(), ps);
        let prior: Seq<BucketLocation> = if mid.contains_key(key) {
            mid[key]@
        } else {
            Seq::empty()
        };
        let e = gone.len() as int;
        &&& 0 <= j <= old.recency().len()
        &&& (old.has_room(lens) ==> j == 0)
        &&& forall|i: int| 0 <= i < j ==> #[trigger] Self::no_room_after(old, lens, i)
        &&& r.len() == e + 3 * mesh_buckets(lens)
        &&& r.subrange(0, e) == cleared_draws(gone)
        &&& forall|i: int| 0 <= i < j && coords_key(#[trigger] old.recency()[i]) != key
            ==> !new.buckets().owned().contains_key(coords_key(old.recency()[i]))
        &&& new.buckets().owned().remove(key) == mid.remove(key)
        &&& (mesh_buckets(lens) == 0 ==> new.buckets().owned() == mid)
        &&& (mesh_buckets(lens) > 0 ==> new.buckets().owned().contains_key(key) && new.buckets().owned()[key]@.len()
            == prior.len() + mesh_buckets(lens) && new.buckets().owned()[key]@.subrange(0, prior.len() as int) == prior)
        &&& forall|u: int, k: int|
            0 <= u < 6 && 0 <= k < buckets_needed(lens[u] as int) ==> {
                let b = (old.buckets().free(u) + of_side(gone, side_at(u)))[k];
                &&& new.buckets().owned()[key]@[prior.len() + partial_buckets(lens, u) + k] == b
                &&& bucket_placement(#[trigger] write_group(r, e + 3 * partial_buckets(lens, u), k), b)
            }
        &&& forall|u: int|
            0 <= u < 6 ==> #[trigger] new.buckets().free(u) == (old.buckets().free(u) + of_side(gone, side_at(u))).subrange(
                buckets_needed(lens[u] as int),
                (old.buckets().free(u) + of_side(gone, side_at(u))).len() as int,
            )
        &&& forall|i: int| 0 <= i < j ==> !new.index_table().slots().contains_key(coords_key(#[trigger] old.recency()[i]))
        &&& forall|k: i128| #[trigger] new.index_table().slots().contains_key(k)
            ==> old.index_table().slots().contains_key(k) && new.index_table().slots()[k] == old.index_table().slots()[k]
    }

    /// Evicting only the `i` least recently meshed chunks of `old` leaves no room
    /// for a mesh with vertex counts `lens`.
    pub open spec fn no_room_after(old: MeshManager, lens: Seq<u64>, i: int) -> bool {
        exists|s: MeshManager, w: Seq<BufferWriteCommand>| #[trigger] Self::evicted_prefix(old, s, w, i) && !s.has_room(lens)
    }

    /// `r` is what meshing `chunk` gives when, after the first `k` writes (all
    /// clearing draw records of chunks unloaded or evicted first), the chunk
    /// holds slot `slot` in state `mid`: the writes of `prepare_mesh_for_write`
    /// for a mesh `m` that `greedy_sided` gives for the chunk, that slot and the
    /// requested sides (with `j` chunks evicted), then the write of the chunk's
    /// coordinates into its slot, which it still holds in `new`.
    pub open spec fn generated(
        mid: MeshManager,
        new: MeshManager,
        chunk: Chunk,
        sides: Seq<BlockSide>,
        m: Mesh,
        r: Seq<BufferWriteCommand>,
        j: int,
        k: int,
    ) -> bool {
        let key = position_key(chunk.position);
        let slot = mid.index_table().slots()[key];
        &&& mid.index_table().slots().contains_key(key)
        &&& new.index_table().slots().contains_key(key)
        &&& new.index_table().slots()[key] == slot
        &&& crate::greedy::greedy_result(m, chunk, slot, sides)
        &&& r.len() >= 1
        &&& 0 <= k <= r.len() - 1
        &&& r.last() == (BufferWriteCommand {
            buffer_name: crate::chunk_index_state::CHUNK_INDEX_BUFFER_NAME,
            offset: (slot * 12) as u64,
            data: WritePayload::Coordinates([chunk.position.x, chunk.position.y, chunk.position.z]),
        })
        &&& forall|i: int| 0 <= i < k ==> is_clearing(#[trigger] r[i])
        &&& Self::prepared(mid, new, key, vertex_counts(&m), r.subrange(k, r.len() - 1), j)
    }

    /// The chunk `c` is the most recently meshed, appears once in the recency
    /// order, owns no buckets and holds a slot; the index table and recency cache
    /// have room for more than one chunk. Eviction then never reaches `c`.
    pub open spec fn guarded(&self, c: ChunkPosition) -> bool {
        &&& self.recency().len() > 0
        &&& self.recency().last() == coords(c)
        &&& forall|i: int| 0 <= i < self.recency().len() - 1 ==> #[trigger] self.recency()[i] != coords(c)
        &&& !self.buckets().owned().contains_key(position_key(c))
        &&& self.index_table().slots().contains_key(position_key(c))
        &&& self.index_table().capacity() >= 2
        &&& self.recency_cap() >= 2
    }

    proof fn lemma_room_guarded(&self, lens: Seq<u64>, c: ChunkPosition)
        requires
            self.wf(),
            self.guarded(c),
            self.recency().len() == 1,
            forall|t: int| 0 <= t < 6 ==> buckets_needed(#[trigger] lens[t] as int) <= self.buckets().capacity(),
        ensures
            self.has_room(lens),
    {
        let key = position_key(c);
        let o = self.recency();
        assert(o[0] == coords(c));
        assert(coords_key(o[0]) == key);
        self.chunk_index_state.lemma_counts();
        self.bucket_manager.lemma_free_count(0);
        assert forall|k: i128| !self.bucket_manager.owned().contains_key(k) by {
            if self.bucket_manager.owned().contains_key(k) {
                assert(is_recent(o, k));
                let i = choose|i: int| 0 <= i < o.len() && coords_key(#[trigger] o[i]) == k;
                assert(i == 0);
            }
        }
        assert(self.bucket_manager.owned().dom() =~= Set::empty());
        assert forall|t: int| 0 <= t < 6 implies buckets_needed(#[trigger] lens[t] as int) <= self.buckets().free(t).len() by {
            self.bucket_manager.lemma_free_count(t);
        }
        let dom = self.chunk_index_state.slots().dom();
        assert(dom.subset_of(set![key])) by {
            assert forall|k: i128| dom.contains(k) implies set![key].contains(k) by {
                assert(is_recent(o, k));
                let i = choose|i: int| 0 <= i < o.len() && coords_key(#[trigger] o[i]) == k;
                assert(i == 0);
            }
        }
        vstd::set_lib::lemma_len_subset(dom, set![key]);
        assert(set![key].len() == 1) by {
            assert(set![key] =~= Set::<i128>::empty().insert(key));
        }
    }

    /// `new` is `old` after evicting its `j` least recently meshed chunks, and
    /// evicting fewer would have left no room for vertex counts `lens`.
    #[verifier::opaque]
    pub open spec fn room_made(old: MeshManager, new: MeshManager, r: Seq<BufferWriteCommand>, lens: Seq<u64>, j: int) -> bool {
        &&& Self::evicted_prefix(old, new, r, j)
        &&& forall|i: int| 0 <= i < j ==> #[trigger] Self::no_room_after(old, lens, i)
    }

    /// Evicts least recently meshed chunks until the pool has room for a mesh
    /// with the given vertex counts; returns the clearing writes.
    ///
    /// Room includes room in the recency cache: the cache drops its oldest entry
    /// when full, and a chunk dropped that way would keep its buckets and slot
    /// with nothing left to evict it, so a full cache is treated like a full pool.
    fn make_room(&mut self, vertex_lens: [u64; 6], Ghost(guard): Ghost<Option<ChunkPosition>>) -> (r: Vec<BufferWriteCommand>)
        requires
            old(self).wf(),
            forall|t: int| 0 <= t < 6 ==> buckets_needed(#[trigger] vertex_lens@[t] as int) <= old(self).buckets().capacity(),
            guard is Some ==> old(self).guarded(guard->0),
        ensures
            guard is Some ==> final(self).guarded(guard->0) && final(self).index_table().slots()[position_key(guard->0)]
                == old(self).index_table().slots()[position_key(guard->0)],
            final(self).wf(),
            final(self).has_room(vertex_lens@),
            final(self).buckets().capacity() == old(self).buckets().capacity(),
            final(self).index_table().capacity() == old(self).index_table().capacity(),
            final(self).recency_cap() == old(self).recency_cap(),
            forall|i: int| 0 <= i < r@.len() ==> is_clearing(#[trigger] r@[i]),
            old(self).has_room(vertex_lens@) ==> r@.len() == 0 && *final(self) == *old(self),
            exists|j: int| #[trigger] Self::room_made(*old(self), *final(self), r@, vertex_lens@, j),
    {
        let mut write_commands: Vec<BufferWriteCommand> = Vec::new();
        let ghost mut j: int = 0;
        let ghost mut states: Seq<MeshManager> = Seq::empty();
        let ghost mut writes: Seq<Seq<BufferWriteCommand>> = Seq::empty();
        proof {
            let ps = positions_of(old(self).recency().subrange(0, 0));
            assert(ps =~= Seq::<ChunkPosition>::empty());
            assert(old(self).recency().subrange(0, old(self).recency().len() as int) =~= old(self).recency());
            assert(released(old(self).buckets().owned(), ps) == Seq::<BucketLocation>::empty());
            assert(write_commands@ =~= cleared_draws(Seq::<BucketLocation>::empty()));
            assert forall|u: int| 0 <= u < 6 implies #[trigger] self.buckets().free(u) == old(self).buckets().free(u) + of_side(
                Seq::<BucketLocation>::empty(), side_at(u)) by {
                assert(old(self).buckets().free(u) + of_side(Seq::<BucketLocation>::empty(), side_at(u)) =~= old(self).buckets().free(u));
            }
        }
        let mut evicting = !self.bucket_manager.can_allocate_buckets(vertex_lens)
            || !self.chunk_index_state.can_allocate_index() || recency_len(
            &self.least_recently_meshed_chunks,
        ) >= self.recency_capacity;
        while evicting
            invariant
                self.wf(),
                self.buckets().capacity() == old(self).buckets().capacity(),
                self.index_table().capacity() == old(self).index_table().capacity(),
                self.recency_cap() == old(self).recency_cap(),
                forall|t: int| 0 <= t < 6 ==> buckets_needed(#[trigger] vertex_lens@[t] as int) <= self.buckets().capacity(),
                forall|i: int| 0 <= i < write_commands@.len() ==> is_clearing(#[trigger] write_commands@[i]),
                evicting == !self.has_room(vertex_lens@),
                old(self).has_room(vertex_lens@) ==> write_commands@.len() == 0 && !evicting && *self == *old(self),
                guard is Some ==> self.guarded(guard->0) && self.index_table().slots()[position_key(guard->0)]
                    == old(self).index_table().slots()[position_key(guard->0)],
                Self::evicted_prefix(*old(self), *self, write_commands@, j),
                states.len() == j,
                writes.len() == j,
                forall|i: int| 0 <= i < j ==> Self::evicted_prefix(*old(self), #[trigger] states[i], writes[i], i)
                    && !states[i].has_room(vertex_lens@),
            decreases self.recency().len(),
        {
            proof {
                if self.recency().len() == 0 {
                    self.lemma_room_when_empty(vertex_lens@);
                }
            }
            let ghost s0 = *self;
            proof {
                if guard is Some {
                    let c = guard->0;
                    if self.recency().len() == 1 {
                        self.lemma_room_guarded(vertex_lens@, c);
                    }
                    let f = self.recency()[0];
                    assert(f != coords(c));
                    crate::chunk::lemma_position_key_injective(ChunkPosition { x: f.0, y: f.1, z: f.2 }, c);
                    assert(coords_key(f) != position_key(c));
                }
                states = states.push(s0);
                writes = writes.push(write_commands@);
            }
            let mut unload_commands = self.evict_least_recent();
            proof {
                let o = old(self).recency();
                let ps = positions_of(o.subrange(0, j));
                let p = ChunkPosition { x: o[j].0, y: o[j].1, z: o[j].2 };
                assert(s0.recency()[0] == o[j]);
                assert(positions_of(s0.recency().subrange(0, 1)) =~= seq![p]);
                assert(positions_of(o.subrange(0, j + 1)) =~= ps.push(p));
                lemma_released_push(old(self).buckets().owned(), ps, p);
                let gone = released(old(self).buckets().owned(), ps);
                let more = released(s0.buckets().owned(), seq![p]);
                assert(cleared_draws(gone + more) =~= cleared_draws(gone) + cleared_draws(more));
                assert(self.recency() =~= o.subrange(j + 1, o.len() as int));
                assert forall|u: int| 0 <= u < 6 implies #[trigger] self.buckets().free(u) == old(self).buckets().free(u) + of_side(
                    gone + more, side_at(u)) by {
                    crate::bucket_manager::lemma_of_side_append(gone, more, side_at(u));
                    assert(self.buckets().free(u) == s0.buckets().free(u) + of_side(more, side_at(u)));
                    assert(old(self).buckets().free(u) + of_side(gone, side_at(u)) + of_side(more, side_at(u)) =~= old(self).buckets().free(u)
                        + (of_side(gone, side_at(u)) + of_side(more, side_at(u))));
                }
                assert forall|i: int| 0 <= i < j + 1 implies !self.index_table().slots().contains_key(coords_key(#[trigger] o[i])) by {
                    if i < j {
                        assert(!s0.index_table().slots().contains_key(coords_key(o[i])));
                    }
                }
                assert(Self::evicted_prefix(*old(self), *self, write_commands@ + unload_commands@, j + 1));
                assert forall|i: int| 0 <= i < write_commands@.len() + unload_commands@.len() implies is_clearing(
                    #[trigger] (write_commands@ + unload_commands@)[i]) by {
                    if i >= write_commands@.len() {
                        assert((write_commands@ + unload_commands@)[i] == unload_commands@[i - write_commands@.len()]);
                    } else {
                        assert((write_commands@ + unload_commands@)[i] == write_commands@[i]);
                    }
                }
            }
            write_commands.append(&mut unload_commands);
            proof {
                j = j + 1;
                if guard is Some {
                    let c = guard->0;
                    let key = position_key(c);
                    let o = s0.recency();
                    let ps = positions_of(o.subrange(0, 1));
                    lemma_remaining_subset(s0.buckets().owned(), ps, key);
                    assert(self.recency() == o.subrange(1, o.len() as int));
                    assert(self.recency().last() == o.last());
                }
            }
            evicting = !self.bucket_manager.can_allocate_buckets(vertex_lens)
                || !self.chunk_index_state.can_allocate_index() || recency_len(
                &self.least_recently_meshed_chunks,
            ) >= self.recency_capacity;
        }
        proof {
            assert forall|i: int| 0 <= i < j implies #[trigger] Self::no_room_after(*old(self), vertex_lens@, i) by {
                assert(Self::evicted_prefix(*old(self), states[i], writes[i], i));
            }
            reveal(MeshManager::room_made);
            assert(Self::room_made(*old(self), *self, write_commands@, vertex_lens@, j));
        }
        write_commands
    }

    /// Allocates the buckets of one non-empty side of the chunk's mesh and appends
    /// their writes.
    fn write_side(
        &mut self,
        chunk_position: ChunkPosition,
        side: BlockSide,
        vertices: Vec<Vertex>,
        indices: Vec<u32>,
        write_commands: &mut Vec<BufferWriteCommand>,
    )
        requires
            old(self).wf(),
            is_recent(old(self).recency(), position_key(chunk_position)),
            vertices@.len() > 0,
            bucketable(vertices@.len() as int, indices@),
            buckets_needed(vertices@.len() as int) <= old(self).buckets().free(side_index(side) as int).len(),
        ensures
            final(self).wf(),
            final(self).buckets().capacity() == old(self).buckets().capacity(),
            final(self).index_table() == old(self).index_table(),
            final(self).recency() == old(self).recency(),
            final(self).recency_cap() == old(self).recency_cap(),
            forall|u: int| 0 <= u < 6 && u != side_index(side) ==> #[trigger] final(self).buckets().free(u) == old(self).buckets().free(u),
            final(self).buckets().free(side_index(side) as int) == old(self).buckets().free(side_index(side) as int).subrange(
                buckets_needed(vertices@.len() as int),
                old(self).buckets().free(side_index(side) as int).len() as int,
            ),
            final(self).buckets().owned().contains_key(position_key(chunk_position)),
            MeshBucketManager::took_buckets(
                old(self).buckets(),
                final(self).buckets(),
                position_key(chunk_position),
                side_index(side) as int,
                buckets_needed(vertices@.len() as int),
            ),
            final(write_commands)@.len() == old(write_commands)@.len() + 3 * buckets_needed(vertices@.len() as int),
            final(write_commands)@.subrange(0, old(write_commands)@.len() as int) == old(write_commands)@,
            forall|k: int|
                0 <= k < buckets_needed(vertices@.len() as int) ==> bucket_content(
                    #[trigger] write_group(final(write_commands)@, old(write_commands)@.len() as int, k),
                    side,
                    k,
                    vertices@,
                    indices@,
                ) && bucket_placement(
                    write_group(final(write_commands)@, old(write_commands)@.len() as int, k),
                    old(self).buckets().free(side_index(side) as int)[k],
                ),
    {
        let ghost vs0 = vertices@;
        let ghost is0 = indices@;
        let n = vertices.len();
        proof {
            self.bucket_manager.lemma_free_count(side_index(side) as int);
        }
        let ghost before = *self;
        let ghost free_t = self.buckets().free(side_index(side) as int);
        let buckets = self.bucket_manager.allocate_buckets(chunk_position, vertices, indices, side);
        proof {
            assert forall|kk: i128| #[trigger] self.bucket_manager.owned().contains_key(kk) implies is_recent(
                recency_order(self.least_recently_meshed_chunks), kk) by {
                if kk != position_key(chunk_position) {
                    assert(self.bucket_manager.owned().remove(position_key(chunk_position)).contains_key(kk));
                    assert(before.bucket_manager.owned().contains_key(kk));
                }
            }
            assert forall|j: int| 0 <= j < buckets@.len() implies (#[trigger] buckets@[j]).0.indirect_bucket_index < NUM_BUCKETS_PER_BUFFER by {
                assert(buckets@[j].0 == free_t[j]);
            }
        }
        let ghost start = write_commands@;
        let ghost all = buckets@;
        let mut remaining_buckets = buckets;
        let mut b: usize = 0;
        while remaining_buckets.len() > 0
            invariant
                b + remaining_buckets@.len() == buckets_needed(n as int),
                all.len() == buckets_needed(n as int),
                remaining_buckets@ == all.subrange(b as int, all.len() as int),
                n == vs0.len(),
                forall|bb: int|
                    0 <= bb < all.len() ==> {
                        let (bucket, v, i) = #[trigger] all[bb];
                        let vc = bucket_vertex_count(n as int, bb);
                        &&& bucket == free_t[bb]
                        &&& v@ == vs0.subrange(1024 * bb, 1024 * bb + vc)
                        &&& i@.len() == vc * 3 / 2
                        &&& forall|p: int| 0 <= p < i@.len() ==> #[trigger] i@[p] == is0[1536 * bb + p] - 1024 * bb
                    },
                forall|k: int|
                    0 <= k < b ==> bucket_content(
                        #[trigger] write_group(write_commands@, start.len() as int, k),
                        side,
                        k,
                        vs0,
                        is0,
                    ) && bucket_placement(write_group(write_commands@, start.len() as int, k), free_t[k]),
                write_commands@.len() == start.len() + 3 * b,
                write_commands@.subrange(0, start.len() as int) == start,
                forall|j: int| 0 <= j < remaining_buckets@.len() ==> (#[trigger] remaining_buckets@[j]).0.indirect_bucket_index < NUM_BUCKETS_PER_BUFFER
                    && remaining_buckets@[j].2@.len() <= NUM_INDICES_PER_BUCKET,
            decreases remaining_buckets@.len(),
        {
            let ghost rb = remaining_buckets@;
            let ghost wc_before = write_commands@;
            let (bucket, bucket_vertices, bucket_indices) = remaining_buckets.remove(0);
            proof {
                assert(rb[0] == all[b as int]);
            }
            proof {
                assert(remaining_buckets@ =~= rb.subrange(1, rb.len() as int));
                assert forall|j: int| 0 <= j < remaining_buckets@.len() implies (#[trigger] remaining_buckets@[j]).0.indirect_bucket_index < NUM_BUCKETS_PER_BUFFER
                    && remaining_buckets@[j].2@.len() <= NUM_INDICES_PER_BUCKET by {
                    assert(remaining_buckets@[j] == rb[j + 1]);
                }
            }
            let indices_len = bucket_indices.len();
            write_commands.push(BufferWriteCommand {
                buffer_name: MeshManager::get_vertex_buffer_name(side),
                offset: bucket.vertex_buffer_offset,
                data: WritePayload::Vertices(bucket_vertices),
            });
            write_commands.push(BufferWriteCommand {
                buffer_name: MeshManager::get_index_buffer_name(side),
                offset: bucket.index_buffer_offset,
                data: WritePayload::Indices(bucket_indices),
            });
            write_commands.push(BufferWriteCommand {
                buffer_name: MeshManager::get_indirect_buffer_name(side),
                offset: bucket.indirect_bucket_index * INDIRECT_ARGS_SIZE,
                data: WritePayload::DrawArgs(DrawIndexedIndirectArgs {
                    index_count: indices_len as u32,
                    instance_count: 1,
                    first_index: (bucket.indirect_bucket_index * NUM_INDICES_PER_BUCKET) as u32,
                    base_vertex: (bucket.indirect_bucket_index * NUM_VERTICES_PER_BUCKET) as i32,
                    first_instance: 0,
                }),
            });
            proof {
                assert(write_commands@.subrange(0, start.len() as int) =~= start);
                let g = write_group(write_commands@, start.len() as int, b as int);
                assert(g =~= wc_before.subrange(0, 0).push(write_commands@[start.len() + 3 * b]).push(write_commands@[start.len() + 3 * b + 1]).push(write_commands@[start.len() + 3 * b + 2]));
                assert forall|k: int| 0 <= k < b + 1 implies bucket_content(
                    #[trigger] write_group(write_commands@, start.len() as int, k),
                    side,
                    k,
                    vs0,
                    is0,
                ) && bucket_placement(write_group(write_commands@, start.len() as int, k), free_t[k]) by {
                    if k < b {
                        assert(write_group(write_commands@, start.len() as int, k) =~= write_group(wc_before, start.len() as int, k));
                    }
                }
                assert(remaining_buckets@ =~= all.subrange(b + 1, all.len() as int));
            }
            b = b + 1;
        }
    }

    /// Puts a freshly built mesh of the chunk at `chunk_position` into the pool.
    ///
    /// While the pool lacks room for it, the least recently meshed chunk is
    /// evicted and the draw records of its buckets are cleared. The chunk then
    /// becomes the most recently meshed, and each non-empty side is split into
    /// buckets of its side, each written as vertices, indices and a draw record.
    /// The writes returned are the clearing ones first, then three per bucket.
    ///
    /// Room also means room in the recency cache: a full cache would silently
    /// drop its oldest chunk on the next insert, leaving that chunk's buckets and
    /// slot with nothing to evict them, so a full cache evicts like a full pool
    /// (even for an empty mesh). Unloading takes chunks out of the cache, so it
    /// fills only when more chunks than it holds are meshed at once.
    #[verifier::rlimit(100)]
    pub fn prepare_mesh_for_write(&mut self, chunk_position: ChunkPosition, mesh: Mesh) -> (r: Vec<
        BufferWriteCommand,
    >)
        requires
            old(self).wf(),
            mesh_fits(&mesh, old(self).buckets().capacity()),
        ensures
            final(self).wf(),
            final(self).buckets().capacity() == old(self).buckets().capacity(),
            final(self).index_table().capacity() == old(self).index_table().capacity(),
            final(self).recency_cap() == old(self).recency_cap(),
            final(self).recency().len() > 0,
            final(self).recency().last() == coords(chunk_position),
            ({
                let lens = Seq::new(6, |t: int| mesh.mesh@[t].vertices@.len() as u64);
                let e = r@.len() - 3 * mesh_buckets(lens);
                &&& e >= 0
                &&& forall|i: int| 0 <= i < e ==> is_clearing(#[trigger] r@[i])
                &&& old(self).has_room(lens) ==> e == 0
            }),
            (exists|t: int| 0 <= t < 6 && (#[trigger] mesh.mesh@[t]).vertices@.len() > 0)
                ==> final(self).buckets().owned().contains_key(position_key(chunk_position)),
            ({
                let lens = Seq::new(6, |t: int| mesh.mesh@[t].vertices@.len() as u64);
                let e = r@.len() - 3 * mesh_buckets(lens);
                forall|u: int, k: int|
                    0 <= u < 6 && 0 <= k < buckets_needed(lens[u] as int) ==> bucket_content(
                        #[trigger] write_group(r@, e + 3 * partial_buckets(lens, u), k),
                        side_at(u),
                        k,
                        mesh.mesh@[u].vertices@,
                        mesh.mesh@[u].indices@,
                    ) && (old(self).has_room(lens) ==> bucket_placement(
                        write_group(r@, e + 3 * partial_buckets(lens, u), k),
                        old(self).buckets().free(u)[k],
                    ))
            }),
            exists|j: int| #[trigger] Self::prepared(
                *old(self),
                *final(self),
                position_key(chunk_position),
                vertex_counts(&mesh),
                r@,
                j,
            ),
            old(self).has_room(Seq::new(6, |t: int| mesh.mesh@[t].vertices@.len() as u64)) ==> forall|t: int|
                0 <= t < 6 ==> #[trigger] final(self).buckets().free(t) == old(self).buckets().free(t).subrange(
                    buckets_needed(mesh.mesh@[t].vertices@.len() as int),
                    old(self).buckets().free(t).len() as int,
                ),
    {
        self.prepare_inner(chunk_position, mesh, Ghost(false))
    }

    /// Puts a mesh into the pool; see `prepare_mesh_for_write`. When `guarded`,
    /// the chunk itself is never evicted and keeps its slot.
    #[verifier::rlimit(100)]
    fn prepare_inner(&mut self, chunk_position: ChunkPosition, mesh: Mesh, Ghost(guarded): Ghost<bool>) -> (r: Vec<
        BufferWriteCommand,
    >)
        requires
            old(self).wf(),
            mesh_fits(&mesh, old(self).buckets().capacity()),
            guarded ==> old(self).guarded(chunk_position),
        ensures
            guarded ==> final(self).index_table().slots().contains_key(position_key(chunk_position))
                && final(self).index_table().slots()[position_key(chunk_position)]
                == old(self).index_table().slots()[position_key(chunk_position)],
            final(self).wf(),
            final(self).buckets().capacity() == old(self).buckets().capacity(),
            final(self).index_table().capacity() == old(self).index_table().capacity(),
            final(self).recency_cap() == old(self).recency_cap(),
            final(self).recency().len() > 0,
            final(self).recency().last() == coords(chunk_position),
            ({
                let lens = Seq::new(6, |t: int| mesh.mesh@[t].vertices@.len() as u64);
                let e = r@.len() - 3 * mesh_buckets(lens);
                &&& e >= 0
                &&& forall|i: int| 0 <= i < e ==> is_clearing(#[trigger] r@[i])
                &&& old(self).has_room(lens) ==> e == 0
            }),
            (exists|t: int| 0 <= t < 6 && (#[trigger] mesh.mesh@[t]).vertices@.len() > 0)
                ==> final(self).buckets().owned().contains_key(position_key(chunk_position)),
            ({
                let lens = Seq::new(6, |t: int| mesh.mesh@[t].vertices@.len() as u64);
                let e = r@.len() - 3 * mesh_buckets(lens);
                forall|u: int, k: int|
                    0 <= u < 6 && 0 <= k < buckets_needed(lens[u] as int) ==> bucket_content(
                        #[trigger] write_group(r@, e + 3 * partial_buckets(lens, u), k),
                        side_at(u),
                        k,
                        mesh.mesh@[u].vertices@,
                        mesh.mesh@[u].indices@,
                    ) && (old(self).has_room(lens) ==> bucket_placement(
                        write_group(r@, e + 3 * partial_buckets(lens, u), k),
                        old(self).buckets().free(u)[k],
                    ))
            }),
            exists|j: int| #[trigger] Self::prepared(
                *old(self),
                *final(self),
                position_key(chunk_position),
                vertex_counts(&mesh),
                r@,
                j,
            ),
            old(self).has_room(Seq::new(6, |t: int| mesh.mesh@[t].vertices@.len() as u64)) ==> forall|t: int|
                0 <= t < 6 ==> #[trigger] final(self).buckets().free(t) == old(self).buckets().free(t).subrange(
                    buckets_needed(mesh.mesh@[t].vertices@.len() as int),
                    old(self).buckets().free(t).len() as int,
                ),
    {
        let ghost lens_s = Seq::new(6, |t: int| mesh.mesh@[t].vertices@.len() as u64);
        let vertex_lens = mesh.get_vertex_lens();
        proof {
            assert(lens_s == vertex_counts(&mesh));
            assert(vertex_lens@ =~= lens_s);
        }
        let mut write_commands = self.make_room(vertex_lens, Ghost(if guarded { Some(chunk_position) } else { None }));
        let ghost jj = choose|j: int| Self::room_made(*old(self), *self, write_commands@, vertex_lens@, j);
        proof {
            reveal(MeshManager::room_made);
            assert(Self::evicted_prefix(*old(self), *self, write_commands@, jj));
        }
        let ghost mid = *self;
        let ghost key = position_key(chunk_position);
        let ghost prior: Seq<BucketLocation> = if mid.buckets().owned().contains_key(key) {
            mid.buckets().owned()[key]@
        } else {
            Seq::empty()
        };
        let ghost e = write_commands@.len() as int;
        let ghost evict_writes = write_commands@;
        proof {
            assert(write_commands@.subrange(0, e) =~= evict_writes);
        }
        let ghost roomy = old(self).has_room(lens_s);
        let ghost free_start = Seq::new(6, |u: int| self.buckets().free(u));
        let ghost order0 = self.recency();
        recency_push(&mut self.least_recently_meshed_chunks, (chunk_position.x, chunk_position.y, chunk_position.z));
        proof {
            assert forall|kk: i128| #[trigger] self.bucket_manager.owned().contains_key(kk) implies is_recent(
                recency_order(self.least_recently_meshed_chunks), kk) by {
                lemma_recent_push(order0, coords(chunk_position), kk);
            }
            assert forall|kk: i128| #[trigger] self.chunk_index_state.slots().contains_key(kk) implies is_recent(
                recency_order(self.least_recently_meshed_chunks), kk) by {
                lemma_recent_push(order0, coords(chunk_position), kk);
            }
            lemma_recent_push(order0, coords(chunk_position), position_key(chunk_position));
        }
        let mut sides = mesh.mesh;
        let mut t: usize = 0;
        while t < 6
            invariant
                t <= 6,
                self.wf(),
                self.buckets().capacity() == old(self).buckets().capacity(),
                self.index_table().capacity() == old(self).index_table().capacity(),
                self.recency_cap() == old(self).recency_cap(),
                self.recency().len() > 0,
                self.recency().last() == coords(chunk_position),
                is_recent(self.recency(), position_key(chunk_position)),
                sides@.len() == 6,
                lens_s.len() == 6,
                forall|u: int| 0 <= u < 6 ==> #[trigger] lens_s[u] == mesh.mesh@[u].vertices@.len() as u64,
                forall|u: int| t <= u < 6 ==> #[trigger] sides@[u] == mesh.mesh@[u],
                forall|u: int| t <= u < 6 ==> buckets_needed(#[trigger] lens_s[u] as int) <= self.buckets().free(u).len(),
                mesh_fits(&mesh, old(self).buckets().capacity()),
                0 <= e <= write_commands@.len(),
                forall|i: int| 0 <= i < e ==> is_clearing(#[trigger] write_commands@[i]),
                write_commands@.len() - e == 3 * partial_buckets(lens_s, t as int),
                (exists|u: int| 0 <= u < t && (#[trigger] mesh.mesh@[u]).vertices@.len() > 0)
                    ==> self.buckets().owned().contains_key(position_key(chunk_position)),
                roomy ==> forall|u: int| 0 <= u < 6 ==> #[trigger] free_start[u] == old(self).buckets().free(u),
                roomy == old(self).has_room(lens_s),
                Self::evicted_prefix(*old(self), mid, evict_writes, jj),
                Self::room_made(*old(self), mid, evict_writes, lens_s, jj),
                write_commands@.subrange(0, e) == evict_writes,
                key == position_key(chunk_position),
                prior == if mid.buckets().owned().contains_key(key) {
                    mid.buckets().owned()[key]@
                } else {
                    Seq::<BucketLocation>::empty()
                },
                self.index_table() == mid.index_table(),
                self.buckets().owned().remove(key) == mid.buckets().owned().remove(key),
                partial_buckets(lens_s, t as int) == 0 ==> self.buckets().owned() == mid.buckets().owned(),
                partial_buckets(lens_s, t as int) > 0 ==> self.buckets().owned().contains_key(key)
                    && self.buckets().owned()[key]@.len() == prior.len() + partial_buckets(lens_s, t as int)
                    && self.buckets().owned()[key]@.subrange(0, prior.len() as int) == prior,
                forall|u: int, k: int|
                    0 <= u < t && 0 <= k < buckets_needed(lens_s[u] as int) ==> #[trigger] self.buckets().owned()[key]@[prior.len()
                        + partial_buckets(lens_s, u) + k] == free_start[u][k],
                forall|u: int| 0 <= u < 6 ==> #[trigger] free_start[u] == mid.buckets().free(u),
                forall|u: int, k: int|
                    0 <= u < t && 0 <= k < buckets_needed(lens_s[u] as int) ==> bucket_content(
                        #[trigger] write_group(write_commands@, e + 3 * partial_buckets(lens_s, u), k),
                        side_at(u),
                        k,
                        mesh.mesh@[u].vertices@,
                        mesh.mesh@[u].indices@,
                    ) && bucket_placement(
                        write_group(write_commands@, e + 3 * partial_buckets(lens_s, u), k),
                        free_start[u][k],
                    ),
                forall|u: int| 0 <= u < 6 ==> #[trigger] self.buckets().free(u) == if u < t {
                    free_start[u].subrange(buckets_needed(lens_s[u] as int), free_start[u].len() as int)
                } else {
                    free_start[u]
                },
            decreases 6 - t,
        {
            let side = BlockSide::from_index(t);
            let n = sides[t].vertices.len();
            let ghost wc0 = write_commands@;
            let ghost sw = mesh.mesh@[t as int];
            proof {
                assert(sides@[t as int] == mesh.mesh@[t as int]);
                assert(bucketable(sw.vertices@.len() as int, sw.indices@));
                assert(lens_s[t as int] == n);
            }
            if n > 0 {
                let mut vertices: Vec<Vertex> = Vec::new();
                let mut indices: Vec<u32> = Vec::new();
                std::mem::swap(&mut vertices, &mut sides[t].vertices);
                std::mem::swap(&mut indices, &mut sides[t].indices);
                let ghost wc_before = write_commands@;
                let ghost before = *self;
                let ghost vlen = vertices@.len() as int;
                proof {
                    assert(side_index(side) == t);
                    assert(vlen == n);
                    assert(vertices@ == mesh.mesh@[t as int].vertices@);
                    assert(indices@ == mesh.mesh@[t as int].indices@);
                }
                self.write_side(chunk_position, side, vertices, indices, &mut write_commands);
                proof {
                    let nb = buckets_needed(n as int);
                    assert(MeshBucketManager::took_buckets(before.buckets(), self.buckets(), key, t as int, nb));
                    assert(self.buckets().owned().remove(key) == before.buckets().owned().remove(key));
                    assert(before.buckets().free(t as int) == free_start[t as int]);
                    assert(write_commands@.subrange(0, e) =~= wc_before.subrange(0, e)) by {
                        assert forall|q: int| 0 <= q < e implies write_commands@[q] == wc_before[q] by {
                            assert(write_commands@.subrange(0, wc_before.len() as int)[q] == wc_before[q]);
                        }
                    }
                    lemma_record_step(before.buckets(), self.buckets(), mid.buckets(), key, t as int, nb, lens_s, prior, free_start);
                    assert forall|u: int, k: int|
                        0 <= u < t + 1 && 0 <= k < buckets_needed(lens_s[u] as int) implies bucket_content(
                            #[trigger] write_group(write_commands@, e + 3 * partial_buckets(lens_s, u), k),
                            side_at(u),
                            k,
                            mesh.mesh@[u].vertices@,
                            mesh.mesh@[u].indices@,
                        ) && bucket_placement(
                            write_group(write_commands@, e + 3 * partial_buckets(lens_s, u), k),
                            free_start[u][k],
                        ) by {
                        if u < t {
                            lemma_partial_buckets_mono(lens_s, u + 1, t as int);
                            lemma_partial_buckets_mono(lens_s, 0, u);
                            assert(partial_buckets(lens_s, u + 1) == partial_buckets(lens_s, u) + buckets_needed(lens_s[u] as int));
                            let lo = e + 3 * partial_buckets(lens_s, u) + 3 * k;
                            assert(lo + 3 <= wc_before.len());
                            assert forall|q: int| lo <= q < lo + 3 implies write_commands@[q] == wc_before[q] by {
                                assert(write_commands@.subrange(0, wc_before.len() as int)[q] == wc_before[q]);
                            }
                            assert(write_group(write_commands@, e + 3 * partial_buckets(lens_s, u), k)
                                =~= write_group(wc_before, e + 3 * partial_buckets(lens_s, u), k));
                        } else {
                            assert(wc_before.len() == e + 3 * partial_buckets(lens_s, u));
                        }
                    }
                    assert forall|i: int| 0 <= i < e implies is_clearing(#[trigger] write_commands@[i]) by {
                        assert(write_commands@[i] == write_commands@.subrange(0, wc0.len() as int)[i]);
                    }
                }
            } else {
                proof {
                    assert(buckets_needed(0) == 0);
                    assert(free_start[t as int].subrange(0, free_start[t as int].len() as int) =~= free_start[t as int]);
                }
            }
            t = t + 1;
        }
        proof {
            reveal_with_fuel(partial_buckets, 7);
            assert(partial_buckets(lens_s, 6) == mesh_buckets(lens_s));
            let o = old(self).recency();
            let ps = positions_of(o.subrange(0, jj));
            let gone = released(old(self).buckets().owned(), ps);
            assert(evict_writes == cleared_draws(gone));
            assert(gone.len() == e);
            assert(write_commands@.subrange(0, gone.len() as int) == cleared_draws(gone));
            assert forall|i: int| 0 <= i < jj && coords_key(#[trigger] o[i]) != key
                implies !self.buckets().owned().contains_key(coords_key(o[i])) by {
                lemma_remaining_drops(old(self).buckets().owned(), ps, i);
                assert(ps[i] == ChunkPosition { x: o[i].0, y: o[i].1, z: o[i].2 });
                assert(!self.buckets().owned().remove(key).contains_key(coords_key(o[i])));
            }
            if old(self).has_room(lens_s) {
                assert(o.subrange(jj, o.len() as int).len() == o.len());
            }
            assert forall|u: int, k: int|
                0 <= u < 6 && 0 <= k < buckets_needed(lens_s[u] as int) implies {
                    let b = (old(self).buckets().free(u) + of_side(gone, side_at(u)))[k];
                    &&& self.buckets().owned()[key]@[prior.len() + partial_buckets(lens_s, u) + k] == b
                    &&& bucket_placement(#[trigger] write_group(write_commands@, e + 3 * partial_buckets(lens_s, u), k), b)
                } by {
                assert(free_start[u] == mid.buckets().free(u));
                assert(self.buckets().owned()[key]@[prior.len() + partial_buckets(lens_s, u) + k] == free_start[u][k]);
            }
            reveal(MeshManager::room_made);
            assert(Self::prepared(*old(self), *self, key, lens_s, write_commands@, jj));
        }
        write_commands
    }

    /// Whether the chunk at `chunk_position` owns buckets; if so it becomes the
    /// most recently meshed.
    pub fn is_chunk_meshed(&mut self, chunk_position: ChunkPosition) -> (r: bool)
        requires
            old(self).wf(),
        ensures
            final(self).wf(),
            r == old(self).buckets().owned().contains_key(position_key(chunk_position)),
            final(self).buckets() == old(self).buckets(),
            final(self).index_table() == old(self).index_table(),
            final(self).recency_cap() == old(self).recency_cap(),
            final(self).recency() == if r {
                without(old(self).recency(), coords(chunk_position)).push(coords(chunk_position))
            } else {
                old(self).recency()
            },
    {
        let is_chunk_allocated = self.bucket_manager.is_chunk_allocated(chunk_position);
        if is_chunk_allocated {
            let ghost order0 = self.recency();
            proof {
                lemma_recent_contains(order0, chunk_position);
            }
            recency_promote(&mut self.least_recently_meshed_chunks, (chunk_position.x, chunk_position.y, chunk_position.z));
            proof {
                if order0.contains(coords(chunk_position)) {
                    assert forall|kk: i128| #[trigger] self.bucket_manager.owned().contains_key(kk) implies is_recent(
                        recency_order(self.least_recently_meshed_chunks), kk) by {
                        lemma_recent_push(order0, coords(chunk_position), kk);
                    }
                    assert forall|kk: i128| #[trigger] self.chunk_index_state.slots().contains_key(kk) implies is_recent(
                        recency_order(self.least_recently_meshed_chunks), kk) by {
                        lemma_recent_push(order0, coords(chunk_position), kk);
                    }
                }
            }
        }
        is_chunk_allocated
    }

    /// Meshes the requested sides of a chunk and puts the mesh into the pool.
    ///
    /// The chunk first gets a slot in the chunk index table (evicting least
    /// recently meshed chunks while no slot or recency room is left), so that its
    /// vertices can carry that slot; the writes returned are those of
    /// `prepare_mesh_for_write`, then the write of the chunk's coordinates into
    /// its slot.
    #[verifier::rlimit(100)]
    pub fn generate_mesh_for_chunk(&mut self, chunk: &Chunk, sides_to_generate: &Vec<BlockSide>) -> (r:
        Vec<BufferWriteCommand>)
        requires
            old(self).wf(),
            old(self).buckets().capacity() >= 16,
            old(self).index_table().capacity() >= 2,
            old(self).recency_cap() >= 2,
            chunk.wf(),
            sides_to_generate@.no_duplicates(),
            forall|b: int| 0 <= b < chunk.blocks@.len() ==> (#[trigger] chunk.blocks@[b]).block_type < 4,
        ensures
            final(self).wf(),
            final(self).buckets().capacity() == old(self).buckets().capacity(),
            final(self).index_table().capacity() == old(self).index_table().capacity(),
            final(self).recency_cap() == old(self).recency_cap(),
            final(self).recency().last() == coords(chunk.position),
            r@.len() >= 1,
            r@.last().buffer_name == crate::chunk_index_state::CHUNK_INDEX_BUFFER_NAME,
            r@.last().data == WritePayload::Coordinates([chunk.position.x, chunk.position.y, chunk.position.z]),
            (exists|s: BlockSide| #[trigger] sides_to_generate@.contains(s) && count_exposed(chunk.bits(), 4096, s) > 0)
                ==> final(self).buckets().owned().contains_key(position_key(chunk.position)),
            final(self).index_table().slots().contains_key(position_key(chunk.position)),
            r@.last().offset == final(self).index_table().slots()[position_key(chunk.position)] * 12,
            exists|mid: MeshManager, m: Mesh, j: int, k: int| #[trigger] Self::generated(
                mid,
                *final(self),
                *chunk,
                sides_to_generate@,
                m,
                r@,
                j,
                k,
            ),
            r@.last().offset % 12 == 0,
            forall|q: int| 0 <= q < r@.len() ==> #[trigger] vertices_carry(r@[q], r@.last().offset),
    {
        let position = chunk.position;
        let own = vec![position];
        let mut early_commands = self.unload_chunk_positions(&own);
        proof {
            assert(own@[0] == position);
            assert(own@.subrange(1, 1) =~= Seq::<ChunkPosition>::empty());
            lemma_remaining_drops(old(self).buckets().owned(), own@, 0);
            assert forall|i: int| 0 <= i < early_commands@.len() implies is_clearing(#[trigger] early_commands@[i]) by {}
        }
        while !self.chunk_index_state.can_allocate_index() || recency_len(&self.least_recently_meshed_chunks)
            >= self.recency_capacity
            invariant
                self.wf(),
                !self.buckets().owned().contains_key(position_key(position)),
                self.index_table().capacity() >= 2,
                self.recency_cap() >= 2,
                self.buckets().capacity() == old(self).buckets().capacity(),
                self.index_table().capacity() == old(self).index_table().capacity(),
                self.recency_cap() == old(self).recency_cap(),
                forall|i: int| 0 <= i < early_commands@.len() ==> is_clearing(#[trigger] early_commands@[i]),
            decreases self.recency().len(),
        {
            proof {
                if self.recency().len() == 0 {
                    let z = seq![0u64, 0, 0, 0, 0, 0];
                    self.bucket_manager.lemma_free_count(0);
                    assert(buckets_needed(0) == 0);
                    assert forall|t: int| 0 <= t < 6 implies buckets_needed(#[trigger] z[t] as int) <= self.buckets().capacity() by {
                        assert(z[t] == 0);
                    }
                    self.lemma_room_when_empty(z);
                }
            }
            let ghost s0 = *self;
            let mut unload_commands = self.evict_least_recent();
            proof {
                lemma_remaining_subset(s0.buckets().owned(), positions_of(s0.recency().subrange(0, 1)), position_key(position));
                assert forall|i: int| 0 <= i < early_commands@.len() + unload_commands@.len() implies is_clearing(
                    #[trigger] (early_commands@ + unload_commands@)[i]) by {
                    if i >= early_commands@.len() {
                        assert((early_commands@ + unload_commands@)[i] == unload_commands@[i - early_commands@.len()]);
                    } else {
                        assert((early_commands@ + unload_commands@)[i] == early_commands@[i]);
                    }
                }
            }
            early_commands.append(&mut unload_commands);
        }
        let positions = vec![position];
        let ghost order0 = self.recency();
        let ghost slots0 = self.chunk_index_state.slots();
        let chunk_index_buffer_write_commands = self.chunk_index_state.load_chunk_positions(&positions);
        recency_push(&mut self.least_recently_meshed_chunks, (position.x, position.y, position.z));
        proof {
            assert(positions@[0] == position);
            assert forall|kk: i128| #[trigger] self.bucket_manager.owned().contains_key(kk) implies is_recent(
                recency_order(self.least_recently_meshed_chunks), kk) by {
                lemma_recent_push(order0, coords(position), kk);
            }
            assert forall|kk: i128| #[trigger] self.chunk_index_state.slots().contains_key(kk) implies is_recent(
                recency_order(self.least_recently_meshed_chunks), kk) by {
                if kk != position_key(position) {
                    assert(slots0.contains_key(kk)) by {
                        if !slots0.contains_key(kk) {
                            let j = choose|j: int| 0 <= j < positions@.len() && position_key(#[trigger] positions@[j]) == kk;
                            assert(positions@[j] == position);
                        }
                    }
                }
                lemma_recent_push(order0, coords(position), kk);
            }
            let c = coords(position);
            let o2 = self.recency();
            if order0.contains(c) {
                let w = without(order0, c);
                assert(o2 == w.push(c));
                assert forall|i: int| 0 <= i < o2.len() - 1 implies #[trigger] o2[i] != c by {
                    order0.lemma_filter_pred(differs(c), i);
                    assert(o2[i] == w[i]);
                }
            } else {
                assert(o2 == order0.push(c));
                assert forall|i: int| 0 <= i < o2.len() - 1 implies #[trigger] o2[i] != c by {
                    assert(o2[i] == order0[i]);
                }
            }
            assert(self.guarded(position));
        }
        let chunk_index = self.chunk_index_state.get_index_for_position(position);
        let mesh = greedy_sided(chunk, chunk_index, sides_to_generate);
        proof {
            assert forall|t: int| 0 <= t < 6 implies bucketable(#[trigger] mesh.mesh@[t].vertices@.len() as int, mesh.mesh@[t].indices@)
                && buckets_needed(mesh.mesh@[t].vertices@.len() as int) <= self.buckets().capacity() by {
                crate::greedy::lemma_count_exposed_le(chunk.bits(), 4096, side_at(t));
                let n = mesh.mesh@[t].vertices@.len() as int;
                assert(n <= 16384);
                assert(buckets_needed(n) <= 16);
                lemma_quads_bucketable(&mesh.mesh@[t]);
            }
            if exists|s: BlockSide| #[trigger] sides_to_generate@.contains(s) && count_exposed(chunk.bits(), 4096, s) > 0 {
                let s = choose|s: BlockSide| #[trigger] sides_to_generate@.contains(s) && count_exposed(chunk.bits(), 4096, s) > 0;
                crate::block::lemma_side_index_round_trip(s);
                let t = side_index(s) as int;
                assert(crate::mesh::quad_area_sum(mesh.mesh@[t].vertices@) > 0);
                assert(mesh.mesh@[t].vertices@.len() > 0) by {
                    if mesh.mesh@[t].vertices@.len() == 0 {
                        assert(crate::mesh::quad_area_sum(mesh.mesh@[t].vertices@) == 0);
                    }
                }
            }
        }
        let ghost mesh_sides = mesh.mesh@;
        let ghost mesh_ghost = mesh;
        let ghost counts = vertex_counts(&mesh);
        let ghost slots_loaded = self.index_table().slots();
        let ghost before_prepare = *self;
        let mut mesh_write_commands = self.prepare_inner(position, mesh, Ghost(true));
        let ghost prep = mesh_write_commands@;
        let mut index_commands = chunk_index_buffer_write_commands;
        let ghost idx = index_commands@;
        let mut all_commands = early_commands;
        let ghost early = all_commands@;
        all_commands.append(&mut mesh_write_commands);
        all_commands.append(&mut index_commands);
        proof {
            let r = all_commands@;
            let off = idx[0].offset;
            assert(positions@[0] == position);
            assert(r == early + prep + idx);
            assert(r.last() == idx[0]);
            assert(off == slots_loaded[position_key(position)] * 12);
            assert(counts == Seq::new(6, |t: int| mesh_sides[t].vertices@.len() as u64));
            lemma_generated_writes(early, prep, idx, counts, mesh_sides, off, chunk_index);
            let jw0 = choose|j: int| #[trigger] Self::prepared(before_prepare, *self, position_key(position), counts, prep, j);
            assert(r.subrange(early.len() as int, r.len() - 1) =~= prep);
            assert(idx[0] == (BufferWriteCommand {
                buffer_name: crate::chunk_index_state::CHUNK_INDEX_BUFFER_NAME,
                offset: (chunk_index * 12) as u64,
                data: WritePayload::Coordinates([chunk.position.x, chunk.position.y, chunk.position.z]),
            }));
            assert forall|i: int| 0 <= i < early.len() implies is_clearing(#[trigger] r[i]) by {
                assert(r[i] == early[i]);
            }
            assert(Self::generated(before_prepare, *self, *chunk, sides_to_generate@, mesh_ghost, r, jw0, early.len() as int));
            let jw = choose|j: int| #[trigger] Self::prepared(before_prepare, *self, position_key(position), counts, prep, j);
            assert(Self::prepared(before_prepare, *self, position_key(position), counts, prep, jw));
            assert(off % 12 == 0);
        }
        all_commands
    }

    /// The work of a mesh task: a chunk that already owns buckets is only marked
    /// most recently meshed and nothing is written; any other chunk is meshed as
    /// `generate_mesh_for_chunk` does.
    pub fn mesh_chunk_unless_meshed(&mut self, chunk: &Chunk, sides_to_generate: &Vec<BlockSide>) -> (r: Vec<
        BufferWriteCommand,
    >)
        requires
            old(self).wf(),
            old(self).buckets().capacity() >= 16,
            old(self).index_table().capacity() >= 2,
            old(self).recency_cap() >= 2,
            chunk.wf(),
            sides_to_generate@.no_duplicates(),
            forall|b: int| 0 <= b < chunk.blocks@.len() ==> (#[trigger] chunk.blocks@[b]).block_type < 4,
        ensures
            final(self).wf(),
            old(self).buckets().owned().contains_key(position_key(chunk.position)) ==> {
                &&& r@.len() == 0
                &&& final(self).buckets() == old(self).buckets()
                &&& final(self).index_table() == old(self).index_table()
                &&& final(self).recency() == without(old(self).recency(), coords(chunk.position)).push(coords(chunk.position))
            },
            !old(self).buckets().owned().contains_key(position_key(chunk.position)) ==> {
                &&& final(self).index_table().slots().contains_key(position_key(chunk.position))
                &&& exists|mid: MeshManager, m: Mesh, j: int, k: int| #[trigger] Self::generated(
                    mid,
                    *final(self),
                    *chunk,
                    sides_to_generate@,
                    m,
                    r@,
                    j,
                    k,
                )
            },
    {
        if self.is_chunk_meshed(chunk.position) {
            return Vec::new();
        }
        self.generate_mesh_for_chunk(chunk, sides_to_generate)
    }

    proof fn lemma_room_when_empty(&self, lens: Seq<u64>)
        requires
            self.wf(),
            forall|t: int| 0 <= t < 6 ==> buckets_needed(#[trigger] lens[t] as int) <= self.buckets().capacity(),
            self.recency().len() == 0,
        ensures
            self.has_room(lens),
    {
        self.chunk_index_state.lemma_counts();
        self.bucket_manager.lemma_free_count(0);
        assert forall|k: i128| !self.bucket_manager.owned().contains_key(k) by {
            if self.bucket_manager.owned().contains_key(k) {
                assert(is_recent(self.recency(), k));
            }
        }
        assert forall|k: i128| !self.chunk_index_state.slots().contains_key(k) by {
            if self.chunk_index_state.slots().contains_key(k) {
                assert(is_recent(self.recency(), k));
            }
        }
        assert(self.bucket_manager.owned().dom() =~= Set::empty());
        assert(self.chunk_index_state.slots().dom() =~= Set::empty());
        assert forall|t: int| 0 <= t < 6 implies buckets_needed(#[trigger] lens[t] as int) <= self.buckets().free(t).len() by {
            self.bucket_manager.lemma_free_count(t);
        }
    }

    /// The number of free buckets of `side` in the pool.
    pub fn free_bucket_count(&self, side: BlockSide) -> (r: usize)
        requires
            self.wf(),
        ensures
            r == self.buckets().free(side_index(side) as int).len(),
    {
        self.bucket_manager.free_bucket_count(side)
    }

    /// The writes that set up the indirect buffer of `side` before anything is
    /// meshed: one draw record per bucket slot, sized for a full bucket and
    /// drawing no instance.
    pub fn initial_draw_records(side: BlockSide) -> (r: Vec<BufferWriteCommand>)
        ensures
            r@.len() == NUM_BUCKETS_PER_BUFFER,
            forall|i: int|
                0 <= i < NUM_BUCKETS_PER_BUFFER ==> #[trigger] r@[i] == (BufferWriteCommand {
                    buffer_name: indirect_buffer_name(side),
                    offset: (i * INDIRECT_ARGS_SIZE) as u64,
                    data: WritePayload::DrawArgs(
                        DrawIndexedIndirectArgs {
                            index_count: NUM_INDICES_PER_BUCKET as u32,
                            instance_count: 0,
                            first_index: (i * NUM_INDICES_PER_BUCKET) as u32,
                            base_vertex: (i * NUM_VERTICES_PER_BUCKET) as i32,
                            first_instance: 0,
                        },
                    ),
                }),
    {
        let mut records: Vec<BufferWriteCommand> = Vec::new();
        let mut i: u64 = 0;
        while i < NUM_BUCKETS_PER_BUFFER
            invariant
                i <= NUM_BUCKETS_PER_BUFFER,
                records@.len() == i,
                forall|j: int|
                    0 <= j < i ==> #[trigger] records@[j] == (BufferWriteCommand {
                        buffer_name: indirect_buffer_name(side),
                        offset: (j * INDIRECT_ARGS_SIZE) as u64,
                        data: WritePayload::DrawArgs(
                            DrawIndexedIndirectArgs {
                                index_count: NUM_INDICES_PER_BUCKET as u32,
                                instance_count: 0,
                                first_index: (j * NUM_INDICES_PER_BUCKET) as u32,
                                base_vertex: (j * NUM_VERTICES_PER_BUCKET) as i32,
                                first_instance: 0,
                            },
                        ),
                    }),
            decreases NUM_BUCKETS_PER_BUFFER - i,
        {
            records.push(BufferWriteCommand {
                buffer_name: MeshManager::get_indirect_buffer_name(side),
                offset: i * INDIRECT_ARGS_SIZE,
                data: WritePayload::DrawArgs(DrawIndexedIndirectArgs {
                    index_count: NUM_INDICES_PER_BUCKET as u32,
                    instance_count: 0,
                    first_index: (i * NUM_INDICES_PER_BUCKET) as u32,
                    base_vertex: (i * NUM_VERTICES_PER_BUCKET) as i32,
                    first_instance: 0,
                }),
            });
            i = i + 1;
        }
        records
    }

    /// Draw records per side that the renderer issues.
    pub fn get_number_indirect_commands(&self) -> (r: u32)
        ensures
            r == NUM_BUCKETS_PER_BUFFER,
    {
        NUM_BUCKETS_PER_BUFFER as u32
    }
}

} // verus!
