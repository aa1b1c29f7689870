//! Vertex and index data of a chunk mesh, one list pair per block side.

use vstd::prelude::*;
use crate::block::{BlockSide, Block, NUM_TEXTURED_TYPES, side_at, texture_row};
use crate::face::{Face, face_wf, face_within, width, height, area};

verus! {

/// One mesh vertex: integer chunk-local position, texture layer, texture offset
/// in whole cells, and the slot of the chunk's world position on the GPU.
#[derive(PartialEq, Eq, Structural, Copy, Clone, Debug)]
pub struct Vertex {
    pub x: i32,
    pub y: i32,
    pub z: i32,
    pub texture_index: u32,
    pub u: u8,
    pub v: u8,
    pub chunk_coordinate_index: u32,
}

impl Vertex {
    pub fn new(
        x: i32,
        y: i32,
        z: i32,
        texture_index: usize,
        u: u8,
        v: u8,
        chunk_coordinate_index: u32,
    ) -> (r: Vertex)
        requires
            texture_index <= u32::MAX,
        ensures
            r == (Vertex {
                x,
                y,
                z,
                texture_index: texture_index as u32,
                u,
                v,
                chunk_coordinate_index,
            }),
    {
        Vertex { x, y, z, texture_index: texture_index as u32, u, v, chunk_coordinate_index }
    }
}

/// The vertex and index lists of one side of a mesh.
#[derive(Debug)]
pub struct MeshSide {
    pub vertices: Vec<Vertex>,
    pub indices: Vec<u32>,
    /// Running count of indices added to this side.
    pub len: u32,
    pub side: BlockSide,
}

impl MeshSide {
    pub fn new(side: BlockSide) -> (r: MeshSide)
        ensures
            r.vertices@.len() == 0,
            r.indices@.len() == 0,
            r.len == 0,
            r.side == side,
    {
        MeshSide { vertices: Vec::new(), indices: Vec::new(), len: 0, side }
    }
}

/// Which entry of the texture row a side uses.
pub open spec fn texture_slot(side: BlockSide) -> int {
    match side {
        BlockSide::FRONT => 0,
        BlockSide::BACK => 1,
        BlockSide::LEFT => 2,
        BlockSide::RIGHT => 3,
        BlockSide::TOP => 4,
        BlockSide::BOTTOM => 5,
    }
}

/// The four vertices of a quad: lower-left, lower-right, upper-left, upper-right.
/// The texture offset runs over the quad's width and height in whole cells.
pub open spec fn face_vertices(f: Face, chunk_coordinate_index: u32) -> Seq<Vertex> {
    let t = texture_row(f.block_type_int as int)[texture_slot(f.block_side)] as u32;
    let u = width(f) as u8;
    let v = height(f) as u8;
    let mk = |p: crate::face::Point3, a: u8, b: u8|
        Vertex {
            x: p.x as i32,
            y: p.y as i32,
            z: p.z as i32,
            texture_index: t,
            u: a,
            v: b,
            chunk_coordinate_index,
        };
    seq![mk(f.ll, 0, v), mk(f.lr, u, v), mk(f.ul, 0, 0), mk(f.ur, u, 0)]
}

/// The six indices of quad number `n`: two triangles over its four vertices.
pub open spec fn face_indices(n: int) -> Seq<u32> {
    seq![
        (4 * n) as u32,
        (4 * n + 1) as u32,
        (4 * n + 3) as u32,
        (4 * n) as u32,
        (4 * n + 3) as u32,
        (4 * n + 2) as u32,
    ]
}

/// The index list of `n` consecutive quads.
pub open spec fn quad_indices(n: nat) -> Seq<u32>
    decreases n,
{
    if n == 0 {
        seq![]
    } else {
        quad_indices((n - 1) as nat) + face_indices(n - 1)
    }
}

/// Total area of the quads of a vertex list, read from each quad's texture span.
pub open spec fn quad_area_sum(vs: Seq<Vertex>) -> int
    decreases vs.len(),
{
    if vs.len() < 4 {
        0
    } else {
        quad_area_sum(vs.subrange(0, vs.len() - 4)) + (vs[vs.len() - 3].u as int) * (vs[vs.len()
            - 3].v as int)
    }
}

/// A side made of whole quads: four vertices and six indices per quad.
pub open spec fn side_wf(ms: &MeshSide) -> bool {
    &&& ms.vertices@.len() % 4 == 0
    &&& ms.indices@ == quad_indices((ms.vertices@.len() / 4) as nat)
}

/// A quad that fits the texture table and the 0..=255 texture-offset range.
pub open spec fn face_emittable(f: Face) -> bool {
    face_wf(f) && face_within(f, 255) && f.block_type_int < NUM_TEXTURED_TYPES
}

pub proof fn lemma_quad_indices_len(n: nat)
    ensures
        quad_indices(n).len() == 6 * n,
    decreases n,
{
    if n > 0 {
        lemma_quad_indices_len((n - 1) as nat);
    }
}

/// Index `p` of the list of `n` quads points no lower than quad `p / 6`, hence
/// no lower than the first vertex of bucket `p / 1536`.
pub proof fn lemma_quad_indices_local(n: nat)
    requires
        4 * n + 3 <= u32::MAX,
    ensures
        forall|p: int|
            0 <= p < quad_indices(n).len() ==> #[trigger] quad_indices(n)[p] >= 1024 * (p / 1536),
    decreases n,
{
    lemma_quad_indices_len(n);
    if n > 0 {
        let prev = quad_indices((n - 1) as nat);
        lemma_quad_indices_len((n - 1) as nat);
        lemma_quad_indices_local((n - 1) as nat);
        assert forall|p: int| 0 <= p < quad_indices(n).len() implies #[trigger] quad_indices(n)[p]
            >= 1024 * (p / 1536) by {
            if p < prev.len() {
                assert(quad_indices(n)[p] == prev[p]);
            } else {
                let q = p / 1536;
                vstd::arithmetic::div_mod::lemma_fundamental_div_mod(p, 1536);
                vstd::arithmetic::div_mod::lemma_fundamental_div_mod_converse(p, 6, n - 1, p - 6 * (n - 1));
                assert(1536 * q <= p);
                vstd::arithmetic::div_mod::lemma_div_is_ordered(1536 * q, p, 6);
                vstd::arithmetic::div_mod::lemma_fundamental_div_mod_converse(1536 * q, 6, 256 * q, 0);
                assert(quad_indices(n)[p] == face_indices(n - 1)[p - prev.len()]);
                assert(quad_indices(n)[p] >= 4 * (n - 1));
            }
        }
    }
}

pub proof fn lemma_quad_area_sum_push(vs: Seq<Vertex>, quad: Seq<Vertex>)
    requires
        quad.len() == 4,
    ensures
        quad_area_sum(vs + quad) == quad_area_sum(vs) + (quad[1].u as int) * (quad[1].v as int),
{
    let all = vs + quad;
    assert(all.subrange(0, all.len() - 4) =~= vs);
}

/// A complete mesh: one `MeshSide` per block side, in table order.
#[derive(Debug)]
pub struct Mesh {
    pub mesh: Vec<MeshSide>,
}

impl Mesh {
    pub open spec fn wf(&self) -> bool {
        &&& self.mesh@.len() == 6
        &&& forall|i: int| 0 <= i < 6 ==> (#[trigger] self.mesh@[i]).side == side_at(i)
    }

    /// An empty mesh with all six sides present.
    pub fn new() -> (r: Mesh)
        ensures
            r.wf(),
            forall|i: int|
                0 <= i < 6 ==> (#[trigger] r.mesh@[i]).vertices@.len() == 0
                    && r.mesh@[i].indices@.len() == 0 && r.mesh@[i].len == 0,
    {
        let mut mesh: Vec<MeshSide> = Vec::new();
        let sides = BlockSide::all();
        let mut i: usize = 0;
        while i < 6
            invariant
                0 <= i <= 6,
                mesh@.len() == i,
                forall|k: int| 0 <= k < 6 ==> #[trigger] sides@[k] == side_at(k),
                forall|k: int|
                    0 <= k < i ==> (#[trigger] mesh@[k]).side == side_at(k)
                        && mesh@[k].vertices@.len() == 0 && mesh@[k].indices@.len() == 0
                        && mesh@[k].len == 0,
            decreases 6 - i,
        {
            mesh.push(MeshSide::new(sides[i]));
            i = i + 1;
        }
        Mesh { mesh }
    }

    /// Appends each side's vertices and indices; the new indices are shifted by the
    /// number of vertices the side held before.
    pub fn add_vertices(&mut self, block_vertices: Vec<Vec<Vertex>>, block_indices: Vec<Vec<u32>>)
        requires
            old(self).wf(),
            block_vertices@.len() == 6,
            block_indices@.len() == 6,
            forall|i: int|
                0 <= i < 6 ==> old(self).mesh@[i].vertices@.len() + (#[trigger] block_vertices@[i])@.len()
                    <= u32::MAX,
            forall|i: int|
                0 <= i < 6 ==> forall|k: int|
                    0 <= k < (#[trigger] block_indices@[i])@.len() ==> old(self).mesh@[i].vertices@.len()
                        + block_indices@[i]@[k] <= u32::MAX,
            forall|i: int|
                0 <= i < 6 ==> old(self).mesh@[i].len + old(self).mesh@[i].indices@.len()
                    + (#[trigger] block_indices@[i])@.len() <= u32::MAX,
        ensures
            final(self).wf(),
            forall|i: int|
                0 <= i < 6 ==> {
                    let before = #[trigger] old(self).mesh@[i];
                    let after = final(self).mesh@[i];
                    &&& after.vertices@ == before.vertices@ + block_vertices@[i]@
                    &&& after.indices@.len() == before.indices@.len() + block_indices@[i]@.len()
                    &&& after.indices@.subrange(0, before.indices@.len() as int)
                        == before.indices@
                    &&& forall|k: int|
                        0 <= k < block_indices@[i]@.len() ==> after.indices@[before.indices@.len()
                            + k] == before.vertices@.len() + block_indices@[i]@[k]
                    &&& after.len == before.len + after.indices@.len()
                },
    {
        let ghost incoming_vertices = block_vertices@;
        let mut block_vertices = block_vertices;
        let mut i: usize = 0;
        while i < 6
            invariant
                0 <= i <= 6,
                self.mesh@.len() == 6,
                block_vertices@.len() == 6,
                block_indices@.len() == 6,
                old(self).wf(),
                incoming_vertices.len() == 6,
                forall|j: int|
                    0 <= j < 6 ==> old(self).mesh@[j].vertices@.len() + (#[trigger] incoming_vertices[j])@.len()
                        <= u32::MAX,
                forall|j: int|
                    0 <= j < 6 ==> forall|k: int|
                        0 <= k < (#[trigger] block_indices@[j])@.len() ==> old(self).mesh@[j].vertices@.len()
                            + block_indices@[j]@[k] <= u32::MAX,
                forall|j: int|
                    0 <= j < 6 ==> old(self).mesh@[j].len + old(self).mesh@[j].indices@.len()
                        + (#[trigger] block_indices@[j])@.len() <= u32::MAX,
                forall|j: int| 0 <= j < 6 ==> (#[trigger] self.mesh@[j]).side == side_at(j),
                forall|j: int|
                    i <= j < 6 ==> #[trigger] self.mesh@[j] == old(self).mesh@[j],
                forall|j: int|
                    i <= j < 6 ==> #[trigger] block_vertices@[j] == incoming_vertices[j],
                forall|j: int|
                    0 <= j < i ==> {
                        let before = #[trigger] old(self).mesh@[j];
                        let after = self.mesh@[j];
                        &&& after.vertices@ == before.vertices@ + incoming_vertices[j]@
                        &&& after.indices@.len() == before.indices@.len()
                            + block_indices@[j]@.len()
                        &&& after.indices@.subrange(0, before.indices@.len() as int)
                            == before.indices@
                        &&& forall|k: int|
                            0 <= k < block_indices@[j]@.len() ==> after.indices@[before.indices@.len()
                                + k] == before.vertices@.len() + block_indices@[j]@[k]
                        &&& after.len == before.len + after.indices@.len()
                    },
            decreases 6 - i,
        {
            let current_vertices_len = self.mesh[i].vertices.len() as u32;
            let mut incoming: Vec<Vertex> = Vec::new();
            std::mem::swap(&mut incoming, &mut block_vertices[i]);
            self.mesh[i].vertices.append(&mut incoming);
            let ghost start = self.mesh@[i as int].indices@;
            let ghost frame = self.mesh@;
            let mut k: usize = 0;
            while k < block_indices[i].len()
                invariant
                    0 <= i < 6,
                    self.mesh@.len() == 6,
                    block_indices@.len() == 6,
                    0 <= k <= block_indices@[i as int]@.len(),
                    current_vertices_len == old(self).mesh@[i as int].vertices@.len(),
                    forall|t: int|
                        0 <= t < block_indices@[i as int]@.len() ==> current_vertices_len
                            + block_indices@[i as int]@[t] <= u32::MAX,
                    self.mesh@[i as int].indices@.len() == start.len() + k,
                    self.mesh@[i as int].indices@.subrange(0, start.len() as int) == start,
                    forall|t: int|
                        0 <= t < k ==> self.mesh@[i as int].indices@[start.len() + t]
                            == current_vertices_len + block_indices@[i as int]@[t],
                    forall|j: int| 0 <= j < 6 && j != i ==> #[trigger] self.mesh@[j] == frame[j],
                    self.mesh@[i as int].vertices@ == frame[i as int].vertices@,
                    self.mesh@[i as int].len == frame[i as int].len,
                    self.mesh@[i as int].side == frame[i as int].side,
                decreases block_indices@[i as int]@.len() - k,
            {
                let shifted = block_indices[i][k] + current_vertices_len;
                self.mesh[i].indices.push(shifted);
                k = k + 1;
            }
            let total = self.mesh[i].indices.len() as u32;
            self.mesh[i].len = self.mesh[i].len + total;
            i = i + 1;
        }
    }

    /// The vertex count of each side.
    pub fn get_vertex_lens(&self) -> (r: [u64; 6])
        requires
            self.wf(),
        ensures
            forall|i: int| 0 <= i < 6 ==> #[trigger] r@[i] == self.mesh@[i].vertices@.len(),
    {
        [
            self.mesh[0].vertices.len() as u64,
            self.mesh[1].vertices.len() as u64,
            self.mesh[2].vertices.len() as u64,
            self.mesh[3].vertices.len() as u64,
            self.mesh[4].vertices.len() as u64,
            self.mesh[5].vertices.len() as u64,
        ]
    }

    /// The four vertices of a quad; the texture offset spans the quad in whole cells.
    pub fn generate_face_vertices(face: &Face, chunk_coordinate_index: u32) -> (r: Vec<Vertex>)
        requires
            face_emittable(*face),
        ensures
            r@ == face_vertices(*face, chunk_coordinate_index),
            (r@[1].u as int) * (r@[1].v as int) == area(*face),
    {
        let texture_indices = Block::get_texture_indices_from_int(face.block_type_int as u8);
        let (texture_index, u_offset, v_offset) = match face.block_side {
            BlockSide::FRONT => (0, (face.lr.z - face.ll.z) as u8, (face.ul.y - face.ll.y) as u8),
            BlockSide::BACK => (1, (face.ll.z - face.lr.z) as u8, (face.ul.y - face.ll.y) as u8),
            BlockSide::LEFT => (2, (face.ll.x - face.lr.x) as u8, (face.ul.y - face.ll.y) as u8),
            BlockSide::RIGHT => (3, (face.lr.x - face.ll.x) as u8, (face.ul.y - face.ll.y) as u8),
            BlockSide::TOP => (4, (face.lr.z - face.ll.z) as u8, (face.ul.x - face.ll.x) as u8),
            BlockSide::BOTTOM => (5, (face.ll.z - face.lr.z) as u8, (face.ul.x - face.ll.x) as u8),
        };
        let t = texture_indices[texture_index];
        let mut r: Vec<Vertex> = Vec::new();
        r.push(Vertex::new(face.ll.x as i32, face.ll.y as i32, face.ll.z as i32, t, 0, v_offset, chunk_coordinate_index));
        r.push(Vertex::new(face.lr.x as i32, face.lr.y as i32, face.lr.z as i32, t, u_offset, v_offset, chunk_coordinate_index));
        r.push(Vertex::new(face.ul.x as i32, face.ul.y as i32, face.ul.z as i32, t, 0, 0, chunk_coordinate_index));
        r.push(Vertex::new(face.ur.x as i32, face.ur.y as i32, face.ur.z as i32, t, u_offset, 0, chunk_coordinate_index));
        proof {
            assert(u_offset as int == width(*face));
            assert(v_offset as int == height(*face));
            assert(r@ =~= face_vertices(*face, chunk_coordinate_index));
        }
        r
    }

    /// The six indices of quad number `num_faces_generated`.
    pub fn generate_face_indices(num_faces_generated: u32) -> (r: Vec<u32>)
        requires
            4 * num_faces_generated + 3 <= u32::MAX,
        ensures
            r@ == face_indices(num_faces_generated as int),
    {
        let n = num_faces_generated * 4;
        let r = vec![n, 1 + n, 3 + n, n, 3 + n, 2 + n];
        assert(r@ =~= face_indices(num_faces_generated as int));
        r
    }
}

} // verus!
