//! Greedy meshing: unit faces of exposed cells are joined into larger quads in a
//! single streaming pass over the chunk.

use vstd::prelude::*;
use crate::block::{BlockSide, side_at, side_index};
use crate::chunk::{
    Chunk, count_exposed, exposed_at, solid_at, scan, padded, padded_of_scan, in_chunk,
    lemma_scan_padded, CHUNK_DIMENSION,
};
use crate::chunk_iteration::ChunkBlockIterator;
use crate::mesh::{
    Mesh, Vertex, side_wf, quad_area_sum, quad_indices, face_indices, face_vertices,
    lemma_quad_area_sum_push, lemma_quad_indices_len,
};
use crate::face::{
    Face, face_wf, face_within, area, merged_up, merged_left, merged_right,
    lemma_unit_face_wf, lemma_merge_adds_area,
};

verus! {

/// A quad the mesher may hold: a proper rectangle inside the chunk whose block
/// type has textures.
pub open spec fn face_good(f: Face) -> bool {
    face_wf(f) && face_within(f, 16) && f.block_type_int < 4
}

pub open spec fn faces_good(fs: Seq<Face>) -> bool {
    forall|k: int| 0 <= k < fs.len() ==> face_good(#[trigger] fs[k])
}

/// Good quads, all of one side.
pub open spec fn layer_ok(fs: Seq<Face>, side: BlockSide) -> bool {
    forall|k: int| 0 <= k < fs.len() ==> face_good(#[trigger] fs[k]) && fs[k].block_side == side
}

/// Sixteen layers of good quads of one side.
pub open spec fn layers_ok(ls: Seq<Vec<Face>>, side: BlockSide) -> bool {
    ls.len() == 16 && forall|i: int| 0 <= i < 16 ==> layer_ok((#[trigger] ls[i])@, side)
}

/// Total area of a list of quads.
pub open spec fn area_sum(fs: Seq<Face>) -> int
    decreases fs.len(),
{
    if fs.len() == 0 {
        0
    } else {
        area_sum(fs.drop_last()) + area(fs.last())
    }
}

/// Total area of the quads of one side in a list.
pub open spec fn side_area(fs: Seq<Face>, side: BlockSide) -> int
    decreases fs.len(),
{
    if fs.len() == 0 {
        0
    } else {
        side_area(fs.drop_last(), side) + if fs.last().block_side == side {
            area(fs.last())
        } else {
            0
        }
    }
}

/// Total area of the first `n` layers.
pub open spec fn layers_area(ls: Seq<Vec<Face>>, n: int) -> int
    decreases n,
{
    if n <= 0 {
        0
    } else {
        layers_area(ls, n - 1) + area_sum(ls[n - 1]@)
    }
}

/// The quad extent used to order quads of one layer against the previous one.
pub open spec fn boundary(face: Face, is_y_merging: bool) -> usize {
    if is_y_merging {
        match face.block_side {
            BlockSide::FRONT | BlockSide::BACK => face.ul.y,
            BlockSide::LEFT => face.ul.x,
            BlockSide::RIGHT | BlockSide::TOP | BlockSide::BOTTOM => face.ur.x,
        }
    } else {
        match face.block_side {
            BlockSide::TOP | BlockSide::BOTTOM => face.ul.x,
            _ => face.ul.z,
        }
    }
}

/// How a quad of the previous layer joins one of the current layer on `side`.
pub open spec fn cross_merge(side: BlockSide, before: Face, current: Face) -> Option<Face> {
    match side {
        BlockSide::FRONT | BlockSide::TOP => merged_right(before, current),
        BlockSide::BACK | BlockSide::BOTTOM => merged_left(before, current),
        BlockSide::LEFT | BlockSide::RIGHT => merged_up(before, current),
    }
}

/// How a new unit quad joins the last quad of its layer on `side`.
pub open spec fn strip_merge(side: BlockSide, last: Face, new: Face) -> Option<Face> {
    match side {
        BlockSide::LEFT => merged_left(last, new),
        BlockSide::RIGHT => merged_right(last, new),
        _ => merged_up(last, new),
    }
}

/// The layer a cell's quad on `side` belongs to.
pub open spec fn orientation(side: BlockSide, x: int, y: int, z: int) -> int {
    match side {
        BlockSide::FRONT | BlockSide::BACK => x,
        BlockSide::LEFT | BlockSide::RIGHT => z,
        BlockSide::TOP | BlockSide::BOTTOM => y,
    }
}

pub proof fn lemma_area_positive(f: Face)
    requires
        face_wf(f),
    ensures
        area(f) >= 1,
{
    let (w, h) = (crate::face::width(f), crate::face::height(f));
    assert(w * h >= 1) by (nonlinear_arith)
        requires
            w >= 1,
            h >= 1,
    ;
}

proof fn lemma_area_sum_update(s: Seq<Face>, i: int, f: Face)
    requires
        0 <= i < s.len(),
    ensures
        area_sum(s.update(i, f)) == area_sum(s) - area(s[i]) + area(f),
    decreases s.len(),
{
    let t = s.update(i, f);
    if i == s.len() - 1 {
        assert(t.drop_last() =~= s.drop_last());
    } else {
        lemma_area_sum_update(s.drop_last(), i, f);
        assert(t.drop_last() =~= s.drop_last().update(i, f));
    }
}

proof fn lemma_area_sum_push(s: Seq<Face>, f: Face)
    ensures
        area_sum(s.push(f)) == area_sum(s) + area(f),
{
    assert(s.push(f).drop_last() =~= s);
}

proof fn lemma_side_area_push(s: Seq<Face>, f: Face, side: BlockSide)
    ensures
        side_area(s.push(f), side) == side_area(s, side) + if f.block_side == side {
            area(f)
        } else {
            0
        },
{
    assert(s.push(f).drop_last() =~= s);
}

proof fn lemma_area_sum_prefix_step(s: Seq<Face>, i: int)
    requires
        0 <= i < s.len(),
    ensures
        area_sum(s.subrange(0, i + 1)) == area_sum(s.subrange(0, i)) + area(s[i]),
{
    assert(s.subrange(0, i + 1).drop_last() =~= s.subrange(0, i));
}

proof fn lemma_layers_area_update(ls: Seq<Vec<Face>>, i: int, v: Vec<Face>, n: int)
    requires
        0 <= i < ls.len(),
        0 <= n <= ls.len(),
    ensures
        layers_area(ls.update(i, v), n) == layers_area(ls, n) + if i < n {
            area_sum(v@) - area_sum(ls[i]@)
        } else {
            0
        },
    decreases n,
{
    if n > 0 {
        lemma_layers_area_update(ls, i, v, n - 1);
    }
}

proof fn lemma_layers_area_empty(ls: Seq<Vec<Face>>, n: int)
    requires
        0 <= n <= ls.len(),
        forall|i: int| 0 <= i < n ==> (#[trigger] ls[i])@.len() == 0,
    ensures
        layers_area(ls, n) == 0,
    decreases n,
{
    if n > 0 {
        lemma_layers_area_empty(ls, n - 1);
    }
}

proof fn lemma_count_exposed_skip(bits: Seq<bool>, a: int, b: int, side: BlockSide)
    requires
        0 <= a <= b,
        forall|k: int| a <= k < b ==> !#[trigger] solid_at(bits, k),
    ensures
        count_exposed(bits, b, side) == count_exposed(bits, a, side),
    decreases b - a,
{
    if a < b {
        lemma_count_exposed_skip(bits, a, b - 1, side);
        assert(!solid_at(bits, b - 1));
    }
}

/// Good quads with no area on `side` include none of that side.
pub proof fn lemma_side_area_zero(fs: Seq<Face>, side: BlockSide)
    requires
        faces_good(fs),
    ensures
        side_area(fs, side) >= 0,
        side_area(fs, side) == 0 ==> forall|k: int|
            0 <= k < fs.len() ==> (#[trigger] fs[k]).block_side != side,
    decreases fs.len(),
{
    if fs.len() > 0 {
        let init = fs.drop_last();
        assert(faces_good(init)) by {
            assert forall|k: int| 0 <= k < init.len() implies face_good(#[trigger] init[k]) by {
                assert(init[k] == fs[k]);
            }
        }
        lemma_side_area_zero(init, side);
        lemma_area_positive(fs.last());
        if side_area(fs, side) == 0 {
            assert forall|k: int| 0 <= k < fs.len() implies (#[trigger] fs[k]).block_side != side by {
                if k < fs.len() - 1 {
                    assert(fs[k] == init[k]);
                }
            }
        }
    }
}

/// The boundary of a quad along the merge direction.
fn get_boundary_from_face(face: &Face, is_y_merging: bool) -> (r: usize)
    ensures
        r == boundary(*face, is_y_merging),
{
    if is_y_merging {
        match face.block_side {
            BlockSide::FRONT => face.ul.y,
            BlockSide::BACK => face.ul.y,
            BlockSide::LEFT => face.ul.x,
            BlockSide::RIGHT => face.ur.x,
            BlockSide::TOP => face.ur.x,
            BlockSide::BOTTOM => face.ur.x,
        }
    } else {
        match face.block_side {
            BlockSide::FRONT => face.ul.z,
            BlockSide::BACK => face.ul.z,
            BlockSide::LEFT => face.ul.z,
            BlockSide::RIGHT => face.ul.z,
            BlockSide::TOP => face.ul.x,
            BlockSide::BOTTOM => face.ul.x,
        }
    }
}

fn merge_across(side: BlockSide, before: &Face, current: &Face) -> (r: Option<Face>)
    ensures
        r == cross_merge(side, *before, *current),
{
    match side {
        BlockSide::FRONT => before.merge_right(current),
        BlockSide::BACK => before.merge_left(current),
        BlockSide::LEFT => before.merge_up(current),
        BlockSide::RIGHT => before.merge_up(current),
        BlockSide::TOP => before.merge_right(current),
        BlockSide::BOTTOM => before.merge_left(current),
    }
}

/// Pushes `fs[from..to)` onto `faces_to_make`.
fn push_faces(fs: &Vec<Face>, from: usize, to: usize, faces_to_make: &mut Vec<Face>, side: BlockSide)
    requires
        from <= to <= fs@.len(),
        layer_ok(fs@, side),
        faces_good(old(faces_to_make)@),
    ensures
        final(faces_to_make)@.len() >= old(faces_to_make)@.len(),
        final(faces_to_make)@.subrange(0, old(faces_to_make)@.len() as int) == old(faces_to_make)@,
        faces_good(final(faces_to_make)@),
        side_area(final(faces_to_make)@, side) == side_area(old(faces_to_make)@, side) + area_sum(
            fs@.subrange(0, to as int),
        ) - area_sum(fs@.subrange(0, from as int)),
        forall|s: BlockSide|
            s != side ==> #[trigger] side_area(final(faces_to_make)@, s) == side_area(
                old(faces_to_make)@,
                s,
            ),
{
    let mut i = from;
    while i < to
        invariant
            from <= i <= to <= fs@.len(),
            layer_ok(fs@, side),
            faces_to_make@.len() >= old(faces_to_make)@.len(),
            faces_to_make@.subrange(0, old(faces_to_make)@.len() as int) == old(faces_to_make)@,
            faces_good(faces_to_make@),
            side_area(faces_to_make@, side) == side_area(old(faces_to_make)@, side) + area_sum(
                fs@.subrange(0, i as int),
            ) - area_sum(fs@.subrange(0, from as int)),
            forall|s: BlockSide|
                s != side ==> #[trigger] side_area(faces_to_make@, s) == side_area(
                    old(faces_to_make)@,
                    s,
                ),
        decreases to - i,
    {
        let f = fs[i];
        proof {
            lemma_area_sum_prefix_step(fs@, i as int);
            lemma_side_area_push(faces_to_make@, f, side);
            assert forall|s: BlockSide| s != side implies #[trigger] side_area(faces_to_make@.push(f), s)
                == side_area(old(faces_to_make)@, s) by {
                lemma_side_area_push(faces_to_make@, f, s);
            }
        }
        faces_to_make.push(f);
        proof {
            assert(faces_to_make@.subrange(0, old(faces_to_make)@.len() as int) =~= old(faces_to_make)@);
        }
        i = i + 1;
    }
}

/// Merges one layer of quads against the same layer of the previous slice: quads
/// of the previous slice that cannot continue are emitted, the others are joined
/// onto the current ones, which then become the previous slice.
fn merge_layer(
    current: &mut Vec<Face>,
    before: &mut Vec<Face>,
    faces_to_make: &mut Vec<Face>,
    side: BlockSide,
)
    requires
        layer_ok(old(current)@, side),
        layer_ok(old(before)@, side),
        faces_good(old(faces_to_make)@),
    ensures
        final(faces_to_make)@.len() >= old(faces_to_make)@.len(),
        final(faces_to_make)@.subrange(0, old(faces_to_make)@.len() as int) == old(faces_to_make)@,
        final(current)@.len() == 0,
        layer_ok(final(before)@, side),
        faces_good(final(faces_to_make)@),
        side_area(final(faces_to_make)@, side) + area_sum(final(before)@) == side_area(
            old(faces_to_make)@,
            side,
        ) + area_sum(old(before)@) + area_sum(old(current)@),
        forall|s: BlockSide|
            s != side ==> #[trigger] side_area(final(faces_to_make)@, s) == side_area(
                old(faces_to_make)@,
                s,
            ),
{
    let before_len = before.len();
    let current_len = current.len();
    if before_len == 0 {
        proof {
            assert(old(before)@ =~= Seq::<Face>::empty());
        }
        before.append(current);
        proof {
            assert(before@ =~= old(current)@);
        }
        return;
    }
    if current_len == 0 {
        push_faces(before, 0, before_len, faces_to_make, side);
        proof {
            assert(before@.subrange(0, before_len as int) =~= before@);
            assert(before@.subrange(0, 0) =~= Seq::<Face>::empty());
            assert(old(current)@ =~= Seq::<Face>::empty());
        }
        before.clear();
        proof {
            assert(before@ =~= Seq::<Face>::empty());
        }
        return;
    }
    let ghost b = before@;
    let ghost k0 = side_area(faces_to_make@, side) + area_sum(current@);
    let mut before_index: usize = 0;
    let mut current_index: usize = 0;
    proof {
        assert(b.subrange(0, 0) =~= Seq::<Face>::empty());
    }
    while before_index < before_len && current_index < current_len
        invariant
            before@ == b,
            before_len == b.len(),
            current@.len() == current_len,
            before_index <= before_len,
            current_index <= current_len,
            layer_ok(b, side),
            layer_ok(current@, side),
            faces_to_make@.len() >= old(faces_to_make)@.len(),
            faces_to_make@.subrange(0, old(faces_to_make)@.len() as int) == old(faces_to_make)@,
            faces_good(faces_to_make@),
            side_area(faces_to_make@, side) + area_sum(current@) == k0 + area_sum(
                b.subrange(0, before_index as int),
            ),
            forall|s: BlockSide|
                s != side ==> #[trigger] side_area(faces_to_make@, s) == side_area(
                    old(faces_to_make)@,
                    s,
                ),
        decreases (before_len - before_index) + (current_len - current_index),
    {
        let before_face = before[before_index];
        let current_face = current[current_index];
        let merged_face_option = merge_across(side, &before_face, &current_face);
        if let Some(merged_face) = merged_face_option {
            proof {
                lemma_merge_adds_area(before_face, current_face, merged_face, 16);
                lemma_area_sum_update(current@, current_index as int, merged_face);
                lemma_area_sum_prefix_step(b, before_index as int);
            }
            current.set(current_index, merged_face);
            before_index = before_index + 1;
            current_index = current_index + 1;
        } else {
            let before_boundary = get_boundary_from_face(&before_face, true);
            let current_boundary = get_boundary_from_face(&current_face, true);
            if before_boundary == current_boundary {
                push_faces(before, before_index, before_index + 1, faces_to_make, side);
                proof {
                    lemma_area_sum_prefix_step(b, before_index as int);
                }
                before_index = before_index + 1;
                current_index = current_index + 1;
            } else if before_boundary < current_boundary {
                let ghost bi0 = before_index;
                while before_index < before_len && get_boundary_from_face(
                    &before[before_index],
                    true,
                ) < current_boundary
                    invariant
                        before@ == b,
                        before_len == b.len(),
                        current@.len() == current_len,
                        before_index <= before_len,
                        current_index < current_len,
                        bi0 < before_len,
                        bi0 <= before_index,
                        before_boundary == boundary(b[bi0 as int], true),
                        before_boundary < current_boundary,
                        layer_ok(b, side),
                        layer_ok(current@, side),
                        faces_to_make@.len() >= old(faces_to_make)@.len(),
                        faces_to_make@.subrange(0, old(faces_to_make)@.len() as int) == old(faces_to_make)@,
                        faces_good(faces_to_make@),
                        side_area(faces_to_make@, side) + area_sum(current@) == k0 + area_sum(
                            b.subrange(0, before_index as int),
                        ),
                        forall|s: BlockSide|
                            s != side ==> #[trigger] side_area(faces_to_make@, s) == side_area(
                                old(faces_to_make)@,
                                s,
                            ),
                    decreases before_len - before_index,
                {
                    push_faces(before, before_index, before_index + 1, faces_to_make, side);
                    proof {
                        lemma_area_sum_prefix_step(b, before_index as int);
                    }
                    before_index = before_index + 1;
                }
            } else {
                let ghost ci0 = current_index;
                while current_index < current_len && get_boundary_from_face(
                    &current[current_index],
                    true,
                ) < before_boundary
                    invariant
                        current@.len() == current_len,
                        current_index <= current_len,
                        ci0 < current_len,
                        ci0 <= current_index,
                        current_boundary == boundary(current@[ci0 as int], true),
                        current_boundary < before_boundary,
                    decreases current_len - current_index,
                {
                    current_index = current_index + 1;
                }
                if current_index == current_len {
                    push_faces(before, before_index, before_index + 1, faces_to_make, side);
                    proof {
                        lemma_area_sum_prefix_step(b, before_index as int);
                    }
                    before_index = before_index + 1;
                }
            }
        }
    }
    push_faces(before, before_index, before_len, faces_to_make, side);
    proof {
        assert(b.subrange(0, before_len as int) =~= b);
    }
    let ghost cur = current@;
    before.clear();
    before.append(current);
    proof {
        assert(before@ =~= cur);
    }
}

/// Merges every layer of the current slice of `side` against the previous slice;
/// the current slice is left empty and becomes the previous one.
fn greedy_merge_and_modify_vecs(
    current_layer: &mut Vec<Vec<Face>>,
    before_layer: &mut Vec<Vec<Face>>,
    faces_to_make: &mut Vec<Face>,
    side: BlockSide,
)
    requires
        layers_ok(old(current_layer)@, side),
        layers_ok(old(before_layer)@, side),
        faces_good(old(faces_to_make)@),
    ensures
        final(faces_to_make)@.len() >= old(faces_to_make)@.len(),
        final(faces_to_make)@.subrange(0, old(faces_to_make)@.len() as int) == old(faces_to_make)@,
        layers_ok(final(current_layer)@, side),
        forall|i: int| 0 <= i < 16 ==> (#[trigger] final(current_layer)@[i])@.len() == 0,
        layers_ok(final(before_layer)@, side),
        faces_good(final(faces_to_make)@),
        side_area(final(faces_to_make)@, side) + layers_area(final(before_layer)@, 16)
            == side_area(old(faces_to_make)@, side) + layers_area(old(before_layer)@, 16)
            + layers_area(old(current_layer)@, 16),
        forall|s: BlockSide|
            s != side ==> #[trigger] side_area(final(faces_to_make)@, s) == side_area(
                old(faces_to_make)@,
                s,
            ),
{
    let ghost total = side_area(faces_to_make@, side) + layers_area(before_layer@, 16)
        + layers_area(current_layer@, 16);
    let mut layer_index: usize = 0;
    while layer_index < CHUNK_DIMENSION
        invariant
            layer_index <= 16,
            layers_ok(current_layer@, side),
            layers_ok(before_layer@, side),
            faces_to_make@.len() >= old(faces_to_make)@.len(),
            faces_to_make@.subrange(0, old(faces_to_make)@.len() as int) == old(faces_to_make)@,
            faces_good(faces_to_make@),
            forall|i: int| 0 <= i < layer_index ==> (#[trigger] current_layer@[i])@.len() == 0,
            side_area(faces_to_make@, side) + layers_area(before_layer@, 16) + layers_area(
                current_layer@,
                16,
            ) == total,
            forall|s: BlockSide|
                s != side ==> #[trigger] side_area(faces_to_make@, s) == side_area(
                    old(faces_to_make)@,
                    s,
                ),
        decreases 16 - layer_index,
    {
        let ghost cl = current_layer@;
        let ghost bl = before_layer@;
        merge_layer(
            &mut current_layer[layer_index],
            &mut before_layer[layer_index],
            faces_to_make,
            side,
        );
        proof {
            assert(current_layer@ == cl.update(layer_index as int, current_layer@[layer_index as int]));
            assert(before_layer@ == bl.update(layer_index as int, before_layer@[layer_index as int]));
            lemma_layers_area_update(cl, layer_index as int, current_layer@[layer_index as int], 16);
            lemma_layers_area_update(bl, layer_index as int, before_layer@[layer_index as int], 16);
            assert forall|i: int| 0 <= i < 16 implies layer_ok((#[trigger] current_layer@[i])@, side) by {
                if i == layer_index {
                    assert(current_layer@[i]@.len() == 0);
                } else {
                    assert(current_layer@[i] == cl[i]);
                }
            }
            assert forall|i: int| 0 <= i < 16 implies layer_ok((#[trigger] before_layer@[i])@, side) by {
                if i != layer_index {
                    assert(before_layer@[i] == bl[i]);
                }
            }
        }
        layer_index = layer_index + 1;
    }
    proof {
        lemma_layers_area_empty(current_layer@, 16);
    }
}

/// Everything held for `side_at(t)` so far: emitted quads plus both slices.
pub open spec fn side_total(
    layers: Seq<Vec<Vec<Face>>>,
    before: Seq<Vec<Vec<Face>>>,
    faces: Seq<Face>,
    t: int,
) -> int {
    side_area(faces, side_at(t)) + layers_area(before[t]@, 16) + layers_area(layers[t]@, 16)
}

pub open spec fn slices_ok(layers: Seq<Vec<Vec<Face>>>, before: Seq<Vec<Vec<Face>>>) -> bool {
    &&& layers.len() == 6
    &&& before.len() == 6
    &&& forall|t: int| 0 <= t < 6 ==> layers_ok((#[trigger] layers[t])@, side_at(t))
    &&& forall|t: int| 0 <= t < 6 ==> layers_ok((#[trigger] before[t])@, side_at(t))
}

fn empty_layers() -> (r: Vec<Vec<Face>>)
    ensures
        r@.len() == 16,
        forall|i: int| 0 <= i < 16 ==> (#[trigger] r@[i])@.len() == 0,
{
    let mut r: Vec<Vec<Face>> = Vec::new();
    let mut i: usize = 0;
    while i < CHUNK_DIMENSION
        invariant
            i <= 16,
            r@.len() == i,
            forall|k: int| 0 <= k < i ==> (#[trigger] r@[k])@.len() == 0,
        decreases 16 - i,
    {
        r.push(Vec::new());
        i = i + 1;
    }
    r
}

fn empty_slices() -> (r: Vec<Vec<Vec<Face>>>)
    ensures
        r@.len() == 6,
        forall|t: int|
            0 <= t < 6 ==> (#[trigger] r@[t])@.len() == 16 && forall|i: int|
                0 <= i < 16 ==> (#[trigger] r@[t]@[i])@.len() == 0,
{
    let mut r: Vec<Vec<Vec<Face>>> = Vec::new();
    let mut t: usize = 0;
    while t < 6
        invariant
            t <= 6,
            r@.len() == t,
            forall|k: int|
                0 <= k < t ==> (#[trigger] r@[k])@.len() == 16 && forall|i: int|
                    0 <= i < 16 ==> (#[trigger] r@[k]@[i])@.len() == 0,
        decreases 6 - t,
    {
        r.push(empty_layers());
        t = t + 1;
    }
    r
}

/// Whether `sides` lists `side`.
fn contains_side(sides: &Vec<BlockSide>, side: BlockSide) -> (r: bool)
    ensures
        r == sides@.contains(side),
{
    let mut i: usize = 0;
    while i < sides.len()
        invariant
            i <= sides@.len(),
            forall|k: int| 0 <= k < i ==> sides@[k] != side,
        decreases sides@.len() - i,
    {
        if sides[i] == side {
            return true;
        }
        i = i + 1;
    }
    false
}

/// When `enabled`, merges the slices of side `t` (see `greedy_merge_and_modify_vecs`).
fn flush_side(
    layers: &mut Vec<Vec<Vec<Face>>>,
    before: &mut Vec<Vec<Vec<Face>>>,
    faces_to_make: &mut Vec<Face>,
    t: usize,
    enabled: bool,
)
    requires
        t < 6,
        slices_ok(old(layers)@, old(before)@),
        faces_good(old(faces_to_make)@),
    ensures
        slices_ok(final(layers)@, final(before)@),
        faces_good(final(faces_to_make)@),
        forall|u: int|
            0 <= u < 6 ==> #[trigger] side_total(final(layers)@, final(before)@, final(faces_to_make)@, u)
                == side_total(old(layers)@, old(before)@, old(faces_to_make)@, u),
{
    if enabled {
        let side = BlockSide::from_index(t);
        let ghost (l0, b0, f0) = (layers@, before@, faces_to_make@);
        greedy_merge_and_modify_vecs(&mut layers[t], &mut before[t], faces_to_make, side);
        proof {
            assert forall|u: int| 0 <= u < 6 implies #[trigger] side_total(
                layers@,
                before@,
                faces_to_make@,
                u,
            ) == side_total(l0, b0, f0, u) by {
                if u != t {
                    assert(layers@[u] == l0[u]);
                    assert(before@[u] == b0[u]);
                    assert(side_at(u) != side_at(t as int));
                    assert(side_area(faces_to_make@, side_at(u)) == side_area(f0, side_at(u)));
                } else {
                    lemma_layers_area_empty(layers@[u]@, 16);
                }
            }
            assert forall|u: int| 0 <= u < 6 implies layers_ok((#[trigger] layers@[u])@, side_at(u)) by {
                if u != t {
                    assert(layers@[u] == l0[u]);
                }
            }
            assert forall|u: int| 0 <= u < 6 implies layers_ok((#[trigger] before@[u])@, side_at(u)) by {
                if u != t {
                    assert(before@[u] == b0[u]);
                }
            }
        }
    }
}

/// Adds a unit quad to layer `o` of side `t`, joining it onto the last quad of
/// that layer when they line up.
fn add_unit_face(layers: &mut Vec<Vec<Vec<Face>>>, face: Face, t: usize, o: usize)
    requires
        t < 6,
        o < 16,
        old(layers)@.len() == 6,
        layers_ok(old(layers)@[t as int]@, side_at(t as int)),
        face_good(face),
        face.block_side == side_at(t as int),
        area(face) == 1,
    ensures
        final(layers)@.len() == 6,
        layers_ok(final(layers)@[t as int]@, side_at(t as int)),
        layers_area(final(layers)@[t as int]@, 16) == layers_area(old(layers)@[t as int]@, 16) + 1,
        forall|u: int| 0 <= u < 6 && u != t ==> #[trigger] final(layers)@[u] == old(layers)@[u],
{
    let ghost ls = layers@[t as int]@;
    let ghost v = ls[o as int]@;
    let len = layers[t][o].len();
    let mut joined = false;
    if len > 0 {
        let last = layers[t][o][len - 1];
        let merged = match face.block_side {
            BlockSide::LEFT => last.merge_left(&face),
            BlockSide::RIGHT => last.merge_right(&face),
            _ => last.merge_up(&face),
        };
        if let Some(m) = merged {
            proof {
                lemma_merge_adds_area(last, face, m, 16);
                lemma_area_sum_update(v, len - 1, m);
                assert(v.update(len - 1, m) =~= v.drop_last().push(m));
            }
            layers[t][o].pop();
            layers[t][o].push(m);
            joined = true;
        }
    }
    if !joined {
        proof {
            lemma_area_sum_push(v, face);
        }
        layers[t][o].push(face);
    }
    proof {
        let nv = layers@[t as int]@[o as int];
        assert(layers@[t as int]@ == ls.update(o as int, nv));
        lemma_layers_area_update(ls, o as int, nv, 16);
        assert forall|i: int| 0 <= i < 16 implies layer_ok((#[trigger] layers@[t as int]@[i])@, side_at(t as int)) by {
            if i != o {
                assert(layers@[t as int]@[i] == ls[i]);
            }
        }
    }
}

/// Emits every quad of the sixteen layers `ls` of `side`.
fn dump_layers(ls: &Vec<Vec<Face>>, faces_to_make: &mut Vec<Face>, side: BlockSide)
    requires
        layers_ok(ls@, side),
        faces_good(old(faces_to_make)@),
    ensures
        faces_good(final(faces_to_make)@),
        side_area(final(faces_to_make)@, side) == side_area(old(faces_to_make)@, side)
            + layers_area(ls@, 16),
        forall|s: BlockSide|
            s != side ==> #[trigger] side_area(final(faces_to_make)@, s) == side_area(
                old(faces_to_make)@,
                s,
            ),
{
    let mut i: usize = 0;
    while i < CHUNK_DIMENSION
        invariant
            i <= 16,
            layers_ok(ls@, side),
            faces_good(faces_to_make@),
            side_area(faces_to_make@, side) == side_area(old(faces_to_make)@, side) + layers_area(
                ls@,
                i as int,
            ),
            forall|s: BlockSide|
                s != side ==> #[trigger] side_area(faces_to_make@, s) == side_area(
                    old(faces_to_make)@,
                    s,
                ),
        decreases 16 - i,
    {
        let n = ls[i].len();
        push_faces(&ls[i], 0, n, faces_to_make, side);
        proof {
            assert(ls@[i as int]@.subrange(0, n as int) =~= ls@[i as int]@);
            assert(ls@[i as int]@.subrange(0, 0) =~= Seq::<Face>::empty());
        }
        i = i + 1;
    }
}

/// Whether side number `t` is among `sides`.
pub open spec fn requested(sides: Seq<BlockSide>, t: int) -> bool {
    sides.contains(side_at(t))
}

/// Emits the unit quads of the solid cell `(i, j, k)` on each requested side
/// whose neighbour is empty, into the current slices.
fn process_cell(
    side_layers: &mut Vec<Vec<Vec<Face>>>,
    chunk: &Chunk,
    sides: &Vec<BlockSide>,
    i: usize,
    j: usize,
    k: usize,
    block_type: u8,
)
    requires
        old(side_layers)@.len() == 6,
        forall|t: int| 0 <= t < 6 ==> layers_ok((#[trigger] old(side_layers)@[t])@, side_at(t)),
        sides@.no_duplicates(),
        in_chunk(i as int, j as int, k as int),
        chunk.wf(),
        solid_at(chunk.bits(), scan(i as int, j as int, k as int)),
        block_type < 4,
    ensures
        final(side_layers)@.len() == 6,
        forall|t: int| 0 <= t < 6 ==> layers_ok((#[trigger] final(side_layers)@[t])@, side_at(t)),
        forall|u: int|
            0 <= u < 6 ==> #[trigger] layers_area(final(side_layers)@[u]@, 16) == layers_area(
                old(side_layers)@[u]@,
                16,
            ) + if requested(sides@, u) && exposed_at(
                chunk.bits(),
                scan(i as int, j as int, k as int),
                side_at(u),
            ) {
                1int
            } else {
                0
            },
{
    let ghost bits = chunk.bits();
    let ghost m = scan(i as int, j as int, k as int);
    proof {
        lemma_scan_padded(i as int, j as int, k as int);
    }
    let adjacent_blocks_data = chunk.generate_adjacent_blocks(i, j, k);
    let mut t: usize = 0;
    while t < sides.len()
        invariant
            t <= sides@.len(),
            sides@.no_duplicates(),
            in_chunk(i as int, j as int, k as int),
            m == scan(i as int, j as int, k as int),
            padded_of_scan(m) == padded(i as int, j as int, k as int),
            solid_at(bits, m),
            bits == chunk.bits(),
            block_type < 4,
            forall|s: BlockSide|
                #[trigger] adjacent_blocks_data@[side_index(s) as int] == bits[padded(
                    i as int,
                    j as int,
                    k as int,
                ) + crate::chunk::neighbour_offset(s)],
            side_layers@.len() == 6,
            forall|u: int| 0 <= u < 6 ==> layers_ok((#[trigger] side_layers@[u])@, side_at(u)),
            forall|u: int|
                0 <= u < 6 ==> #[trigger] layers_area(side_layers@[u]@, 16) == layers_area(
                    old(side_layers)@[u]@,
                    16,
                ) + if sides@.subrange(0, t as int).contains(side_at(u)) && exposed_at(
                    bits,
                    m,
                    side_at(u),
                ) {
                    1int
                } else {
                    0
                },
        decreases sides@.len() - t,
    {
        let side = sides[t];
        let si = side.index();
        let ghost l0 = side_layers@;
        proof {
            crate::block::lemma_side_index_round_trip(side);
            lemma_prefix_contains(sides@, t as int);
        }
        if !adjacent_blocks_data[si] {
            let face = Face::new(i, j, k, block_type as usize, side);
            let o = match side {
                BlockSide::FRONT => i,
                BlockSide::BACK => i,
                BlockSide::LEFT => k,
                BlockSide::RIGHT => k,
                BlockSide::TOP => j,
                BlockSide::BOTTOM => j,
            };
            proof {
                lemma_unit_face_wf(i as int, j as int, k as int, block_type as usize, side);
            }
            add_unit_face(side_layers, face, si, o);
            proof {
                assert forall|u: int| 0 <= u < 6 implies layers_ok((#[trigger] side_layers@[u])@, side_at(u)) by {
                    if u != si {
                        assert(side_layers@[u] == l0[u]);
                    }
                }
                assert forall|u: int| 0 <= u < 6 && u != si implies #[trigger] layers_area(side_layers@[u]@, 16)
                    == layers_area(l0[u]@, 16) by {
                    assert(side_layers@[u] == l0[u]);
                }
                assert forall|u: int| 0 <= u < 6 && u != si implies side_at(u) != side by {}
            }
        } else {
            proof {
                assert(!exposed_at(bits, m, side));
                assert forall|u: int| 0 <= u < 6 && u != si implies side_at(u) != side by {}
            }
        }
        t = t + 1;
    }
    proof {
        assert(sides@.subrange(0, sides@.len() as int) =~= sides@);
    }
}

proof fn lemma_prefix_contains(sides: Seq<BlockSide>, t: int)
    requires
        0 <= t < sides.len(),
        sides.no_duplicates(),
    ensures
        !sides.subrange(0, t).contains(sides[t]),
        forall|s: BlockSide|
            #[trigger] sides.subrange(0, t + 1).contains(s) == (sides.subrange(0, t).contains(s) || s
                == sides[t]),
{
    let side = sides[t];
    if sides.subrange(0, t).contains(side) {
        let w = choose|w: int| 0 <= w < t && #[trigger] sides.subrange(0, t)[w] == side;
        assert(sides[w] == sides[t]);
    }
    assert forall|s: BlockSide| #[trigger] sides.subrange(0, t + 1).contains(s) == (sides.subrange(
        0,
        t,
    ).contains(s) || s == sides[t]) by {
        if sides.subrange(0, t + 1).contains(s) {
            let w = choose|w: int| 0 <= w < t + 1 && #[trigger] sides.subrange(0, t + 1)[w] == s;
            if w < t {
                assert(sides.subrange(0, t)[w] == s);
            }
        }
        if sides.subrange(0, t).contains(s) {
            let w = choose|w: int| 0 <= w < t && #[trigger] sides.subrange(0, t)[w] == s;
            assert(sides.subrange(0, t + 1)[w] == s);
        }
        if s == sides[t] {
            assert(sides.subrange(0, t + 1)[t] == s);
        }
    }
}

/// Emits every quad still held in the slices.
fn dump_all(
    side_layers: &Vec<Vec<Vec<Face>>>,
    side_before_layers: &Vec<Vec<Vec<Face>>>,
    faces_to_make: &mut Vec<Face>,
)
    requires
        slices_ok(side_layers@, side_before_layers@),
        faces_good(old(faces_to_make)@),
    ensures
        faces_good(final(faces_to_make)@),
        forall|u: int|
            0 <= u < 6 ==> #[trigger] side_area(final(faces_to_make)@, side_at(u)) == side_total(
                side_layers@,
                side_before_layers@,
                old(faces_to_make)@,
                u,
            ),
{
    let ghost f0 = faces_to_make@;
    let mut t: usize = 0;
    while t < 6
        invariant
            t <= 6,
            slices_ok(side_layers@, side_before_layers@),
            faces_good(faces_to_make@),
            forall|u: int|
                0 <= u < 6 ==> #[trigger] side_area(faces_to_make@, side_at(u)) == if u < t {
                    side_total(side_layers@, side_before_layers@, f0, u)
                } else {
                    side_area(f0, side_at(u))
                },
        decreases 6 - t,
    {
        let side = BlockSide::from_index(t);
        assert(layers_ok(side_before_layers@[t as int]@, side));
        assert(layers_ok(side_layers@[t as int]@, side));
        dump_layers(&side_before_layers[t], faces_to_make, side);
        dump_layers(&side_layers[t], faces_to_make, side);
        proof {
            assert forall|u: int| 0 <= u < 6 && u != t implies side_at(u) != side by {}
        }
        t = t + 1;
    }
}

/// The merged quads of the requested sides of a chunk.
///
/// For each requested side the quads cover exactly the faces of that side that
/// the chunk shows (solid cells whose neighbour on that side is empty), each
/// once; no quad belongs to a side that was not requested.
#[verifier::rlimit(60)]
pub fn greedy_faces(chunk: &Chunk, sides: &Vec<BlockSide>) -> (r: Vec<Face>)
    requires
        chunk.wf(),
        sides@.no_duplicates(),
        forall|b: int| 0 <= b < chunk.blocks@.len() ==> (#[trigger] chunk.blocks@[b]).block_type < 4,
    ensures
        faces_good(r@),
        forall|s: BlockSide|
            sides@.contains(s) ==> #[trigger] side_area(r@, s) == count_exposed(
                chunk.bits(),
                4096,
                s,
            ),
        forall|k: int| 0 <= k < r@.len() ==> sides@.contains((#[trigger] r@[k]).block_side),
{
    let ghost bits = chunk.bits();
    let mut cbi = ChunkBlockIterator::new(chunk);
    let mut side_layers = empty_slices();
    let mut side_before_layers = empty_slices();
    let mut faces_to_make: Vec<Face> = Vec::new();
    let mut current_y: usize = 0;
    let mut current_z: usize = 0;
    let contains_front = contains_side(sides, BlockSide::FRONT);
    let contains_back = contains_side(sides, BlockSide::BACK);
    let contains_bottom = contains_side(sides, BlockSide::BOTTOM);
    let contains_top = contains_side(sides, BlockSide::TOP);
    let contains_left = contains_side(sides, BlockSide::LEFT);
    let contains_right = contains_side(sides, BlockSide::RIGHT);
    proof {
        assert forall|t: int| 0 <= t < 6 implies #[trigger] side_total(
            side_layers@,
            side_before_layers@,
            faces_to_make@,
            t,
        ) == if requested(sides@, t) {
            count_exposed(bits, 0, side_at(t))
        } else {
            0
        } by {
            lemma_layers_area_empty(side_layers@[t]@, 16);
            lemma_layers_area_empty(side_before_layers@[t]@, 16);
        }
    }
    let mut done = false;
    while !done
        invariant
            cbi.wf(),
            cbi.chunk() == *chunk,
            chunk.wf(),
            bits == chunk.bits(),
            sides@.no_duplicates(),
            forall|b: int| 0 <= b < chunk.blocks@.len() ==> (#[trigger] chunk.blocks@[b]).block_type < 4,
            0 <= cbi.position() <= 4096,
            slices_ok(side_layers@, side_before_layers@),
            faces_good(faces_to_make@),
            contains_front == requested(sides@, 0),
            contains_back == requested(sides@, 1),
            contains_bottom == requested(sides@, 2),
            contains_top == requested(sides@, 3),
            contains_left == requested(sides@, 4),
            contains_right == requested(sides@, 5),
            forall|t: int|
                0 <= t < 6 ==> #[trigger] side_total(
                    side_layers@,
                    side_before_layers@,
                    faces_to_make@,
                    t,
                ) == if requested(sides@, t) {
                    count_exposed(bits, cbi.position(), side_at(t))
                } else {
                    0
                },
            done ==> forall|k: int| cbi.position() <= k < 4096 ==> !#[trigger] solid_at(bits, k),
        decreases 4097 - cbi.position() - if done {
            1int
        } else {
            0
        },
    {
        let ghost pos0 = cbi.position();
        let next = cbi.get_next_block();
        proof {
            cbi.lemma_position_bound();
        }
        match next {
            None => {
                proof {
                    assert forall|t: int| 0 <= t < 6 implies #[trigger] side_total(
                        side_layers@,
                        side_before_layers@,
                        faces_to_make@,
                        t,
                    ) == if requested(sides@, t) {
                        count_exposed(bits, cbi.position(), side_at(t))
                    } else {
                        0
                    } by {
                        lemma_count_exposed_skip(bits, pos0, cbi.position(), side_at(t));
                    }
                }
                done = true;
            },
            Some((position, block)) => {
                let i = position.x;
                let j = position.y;
                let k = position.z;
                let ghost m = scan(i as int, j as int, k as int);
                proof {
                    assert forall|t: int| 0 <= t < 6 implies #[trigger] side_total(
                        side_layers@,
                        side_before_layers@,
                        faces_to_make@,
                        t,
                    ) == if requested(sides@, t) {
                        count_exposed(bits, m, side_at(t))
                    } else {
                        0
                    } by {
                        lemma_count_exposed_skip(bits, pos0, m, side_at(t));
                    }
                    lemma_scan_padded(i as int, j as int, k as int);
                    crate::chunk::lemma_count_solid_monotone(bits, m, 4096);
                    crate::chunk::lemma_count_solid_monotone(bits, 0, m);
                    assert(solid_at(bits, m));
                    let b = crate::chunk::count_solid(bits, m);
                    assert(0 <= b < chunk.blocks@.len());
                    assert(block == chunk.blocks@[b]);
                    assert(chunk.blocks@[b].block_type < 4);
                }
                if current_y < j {
                    flush_side(&mut side_layers, &mut side_before_layers, &mut faces_to_make, 4, contains_left);
                    flush_side(&mut side_layers, &mut side_before_layers, &mut faces_to_make, 5, contains_right);
                }
                if current_z < k {
                    flush_side(&mut side_layers, &mut side_before_layers, &mut faces_to_make, 0, contains_front);
                    flush_side(&mut side_layers, &mut side_before_layers, &mut faces_to_make, 1, contains_back);
                    flush_side(&mut side_layers, &mut side_before_layers, &mut faces_to_make, 3, contains_top);
                    flush_side(&mut side_layers, &mut side_before_layers, &mut faces_to_make, 2, contains_bottom);
                }
                current_y = j;
                current_z = k;
                let ghost l0 = side_layers@;
                process_cell(&mut side_layers, chunk, sides, i, j, k, block.block_type);
                proof {
                    assert forall|u: int| 0 <= u < 6 implies #[trigger] side_total(
                        side_layers@,
                        side_before_layers@,
                        faces_to_make@,
                        u,
                    ) == if requested(sides@, u) {
                        count_exposed(bits, m + 1, side_at(u))
                    } else {
                        0
                    } by {
                        assert(side_total(l0, side_before_layers@, faces_to_make@, u) == if requested(sides@, u) {
                            count_exposed(bits, m, side_at(u))
                        } else {
                            0
                        });
                    }
                }
            },
        }
    }
    flush_side(&mut side_layers, &mut side_before_layers, &mut faces_to_make, 0, contains_front);
    flush_side(&mut side_layers, &mut side_before_layers, &mut faces_to_make, 1, contains_back);
    flush_side(&mut side_layers, &mut side_before_layers, &mut faces_to_make, 4, contains_left);
    flush_side(&mut side_layers, &mut side_before_layers, &mut faces_to_make, 5, contains_right);
    flush_side(&mut side_layers, &mut side_before_layers, &mut faces_to_make, 3, contains_top);
    flush_side(&mut side_layers, &mut side_before_layers, &mut faces_to_make, 2, contains_bottom);
    let ghost f0 = faces_to_make@;
    let ghost pos = cbi.position();
    dump_all(&side_layers, &side_before_layers, &mut faces_to_make);
    proof {
        assert forall|s: BlockSide| sides@.contains(s) implies #[trigger] side_area(faces_to_make@, s)
            == count_exposed(bits, 4096, s) by {
            crate::block::lemma_side_index_round_trip(s);
            let u = side_index(s) as int;
            assert(side_area(faces_to_make@, side_at(u)) == side_total(side_layers@, side_before_layers@, f0, u));
            lemma_count_exposed_skip(bits, pos, 4096, s);
        }
        assert forall|kk: int| 0 <= kk < faces_to_make@.len() implies sides@.contains((#[trigger] faces_to_make@[kk]).block_side) by {
            let s = faces_to_make@[kk].block_side;
            crate::block::lemma_side_index_round_trip(s);
            let u = side_index(s) as int;
            if !sides@.contains(s) {
                assert(side_area(faces_to_make@, side_at(u)) == side_total(side_layers@, side_before_layers@, f0, u));
                lemma_side_area_zero(faces_to_make@, s);
            }
        }
    }
    faces_to_make
}

proof fn lemma_side_area_none(fs: Seq<Face>, side: BlockSide)
    requires
        forall|k: int| 0 <= k < fs.len() ==> (#[trigger] fs[k]).block_side != side,
    ensures
        side_area(fs, side) == 0,
    decreases fs.len(),
{
    if fs.len() > 0 {
        let init = fs.drop_last();
        assert forall|k: int| 0 <= k < init.len() implies (#[trigger] init[k]).block_side != side by {
            assert(init[k] == fs[k]);
        }
        lemma_side_area_none(init, side);
    }
}

proof fn lemma_side_area_prefix(fs: Seq<Face>, i: int, side: BlockSide)
    requires
        faces_good(fs),
        0 <= i <= fs.len(),
    ensures
        0 <= side_area(fs.subrange(0, i), side) <= side_area(fs, side),
    decreases fs.len(),
{
    if i == fs.len() {
        assert(fs.subrange(0, i) =~= fs);
        lemma_side_area_zero(fs, side);
    } else {
        let init = fs.drop_last();
        assert(faces_good(init)) by {
            assert forall|k: int| 0 <= k < init.len() implies face_good(#[trigger] init[k]) by {
                assert(init[k] == fs[k]);
            }
        }
        lemma_side_area_prefix(init, i, side);
        assert(init.subrange(0, i) =~= fs.subrange(0, i));
        lemma_area_positive(fs.last());
    }
}

pub proof fn lemma_count_exposed_le(bits: Seq<bool>, n: int, side: BlockSide)
    requires
        0 <= n,
    ensures
        0 <= count_exposed(bits, n, side) <= n,
    decreases n,
{
    if n > 0 {
        lemma_count_exposed_le(bits, n - 1, side);
    }
}

proof fn lemma_quad_indices_bound(n: nat)
    requires
        4 * n + 3 <= u32::MAX,
    ensures
        forall|k: int| 0 <= k < quad_indices(n).len() ==> #[trigger] quad_indices(n)[k] < 4 * n,
    decreases n,
{
    lemma_quad_indices_len(n);
    if n > 0 {
        lemma_quad_indices_bound((n - 1) as nat);
        lemma_quad_indices_len((n - 1) as nat);
        let prev = quad_indices((n - 1) as nat);
        assert forall|k: int| 0 <= k < quad_indices(n).len() implies #[trigger] quad_indices(n)[k] < 4 * n by {
            if k < prev.len() {
                assert(quad_indices(n)[k] == prev[k]);
            } else {
                assert(quad_indices(n)[k] == face_indices(n - 1)[k - prev.len()]);
            }
        }
    }
}

/// The vertex and index lists of each side, built quad by quad.
pub open spec fn emitted_ok(
    vertex_vec: Seq<Vec<Vertex>>,
    index_vec: Seq<Vec<u32>>,
    num: Seq<u32>,
    faces: Seq<Face>,
    i: int,
    chunk_coordinate_index: u32,
    t: int,
) -> bool {
    let vs = vertex_vec[t]@;
    &&& vs.len() == 4 * num[t]
    &&& index_vec[t]@ == quad_indices(num[t] as nat)
    &&& quad_area_sum(vs) == side_area(faces.subrange(0, i), side_at(t))
    &&& num[t] <= quad_area_sum(vs)
    &&& forall|k: int| 0 <= k < vs.len() ==> (#[trigger] vs[k]).chunk_coordinate_index == chunk_coordinate_index
    &&& forall|q: int| 0 <= q < num[t] ==> #[trigger] quad_geometry(vs, q, side_at(t))
}

/// Coordinate `axis` of a vertex position.
pub open spec fn vcoord(v: Vertex, axis: int) -> int {
    if axis == 0 {
        v.x as int
    } else if axis == 1 {
        v.y as int
    } else {
        v.z as int
    }
}

/// `b` is `a` moved by `n` along `axis` in the given direction.
pub open spec fn vmoved(a: Vertex, b: Vertex, axis: int, positive: bool, n: int) -> bool {
    &&& (if positive { vcoord(b, axis) - vcoord(a, axis) } else { vcoord(a, axis) - vcoord(b, axis) }) == n
    &&& forall|x: int| 0 <= x < 3 && x != axis ==> vcoord(b, x) == vcoord(a, x)
}

/// Quad `q` of a side's vertex list (lower-left, lower-right, upper-left,
/// upper-right) is a rectangle in that side's plane whose width and height, in
/// cells, are the texture span `u` and `v` of its lower-right vertex; its area
/// is therefore `u * v`.
pub open spec fn quad_geometry(vs: Seq<Vertex>, q: int, side: BlockSide) -> bool {
    let ll = vs[4 * q];
    let lr = vs[4 * q + 1];
    let ul = vs[4 * q + 2];
    let ur = vs[4 * q + 3];
    let w = lr.u as int;
    let h = lr.v as int;
    &&& w >= 1 && h >= 1
    &&& vmoved(ll, lr, crate::face::width_axis(side), crate::face::width_positive(side), w)
    &&& vmoved(ul, ur, crate::face::width_axis(side), crate::face::width_positive(side), w)
    &&& vmoved(ll, ul, crate::face::height_axis(side), true, h)
}

proof fn lemma_face_quad_geometry(f: Face, idx: u32, vs: Seq<Vertex>)
    requires
        face_good(f),
        vs.len() % 4 == 0,
    ensures
        quad_geometry(vs + face_vertices(f, idx), vs.len() as int / 4, f.block_side),
{
    let all = vs + face_vertices(f, idx);
    let q = vs.len() as int / 4;
    assert(4 * q == vs.len());
    let fv = face_vertices(f, idx);
    assert(all[4 * q] == fv[0] && all[4 * q + 1] == fv[1] && all[4 * q + 2] == fv[2] && all[4 * q + 3] == fv[3]);
    assert(crate::face::width(f) <= 16 && crate::face::height(f) <= 16);
    assert forall|a: int| 0 <= a < 3 implies vcoord(fv[0], a) == crate::face::coord(f.ll, a) && vcoord(fv[1], a)
        == crate::face::coord(f.lr, a) && vcoord(fv[2], a) == crate::face::coord(f.ul, a) && vcoord(fv[3], a)
        == crate::face::coord(f.ur, a) by {}
    let s = f.block_side;
    let w = crate::face::width(f);
    let h = crate::face::height(f);
    assert(fv[1].u as int == w && fv[1].v as int == h);
    assert(crate::face::moved_by(f.ll, f.lr, crate::face::width_axis(s), crate::face::width_positive(s), w));
    let wa = crate::face::width_axis(s);
    assert(vcoord(fv[0], wa) == crate::face::coord(f.ll, wa) && vcoord(fv[1], wa) == crate::face::coord(f.lr, wa));
    assert(vcoord(fv[2], wa) == crate::face::coord(f.ul, wa) && vcoord(fv[3], wa) == crate::face::coord(f.ur, wa));
    assert forall|x: int| 0 <= x < 3 && x != wa implies vcoord(fv[1], x) == vcoord(fv[0], x) && vcoord(fv[3], x)
        == vcoord(fv[2], x) by {
        assert(crate::face::coord(f.lr, x) == crate::face::coord(f.ll, x));
        assert(crate::face::coord(f.ur, x) == crate::face::coord(f.ul, x));
    }
    assert(vmoved(fv[0], fv[1], crate::face::width_axis(s), crate::face::width_positive(s), w));
    assert(vmoved(fv[2], fv[3], crate::face::width_axis(s), crate::face::width_positive(s), w));
    let ha = crate::face::height_axis(s);
    assert(vcoord(fv[0], ha) == crate::face::coord(f.ll, ha) && vcoord(fv[2], ha) == crate::face::coord(f.ul, ha));
    assert forall|x: int| 0 <= x < 3 && x != ha implies vcoord(fv[2], x) == vcoord(fv[0], x) by {
        assert(crate::face::coord(f.ul, x) == crate::face::coord(f.ll, x));
    }
    assert(vmoved(fv[0], fv[2], crate::face::height_axis(s), true, h));
}

/// What `greedy_sided(chunk, index, sides)` promises of its mesh `m`.
pub open spec fn greedy_result(m: Mesh, chunk: Chunk, index: u32, sides: Seq<BlockSide>) -> bool {
    &&& m.wf()
    &&& forall|t: int|
        0 <= t < 6 ==> side_wf(&#[trigger] m.mesh@[t]) && m.mesh@[t].len == m.mesh@[t].indices@.len()
    &&& forall|t: int|
        0 <= t < 6 ==> #[trigger] quad_area_sum(m.mesh@[t].vertices@) == if requested(sides, t) {
            count_exposed(chunk.bits(), 4096, side_at(t))
        } else {
            0
        }
    &&& forall|t: int| 0 <= t < 6 && !requested(sides, t) ==> (#[trigger] m.mesh@[t]).vertices@.len() == 0
    &&& forall|t: int| 0 <= t < 6 ==> (#[trigger] m.mesh@[t]).vertices@.len() <= 4 * quad_area_sum(m.mesh@[t].vertices@)
    &&& forall|t: int, q: int|
        0 <= t < 6 && 0 <= q < m.mesh@[t].vertices@.len() / 4 ==> #[trigger] quad_geometry(m.mesh@[t].vertices@, q, side_at(t))
    &&& forall|t: int, k: int|
        0 <= t < 6 && 0 <= k < m.mesh@[t].vertices@.len() ==> (#[trigger] m.mesh@[t].vertices@[k]).chunk_coordinate_index
            == index
}

/// The greedy mesh of the requested sides of a chunk.
///
/// Each side is a list of whole quads (four vertices, six indices each, the
/// indices pointing into that side's vertices); the texture spans of a side's
/// quads add up to the number of faces the chunk shows on that side, and a side
/// that was not requested is empty. Every vertex carries `index`.
pub fn greedy_sided(chunk: &Chunk, index: u32, sides: &Vec<BlockSide>) -> (r: Mesh)
    requires
        chunk.wf(),
        sides@.no_duplicates(),
        forall|b: int| 0 <= b < chunk.blocks@.len() ==> (#[trigger] chunk.blocks@[b]).block_type < 4,
    ensures
        greedy_result(r, *chunk, index, sides@),
        r.wf(),
        forall|t: int|
            0 <= t < 6 ==> side_wf(&#[trigger] r.mesh@[t]) && r.mesh@[t].len == r.mesh@[t].indices@.len(),
        forall|t: int|
            0 <= t < 6 ==> #[trigger] quad_area_sum(r.mesh@[t].vertices@) == if requested(sides@, t) {
                count_exposed(chunk.bits(), 4096, side_at(t))
            } else {
                0
            },
        forall|t: int| 0 <= t < 6 && !requested(sides@, t) ==> (#[trigger] r.mesh@[t]).vertices@.len() == 0,
        forall|t: int| 0 <= t < 6 ==> (#[trigger] r.mesh@[t]).vertices@.len() <= 4 * quad_area_sum(r.mesh@[t].vertices@),
        forall|t: int, q: int|
            0 <= t < 6 && 0 <= q < r.mesh@[t].vertices@.len() / 4 ==> #[trigger] quad_geometry(r.mesh@[t].vertices@, q, side_at(t)),
        forall|t: int, k: int|
            0 <= t < 6 && 0 <= k < r.mesh@[t].vertices@.len() ==> (#[trigger] r.mesh@[t].vertices@[k]).chunk_coordinate_index
                == index,
{
    let faces_to_make = greedy_faces(chunk, sides);
    let ghost bits = chunk.bits();
    let ghost fs = faces_to_make@;
    let mut vertex_vec: Vec<Vec<Vertex>> = Vec::new();
    let mut index_vec: Vec<Vec<u32>> = Vec::new();
    let mut num_faces_generated: Vec<u32> = Vec::new();
    let mut t: usize = 0;
    while t < 6
        invariant
            t <= 6,
            vertex_vec@.len() == t,
            index_vec@.len() == t,
            num_faces_generated@.len() == t,
            forall|u: int|
                0 <= u < t ==> (#[trigger] vertex_vec@[u])@.len() == 0 && index_vec@[u]@.len() == 0
                    && num_faces_generated@[u] == 0,
        decreases 6 - t,
    {
        vertex_vec.push(Vec::new());
        index_vec.push(Vec::new());
        num_faces_generated.push(0);
        t = t + 1;
    }
    proof {
        assert(fs.subrange(0, 0) =~= Seq::<Face>::empty());
        assert forall|u: int| 0 <= u < 6 implies #[trigger] emitted_ok(vertex_vec@, index_vec@, num_faces_generated@, fs, 0, index, u) by {
            assert(vertex_vec@[u]@.len() == 0);
            assert(quad_indices(0) =~= index_vec@[u]@);
            assert(quad_area_sum(vertex_vec@[u]@) == 0);
        }
        assert forall|u: int| 0 <= u < 6 implies #[trigger] side_area(fs, side_at(u)) <= 4096 by {
            if requested(sides@, u) {
                lemma_count_exposed_le(bits, 4096, side_at(u));
            } else {
                lemma_side_area_none(fs, side_at(u));
            }
        }
    }
    let mut i: usize = 0;
    while i < faces_to_make.len()
        invariant
            i <= fs.len(),
            fs == faces_to_make@,
            faces_good(fs),
            vertex_vec@.len() == 6,
            index_vec@.len() == 6,
            num_faces_generated@.len() == 6,
            forall|u: int| 0 <= u < 6 ==> #[trigger] side_area(fs, side_at(u)) <= 4096,
            forall|u: int|
                0 <= u < 6 ==> #[trigger] emitted_ok(vertex_vec@, index_vec@, num_faces_generated@, fs, i as int, index, u),
        decreases fs.len() - i,
    {
        let face = faces_to_make[i];
        let fi = face.block_side.index();
        let ghost (v0, x0, n0) = (vertex_vec@, index_vec@, num_faces_generated@);
        proof {
            crate::block::lemma_side_index_round_trip(face.block_side);
            assert(face_good(fs[i as int]));
            lemma_side_area_prefix(fs, i as int, face.block_side);
            lemma_side_area_prefix(fs, i as int + 1, face.block_side);
            assert(fs.subrange(0, i as int + 1).drop_last() =~= fs.subrange(0, i as int));
            assert(emitted_ok(v0, x0, n0, fs, i as int, index, fi as int));
            lemma_area_positive(face);
        }
        let mut verts = Mesh::generate_face_vertices(&face, index);
        let n = num_faces_generated[fi];
        let mut inds = Mesh::generate_face_indices(n);
        proof {
            lemma_quad_area_sum_push(vertex_vec@[fi as int]@, verts@);
        }
        vertex_vec[fi].append(&mut verts);
        index_vec[fi].append(&mut inds);
        num_faces_generated.set(fi, n + 1);
        proof {
            assert forall|u: int| 0 <= u < 6 implies #[trigger] emitted_ok(vertex_vec@, index_vec@, num_faces_generated@, fs, i as int + 1, index, u) by {
                assert(emitted_ok(v0, x0, n0, fs, i as int, index, u));
                if u != fi {
                    assert(vertex_vec@[u] == v0[u]);
                    assert(index_vec@[u] == x0[u]);
                    assert(side_at(u) != face.block_side);
                } else {
                    let vs = vertex_vec@[u]@;
                    assert(vs =~= v0[u]@ + face_vertices(face, index));
                    lemma_face_quad_geometry(face, index, v0[u]@);
                    assert forall|q: int| 0 <= q < num_faces_generated@[u] implies #[trigger] quad_geometry(vs, q, side_at(u)) by {
                        if q < n0[u] {
                            assert(quad_geometry(v0[u]@, q, side_at(u)));
                            assert(vs[4 * q] == v0[u]@[4 * q] && vs[4 * q + 1] == v0[u]@[4 * q + 1] && vs[4 * q + 2] == v0[u]@[4 * q + 2]
                                && vs[4 * q + 3] == v0[u]@[4 * q + 3]);
                        } else {
                            assert(q == v0[u]@.len() as int / 4);
                        }
                    }
                    assert forall|k: int| 0 <= k < vs.len() implies (#[trigger] vs[k]).chunk_coordinate_index == index by {
                        if k < v0[u]@.len() {
                            assert(vs[k] == v0[u]@[k]);
                        }
                    }
                }
            }
        }
        i = i + 1;
    }
    proof {
        assert(fs.subrange(0, fs.len() as int) =~= fs);
    }
    let mut mesh = Mesh::new();
    proof {
        assert forall|u: int| 0 <= u < 6 implies #[trigger] num_faces_generated@[u] <= 4096 by {
            assert(emitted_ok(vertex_vec@, index_vec@, num_faces_generated@, fs, fs.len() as int, index, u));
        }
        assert forall|u: int| 0 <= u < 6 implies forall|k: int|
            0 <= k < (#[trigger] index_vec@[u])@.len() ==> index_vec@[u]@[k] < 4 * num_faces_generated@[u] by {
            assert(emitted_ok(vertex_vec@, index_vec@, num_faces_generated@, fs, fs.len() as int, index, u));
            lemma_quad_indices_bound(num_faces_generated@[u] as nat);
            lemma_quad_indices_len(num_faces_generated@[u] as nat);
        }
        assert forall|u: int| 0 <= u < 6 implies (#[trigger] index_vec@[u])@.len() == 6 * num_faces_generated@[u] by {
            assert(emitted_ok(vertex_vec@, index_vec@, num_faces_generated@, fs, fs.len() as int, index, u));
            lemma_quad_indices_len(num_faces_generated@[u] as nat);
        }
    }
    let ghost (vv, iv, nv) = (vertex_vec@, index_vec@, num_faces_generated@);
    let ghost m0 = mesh.mesh@;
    proof {
        assert forall|u: int| 0 <= u < 6 implies (#[trigger] vertex_vec@[u])@.len() <= 16384 by {
            assert(emitted_ok(vertex_vec@, index_vec@, num_faces_generated@, fs, fs.len() as int, index, u));
            assert(num_faces_generated@[u] <= 4096);
        }
        assert forall|u: int| 0 <= u < 6 implies (#[trigger] m0[u]).vertices@.len() == 0 && m0[u].indices@.len() == 0 && m0[u].len == 0 by {}
    }
    mesh.add_vertices(vertex_vec, index_vec);
    proof {
        assert forall|u: int| 0 <= u < 6 implies (#[trigger] mesh.mesh@[u]).vertices@ =~= vv[u]@ && mesh.mesh@[u].indices@ =~= iv[u]@ by {
            assert(m0[u].vertices@.len() == 0 && m0[u].indices@.len() == 0);
            assert(mesh.mesh@[u].vertices@ =~= m0[u].vertices@ + vv[u]@);
            assert forall|k: int| 0 <= k < iv[u]@.len() implies mesh.mesh@[u].indices@[k] == iv[u]@[k] by {
                assert(mesh.mesh@[u].indices@[m0[u].indices@.len() + k] == m0[u].vertices@.len() + iv[u]@[k]);
            }
        }
        assert forall|u: int| 0 <= u < 6 implies side_wf(&#[trigger] mesh.mesh@[u]) && mesh.mesh@[u].len
            == mesh.mesh@[u].indices@.len() by {
            assert(emitted_ok(vv, iv, nv, fs, fs.len() as int, index, u));
            assert(mesh.mesh@[u].vertices@ =~= vv[u]@);
            assert(mesh.mesh@[u].indices@ =~= iv[u]@);
            let q = nv[u] as int;
            assert((4 * q) / 4 == q && (4 * q) % 4 == 0) by (nonlinear_arith);
            assert(m0[u].len == 0);
            assert(mesh.mesh@[u].vertices@.len() == 4 * q);
            assert(mesh.mesh@[u].vertices@.len() % 4 == 0);
            assert(mesh.mesh@[u].indices@ == quad_indices(q as nat));
            assert(mesh.mesh@[u].len == mesh.mesh@[u].indices@.len());
        }
        assert forall|u: int| 0 <= u < 6 implies #[trigger] quad_area_sum(mesh.mesh@[u].vertices@) == if requested(sides@, u) {
            count_exposed(bits, 4096, side_at(u))
        } else {
            0
        } by {
            assert(emitted_ok(vv, iv, nv, fs, fs.len() as int, index, u));
            assert(mesh.mesh@[u].vertices@ =~= vv[u]@);
            if !requested(sides@, u) {
                lemma_side_area_none(fs, side_at(u));
            }
        }
        assert forall|u: int| 0 <= u < 6 implies (#[trigger] mesh.mesh@[u]).vertices@.len() <= 4 * quad_area_sum(mesh.mesh@[u].vertices@) by {
            assert(emitted_ok(vv, iv, nv, fs, fs.len() as int, index, u));
            assert(mesh.mesh@[u].vertices@ =~= vv[u]@);
        }
        assert forall|u: int, q: int|
            0 <= u < 6 && 0 <= q < mesh.mesh@[u].vertices@.len() / 4 implies #[trigger] quad_geometry(mesh.mesh@[u].vertices@, q, side_at(u)) by {
            assert(emitted_ok(vv, iv, nv, fs, fs.len() as int, index, u));
            assert(mesh.mesh@[u].vertices@ =~= vv[u]@);
            let n = nv[u] as int;
            assert((4 * n) / 4 == n) by (nonlinear_arith);
        }
        assert forall|u: int| 0 <= u < 6 && !requested(sides@, u) implies (#[trigger] mesh.mesh@[u]).vertices@.len() == 0 by {
            assert(emitted_ok(vv, iv, nv, fs, fs.len() as int, index, u));
            assert(mesh.mesh@[u].vertices@ =~= vv[u]@);
            lemma_side_area_none(fs, side_at(u));
        }
        assert forall|u: int, k: int|
            0 <= u < 6 && 0 <= k < mesh.mesh@[u].vertices@.len() implies (#[trigger] mesh.mesh@[u].vertices@[k]).chunk_coordinate_index
                == index by {
            assert(emitted_ok(vv, iv, nv, fs, fs.len() as int, index, u));
            assert(mesh.mesh@[u].vertices@ =~= vv[u]@);
        }
    }
    mesh
}

impl Mesh {
    /// The greedy mesh of the requested sides of a chunk; see `greedy_sided`.
    pub fn greedy_sided(chunk: &Chunk, index: u32, sides: &Vec<BlockSide>) -> (r: Mesh)
        requires
            chunk.wf(),
            sides@.no_duplicates(),
            forall|b: int| 0 <= b < chunk.blocks@.len() ==> (#[trigger] chunk.blocks@[b]).block_type < 4,
        ensures
            r.wf(),
            forall|t: int|
                0 <= t < 6 ==> side_wf(&#[trigger] r.mesh@[t]) && r.mesh@[t].len == r.mesh@[t].indices@.len(),
            forall|t: int|
                0 <= t < 6 ==> #[trigger] quad_area_sum(r.mesh@[t].vertices@) == if requested(sides@, t) {
                    count_exposed(chunk.bits(), 4096, side_at(t))
                } else {
                    0
                },
            forall|t: int| 0 <= t < 6 && !requested(sides@, t) ==> (#[trigger] r.mesh@[t]).vertices@.len() == 0,
            forall|t: int| 0 <= t < 6 ==> (#[trigger] r.mesh@[t]).vertices@.len() <= 4 * quad_area_sum(r.mesh@[t].vertices@),
            forall|t: int, q: int|
                0 <= t < 6 && 0 <= q < r.mesh@[t].vertices@.len() / 4 ==> #[trigger] quad_geometry(r.mesh@[t].vertices@, q, side_at(t)),
            forall|t: int, k: int|
                0 <= t < 6 && 0 <= k < r.mesh@[t].vertices@.len() ==> (#[trigger] r.mesh@[t].vertices@[k]).chunk_coordinate_index
                    == index,
    {
        greedy_sided(chunk, index, sides)
    }
}

} // verus!
