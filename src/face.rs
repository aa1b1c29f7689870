//! Quads produced by face extraction and the three ways of joining two of them.

use vstd::prelude::*;
use crate::block::BlockSide;

verus! {

/// A corner point in chunk-local coordinates.
#[derive(PartialEq, Eq, Structural, Copy, Clone, Debug)]
pub struct Point3 {
    pub x: usize,
    pub y: usize,
    pub z: usize,
}

impl Point3 {
    pub fn new(x: usize, y: usize, z: usize) -> (r: Point3)
        ensures
            r == (Point3 { x, y, z }),
    {
        Point3 { x, y, z }
    }
}

/// One quad of a mesh side: four corners, the block type it shows and its side.
#[derive(PartialEq, Eq, Structural, Copy, Clone, Debug)]
pub struct Face {
    /// Lower-right corner.
    pub lr: Point3,
    /// Lower-left corner.
    pub ll: Point3,
    /// Upper-right corner.
    pub ur: Point3,
    /// Upper-left corner.
    pub ul: Point3,
    /// The block type code, used to pick textures.
    pub block_type_int: usize,
    /// The side of the block this quad belongs to.
    pub block_side: BlockSide,
}

/// Coordinate `axis` (0 = x, 1 = y, 2 = z) of a point.
pub open spec fn coord(p: Point3, axis: int) -> int {
    if axis == 0 {
        p.x as int
    } else if axis == 1 {
        p.y as int
    } else {
        p.z as int
    }
}

/// The axis along which the width (left to right) of a quad on `side` runs.
pub open spec fn width_axis(side: BlockSide) -> int {
    match side {
        BlockSide::FRONT | BlockSide::BACK | BlockSide::BOTTOM | BlockSide::TOP => 2,
        BlockSide::LEFT | BlockSide::RIGHT => 0,
    }
}

/// Whether the width of a quad on `side` runs towards larger coordinates.
pub open spec fn width_positive(side: BlockSide) -> bool {
    match side {
        BlockSide::FRONT | BlockSide::TOP | BlockSide::RIGHT => true,
        BlockSide::BACK | BlockSide::BOTTOM | BlockSide::LEFT => false,
    }
}

/// The axis along which the height (bottom to top) of a quad on `side` runs.
pub open spec fn height_axis(side: BlockSide) -> int {
    match side {
        BlockSide::BOTTOM | BlockSide::TOP => 0,
        _ => 1,
    }
}

/// Signed distance from `a` to `b` along `axis`, counted in the given direction.
pub open spec fn span(a: Point3, b: Point3, axis: int, positive: bool) -> int {
    if positive {
        coord(b, axis) - coord(a, axis)
    } else {
        coord(a, axis) - coord(b, axis)
    }
}

/// `q` is `p` moved by `n` along `axis` in the given direction.
pub open spec fn moved_by(p: Point3, q: Point3, axis: int, positive: bool, n: int) -> bool {
    &&& span(p, q, axis, positive) == n
    &&& forall|a: int| 0 <= a < 3 && a != axis ==> coord(q, a) == coord(p, a)
}

pub open spec fn width(f: Face) -> int {
    span(f.ll, f.lr, width_axis(f.block_side), width_positive(f.block_side))
}

pub open spec fn height(f: Face) -> int {
    span(f.ll, f.ul, height_axis(f.block_side), true)
}

/// The number of unit cells a quad covers.
pub open spec fn area(f: Face) -> int {
    width(f) * height(f)
}

/// A proper rectangle lying in the plane of its side, with positive extent.
pub open spec fn face_wf(f: Face) -> bool {
    let s = f.block_side;
    &&& width(f) > 0
    &&& height(f) > 0
    &&& moved_by(f.ll, f.lr, width_axis(s), width_positive(s), width(f))
    &&& moved_by(f.ul, f.ur, width_axis(s), width_positive(s), width(f))
    &&& moved_by(f.ll, f.ul, height_axis(s), true, height(f))
}

/// Every corner lies within `0..=bound` on each axis.
pub open spec fn point_within(p: Point3, bound: int) -> bool {
    p.x <= bound && p.y <= bound && p.z <= bound
}

pub open spec fn face_within(f: Face, bound: int) -> bool {
    point_within(f.ll, bound) && point_within(f.lr, bound) && point_within(f.ul, bound)
        && point_within(f.ur, bound)
}

/// The unit quad that cell `(i, j, k)` shows on `side`.
pub open spec fn unit_face(i: int, j: int, k: int, block_type_int: usize, side: BlockSide) -> Face {
    let p = |a: int, b: int, c: int| Point3 { x: a as usize, y: b as usize, z: c as usize };
    match side {
        BlockSide::FRONT => Face {
            ll: p(i, j, k),
            lr: p(i, j, k + 1),
            ul: p(i, j + 1, k),
            ur: p(i, j + 1, k + 1),
            block_type_int,
            block_side: side,
        },
        BlockSide::BACK => Face {
            ll: p(i + 1, j, k + 1),
            lr: p(i + 1, j, k),
            ul: p(i + 1, j + 1, k + 1),
            ur: p(i + 1, j + 1, k),
            block_type_int,
            block_side: side,
        },
        BlockSide::BOTTOM => Face {
            ll: p(i, j, k + 1),
            lr: p(i, j, k),
            ul: p(i + 1, j, k + 1),
            ur: p(i + 1, j, k),
            block_type_int,
            block_side: side,
        },
        BlockSide::TOP => Face {
            ll: p(i, j + 1, k),
            lr: p(i, j + 1, k + 1),
            ul: p(i + 1, j + 1, k),
            ur: p(i + 1, j + 1, k + 1),
            block_type_int,
            block_side: side,
        },
        BlockSide::LEFT => Face {
            ll: p(i + 1, j, k),
            lr: p(i, j, k),
            ul: p(i + 1, j + 1, k),
            ur: p(i, j + 1, k),
            block_type_int,
            block_side: side,
        },
        BlockSide::RIGHT => Face {
            ll: p(i, j, k + 1),
            lr: p(i + 1, j, k + 1),
            ul: p(i, j + 1, k + 1),
            ur: p(i + 1, j + 1, k + 1),
            block_type_int,
            block_side: side,
        },
    }
}

/// `other` sits directly above `f`: joined, they span both heights.
pub open spec fn merged_up(f: Face, other: Face) -> Option<Face> {
    if f.block_type_int == other.block_type_int && f.ul == other.ll && f.ur == other.lr {
        Some(Face { ul: other.ul, ur: other.ur, ll: f.ll, lr: f.lr, ..f })
    } else {
        None
    }
}

/// `other` sits directly to the right of `f`: joined, they span both widths.
pub open spec fn merged_right(f: Face, other: Face) -> Option<Face> {
    if f.block_type_int == other.block_type_int && f.lr == other.ll && f.ur == other.ul {
        Some(Face { ul: f.ul, ur: other.ur, ll: f.ll, lr: other.lr, ..f })
    } else {
        None
    }
}

/// `other` sits directly to the left of `f`: joined, they span both widths.
pub open spec fn merged_left(f: Face, other: Face) -> Option<Face> {
    if f.block_type_int == other.block_type_int && f.ll == other.lr && f.ul == other.ur {
        Some(Face { ul: other.ul, ur: f.ur, ll: other.ll, lr: f.lr, ..f })
    } else {
        None
    }
}

/// A unit quad is a proper rectangle of area one.
pub proof fn lemma_unit_face_wf(i: int, j: int, k: int, block_type_int: usize, side: BlockSide)
    requires
        0 <= i < 16,
        0 <= j < 16,
        0 <= k < 16,
    ensures
        face_wf(unit_face(i, j, k, block_type_int, side)),
        area(unit_face(i, j, k, block_type_int, side)) == 1,
        face_within(unit_face(i, j, k, block_type_int, side), 16),
        unit_face(i, j, k, block_type_int, side).block_side == side,
{
    let f = unit_face(i, j, k, block_type_int, side);
    assert(width(f) == 1 && height(f) == 1);
}

/// Joining two proper quads of one side, in any of the three ways, gives a proper
/// quad of that side and type whose area is the sum of theirs.
pub proof fn lemma_merge_adds_area(f: Face, other: Face, m: Face, bound: int)
    requires
        face_wf(f),
        face_wf(other),
        face_within(f, bound),
        face_within(other, bound),
        f.block_side == other.block_side,
        merged_up(f, other) == Some(m) || merged_right(f, other) == Some(m) || merged_left(
            f,
            other,
        ) == Some(m),
    ensures
        face_wf(m),
        face_within(m, bound),
        m.block_side == f.block_side,
        m.block_type_int == f.block_type_int,
        area(m) == area(f) + area(other),
{
    let (w1, h1, w2, h2) = (width(f), height(f), width(other), height(other));
    if merged_up(f, other) == Some(m) {
        assert(width(m) == w1);
        assert(w1 == w2);
        assert(height(m) == h1 + h2);
        assert(w1 * (h1 + h2) == w1 * h1 + w2 * h2) by (nonlinear_arith)
            requires
                w1 == w2,
        ;
    } else if merged_right(f, other) == Some(m) {
        assert(height(m) == h1);
        assert(h1 == h2);
        assert(width(m) == w1 + w2);
        assert((w1 + w2) * h1 == w1 * h1 + w2 * h2) by (nonlinear_arith)
            requires
                h1 == h2,
        ;
    } else {
        assert(height(m) == h2);
        assert(h1 == h2);
        assert(width(m) == w1 + w2);
        assert((w1 + w2) * h2 == w1 * h1 + w2 * h2) by (nonlinear_arith)
            requires
                h1 == h2,
        ;
    }
}

/// Two proper quads of one side that share a full edge are joined into a single
/// quad covering both exactly when they show the same block type; quads of
/// different block types are never joined, whatever their position.
pub proof fn lemma_adjacent_faces_merge(a: Face, b: Face)
    requires
        face_wf(a),
        face_wf(b),
        a.block_side == b.block_side,
    ensures
        a.ul == b.ll && a.ur == b.lr ==> (merged_up(a, b).is_some() <==> a.block_type_int
            == b.block_type_int),
        a.lr == b.ll && a.ur == b.ul ==> (merged_right(a, b).is_some() <==> a.block_type_int
            == b.block_type_int),
        a.ll == b.lr && a.ul == b.ur ==> (merged_left(a, b).is_some() <==> a.block_type_int
            == b.block_type_int),
        a.block_type_int != b.block_type_int ==> merged_up(a, b).is_none() && merged_right(
            a,
            b,
        ).is_none() && merged_left(a, b).is_none(),
        merged_up(a, b).is_some() ==> face_wf(merged_up(a, b).unwrap()) && area(
            merged_up(a, b).unwrap(),
        ) == area(a) + area(b),
        merged_right(a, b).is_some() ==> face_wf(merged_right(a, b).unwrap()) && area(
            merged_right(a, b).unwrap(),
        ) == area(a) + area(b),
        merged_left(a, b).is_some() ==> face_wf(merged_left(a, b).unwrap()) && area(
            merged_left(a, b).unwrap(),
        ) == area(a) + area(b),
{
    let bound = 0x1_0000_0000_0000_0000int;
    if merged_up(a, b).is_some() {
        lemma_merge_adds_area(a, b, merged_up(a, b).unwrap(), bound);
    }
    if merged_right(a, b).is_some() {
        lemma_merge_adds_area(a, b, merged_right(a, b).unwrap(), bound);
    }
    if merged_left(a, b).is_some() {
        lemma_merge_adds_area(a, b, merged_left(a, b).unwrap(), bound);
    }
}

impl Face {
    /// The unit quad that cell `(i, j, k)` shows on `block_side`.
    pub fn new(i: usize, j: usize, k: usize, block_type_int: usize, block_side: BlockSide) -> (r:
        Face)
        requires
            i < usize::MAX,
            j < usize::MAX,
            k < usize::MAX,
        ensures
            r == unit_face(i as int, j as int, k as int, block_type_int, block_side),
    {
        match block_side {
            BlockSide::FRONT => Face {
                ll: Point3::new(i, j, k),
                lr: Point3::new(i, j, k + 1),
                ul: Point3::new(i, j + 1, k),
                ur: Point3::new(i, j + 1, k + 1),
                block_type_int,
                block_side,
            },
            BlockSide::BACK => Face {
                ll: Point3::new(i + 1, j, k + 1),
                lr: Point3::new(i + 1, j, k),
                ul: Point3::new(i + 1, j + 1, k + 1),
                ur: Point3::new(i + 1, j + 1, k),
                block_type_int,
                block_side,
            },
            BlockSide::BOTTOM => Face {
                ll: Point3::new(i, j, k + 1),
                lr: Point3::new(i, j, k),
                ul: Point3::new(i + 1, j, k + 1),
                ur: Point3::new(i + 1, j, k),
                block_type_int,
                block_side,
            },
            BlockSide::TOP => Face {
                ll: Point3::new(i, j + 1, k),
                lr: Point3::new(i, j + 1, k + 1),
                ul: Point3::new(i + 1, j + 1, k),
                ur: Point3::new(i + 1, j + 1, k + 1),
                block_type_int,
                block_side,
            },
            BlockSide::LEFT => Face {
                ll: Point3::new(i + 1, j, k),
                lr: Point3::new(i, j, k),
                ul: Point3::new(i + 1, j + 1, k),
                ur: Point3::new(i, j + 1, k),
                block_type_int,
                block_side,
            },
            BlockSide::RIGHT => Face {
                ll: Point3::new(i, j, k + 1),
                lr: Point3::new(i + 1, j, k + 1),
                ul: Point3::new(i, j + 1, k + 1),
                ur: Point3::new(i + 1, j + 1, k + 1),
                block_type_int,
                block_side,
            },
        }
    }

    /// Joins `other` onto the top edge of this quad, when that edge is `other`'s
    /// bottom edge and both show the same block type.
    pub fn merge_up(&self, other: &Face) -> (r: Option<Face>)
        ensures
            r == merged_up(*self, *other),
    {
        if self.block_type_int == other.block_type_int && self.ul == other.ll && self.ur
            == other.lr {
            return Some(
                Face {
                    ul: other.ul,
                    ur: other.ur,
                    ll: self.ll,
                    lr: self.lr,
                    block_side: self.block_side,
                    block_type_int: self.block_type_int,
                },
            );
        }
        None
    }

    /// Joins `other` onto the right edge of this quad, when that edge is `other`'s
    /// left edge and both show the same block type.
    pub fn merge_right(&self, other: &Face) -> (r: Option<Face>)
        ensures
            r == merged_right(*self, *other),
    {
        if self.block_type_int == other.block_type_int && self.lr == other.ll && self.ur
            == other.ul {
            return Some(
                Face {
                    ul: self.ul,
                    ur: other.ur,
                    ll: self.ll,
                    lr: other.lr,
                    block_side: self.block_side,
                    block_type_int: self.block_type_int,
                },
            );
        }
        None
    }

    /// Joins `other` onto the left edge of this quad, when that edge is `other`'s
    /// right edge and both show the same block type.
    pub fn merge_left(&self, other: &Face) -> (r: Option<Face>)
        ensures
            r == merged_left(*self, *other),
    {
        if self.block_type_int == other.block_type_int && self.ll == other.lr && self.ul
            == other.ur {
            return Some(
                Face {
                    ul: other.ul,
                    ur: self.ur,
                    ll: other.ll,
                    lr: self.lr,
                    block_side: self.block_side,
                    block_type_int: self.block_type_int,
                },
            );
        }
        None
    }
}

} // verus!
