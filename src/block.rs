//! Block sides, block types and the per-type texture table.

use vstd::prelude::*;

verus! {

/// The six faces of a voxel block.
#[derive(PartialEq, Eq, Structural, Hash, Copy, Clone, Debug)]
pub enum BlockSide {
    /// Towards the neighbour at x - 1.
    FRONT,
    /// Towards the neighbour at x + 1.
    BACK,
    /// Towards the neighbour at y - 1.
    BOTTOM,
    /// Towards the neighbour at y + 1.
    TOP,
    /// Towards the neighbour at z - 1.
    LEFT,
    /// Towards the neighbour at z + 1.
    RIGHT,
}

/// The position of a side in every per-side table of the library.
pub open spec fn side_index(side: BlockSide) -> nat {
    match side {
        BlockSide::FRONT => 0,
        BlockSide::BACK => 1,
        BlockSide::BOTTOM => 2,
        BlockSide::TOP => 3,
        BlockSide::LEFT => 4,
        BlockSide::RIGHT => 5,
    }
}

/// The side stored at position `i` of a per-side table.
pub open spec fn side_at(i: int) -> BlockSide
    recommends
        0 <= i < 6,
{
    if i == 0 {
        BlockSide::FRONT
    } else if i == 1 {
        BlockSide::BACK
    } else if i == 2 {
        BlockSide::BOTTOM
    } else if i == 3 {
        BlockSide::TOP
    } else if i == 4 {
        BlockSide::LEFT
    } else {
        BlockSide::RIGHT
    }
}

pub proof fn lemma_side_index_round_trip(side: BlockSide)
    ensures
        side_index(side) < 6,
        side_at(side_index(side) as int) == side,
{
}

impl BlockSide {
    /// All six sides, in table order.
    pub fn all() -> (r: [BlockSide; 6])
        ensures
            forall|i: int| 0 <= i < 6 ==> #[trigger] r@[i] == side_at(i),
    {
        [
            BlockSide::FRONT,
            BlockSide::BACK,
            BlockSide::BOTTOM,
            BlockSide::TOP,
            BlockSide::LEFT,
            BlockSide::RIGHT,
        ]
    }

    /// The position of this side in every per-side table.
    pub fn index(&self) -> (r: usize)
        ensures
            r == side_index(*self),
    {
        match self {
            BlockSide::FRONT => 0,
            BlockSide::BACK => 1,
            BlockSide::BOTTOM => 2,
            BlockSide::TOP => 3,
            BlockSide::LEFT => 4,
            BlockSide::RIGHT => 5,
        }
    }

    /// The side at position `i` of a per-side table.
    pub fn from_index(i: usize) -> (r: BlockSide)
        requires
            i < 6,
        ensures
            r == side_at(i as int),
            side_index(r) == i,
    {
        if i == 0 {
            BlockSide::FRONT
        } else if i == 1 {
            BlockSide::BACK
        } else if i == 2 {
            BlockSide::BOTTOM
        } else if i == 3 {
            BlockSide::TOP
        } else if i == 4 {
            BlockSide::LEFT
        } else {
            BlockSide::RIGHT
        }
    }
}

/// The kinds of block a chunk cell can hold.
#[derive(PartialEq, Eq, Structural, Hash, Copy, Clone, Debug)]
pub enum BlockType {
    AIR,
    DIRT,
    GRASS,
    WOOD,
    WHITE,
}

/// The compact integer code of a block type.
pub open spec fn type_code(t: BlockType) -> u8 {
    match t {
        BlockType::AIR => 0,
        BlockType::DIRT => 1,
        BlockType::GRASS => 2,
        BlockType::WOOD => 3,
        BlockType::WHITE => 4,
    }
}

/// Number of block types.
pub const NUM_BLOCK_TYPES: u8 = 5;

/// Relies on fastrand::u8: a value drawn from the half-open range given.
#[verifier::external_body]
fn random_u8_in(low: u8, high: u8) -> (r: u8)
    requires
        low < high,
    ensures
        low <= r < high,
{
    fastrand::u8(low..high)
}

impl BlockType {
    /// The integer code of this type.
    pub fn code(&self) -> (r: u8)
        ensures
            r == type_code(*self),
    {
        match self {
            BlockType::AIR => 0,
            BlockType::DIRT => 1,
            BlockType::GRASS => 2,
            BlockType::WOOD => 3,
            BlockType::WHITE => 4,
        }
    }

    /// The block type whose code is `btype`.
    pub fn get_block_type_from_int(btype: u8) -> (r: BlockType)
        requires
            btype < NUM_BLOCK_TYPES,
        ensures
            type_code(r) == btype,
    {
        if btype == 0 {
            BlockType::AIR
        } else if btype == 1 {
            BlockType::DIRT
        } else if btype == 2 {
            BlockType::GRASS
        } else if btype == 3 {
            BlockType::WOOD
        } else {
            BlockType::WHITE
        }
    }

    /// A randomly chosen solid type among dirt, grass and wood.
    pub fn get_random_type() -> (r: BlockType)
        ensures
            r == BlockType::DIRT || r == BlockType::GRASS || r == BlockType::WOOD,
    {
        let code = random_u8_in(1, 4);
        BlockType::get_block_type_from_int(code)
    }
}

/// Number of rows in the texture table.
pub const NUM_TEXTURED_TYPES: u8 = 4;

/// Texture indices for each side, by row of the texture table.
pub open spec fn texture_row(row: int) -> Seq<usize> {
    if row == 0 {
        seq![0usize, 0, 0, 0, 0, 0]
    } else if row == 1 {
        seq![1usize, 1, 1, 1, 1, 1]
    } else if row == 2 {
        seq![4usize, 4, 4, 4, 4, 4]
    } else {
        seq![2usize, 2, 2, 2, 3, 1]
    }
}

/// One voxel: its block type code.
#[derive(PartialEq, Eq, Structural, Copy, Clone, Debug)]
pub struct Block {
    pub block_type: u8,
}

impl Block {
    pub fn new(block_type: BlockType) -> (r: Block)
        ensures
            r.block_type == type_code(block_type),
    {
        Block { block_type: block_type.code() }
    }

    /// The texture index of each side for the block type coded `btype_int`.
    pub fn get_texture_indices_from_int(btype_int: u8) -> (r: [usize; 6])
        requires
            btype_int < NUM_TEXTURED_TYPES,
        ensures
            r@ == texture_row(btype_int as int),
    {
        let block_type = BlockType::get_block_type_from_int(btype_int);
        let r = match block_type {
            BlockType::AIR => [0, 0, 0, 0, 0, 0],
            BlockType::DIRT => [1, 1, 1, 1, 1, 1],
            BlockType::GRASS => [4, 4, 4, 4, 4, 4],
            _ => [2, 2, 2, 2, 3, 1],
        };
        assert(r@ =~= texture_row(btype_int as int));
        r
    }
}

} // verus!
