use voxel_engine::block::{Block, BlockSide, BlockType};
use voxel_engine::chunk::{Chunk, ChunkPosition};
use voxel_engine::chunk_creation::ChunkCreationIterator;
use voxel_engine::face::{Face, Point3};
use voxel_engine::greedy::{greedy_faces, greedy_sided};
use voxel_engine::mesh::Mesh;

fn all_sides() -> Vec<BlockSide> {
    BlockSide::all().to_vec()
}

/// A chunk whose cells are given by `cell(x, y, z)`.
fn chunk_from(cell: impl Fn(usize, usize, usize) -> BlockType) -> Chunk {
    let mut cci = ChunkCreationIterator::new(ChunkPosition::new(0, 0, 0));
    for z in 0..16 {
        for y in 0..16 {
            for x in 0..16 {
                cci.push_block_type(cell(x, y, z));
            }
        }
    }
    cci.return_chunk()
}

fn quad_area_total(mesh: &Mesh, side: BlockSide) -> u32 {
    let vs = &mesh.mesh[side.index()].vertices;
    (0..vs.len() / 4).map(|q| vs[4 * q + 1].u as u32 * vs[4 * q + 1].v as u32).sum()
}

#[test]
fn block_side_order_and_index() {
    let sides = BlockSide::all();
    assert_eq!(
        sides,
        [
            BlockSide::FRONT,
            BlockSide::BACK,
            BlockSide::BOTTOM,
            BlockSide::TOP,
            BlockSide::LEFT,
            BlockSide::RIGHT
        ]
    );
    for (i, side) in sides.iter().enumerate() {
        assert_eq!(side.index(), i);
        assert_eq!(BlockSide::from_index(i), *side);
    }
}

#[test]
fn block_types_and_textures() {
    assert_eq!(Block::new(BlockType::GRASS).block_type, 2);
    assert_eq!(BlockType::get_block_type_from_int(3), BlockType::WOOD);
    assert_eq!(Block::get_texture_indices_from_int(0), [0, 0, 0, 0, 0, 0]);
    assert_eq!(Block::get_texture_indices_from_int(1), [1, 1, 1, 1, 1, 1]);
    assert_eq!(Block::get_texture_indices_from_int(2), [4, 4, 4, 4, 4, 4]);
    assert_eq!(Block::get_texture_indices_from_int(3), [2, 2, 2, 2, 3, 1]);
}

#[test]
fn random_type_is_solid() {
    let mut seen = Vec::new();
    for _ in 0..200 {
        let t = BlockType::get_random_type();
        assert!(t == BlockType::DIRT || t == BlockType::GRASS || t == BlockType::WOOD);
        if !seen.contains(&t) {
            seen.push(t);
        }
    }
    assert!(seen.len() > 1);
}

#[test]
fn unit_faces_and_merges() {
    let a = Face::new(0, 0, 0, 1, BlockSide::FRONT);
    assert_eq!(a.ll, Point3::new(0, 0, 0));
    assert_eq!(a.ur, Point3::new(0, 1, 1));
    let above = Face::new(0, 1, 0, 1, BlockSide::FRONT);
    let merged = a.merge_up(&above).expect("faces sharing an edge merge");
    assert_eq!(merged.ll, Point3::new(0, 0, 0));
    assert_eq!(merged.ul, Point3::new(0, 2, 0));
    assert_eq!(merged.ur, Point3::new(0, 2, 1));
    let right = Face::new(0, 0, 1, 1, BlockSide::FRONT);
    assert!(a.merge_right(&right).is_some());
    let other_type = Face::new(0, 1, 0, 2, BlockSide::FRONT);
    assert!(a.merge_up(&other_type).is_none());
    assert!(a.merge_up(&right).is_none());
}

#[test]
fn chunk_generators() {
    let empty = Chunk::empty(&ChunkPosition::new(1, 2, 3));
    assert_eq!(empty.blocks.len(), 0);
    assert_eq!(empty.position, ChunkPosition::new(1, 2, 3));
    let solid = Chunk::solid(&ChunkPosition::new(0, 0, 0));
    assert_eq!(solid.blocks.len(), 4096);
    assert!(solid.is_block_solid(1, 1, 1));
    assert!(!solid.is_block_solid(0, 1, 1));
    let checker = Chunk::checkerboard(&ChunkPosition::new(0, 0, 0));
    assert_eq!(checker.blocks.len(), 2048);
    assert!(checker.is_block_solid(1, 1, 1));
    assert!(!checker.is_block_solid(2, 1, 1));
    assert!(checker.is_block_solid(2, 2, 1));
    assert_eq!(checker.generate_adjacent_blocks(0, 0, 0), [false; 6]);
    assert_eq!(solid.generate_adjacent_blocks(5, 5, 5), [true; 6]);
    assert_eq!(
        solid.generate_adjacent_blocks(0, 0, 0),
        [false, true, false, true, false, true]
    );
}

#[test]
fn solidity_bits_can_be_updated() {
    let mut chunk = Chunk::empty(&ChunkPosition::new(0, 0, 0));
    assert!(!chunk.is_block_solid(3, 4, 5));
    chunk.update_solid_array(3, 4, 5, true);
    assert!(chunk.is_block_solid(3, 4, 5));
    assert!(!chunk.is_block_solid(4, 4, 5));
    chunk.update_solid_array(3, 4, 5, false);
    assert!(!chunk.is_block_solid(3, 4, 5));
}

#[test]
fn empty_chunk_gives_empty_mesh() {
    let chunk = Chunk::empty(&ChunkPosition::new(0, 0, 0));
    let mesh = greedy_sided(&chunk, 7, &all_sides());
    assert_eq!(mesh.mesh.len(), 6);
    for side in mesh.mesh.iter() {
        assert!(side.vertices.is_empty());
        assert!(side.indices.is_empty());
        assert_eq!(side.len, 0);
    }
}

#[test]
fn solid_chunk_gives_one_quad_per_side() {
    let chunk = Chunk::solid(&ChunkPosition::new(0, 0, 0));
    let mesh = greedy_sided(&chunk, 3, &all_sides());
    for (i, side) in mesh.mesh.iter().enumerate() {
        assert_eq!(side.side, BlockSide::from_index(i));
        assert_eq!(side.vertices.len(), 4);
        assert_eq!(side.indices, vec![0, 1, 3, 0, 3, 2]);
        assert_eq!(side.vertices[1].u, 16);
        assert_eq!(side.vertices[1].v, 16);
        assert!(side.vertices.iter().all(|v| v.chunk_coordinate_index == 3));
    }
    let front = &mesh.mesh[BlockSide::FRONT.index()].vertices;
    assert_eq!((front[0].x, front[0].y, front[0].z), (0, 0, 0));
    assert_eq!((front[3].x, front[3].y, front[3].z), (0, 16, 16));
    assert_eq!(front[0].texture_index, 1);
}

#[test]
fn checkerboard_faces_never_merge() {
    let chunk = Chunk::checkerboard(&ChunkPosition::new(0, 0, 0));
    let mesh = greedy_sided(&chunk, 0, &all_sides());
    for side in mesh.mesh.iter() {
        assert_eq!(side.vertices.len(), 4 * 2048);
        assert_eq!(side.indices.len(), 6 * 2048);
        assert_eq!(quad_area_total(&mesh, side.side), 2048);
    }
}

#[test]
fn only_requested_sides_are_meshed() {
    let chunk = Chunk::solid(&ChunkPosition::new(0, 0, 0));
    let mesh = greedy_sided(&chunk, 0, &vec![BlockSide::TOP, BlockSide::LEFT]);
    for side in mesh.mesh.iter() {
        let requested = side.side == BlockSide::TOP || side.side == BlockSide::LEFT;
        assert_eq!(side.vertices.is_empty(), !requested);
    }
    let faces = greedy_faces(&chunk, &vec![BlockSide::BOTTOM]);
    assert_eq!(faces.len(), 1);
    assert_eq!(faces[0].block_side, BlockSide::BOTTOM);
}

#[test]
fn adjacent_same_type_cells_merge() {
    let chunk = chunk_from(|x, y, z| {
        if y == 0 && z == 0 && x < 2 {
            BlockType::DIRT
        } else {
            BlockType::AIR
        }
    });
    let faces = greedy_faces(&chunk, &vec![BlockSide::TOP]);
    assert_eq!(faces.len(), 1);
    assert_eq!(faces[0].ll, Point3::new(0, 1, 0));
    assert_eq!(faces[0].ur, Point3::new(2, 1, 1));
    let mesh = greedy_sided(&chunk, 0, &all_sides());
    assert_eq!(quad_area_total(&mesh, BlockSide::TOP), 2);
    assert_eq!(quad_area_total(&mesh, BlockSide::FRONT), 1);
    assert_eq!(quad_area_total(&mesh, BlockSide::BACK), 1);
    assert_eq!(quad_area_total(&mesh, BlockSide::LEFT), 2);
}

#[test]
fn different_types_do_not_merge() {
    let chunk = chunk_from(|x, y, z| {
        if y == 0 && z == 0 && x == 0 {
            BlockType::DIRT
        } else if y == 0 && z == 0 && x == 1 {
            BlockType::GRASS
        } else {
            BlockType::AIR
        }
    });
    let faces = greedy_faces(&chunk, &vec![BlockSide::TOP]);
    assert_eq!(faces.len(), 2);
    let mesh = Mesh::greedy_sided(&chunk, 0, &vec![BlockSide::TOP]);
    assert_eq!(mesh.mesh[BlockSide::TOP.index()].vertices.len(), 8);
    assert_eq!(quad_area_total(&mesh, BlockSide::TOP), 2);
}

#[test]
fn emitted_faces_match_exposed_cells() {
    // A 3 x 3 x 3 cube of dirt with a grass column through its middle.
    let chunk = chunk_from(|x, y, z| {
        if x < 3 && y < 3 && z < 3 {
            if x == 1 && z == 1 {
                BlockType::GRASS
            } else {
                BlockType::DIRT
            }
        } else {
            BlockType::AIR
        }
    });
    let mesh = greedy_sided(&chunk, 0, &all_sides());
    for side in BlockSide::all() {
        assert_eq!(quad_area_total(&mesh, side), 9);
    }
    // The grass column shows one cell on top and bottom, breaking the 3 x 3 face.
    assert!(mesh.mesh[BlockSide::TOP.index()].vertices.len() > 4);
}

#[test]
fn face_vertices_and_indices() {
    let face = Face::new(2, 3, 4, 3, BlockSide::TOP);
    let vs = Mesh::generate_face_vertices(&face, 9);
    assert_eq!(vs.len(), 4);
    assert_eq!((vs[0].x, vs[0].y, vs[0].z), (2, 4, 4));
    assert_eq!((vs[1].u, vs[1].v), (1, 1));
    assert_eq!((vs[2].u, vs[2].v), (0, 0));
    assert_eq!(vs[0].texture_index, 3);
    assert_eq!(vs[0].chunk_coordinate_index, 9);
    assert_eq!(Mesh::generate_face_indices(2), vec![8, 9, 11, 8, 11, 10]);
}

#[test]
fn add_vertices_shifts_indices() {
    let mut mesh = Mesh::new();
    let face = Face::new(0, 0, 0, 1, BlockSide::FRONT);
    let quad = Mesh::generate_face_vertices(&face, 0);
    let mut vs = vec![Vec::new(); 6];
    let mut is = vec![Vec::new(); 6];
    vs[0] = quad.clone();
    is[0] = Mesh::generate_face_indices(0);
    mesh.add_vertices(vs.clone(), is.clone());
    mesh.add_vertices(vs, is);
    assert_eq!(mesh.mesh[0].vertices.len(), 8);
    assert_eq!(mesh.mesh[0].indices, vec![0, 1, 3, 0, 3, 2, 4, 5, 7, 4, 7, 6]);
    assert_eq!(mesh.mesh[0].len, 6 + 12);
    assert_eq!(mesh.get_vertex_lens(), [8, 0, 0, 0, 0, 0]);
}
