use voxel_engine::block::BlockSide;
use voxel_engine::bucket_manager::MeshBucketManager;
use voxel_engine::buffer_commands::WritePayload;
use voxel_engine::chunk::{Chunk, ChunkPosition};
use voxel_engine::chunk_index_state::{ChunkIndexState, CHUNK_INDEX_BUFFER_NAME};
use voxel_engine::mesh::{Mesh, Vertex};
use voxel_engine::mesh_manager::MeshManager;

fn vertex(i: u32) -> Vertex {
    Vertex::new(i as i32, 0, 0, 0, 0, 0, 0)
}

/// The vertices and indices of `quads` quads.
fn quads(quads: u32) -> (Vec<Vertex>, Vec<u32>) {
    let vertices = (0..4 * quads).map(vertex).collect();
    let indices = (0..quads).flat_map(|q| Mesh::generate_face_indices(q)).collect();
    (vertices, indices)
}

/// A mesh whose `side` holds `n` quads and whose other sides are empty.
fn mesh_with(side: BlockSide, n: u32) -> Mesh {
    let mut mesh = Mesh::new();
    let (vs, is) = quads(n);
    mesh.mesh[side.index()].vertices = vs;
    mesh.mesh[side.index()].indices = is;
    mesh
}

#[test]
fn bucket_split_sizes_and_rebasing() {
    let mut manager = MeshBucketManager::new(1);
    assert_eq!(manager.free_bucket_count(BlockSide::TOP), 2048);
    // 625 quads: 2500 vertices and 3750 indices.
    let (vs, is) = quads(625);
    let pos = ChunkPosition::new(1, 2, 3);
    assert!(manager.can_allocate_buckets([0, 0, 0, 2500, 0, 0]));
    let buckets = manager.allocate_buckets(pos, vs, is, BlockSide::TOP);
    assert_eq!(buckets.len(), 3);
    let sizes: Vec<(usize, usize)> = buckets.iter().map(|(_, v, i)| (v.len(), i.len())).collect();
    assert_eq!(sizes, vec![(1024, 1536), (1024, 1536), (452, 678)]);
    for (bucket, vertices, indices) in buckets.iter() {
        assert_eq!(bucket.side, BlockSide::TOP);
        assert!(vertices.len() <= 1024 && indices.len() <= 1536);
        assert_eq!(indices.len(), vertices.len() * 3 / 2);
        assert_eq!(&indices[..6], &[0, 1, 3, 0, 3, 2]);
        assert!(indices.iter().all(|i| (*i as usize) < vertices.len()));
    }
    assert_eq!(buckets[1].1[0].x, 1024);
    assert_eq!(buckets[0].0.indirect_bucket_index, 0);
    assert_eq!(buckets[2].0.indirect_bucket_index, 2);
    assert_eq!(buckets[2].0.vertex_buffer_offset, 2 * 28672);
    assert_eq!(buckets[2].0.index_buffer_offset, 2 * 6144);
    assert_eq!(manager.free_bucket_count(BlockSide::TOP), 2045);
    assert_eq!(manager.free_bucket_count(BlockSide::FRONT), 2048);
    assert!(manager.is_chunk_allocated(pos));
    assert!(!manager.can_allocate_buckets([0, 0, 0, 2045 * 1024 + 1, 0, 0]));
    assert!(manager.can_allocate_buckets([0, 0, 0, 2045 * 1024, 0, 0]));
}

#[test]
fn deallocation_returns_every_bucket() {
    let mut manager = MeshBucketManager::new(1);
    let a = ChunkPosition::new(0, 0, 0);
    let b = ChunkPosition::new(0, 0, 1);
    let (vs, is) = quads(300);
    manager.allocate_buckets(a, vs, is, BlockSide::LEFT);
    let (vs, is) = quads(10);
    manager.allocate_buckets(a, vs, is, BlockSide::RIGHT);
    let (vs, is) = quads(1);
    manager.allocate_buckets(b, vs, is, BlockSide::LEFT);
    assert_eq!(manager.free_bucket_count(BlockSide::LEFT), 2048 - 3);
    let released = manager.deallocate_buckets(&vec![a, a]);
    assert_eq!(released.len(), 3);
    assert_eq!(manager.free_bucket_count(BlockSide::LEFT), 2047);
    assert_eq!(manager.free_bucket_count(BlockSide::RIGHT), 2048);
    assert!(!manager.is_chunk_allocated(a));
    assert!(manager.is_chunk_allocated(b));
    assert_eq!(manager.deallocate_buckets(&vec![a]).len(), 0);
    manager.deallocate_buckets(&vec![b]);
    assert_eq!(manager.free_bucket_count(BlockSide::LEFT), 2048);
}

#[test]
fn bucket_manager_sizes() {
    let manager = MeshBucketManager::new(1);
    assert_eq!(manager.get_number_vertices_per_bucket(), 1024);
    assert_eq!(manager.get_number_indices_per_bucket(), 1536);
    assert_eq!(manager.get_number_buckets_per_buffer(), 2048);
    assert_eq!(manager.get_vertex_bucket_buffer_size(), 2048 * 1024 * 28);
    assert_eq!(manager.get_index_bucket_buffer_size(), 2048 * 1536 * 4);
    assert_eq!(manager.get_indirect_bucket_buffer_size(), 2048 * 20);
}

#[test]
fn chunk_index_slots() {
    let mut table = ChunkIndexState::new(2);
    assert!(table.can_allocate_index());
    let a = ChunkPosition::new(-1, 0, 5);
    let b = ChunkPosition::new(2, 2, 2);
    let commands = table.load_chunk_positions(&vec![a]);
    assert_eq!(commands.len(), 1);
    assert_eq!(commands[0].buffer_name, CHUNK_INDEX_BUFFER_NAME);
    assert_eq!(commands[0].offset, 0);
    assert!(matches!(commands[0].data, WritePayload::Coordinates([-1, 0, 5])));
    assert_eq!(table.get_index_for_position(a), 0);
    // Loading a chunk that already has a slot keeps it.
    let again = table.load_chunk_positions(&vec![a]);
    assert_eq!(again[0].offset, 0);
    let commands = table.load_chunk_positions(&vec![b]);
    assert_eq!(commands[0].offset, 12);
    assert_eq!(table.get_index_for_position(b), 1);
    assert!(!table.can_allocate_index());
    table.unload_chunk_positions(&vec![a, ChunkPosition::new(9, 9, 9)]);
    assert!(table.can_allocate_index());
    table.load_chunk_positions(&vec![ChunkPosition::new(3, 3, 3)]);
    assert_eq!(table.get_index_for_position(ChunkPosition::new(3, 3, 3)), 0);
}

#[test]
fn empty_mesh_needs_no_writes() {
    let mut manager = MeshManager::new();
    let commands = manager.prepare_mesh_for_write(ChunkPosition::new(0, 0, 0), Mesh::new());
    assert_eq!(commands.len(), 0);
    assert!(!manager.is_chunk_meshed(ChunkPosition::new(0, 0, 0)));
}

#[test]
fn mesh_writes_three_commands_per_bucket() {
    let mut manager = MeshManager::new();
    let pos = ChunkPosition::new(4, 5, 6);
    let commands = manager.prepare_mesh_for_write(pos, mesh_with(BlockSide::BACK, 300));
    assert_eq!(commands.len(), 6);
    assert_eq!(commands[0].buffer_name, "Vertex Buffer Back");
    assert_eq!(commands[1].buffer_name, "Index Buffer Back");
    assert_eq!(commands[2].buffer_name, "Indirect Buffer Back");
    match &commands[5].data {
        WritePayload::DrawArgs(args) => {
            assert_eq!(args.index_count, 1800 - 1536);
            assert_eq!(args.instance_count, 1);
            assert_eq!(args.first_index, 1536);
            assert_eq!(args.base_vertex, 1024);
        }
        _ => panic!("expected a draw record"),
    }
    assert_eq!(commands[5].offset, 20);
    assert!(manager.is_chunk_meshed(pos));
    assert_eq!(manager.free_bucket_count(BlockSide::BACK), 2046);
    let cleared = manager.unload_chunk_positions(&vec![pos]);
    assert_eq!(cleared.len(), 2);
    for c in cleared.iter() {
        match &c.data {
            WritePayload::DrawArgs(args) => {
                assert_eq!(args.instance_count, 0);
                assert_eq!(args.index_count, 0);
            }
            _ => panic!("expected a draw record"),
        }
    }
    assert!(!manager.is_chunk_meshed(pos));
    assert_eq!(manager.free_bucket_count(BlockSide::BACK), 2048);
    assert_eq!(manager.get_number_indirect_commands(), 2048);
}

#[test]
fn second_chunk_evicts_the_first_when_the_pool_is_short() {
    // Each mesh needs 1025 of the 2048 buckets of the front side.
    let mut manager = MeshManager::new();
    let a = ChunkPosition::new(0, 0, 0);
    let b = ChunkPosition::new(1, 0, 0);
    let first = manager.prepare_mesh_for_write(a, mesh_with(BlockSide::FRONT, 256 * 1025));
    assert_eq!(first.len(), 3 * 1025);
    assert_eq!(manager.free_bucket_count(BlockSide::FRONT), 2048 - 1025);
    let second = manager.prepare_mesh_for_write(b, mesh_with(BlockSide::FRONT, 256 * 1025));
    assert_eq!(second.len(), 1025 + 3 * 1025);
    assert!(second[..1025].iter().all(|c| matches!(
        c.data,
        WritePayload::DrawArgs(args) if args.instance_count == 0
    )));
    assert!(!manager.is_chunk_meshed(a));
    assert!(manager.is_chunk_meshed(b));
    assert_eq!(manager.free_bucket_count(BlockSide::FRONT), 2048 - 1025);
}

#[test]
fn generate_mesh_for_chunk_writes_slot_last() {
    let mut manager = MeshManager::new();
    let chunk = Chunk::solid(&ChunkPosition::new(7, -1, 2));
    let sides = BlockSide::all().to_vec();
    let commands = manager.generate_mesh_for_chunk(&chunk, &sides);
    assert_eq!(commands.len(), 6 * 3 + 1);
    let last = commands.last().unwrap();
    assert_eq!(last.buffer_name, CHUNK_INDEX_BUFFER_NAME);
    assert!(matches!(last.data, WritePayload::Coordinates([7, -1, 2])));
    assert!(manager.is_chunk_meshed(ChunkPosition::new(7, -1, 2)));
    let empty = Chunk::empty(&ChunkPosition::new(0, 0, 0));
    let commands = manager.generate_mesh_for_chunk(&empty, &sides);
    assert_eq!(commands.len(), 1);
}

#[test]
fn buffer_names() {
    assert_eq!(MeshManager::get_vertex_buffer_name(BlockSide::TOP), "Vertex Buffer Top");
    assert_eq!(MeshManager::get_index_buffer_name(BlockSide::LEFT), "Index Buffer Left");
    assert_eq!(MeshManager::get_indirect_buffer_name(BlockSide::BOTTOM), "Indirect Buffer Bottom");
}

#[test]
fn meshed_chunks_are_not_meshed_again() {
    let mut manager = MeshManager::new();
    let chunk = Chunk::solid(&ChunkPosition::new(2, 2, 2));
    let sides = BlockSide::all().to_vec();
    let first = manager.mesh_chunk_unless_meshed(&chunk, &sides);
    assert_eq!(first.len(), 6 * 3 + 1);
    let second = manager.mesh_chunk_unless_meshed(&chunk, &sides);
    assert!(second.is_empty());
    assert_eq!(manager.free_bucket_count(BlockSide::TOP), 2047);
}

#[test]
fn remeshing_releases_the_old_buckets() {
    let mut manager = MeshManager::new();
    let chunk = Chunk::solid(&ChunkPosition::new(0, 1, 0));
    let sides = BlockSide::all().to_vec();
    manager.generate_mesh_for_chunk(&chunk, &sides);
    let again = manager.generate_mesh_for_chunk(&chunk, &sides);
    // Six cleared draw records for the old buckets, then the new mesh.
    assert_eq!(again.len(), 6 + 6 * 3 + 1);
    assert_eq!(manager.free_bucket_count(BlockSide::LEFT), 2047);
}
