use blocks_game::block::Block;
use blocks_game::chunk::Chunk;
use blocks_game::collision::Face;
use blocks_game::coords::BlockPos;
use blocks_game::mesh::exposed_faces;
use blocks_game::subchunk::Subchunk;
use blocks_game::terrain::Terrain;

fn two_chunks() -> Terrain {
    let mut t = Terrain::new();
    for x in 0..2 {
        let mut c = Chunk::new();
        c.push_subchunk(Subchunk::new());
        c.push_subchunk(Subchunk::new());
        t.insert_chunk((x, 0), c);
    }
    t
}

#[test]
fn lone_block_shows_all_faces() {
    let mut t = two_chunks();
    t.set_block(BlockPos::new(5, 5, 5), Block::STONE);
    let faces = exposed_faces(&t, BlockPos::new(0, 0, 0));
    let c = BlockPos::new(5, 5, 5);
    assert_eq!(
        faces,
        vec![
            (c, Face::PosX),
            (c, Face::NegX),
            (c, Face::PosY),
            (c, Face::NegY),
            (c, Face::PosZ),
            (c, Face::NegZ),
        ]
    );
    assert!(exposed_faces(&t, BlockPos::new(0, 1, 0)).is_empty());
}

#[test]
fn touching_blocks_hide_shared_faces() {
    let mut t = two_chunks();
    t.set_block(BlockPos::new(5, 5, 5), Block::STONE);
    t.set_block(BlockPos::new(6, 5, 5), Block::DIRT);
    let faces = exposed_faces(&t, BlockPos::new(0, 0, 0));
    let a = BlockPos::new(5, 5, 5);
    let b = BlockPos::new(6, 5, 5);
    assert_eq!(
        faces,
        vec![
            (a, Face::NegX),
            (a, Face::PosY),
            (a, Face::NegY),
            (a, Face::PosZ),
            (a, Face::NegZ),
            (b, Face::PosX),
            (b, Face::PosY),
            (b, Face::NegY),
            (b, Face::PosZ),
            (b, Face::NegZ),
        ]
    );
}

#[test]
fn neighbours_across_subchunk_and_chunk_borders_count() {
    let mut t = two_chunks();
    t.set_block(BlockPos::new(15, 15, 3), Block::STONE);
    t.set_block(BlockPos::new(15, 16, 3), Block::STONE);
    t.set_block(BlockPos::new(16, 15, 3), Block::STONE);
    let faces = exposed_faces(&t, BlockPos::new(0, 0, 0));
    let c = BlockPos::new(15, 15, 3);
    assert_eq!(
        faces,
        vec![(c, Face::NegX), (c, Face::NegY), (c, Face::PosZ), (c, Face::NegZ)]
    );
    let upper = exposed_faces(&t, BlockPos::new(0, 1, 0));
    assert_eq!(upper.len(), 5);
    assert!(!upper.contains(&(BlockPos::new(15, 0, 3), Face::NegY)));
}

#[test]
fn unloaded_neighbours_count_as_air() {
    let mut t = two_chunks();
    t.set_block(BlockPos::new(3, 0, 0), Block::STONE);
    let faces = exposed_faces(&t, BlockPos::new(0, 0, 0));
    assert!(faces.contains(&(BlockPos::new(3, 0, 0), Face::NegY)));
    assert!(faces.contains(&(BlockPos::new(3, 0, 0), Face::NegZ)));
    assert_eq!(faces.len(), 6);
}
