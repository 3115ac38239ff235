use blocks_game::block::Block;
use blocks_game::chunk::Chunk;
use blocks_game::coords::BlockPos;
use blocks_game::subchunk::Subchunk;
use blocks_game::terrain::{Terrain, RENDER_DISTANCE};

fn small_chunk(_x: i32, _z: i32) -> Chunk {
    let mut c = Chunk::new();
    c.push_subchunk(Subchunk::new());
    c.push_subchunk(Subchunk::new());
    c
}

fn near(k: (i32, i32), c: (i32, i32)) -> bool {
    let dx = (k.0 - c.0) as i64;
    let dz = (k.1 - c.1) as i64;
    dx * dx + dz * dz <= (RENDER_DISTANCE * RENDER_DISTANCE) as i64
}

#[test]
fn first_step_generates_the_centre_chunk() {
    let mut t = Terrain::new();
    t.generate(BlockPos::new(-1, 70, 40), small_chunk);
    assert_eq!(t.keys(), vec![(-1, 2)]);
}

#[test]
fn second_step_takes_the_first_nearest_in_key_order() {
    let mut t = Terrain::new();
    t.generate(BlockPos::new(0, 0, 0), small_chunk);
    t.generate(BlockPos::new(0, 0, 0), small_chunk);
    // four chunks lie at distance 1; (-1, 0) comes first in key order
    assert_eq!(t.keys(), vec![(-1, 0), (0, 0)]);
    t.generate(BlockPos::new(0, 0, 0), small_chunk);
    assert_eq!(t.keys(), vec![(-1, 0), (0, -1), (0, 0)]);
}

#[test]
fn streaming_from_empty_settles_on_the_disc() {
    let centre = BlockPos::new(5, 64, -20);
    let c = (0, -2);
    let mut t = Terrain::new();
    let mut previous: Vec<(i32, i32)> = Vec::new();
    for _ in 0..200 {
        t.generate(centre, small_chunk);
        let keys = t.keys();
        let added: Vec<_> = keys.iter().filter(|k| !previous.contains(k)).collect();
        assert!(added.len() <= 1);
        for k in &previous {
            if near(*k, c) {
                assert!(keys.contains(k));
            }
        }
        for k in &keys {
            assert!(near(*k, c));
        }
        previous = keys;
    }
    assert_eq!(previous.len(), 49);
    for x in -4..=4 {
        for z in -4..=4 {
            let k = (c.0 + x, c.1 + z);
            assert_eq!(previous.contains(&k), near(k, c));
        }
    }
    t.generate(centre, small_chunk);
    assert_eq!(t.keys(), previous);
}

#[test]
fn eviction_takes_one_far_chunk_per_step() {
    let mut t = Terrain::new();
    for x in 0..3 {
        t.insert_chunk((x, 0), small_chunk(x, 0));
    }
    t.insert_chunk((100, 100), small_chunk(100, 100));
    t.insert_chunk((-100, 0), small_chunk(-100, 0));
    assert_eq!(t.evict_far((0, 0)), Some((-100, 0)));
    assert_eq!(t.evict_far((0, 0)), Some((100, 100)));
    assert_eq!(t.evict_far((0, 0)), None);
    assert_eq!(t.len(), 3);
}

#[test]
fn moving_centre_evicts_one_per_step() {
    let mut t = Terrain::new();
    for _ in 0..60 {
        t.generate(BlockPos::new(0, 0, 0), small_chunk);
    }
    assert_eq!(t.len(), 49);
    t.generate(BlockPos::new(16 * 100, 0, 0), small_chunk);
    assert_eq!(t.len(), 49);
    assert!(t.contains((100, 0)));
    assert!(!t.contains((-4, 0)));
}

#[test]
fn reads_and_writes_with_negative_coordinates() {
    let mut t = Terrain::new();
    t.insert_chunk((-1, -1), small_chunk(-1, -1));
    let p = BlockPos::new(-1, 5, -1);
    assert_eq!(t.block(p), Block::AIR);
    t.set_block(p, Block::STONE);
    assert_eq!(t.block(p), Block::STONE);
    let c = t.chunk((-1, -1)).unwrap();
    assert_eq!(c.block(15, 5, 15), Block::STONE);
    assert_eq!(t.block(BlockPos::new(15, 5, 15)), Block::AIR);
    assert_eq!(t.block(BlockPos::new(-16, 5, -16)), Block::AIR);
}

#[test]
fn writes_outside_loaded_space_are_ignored() {
    let mut t = Terrain::new();
    t.insert_chunk((0, 0), small_chunk(0, 0));
    t.set_block(BlockPos::new(3, 40, 3), Block::STONE);
    t.set_block(BlockPos::new(3, -1, 3), Block::STONE);
    t.set_block(BlockPos::new(20, 3, 3), Block::STONE);
    assert_eq!(t.block(BlockPos::new(3, 40, 3)), Block::AIR);
    assert_eq!(t.block(BlockPos::new(3, -1, 3)), Block::AIR);
    assert_eq!(t.block(BlockPos::new(20, 3, 3)), Block::AIR);
    assert_eq!(t.len(), 1);
    assert_eq!(t.chunk((0, 0)).unwrap().subchunks.len(), 2);
}

#[test]
fn subchunk_existence() {
    let mut t = Terrain::new();
    t.insert_chunk((2, -3), small_chunk(2, -3));
    assert!(t.subchunk_exists(BlockPos::new(2, 0, -3)));
    assert!(t.subchunk_exists(BlockPos::new(2, 1, -3)));
    assert!(!t.subchunk_exists(BlockPos::new(2, 2, -3)));
    assert!(!t.subchunk_exists(BlockPos::new(2, -1, -3)));
    assert!(!t.subchunk_exists(BlockPos::new(-3, 0, 2)));
    assert!(t.subchunk(BlockPos::new(2, 1, -3)).is_some());
    assert!(t.subchunk(BlockPos::new(2, 5, -3)).is_none());
}

#[test]
fn dirty_subchunks_are_listed_and_cleared() {
    let mut t = Terrain::new();
    t.insert_chunk((0, 0), small_chunk(0, 0));
    t.insert_chunk((1, 0), small_chunk(1, 0));
    let dirty = t.dirty_subchunks();
    assert_eq!(
        dirty,
        vec![
            BlockPos::new(0, 0, 0),
            BlockPos::new(0, 1, 0),
            BlockPos::new(1, 0, 0),
            BlockPos::new(1, 1, 0),
        ]
    );
    for s in dirty {
        t.clear_dirty(s);
    }
    assert!(t.dirty_subchunks().is_empty());
    t.set_block(BlockPos::new(20, 20, 3), Block::GRASS);
    assert_eq!(t.dirty_subchunks(), vec![BlockPos::new(1, 1, 0)]);
    assert_eq!(t.block(BlockPos::new(20, 20, 3)), Block::GRASS);
}

#[test]
fn spatial_query_crosses_chunks_in_key_order() {
    let mut t = Terrain::new();
    t.insert_chunk((0, 0), small_chunk(0, 0));
    t.insert_chunk((-1, 0), small_chunk(-1, 0));
    t.insert_chunk((0, -1), small_chunk(0, -1));
    t.set_block(BlockPos::new(-1, 3, 0), Block::STONE);
    t.set_block(BlockPos::new(0, 3, -1), Block::DIRT);
    t.set_block(BlockPos::new(0, 3, 0), Block::GRASS);
    let r = t.blocks_intersecting(BlockPos::new(-1, 3, -1), BlockPos::new(1, 4, 1));
    assert_eq!(
        r,
        vec![
            (BlockPos::new(-1, 3, 0), Block::STONE),
            (BlockPos::new(0, 3, -1), Block::DIRT),
            (BlockPos::new(0, 3, 0), Block::GRASS),
        ]
    );
    let all = t.blocks_intersecting(BlockPos::new(-20, -5, -20), BlockPos::new(20, 100, 20));
    assert_eq!(all.len(), 3 * 16 * 32 * 16);
    assert!(t
        .blocks_intersecting(BlockPos::new(5, 3, 5), BlockPos::new(5, 4, 6))
        .is_empty());
}

#[test]
fn write_leaves_other_subchunks_clean() {
    let mut t = Terrain::new();
    t.insert_chunk((0, 0), small_chunk(0, 0));
    for s in t.dirty_subchunks() {
        t.clear_dirty(s);
    }
    t.set_block(BlockPos::new(1, 2, 3), Block::DIRT);
    assert_eq!(t.dirty_subchunks(), vec![BlockPos::new(0, 0, 0)]);
}

#[test]
fn write_to_missing_subchunk_changes_nothing() {
    let mut t = Terrain::new();
    t.insert_chunk((0, 0), small_chunk(0, 0));
    for s in t.dirty_subchunks() {
        t.clear_dirty(s);
    }
    t.set_block(BlockPos::new(1, 32, 3), Block::DIRT);
    t.set_block(BlockPos::new(1, -3, 3), Block::DIRT);
    assert!(t.dirty_subchunks().is_empty());
    assert_eq!(t.chunk((0, 0)).unwrap().subchunks.len(), 2);
    assert_eq!(t.keys(), vec![(0, 0)]);
}

#[test]
fn range_scan_skips_chunks_outside_the_rectangle() {
    let mut t = Terrain::new();
    for k in [(-3, 0), (0, -5), (0, 0), (0, 7), (1, -1), (1, 0), (1, 9), (5, 0)] {
        t.insert_chunk(k, small_chunk(k.0, k.1));
    }
    t.set_block(BlockPos::new(0, 1, 0), Block::STONE);
    t.set_block(BlockPos::new(16, 1, 0), Block::GRASS);
    t.set_block(BlockPos::new(16, 1, -1), Block::DIRT);
    let r = t.blocks_intersecting(BlockPos::new(0, 1, -1), BlockPos::new(17, 2, 1));
    // chunk (0, -1) is not loaded; (0, 0) gives x 0..16 at z 0, then
    // (1, -1) and (1, 0) give x 16 at z -1 and z 0
    let mut want: Vec<BlockPos> = (0..16).map(|x| BlockPos::new(x, 1, 0)).collect();
    want.push(BlockPos::new(16, 1, -1));
    want.push(BlockPos::new(16, 1, 0));
    let got: Vec<BlockPos> = r.iter().map(|(p, _)| *p).collect();
    assert_eq!(got, want);
    assert_eq!(r[0], (BlockPos::new(0, 1, 0), Block::STONE));
    assert_eq!(r[r.len() - 2], (BlockPos::new(16, 1, -1), Block::DIRT));
    assert_eq!(r[r.len() - 1], (BlockPos::new(16, 1, 0), Block::GRASS));
}
