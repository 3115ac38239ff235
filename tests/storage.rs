use blocks_game::block::Block;
use blocks_game::chunk::Chunk;
use blocks_game::coords::{div16, locate, mod16, BlockLocation, BlockPos};
use blocks_game::subchunk::Subchunk;

#[test]
fn block_ids_round_trip() {
    for b in [Block::AIR, Block::STONE, Block::GRASS, Block::DIRT] {
        assert_eq!(Block::from_id(b.id()), Some(b));
    }
    assert_eq!(Block::AIR.id(), 0);
    assert_eq!(Block::DIRT.id(), 3);
    assert_eq!(Block::from_id(4), None);
    assert_eq!(Block::default(), Block::AIR);
}

#[test]
fn floor_division_and_true_modulo() {
    assert_eq!(div16(-1), -1);
    assert_eq!(mod16(-1), 15);
    assert_eq!(div16(-16), -1);
    assert_eq!(mod16(-16), 0);
    assert_eq!(div16(-17), -2);
    assert_eq!(mod16(-17), 15);
    assert_eq!(div16(31), 1);
    assert_eq!(mod16(31), 15);
    assert_eq!(div16(i32::MIN), -134217728);
    assert_eq!(mod16(i32::MIN), 0);
    assert_eq!(div16(i32::MAX), 134217727);
    assert_eq!(mod16(i32::MAX), 15);
}

#[test]
fn negative_position_maps_to_negative_chunk() {
    let l = locate(BlockPos::new(-1, -1, -1));
    assert_eq!(
        l,
        BlockLocation {
            chunk_x: -1,
            chunk_z: -1,
            subchunk_y: -1,
            local_x: 15,
            local_y: 15,
            local_z: 15,
        }
    );
    assert_eq!(l.position(), BlockPos::new(-1, -1, -1));
}

#[test]
fn location_round_trip_on_samples() {
    for &x in &[-33, -17, -16, -15, -1, 0, 1, 15, 16, 17, 1000, i32::MIN, i32::MAX] {
        for &y in &[-5, 0, 255, 256] {
            for &z in &[-16, 3, 47] {
                let p = BlockPos::new(x, y, z);
                let l = locate(p);
                assert!((0..16).contains(&l.local_x));
                assert!((0..16).contains(&l.local_y));
                assert!((0..16).contains(&l.local_z));
                assert_eq!(l.position(), p);
            }
        }
    }
}

#[test]
fn new_subchunk_is_air_and_dirty() {
    let s = Subchunk::new();
    assert!(s.is_dirty());
    for x in 0..16 {
        for y in 0..16 {
            for z in 0..16 {
                assert_eq!(s.block(x, y, z), Block::AIR);
            }
        }
    }
}

#[test]
fn subchunk_set_then_get() {
    let mut s = Subchunk::new();
    s.clear_dirty();
    assert!(!s.is_dirty());
    s.set_block(3, 4, 5, Block::STONE);
    assert!(s.is_dirty());
    assert_eq!(s.block(3, 4, 5), Block::STONE);
    assert_eq!(s.block(5, 4, 3), Block::AIR);
    assert_eq!(s.block(4, 3, 5), Block::AIR);
}

#[test]
fn block_or_air_outside_is_air() {
    let mut s = Subchunk::new();
    s.set_block(0, 0, 0, Block::DIRT);
    s.set_block(15, 15, 15, Block::GRASS);
    assert_eq!(s.block_or_air(0, 0, 0), Block::DIRT);
    assert_eq!(s.block_or_air(15, 15, 15), Block::GRASS);
    assert_eq!(s.block_or_air(-1, 0, 0), Block::AIR);
    assert_eq!(s.block_or_air(0, 16, 0), Block::AIR);
    assert_eq!(s.block_or_air(0, 0, -7), Block::AIR);
}

#[test]
fn sphere_fills_the_middle_only() {
    let mut s = Subchunk::new();
    s.add_sphere();
    assert_eq!(s.block(8, 8, 8), Block::STONE);
    assert_eq!(s.block(7, 7, 7), Block::STONE);
    assert_eq!(s.block(0, 0, 0), Block::AIR);
    assert_eq!(s.block(15, 15, 15), Block::AIR);
    // centre (0.5, 7.5, 7.5) lies 7.5 from (8, 8, 8) on x and 0.5 on y, z
    assert_eq!(s.block(0, 7, 7), Block::STONE);
    assert_eq!(s.block(0, 0, 7), Block::AIR);
    let mut count = 0;
    for x in 0..16 {
        for y in 0..16 {
            for z in 0..16 {
                if s.block(x, y, z) == Block::STONE {
                    count += 1;
                }
            }
        }
    }
    let mut expected = 0;
    for x in 0..16 {
        for y in 0..16 {
            for z in 0..16 {
                let dx = x as f32 + 0.5 - 8.0;
                let dy = y as f32 + 0.5 - 8.0;
                let dz = z as f32 + 0.5 - 8.0;
                if (dx * dx + dy * dy + dz * dz).sqrt() < 8.0 {
                    expected += 1;
                }
            }
        }
    }
    assert_eq!(count, expected);
}

#[test]
fn subchunk_dirt_dressing_is_two_deep() {
    let mut s = Subchunk::new();
    for y in 0..10 {
        s.set_block(2, y, 3, Block::STONE);
    }
    s.add_dirt();
    assert_eq!(s.block(2, 9, 3), Block::GRASS);
    assert_eq!(s.block(2, 8, 3), Block::DIRT);
    assert_eq!(s.block(2, 7, 3), Block::DIRT);
    assert_eq!(s.block(2, 6, 3), Block::STONE);
    assert_eq!(s.block(2, 0, 3), Block::STONE);
    assert_eq!(s.block(2, 10, 3), Block::AIR);
}

#[test]
fn subchunk_query_clamps_and_orders() {
    let mut s = Subchunk::new();
    s.set_block(0, 1, 0, Block::STONE);
    let r = s.blocks_intersecting(BlockPos::new(-5, 0, -5), BlockPos::new(2, 2, 1));
    let expected: Vec<(BlockPos, Block)> = vec![
        (BlockPos::new(0, 0, 0), Block::AIR),
        (BlockPos::new(0, 1, 0), Block::STONE),
        (BlockPos::new(1, 0, 0), Block::AIR),
        (BlockPos::new(1, 1, 0), Block::AIR),
    ];
    assert_eq!(r, expected);
    assert!(s
        .blocks_intersecting(BlockPos::new(16, 0, 0), BlockPos::new(40, 5, 5))
        .is_empty());
    assert_eq!(
        s.blocks_intersecting(BlockPos::new(-100, -100, -100), BlockPos::new(100, 100, 100))
            .len(),
        4096
    );
}

#[test]
fn chunk_addresses_heights_across_subchunks() {
    let mut c = Chunk::new();
    c.push_subchunk(Subchunk::new());
    c.push_subchunk(Subchunk::new());
    c.set_block(1, 17, 2, Block::GRASS);
    assert_eq!(c.block(1, 17, 2), Block::GRASS);
    assert_eq!(c.subchunks[1].block(1, 1, 2), Block::GRASS);
    assert_eq!(c.subchunks[0].block(1, 1, 2), Block::AIR);
}

#[test]
fn chunk_query_offsets_heights() {
    let mut c = Chunk::new();
    c.push_subchunk(Subchunk::new());
    c.push_subchunk(Subchunk::new());
    c.set_block(0, 15, 0, Block::STONE);
    c.set_block(0, 16, 0, Block::DIRT);
    let r = c.blocks_intersecting(BlockPos::new(0, 15, 0), BlockPos::new(1, 17, 1));
    assert_eq!(
        r,
        vec![
            (BlockPos::new(0, 15, 0), Block::STONE),
            (BlockPos::new(0, 16, 0), Block::DIRT),
        ]
    );
    // above the column nothing is listed
    assert!(c
        .blocks_intersecting(BlockPos::new(0, 32, 0), BlockPos::new(16, 100, 16))
        .is_empty());
    assert!(c
        .blocks_intersecting(BlockPos::new(0, -10, 0), BlockPos::new(16, 0, 16))
        .is_empty());
}
