use blocks_game::block::Block;
use blocks_game::generation::{add_grass, base_land_mass, generate_chunk, GENERATED_CELLS};
use blocks_game::noise::{seed_for_chunk, PerlinNoise};
use blocks_game::random::Random;
use blocks_game::coords::BlockPos;

fn mask(solid: impl Fn(usize, usize, usize) -> bool) -> Vec<bool> {
    let mut m = vec![false; GENERATED_CELLS];
    for y in 0..256 {
        for z in 0..16 {
            for x in 0..16 {
                m[y * 256 + z * 16 + x] = solid(x, y, z);
            }
        }
    }
    m
}

#[test]
fn first_float_of_seed_zero() {
    let mut r = Random::with_seed(0);
    let n = r.next_fraction();
    assert_eq!(n, 12263604);
    assert_eq!(n as f32 / (1u32 << 24) as f32, 0.730_967_76_f32);
    assert_eq!(r.next_fraction(), 13949265);
}

#[test]
fn next_bits_takes_the_top_bits() {
    let mut a = Random::with_seed(0);
    let mut b = Random::with_seed(0);
    assert_eq!(a.next_bits(32) >> 8, b.next_bits(24));
    assert_eq!(a.next_bits(1), b.next_bits(24) >> 23);
}

#[test]
fn fraction_triples_are_consecutive_draws() {
    let mut a = Random::with_seed(42);
    let mut b = Random::with_seed(42);
    let t = a.next_fraction3();
    assert_eq!(t, (b.next_fraction(), b.next_fraction(), b.next_fraction()));
    assert_eq!(a.next_fraction(), b.next_fraction());
}

#[test]
fn chunk_seed_formula() {
    assert_eq!(seed_for_chunk(0, 0), 0);
    assert_eq!(seed_for_chunk(3, 2), 3 ^ (2 << 16));
    assert_eq!(seed_for_chunk(-1, 0), u64::MAX);
    assert_eq!(seed_for_chunk(0, -1), u64::MAX << 16);
}

#[test]
fn lattice_has_eight_scale_points() {
    let n = PerlinNoise::new((0, 0), BlockPos::new(1, 16, 1));
    assert_eq!(n.points.len(), 2 * 32 * 2);
    assert_eq!(n.scale, BlockPos::new(1, 16, 1));
}

#[test]
fn lattice_first_point_is_first_draw_of_own_stream() {
    let n = PerlinNoise::new((5, -3), BlockPos::new(1, 16, 1));
    let mut r = Random::with_seed(seed_for_chunk(5, -3));
    assert_eq!(n.points[0], r.next_fraction3());
    assert_eq!(n.points[2], r.next_fraction3());
    let mut q = Random::with_seed(seed_for_chunk(6, -3));
    assert_eq!(n.points[1], q.next_fraction3());
}

#[test]
fn neighbouring_lattices_share_their_edge() {
    let s = BlockPos::new(1, 16, 1);
    let a = PerlinNoise::new((7, 2), s);
    let b = PerlinNoise::new((8, 2), s);
    let c = PerlinNoise::new((7, 3), s);
    let idx = |x: usize, y: usize, z: usize| (z * 32 + y) * 2 + x;
    for z in 0..2 {
        for y in 0..32 {
            assert_eq!(a.points[idx(1, y, z)], b.points[idx(0, y, z)]);
        }
    }
    for x in 0..2 {
        for y in 0..32 {
            assert_eq!(a.points[idx(x, y, 1)], c.points[idx(x, y, 0)]);
        }
    }
    assert_ne!(a.points[idx(0, 0, 0)], b.points[idx(0, 0, 0)]);
}

#[test]
fn land_mass_follows_the_mask() {
    let m = mask(|x, y, z| (x + y + z) % 3 == 0);
    let c = base_land_mass(&m);
    assert_eq!(c.subchunks.len(), 16);
    for (x, y, z) in [(0, 0, 0), (1, 1, 1), (2, 200, 5), (15, 255, 15), (3, 17, 9)] {
        let expected = if (x + y + z) % 3 == 0 { Block::STONE } else { Block::AIR };
        assert_eq!(c.block(x, y, z), expected);
    }
    assert!(c.subchunks.iter().all(|s| s.is_dirty()));
}

#[test]
fn surface_gets_grass_then_three_dirt() {
    let c = generate_chunk(&mask(|_, y, _| y < 10));
    for x in 0..16 {
        for z in 0..16 {
            assert_eq!(c.block(x, 9, z), Block::GRASS);
            assert_eq!(c.block(x, 8, z), Block::DIRT);
            assert_eq!(c.block(x, 7, z), Block::DIRT);
            assert_eq!(c.block(x, 6, z), Block::DIRT);
            for y in 0..6 {
                assert_eq!(c.block(x, y, z), Block::STONE);
            }
            for y in 10..256 {
                assert_eq!(c.block(x, y, z), Block::AIR);
            }
        }
    }
}

#[test]
fn cave_ceiling_gets_a_skin() {
    // solid below 40 except for a cave from 20 to 24
    let c = generate_chunk(&mask(|_, y, _| y < 40 && !(20..25).contains(&y)));
    assert_eq!(c.block(4, 39, 4), Block::GRASS);
    assert_eq!(c.block(4, 36, 4), Block::DIRT);
    assert_eq!(c.block(4, 35, 4), Block::STONE);
    assert_eq!(c.block(4, 25, 4), Block::STONE);
    assert_eq!(c.block(4, 22, 4), Block::AIR);
    assert_eq!(c.block(4, 19, 4), Block::GRASS);
    assert_eq!(c.block(4, 16, 4), Block::DIRT);
    assert_eq!(c.block(4, 15, 4), Block::STONE);
}

#[test]
fn stone_at_the_top_becomes_grass() {
    let mut c = base_land_mass(&mask(|_, _, _| true));
    add_grass(&mut c);
    assert_eq!(c.block(0, 255, 0), Block::GRASS);
    assert_eq!(c.block(0, 252, 0), Block::DIRT);
    assert_eq!(c.block(0, 251, 0), Block::STONE);
    assert_eq!(c.block(0, 0, 0), Block::STONE);
}

#[test]
fn dressing_leaves_non_stone_alone() {
    let mut c = base_land_mass(&mask(|_, y, _| y < 5));
    c.set_block(0, 4, 0, Block::DIRT);
    add_grass(&mut c);
    assert_eq!(c.block(0, 4, 0), Block::DIRT);
    assert_eq!(c.block(0, 3, 0), Block::DIRT);
    assert_eq!(c.block(0, 1, 0), Block::DIRT);
    assert_eq!(c.block(0, 0, 0), Block::STONE);
    assert_eq!(c.block(1, 4, 1), Block::GRASS);
}
