use blocks_game::block::Block;
use blocks_game::chunk::Chunk;
use blocks_game::collision::{choose_face, open_faces, resolve_face, Face};
use blocks_game::coords::BlockPos;
use blocks_game::subchunk::Subchunk;
use blocks_game::terrain::Terrain;

#[test]
fn single_open_shallow_face_is_chosen() {
    let depths = [900, 900, 100, 900, 900, 900];
    assert_eq!(choose_face(depths, 500, [true; 6]), Some(Face::PosY));
    assert_eq!(
        choose_face([100, 100, 100, 100, 100, 100], 500, [false, false, true, false, false, false]),
        Some(Face::PosY)
    );
}

#[test]
fn ties_go_to_the_earlier_face() {
    assert_eq!(choose_face([7, 7, 7, 7, 7, 7], 10, [true; 6]), Some(Face::PosX));
    assert_eq!(
        choose_face([7, 3, 9, 3, 3, 8], 10, [true; 6]),
        Some(Face::NegX)
    );
    assert_eq!(
        choose_face([7, 3, 9, 3, 3, 8], 10, [true, false, true, true, true, true]),
        Some(Face::NegY)
    );
}

#[test]
fn deep_or_blocked_faces_are_not_resolved() {
    assert_eq!(choose_face([11, 12, 13, 14, 15, 16], 10, [true; 6]), None);
    assert_eq!(choose_face([11, 12, 13, 10, 15, 16], 10, [true; 6]), Some(Face::NegY));
    assert_eq!(choose_face([1, 1, 1, 1, 1, 1], 10, [false; 6]), None);
}

#[test]
fn face_offsets() {
    assert_eq!(Face::PosX.offset(), (1, 0, 0));
    assert_eq!(Face::NegY.offset(), (0, -1, 0));
    assert_eq!(Face::NegZ.offset(), (0, 0, -1));
}

fn floor_terrain() -> Terrain {
    let mut t = Terrain::new();
    let mut c = Chunk::new();
    c.push_subchunk(Subchunk::new());
    t.insert_chunk((0, 0), c);
    for x in 0..16 {
        for z in 0..16 {
            t.set_block(BlockPos::new(x, 3, z), Block::STONE);
        }
    }
    t
}

#[test]
fn only_faces_against_air_are_open() {
    let t = floor_terrain();
    let open = open_faces(&t, BlockPos::new(5, 3, 5));
    assert_eq!(open, [false, false, true, true, false, false]);
}

#[test]
fn standing_on_a_floor_resolves_upwards() {
    let t = floor_terrain();
    // the player sinks slightly into the top face; sideways overlaps are
    // larger but lead into neighbouring stone
    let depths = [20, 20, 1, 50, 20, 20];
    assert_eq!(resolve_face(&t, BlockPos::new(5, 3, 5), depths, 30), Some(Face::PosY));
    let depths = [20, 20, 40, 50, 20, 20];
    assert_eq!(resolve_face(&t, BlockPos::new(5, 3, 5), depths, 30), None);
}
