use vstd::prelude::*;

use crate::block::Block;
use crate::collision::{face_at, face_of, neighbour, open_faces, Face};
use crate::coords::{in_subchunk, BlockPos};
use crate::subchunk::local_lt;
use crate::terrain::{block_at, is_subchunk_loaded, ChunkKey, Terrain};
use crate::chunk::Chunk;

verus! {

/// World position of local cell `c` of the subchunk at subchunk
/// coordinates `s`.
pub open spec fn world_of(s: BlockPos, c: BlockPos) -> BlockPos {
    BlockPos {
        x: (16 * s.x + c.x) as i32,
        y: (16 * s.y + c.y) as i32,
        z: (16 * s.z + c.z) as i32,
    }
}

/// Face `f` of local cell `c` of subchunk `s` must be drawn: the cell is
/// solid and its neighbour across `f`, wherever in the terrain it lies, is
/// air (unloaded space counts as air).
pub open spec fn is_exposed(m: Map<ChunkKey, Chunk>, s: BlockPos, c: BlockPos, f: Face) -> bool {
    &&& in_subchunk(c.x as int, c.y as int, c.z as int)
    &&& m[(s.x, s.z)].subchunks@[s.y as int].cell(c.x as int, c.y as int, c.z as int) != Block::AIR
    &&& block_at(m, neighbour(world_of(s, c), f)) == Block::AIR
}

/// Mesh order: by cell (x, then y, then z), then by face.
pub open spec fn face_entry_lt(a: (BlockPos, Face), b: (BlockPos, Face)) -> bool {
    local_lt(a.0, b.0) || (a.0 == b.0 && a.1.index() < b.1.index())
}

/// Subchunk coordinates whose cells and their neighbours have world
/// coordinates inside `i32`.
pub open spec fn fits_in_world(s: BlockPos) -> bool {
    &&& i32::MIN < 16 * s.x - 1 && 16 * s.x + 16 < i32::MAX
    &&& i32::MIN < 16 * s.y - 1 && 16 * s.y + 16 < i32::MAX
    &&& i32::MIN < 16 * s.z - 1 && 16 * s.z + 16 < i32::MAX
}

/// The faces a mesher draws for the subchunk at subchunk coordinates `s`
/// (chunk x, index in the column, chunk z): each face of a solid cell whose
/// neighbour is air, listed by cell in x, y, z order and by face within a
/// cell. Cells are given in the subchunk's local coordinates.
pub fn exposed_faces(terrain: &Terrain, s: BlockPos) -> (r: Vec<(BlockPos, Face)>)
    requires
        terrain.wf(),
        is_subchunk_loaded(terrain@, s),
        fits_in_world(s),
    ensures
        forall|a: int| 0 <= a < r@.len() ==> is_exposed(terrain@, s, (#[trigger] r@[a]).0, r@[a].1),
        forall|c: BlockPos, f: Face|
            is_exposed(terrain@, s, c, f) ==> exists|a: int| 0 <= a < r@.len() && #[trigger] r@[a] == (c, f),
        forall|a: int, b: int| 0 <= a < b < r@.len() ==> face_entry_lt(r@[a], r@[b]),
{
    let mut r: Vec<(BlockPos, Face)> = Vec::new();
    let sub = match terrain.subchunk(s) {
        Some(sub) => sub,
        None => return r,
    };
    let ghost m = terrain@;
    let bx: i32 = 16 * s.x;
    let by: i32 = 16 * s.y;
    let bz: i32 = 16 * s.z;
    let mut x: i32 = 0;
    while x < 16
        invariant
            terrain.wf(),
            m == terrain@,
            is_subchunk_loaded(m, s),
            fits_in_world(s),
            *sub == m[(s.x, s.z)].subchunks@[s.y as int],
            sub.wf(),
            bx == 16 * s.x,
            by == 16 * s.y,
            bz == 16 * s.z,
            0 <= x <= 16,
            forall|a: int| 0 <= a < r@.len() ==> is_exposed(m, s, (#[trigger] r@[a]).0, r@[a].1) && r@[a].0.x < x,
            forall|c: BlockPos, f: Face|
                is_exposed(m, s, c, f) && c.x < x ==> exists|a: int| 0 <= a < r@.len() && #[trigger] r@[a] == (c, f),
            forall|a: int, b: int| 0 <= a < b < r@.len() ==> face_entry_lt(r@[a], r@[b]),
        decreases 16 - x,
    {
        let mut y: i32 = 0;
        while y < 16
            invariant
                terrain.wf(),
                m == terrain@,
                is_subchunk_loaded(m, s),
                fits_in_world(s),
                *sub == m[(s.x, s.z)].subchunks@[s.y as int],
                sub.wf(),
                bx == 16 * s.x,
                by == 16 * s.y,
                bz == 16 * s.z,
                0 <= x < 16,
                0 <= y <= 16,
                forall|a: int|
                    0 <= a < r@.len() ==> is_exposed(m, s, (#[trigger] r@[a]).0, r@[a].1) && (r@[a].0.x < x
                        || (r@[a].0.x == x && r@[a].0.y < y)),
                forall|c: BlockPos, f: Face|
                    is_exposed(m, s, c, f) && (c.x < x || (c.x == x && c.y < y)) ==> exists|a: int|
                        0 <= a < r@.len() && #[trigger] r@[a] == (c, f),
                forall|a: int, b: int| 0 <= a < b < r@.len() ==> face_entry_lt(r@[a], r@[b]),
            decreases 16 - y,
        {
            let mut z: i32 = 0;
            while z < 16
                invariant
                    terrain.wf(),
                    m == terrain@,
                    is_subchunk_loaded(m, s),
                    fits_in_world(s),
                    *sub == m[(s.x, s.z)].subchunks@[s.y as int],
                    sub.wf(),
                    bx == 16 * s.x,
                    by == 16 * s.y,
                    bz == 16 * s.z,
                    0 <= x < 16,
                    0 <= y < 16,
                    0 <= z <= 16,
                    forall|a: int|
                        0 <= a < r@.len() ==> is_exposed(m, s, (#[trigger] r@[a]).0, r@[a].1) && local_lt(
                            r@[a].0,
                            BlockPos { x, y, z },
                        ),
                    forall|c: BlockPos, f: Face|
                        is_exposed(m, s, c, f) && local_lt(c, BlockPos { x, y, z }) ==> exists|a: int|
                            0 <= a < r@.len() && #[trigger] r@[a] == (c, f),
                    forall|a: int, b: int| 0 <= a < b < r@.len() ==> face_entry_lt(r@[a], r@[b]),
                decreases 16 - z,
            {
                let c = BlockPos { x, y, z };
                let b = sub.block(x as usize, y as usize, z as usize);
                if b != Block::AIR {
                    let open = open_faces(terrain, BlockPos { x: bx + x, y: by + y, z: bz + z });
                    let mut i: usize = 0;
                    while i < 6
                        invariant
                            m == terrain@,
                            is_subchunk_loaded(m, s),
                            *sub == m[(s.x, s.z)].subchunks@[s.y as int],
                            c == (BlockPos { x, y, z }),
                            0 <= x < 16,
                            0 <= y < 16,
                            0 <= z < 16,
                            b != Block::AIR,
                            b == sub.cell(x as int, y as int, z as int),
                            0 <= i <= 6,
                            forall|j: int|
                                0 <= j < 6 ==> open@[j] == (block_at(
                                    m,
                                    neighbour(world_of(s, c), face_at(j)),
                                ) == Block::AIR),
                            forall|a: int|
                                0 <= a < r@.len() ==> is_exposed(m, s, (#[trigger] r@[a]).0, r@[a].1) && (
                                local_lt(r@[a].0, c) || (r@[a].0 == c && r@[a].1.index() < i)),
                            forall|cc: BlockPos, f: Face|
                                is_exposed(m, s, cc, f) && (local_lt(cc, c) || (cc == c && f.index() < i))
                                    ==> exists|a: int| 0 <= a < r@.len() && #[trigger] r@[a] == (cc, f),
                            forall|a: int, b: int| 0 <= a < b < r@.len() ==> face_entry_lt(r@[a], r@[b]),
                        decreases 6 - i,
                    {
                        if open[i] {
                            let f = face_of(i);
                            let ghost before = r@;
                            r.push((c, f));
                            proof {
                                assert(r@[before.len() as int] == (c, f));
                                assert forall|cc: BlockPos, g: Face|
                                    is_exposed(m, s, cc, g) && (local_lt(cc, c) || (cc == c && g.index() < i + 1))
                                        implies exists|a: int| 0 <= a < r@.len() && #[trigger] r@[a] == (cc, g) by {
                                    if cc == c && g.index() == i {
                                        assert(g == f);
                                        assert(r@[before.len() as int] == (cc, g));
                                    } else {
                                        let a = choose|a: int| 0 <= a < before.len() && #[trigger] before[a] == (cc, g);
                                        assert(r@[a] == before[a]);
                                    }
                                }
                            }
                        } else {
                            proof {
                                assert forall|cc: BlockPos, g: Face|
                                    is_exposed(m, s, cc, g) && (local_lt(cc, c) || (cc == c && g.index() < i + 1))
                                        implies exists|a: int| 0 <= a < r@.len() && #[trigger] r@[a] == (cc, g) by {
                                    if cc == c && g.index() == i {
                                        assert(g == face_at(i as int));
                                    }
                                }
                            }
                        }
                        i += 1;
                    }
                }
                proof {
                    assert forall|cc: BlockPos, f: Face|
                        is_exposed(m, s, cc, f) && local_lt(cc, BlockPos { x, y, z: (z + 1) as i32 })
                            implies exists|a: int| 0 <= a < r@.len() && #[trigger] r@[a] == (cc, f) by {
                        if cc == c {
                            assert(f.index() < 6);
                        }
                    }
                }
                z += 1;
            }
            y += 1;
        }
        x += 1;
    }
    r
}

} // verus!
