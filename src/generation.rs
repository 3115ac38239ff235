use vstd::prelude::*;

use crate::block::Block;
use crate::chunk::{in_chunk, Chunk};
use crate::coords::{cell_index, in_subchunk, lemma_cell_index, lemma_index_cell};
use crate::subchunk::{dressed, solid_run_above, Subchunk};

verus! {

/// Number of subchunks that generation stacks in a chunk.
pub const GENERATED_SUBCHUNKS: usize = 16;

/// Number of cells in a generated chunk, and the length of its solid mask.
pub const GENERATED_CELLS: usize = 65536;

/// Where the mask records whether chunk-local cell `(x, y, z)` is solid.
pub open spec fn mask_index(x: int, y: int, z: int) -> int {
    y * 256 + z * 16 + x
}

/// The block that thresholding puts at `(x, y, z)`: stone where the mask
/// says solid, air elsewhere.
pub open spec fn land_block(solid: Seq<bool>, x: int, y: int, z: int) -> Block {
    if solid[mask_index(x, y, z)] {
        Block::STONE
    } else {
        Block::AIR
    }
}

/// The column at `(x, z)` after thresholding, bottom to top.
pub open spec fn land_column(solid: Seq<bool>, x: int, z: int) -> Seq<Block> {
    Seq::new(GENERATED_CELLS as nat / 256, |y: int| land_block(solid, x, y, z))
}

/// Builds a chunk of sixteen subchunks from a solid mask (the outcome of
/// comparing the chunk's noise with the height threshold at each cell),
/// then dresses its surface.
pub fn generate_chunk(solid: &Vec<bool>) -> (r: Chunk)
    requires
        solid@.len() == GENERATED_CELLS,
    ensures
        r.wf(),
        r.height() == GENERATED_SUBCHUNKS,
        forall|i: int| 0 <= i < r.height() ==> (#[trigger] r.subchunks@[i]).dirty(),
        forall|x: int, y: int, z: int|
            in_chunk(x, y, z, r.height()) ==> #[trigger] r.cell(x, y, z) == dressed(
                land_column(solid@, x, z),
                y,
                3,
            ),
{
    let mut chunk = base_land_mass(solid);
    let ghost land = chunk;
    add_grass(&mut chunk);
    proof {
        assert forall|x: int, z: int| 0 <= x < 16 && 0 <= z < 16 implies #[trigger] land.column(x, z)
            == land_column(solid@, x, z) by {
            assert(land.column(x, z) =~= land_column(solid@, x, z));
        }
        assert forall|i: int| 0 <= i < chunk.height() implies (#[trigger] chunk.subchunks@[i]).dirty() by {
            assert(land.subchunks@[i].dirty());
        }
    }
    chunk
}

/// Thresholding: sixteen subchunks whose cells are stone where the mask
/// says solid and air elsewhere.
pub fn base_land_mass(solid: &Vec<bool>) -> (r: Chunk)
    requires
        solid@.len() == GENERATED_CELLS,
    ensures
        r.wf(),
        r.height() == GENERATED_SUBCHUNKS,
        forall|i: int| 0 <= i < r.height() ==> (#[trigger] r.subchunks@[i]).dirty(),
        forall|x: int, y: int, z: int|
            in_chunk(x, y, z, r.height()) ==> #[trigger] r.cell(x, y, z) == land_block(
                solid@,
                x,
                y,
                z,
            ),
{
    let mut chunk = Chunk::new();
    let mut i: usize = 0;
    while i < GENERATED_SUBCHUNKS
        invariant
            solid@.len() == GENERATED_CELLS,
            chunk.wf(),
            chunk.height() == i,
            i <= GENERATED_SUBCHUNKS,
            forall|j: int| 0 <= j < chunk.height() ==> (#[trigger] chunk.subchunks@[j]).dirty(),
            forall|j: int, x: int, y: int, z: int|
                0 <= j < i && in_subchunk(x, y, z) ==> #[trigger] chunk.subchunks@[j].cell(x, y, z)
                    == land_block(solid@, x, 16 * j + y, z),
        decreases GENERATED_SUBCHUNKS - i,
    {
        let subchunk = land_subchunk(solid, i);
        chunk.push_subchunk(subchunk);
        i += 1;
    }
    proof {
        assert forall|x: int, y: int, z: int| in_chunk(x, y, z, chunk.height()) implies #[trigger] chunk.cell(
            x,
            y,
            z,
        ) == land_block(solid@, x, y, z) by {
            assert(y == 16 * (y / 16) + y % 16);
            assert(in_subchunk(x, y % 16, z));
        }
    }
    chunk
}

/// Subchunk `i` of the thresholded chunk.
fn land_subchunk(solid: &Vec<bool>, i: usize) -> (r: Subchunk)
    requires
        solid@.len() == GENERATED_CELLS,
        i < GENERATED_SUBCHUNKS,
    ensures
        r.wf(),
        r.dirty(),
        forall|x: int, y: int, z: int|
            in_subchunk(x, y, z) ==> #[trigger] r.cell(x, y, z) == land_block(
                solid@,
                x,
                16 * i + y,
                z,
            ),
{
    let mut sub = Subchunk::new();
    let mut j: usize = 0;
    while j < 4096
        invariant
            solid@.len() == GENERATED_CELLS,
            i < GENERATED_SUBCHUNKS,
            sub.wf(),
            sub.dirty(),
            j <= 4096,
            forall|k: int|
                0 <= k < j ==> #[trigger] sub@[k] == land_block(
                    solid@,
                    k % 16,
                    16 * i + (k / 16) % 16,
                    k / 256,
                ),
        decreases 4096 - j,
    {
        let x = j % 16;
        let y = (j / 16) % 16;
        let z = j / 256;
        proof {
            lemma_index_cell(j as int);
        }
        let m = (16 * i + y) * 256 + z * 16 + x;
        let block = if solid[m] {
            Block::STONE
        } else {
            Block::AIR
        };
        sub.set_block(x, y, z, block);
        j += 1;
    }
    proof {
        assert forall|x: int, y: int, z: int| in_subchunk(x, y, z) implies #[trigger] sub.cell(
            x,
            y,
            z,
        ) == land_block(solid@, x, 16 * i + y, z) by {
            lemma_cell_index(x, y, z);
        }
    }
    sub
}

/// Dresses the surface of every column of `chunk`: walking down from the
/// top, the first stone under air (or at the top) becomes grass and the up
/// to three stone cells below it become dirt; air starts the count again,
/// so the ceiling of a cave gets the same skin.
pub fn add_grass(chunk: &mut Chunk)
    requires
        old(chunk).wf(),
    ensures
        final(chunk).wf(),
        final(chunk).height() == old(chunk).height(),
        forall|i: int|
            0 <= i < old(chunk).height() && (#[trigger] old(chunk).subchunks@[i]).dirty()
                ==> final(chunk).subchunks@[i].dirty(),
        forall|x: int, y: int, z: int|
            in_chunk(x, y, z, old(chunk).height()) ==> #[trigger] final(chunk).cell(x, y, z)
                == dressed(old(chunk).column(x, z), y, 3),
{
    let ghost before = *chunk;
    let mut x: usize = 0;
    while x < 16
        invariant
            0 <= x <= 16,
            chunk.wf(),
            before.wf(),
            chunk.height() == before.height(),
            forall|i: int|
                0 <= i < before.height() && (#[trigger] before.subchunks@[i]).dirty()
                    ==> chunk.subchunks@[i].dirty(),
            forall|cx: int, cy: int, cz: int|
                in_chunk(cx, cy, cz, before.height()) ==> #[trigger] chunk.cell(cx, cy, cz) == if cx
                    < x {
                    dressed(before.column(cx, cz), cy, 3)
                } else {
                    before.cell(cx, cy, cz)
                },
        decreases 16 - x,
    {
        let mut z: usize = 0;
        while z < 16
            invariant
                0 <= x < 16,
                0 <= z <= 16,
                chunk.wf(),
                before.wf(),
                chunk.height() == before.height(),
                forall|i: int|
                    0 <= i < before.height() && (#[trigger] before.subchunks@[i]).dirty()
                        ==> chunk.subchunks@[i].dirty(),
                forall|cx: int, cy: int, cz: int|
                    in_chunk(cx, cy, cz, before.height()) ==> #[trigger] chunk.cell(cx, cy, cz)
                        == if cx < x || (cx == x && cz < z) {
                        dressed(before.column(cx, cz), cy, 3)
                    } else {
                        before.cell(cx, cy, cz)
                    },
            decreases 16 - z,
        {
            dress_chunk_column(chunk, x, z, Ghost(before));
            z += 1;
        }
        x += 1;
    }
}

/// Dresses column `(x, z)` of `chunk`, walking down from the top with a
/// count of the solid cells passed since the last air.
fn dress_chunk_column(chunk: &mut Chunk, x: usize, z: usize, Ghost(before): Ghost<Chunk>)
    requires
        old(chunk).wf(),
        before.wf(),
        old(chunk).height() == before.height(),
        x < 16,
        z < 16,
        forall|cy: int|
            0 <= cy < 16 * before.height() ==> #[trigger] old(chunk).cell(x as int, cy, z as int)
                == before.cell(x as int, cy, z as int),
    ensures
        final(chunk).wf(),
        final(chunk).height() == old(chunk).height(),
        forall|i: int|
            0 <= i < old(chunk).height() && (#[trigger] old(chunk).subchunks@[i]).dirty()
                ==> final(chunk).subchunks@[i].dirty(),
        forall|cx: int, cy: int, cz: int|
            in_chunk(cx, cy, cz, old(chunk).height()) ==> #[trigger] final(chunk).cell(cx, cy, cz)
                == if cx == x && cz == z {
                dressed(before.column(cx, cz), cy, 3)
            } else {
                old(chunk).cell(cx, cy, cz)
            },
{
    let ghost start = *chunk;
    let ghost col = before.column(x as int, z as int);
    let mut depth: u32 = 0;
    let mut y: usize = chunk.subchunks.len() * 16;
    while y > 0
        invariant
            x < 16,
            z < 16,
            chunk.wf(),
            start.wf(),
            chunk.height() == start.height(),
            start.height() == before.height(),
            0 <= y <= 16 * start.height(),
            col == before.column(x as int, z as int),
            col.len() == 16 * start.height(),
            depth == solid_run_above(col, y as int - 1),
            depth <= 16 * start.height() - y,
            forall|i: int|
                0 <= i < start.height() && (#[trigger] start.subchunks@[i]).dirty()
                    ==> chunk.subchunks@[i].dirty(),
            forall|cy: int|
                0 <= cy < 16 * before.height() ==> #[trigger] start.cell(x as int, cy, z as int)
                    == before.cell(x as int, cy, z as int),
            forall|cx: int, cy: int, cz: int|
                in_chunk(cx, cy, cz, start.height()) ==> #[trigger] chunk.cell(cx, cy, cz) == if cx
                    == x && cz == z && cy >= y {
                    dressed(col, cy, 3)
                } else {
                    start.cell(cx, cy, cz)
                },
        decreases y,
    {
        y -= 1;
        let b = chunk.block(x, y, z);
        let ghost mid = *chunk;
        match b {
            Block::AIR => {
                depth = 0;
            },
            Block::STONE => {
                if depth == 0 {
                    chunk.set_block(x, y, z, Block::GRASS);
                } else if depth <= 3 {
                    chunk.set_block(x, y, z, Block::DIRT);
                }
                depth += 1;
            },
            _ => {
                depth += 1;
            },
        }
        proof {
            assert(b == col[y as int]);
            assert forall|i: int|
                0 <= i < start.height() && (#[trigger] start.subchunks@[i]).dirty() implies chunk.subchunks@[i].dirty() by {
                assert(mid.subchunks@[i].dirty());
            }
        }
    }
}

/// A column solid below height `h` and air from `h` up is dressed with
/// grass at `h - 1`, dirt on the three cells below it and stone under
/// those; the air stays air.
pub proof fn lemma_dressed_flat_column(col: Seq<Block>, h: int)
    requires
        1 <= h <= col.len(),
        forall|y: int| 0 <= y < h ==> col[y] == Block::STONE,
        forall|y: int| h <= y < col.len() ==> col[y] == Block::AIR,
    ensures
        dressed(col, h - 1, 3) == Block::GRASS,
        forall|y: int| 0 <= y < h - 1 && h - 4 <= y ==> dressed(col, y, 3) == Block::DIRT,
        forall|y: int| 0 <= y < h - 4 ==> dressed(col, y, 3) == Block::STONE,
        forall|y: int| h <= y < col.len() ==> dressed(col, y, 3) == Block::AIR,
{
    assert forall|y: int| 0 <= y < h implies solid_run_above(col, y) == h - 1 - y by {
        lemma_run_in_flat_column(col, h, y);
    }
}

proof fn lemma_run_in_flat_column(col: Seq<Block>, h: int, y: int)
    requires
        1 <= h <= col.len(),
        forall|t: int| 0 <= t < h ==> col[t] == Block::STONE,
        forall|t: int| h <= t < col.len() ==> col[t] == Block::AIR,
        0 <= y < h,
    ensures
        solid_run_above(col, y) == h - 1 - y,
    decreases h - y,
{
    if y + 1 < h {
        lemma_run_in_flat_column(col, h, y + 1);
    }
}

} // verus!
