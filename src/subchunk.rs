use vstd::prelude::*;

use crate::block::Block;
use crate::coords::{
    cell_index, in_box, in_subchunk, lemma_cell_index, lemma_index_cell, scan_lt, BlockPos,
};

verus! {

/// A dense 16 x 16 x 16 grid of blocks, with a flag that tells a mesher
/// that its contents changed.
#[derive(Debug, Clone)]
pub struct Subchunk {
    blocks: Vec<Block>,
    dirty: bool,
}

/// Number of consecutive non-air cells directly above height `y` of a column.
pub open spec fn solid_run_above(col: Seq<Block>, y: int) -> nat
    decreases col.len() - y,
{
    if y + 1 >= col.len() || y + 1 < 0 || col[y + 1] == Block::AIR {
        0
    } else {
        1 + solid_run_above(col, y + 1)
    }
}

/// The block at height `y` of a column after surface dressing: a stone
/// cell with air (or the top) directly above becomes grass, and a stone
/// cell under a run of 1 to `max_dirt` solid cells becomes dirt.
pub open spec fn dressed(col: Seq<Block>, y: int, max_dirt: nat) -> Block {
    if col[y] == Block::STONE {
        let depth = solid_run_above(col, y);
        if depth == 0 {
            Block::GRASS
        } else if depth <= max_dirt {
            Block::DIRT
        } else {
            Block::STONE
        }
    } else {
        col[y]
    }
}

/// The centre of cell `(x, y, z)` lies within 8 blocks of the subchunk's
/// centre (coordinates are doubled so that centres are integers).
pub open spec fn in_sphere(x: int, y: int, z: int) -> bool {
    (2 * x - 15) * (2 * x - 15) + (2 * y - 15) * (2 * y - 15) + (2 * z - 15) * (2 * z - 15) < 256
}

impl View for Subchunk {
    type V = Seq<Block>;

    closed spec fn view(&self) -> Seq<Block> {
        self.blocks@
    }
}

impl Subchunk {
    /// Whether the contents changed since a mesher last cleared the flag.
    pub closed spec fn dirty(&self) -> bool {
        self.dirty
    }

    pub open spec fn wf(&self) -> bool {
        self@.len() == 4096
    }

    /// The block at local cell `(x, y, z)`.
    pub open spec fn cell(&self, x: int, y: int, z: int) -> Block {
        self@[cell_index(x, y, z)]
    }

    /// The column of cells at local `(x, z)`, bottom to top.
    pub open spec fn column(&self, x: int, z: int) -> Seq<Block> {
        Seq::new(16, |y: int| self.cell(x, y, z))
    }

    pub fn is_dirty(&self) -> (r: bool)
        ensures
            r == self.dirty(),
    {
        self.dirty
    }

    /// Acknowledges the current contents: a mesher calls this once it has
    /// rebuilt its geometry from them.
    pub fn clear_dirty(&mut self)
        ensures
            final(self)@ == old(self)@,
            !final(self).dirty(),
    {
        self.dirty = false;
    }

    /// An all-air subchunk, marked dirty.
    pub fn new() -> (r: Subchunk)
        ensures
            r.wf(),
            r.dirty(),
            forall|x: int, y: int, z: int| in_subchunk(x, y, z) ==> r.cell(x, y, z) == Block::AIR,
    {
        let mut blocks: Vec<Block> = Vec::new();
        let mut i: usize = 0;
        while i < 4096
            invariant
                i <= 4096,
                blocks@.len() == i,
                forall|j: int| 0 <= j < i ==> blocks@[j] == Block::AIR,
            decreases 4096 - i,
        {
            blocks.push(Block::AIR);
            i += 1;
        }
        let r = Subchunk { blocks, dirty: true };
        assert forall|x: int, y: int, z: int| in_subchunk(x, y, z) implies r.cell(x, y, z)
            == Block::AIR by {
            lemma_cell_index(x, y, z);
        }
        r
    }

    /// The block at local cell `(x, y, z)`.
    pub fn block(&self, x: usize, y: usize, z: usize) -> (r: Block)
        requires
            self.wf(),
            in_subchunk(x as int, y as int, z as int),
        ensures
            r == self.cell(x as int, y as int, z as int),
    {
        proof {
            lemma_cell_index(x as int, y as int, z as int);
        }
        self.blocks[z * 256 + y * 16 + x]
    }

    /// The block at local cell `(x, y, z)`, or air outside the subchunk.
    pub fn block_or_air(&self, x: isize, y: isize, z: isize) -> (r: Block)
        requires
            self.wf(),
        ensures
            in_subchunk(x as int, y as int, z as int) ==> r == self.cell(x as int, y as int, z as int),
            !in_subchunk(x as int, y as int, z as int) ==> r == Block::AIR,
    {
        if x < 0 || y < 0 || z < 0 || x >= 16 || y >= 16 || z >= 16 {
            return Block::AIR;
        }
        self.block(x as usize, y as usize, z as usize)
    }

    /// Writes one cell and marks the subchunk dirty.
    pub fn set_block(&mut self, x: usize, y: usize, z: usize, block: Block)
        requires
            old(self).wf(),
            in_subchunk(x as int, y as int, z as int),
        ensures
            final(self).wf(),
            final(self).dirty(),
            final(self)@ == old(self)@.update(cell_index(x as int, y as int, z as int), block),
    {
        proof {
            lemma_cell_index(x as int, y as int, z as int);
        }
        self.blocks[z * 256 + y * 16 + x] = block;
        self.dirty = true;
    }

    /// Fills the cells whose centres lie within 8 blocks of the centre
    /// with stone.
    pub fn add_sphere(&mut self)
        requires
            old(self).wf(),
        ensures
            final(self).wf(),
            final(self).dirty(),
            forall|x: int, y: int, z: int|
                in_subchunk(x, y, z) ==> #[trigger] final(self).cell(x, y, z) == if in_sphere(
                    x,
                    y,
                    z,
                ) {
                    Block::STONE
                } else {
                    old(self).cell(x, y, z)
                },
    {
        let ghost before = self@;
        let mut i: usize = 0;
        while i < 4096
            invariant
                0 <= i <= 4096,
                self.wf(),
                before.len() == 4096,
                i > 0 ==> self.dirty(),
                forall|j: int|
                    0 <= j < i ==> #[trigger] self@[j] == if in_sphere(j % 16, (j / 16) % 16, j / 256) {
                        Block::STONE
                    } else {
                        before[j]
                    },
                forall|j: int| i <= j < 4096 ==> #[trigger] self@[j] == before[j],
            decreases 4096 - i,
        {
            let x: i32 = (i % 16) as i32;
            let y: i32 = ((i / 16) % 16) as i32;
            let z: i32 = (i / 256) as i32;
            let dx: i32 = 2 * x - 15;
            let dy: i32 = 2 * y - 15;
            let dz: i32 = 2 * z - 15;
            proof {
                lemma_index_cell(i as int);
                assert(0 <= x < 16 && 0 <= y < 16 && 0 <= z < 16);
                assert(0 <= dx * dx <= 225 && 0 <= dy * dy <= 225 && 0 <= dz * dz <= 225) by (nonlinear_arith)
                    requires
                        -15 <= dx <= 15,
                        -15 <= dy <= 15,
                        -15 <= dz <= 15,
                {
                }
            }
            if dx * dx + dy * dy + dz * dz < 256 {
                self.blocks[i] = Block::STONE;
            }
            self.dirty = true;
            i += 1;
        }
        assert forall|x: int, y: int, z: int| in_subchunk(x, y, z) implies #[trigger] self.cell(
            x,
            y,
            z,
        ) == if in_sphere(x, y, z) {
            Block::STONE
        } else {
            before[cell_index(x, y, z)]
        } by {
            lemma_cell_index(x, y, z);
        }
    }

    /// Dresses each column of this subchunk on its own: the first stone
    /// under air turns to grass and up to two stone cells below it to dirt.
    pub fn add_dirt(&mut self)
        requires
            old(self).wf(),
        ensures
            final(self).wf(),
            forall|x: int, y: int, z: int|
                in_subchunk(x, y, z) ==> #[trigger] final(self).cell(x, y, z) == dressed(
                    old(self).column(x, z),
                    y,
                    2,
                ),
    {
        let ghost before = *self;
        let mut x: usize = 0;
        while x < 16
            invariant
                0 <= x <= 16,
                self.wf(),
                before.wf(),
                forall|cx: int, cy: int, cz: int|
                    in_subchunk(cx, cy, cz) ==> #[trigger] self.cell(cx, cy, cz) == if cx < x {
                        dressed(before.column(cx, cz), cy, 2)
                    } else {
                        before.cell(cx, cy, cz)
                    },
            decreases 16 - x,
        {
            let mut z: usize = 0;
            while z < 16
                invariant
                    0 <= x < 16,
                    0 <= z <= 16,
                    self.wf(),
                    before.wf(),
                    forall|cx: int, cy: int, cz: int|
                        in_subchunk(cx, cy, cz) ==> #[trigger] self.cell(cx, cy, cz) == if cx < x
                            || (cx == x && cz < z) {
                            dressed(before.column(cx, cz), cy, 2)
                        } else {
                            before.cell(cx, cy, cz)
                        },
                decreases 16 - z,
            {
                self.dress_column(x, z, 2, Ghost(before));
                z += 1;
            }
            x += 1;
        }
    }

    /// Dresses column `(x, z)`, walking down from the top with a count of
    /// the solid cells passed since the last air.
    fn dress_column(&mut self, x: usize, z: usize, max_dirt: u32, Ghost(before): Ghost<Subchunk>)
        requires
            old(self).wf(),
            before.wf(),
            x < 16,
            z < 16,
            forall|cx: int, cy: int, cz: int|
                in_subchunk(cx, cy, cz) && cx == x && cz == z ==> #[trigger] old(self).cell(cx, cy, cz)
                    == before.cell(cx, cy, cz),
        ensures
            final(self).wf(),
            forall|cx: int, cy: int, cz: int|
                in_subchunk(cx, cy, cz) ==> #[trigger] final(self).cell(cx, cy, cz) == if cx == x
                    && cz == z {
                    dressed(before.column(cx, cz), cy, max_dirt as nat)
                } else {
                    old(self).cell(cx, cy, cz)
                },
    {
        let ghost start = *self;
        let ghost col = before.column(x as int, z as int);
        let mut depth: u32 = 0;
        let mut y: usize = 16;
        while y > 0
            invariant
                0 <= y <= 16,
                x < 16,
                z < 16,
                self.wf(),
                col == before.column(x as int, z as int),
                depth == solid_run_above(col, y as int - 1),
                depth <= 16 - y,
                forall|cx: int, cy: int, cz: int|
                    in_subchunk(cx, cy, cz) && cx == x && cz == z ==> #[trigger] start.cell(
                        cx,
                        cy,
                        cz,
                    ) == before.cell(cx, cy, cz),
                forall|cx: int, cy: int, cz: int|
                    in_subchunk(cx, cy, cz) ==> #[trigger] self.cell(cx, cy, cz) == if cx == x && cz
                        == z && cy >= y {
                        dressed(col, cy, max_dirt as nat)
                    } else {
                        start.cell(cx, cy, cz)
                    },
            decreases y,
        {
            y -= 1;
            let b = self.block(x, y, z);
            proof {
                lemma_cell_index(x as int, y as int, z as int);
                assert(b == col[y as int]);
            }
            match b {
                Block::AIR => {
                    depth = 0;
                },
                Block::STONE => {
                    if depth == 0 {
                        self.set_block(x, y, z, Block::GRASS);
                    } else if depth <= max_dirt {
                        self.set_block(x, y, z, Block::DIRT);
                    }
                    depth += 1;
                },
                _ => {
                    depth += 1;
                },
            }
            proof {
                assert forall|cx: int, cy: int, cz: int| in_subchunk(cx, cy, cz) implies #[trigger] self.cell(
                    cx,
                    cy,
                    cz,
                ) == if cx == x && cz == z && cy >= y {
                    dressed(col, cy, max_dirt as nat)
                } else {
                    start.cell(cx, cy, cz)
                } by {
                    lemma_cell_index(cx, cy, cz);
                    lemma_cell_index(x as int, y as int, z as int);
                    if cell_index(cx, cy, cz) == cell_index(x as int, y as int, z as int) {
                        assert(cx == x && cy == y && cz == z);
                    }
                }
            }
        }
    }

    /// The cells of this subchunk inside `lo <= p < hi`, each with its
    /// block, in scan order (x, then y, then z).
    pub fn blocks_intersecting(&self, lo: BlockPos, hi: BlockPos) -> (r: Vec<(BlockPos, Block)>)
        requires
            self.wf(),
        ensures
            forall|i: int|
                0 <= i < r@.len() ==> in_box(#[trigger] r@[i].0, lo, hi) && in_subchunk(
                    r@[i].0.x as int,
                    r@[i].0.y as int,
                    r@[i].0.z as int,
                ) && r@[i].1 == self.cell(r@[i].0.x as int, r@[i].0.y as int, r@[i].0.z as int),
            forall|p: BlockPos|
                in_box(p, lo, hi) && in_subchunk(p.x as int, p.y as int, p.z as int) ==> exists|
                    i: int,
                | 0 <= i < r@.len() && #[trigger] r@[i].0 == p,
            forall|i: int, j: int| 0 <= i < j < r@.len() ==> scan_lt(r@[i].0, r@[j].0),
    {
        let x0 = clamp16(lo.x);
        let x1 = clamp16(hi.x);
        let y0 = clamp16(lo.y);
        let y1 = clamp16(hi.y);
        let z0 = clamp16(lo.z);
        let z1 = clamp16(hi.z);
        let mut r: Vec<(BlockPos, Block)> = Vec::new();
        let mut x = x0;
        while x < x1
            invariant
                0 <= x0 <= x <= 16,
                0 <= x1 <= 16,
                0 <= y0 <= 16,
                0 <= y1 <= 16,
                0 <= z0 <= 16,
                0 <= z1 <= 16,
                x0 == if lo.x < 0 { 0 } else if lo.x > 16 { 16 } else { lo.x as int },
                x1 == if hi.x < 0 { 0 } else if hi.x > 16 { 16 } else { hi.x as int },
                y0 == if lo.y < 0 { 0 } else if lo.y > 16 { 16 } else { lo.y as int },
                y1 == if hi.y < 0 { 0 } else if hi.y > 16 { 16 } else { hi.y as int },
                z0 == if lo.z < 0 { 0 } else if lo.z > 16 { 16 } else { lo.z as int },
                z1 == if hi.z < 0 { 0 } else if hi.z > 16 { 16 } else { hi.z as int },
                self.wf(),
                forall|i: int|
                    0 <= i < r@.len() ==> in_box(#[trigger] r@[i].0, lo, hi) && in_subchunk(
                        r@[i].0.x as int,
                        r@[i].0.y as int,
                        r@[i].0.z as int,
                    ) && r@[i].1 == self.cell(r@[i].0.x as int, r@[i].0.y as int, r@[i].0.z as int)
                        && r@[i].0.x < x,
                forall|p: BlockPos|
                    in_box(p, lo, hi) && in_subchunk(p.x as int, p.y as int, p.z as int) && p.x < x
                        ==> exists|i: int| 0 <= i < r@.len() && #[trigger] r@[i].0 == p,
                forall|i: int, j: int| 0 <= i < j < r@.len() ==> local_lt(r@[i].0, r@[j].0),
            decreases 16 - x,
        {
            let mut y = y0;
            while y < y1
                invariant
                    0 <= x0 <= x < x1 <= 16,
                    0 <= y0 <= y <= 16,
                    0 <= y1 <= 16,
                    0 <= z0 <= 16,
                    0 <= z1 <= 16,
                    x0 == if lo.x < 0 { 0 } else if lo.x > 16 { 16 } else { lo.x as int },
                    x1 == if hi.x < 0 { 0 } else if hi.x > 16 { 16 } else { hi.x as int },
                    y0 == if lo.y < 0 { 0 } else if lo.y > 16 { 16 } else { lo.y as int },
                    y1 == if hi.y < 0 { 0 } else if hi.y > 16 { 16 } else { hi.y as int },
                    z0 == if lo.z < 0 { 0 } else if lo.z > 16 { 16 } else { lo.z as int },
                    z1 == if hi.z < 0 { 0 } else if hi.z > 16 { 16 } else { hi.z as int },
                    self.wf(),
                    forall|i: int|
                        0 <= i < r@.len() ==> in_box(#[trigger] r@[i].0, lo, hi) && in_subchunk(
                            r@[i].0.x as int,
                            r@[i].0.y as int,
                            r@[i].0.z as int,
                        ) && r@[i].1 == self.cell(
                            r@[i].0.x as int,
                            r@[i].0.y as int,
                            r@[i].0.z as int,
                        ) && (r@[i].0.x < x || (r@[i].0.x == x && r@[i].0.y < y)),
                    forall|p: BlockPos|
                        in_box(p, lo, hi) && in_subchunk(p.x as int, p.y as int, p.z as int) && (p.x
                            < x || (p.x == x && p.y < y)) ==> exists|i: int|
                            0 <= i < r@.len() && #[trigger] r@[i].0 == p,
                    forall|i: int, j: int| 0 <= i < j < r@.len() ==> local_lt(r@[i].0, r@[j].0),
                decreases 16 - y,
            {
                let mut z = z0;
                while z < z1
                    invariant
                        0 <= x0 <= x < x1 <= 16,
                        0 <= y0 <= y < y1 <= 16,
                        0 <= z0 <= z <= 16,
                        0 <= z1 <= 16,
                        x0 == if lo.x < 0 { 0 } else if lo.x > 16 { 16 } else { lo.x as int },
                        x1 == if hi.x < 0 { 0 } else if hi.x > 16 { 16 } else { hi.x as int },
                        y0 == if lo.y < 0 { 0 } else if lo.y > 16 { 16 } else { lo.y as int },
                        y1 == if hi.y < 0 { 0 } else if hi.y > 16 { 16 } else { hi.y as int },
                        z0 == if lo.z < 0 { 0 } else if lo.z > 16 { 16 } else { lo.z as int },
                        z1 == if hi.z < 0 { 0 } else if hi.z > 16 { 16 } else { hi.z as int },
                        self.wf(),
                        forall|i: int|
                            0 <= i < r@.len() ==> in_box(#[trigger] r@[i].0, lo, hi) && in_subchunk(
                                r@[i].0.x as int,
                                r@[i].0.y as int,
                                r@[i].0.z as int,
                            ) && r@[i].1 == self.cell(
                                r@[i].0.x as int,
                                r@[i].0.y as int,
                                r@[i].0.z as int,
                            ) && local_lt(r@[i].0, BlockPos { x, y, z }),
                        forall|p: BlockPos|
                            in_box(p, lo, hi) && in_subchunk(p.x as int, p.y as int, p.z as int)
                                && local_lt(p, BlockPos { x, y, z }) ==> exists|i: int|
                                0 <= i < r@.len() && #[trigger] r@[i].0 == p,
                        forall|i: int, j: int| 0 <= i < j < r@.len() ==> local_lt(r@[i].0, r@[j].0),
                    decreases 16 - z,
                {
                    let p = BlockPos { x, y, z };
                    let b = self.block(x as usize, y as usize, z as usize);
                    let ghost old_r = r@;
                    r.push((p, b));
                    proof {
                        assert(r@[old_r.len() as int].0 == p);
                        assert forall|q: BlockPos|
                            in_box(q, lo, hi) && in_subchunk(q.x as int, q.y as int, q.z as int)
                                && local_lt(q, BlockPos { x, y, z: (z + 1) as i32 }) implies exists|i: int|
                            0 <= i < r@.len() && #[trigger] r@[i].0 == q by {
                            if q == p {
                                assert(r@[old_r.len() as int].0 == q);
                            } else {
                                assert(local_lt(q, p));
                                let i = choose|i: int| 0 <= i < old_r.len() && #[trigger] old_r[i].0 == q;
                                assert(r@[i].0 == q);
                            }
                        }
                    }
                    z += 1;
                }
                y += 1;
            }
            x += 1;
        }
        proof {
            assert forall|i: int, j: int| 0 <= i < j < r@.len() implies scan_lt(r@[i].0, r@[j].0) by {
                lemma_local_scan(r@[i].0, r@[j].0);
            }
        }
        r
    }
}

/// Lexicographic order on (x, y, z).
pub open spec fn local_lt(p: BlockPos, q: BlockPos) -> bool {
    p.x < q.x || (p.x == q.x && (p.y < q.y || (p.y == q.y && p.z < q.z)))
}

/// Within one subchunk, scan order is the lexicographic order.
pub proof fn lemma_local_scan(p: BlockPos, q: BlockPos)
    requires
        in_subchunk(p.x as int, p.y as int, p.z as int),
        in_subchunk(q.x as int, q.y as int, q.z as int),
        local_lt(p, q),
    ensures
        scan_lt(p, q),
{
}

fn clamp16(v: i32) -> (r: i32)
    ensures
        r == if v < 0 { 0 } else if v > 16 { 16 } else { v as int },
{
    if v < 0 {
        0
    } else if v > 16 {
        16
    } else {
        v
    }
}

} // verus!
