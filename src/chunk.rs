use vstd::prelude::*;

use crate::block::Block;
use crate::coords::{cell_index, in_box, in_subchunk, lemma_cell_index, scan_lt, BlockPos};
use crate::subchunk::{local_lt, Subchunk};

verus! {

/// Most subchunks a chunk can stack while its heights still fit in `i32`.
pub const MAX_SUBCHUNKS: usize = 0x800_0000;

/// A vertical column of subchunks; subchunk `i` covers heights
/// `16 * i .. 16 * i + 16`.
pub struct Chunk {
    pub subchunks: Vec<Subchunk>,
}

/// Local coordinates fit in a chunk whose column holds `n` subchunks.
pub open spec fn in_chunk(x: int, y: int, z: int, n: int) -> bool {
    0 <= x < 16 && 0 <= y < 16 * n && 0 <= z < 16
}

impl Chunk {
    pub open spec fn wf(&self) -> bool {
        &&& self.subchunks@.len() <= MAX_SUBCHUNKS
        &&& forall|i: int| 0 <= i < self.subchunks@.len() ==> (#[trigger] self.subchunks@[i]).wf()
    }

    /// Number of stacked subchunks.
    pub open spec fn height(&self) -> int {
        self.subchunks@.len() as int
    }

    /// The block at chunk-local `(x, y, z)`.
    pub open spec fn cell(&self, x: int, y: int, z: int) -> Block {
        self.subchunks@[y / 16].cell(x, y % 16, z)
    }

    /// The column at local `(x, z)`, bottom to top.
    pub open spec fn column(&self, x: int, z: int) -> Seq<Block> {
        Seq::new((16 * self.height()) as nat, |y: int| self.cell(x, y, z))
    }

    /// A chunk with no subchunks.
    pub fn new() -> (r: Chunk)
        ensures
            r.wf(),
            r.height() == 0,
    {
        Chunk { subchunks: Vec::new() }
    }

    /// The block at chunk-local `(x, y, z)`.
    pub fn block(&self, x: usize, y: usize, z: usize) -> (r: Block)
        requires
            self.wf(),
            in_chunk(x as int, y as int, z as int, self.height()),
        ensures
            r == self.cell(x as int, y as int, z as int),
    {
        let s = y / 16;
        self.subchunks[s].block(x, y % 16, z)
    }

    /// Writes the block at chunk-local `(x, y, z)` and marks its subchunk
    /// dirty.
    pub fn set_block(&mut self, x: usize, y: usize, z: usize, block: Block)
        requires
            old(self).wf(),
            in_chunk(x as int, y as int, z as int, old(self).height()),
        ensures
            final(self).wf(),
            final(self).height() == old(self).height(),
            final(self).subchunks@[y as int / 16].dirty(),
            final(self).subchunks@[y as int / 16]@ == old(self).subchunks@[y as int / 16]@.update(
                cell_index(x as int, y as int % 16, z as int),
                block,
            ),
            forall|i: int|
                0 <= i < old(self).height() && i != y as int / 16 ==> #[trigger] final(self).subchunks@[i]
                    == old(self).subchunks@[i],
            forall|cx: int, cy: int, cz: int|
                in_chunk(cx, cy, cz, old(self).height()) ==> #[trigger] final(self).cell(cx, cy, cz)
                    == if cx == x && cy == y && cz == z {
                    block
                } else {
                    old(self).cell(cx, cy, cz)
                },
    {
        let s = y / 16;
        self.subchunks[s].set_block(x, y % 16, z, block);
        proof {
            assert forall|cx: int, cy: int, cz: int|
                in_chunk(cx, cy, cz, old(self).height()) implies #[trigger] self.cell(cx, cy, cz)
                    == if cx == x && cy == y && cz == z {
                    block
                } else {
                    old(self).cell(cx, cy, cz)
                } by {
                lemma_cell_index(cx, cy % 16, cz);
                lemma_cell_index(x as int, y as int % 16, z as int);
                if cy / 16 == y as int / 16 && cy % 16 == y as int % 16 {
                    assert(cy == 16 * (cy / 16) + cy % 16);
                    assert(y as int == 16 * (y as int / 16) + y as int % 16);
                }
            }
        }
    }

    /// Stacks a subchunk on top of the column.
    pub fn push_subchunk(&mut self, subchunk: Subchunk)
        requires
            old(self).wf(),
            subchunk.wf(),
            old(self).height() < MAX_SUBCHUNKS,
        ensures
            final(self).wf(),
            final(self).subchunks@ == old(self).subchunks@.push(subchunk),
    {
        self.subchunks.push(subchunk);
    }

    /// The cells of this chunk inside `lo <= p < hi` (chunk-local
    /// coordinates), each with its block, in scan order: by subchunk, then
    /// by x, y and z.
    pub fn blocks_intersecting(&self, lo: BlockPos, hi: BlockPos) -> (r: Vec<(BlockPos, Block)>)
        requires
            self.wf(),
        ensures
            forall|i: int|
                0 <= i < r@.len() ==> in_box(#[trigger] r@[i].0, lo, hi) && in_chunk(
                    r@[i].0.x as int,
                    r@[i].0.y as int,
                    r@[i].0.z as int,
                    self.height(),
                ) && r@[i].1 == self.cell(r@[i].0.x as int, r@[i].0.y as int, r@[i].0.z as int),
            forall|p: BlockPos|
                in_box(p, lo, hi) && in_chunk(p.x as int, p.y as int, p.z as int, self.height())
                    ==> exists|i: int| 0 <= i < r@.len() && #[trigger] r@[i].0 == p,
            forall|i: int, j: int| 0 <= i < j < r@.len() ==> scan_lt(r@[i].0, r@[j].0),
    {
        let mut r: Vec<(BlockPos, Block)> = Vec::new();
        if hi.y <= lo.y {
            return r;
        }
        let first = crate::coords::div16(lo.y);
        let last = crate::coords::div16(hi.y - 1);
        let n = self.subchunks.len() as i32;
        let mut s: i32 = if first < 0 { 0 } else { first };
        while s <= last && s < n
            invariant
                self.wf(),
                n == self.height(),
                0 <= s,
                first == lo.y / 16,
                last == (hi.y - 1) / 16,
                lo.y < hi.y,
                16 * first <= lo.y,
                hi.y - 1 < 16 * last + 16,
                s == if first < 0 { 0 } else { first as int } || s <= last + 1,
                forall|i: int|
                    0 <= i < r@.len() ==> in_box(#[trigger] r@[i].0, lo, hi) && in_chunk(
                        r@[i].0.x as int,
                        r@[i].0.y as int,
                        r@[i].0.z as int,
                        self.height(),
                    ) && r@[i].1 == self.cell(
                        r@[i].0.x as int,
                        r@[i].0.y as int,
                        r@[i].0.z as int,
                    ) && r@[i].0.y < 16 * s,
                forall|p: BlockPos|
                    in_box(p, lo, hi) && in_chunk(p.x as int, p.y as int, p.z as int, self.height())
                        && p.y < 16 * s ==> exists|i: int| 0 <= i < r@.len() && #[trigger] r@[i].0 == p,
                forall|i: int, j: int| 0 <= i < j < r@.len() ==> scan_lt(r@[i].0, r@[j].0),
            decreases n - s,
        {
            let base: i32 = 16 * s;
            let sub_lo = BlockPos { x: lo.x, y: shift_down(lo.y, base), z: lo.z };
            let sub_hi = BlockPos { x: hi.x, y: shift_down(hi.y, base), z: hi.z };
            let found = self.subchunks[s as usize].blocks_intersecting(sub_lo, sub_hi);
            let ghost sub = self.subchunks@[s as int];
            let ghost prefix = r@;
            let mut k: usize = 0;
            while k < found.len()
                invariant
                    self.wf(),
                    n == self.height(),
                    0 <= s < n,
                    base == 16 * s,
                    sub == self.subchunks@[s as int],
                    sub.wf(),
                    sub_lo == (BlockPos { x: lo.x, y: sub_lo.y, z: lo.z }),
                    sub_hi == (BlockPos { x: hi.x, y: sub_hi.y, z: hi.z }),
                    sub_lo.y == clamp_shift(lo.y, s as int),
                    sub_hi.y == clamp_shift(hi.y, s as int),
                    0 <= k <= found@.len(),
                    r@.len() == prefix.len() + k,
                    forall|i: int| 0 <= i < prefix.len() ==> r@[i] == prefix[i],
                    forall|i: int|
                        0 <= i < prefix.len() ==> (#[trigger] prefix[i]).0.y < 16 * s,
                    forall|i: int|
                        0 <= i < k ==> r@[prefix.len() + i] == (
                            BlockPos {
                                x: found@[i].0.x,
                                y: (found@[i].0.y + base) as i32,
                                z: found@[i].0.z,
                            },
                            found@[i].1,
                        ),
                    forall|i: int|
                        0 <= i < found@.len() ==> in_box(#[trigger] found@[i].0, sub_lo, sub_hi)
                            && in_subchunk(
                            found@[i].0.x as int,
                            found@[i].0.y as int,
                            found@[i].0.z as int,
                        ) && found@[i].1 == sub.cell(
                            found@[i].0.x as int,
                            found@[i].0.y as int,
                            found@[i].0.z as int,
                        ),
                    forall|i: int, j: int|
                        0 <= i < j < found@.len() ==> scan_lt(found@[i].0, found@[j].0),
                    forall|i: int, j: int| 0 <= i < j < prefix.len() ==> scan_lt(prefix[i].0, prefix[j].0),
                decreases found@.len() - k,
            {
                let (p, b) = found[k];
                r.push((BlockPos { x: p.x, y: p.y + base, z: p.z }, b));
                k += 1;
            }
            proof {
                self.lemma_collect_subchunk(lo, hi, s as int, prefix, found@, r@);
            }
            s += 1;
        }
        proof {
            assert forall|p: BlockPos|
                in_box(p, lo, hi) && in_chunk(
                    p.x as int,
                    p.y as int,
                    p.z as int,
                    self.height(),
                ) implies exists|i: int| 0 <= i < r@.len() && #[trigger] r@[i].0 == p by {
                assert(p.y < 16 * s) by {
                    if s < n {
                        assert(s > last);
                        assert(p.y <= hi.y - 1);
                    }
                }
            }
        }
        r
    }

    /// What one step of the scan over subchunks adds keeps the loop's
    /// invariant: the cells of subchunk `s`, moved up to chunk heights, extend the list.
    proof fn lemma_collect_subchunk(
        &self,
        lo: BlockPos,
        hi: BlockPos,
        s: int,
        prefix: Seq<(BlockPos, Block)>,
        found: Seq<(BlockPos, Block)>,
        r: Seq<(BlockPos, Block)>,
    )
        requires
            self.wf(),
            0 <= s < self.height(),
            r.len() == prefix.len() + found.len(),
            forall|i: int| 0 <= i < prefix.len() ==> r[i] == prefix[i],
            forall|i: int|
                0 <= i < prefix.len() ==> in_box(#[trigger] prefix[i].0, lo, hi) && in_chunk(
                    prefix[i].0.x as int,
                    prefix[i].0.y as int,
                    prefix[i].0.z as int,
                    self.height(),
                ) && prefix[i].1 == self.cell(
                    prefix[i].0.x as int,
                    prefix[i].0.y as int,
                    prefix[i].0.z as int,
                ) && prefix[i].0.y < 16 * s,
            forall|p: BlockPos|
                in_box(p, lo, hi) && in_chunk(p.x as int, p.y as int, p.z as int, self.height())
                    && p.y < 16 * s ==> exists|i: int| 0 <= i < prefix.len() && #[trigger] prefix[i].0 == p,
            forall|i: int, j: int| 0 <= i < j < prefix.len() ==> scan_lt(prefix[i].0, prefix[j].0),
            forall|i: int|
                0 <= i < found.len() ==> r[prefix.len() + i] == (
                    BlockPos { x: found[i].0.x, y: (found[i].0.y + 16 * s) as i32, z: found[i].0.z },
                    found[i].1,
                ),
            forall|i: int|
                0 <= i < found.len() ==> in_box(
                    #[trigger] found[i].0,
                    BlockPos { x: lo.x, y: clamp_shift(lo.y, s), z: lo.z },
                    BlockPos { x: hi.x, y: clamp_shift(hi.y, s), z: hi.z },
                ) && in_subchunk(found[i].0.x as int, found[i].0.y as int, found[i].0.z as int)
                    && found[i].1 == self.subchunks@[s].cell(
                    found[i].0.x as int,
                    found[i].0.y as int,
                    found[i].0.z as int,
                ),
            forall|p: BlockPos|
                in_box(
                    p,
                    BlockPos { x: lo.x, y: clamp_shift(lo.y, s), z: lo.z },
                    BlockPos { x: hi.x, y: clamp_shift(hi.y, s), z: hi.z },
                ) && in_subchunk(p.x as int, p.y as int, p.z as int) ==> exists|i: int|
                    0 <= i < found.len() && #[trigger] found[i].0 == p,
            forall|i: int, j: int| 0 <= i < j < found.len() ==> scan_lt(found[i].0, found[j].0),
        ensures
            forall|i: int|
                0 <= i < r.len() ==> in_box(#[trigger] r[i].0, lo, hi) && in_chunk(
                    r[i].0.x as int,
                    r[i].0.y as int,
                    r[i].0.z as int,
                    self.height(),
                ) && r[i].1 == self.cell(r[i].0.x as int, r[i].0.y as int, r[i].0.z as int) && r[i].0.y
                    < 16 * (s + 1),
            forall|p: BlockPos|
                in_box(p, lo, hi) && in_chunk(p.x as int, p.y as int, p.z as int, self.height())
                    && p.y < 16 * (s + 1) ==> exists|i: int| 0 <= i < r.len() && #[trigger] r[i].0 == p,
            forall|i: int, j: int| 0 <= i < j < r.len() ==> scan_lt(r[i].0, r[j].0),
    {
        let n = prefix.len();
        let slo = BlockPos { x: lo.x, y: clamp_shift(lo.y, s), z: lo.z };
        let shi = BlockPos { x: hi.x, y: clamp_shift(hi.y, s), z: hi.z };
        assert forall|i: int| 0 <= i < found.len() implies {
            let q = (#[trigger] found[i]).0;
            let p = r[n + i].0;
            &&& in_box(p, lo, hi)
            &&& in_chunk(p.x as int, p.y as int, p.z as int, self.height())
            &&& r[n + i].1 == self.cell(p.x as int, p.y as int, p.z as int)
            &&& p.y < 16 * (s + 1)
            &&& p.y >= 16 * s
            &&& p.y / 16 == s
            &&& p.y % 16 == q.y
            &&& p.x == q.x && p.z == q.z
        } by {
            let q = found[i].0;
            let p = r[n + i].0;
            lemma_shift(q.y as int, s);
        }
        assert forall|i: int| 0 <= i < r.len() implies in_box(#[trigger] r[i].0, lo, hi) && in_chunk(
            r[i].0.x as int,
            r[i].0.y as int,
            r[i].0.z as int,
            self.height(),
        ) && r[i].1 == self.cell(r[i].0.x as int, r[i].0.y as int, r[i].0.z as int) && r[i].0.y < 16
            * (s + 1) by {
            if i >= n {
                assert(in_subchunk(found[i - n].0.x as int, found[i - n].0.y as int, found[i - n].0.z as int));
            }
        }
        assert forall|p: BlockPos|
            in_box(p, lo, hi) && in_chunk(p.x as int, p.y as int, p.z as int, self.height()) && p.y
                < 16 * (s + 1) implies exists|i: int| 0 <= i < r.len() && #[trigger] r[i].0 == p by {
            if p.y < 16 * s {
                let i = choose|i: int| 0 <= i < n && #[trigger] prefix[i].0 == p;
                assert(r[i].0 == p);
            } else {
                let q = BlockPos { x: p.x, y: (p.y - 16 * s) as i32, z: p.z };
                assert(in_box(q, slo, shi));
                let j = choose|j: int| 0 <= j < found.len() && #[trigger] found[j].0 == q;
                assert(r[n + j].0 == p);
            }
        }
        assert forall|i: int, j: int| 0 <= i < j < r.len() implies scan_lt(r[i].0, r[j].0) by {
            if j >= n {
                let fj = found[j - n];
                if i >= n {
                    let fi = found[i - n];
                    assert(scan_lt(fi.0, fj.0));
                    assert(local_lt(fi.0, fj.0));
                } else {
                    assert(prefix[i].0.y < 16 * s);
                    assert(r[j].0.y / 16 == s);
                }
            }
        }
    }
}

/// `v - base`, kept within `-1 ..= 17`: a subchunk clamps its query to
/// `0 ..= 16` anyway, and the clamp keeps the difference in range.
fn shift_down(v: i32, base: i32) -> (r: i32)
    requires
        0 <= base,
    ensures
        r == if v - base < -1 { -1 } else if v - base > 17 { 17 } else { v - base },
{
    let d: i64 = v as i64 - base as i64;
    if d < -1 {
        -1
    } else if d > 17 {
        17
    } else {
        d as i32
    }
}

pub open spec fn clamp_shift(v: i32, s: int) -> i32 {
    if v - 16 * s < -1 {
        -1i32
    } else if v - 16 * s > 17 {
        17i32
    } else {
        (v - 16 * s) as i32
    }
}

proof fn lemma_shift(y: int, s: int)
    requires
        0 <= y < 16,
    ensures
        (y + 16 * s) / 16 == s,
        (y + 16 * s) % 16 == y,
{
    assert((y + 16 * s) / 16 == s && (y + 16 * s) % 16 == y) by (nonlinear_arith)
        requires
            0 <= y < 16,
    {
    }
}

} // verus!
