use vstd::prelude::*;

use crate::block::Block;
use crate::chunk::{in_chunk, Chunk};
use crate::coords::{in_box, locate, location_of, scan_lt, BlockPos};
use crate::subchunk::Subchunk;

verus! {

/// Chunks farther than this from the centre, in chunk widths, are evicted;
/// chunks within this many chunk widths on each axis are generated.
pub const RENDER_DISTANCE: i32 = 4;

/// A chunk column's coordinates.
pub type ChunkKey = (i32, i32);

/// The order of chunk keys: by x, then by z.
pub open spec fn key_lt(a: ChunkKey, b: ChunkKey) -> bool {
    a.0 < b.0 || (a.0 == b.0 && a.1 < b.1)
}

/// Entries strictly increasing by key.
pub open spec fn sorted_keys(e: Seq<(ChunkKey, Chunk)>) -> bool {
    forall|i: int, j: int| 0 <= i < j < e.len() ==> key_lt(e[i].0, e[j].0)
}

/// Some entry has key `k`.
pub open spec fn has_key(e: Seq<(ChunkKey, Chunk)>, k: ChunkKey) -> bool {
    exists|i: int| 0 <= i < e.len() && (#[trigger] e[i]).0 == k
}

/// The map that a list of entries with distinct keys stands for.
pub open spec fn entries_map(e: Seq<(ChunkKey, Chunk)>) -> Map<ChunkKey, Chunk> {
    Map::new(
        |k: ChunkKey| has_key(e, k),
        |k: ChunkKey| e[choose|i: int| 0 <= i < e.len() && (#[trigger] e[i]).0 == k].1,
    )
}

/// The chunk column that holds world block `p`.
pub open spec fn chunk_key_of(p: BlockPos) -> ChunkKey {
    (location_of(p).chunk_x, location_of(p).chunk_z)
}

/// The block at world position `p`: air where its chunk or subchunk is
/// not loaded.
pub open spec fn block_at(m: Map<ChunkKey, Chunk>, p: BlockPos) -> Block {
    let k = chunk_key_of(p);
    if is_loaded(m, p) {
        m[k].cell(p.x as int % 16, p.y as int, p.z as int % 16)
    } else {
        Block::AIR
    }
}

/// The chunk and the subchunk that hold world block `p` are loaded.
pub open spec fn is_loaded(m: Map<ChunkKey, Chunk>, p: BlockPos) -> bool {
    let k = chunk_key_of(p);
    m.contains_key(k) && 0 <= p.y && p.y / 16 < m[k].height()
}

/// A sparse map from chunk keys to chunks, kept as a list of entries
/// sorted by key: lookups are binary searches, and rectangle scans jump
/// from row to row by binary search, both in key order.
///
/// The entries live in a sorted `Vec` rather than a `BTreeMap` because
/// vstd specifies neither `BTreeMap::get_mut`, which writing a block into a
/// loaded chunk needs, nor `BTreeMap::range`, which the rectangle scan
/// needs; over a `Vec` both are proved here.
pub struct Terrain {
    chunks: Vec<(ChunkKey, Chunk)>,
}

impl View for Terrain {
    type V = Map<ChunkKey, Chunk>;

    open spec fn view(&self) -> Map<ChunkKey, Chunk> {
        entries_map(self.entries())
    }
}

impl Terrain {
    /// The loaded chunks in key order.
    pub closed spec fn entries(&self) -> Seq<(ChunkKey, Chunk)> {
        self.chunks@
    }

    pub open spec fn wf(&self) -> bool {
        &&& sorted_keys(self.entries())
        &&& forall|i: int| 0 <= i < self.entries().len() ==> (#[trigger] self.entries()[i]).1.wf()
    }

    pub fn new() -> (r: Terrain)
        ensures
            r.wf(),
            r@ == Map::<ChunkKey, Chunk>::empty(),
    {
        let r = Terrain { chunks: Vec::new() };
        assert(r@ =~= Map::<ChunkKey, Chunk>::empty());
        r
    }

    /// Number of loaded chunks.
    pub fn len(&self) -> (r: usize)
        requires
            self.wf(),
        ensures
            r == self@.len(),
    {
        proof {
            lemma_map_facts(self.entries());
            lemma_map_len(self.entries());
        }
        self.chunks.len()
    }

    /// The keys of the loaded chunks, in key order.
    pub fn keys(&self) -> (r: Vec<ChunkKey>)
        requires
            self.wf(),
        ensures
            r@.len() == self@.len(),
            forall|i: int, j: int| 0 <= i < j < r@.len() ==> key_lt(r@[i], r@[j]),
            forall|k: ChunkKey| self@.contains_key(k) <==> r@.contains(k),
    {
        proof {
            lemma_map_facts(self.entries());
            lemma_map_len(self.entries());
        }
        let mut r: Vec<ChunkKey> = Vec::new();
        let mut i: usize = 0;
        while i < self.chunks.len()
            invariant
                self.wf(),
                i <= self.entries().len(),
                r@.len() == i,
                forall|j: int| 0 <= j < i ==> r@[j] == (#[trigger] self.entries()[j]).0,
            decreases self.entries().len() - i,
        {
            r.push(self.chunks[i].0);
            i += 1;
        }
        proof {
            assert forall|i: int, j: int| 0 <= i < j < r@.len() implies key_lt(r@[i], r@[j]) by {
                assert(r@[i] == self.entries()[i].0);
                assert(r@[j] == self.entries()[j].0);
            }
            assert forall|k: ChunkKey| self@.contains_key(k) <==> r@.contains(k) by {
                if self@.contains_key(k) {
                    let j = choose|j: int| 0 <= j < self.entries().len() && (#[trigger] self.entries()[j]).0 == k;
                    assert(r@[j] == k);
                }
                if r@.contains(k) {
                    let j = choose|j: int| 0 <= j < r@.len() && r@[j] == k;
                    assert(self.entries()[j].0 == k);
                }
            }
        }
        r
    }

    /// The first index whose key is not below `k`, found by binary search.
    fn lower_bound(&self, k: ChunkKey) -> (r: usize)
        requires
            self.wf(),
        ensures
            r <= self.entries().len(),
            forall|j: int| 0 <= j < r ==> key_lt((#[trigger] self.entries()[j]).0, k),
            forall|j: int| r <= j < self.entries().len() ==> !key_lt((#[trigger] self.entries()[j]).0, k),
    {
        let mut lo: usize = 0;
        let mut hi: usize = self.chunks.len();
        while lo < hi
            invariant
                self.wf(),
                lo <= hi <= self.entries().len(),
                forall|j: int| 0 <= j < lo ==> key_lt((#[trigger] self.entries()[j]).0, k),
                forall|j: int| hi <= j < self.entries().len() ==> !key_lt((#[trigger] self.entries()[j]).0, k),
            decreases hi - lo,
        {
            let mid = lo + (hi - lo) / 2;
            if key_less(self.chunks[mid].0, k) {
                proof {
                    assert forall|j: int| 0 <= j < mid + 1 implies key_lt((#[trigger] self.entries()[j]).0, k) by {
                        if j < mid {
                            assert(key_lt(self.entries()[j].0, self.entries()[mid as int].0));
                        }
                    }
                }
                lo = mid + 1;
            } else {
                proof {
                    assert forall|j: int| mid <= j < self.entries().len() implies !key_lt((#[trigger] self.entries()[j]).0, k) by {
                        if j > mid {
                            assert(key_lt(self.entries()[mid as int].0, self.entries()[j].0));
                        }
                    }
                }
                hi = mid;
            }
        }
        lo
    }

    /// The index of the entry with key `k`, if one is loaded.
    fn find(&self, k: ChunkKey) -> (r: Option<usize>)
        requires
            self.wf(),
        ensures
            r is Some ==> r.unwrap() < self.entries().len() && self.entries()[r.unwrap() as int].0 == k,
            r is None ==> !has_key(self.entries(), k),
    {
        let i = self.lower_bound(k);
        if i < self.chunks.len() {
            let key = self.chunks[i].0;
            if key.0 == k.0 && key.1 == k.1 {
                return Some(i);
            }
            proof {
                assert forall|j: int| 0 <= j < self.entries().len() implies (#[trigger] self.entries()[j]).0 != k by {
                    if j > i {
                        assert(key_lt(self.entries()[i as int].0, self.entries()[j].0));
                    }
                }
            }
        }
        None
    }

    /// Whether chunk `k` is loaded.
    pub fn contains(&self, k: ChunkKey) -> (r: bool)
        requires
            self.wf(),
        ensures
            r == self@.contains_key(k),
    {
        self.find(k).is_some()
    }

    /// The loaded chunk at `k`, if any.
    pub fn chunk(&self, k: ChunkKey) -> (r: Option<&Chunk>)
        requires
            self.wf(),
        ensures
            r is Some == self@.contains_key(k),
            r is Some ==> *r.unwrap() == self@[k] && r.unwrap().wf(),
    {
        proof {
            lemma_map_facts(self.entries());
        }
        match self.find(k) {
            Some(i) => Some(&self.chunks[i].1),
            None => None,
        }
    }

    /// The block at world position `p`, or air where its chunk or its
    /// subchunk is not loaded.
    pub fn block(&self, p: BlockPos) -> (r: Block)
        requires
            self.wf(),
        ensures
            r == block_at(self@, p),
    {
        proof {
            lemma_map_facts(self.entries());
        }
        let l = locate(p);
        match self.find((l.chunk_x, l.chunk_z)) {
            Some(i) => {
                let chunk = &self.chunks[i].1;
                if l.subchunk_y >= 0 && (l.subchunk_y as usize) < chunk.subchunks.len() {
                    chunk.subchunks[l.subchunk_y as usize].block(
                        l.local_x as usize,
                        l.local_y as usize,
                        l.local_z as usize,
                    )
                } else {
                    Block::AIR
                }
            },
            None => Block::AIR,
        }
    }

    /// Writes the block at world position `p` and marks its subchunk dirty;
    /// does nothing where the chunk or the subchunk is not loaded.
    pub fn set_block(&mut self, p: BlockPos, block: Block)
        requires
            old(self).wf(),
        ensures
            final(self).wf(),
            final(self)@.dom() == old(self)@.dom(),
            forall|k: ChunkKey|
                old(self)@.contains_key(k) ==> (#[trigger] final(self)@[k]).height() == old(
                    self,
                )@[k].height(),
            forall|k: ChunkKey|
                old(self)@.contains_key(k) && k != chunk_key_of(p) ==> #[trigger] final(self)@[k]
                    == old(self)@[k],
            forall|q: BlockPos|
                #[trigger] block_at(final(self)@, q) == if q == p && is_loaded(old(self)@, p) {
                    block
                } else {
                    block_at(old(self)@, q)
                },
            is_loaded(old(self)@, p) ==> final(self)@[chunk_key_of(p)].subchunks@[p.y / 16].dirty(),
            is_loaded(old(self)@, p) ==> forall|t: int|
                0 <= t < old(self)@[chunk_key_of(p)].height() && t != p.y / 16
                    ==> #[trigger] final(self)@[chunk_key_of(p)].subchunks@[t] == old(
                    self,
                )@[chunk_key_of(p)].subchunks@[t],
            !is_loaded(old(self)@, p) ==> final(self)@ == old(self)@,
    {
        proof {
            lemma_map_facts(self.entries());
        }
        let l = locate(p);
        let found = self.find((l.chunk_x, l.chunk_z));
        if let Some(i) = found {
            if l.subchunk_y >= 0 && (l.subchunk_y as usize) < self.chunks[i].1.subchunks.len() {
                let ghost before = self.entries();
                let y: usize = (16 * l.subchunk_y + l.local_y) as usize;
                proof {
                    crate::coords::lemma_location_round_trip(p);
                }
                self.chunks[i].1.set_block(l.local_x as usize, y, l.local_z as usize, block);
                proof {
                    lemma_map_facts(self.entries());
                    lemma_same_keys(before, self.entries());
                    let m0 = entries_map(before);
                    let m1 = entries_map(self.entries());
                    assert(m1.dom() =~= m0.dom());
                    let key = (l.chunk_x, l.chunk_z);
                    assert(m0[key] == before[i as int].1);
                    assert(m1[key] == self.entries()[i as int].1);
                    assert(y as int / 16 == p.y / 16);
                    assert forall|k: ChunkKey|
                        m0.contains_key(k) && k != key implies #[trigger] m1[k] == m0[k] by {
                        let j = choose|j: int| 0 <= j < before.len() && (#[trigger] before[j]).0 == k;
                        assert(self.entries()[j].0 == k);
                    }
                    assert forall|q: BlockPos| #[trigger] block_at(m1, q) == if q == p && is_loaded(m0, p) {
                        block
                    } else {
                        block_at(m0, q)
                    } by {
                        crate::coords::lemma_location_round_trip(q);
                        crate::coords::lemma_location_round_trip(p);
                        if chunk_key_of(q) == key && is_loaded(m0, q) {
                            assert(in_chunk(q.x as int % 16, q.y as int, q.z as int % 16, m0[key].height()));
                            if q.x % 16 == p.x % 16 && q.y == p.y && q.z % 16 == p.z % 16 {
                                assert(q == p);
                            }
                        }
                    }
                }
            }
        }
    }

    /// Whether the subchunk at subchunk coordinates `s` (chunk x, index in
    /// the column, chunk z) is loaded.
    pub fn subchunk_exists(&self, s: BlockPos) -> (r: bool)
        requires
            self.wf(),
        ensures
            r == (self@.contains_key((s.x, s.z)) && 0 <= s.y < self@[(s.x, s.z)].height()),
    {
        proof {
            lemma_map_facts(self.entries());
        }
        match self.find((s.x, s.z)) {
            Some(i) => s.y >= 0 && (s.y as usize) < self.chunks[i].1.subchunks.len(),
            None => false,
        }
    }

    /// The subchunk at subchunk coordinates `s`, if loaded.
    pub fn subchunk(&self, s: BlockPos) -> (r: Option<&Subchunk>)
        requires
            self.wf(),
        ensures
            r is Some == (self@.contains_key((s.x, s.z)) && 0 <= s.y < self@[(s.x, s.z)].height()),
            r is Some ==> *r.unwrap() == self@[(s.x, s.z)].subchunks@[s.y as int] && r.unwrap().wf(),
    {
        proof {
            lemma_map_facts(self.entries());
        }
        match self.find((s.x, s.z)) {
            Some(i) => {
                if s.y >= 0 && (s.y as usize) < self.chunks[i].1.subchunks.len() {
                    Some(&self.chunks[i].1.subchunks[s.y as usize])
                } else {
                    None
                }
            },
            None => None,
        }
    }
}

impl Terrain {
    /// Loads `chunk` at `k`, which must not be loaded yet.
    pub fn insert_chunk(&mut self, k: ChunkKey, chunk: Chunk)
        requires
            old(self).wf(),
            chunk.wf(),
            !old(self)@.contains_key(k),
        ensures
            final(self).wf(),
            final(self)@ == old(self)@.insert(k, chunk),
    {
        proof {
            lemma_map_facts(self.entries());
        }
        let pos = self.lower_bound(k);
        proof {
            if pos < self.entries().len() {
                assert(self@.contains_key(self.entries()[pos as int].0));
            }
        }
        let ghost before = self.entries();
        self.chunks.insert(pos, (k, chunk));
        proof {
            lemma_insert_entry(before, pos as int, k, chunk);
        }
    }

    /// Evicts the first loaded chunk, in key order, that is out of render
    /// distance of `c`; returns its key.
    pub fn evict_far(&mut self, c: ChunkKey) -> (r: Option<ChunkKey>)
        requires
            old(self).wf(),
        ensures
            final(self).wf(),
            r == first_far(old(self)@.dom(), c),
            r is None ==> final(self)@ == old(self)@,
            r is Some ==> final(self)@ == old(self)@.remove(r.unwrap()),
    {
        proof {
            lemma_map_facts(self.entries());
        }
        let ghost before = self.entries();
        let ghost m0 = self@;
        let mut i: usize = 0;
        while i < self.chunks.len()
            invariant
                self.wf(),
                self.entries() == before,
                m0 == entries_map(before),
                m0 == old(self)@,
                i <= before.len(),
                forall|j: int| 0 <= j < i ==> !is_far((#[trigger] before[j]).0, c),
            decreases before.len() - i,
        {
            let key = self.chunks[i].0;
            if far(key, c) {
                self.chunks.remove(i);
                proof {
                    assert(is_first_far(m0.dom(), c, key)) by {
                        assert forall|k2: ChunkKey|
                            #[trigger] m0.dom().contains(k2) && is_far(k2, c) && k2 != key implies key_lt(
                            key,
                            k2,
                        ) by {
                            let j = choose|j: int| 0 <= j < before.len() && (#[trigger] before[j]).0 == k2;
                            assert(j > i);
                        }
                    }
                    lemma_first_far_unique(m0.dom(), c, key);
                    lemma_remove_entry(before, i as int);
                }
                return Some(key);
            }
            i += 1;
        }
        proof {
            assert forall|k: ChunkKey| !is_first_far(m0.dom(), c, k) by {
                if is_first_far(m0.dom(), c, k) {
                    let j = choose|j: int| 0 <= j < before.len() && (#[trigger] before[j]).0 == k;
                }
            }
        }
        None
    }

    /// One streaming step around world position `center`: generates, with
    /// `make`, the nearest missing chunk of the square within render
    /// distance on each axis (the first in key order among equally near
    /// ones), then evicts the first loaded chunk, in key order, that lies
    /// out of render distance. Each half does at most one chunk's work.
    pub fn generate<F: Fn(i32, i32) -> Chunk>(&mut self, center: BlockPos, make: F)
        requires
            old(self).wf(),
            forall|x: i32, z: i32| make.requires((x, z)),
            forall|x: i32, z: i32, ch: Chunk| make.ensures((x, z), ch) ==> ch.wf(),
        ensures
            final(self).wf(),
            final(self)@.dom() == streamed(old(self)@.dom(), chunk_key_of(center)),
            forall|k: ChunkKey|
                final(self)@.contains_key(k) && old(self)@.contains_key(k)
                    ==> #[trigger] final(self)@[k] == old(self)@[k],
            forall|k: ChunkKey|
                final(self)@.contains_key(k) && !old(self)@.contains_key(k) ==> make.ensures(
                    (k.0, k.1),
                    #[trigger] final(self)@[k],
                ),
    {
        let ghost m0 = self@;
        let cx = crate::coords::div16(center.x);
        let cz = crate::coords::div16(center.z);
        let ghost c: ChunkKey = (cx, cz);
        let mut best: Option<ChunkKey> = None;
        let mut best_d: i32 = 0;
        let mut xo: i32 = -RENDER_DISTANCE;
        while xo <= RENDER_DISTANCE
            invariant
                self.wf(),
                self@ == m0,
                c == (cx, cz),
                -2 * 0x800_0000 <= cx < 2 * 0x800_0000,
                -2 * 0x800_0000 <= cz < 2 * 0x800_0000,
                -RENDER_DISTANCE <= xo <= RENDER_DISTANCE + 1,
                best_fits(best, best_d, m0.dom(), c, xo as int, -RENDER_DISTANCE as int),
            decreases RENDER_DISTANCE + 1 - xo,
        {
            let mut zo: i32 = -RENDER_DISTANCE;
            while zo <= RENDER_DISTANCE
                invariant
                    self.wf(),
                    self@ == m0,
                    c == (cx, cz),
                    -2 * 0x800_0000 <= cx < 2 * 0x800_0000,
                    -2 * 0x800_0000 <= cz < 2 * 0x800_0000,
                    -RENDER_DISTANCE <= xo <= RENDER_DISTANCE,
                    -RENDER_DISTANCE <= zo <= RENDER_DISTANCE + 1,
                    best_fits(best, best_d, m0.dom(), c, xo as int, zo as int),
                decreases RENDER_DISTANCE + 1 - zo,
            {
                let ghost (b0, d0) = (best, best_d);
                let k: ChunkKey = (cx + xo, cz + zo);
                proof {
                    assert(0 <= xo * xo <= 16 && 0 <= zo * zo <= 16) by (nonlinear_arith)
                        requires
                            -4 <= xo <= 4,
                            -4 <= zo <= 4,
                    ;
                }
                if !self.contains(k) {
                    let d: i32 = xo * xo + zo * zo;
                    let better = match best {
                        None => true,
                        Some(_) => d < best_d,
                    };
                    if better {
                        best = Some(k);
                        best_d = d;
                    }
                }
                proof {
                    lemma_best_step(b0, d0, best, best_d, m0.dom(), c, xo as int, zo as int);
                }
                zo += 1;
            }
            proof {
                lemma_best_row(best, best_d, m0.dom(), c, xo as int);
            }
            xo += 1;
        }
        proof {
            lemma_best_done(best, best_d, m0.dom(), c);
        }
        if let Some(k) = best {
            let chunk = make(k.0, k.1);
            self.insert_chunk(k, chunk);
            proof {
                assert(self@ =~= m0.insert(k, chunk));
                assert forall|k2: ChunkKey| self@.contains_key(k2) && !m0.contains_key(k2) implies make.ensures(
                    (k2.0, k2.1),
                    #[trigger] self@[k2],
                ) by {
                    assert(k2 == k);
                }
            }
        }
        let ghost m1 = self@;
        let evicted = self.evict_far((cx, cz));
        proof {
            assert(chunk_key_of(center) == c);
            assert(m1.dom() =~= with_next(m0.dom(), c));
            if evicted is Some {
                assert(self@.dom() =~= m1.dom().remove(evicted.unwrap()));
            }
        }
    }
}

/// Part of the square around `c` already scanned: rows before `xo`, and
/// row `xo` before `zo` (offsets from `c`).
spec fn scanned(c: ChunkKey, xo: int, zo: int, k: ChunkKey) -> bool {
    k.0 < c.0 + xo || (k.0 == c.0 + xo && k.1 < c.1 + zo)
}

/// `best` is the choice of generation among the scanned part of the
/// square, and `best_d` its squared distance.
spec fn best_fits(
    best: Option<ChunkKey>,
    best_d: i32,
    dom: Set<ChunkKey>,
    c: ChunkKey,
    xo: int,
    zo: int,
) -> bool {
    match best {
        None => forall|k: ChunkKey|
            #[trigger] in_square(k, c) && scanned(c, xo, zo, k) ==> dom.contains(k),
        Some(b) => {
            &&& in_square(b, c)
            &&& scanned(c, xo, zo, b)
            &&& !dom.contains(b)
            &&& best_d == dist2(b, c)
            &&& forall|k: ChunkKey|
                #[trigger] in_square(k, c) && scanned(c, xo, zo, k) && !dom.contains(k) && k != b
                    ==> gen_before(b, k, c)
        },
    }
}

proof fn lemma_best_step(
    b0: Option<ChunkKey>,
    d0: i32,
    best: Option<ChunkKey>,
    best_d: i32,
    dom: Set<ChunkKey>,
    c: ChunkKey,
    xo: int,
    zo: int,
)
    requires
        -RENDER_DISTANCE <= xo <= RENDER_DISTANCE,
        -RENDER_DISTANCE <= zo <= RENDER_DISTANCE,
        c.0 + xo <= i32::MAX,
        c.1 + zo <= i32::MAX,
        c.0 + xo >= i32::MIN,
        c.1 + zo >= i32::MIN,
        best_fits(b0, d0, dom, c, xo, zo),
        ({
            let k: ChunkKey = ((c.0 + xo) as i32, (c.1 + zo) as i32);
            let d = xo * xo + zo * zo;
            if dom.contains(k) {
                best == b0 && best_d == d0
            } else if b0 is None || d < d0 {
                best == Some(k) && best_d == d
            } else {
                best == b0 && best_d == d0
            }
        }),
    ensures
        best_fits(best, best_d, dom, c, xo, zo + 1),
{
    let k: ChunkKey = ((c.0 + xo) as i32, (c.1 + zo) as i32);
    assert(dist2(k, c) == xo * xo + zo * zo);
    assert(in_square(k, c));
    match best {
        None => {
            assert forall|k2: ChunkKey| #[trigger] in_square(k2, c) && scanned(c, xo, zo + 1, k2) implies dom.contains(k2) by {
                if k2 != k {
                    assert(scanned(c, xo, zo, k2));
                }
            }
        },
        Some(b) => {
            assert forall|k2: ChunkKey|
                #[trigger] in_square(k2, c) && scanned(c, xo, zo + 1, k2) && !dom.contains(k2) && k2
                    != b implies gen_before(b, k2, c) by {
                if k2 != k {
                    assert(scanned(c, xo, zo, k2));
                    if b == k {
                        if let Some(b_old) = b0 {
                            if k2 != b_old {
                                assert(gen_before(b_old, k2, c));
                            }
                        }
                    }
                } else {
                    assert(scanned(c, xo, zo, b));
                    assert(key_lt(b, k));
                }
            }
        },
    }
}

proof fn lemma_best_row(best: Option<ChunkKey>, best_d: i32, dom: Set<ChunkKey>, c: ChunkKey, xo: int)
    requires
        best_fits(best, best_d, dom, c, xo, RENDER_DISTANCE + 1),
    ensures
        best_fits(best, best_d, dom, c, xo + 1, -RENDER_DISTANCE as int),
{
    match best {
        None => {
            assert forall|k: ChunkKey| #[trigger] in_square(k, c) && scanned(c, xo + 1, -RENDER_DISTANCE as int, k) implies dom.contains(k) by {
                assert(scanned(c, xo, RENDER_DISTANCE + 1, k));
            }
        },
        Some(b) => {
            assert forall|k: ChunkKey|
                #[trigger] in_square(k, c) && scanned(c, xo + 1, -RENDER_DISTANCE as int, k) && !dom.contains(k) && k
                    != b implies gen_before(b, k, c) by {
                assert(scanned(c, xo, RENDER_DISTANCE + 1, k));
            }
        },
    }
}

proof fn lemma_best_done(best: Option<ChunkKey>, best_d: i32, dom: Set<ChunkKey>, c: ChunkKey)
    requires
        best_fits(best, best_d, dom, c, RENDER_DISTANCE + 1, -RENDER_DISTANCE as int),
    ensures
        best == next_chunk(dom, c),
{
    match best {
        None => {
            assert forall|k: ChunkKey| !is_next_chunk(dom, c, k) by {
                if is_next_chunk(dom, c, k) {
                    assert(scanned(c, RENDER_DISTANCE + 1, -RENDER_DISTANCE as int, k));
                }
            }
        },
        Some(b) => {
            assert forall|k: ChunkKey| #[trigger] in_square(k, c) && !dom.contains(k) && k != b implies gen_before(b, k, c) by {
                assert(scanned(c, RENDER_DISTANCE + 1, -RENDER_DISTANCE as int, k));
            }
            lemma_next_unique(dom, c, b);
        },
    }
}

/// Generation's choice is unique.
proof fn lemma_next_unique(dom: Set<ChunkKey>, c: ChunkKey, k: ChunkKey)
    requires
        is_next_chunk(dom, c, k),
    ensures
        next_chunk(dom, c) == Some(k),
{
    let k2 = choose|k2: ChunkKey| is_next_chunk(dom, c, k2);
    if k2 != k {
        assert(gen_before(k, k2, c));
        assert(gen_before(k2, k, c));
    }
}

/// Eviction's choice is unique.
proof fn lemma_first_far_unique(dom: Set<ChunkKey>, c: ChunkKey, k: ChunkKey)
    requires
        is_first_far(dom, c, k),
    ensures
        first_far(dom, c) == Some(k),
{
    let k2 = choose|k2: ChunkKey| is_first_far(dom, c, k2);
    if k2 != k {
        assert(key_lt(k, k2));
        assert(key_lt(k2, k));
    }
}

fn key_less(a: ChunkKey, b: ChunkKey) -> (r: bool)
    ensures
        r == key_lt(a, b),
{
    a.0 < b.0 || (a.0 == b.0 && a.1 < b.1)
}

/// Inserting an entry at the place that keeps keys sorted inserts into
/// the map.
proof fn lemma_insert_entry(before: Seq<(ChunkKey, Chunk)>, pos: int, k: ChunkKey, chunk: Chunk)
    requires
        sorted_keys(before),
        forall|i: int| 0 <= i < before.len() ==> (#[trigger] before[i]).1.wf(),
        chunk.wf(),
        0 <= pos <= before.len(),
        forall|j: int| 0 <= j < pos ==> key_lt((#[trigger] before[j]).0, k),
        pos < before.len() ==> key_lt(k, before[pos].0),
    ensures
        ({
            let after = before.insert(pos, (k, chunk));
            &&& sorted_keys(after)
            &&& forall|i: int| 0 <= i < after.len() ==> (#[trigger] after[i]).1.wf()
            &&& entries_map(after) == entries_map(before).insert(k, chunk)
        }),
{
    let after = before.insert(pos, (k, chunk));
    lemma_map_facts(before);
    assert forall|j: int| pos < j < after.len() implies key_lt(k, (#[trigger] after[j]).0) by {
        assert(after[j] == before[j - 1]);
        if j - 1 > pos {
            assert(key_lt(before[pos].0, before[j - 1].0));
        }
    }
    assert(sorted_keys(after)) by {
        assert forall|i: int, j: int| 0 <= i < j < after.len() implies key_lt(after[i].0, after[j].0) by {
            if j < pos {
            } else if j == pos {
            } else if i < pos {
                assert(key_lt(after[i].0, k));
                assert(key_lt(k, after[j].0));
            } else if i == pos {
            } else {
                assert(after[i] == before[i - 1]);
                assert(after[j] == before[j - 1]);
            }
        }
    }
    assert forall|i: int| 0 <= i < after.len() implies (#[trigger] after[i]).1.wf() by {
        if i > pos {
            assert(after[i] == before[i - 1]);
        }
    }
    lemma_map_facts(after);
    let m0 = entries_map(before);
    let m1 = entries_map(after);
    assert forall|k2: ChunkKey| has_key(after, k2) <==> has_key(before, k2) || k2 == k by {
        if has_key(after, k2) {
            let j = choose|j: int| 0 <= j < after.len() && (#[trigger] after[j]).0 == k2;
            if j < pos {
                assert(before[j].0 == k2);
            } else if j > pos {
                assert(before[j - 1].0 == k2);
            }
        }
        if has_key(before, k2) {
            let j = choose|j: int| 0 <= j < before.len() && (#[trigger] before[j]).0 == k2;
            if j < pos {
                assert(after[j].0 == k2);
            } else {
                assert(after[j + 1].0 == k2);
            }
        }
        if k2 == k {
            assert(after[pos].0 == k2);
        }
    }
    assert forall|k2: ChunkKey| #[trigger] m1.contains_key(k2) implies m1[k2] == m0.insert(k, chunk)[k2] by {
        let j = choose|j: int| 0 <= j < after.len() && (#[trigger] after[j]).0 == k2;
        if j < pos {
            assert(before[j] == after[j]);
            assert(k2 != k);
        } else if j > pos {
            assert(before[j - 1] == after[j]);
            assert(k2 != k);
        }
    }
    assert(m1 =~= m0.insert(k, chunk));
}

/// Removing an entry removes its key from the map.
proof fn lemma_remove_entry(before: Seq<(ChunkKey, Chunk)>, i: int)
    requires
        sorted_keys(before),
        forall|a: int| 0 <= a < before.len() ==> (#[trigger] before[a]).1.wf(),
        0 <= i < before.len(),
    ensures
        ({
            let after = before.remove(i);
            &&& sorted_keys(after)
            &&& forall|a: int| 0 <= a < after.len() ==> (#[trigger] after[a]).1.wf()
            &&& entries_map(after) == entries_map(before).remove(before[i].0)
        }),
{
    let after = before.remove(i);
    let key = before[i].0;
    lemma_map_facts(before);
    assert(sorted_keys(after)) by {
        assert forall|a: int, b: int| 0 <= a < b < after.len() implies key_lt(after[a].0, after[b].0) by {
            let a0 = if a < i { a } else { a + 1 };
            let b0 = if b < i { b } else { b + 1 };
            assert(after[a] == before[a0]);
            assert(after[b] == before[b0]);
        }
    }
    assert forall|a: int| 0 <= a < after.len() implies (#[trigger] after[a]).1.wf() by {
        let a0 = if a < i { a } else { a + 1 };
        assert(after[a] == before[a0]);
    }
    lemma_map_facts(after);
    let m0 = entries_map(before);
    let m1 = entries_map(after);
    assert forall|k2: ChunkKey| has_key(after, k2) <==> has_key(before, k2) && k2 != key by {
        if has_key(after, k2) {
            let j = choose|j: int| 0 <= j < after.len() && (#[trigger] after[j]).0 == k2;
            let j0 = if j < i { j } else { j + 1 };
            assert(before[j0].0 == k2);
            if j0 < i {
                assert(key_lt(before[j0].0, before[i].0));
            } else {
                assert(key_lt(before[i].0, before[j0].0));
            }
        }
        if has_key(before, k2) && k2 != key {
            let j = choose|j: int| 0 <= j < before.len() && (#[trigger] before[j]).0 == k2;
            if j < i {
                assert(after[j].0 == k2);
            } else {
                assert(j != i);
                assert(after[j - 1].0 == k2);
            }
        }
    }
    assert forall|k2: ChunkKey| #[trigger] m1.contains_key(k2) implies m1[k2] == m0.remove(key)[k2] by {
        let j = choose|j: int| 0 <= j < after.len() && (#[trigger] after[j]).0 == k2;
        let j0 = if j < i { j } else { j + 1 };
        assert(before[j0] == after[j]);
    }
    assert(m1 =~= m0.remove(key));
}

/// A streaming step adds at most one chunk: every key it adds is the one
/// that generation picks.
pub proof fn lemma_streaming_adds_at_most_one(dom: Set<ChunkKey>, c: ChunkKey)
    ensures
        forall|k: ChunkKey|
            #[trigger] streamed(dom, c).contains(k) && !dom.contains(k) ==> next_chunk(dom, c) == Some(
                k,
            ),
{
}

/// A streaming step never evicts a chunk within render distance.
pub proof fn lemma_streaming_keeps_near(dom: Set<ChunkKey>, c: ChunkKey)
    ensures
        forall|k: ChunkKey| #[trigger] dom.contains(k) && !is_far(k, c) ==> streamed(dom, c).contains(k),
{
    let d = with_next(dom, c);
    if let Some(e) = first_far(d, c) {
        let e2 = choose|k: ChunkKey| is_first_far(d, c, k);
        assert(is_first_far(d, c, e2));
    }
}

/// Streaming around a fixed centre from a state with nothing out of
/// render distance (the empty terrain, say) keeps nothing out of render
/// distance.
pub proof fn lemma_streaming_stays_near(dom: Set<ChunkKey>, c: ChunkKey)
    requires
        forall|k: ChunkKey| #[trigger] dom.contains(k) ==> !is_far(k, c),
    ensures
        forall|k: ChunkKey| #[trigger] streamed(dom, c).contains(k) ==> !is_far(k, c),
{
    lemma_streaming_step_cases(dom, c);
}

/// Once every chunk within render distance of a fixed centre is loaded and
/// nothing else is, a streaming step leaves the loaded keys as they are.
pub proof fn lemma_streaming_settles(dom: Set<ChunkKey>, c: ChunkKey)
    requires
        forall|k: ChunkKey| !is_far(k, c) ==> #[trigger] dom.contains(k),
        forall|k: ChunkKey| #[trigger] dom.contains(k) ==> !is_far(k, c),
    ensures
        streamed(dom, c) == dom,
{
    lemma_streaming_step_cases(dom, c);
    if let Some(k) = next_chunk(dom, c) {
        let k2 = choose|k2: ChunkKey| is_next_chunk(dom, c, k2);
        assert(is_next_chunk(dom, c, k2));
        assert(is_far(k, c));
        assert(streamed(dom, c) =~= dom);
    } else {
        assert(streamed(dom, c) =~= dom);
    }
}

/// From a state with nothing out of range, a step keeps the generated
/// chunk exactly when it is within range.
proof fn lemma_streaming_step_cases(dom: Set<ChunkKey>, c: ChunkKey)
    requires
        forall|k: ChunkKey| #[trigger] dom.contains(k) ==> !is_far(k, c),
    ensures
        next_chunk(dom, c) is None ==> streamed(dom, c) == dom,
        next_chunk(dom, c) is Some && is_far(next_chunk(dom, c).unwrap(), c) ==> streamed(dom, c)
            == dom.insert(next_chunk(dom, c).unwrap()).remove(next_chunk(dom, c).unwrap()),
        next_chunk(dom, c) is Some && !is_far(next_chunk(dom, c).unwrap(), c) ==> streamed(dom, c)
            == dom.insert(next_chunk(dom, c).unwrap()),
{
    let d = with_next(dom, c);
    match next_chunk(dom, c) {
        None => {
            assert forall|k: ChunkKey| !is_first_far(d, c, k) by {
            }
        },
        Some(g) => {
            if is_far(g, c) {
                assert(is_first_far(d, c, g));
                lemma_first_far_unique(d, c, g);
            } else {
                assert forall|k: ChunkKey| !is_first_far(d, c, k) by {
                }
            }
        },
    }
}

/// Out of render distance, computed without overflow.
fn far(k: ChunkKey, c: ChunkKey) -> (r: bool)
    ensures
        r == is_far(k, c),
{
    let dx: i64 = k.0 as i64 - c.0 as i64;
    let dz: i64 = k.1 as i64 - c.1 as i64;
    let r = RENDER_DISTANCE as i64;
    if dx < -r || dx > r || dz < -r || dz > r {
        assert(dx * dx + dz * dz > 16) by (nonlinear_arith)
            requires
                dx < -4 || dx > 4 || dz < -4 || dz > 4,
        ;
        true
    } else {
        assert(dx * dx <= 16 && dz * dz <= 16 && dx * dx >= 0 && dz * dz >= 0) by (nonlinear_arith)
            requires
                -4 <= dx <= 4,
                -4 <= dz <= 4,
        ;
        dx * dx + dz * dz > r * r
    }
}

impl Terrain {
    /// The loaded cells inside `lo <= p < hi` (world coordinates), each
    /// with its block, in scan order: by chunk column in key order, then
    /// by subchunk, then by x, y and z within the subchunk.
    pub fn blocks_intersecting(&self, lo: BlockPos, hi: BlockPos) -> (r: Vec<(BlockPos, Block)>)
        requires
            self.wf(),
        ensures
            forall|i: int|
                0 <= i < r@.len() ==> in_box(#[trigger] r@[i].0, lo, hi) && is_loaded(self@, r@[i].0)
                    && r@[i].1 == block_at(self@, r@[i].0),
            forall|p: BlockPos|
                in_box(p, lo, hi) && is_loaded(self@, p) ==> exists|i: int|
                    0 <= i < r@.len() && #[trigger] r@[i].0 == p,
            forall|i: int, j: int| 0 <= i < j < r@.len() ==> scan_lt(r@[i].0, r@[j].0),
    {
        let mut r: Vec<(BlockPos, Block)> = Vec::new();
        if hi.x <= lo.x || hi.z <= lo.z {
            return r;
        }
        proof {
            lemma_map_facts(self.entries());
        }
        let x0 = crate::coords::div16(lo.x);
        let x1 = crate::coords::div16(hi.x - 1);
        let z0 = crate::coords::div16(lo.z);
        let z1 = crate::coords::div16(hi.z - 1);
        let ghost m = self@;
        let ghost e = self.entries();
        let mut i = self.lower_bound((x0, z0));
        proof {
            assert forall|t: int| 0 <= t < i implies !in_rect((#[trigger] e[t]).0, lo, hi) by {
                assert(key_lt(e[t].0, (x0, z0)));
            }
            lemma_skip_range(m, e, 0, i as int, lo, hi, r@);
        }
        while i < self.chunks.len() && self.chunks[i].0.0 <= x1
            invariant
                self.wf(),
                m == self@,
                e == self.entries(),
                i <= e.len(),
                lo.x < hi.x,
                lo.z < hi.z,
                x0 == lo.x / 16,
                x1 == (hi.x - 1) / 16,
                z0 == lo.z / 16,
                z1 == (hi.z - 1) / 16,
                16 * x1 <= hi.x - 1,
                forall|t: int| i <= t < e.len() ==> !key_lt((#[trigger] e[t]).0, (x0, z0)),
                forall|a: int|
                    0 <= a < r@.len() ==> in_box(#[trigger] r@[a].0, lo, hi) && is_loaded(m, r@[a].0)
                        && r@[a].1 == block_at(m, r@[a].0) && key_before(e, i as int, chunk_key_of(r@[a].0)),
                forall|p: BlockPos|
                    in_box(p, lo, hi) && is_loaded(m, p) && key_before(e, i as int, chunk_key_of(p))
                        ==> exists|a: int| 0 <= a < r@.len() && #[trigger] r@[a].0 == p,
                forall|a: int, b: int| 0 <= a < b < r@.len() ==> scan_lt(r@[a].0, r@[b].0),
            decreases e.len() - i,
        {
            let key = self.chunks[i].0;
            let ghost prefix = r@;
            if key.1 < z0 {
                let j = self.lower_bound((key.0, z0));
                proof {
                    assert(j > i);
                    assert forall|t: int| i <= t < j implies !in_rect((#[trigger] e[t]).0, lo, hi) by {
                        if t > i {
                            assert(key_lt(e[i as int].0, e[t].0));
                        }
                        assert(key_lt(e[t].0, (key.0, z0)));
                    }
                    lemma_skip_range(m, e, i as int, j as int, lo, hi, r@);
                    assert forall|t: int| j <= t < e.len() implies !key_lt((#[trigger] e[t]).0, (x0, z0)) by {
                        assert(!key_lt(e[t].0, (key.0, z0)));
                    }
                }
                i = j;
            } else if key.1 > z1 {
                let j = self.lower_bound((key.0 + 1, z0));
                proof {
                    assert(j > i);
                    assert forall|t: int| i <= t < j implies !in_rect((#[trigger] e[t]).0, lo, hi) by {
                        if t > i {
                            assert(key_lt(e[i as int].0, e[t].0));
                        }
                        assert(key_lt(e[t].0, ((key.0 + 1) as i32, z0)));
                    }
                    lemma_skip_range(m, e, i as int, j as int, lo, hi, r@);
                    assert forall|t: int| j <= t < e.len() implies !key_lt((#[trigger] e[t]).0, (x0, z0)) by {
                        assert(!key_lt(e[t].0, ((key.0 + 1) as i32, z0)));
                    }
                }
                i = j;
            } else {
                let chunk = &self.chunks[i].1;
                let base_x: i64 = 16 * key.0 as i64;
                let base_z: i64 = 16 * key.1 as i64;
                let local_lo = BlockPos { x: clamp_local(lo.x, base_x), y: lo.y, z: clamp_local(lo.z, base_z) };
                let local_hi = BlockPos { x: clamp_local(hi.x, base_x), y: hi.y, z: clamp_local(hi.z, base_z) };
                let found = chunk.blocks_intersecting(local_lo, local_hi);
                let mut k: usize = 0;
                while k < found.len()
                    invariant
                        self.wf(),
                        e == self.entries(),
                        i < e.len(),
                        key == e[i as int].0,
                        base_x == 16 * key.0,
                        base_z == 16 * key.1,
                        x0 <= key.0 <= x1,
                        z0 <= key.1 <= z1,
                        lo.x < hi.x,
                        lo.z < hi.z,
                        16 * x0 <= lo.x,
                        hi.x - 1 < 16 * x1 + 16,
                        16 * z0 <= lo.z,
                        hi.z - 1 < 16 * z1 + 16,
                        local_lo == (BlockPos { x: local_lo.x, y: lo.y, z: local_lo.z }),
                        local_hi == (BlockPos { x: local_hi.x, y: hi.y, z: local_hi.z }),
                        local_lo.x == clamp_spec(lo.x, base_x as int),
                        local_hi.x == clamp_spec(hi.x, base_x as int),
                        local_lo.z == clamp_spec(lo.z, base_z as int),
                        local_hi.z == clamp_spec(hi.z, base_z as int),
                        0 <= k <= found@.len(),
                        r@.len() == prefix.len() + k,
                        forall|a: int| 0 <= a < prefix.len() ==> r@[a] == prefix[a],
                        forall|a: int|
                            0 <= a < k ==> r@[prefix.len() + a] == (
                                BlockPos {
                                    x: (found@[a].0.x + base_x) as i32,
                                    y: found@[a].0.y,
                                    z: (found@[a].0.z + base_z) as i32,
                                },
                                found@[a].1,
                            ),
                        forall|a: int|
                            0 <= a < found@.len() ==> in_box(#[trigger] found@[a].0, local_lo, local_hi)
                                && in_chunk(
                                found@[a].0.x as int,
                                found@[a].0.y as int,
                                found@[a].0.z as int,
                                e[i as int].1.height(),
                            ),
                    decreases found@.len() - k,
                {
                    let (q, b) = found[k];
                    let px: i64 = q.x as i64 + base_x;
                    let pz: i64 = q.z as i64 + base_z;
                    r.push((BlockPos { x: px as i32, y: q.y, z: pz as i32 }, b));
                    k += 1;
                }
                proof {
                    lemma_collect_chunk(m, e, i as int, lo, hi, prefix, found@, r@);
                }
                i += 1;
            }
        }
        proof {
            assert forall|p: BlockPos| in_box(p, lo, hi) && is_loaded(m, p) implies exists|a: int|
                0 <= a < r@.len() && #[trigger] r@[a].0 == p by {
                let j = choose|j: int| 0 <= j < e.len() && (#[trigger] e[j]).0 == chunk_key_of(p);
                lemma_key_in_rect(p, lo, hi);
                if j >= i {
                    if j > i {
                        assert(key_lt(e[i as int].0, e[j].0));
                    }
                }
                assert(key_before(e, i as int, chunk_key_of(p)));
            }
        }
        r
    }
}

/// Chunk key `k` belongs to one of the first `i` entries.
pub open spec fn key_before(e: Seq<(ChunkKey, Chunk)>, i: int, k: ChunkKey) -> bool {
    exists|j: int| 0 <= j < i && (#[trigger] e[j]).0 == k
}

/// `v - base`, kept within `-1 ..= 17`.
pub open spec fn clamp_spec(v: i32, base: int) -> i32 {
    if v - base < -1 {
        -1i32
    } else if v - base > 17 {
        17i32
    } else {
        (v - base) as i32
    }
}

/// Chunk-local coordinates, kept within `-1 ..= 17`: a chunk only holds
/// `0 .. 16` on x and z, and the clamp keeps the difference in range.
fn clamp_local(v: i32, base: i64) -> (r: i32)
    requires
        -0x10_0000_0000 <= base <= 0x10_0000_0000,
    ensures
        r == clamp_spec(v, base as int),
{
    let d: i64 = v as i64 - base;
    if d < -1 {
        -1
    } else if d > 17 {
        17
    } else {
        d as i32
    }
}

/// Chunk key `k` lies in the rectangle of chunk columns that the box
/// `lo <= p < hi` touches.
pub open spec fn in_rect(k: ChunkKey, lo: BlockPos, hi: BlockPos) -> bool {
    lo.x / 16 <= k.0 <= (hi.x - 1) / 16 && lo.z / 16 <= k.1 <= (hi.z - 1) / 16
}

/// Entries `from .. to`, whose keys lie outside the rectangle, contribute
/// no cell: the scan may pass over them.
proof fn lemma_skip_range(
    m: Map<ChunkKey, Chunk>,
    e: Seq<(ChunkKey, Chunk)>,
    from: int,
    to: int,
    lo: BlockPos,
    hi: BlockPos,
    r: Seq<(BlockPos, Block)>,
)
    requires
        sorted_keys(e),
        m == entries_map(e),
        0 <= from <= to <= e.len(),
        lo.x < hi.x,
        lo.z < hi.z,
        forall|t: int| from <= t < to ==> !in_rect((#[trigger] e[t]).0, lo, hi),
        forall|a: int|
            0 <= a < r.len() ==> in_box(#[trigger] r[a].0, lo, hi) && is_loaded(m, r[a].0) && r[a].1
                == block_at(m, r[a].0) && key_before(e, from, chunk_key_of(r[a].0)),
        forall|p: BlockPos|
            in_box(p, lo, hi) && is_loaded(m, p) && key_before(e, from, chunk_key_of(p)) ==> exists|a: int|
                0 <= a < r.len() && #[trigger] r[a].0 == p,
    ensures
        forall|a: int|
            0 <= a < r.len() ==> in_box(#[trigger] r[a].0, lo, hi) && is_loaded(m, r[a].0) && r[a].1
                == block_at(m, r[a].0) && key_before(e, to, chunk_key_of(r[a].0)),
        forall|p: BlockPos|
            in_box(p, lo, hi) && is_loaded(m, p) && key_before(e, to, chunk_key_of(p)) ==> exists|a: int|
                0 <= a < r.len() && #[trigger] r[a].0 == p,
{
    assert forall|a: int| 0 <= a < r.len() implies key_before(e, to, chunk_key_of(#[trigger] r[a].0)) by {
        let j = choose|j: int| 0 <= j < from && (#[trigger] e[j]).0 == chunk_key_of(r[a].0);
        assert(e[j].0 == chunk_key_of(r[a].0));
    }
    assert forall|p: BlockPos|
        in_box(p, lo, hi) && is_loaded(m, p) && key_before(e, to, chunk_key_of(p)) implies exists|a: int|
            0 <= a < r.len() && #[trigger] r[a].0 == p by {
        let j = choose|j: int| 0 <= j < to && (#[trigger] e[j]).0 == chunk_key_of(p);
        lemma_key_in_rect(p, lo, hi);
        if j >= from {
            assert(!in_rect(e[j].0, lo, hi));
        }
        assert(key_before(e, from, chunk_key_of(p)));
    }
}

/// A position in the box lies in a chunk column of the rectangle.
proof fn lemma_key_in_rect(p: BlockPos, lo: BlockPos, hi: BlockPos)
    requires
        in_box(p, lo, hi),
    ensures
        in_rect(chunk_key_of(p), lo, hi),
{
    lemma_div_monotone(lo.x as int, p.x as int);
    lemma_div_monotone(p.x as int, hi.x - 1);
    lemma_div_monotone(lo.z as int, p.z as int);
    lemma_div_monotone(p.z as int, hi.z - 1);
}

proof fn lemma_div_monotone(a: int, b: int)
    requires
        a <= b,
    ensures
        a / 16 <= b / 16,
{
    vstd::arithmetic::div_mod::lemma_div_is_ordered(a, b, 16);
}

/// What the cells of entry `i`, moved to world coordinates, add keeps the
/// scan's invariant.
proof fn lemma_collect_chunk(
    m: Map<ChunkKey, Chunk>,
    e: Seq<(ChunkKey, Chunk)>,
    i: int,
    lo: BlockPos,
    hi: BlockPos,
    prefix: Seq<(BlockPos, Block)>,
    found: Seq<(BlockPos, Block)>,
    r: Seq<(BlockPos, Block)>,
)
    requires
        sorted_keys(e),
        forall|a: int| 0 <= a < e.len() ==> (#[trigger] e[a]).1.wf(),
        m == entries_map(e),
        0 <= i < e.len(),
        lo.x < hi.x,
        lo.z < hi.z,
        lo.x / 16 <= e[i].0.0 <= (hi.x - 1) / 16,
        lo.z / 16 <= e[i].0.1 <= (hi.z - 1) / 16,
        forall|a: int|
            0 <= a < prefix.len() ==> in_box(#[trigger] prefix[a].0, lo, hi) && is_loaded(m, prefix[a].0)
                && prefix[a].1 == block_at(m, prefix[a].0) && key_before(e, i, chunk_key_of(prefix[a].0)),
        forall|p: BlockPos|
            in_box(p, lo, hi) && is_loaded(m, p) && key_before(e, i, chunk_key_of(p)) ==> exists|a: int|
                0 <= a < prefix.len() && #[trigger] prefix[a].0 == p,
        forall|a: int, b: int| 0 <= a < b < prefix.len() ==> scan_lt(prefix[a].0, prefix[b].0),
        r.len() == prefix.len() + found.len(),
        forall|a: int| 0 <= a < prefix.len() ==> r[a] == prefix[a],
        forall|a: int|
            0 <= a < found.len() ==> r[prefix.len() + a] == (
                BlockPos {
                    x: (found[a].0.x + 16 * e[i].0.0) as i32,
                    y: found[a].0.y,
                    z: (found[a].0.z + 16 * e[i].0.1) as i32,
                },
                found[a].1,
            ),
        ({
            let llo = BlockPos {
                x: clamp_spec(lo.x, 16 * e[i].0.0),
                y: lo.y,
                z: clamp_spec(lo.z, 16 * e[i].0.1),
            };
            let lhi = BlockPos {
                x: clamp_spec(hi.x, 16 * e[i].0.0),
                y: hi.y,
                z: clamp_spec(hi.z, 16 * e[i].0.1),
            };
            &&& forall|a: int|
                0 <= a < found.len() ==> in_box(#[trigger] found[a].0, llo, lhi) && in_chunk(
                    found[a].0.x as int,
                    found[a].0.y as int,
                    found[a].0.z as int,
                    e[i].1.height(),
                ) && found[a].1 == e[i].1.cell(
                    found[a].0.x as int,
                    found[a].0.y as int,
                    found[a].0.z as int,
                )
            &&& forall|q: BlockPos|
                in_box(q, llo, lhi) && in_chunk(q.x as int, q.y as int, q.z as int, e[i].1.height())
                    ==> exists|a: int| 0 <= a < found.len() && #[trigger] found[a].0 == q
            &&& forall|a: int, b: int| 0 <= a < b < found.len() ==> scan_lt(found[a].0, found[b].0)
        }),
    ensures
        forall|a: int|
            0 <= a < r.len() ==> in_box(#[trigger] r[a].0, lo, hi) && is_loaded(m, r[a].0) && r[a].1
                == block_at(m, r[a].0) && key_before(e, i + 1, chunk_key_of(r[a].0)),
        forall|p: BlockPos|
            in_box(p, lo, hi) && is_loaded(m, p) && key_before(e, i + 1, chunk_key_of(p)) ==> exists|a: int|
                0 <= a < r.len() && #[trigger] r[a].0 == p,
        forall|a: int, b: int| 0 <= a < b < r.len() ==> scan_lt(r[a].0, r[b].0),
{
    let n = prefix.len();
    let key = e[i].0;
    let ch = e[i].1;
    let llo = BlockPos { x: clamp_spec(lo.x, 16 * key.0), y: lo.y, z: clamp_spec(lo.z, 16 * key.1) };
    let lhi = BlockPos { x: clamp_spec(hi.x, 16 * key.0), y: hi.y, z: clamp_spec(hi.z, 16 * key.1) };
    lemma_map_facts(e);
    assert(m[key] == ch);
    assert forall|a: int| 0 <= a < found.len() implies {
        let q = (#[trigger] found[a]).0;
        let p = r[n + a].0;
        &&& p.x == q.x + 16 * key.0
        &&& p.z == q.z + 16 * key.1
        &&& p.y == q.y
        &&& chunk_key_of(p) == key
        &&& p.x % 16 == q.x
        &&& p.z % 16 == q.z
        &&& in_box(p, lo, hi)
        &&& is_loaded(m, p)
        &&& r[n + a].1 == block_at(m, p)
    } by {
        let q = found[a].0;
        lemma_local_shift(q.x as int, key.0 as int);
        lemma_local_shift(q.z as int, key.1 as int);
    }
    assert forall|a: int| 0 <= a < r.len() implies in_box(#[trigger] r[a].0, lo, hi) && is_loaded(
        m,
        r[a].0,
    ) && r[a].1 == block_at(m, r[a].0) && key_before(e, i + 1, chunk_key_of(r[a].0)) by {
        if a < n {
            let j = choose|j: int| 0 <= j < i && (#[trigger] e[j]).0 == chunk_key_of(prefix[a].0);
            assert(e[j].0 == chunk_key_of(r[a].0));
        } else {
            assert(in_chunk(found[a - n].0.x as int, found[a - n].0.y as int, found[a - n].0.z as int, ch.height()));
            assert(e[i].0 == chunk_key_of(r[a].0));
        }
    }
    assert forall|p: BlockPos|
        in_box(p, lo, hi) && is_loaded(m, p) && key_before(e, i + 1, chunk_key_of(p)) implies exists|a: int|
            0 <= a < r.len() && #[trigger] r[a].0 == p by {
        let j = choose|j: int| 0 <= j < i + 1 && (#[trigger] e[j]).0 == chunk_key_of(p);
        if j < i {
            assert(key_before(e, i, chunk_key_of(p)));
            let a = choose|a: int| 0 <= a < n && #[trigger] prefix[a].0 == p;
            assert(r[a].0 == p);
        } else {
            crate::coords::lemma_location_round_trip(p);
            let q = BlockPos { x: (p.x % 16) as i32, y: p.y, z: (p.z % 16) as i32 };
            assert(in_box(q, llo, lhi));
            assert(in_chunk(q.x as int, q.y as int, q.z as int, ch.height()));
            let a = choose|a: int| 0 <= a < found.len() && #[trigger] found[a].0 == q;
            lemma_local_shift(q.x as int, key.0 as int);
            lemma_local_shift(q.z as int, key.1 as int);
            assert(r[n + a].0 == p);
        }
    }
    assert forall|a: int, b: int| 0 <= a < b < r.len() implies scan_lt(r[a].0, r[b].0) by {
        if b >= n {
            let fb = found[b - n].0;
            lemma_local_shift(fb.x as int, key.0 as int);
            lemma_local_shift(fb.z as int, key.1 as int);
            if a >= n {
                let fa = found[a - n].0;
                lemma_local_shift(fa.x as int, key.0 as int);
                lemma_local_shift(fa.z as int, key.1 as int);
                assert(scan_lt(fa, fb));
                assert(fa.x / 16 == 0 && fa.z / 16 == 0 && fb.x / 16 == 0 && fb.z / 16 == 0);
                assert(fa.x % 16 == fa.x && fa.z % 16 == fa.z && fb.x % 16 == fb.x && fb.z % 16 == fb.z);
            } else {
                let j = choose|j: int| 0 <= j < i && (#[trigger] e[j]).0 == chunk_key_of(prefix[a].0);
                assert(key_lt(e[j].0, e[i].0));
            }
        }
    }
}

/// Moving a chunk-local coordinate into chunk `k` of the world.
proof fn lemma_local_shift(v: int, k: int)
    requires
        0 <= v < 16,
    ensures
        (v + 16 * k) / 16 == k,
        (v + 16 * k) % 16 == v,
{
    assert((v + 16 * k) / 16 == k && (v + 16 * k) % 16 == v) by (nonlinear_arith)
        requires
            0 <= v < 16,
    {
    }
}

impl Terrain {
    /// The coordinates (chunk x, index in the column, chunk z) of every
    /// loaded subchunk whose dirty flag is set, in key order and bottom to
    /// top within a chunk.
    pub fn dirty_subchunks(&self) -> (r: Vec<BlockPos>)
        requires
            self.wf(),
        ensures
            forall|i: int|
                0 <= i < r@.len() ==> is_dirty_subchunk(self@, #[trigger] r@[i]),
            forall|s: BlockPos|
                is_dirty_subchunk(self@, s) ==> exists|i: int| 0 <= i < r@.len() && #[trigger] r@[i] == s,
            forall|i: int, j: int| 0 <= i < j < r@.len() ==> subchunk_lt(r@[i], r@[j]),
    {
        proof {
            lemma_map_facts(self.entries());
        }
        let ghost m = self@;
        let ghost e = self.entries();
        let mut r: Vec<BlockPos> = Vec::new();
        let mut i: usize = 0;
        while i < self.chunks.len()
            invariant
                self.wf(),
                m == self@,
                e == self.entries(),
                i <= e.len(),
                forall|a: int| 0 <= a < r@.len() ==> is_dirty_subchunk(m, #[trigger] r@[a]),
                forall|s: BlockPos|
                    is_dirty_subchunk(m, s) && key_before(e, i as int, (s.x, s.z)) ==> exists|a: int|
                        0 <= a < r@.len() && #[trigger] r@[a] == s,
                forall|a: int| 0 <= a < r@.len() ==> key_before(e, i as int, (#[trigger] r@[a].x, r@[a].z)),
                forall|a: int, b: int| 0 <= a < b < r@.len() ==> subchunk_lt(r@[a], r@[b]),
            decreases e.len() - i,
        {
            let key = self.chunks[i].0;
            let n = self.chunks[i].1.subchunks.len();
            let ghost prefix = r@;
            proof {
                assert forall|a: int| 0 <= a < prefix.len() implies key_lt((#[trigger] prefix[a].x, prefix[a].z), key) by {
                    let j = choose|j: int| 0 <= j < i && (#[trigger] e[j]).0 == (prefix[a].x, prefix[a].z);
                    assert(key_lt(e[j].0, e[i as int].0));
                }
            }
            proof {
                lemma_map_facts(e);
                assert(m[e[i as int].0] == e[i as int].1);
            }
            let mut y: usize = 0;
            while y < n
                invariant
                    self.wf(),
                    m == self@,
                    e == self.entries(),
                    i < e.len(),
                    key == e[i as int].0,
                    n == e[i as int].1.height(),
                    n <= crate::chunk::MAX_SUBCHUNKS,
                    y <= n,
                    m[key] == e[i as int].1,
                    prefix.len() <= r@.len(),
                    forall|a: int| 0 <= a < prefix.len() ==> r@[a] == prefix[a],
                    forall|a: int| 0 <= a < r@.len() ==> is_dirty_subchunk(m, #[trigger] r@[a]),
                    forall|a: int| 0 <= a < prefix.len() ==> key_before(e, i as int, (#[trigger] prefix[a].x, prefix[a].z)),
                    forall|a: int| prefix.len() <= a < r@.len() ==> (#[trigger] r@[a]).x == key.0 && r@[a].z == key.1 && r@[a].y < y,
                    forall|a: int, b: int| 0 <= a < b < r@.len() ==> subchunk_lt(r@[a], r@[b]),
                    forall|t: int|
                        0 <= t < y && e[i as int].1.subchunks@[t].dirty() ==> exists|a: int|
                            0 <= a < r@.len() && #[trigger] r@[a] == (BlockPos { x: key.0, y: t as i32, z: key.1 }),
                decreases n - y,
            {
                if self.chunks[i].1.subchunks[y].is_dirty() {
                    let ghost before = r@;
                    r.push(BlockPos { x: key.0, y: y as i32, z: key.1 });
                    proof {
                        assert forall|a: int, b: int| 0 <= a < b < r@.len() implies subchunk_lt(r@[a], r@[b]) by {
                            if b == before.len() && a < prefix.len() {
                                assert(key_lt((prefix[a].x, prefix[a].z), key));
                            }
                        }
                        assert forall|t: int|
                            0 <= t < y + 1 && e[i as int].1.subchunks@[t].dirty() implies exists|a: int|
                            0 <= a < r@.len() && #[trigger] r@[a] == (BlockPos { x: key.0, y: t as i32, z: key.1 }) by {
                            if t < y {
                                let a = choose|a: int| 0 <= a < before.len() && #[trigger] before[a] == (BlockPos { x: key.0, y: t as i32, z: key.1 });
                                assert(r@[a] == before[a]);
                            } else {
                                assert(r@[before.len() as int] == (BlockPos { x: key.0, y: t as i32, z: key.1 }));
                            }
                        }
                    }
                }
                y += 1;
            }
            proof {
                assert forall|a: int| 0 <= a < r@.len() implies key_before(e, i + 1, (#[trigger] r@[a].x, r@[a].z)) by {
                    if a < prefix.len() {
                        let j = choose|j: int| 0 <= j < i && (#[trigger] e[j]).0 == (prefix[a].x, prefix[a].z);
                        assert(e[j].0 == (r@[a].x, r@[a].z));
                    } else {
                        assert(e[i as int].0 == (r@[a].x, r@[a].z));
                    }
                }
                assert forall|s: BlockPos|
                    is_dirty_subchunk(m, s) && key_before(e, i + 1, (s.x, s.z)) implies exists|a: int|
                    0 <= a < r@.len() && #[trigger] r@[a] == s by {
                    let j = choose|j: int| 0 <= j < i + 1 && (#[trigger] e[j]).0 == (s.x, s.z);
                    if j < i {
                        assert(key_before(e, i as int, (s.x, s.z)));
                        let a = choose|a: int| 0 <= a < prefix.len() && #[trigger] prefix[a] == s;
                        assert(r@[a] == s);
                    } else {
                        assert(e[i as int].1.subchunks@[s.y as int].dirty());
                        assert(s == (BlockPos { x: key.0, y: s.y as int as i32, z: key.1 }));
                    }
                }
            }
            i += 1;
        }
        proof {
            assert forall|s: BlockPos| is_dirty_subchunk(m, s) implies exists|a: int|
                0 <= a < r@.len() && #[trigger] r@[a] == s by {
                let j = choose|j: int| 0 <= j < e.len() && (#[trigger] e[j]).0 == (s.x, s.z);
                assert(key_before(e, i as int, (s.x, s.z)));
            }
        }
        r
    }

    /// Clears the dirty flag of the subchunk at subchunk coordinates `s`;
    /// a mesher calls this once it has rebuilt its geometry from the
    /// subchunk's current contents. Does nothing where it is not loaded.
    pub fn clear_dirty(&mut self, s: BlockPos)
        requires
            old(self).wf(),
        ensures
            final(self).wf(),
            final(self)@.dom() == old(self)@.dom(),
            forall|k: ChunkKey|
                old(self)@.contains_key(k) ==> (#[trigger] final(self)@[k]).height() == old(
                    self,
                )@[k].height(),
            forall|k: ChunkKey, t: int|
                old(self)@.contains_key(k) && 0 <= t < old(self)@[k].height()
                    ==> (#[trigger] final(self)@[k].subchunks@[t])@ == old(self)@[k].subchunks@[t]@,
            forall|k: ChunkKey, t: int|
                old(self)@.contains_key(k) && 0 <= t < old(self)@[k].height() && (k, t) != ((s.x, s.z), s.y as int)
                    ==> #[trigger] final(self)@[k].subchunks@[t] == old(self)@[k].subchunks@[t],
            is_subchunk_loaded(old(self)@, s) ==> !final(self)@[(s.x, s.z)].subchunks@[s.y as int].dirty(),
            !is_subchunk_loaded(old(self)@, s) ==> final(self)@ == old(self)@,
    {
        proof {
            lemma_map_facts(self.entries());
        }
        let found = self.find((s.x, s.z));
        if let Some(i) = found {
            if s.y >= 0 && (s.y as usize) < self.chunks[i].1.subchunks.len() {
                let ghost before = self.entries();
                self.chunks[i].1.subchunks[s.y as usize].clear_dirty();
                proof {
                    let after = self.entries();
                    assert forall|j: int| 0 <= j < after.len() implies (#[trigger] after[j]).1.wf() by {
                        if j == i {
                            assert forall|t: int| 0 <= t < after[j].1.subchunks@.len() implies (#[trigger] after[j].1.subchunks@[t]).wf() by {
                                assert(after[j].1.subchunks@[t]@ == before[j].1.subchunks@[t]@);
                            }
                        }
                    }
                    lemma_same_keys(before, after);
                    lemma_map_facts(after);
                    let m0 = entries_map(before);
                    let m1 = entries_map(after);
                    assert(m1.dom() =~= m0.dom());
                    assert(after[i as int].0 == (s.x, s.z));
                    assert(m1[after[i as int].0] == after[i as int].1);
                    assert(m0[(s.x, s.z)] == before[i as int].1);
                    assert forall|k: ChunkKey| m0.contains_key(k) && k != (s.x, s.z) implies #[trigger] m1[k] == m0[k] by {
                        let j = choose|j: int| 0 <= j < before.len() && (#[trigger] before[j]).0 == k;
                        assert(after[j].0 == k);
                    }
                }
            }
        }
    }
}

/// The order in which dirty subchunks are listed: by chunk key, then
/// bottom to top.
pub open spec fn subchunk_lt(a: BlockPos, b: BlockPos) -> bool {
    key_lt((a.x, a.z), (b.x, b.z)) || (a.x == b.x && a.z == b.z && a.y < b.y)
}

/// Subchunk `s.y` of chunk `(s.x, s.z)` is loaded.
pub open spec fn is_subchunk_loaded(m: Map<ChunkKey, Chunk>, s: BlockPos) -> bool {
    m.contains_key((s.x, s.z)) && 0 <= s.y < m[(s.x, s.z)].height()
}

/// Subchunk `s.y` of chunk `(s.x, s.z)` is loaded and dirty.
pub open spec fn is_dirty_subchunk(m: Map<ChunkKey, Chunk>, s: BlockPos) -> bool {
    is_subchunk_loaded(m, s) && m[(s.x, s.z)].subchunks@[s.y as int].dirty()
}

/// Squared distance between chunk columns, in chunk widths.
pub open spec fn dist2(k: ChunkKey, c: ChunkKey) -> int {
    (k.0 - c.0) * (k.0 - c.0) + (k.1 - c.1) * (k.1 - c.1)
}

/// `k` lies in the square of chunks that generation considers around `c`.
pub open spec fn in_square(k: ChunkKey, c: ChunkKey) -> bool {
    -RENDER_DISTANCE <= k.0 - c.0 <= RENDER_DISTANCE && -RENDER_DISTANCE <= k.1 - c.1
        <= RENDER_DISTANCE
}

/// `k` is out of render distance of `c`.
pub open spec fn is_far(k: ChunkKey, c: ChunkKey) -> bool {
    dist2(k, c) > RENDER_DISTANCE * RENDER_DISTANCE
}

/// Generation prefers nearer chunks, and among equally near ones the
/// first in key order.
pub open spec fn gen_before(a: ChunkKey, b: ChunkKey, c: ChunkKey) -> bool {
    dist2(a, c) < dist2(b, c) || (dist2(a, c) == dist2(b, c) && key_lt(a, b))
}

/// `k` is the missing chunk of the square around `c` that generation
/// picks next.
pub open spec fn is_next_chunk(dom: Set<ChunkKey>, c: ChunkKey, k: ChunkKey) -> bool {
    &&& in_square(k, c)
    &&& !dom.contains(k)
    &&& forall|k2: ChunkKey|
        #[trigger] in_square(k2, c) && !dom.contains(k2) && k2 != k ==> gen_before(k, k2, c)
}

/// The chunk that generation adds around `c`, if any is missing.
pub open spec fn next_chunk(dom: Set<ChunkKey>, c: ChunkKey) -> Option<ChunkKey> {
    if exists|k: ChunkKey| is_next_chunk(dom, c, k) {
        Some(choose|k: ChunkKey| is_next_chunk(dom, c, k))
    } else {
        None
    }
}

/// `k` is the first loaded chunk, in key order, out of render distance.
pub open spec fn is_first_far(dom: Set<ChunkKey>, c: ChunkKey, k: ChunkKey) -> bool {
    &&& dom.contains(k)
    &&& is_far(k, c)
    &&& forall|k2: ChunkKey| #[trigger] dom.contains(k2) && is_far(k2, c) && k2 != k ==> key_lt(k, k2)
}

/// The chunk that eviction removes around `c`, if any is out of range.
pub open spec fn first_far(dom: Set<ChunkKey>, c: ChunkKey) -> Option<ChunkKey> {
    if exists|k: ChunkKey| is_first_far(dom, c, k) {
        Some(choose|k: ChunkKey| is_first_far(dom, c, k))
    } else {
        None
    }
}

/// The loaded keys after the generation half of a streaming step.
pub open spec fn with_next(dom: Set<ChunkKey>, c: ChunkKey) -> Set<ChunkKey> {
    match next_chunk(dom, c) {
        Some(k) => dom.insert(k),
        None => dom,
    }
}

/// The loaded keys after a whole streaming step around `c`: at most one
/// chunk generated, then at most one evicted.
pub open spec fn streamed(dom: Set<ChunkKey>, c: ChunkKey) -> Set<ChunkKey> {
    let d = with_next(dom, c);
    match first_far(d, c) {
        Some(e) => d.remove(e),
        None => d,
    }
}

/// What the map of sorted entries holds.
pub proof fn lemma_map_facts(e: Seq<(ChunkKey, Chunk)>)
    requires
        sorted_keys(e),
    ensures
        forall|i: int|
            0 <= i < e.len() ==> entries_map(e).contains_key(#[trigger] e[i].0) && entries_map(e)[e[i].0]
                == e[i].1,
        forall|k: ChunkKey| entries_map(e).contains_key(k) <==> has_key(e, k),
{
    assert forall|i: int| 0 <= i < e.len() implies entries_map(e).contains_key(#[trigger] e[i].0)
        && entries_map(e)[e[i].0] == e[i].1 by {
        let k = e[i].0;
        assert(has_key(e, k));
        let j = choose|j: int| 0 <= j < e.len() && (#[trigger] e[j]).0 == k;
        if j < i {
            assert(key_lt(e[j].0, e[i].0));
        } else if j > i {
            assert(key_lt(e[i].0, e[j].0));
        }
    }
}

/// Sorted entries have as many keys as the map has.
pub proof fn lemma_map_len(e: Seq<(ChunkKey, Chunk)>)
    requires
        sorted_keys(e),
    ensures
        entries_map(e).len() == e.len(),
        entries_map(e).dom().finite(),
    decreases e.len(),
{
    lemma_map_facts(e);
    if e.len() == 0 {
        assert(entries_map(e).dom() =~= Set::<ChunkKey>::empty());
    } else {
        let f = e.drop_last();
        assert(sorted_keys(f));
        lemma_map_len(f);
        lemma_map_facts(f);
        let last = e.last().0;
        assert(!has_key(f, last)) by {
            if has_key(f, last) {
                let j = choose|j: int| 0 <= j < f.len() && (#[trigger] f[j]).0 == last;
                assert(key_lt(e[j].0, e[e.len() - 1].0));
            }
        }
        assert(entries_map(e).dom() =~= entries_map(f).dom().insert(last)) by {
            assert forall|k: ChunkKey| has_key(e, k) implies #[trigger] has_key(f, k) || k == last by {
                let j = choose|j: int| 0 <= j < e.len() && (#[trigger] e[j]).0 == k;
                if j < e.len() - 1 {
                    assert(f[j].0 == k);
                }
            }
            assert forall|k: ChunkKey| has_key(f, k) implies #[trigger] has_key(e, k) by {
                let j = choose|j: int| 0 <= j < f.len() && (#[trigger] f[j]).0 == k;
                assert(e[j].0 == k);
            }
        }
    }
}

/// Entries with the same keys in the same places stand for maps with the
/// same domain.
proof fn lemma_same_keys(a: Seq<(ChunkKey, Chunk)>, b: Seq<(ChunkKey, Chunk)>)
    requires
        a.len() == b.len(),
        forall|i: int| 0 <= i < a.len() ==> (#[trigger] a[i]).0 == b[i].0,
    ensures
        forall|k: ChunkKey| has_key(a, k) <==> has_key(b, k),
        sorted_keys(a) ==> sorted_keys(b),
{
    if sorted_keys(a) {
        assert forall|i: int, j: int| 0 <= i < j < b.len() implies key_lt(b[i].0, b[j].0) by {
            assert(a[i].0 == b[i].0);
            assert(a[j].0 == b[j].0);
        }
    }
    assert forall|k: ChunkKey| has_key(a, k) <==> has_key(b, k) by {
        if has_key(a, k) {
            let j = choose|j: int| 0 <= j < a.len() && (#[trigger] a[j]).0 == k;
            assert(b[j].0 == k);
        }
        if has_key(b, k) {
            let j = choose|j: int| 0 <= j < b.len() && (#[trigger] b[j]).0 == k;
            assert(a[j].0 == k);
        }
    }
}

} // verus!
