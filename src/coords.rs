use vstd::prelude::*;

verus! {

/// Side length of a subchunk, and width of a chunk, in blocks.
pub const SIZE: usize = 16;

/// An integer block position in world space, or a local offset.
#[derive(Debug, Clone, Copy, PartialEq, Eq, Structural, Hash)]
pub struct BlockPos {
    pub x: i32,
    pub y: i32,
    pub z: i32,
}

impl BlockPos {
    pub fn new(x: i32, y: i32, z: i32) -> (r: BlockPos)
        ensures
            r == (BlockPos { x, y, z }),
    {
        BlockPos { x, y, z }
    }
}

/// Floor division by the chunk width (rounds towards negative infinity).
pub fn div16(v: i32) -> (r: i32)
    ensures
        r == v / 16,
        16 * r <= v < 16 * r + 16,
{
    if v >= 0 {
        v / 16
    } else {
        let n: i32 = -(v + 1);
        let q: i32 = n / 16;
        proof {
            assert(v / 16 == -q - 1) by (nonlinear_arith)
                requires
                    n == -(v + 1),
                    q == n / 16,
                    n >= 0,
            {
            }
        }
        -q - 1
    }
}

/// Modulo the chunk width, always in `0..16`.
pub fn mod16(v: i32) -> (r: i32)
    ensures
        r == v % 16,
        0 <= r < 16,
        v == 16 * (v / 16) + r,
{
    let q = div16(v);
    v - 16 * q
}

} // verus!

verus! {

/// Index of local cell `(x, y, z)` of a subchunk in its dense storage.
pub open spec fn cell_index(x: int, y: int, z: int) -> int {
    z * 256 + y * 16 + x
}

/// Local coordinates fit in a subchunk.
pub open spec fn in_subchunk(x: int, y: int, z: int) -> bool {
    0 <= x < 16 && 0 <= y < 16 && 0 <= z < 16
}

/// `lo <= p < hi` on every axis.
pub open spec fn in_box(p: BlockPos, lo: BlockPos, hi: BlockPos) -> bool {
    lo.x <= p.x < hi.x && lo.y <= p.y < hi.y && lo.z <= p.z < hi.z
}

/// The order in which spatial queries list positions: by chunk column
/// (x, then z), by subchunk, then by local x, local y and local z.
pub open spec fn scan_lt(p: BlockPos, q: BlockPos) -> bool {
    let (pcx, pcz, psy) = (p.x / 16, p.z / 16, p.y / 16);
    let (qcx, qcz, qsy) = (q.x / 16, q.z / 16, q.y / 16);
    let (px, py, pz) = (p.x % 16, p.y % 16, p.z % 16);
    let (qx, qy, qz) = (q.x % 16, q.y % 16, q.z % 16);
    pcx < qcx || (pcx == qcx && (pcz < qcz || (pcz == qcz && (psy < qsy || (psy == qsy && (
    px < qx || (px == qx && (py < qy || (py == qy && pz < qz)))))))))
}

/// Dense storage index and local coordinates determine each other.
pub proof fn lemma_cell_index(x: int, y: int, z: int)
    requires
        in_subchunk(x, y, z),
    ensures
        0 <= cell_index(x, y, z) < 4096,
        cell_index(x, y, z) % 16 == x,
        (cell_index(x, y, z) / 16) % 16 == y,
        cell_index(x, y, z) / 256 == z,
{
    let i = cell_index(x, y, z);
    assert(i % 16 == x && i / 16 == z * 16 + y) by (nonlinear_arith)
        requires
            i == z * 256 + y * 16 + x,
            0 <= x < 16,
            0 <= y < 16,
            0 <= z < 16,
    {
    }
    assert((z * 16 + y) % 16 == y) by (nonlinear_arith)
        requires
            0 <= y < 16,
            0 <= z < 16,
    {
    }
    assert(i / 256 == z) by (nonlinear_arith)
        requires
            i == z * 256 + y * 16 + x,
            0 <= x < 16,
            0 <= y < 16,
            0 <= z < 16,
    {
    }
}

/// Every storage index is the index of the cell that it decodes to.
pub proof fn lemma_index_cell(i: int)
    requires
        0 <= i < 4096,
    ensures
        in_subchunk(i % 16, (i / 16) % 16, i / 256),
        cell_index(i % 16, (i / 16) % 16, i / 256) == i,
{
    assert(cell_index(i % 16, (i / 16) % 16, i / 256) == i && 0 <= i / 256 < 16) by (nonlinear_arith)
        requires
            0 <= i < 4096,
    {
    }
}

} // verus!

verus! {

/// Where a world block lives: its chunk column, the index of its subchunk
/// in that column, and its coordinates inside the subchunk.
#[derive(Debug, Clone, Copy, PartialEq, Eq, Structural)]
pub struct BlockLocation {
    pub chunk_x: i32,
    pub chunk_z: i32,
    pub subchunk_y: i32,
    pub local_x: i32,
    pub local_y: i32,
    pub local_z: i32,
}

/// Floor division and true modulo by the chunk width on each axis.
pub open spec fn location_of(p: BlockPos) -> BlockLocation {
    BlockLocation {
        chunk_x: (p.x / 16) as i32,
        chunk_z: (p.z / 16) as i32,
        subchunk_y: (p.y / 16) as i32,
        local_x: (p.x % 16) as i32,
        local_y: (p.y % 16) as i32,
        local_z: (p.z % 16) as i32,
    }
}

/// The world position that a location stands for.
pub open spec fn position_of(l: BlockLocation) -> BlockPos {
    BlockPos {
        x: (16 * l.chunk_x + l.local_x) as i32,
        y: (16 * l.subchunk_y + l.local_y) as i32,
        z: (16 * l.chunk_z + l.local_z) as i32,
    }
}

/// Splits a world position into chunk, subchunk and local coordinates,
/// rounding towards negative infinity on negative coordinates.
pub fn locate(p: BlockPos) -> (r: BlockLocation)
    ensures
        r == location_of(p),
{
    BlockLocation {
        chunk_x: div16(p.x),
        chunk_z: div16(p.z),
        subchunk_y: div16(p.y),
        local_x: mod16(p.x),
        local_y: mod16(p.y),
        local_z: mod16(p.z),
    }
}

impl BlockLocation {
    /// The location's coordinates are those of some world position.
    pub open spec fn fits(&self) -> bool {
        &&& i32::MIN <= 16 * self.chunk_x + self.local_x <= i32::MAX
        &&& i32::MIN <= 16 * self.subchunk_y + self.local_y <= i32::MAX
        &&& i32::MIN <= 16 * self.chunk_z + self.local_z <= i32::MAX
    }

    /// Recombines the parts into a world position.
    pub fn position(&self) -> (r: BlockPos)
        requires
            self.fits(),
        ensures
            r == position_of(*self),
    {
        let x: i64 = 16 * self.chunk_x as i64 + self.local_x as i64;
        let y: i64 = 16 * self.subchunk_y as i64 + self.local_y as i64;
        let z: i64 = 16 * self.chunk_z as i64 + self.local_z as i64;
        BlockPos { x: x as i32, y: y as i32, z: z as i32 }
    }
}

/// Splitting a position and recombining the parts gives the position
/// back, for every position, negative coordinates included; the local
/// parts always lie in `0..16`.
pub proof fn lemma_location_round_trip(p: BlockPos)
    ensures
        location_of(p).fits(),
        position_of(location_of(p)) == p,
        0 <= location_of(p).local_x < 16,
        0 <= location_of(p).local_y < 16,
        0 <= location_of(p).local_z < 16,
{
    assert(p.x == 16 * (p.x / 16) + p.x % 16);
    assert(p.y == 16 * (p.y / 16) + p.y % 16);
    assert(p.z == 16 * (p.z / 16) + p.z % 16);
}

} // verus!
