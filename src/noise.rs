use vstd::prelude::*;

use crate::coords::BlockPos;
use crate::random::{draw3, lemma_draw3, stream_state, Random};

verus! {

/// The seed of the stream that belongs to chunk `(x, z)`:
/// `(x as u64) xor ((z as u64) << 16)`.
pub open spec fn chunk_seed(x: i32, z: i32) -> u64 {
    (x as u64) ^ ((z as u64) << 16u64)
}

pub fn seed_for_chunk(x: i32, z: i32) -> (r: u64)
    ensures
        r == chunk_seed(x, z),
{
    (x as u64) ^ ((z as u64) << 16u64)
}

/// Lattice scales whose point count, `8 * x * y * z`, fits in `i32`.
pub open spec fn valid_scale(s: BlockPos) -> bool {
    0 < s.x && 0 < s.y && 0 < s.z && 8 * s.x * s.y * s.z <= i32::MAX
}

/// `(x, y, z)` is a point of a lattice of scale `s` (`2 * s` per axis).
pub open spec fn in_lattice(s: BlockPos, x: int, y: int, z: int) -> bool {
    0 <= x < 2 * s.x && 0 <= y < 2 * s.y && 0 <= z < 2 * s.z
}

/// Where lattice point `(x, y, z)` is stored: z-major, then y, then x.
#[verifier::opaque]
pub open spec fn lattice_index(s: BlockPos, x: int, y: int, z: int) -> int {
    (z * (2 * s.y) + y) * (2 * s.x) + x
}

/// The raw gradient at lattice point `(x, y, z)` of the lattice built for
/// chunk `(cx, cz)`. The lattice is split into four quadrants by
/// `x >= s.x` and `z >= s.z`; the quadrant `(qx, qz)` is fed by the stream
/// of chunk `(cx + qx, cz + qz)`, which hands its vectors out to that
/// quadrant's points in storage order.
#[verifier::opaque]
pub open spec fn lattice_point(cx: i32, cz: i32, s: BlockPos, x: int, y: int, z: int) -> (
    u32,
    u32,
    u32,
) {
    let qx: int = if x >= s.x { 1 } else { 0 };
    let qz: int = if z >= s.z { 1 } else { 0 };
    let k = ((z - qz * s.z) * (2 * s.y) + y) * s.x + (x - qx * s.x);
    draw3(chunk_seed((cx + qx) as i32, (cz + qz) as i32), k as nat)
}

/// How many points of quadrant `(qx, qz)` come before `(x, y, z)` in
/// storage order.
#[verifier::opaque]
pub open spec fn quadrant_count(s: BlockPos, qx: int, qz: int, x: int, y: int, z: int) -> int {
    let rows: int = if qz == 0 {
        if z < s.z { z } else { s.z as int }
    } else {
        if z > s.z { z - s.z } else { 0 }
    };
    let z_in: bool = if qz == 0 { z < s.z } else { z >= s.z };
    let xs: int = if qx == 0 {
        if x < s.x { x } else { s.x as int }
    } else {
        if x > s.x { x - s.x } else { 0 }
    };
    rows * (2 * s.y * s.x) + if z_in { y * s.x + xs } else { 0 }
}

/// Storage order is the lexicographic order on `(z, y, x)`.
pub open spec fn lattice_before(x1: int, y1: int, z1: int, x2: int, y2: int, z2: int) -> bool {
    z1 < z2 || (z1 == z2 && (y1 < y2 || (y1 == y2 && x1 < x2)))
}

/// A lattice of raw gradient vectors for one chunk. Each vector is three
/// 24-bit fractions; scaled to `[-1, 1]` and normalised they are the unit
/// gradients of the chunk's Perlin noise.
pub struct PerlinNoise {
    pub points: Vec<(u32, u32, u32)>,
    pub scale: BlockPos,
}

impl PerlinNoise {
    /// The raw vector stored for lattice point `(x, y, z)`.
    pub open spec fn point(&self, x: int, y: int, z: int) -> (u32, u32, u32) {
        self.points@[lattice_index(self.scale, x, y, z)]
    }

    /// Whether this is the lattice of chunk `(cx, cz)` at scale `s`.
    pub open spec fn is_lattice_of(&self, cx: i32, cz: i32, s: BlockPos) -> bool {
        &&& self.scale == s
        &&& self.points@.len() == 8 * s.x * s.y * s.z
        &&& forall|x: int, y: int, z: int|
            in_lattice(s, x, y, z) ==> #[trigger] self.point(x, y, z) == lattice_point(
                cx,
                cz,
                s,
                x,
                y,
                z,
            )
    }

    /// Builds the lattice of chunk `chunk_pos` from the streams of that
    /// chunk and of its neighbours at `+x`, `+z` and `+x+z`.
    pub fn new(chunk_pos: (i32, i32), scale: BlockPos) -> (r: PerlinNoise)
        requires
            chunk_pos.0 < i32::MAX,
            chunk_pos.1 < i32::MAX,
            valid_scale(scale),
        ensures
            r.is_lattice_of(chunk_pos.0, chunk_pos.1, scale),
    {
        let (cx, cz) = chunk_pos;
        let s = scale;
        let ghost seed00 = chunk_seed(cx, cz);
        let ghost seed10 = chunk_seed((cx + 1) as i32, cz);
        let ghost seed01 = chunk_seed(cx, (cz + 1) as i32);
        let ghost seed11 = chunk_seed((cx + 1) as i32, (cz + 1) as i32);
        let mut rand00 = Random::with_seed(seed_for_chunk(cx, cz));
        let mut rand10 = Random::with_seed(seed_for_chunk(cx + 1, cz));
        let mut rand01 = Random::with_seed(seed_for_chunk(cx, cz + 1));
        let mut rand11 = Random::with_seed(seed_for_chunk(cx + 1, cz + 1));
        proof {
            lemma_scale_bounds(s);
        }
        let wx: i32 = 2 * s.x;
        let wy: i32 = 2 * s.y;
        let wz: i32 = 2 * s.z;
        let mut points: Vec<(u32, u32, u32)> = Vec::new();
        let mut x: i32 = 0;
        let mut y: i32 = 0;
        let mut z: i32 = 0;
        proof {
            lemma_start(s);
            assert(stream_state(seed00, 0) == crate::random::initial_state(seed00));
            assert(stream_state(seed10, 0) == crate::random::initial_state(seed10));
            assert(stream_state(seed01, 0) == crate::random::initial_state(seed01));
            assert(stream_state(seed11, 0) == crate::random::initial_state(seed11));
        }
        while z < wz
            invariant
                valid_scale(s),
                wx == 2 * s.x,
                wy == 2 * s.y,
                wz == 2 * s.z,
                0 <= x < wx,
                0 <= y < wy,
                0 <= z <= wz,
                z == wz ==> x == 0 && y == 0,
                points@.len() == lattice_index(s, x as int, y as int, z as int),
                forall|px: int, py: int, pz: int|
                    in_lattice(s, px, py, pz) && lattice_before(px, py, pz, x as int, y as int, z as int)
                        ==> #[trigger] points@[lattice_index(s, px, py, pz)] == lattice_point(
                        cx,
                        cz,
                        s,
                        px,
                        py,
                        pz,
                    ),
                seed00 == chunk_seed(cx, cz),
                seed10 == chunk_seed((cx + 1) as i32, cz),
                seed01 == chunk_seed(cx, (cz + 1) as i32),
                seed11 == chunk_seed((cx + 1) as i32, (cz + 1) as i32),
                rand00.wf(),
                rand10.wf(),
                rand01.wf(),
                rand11.wf(),
                rand00.state() == stream_state(
                    seed00,
                    (3 * quadrant_count(s, 0, 0, x as int, y as int, z as int)) as nat,
                ),
                rand10.state() == stream_state(
                    seed10,
                    (3 * quadrant_count(s, 1, 0, x as int, y as int, z as int)) as nat,
                ),
                rand01.state() == stream_state(
                    seed01,
                    (3 * quadrant_count(s, 0, 1, x as int, y as int, z as int)) as nat,
                ),
                rand11.state() == stream_state(
                    seed11,
                    (3 * quadrant_count(s, 1, 1, x as int, y as int, z as int)) as nat,
                ),
            decreases wz - z, wy - y, wx - x,
        {
            proof {
                lemma_count_nonneg(s, x as int, y as int, z as int);
                lemma_own_draw(cx, cz, s, x as int, y as int, z as int);
                lemma_draw3(seed00, quadrant_count(s, 0, 0, x as int, y as int, z as int) as nat);
                lemma_draw3(seed10, quadrant_count(s, 1, 0, x as int, y as int, z as int) as nat);
                lemma_draw3(seed01, quadrant_count(s, 0, 1, x as int, y as int, z as int) as nat);
                lemma_draw3(seed11, quadrant_count(s, 1, 1, x as int, y as int, z as int) as nat);
            }
            let p = if x >= s.x {
                if z >= s.z {
                    rand11.next_fraction3()
                } else {
                    rand10.next_fraction3()
                }
            } else {
                if z >= s.z {
                    rand01.next_fraction3()
                } else {
                    rand00.next_fraction3()
                }
            };
            proof {
                assert(p == lattice_point(cx, cz, s, x as int, y as int, z as int));
            }
            let ghost prev = points@;
            let ghost (ox, oy, oz) = (x as int, y as int, z as int);
            points.push(p);
            if x + 1 < wx {
                x = x + 1;
            } else {
                x = 0;
                if y + 1 < wy {
                    y = y + 1;
                } else {
                    y = 0;
                    z = z + 1;
                }
            }
            proof {
                lemma_index_step(s, ox, oy, oz, x as int, y as int, z as int);
                lemma_count_step(s, 0, 0, ox, oy, oz, x as int, y as int, z as int);
                lemma_count_step(s, 1, 0, ox, oy, oz, x as int, y as int, z as int);
                lemma_count_step(s, 0, 1, ox, oy, oz, x as int, y as int, z as int);
                lemma_count_step(s, 1, 1, ox, oy, oz, x as int, y as int, z as int);
                lemma_prefix_extends(cx, cz, s, prev, points@, ox, oy, oz, x as int, y as int, z as int);
            }
        }
        proof {
            assert forall|px: int, py: int, pz: int| in_lattice(s, px, py, pz) implies #[trigger] points@[lattice_index(
                s,
                px,
                py,
                pz,
            )] == lattice_point(cx, cz, s, px, py, pz) by {
                assert(lattice_before(px, py, pz, x as int, y as int, z as int));
            }
            reveal(lattice_index);
            assert((2 * s.z * (2 * s.y) + 0) * (2 * s.x) + 0 == 8 * s.x * s.y * s.z) by (nonlinear_arith);
        }
        PerlinNoise { points, scale }
    }
}

proof fn lemma_start(s: BlockPos)
    requires
        valid_scale(s),
    ensures
        lattice_index(s, 0, 0, 0) == 0,
        quadrant_count(s, 0, 0, 0, 0, 0) == 0,
        quadrant_count(s, 1, 0, 0, 0, 0) == 0,
        quadrant_count(s, 0, 1, 0, 0, 0) == 0,
        quadrant_count(s, 1, 1, 0, 0, 0) == 0,
{
    reveal(lattice_index);
    reveal(quadrant_count);
    assert(0 * (2 * s.y * s.x) == 0 && 0 * s.x == 0 && (0 * (2 * s.y) + 0) * (2 * s.x) == 0)
        by (nonlinear_arith);
}

/// One more point pushed in storage order keeps the stored prefix right.
proof fn lemma_prefix_extends(
    cx: i32,
    cz: i32,
    s: BlockPos,
    prev: Seq<(u32, u32, u32)>,
    points: Seq<(u32, u32, u32)>,
    ox: int,
    oy: int,
    oz: int,
    x: int,
    y: int,
    z: int,
)
    requires
        valid_scale(s),
        in_lattice(s, ox, oy, oz),
        prev.len() == lattice_index(s, ox, oy, oz),
        points == prev.push(lattice_point(cx, cz, s, ox, oy, oz)),
        forall|px: int, py: int, pz: int|
            in_lattice(s, px, py, pz) && lattice_before(px, py, pz, ox, oy, oz)
                ==> #[trigger] prev[lattice_index(s, px, py, pz)] == lattice_point(
                cx,
                cz,
                s,
                px,
                py,
                pz,
            ),
        forall|px: int, py: int, pz: int|
            lattice_before(px, py, pz, x, y, z) && in_lattice(s, px, py, pz) ==> lattice_before(
                px,
                py,
                pz,
                ox,
                oy,
                oz,
            ) || (px == ox && py == oy && pz == oz),
    ensures
        forall|px: int, py: int, pz: int|
            in_lattice(s, px, py, pz) && lattice_before(px, py, pz, x, y, z)
                ==> #[trigger] points[lattice_index(s, px, py, pz)] == lattice_point(
                cx,
                cz,
                s,
                px,
                py,
                pz,
            ),
{
    assert forall|px: int, py: int, pz: int|
        in_lattice(s, px, py, pz) && lattice_before(
            px,
            py,
            pz,
            x,
            y,
            z,
        ) implies #[trigger] points[lattice_index(s, px, py, pz)] == lattice_point(
        cx,
        cz,
        s,
        px,
        py,
        pz,
    ) by {
        if lattice_before(px, py, pz, ox, oy, oz) {
            lemma_index_ordered(s, px, py, pz, ox, oy, oz);
        }
    }
}

proof fn lemma_scale_bounds(s: BlockPos)
    requires
        valid_scale(s),
    ensures
        2 * s.x <= i32::MAX,
        2 * s.y <= i32::MAX,
        2 * s.z <= i32::MAX,
{
    assert(2 * s.x <= 8 * s.x * s.y * s.z && 2 * s.y <= 8 * s.x * s.y * s.z && 2 * s.z <= 8 * s.x
        * s.y * s.z) by (nonlinear_arith)
        requires
            0 < s.x,
            0 < s.y,
            0 < s.z,
    ;
}

proof fn lemma_count_nonneg(s: BlockPos, x: int, y: int, z: int)
    requires
        valid_scale(s),
        in_lattice(s, x, y, z),
    ensures
        quadrant_count(s, 0, 0, x, y, z) >= 0,
        quadrant_count(s, 1, 0, x, y, z) >= 0,
        quadrant_count(s, 0, 1, x, y, z) >= 0,
        quadrant_count(s, 1, 1, x, y, z) >= 0,
{
    reveal(lattice_index);
    reveal(quadrant_count);
    let w = 2 * s.y * s.x;
    assert(w > 0) by (nonlinear_arith)
        requires
            s.x > 0,
            s.y > 0,
            w == 2 * s.y * s.x,
    ;
    assert(y * s.x >= 0) by (nonlinear_arith)
        requires
            y >= 0,
            s.x > 0,
    ;
    let r0: int = if z < s.z { z } else { s.z as int };
    let r1: int = if z > s.z { z - s.z } else { 0 };
    assert(r0 * w >= 0 && r1 * w >= 0) by (nonlinear_arith)
        requires
            w > 0,
            r0 >= 0,
            r1 >= 0,
    ;
}

/// A point's count within its own quadrant is its rank there, the index
/// into that quadrant's stream.
proof fn lemma_own_draw(cx: i32, cz: i32, s: BlockPos, x: int, y: int, z: int)
    requires
        valid_scale(s),
        in_lattice(s, x, y, z),
    ensures
        x < s.x && z < s.z ==> lattice_point(cx, cz, s, x, y, z) == draw3(
            chunk_seed(cx, cz),
            quadrant_count(s, 0, 0, x, y, z) as nat,
        ),
        x >= s.x && z < s.z ==> lattice_point(cx, cz, s, x, y, z) == draw3(
            chunk_seed((cx + 1) as i32, cz),
            quadrant_count(s, 1, 0, x, y, z) as nat,
        ),
        x < s.x && z >= s.z ==> lattice_point(cx, cz, s, x, y, z) == draw3(
            chunk_seed(cx, (cz + 1) as i32),
            quadrant_count(s, 0, 1, x, y, z) as nat,
        ),
        x >= s.x && z >= s.z ==> lattice_point(cx, cz, s, x, y, z) == draw3(
            chunk_seed((cx + 1) as i32, (cz + 1) as i32),
            quadrant_count(s, 1, 1, x, y, z) as nat,
        ),
{
    reveal(lattice_point);
    reveal(quadrant_count);
    let qz: int = if z >= s.z { 1 } else { 0 };
    let zr = z - qz * s.z;
    assert(zr * (2 * s.y * s.x) + y * s.x == (zr * (2 * s.y) + y) * s.x) by (nonlinear_arith);
}

/// Moving one point on in storage order adds one to the count of the
/// point's own quadrant and leaves the other counts alone.
proof fn lemma_count_step(
    s: BlockPos,
    qx: int,
    qz: int,
    x: int,
    y: int,
    z: int,
    nx: int,
    ny: int,
    nz: int,
)
    requires
        valid_scale(s),
        in_lattice(s, x, y, z),
        0 <= qx <= 1,
        0 <= qz <= 1,
        if x + 1 < 2 * s.x {
            nx == x + 1 && ny == y && nz == z
        } else if y + 1 < 2 * s.y {
            nx == 0 && ny == y + 1 && nz == z
        } else {
            nx == 0 && ny == 0 && nz == z + 1
        },
    ensures
        quadrant_count(s, qx, qz, nx, ny, nz) == quadrant_count(s, qx, qz, x, y, z) + if qx == (
        if x >= s.x { 1int } else { 0 }) && qz == (if z >= s.z { 1int } else { 0 }) {
            1int
        } else {
            0
        },
{
    reveal(lattice_index);
    reveal(quadrant_count);
    let sx = s.x as int;
    let sy = s.y as int;
    if x + 1 < 2 * s.x {
    } else if y + 1 < 2 * s.y {
        assert((y + 1) * sx == y * sx + sx) by (nonlinear_arith);
    } else {
        let w = 2 * sy * sx;
        let rows: int = if qz == 0 {
            if z < s.z { z } else { s.z as int }
        } else {
            if z > s.z { z - s.z } else { 0 }
        };
        assert((rows + 1) * w == rows * w + w) by (nonlinear_arith);
        assert(y * sx + sx == w) by (nonlinear_arith)
            requires
                y == 2 * sy - 1,
                w == 2 * sy * sx,
        ;
    }
}

/// Moving one point on in storage order moves one slot on.
proof fn lemma_index_step(s: BlockPos, x: int, y: int, z: int, nx: int, ny: int, nz: int)
    requires
        valid_scale(s),
        in_lattice(s, x, y, z),
        if x + 1 < 2 * s.x {
            nx == x + 1 && ny == y && nz == z
        } else if y + 1 < 2 * s.y {
            nx == 0 && ny == y + 1 && nz == z
        } else {
            nx == 0 && ny == 0 && nz == z + 1
        },
    ensures
        lattice_index(s, nx, ny, nz) == lattice_index(s, x, y, z) + 1,
        lattice_before(x, y, z, nx, ny, nz),
        forall|px: int, py: int, pz: int|
            lattice_before(px, py, pz, nx, ny, nz) && in_lattice(s, px, py, pz) ==> lattice_before(
                px,
                py,
                pz,
                x,
                y,
                z,
            ) || (px == x && py == y && pz == z),
{
    reveal(lattice_index);
    reveal(quadrant_count);
    let wx = 2 * s.x as int;
    let wy = 2 * s.y as int;
    if x + 1 < wx {
    } else if y + 1 < wy {
        assert((z * wy + y + 1) * wx == (z * wy + y) * wx + wx) by (nonlinear_arith);
    } else {
        assert(((z + 1) * wy) * wx == (z * wy + y) * wx + wx) by (nonlinear_arith)
            requires
                y == wy - 1,
        ;
    }
}

/// Storage order matches the order of the slots.
proof fn lemma_index_ordered(s: BlockPos, x1: int, y1: int, z1: int, x2: int, y2: int, z2: int)
    requires
        valid_scale(s),
        in_lattice(s, x1, y1, z1),
        in_lattice(s, x2, y2, z2),
        lattice_before(x1, y1, z1, x2, y2, z2),
    ensures
        0 <= lattice_index(s, x1, y1, z1) < lattice_index(s, x2, y2, z2),
{
    reveal(lattice_index);
    reveal(quadrant_count);
    let wx = 2 * s.x as int;
    let wy = 2 * s.y as int;
    assert(0 <= (z1 * wy + y1) * wx + x1) by (nonlinear_arith)
        requires
            0 <= x1,
            0 <= y1,
            0 <= z1,
            0 < wx,
            0 < wy,
    ;
    if z1 < z2 {
        assert((z1 * wy + y1) * wx + x1 < (z2 * wy + y2) * wx + x2) by (nonlinear_arith)
            requires
                z1 < z2,
                0 <= x1 < wx,
                0 <= y1 < wy,
                0 <= x2,
                0 <= y2,
                0 < wx,
                0 < wy,
        ;
    } else if y1 < y2 {
        assert((z1 * wy + y1) * wx + x1 < (z2 * wy + y2) * wx + x2) by (nonlinear_arith)
            requires
                z1 == z2,
                y1 < y2,
                0 <= x1 < wx,
                0 <= x2,
                0 < wx,
        ;
    }
}

/// Lattices of neighbouring chunks along x share gradients: the upper-x
/// half of the lattice of chunk `(cx, cz)` equals the lower-x half of the
/// lattice of chunk `(cx + 1, cz)`, shared edge included.
pub proof fn lemma_lattice_continuity_x(
    a: PerlinNoise,
    b: PerlinNoise,
    cx: i32,
    cz: i32,
    s: BlockPos,
    x: int,
    y: int,
    z: int,
)
    requires
        cx + 2 <= i32::MAX,
        0 < s.x,
        0 < s.y,
        0 < s.z,
        a.is_lattice_of(cx, cz, s),
        b.is_lattice_of((cx + 1) as i32, cz, s),
        s.x <= x < 2 * s.x,
        0 <= y < 2 * s.y,
        0 <= z < 2 * s.z,
    ensures
        a.point(x, y, z) == b.point(x - s.x, y, z),
{
    reveal(lattice_point);
    assert(in_lattice(s, x, y, z));
    assert(in_lattice(s, x - s.x, y, z));
}

/// Lattices of neighbouring chunks along z share gradients: the upper-z
/// half of the lattice of chunk `(cx, cz)` equals the lower-z half of the
/// lattice of chunk `(cx, cz + 1)`, shared edge included.
pub proof fn lemma_lattice_continuity_z(
    a: PerlinNoise,
    b: PerlinNoise,
    cx: i32,
    cz: i32,
    s: BlockPos,
    x: int,
    y: int,
    z: int,
)
    requires
        cz + 2 <= i32::MAX,
        0 < s.x,
        0 < s.y,
        0 < s.z,
        a.is_lattice_of(cx, cz, s),
        b.is_lattice_of(cx, (cz + 1) as i32, s),
        0 <= x < 2 * s.x,
        0 <= y < 2 * s.y,
        s.z <= z < 2 * s.z,
    ensures
        a.point(x, y, z) == b.point(x, y, z - s.z),
{
    reveal(lattice_point);
    assert(in_lattice(s, x, y, z));
    assert(in_lattice(s, x, y, z - s.z));
}

} // verus!
