use vstd::prelude::*;

use crate::block::Block;
use crate::coords::BlockPos;
use crate::terrain::{block_at, Terrain};

verus! {

/// A face of a block, named by the direction in which resolving a
/// collision against it pushes the player. Listed in tie-break order.
#[derive(Debug, Clone, Copy, PartialEq, Eq, Structural)]
pub enum Face {
    PosX,
    NegX,
    PosY,
    NegY,
    PosZ,
    NegZ,
}

/// The faces in tie-break order: an earlier face wins a tie in depth.
pub open spec fn face_at(i: int) -> Face {
    if i == 0 {
        Face::PosX
    } else if i == 1 {
        Face::NegX
    } else if i == 2 {
        Face::PosY
    } else if i == 3 {
        Face::NegY
    } else if i == 4 {
        Face::PosZ
    } else {
        Face::NegZ
    }
}

impl Face {
    /// Position of this face in tie-break order.
    pub open spec fn index(self) -> int {
        match self {
            Face::PosX => 0,
            Face::NegX => 1,
            Face::PosY => 2,
            Face::NegY => 3,
            Face::PosZ => 4,
            Face::NegZ => 5,
        }
    }

    /// The unit offset from a block to its neighbour across this face.
    pub open spec fn spec_offset(self) -> (int, int, int) {
        match self {
            Face::PosX => (1, 0, 0),
            Face::NegX => (-1, 0, 0),
            Face::PosY => (0, 1, 0),
            Face::NegY => (0, -1, 0),
            Face::PosZ => (0, 0, 1),
            Face::NegZ => (0, 0, -1),
        }
    }

    pub fn offset(&self) -> (r: (i32, i32, i32))
        ensures
            (r.0 as int, r.1 as int, r.2 as int) == self.spec_offset(),
    {
        match self {
            Face::PosX => (1, 0, 0),
            Face::NegX => (-1, 0, 0),
            Face::PosY => (0, 1, 0),
            Face::NegY => (0, -1, 0),
            Face::PosZ => (0, 0, 1),
            Face::NegZ => (0, 0, -1),
        }
    }
}

/// Face `i` may be resolved: its depth does not exceed the overlap
/// threshold and the neighbouring cell across it is open.
pub open spec fn is_candidate(depths: Seq<i32>, threshold: i32, open: Seq<bool>, i: int) -> bool {
    depths[i] <= threshold && open[i]
}

/// Face `f` is the candidate of least depth, the first in tie-break order
/// among equally deep ones.
pub open spec fn is_chosen_face(depths: Seq<i32>, threshold: i32, open: Seq<bool>, f: Face) -> bool {
    &&& is_candidate(depths, threshold, open, f.index())
    &&& forall|j: int|
        0 <= j < 6 && #[trigger] is_candidate(depths, threshold, open, j) ==> depths[f.index()]
            < depths[j] || (depths[f.index()] == depths[j] && f.index() <= j)
}

/// Picks the face through which to push the player out of a block.
/// `depths` holds the penetration depth through each face, in tie-break
/// order, as keys that order like the depths; `open` tells whether the
/// neighbouring cell across each face is air. Faces deeper than
/// `threshold` or against a solid neighbour are not candidates; among the
/// rest the shallowest wins, ties going to the earlier face. With no
/// candidate nothing is resolved.
pub fn choose_face(depths: [i32; 6], threshold: i32, open: [bool; 6]) -> (r: Option<Face>)
    ensures
        r is None <==> forall|j: int| 0 <= j < 6 ==> !is_candidate(depths@, threshold, open@, j),
        r is Some ==> is_chosen_face(depths@, threshold, open@, r.unwrap()),
{
    let mut best: Option<usize> = None;
    let mut i: usize = 0;
    while i < 6
        invariant
            0 <= i <= 6,
            depths@.len() == 6,
            open@.len() == 6,
            best is None ==> forall|j: int| 0 <= j < i ==> !is_candidate(depths@, threshold, open@, j),
            best is Some ==> {
                let b = best.unwrap() as int;
                &&& b < i
                &&& is_candidate(depths@, threshold, open@, b)
                &&& forall|j: int|
                    0 <= j < i && #[trigger] is_candidate(depths@, threshold, open@, j) ==> depths@[b]
                        < depths@[j] || (depths@[b] == depths@[j] && b <= j)
            },
        decreases 6 - i,
    {
        if depths[i] <= threshold && open[i] {
            let better = match best {
                None => true,
                Some(b) => depths[i] < depths[b],
            };
            if better {
                best = Some(i);
            }
        }
        i += 1;
    }
    match best {
        None => None,
        Some(b) => {
            let f = face_of(b);
            Some(f)
        },
    }
}

/// The face at position `i` of tie-break order.
pub fn face_of(i: usize) -> (r: Face)
    requires
        i < 6,
    ensures
        r == face_at(i as int),
        r.index() == i,
{
    if i == 0 {
        Face::PosX
    } else if i == 1 {
        Face::NegX
    } else if i == 2 {
        Face::PosY
    } else if i == 3 {
        Face::NegY
    } else if i == 4 {
        Face::PosZ
    } else {
        Face::NegZ
    }
}

/// The neighbour of `p` across face `f`.
pub open spec fn neighbour(p: BlockPos, f: Face) -> BlockPos {
    BlockPos {
        x: (p.x + f.spec_offset().0) as i32,
        y: (p.y + f.spec_offset().1) as i32,
        z: (p.z + f.spec_offset().2) as i32,
    }
}

/// Whether each neighbour of the block at `p`, in tie-break order, is air.
pub fn open_faces(terrain: &Terrain, p: BlockPos) -> (r: [bool; 6])
    requires
        terrain.wf(),
        i32::MIN < p.x < i32::MAX,
        i32::MIN < p.y < i32::MAX,
        i32::MIN < p.z < i32::MAX,
    ensures
        forall|i: int|
            0 <= i < 6 ==> r@[i] == (block_at(terrain@, neighbour(p, face_at(i))) == Block::AIR),
{
    let px = terrain.block(BlockPos { x: p.x + 1, y: p.y, z: p.z }) == Block::AIR;
    let nx = terrain.block(BlockPos { x: p.x - 1, y: p.y, z: p.z }) == Block::AIR;
    let py = terrain.block(BlockPos { x: p.x, y: p.y + 1, z: p.z }) == Block::AIR;
    let ny = terrain.block(BlockPos { x: p.x, y: p.y - 1, z: p.z }) == Block::AIR;
    let pz = terrain.block(BlockPos { x: p.x, y: p.y, z: p.z + 1 }) == Block::AIR;
    let nz = terrain.block(BlockPos { x: p.x, y: p.y, z: p.z - 1 }) == Block::AIR;
    let r = [px, nx, py, ny, pz, nz];
    assert(neighbour(p, face_at(0)) == BlockPos { x: (p.x + 1) as i32, y: p.y, z: p.z });
    r
}

/// The face of the solid block at `p` through which a player who overlaps
/// it by `depths` is pushed out: only faces whose neighbour in `terrain`
/// is air count.
pub fn resolve_face(terrain: &Terrain, p: BlockPos, depths: [i32; 6], threshold: i32) -> (r: Option<
    Face,
>)
    requires
        terrain.wf(),
        i32::MIN < p.x < i32::MAX,
        i32::MIN < p.y < i32::MAX,
        i32::MIN < p.z < i32::MAX,
    ensures
        ({
            let open = Seq::new(
                6,
                |i: int| block_at(terrain@, neighbour(p, face_at(i))) == Block::AIR,
            );
            &&& r is None <==> forall|j: int|
                0 <= j < 6 ==> !is_candidate(depths@, threshold, open, j)
            &&& r is Some ==> is_chosen_face(depths@, threshold, open, r.unwrap())
        }),
{
    let open = open_faces(terrain, p);
    let r = choose_face(depths, threshold, open);
    proof {
        let s = Seq::new(6, |i: int| block_at(terrain@, neighbour(p, face_at(i))) == Block::AIR);
        assert(open@ =~= s);
    }
    r
}

/// When exactly one face of a block is exposed and within the overlap
/// threshold, that face, and no other, is the one resolved.
pub proof fn lemma_single_exposed_face(depths: Seq<i32>, threshold: i32, open: Seq<bool>, i: int)
    requires
        depths.len() == 6,
        open.len() == 6,
        0 <= i < 6,
        is_candidate(depths, threshold, open, i),
        forall|j: int| 0 <= j < 6 && j != i ==> !is_candidate(depths, threshold, open, j),
    ensures
        forall|f: Face| is_chosen_face(depths, threshold, open, f) <==> f == face_at(i),
{
    assert(face_at(i).index() == i);
    assert forall|f: Face| is_chosen_face(depths, threshold, open, f) implies f == face_at(i) by {
        assert(f.index() == i);
    }
}

} // verus!
