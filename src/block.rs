use vstd::prelude::*;

verus! {

/// What one voxel holds.
#[allow(non_camel_case_types)]
#[derive(Debug, Clone, Copy, PartialEq, Eq, Structural)]
pub enum Block {
    AIR,
    STONE,
    GRASS,
    DIRT,
}

impl Block {
    /// The byte that stands for this block in dense storage and in the
    /// per-voxel attribute handed to a renderer.
    pub open spec fn spec_id(self) -> u8 {
        match self {
            Block::AIR => 0,
            Block::STONE => 1,
            Block::GRASS => 2,
            Block::DIRT => 3,
        }
    }

    pub fn id(&self) -> (r: u8)
        ensures
            r == self.spec_id(),
    {
        match self {
            Block::AIR => 0,
            Block::STONE => 1,
            Block::GRASS => 2,
            Block::DIRT => 3,
        }
    }

    /// The block whose byte is `id`, if any.
    pub fn from_id(id: u8) -> (r: Option<Block>)
        ensures
            id < 4 ==> r.is_some() && r.unwrap().spec_id() == id,
            id >= 4 ==> r.is_none(),
    {
        match id {
            0 => Some(Block::AIR),
            1 => Some(Block::STONE),
            2 => Some(Block::GRASS),
            3 => Some(Block::DIRT),
            _ => None,
        }
    }
}

impl Default for Block {
    fn default() -> (r: Block)
        ensures
            r == Block::AIR,
    {
        Block::AIR
    }
}

} // verus!
