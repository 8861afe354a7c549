//! The kinds of ground a tile can have.

use vstd::prelude::*;

verus! {

/// What covers a tile.
#[derive(Clone, Copy, Debug, PartialEq, Eq, Structural, Hash)]
pub enum Ground {
    Dirt,
    Grass,
    Stone,
    Water,
}

/// The number of grass textures in the tile set; they come first in it.
pub const GRASS_TEXTURES: u32 = 32;

/// The place of the dirt texture in the tile set.
pub const DIRT_TEXTURE: u32 = 32;

/// The place of the texture that stands for every other ground.
pub const PLAIN_TEXTURE: u32 = 4;

impl Ground {
    /// The texture of a tile with this ground. Grass takes one of its
    /// textures by `roll`, a number the caller draws at random; the others
    /// have one texture each, whatever `roll` is.
    pub open spec fn texture_index_spec(self, roll: u32) -> u32 {
        match self {
            Ground::Grass => (roll % GRASS_TEXTURES) as u32,
            Ground::Dirt => DIRT_TEXTURE,
            _ => PLAIN_TEXTURE,
        }
    }

    /// Picks the texture of a tile with this ground from the random `roll`.
    /// The texture is no part of what is saved: it is drawn anew whenever the
    /// ground changes.
    pub fn texture_index(&self, roll: u32) -> (index: u32)
        ensures
            index == self.texture_index_spec(roll),
            *self == Ground::Grass ==> index < GRASS_TEXTURES,
    {
        match self {
            Ground::Grass => roll % GRASS_TEXTURES,
            Ground::Dirt => DIRT_TEXTURE,
            _ => PLAIN_TEXTURE,
        }
    }
}

} // verus!
