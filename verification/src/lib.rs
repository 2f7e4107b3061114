//! Texture atlas packing: a guillotine packer that places rectangular
//! textures into a square atlas, a binary search for the smallest square
//! that the packer fills, and the bookkeeping that records where each
//! texture went.

pub mod geometry;
pub mod texture;
pub mod image_extract;
pub mod atlas_key;
pub mod packing;
pub mod sort;
pub mod atlas;
