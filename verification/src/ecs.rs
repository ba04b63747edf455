//! Components that blocks carry in the entity store.

use vstd::prelude::*;

verus! {

/// Network id that freshly placed energy blocks start with.
pub const PLUG: u32 = 0;

/// The registry index of a block's definition.
#[derive(Debug, Clone, Copy)]
pub struct BlockType(pub u32);

/// The top-left cell of a block.
#[derive(Debug, Clone, Copy)]
pub struct Position(pub u16, pub u16);

/// Marks a block that stores energy.
#[derive(Debug, Clone, Copy)]
pub struct PowerStorage;

/// The network a block belongs to.
#[derive(Debug, Clone, Copy)]
pub struct NetNode(pub u32);

/// The wavelength of the light a block emits and accepts.
#[derive(Debug, Clone, Copy)]
pub struct LightProperties {
    pub wavelength: u32,
}

} // verus!
