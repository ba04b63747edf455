//! Game logic of Photonical: block registry, the block grid, light-beam
//! energy networks, texture-atlas layout and input state.

pub mod defs;
pub mod dsu;
pub mod json;
pub mod network;
pub mod world;
pub mod atlas;
pub mod camera;
pub mod ecs;
pub mod entity;
pub mod block_list;
pub mod paths;
pub mod click;
pub mod scripts;
