//! Space-sim game logic: a voxel octree with face culling and the voxel
//! structures built from it, a small immediate-mode widget toolkit and the
//! window slots around it, ships, systems and event routing, colour parsing
//! and a round-robin worker pool.

pub mod voxeltree;
pub mod octree;
pub mod octree_laws;
pub mod gui;
pub mod logic;
pub mod wl_gd_mod_resolver;
pub mod util;
pub mod color;
pub mod voxel_structure;
pub mod window_manager;
pub mod window_desc;
pub mod voxel_vol;
pub mod registry;
pub mod controls;
