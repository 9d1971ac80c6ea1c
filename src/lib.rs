//! Procedural dungeon generation on a tile grid, with two strategies:
//! binary space partitioning and random room placement.

pub mod binary_partition_builder;
pub mod dungeon;
pub mod grid;
pub mod room_placement_builder;
mod random;
pub mod union_find;

pub use binary_partition_builder::BinaryPartitionBuilder;
pub use room_placement_builder::RoomPlacementBuilder;
