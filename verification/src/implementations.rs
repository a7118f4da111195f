//! The containers that satisfy the contract out of the box.

pub mod btreemap;
pub mod circular_buffer;
pub mod hashmap;
pub mod positional;
pub mod vec;
