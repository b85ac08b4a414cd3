//! A consistent-hashing ring: nodes sit on a circle of 64-bit positions, and a
//! key belongs to the first node found clockwise from the key's own position.
//!
//! - [`circle`] says, over sets and maps, what the clockwise successor of a
//!   position is and what a key resolves to.
//! - [`laws`] proves what follows for every ring.
//! - [`hashing`] gives a node or a key its position.
//! - [`ring`] is the data structure.

pub mod circle;
pub mod hashing;
pub mod laws;
pub mod ring;

pub use hashing::position_of;
pub use ring::HashRing;
