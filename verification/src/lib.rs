//! A type-erased slab: one growable byte buffer that stores values of
//! independently chosen types under integer keys, with a list of reusable
//! holes and a directory that records which type lives at which key.

pub mod directory;
pub mod hole;
pub mod holes;
pub mod laws;
pub mod slab;
pub mod storable;

pub use hole::Hole;
pub use slab::{AnySlab, AnySlabError};
pub use storable::{DoubleBits, FloatBits, Storable};
