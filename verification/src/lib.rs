//! Read-side library for the region files of a block world: coordinate
//! algebra, block values, section decoding and network encoding, chunk
//! assembly, the region reader and the cache of regions of a world.

pub mod bits;
pub mod block;
pub mod chunk;
pub mod error;
pub mod level;
pub mod network;
pub mod order;
pub mod position;
pub mod readback;
pub mod region;
pub mod section;
pub mod tag;
pub mod text;
pub mod wire;
pub mod world;

pub use crate::block::Block;
pub use crate::chunk::Chunk;
pub use crate::error::McaParseError;
pub use crate::level::Level;
pub use crate::position::Position;
pub use crate::region::Region;
pub use crate::section::Section;
pub use crate::world::World;
