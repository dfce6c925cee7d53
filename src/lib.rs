//! A chunked voxel world: lazily created cubic chunks of material cells,
//! a deferred write queue for chunks that do not exist yet, a gravity-like
//! placement resolver, and the radial/conical material search used by sensors.

pub mod coords;
pub mod rng;
pub mod block;
pub mod material;
pub mod direction;
pub mod changes;
pub mod lazyworld;
pub mod wholeworld;
pub mod radar;
