//! The parallel update engine of a particle simulation: the bookkeeping of a
//! fixed task pool with a completion barrier, the static split of the particle
//! buffer among the workers, the tasks of one step, and the saturating density
//! grids that the workers fill and the driver merges.

pub mod density;
pub mod error;
pub mod partition;
pub mod pool;
pub mod wave;
