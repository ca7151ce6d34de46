//! Integer core of a two-dimensional rigid-body engine: identifiers and their
//! pairing, the uniform grid that indexes bodies by cell, the broad phase that
//! enumerates candidate pairs, and the world's bookkeeping of bodies and
//! collision pairs.
use vstd::prelude::*;

pub mod broad_phase;
pub mod collision_pair;
pub mod grid;
pub mod ids;
pub mod pairing;
pub mod world;

verus! {

/// Identifier of a body, unique within a world.
pub type Id = u16;

/// Order-independent identifier of a pair of bodies.
pub type PairId = u64;

/// Step counter of a world.
pub type Frame = u32;

} // verus!
