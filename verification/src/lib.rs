//! A shape registry with ordered compositing and change tracking.
//!
//! The registry holds drawable primitives, keeps them in a deterministic
//! paint order (stacking key ascending, id ascending as tie-break), tracks
//! which primitives changed since the last frame, and decides when a raster
//! pass is due.  The raster buffer itself and the JSON wire format live with
//! the host; this crate owns the ordering invariant, the two-level dirty
//! protocol, and the batch-application rules, all of them verified.

pub mod board;
pub mod contracts;
pub mod model;
pub mod registry;
pub mod text;
