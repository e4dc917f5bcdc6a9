//! Interaction and geometry engine of a point-and-line editor: anchors placed
//! on a plane, joined into edges by drag gestures, with a trimmed
//! segment-intersection test that keeps drag-created edges from crossing.
//!
//! Coordinates are whole units held in `i16`, and every geometric decision is
//! made in exact integer arithmetic.

pub mod pos;
pub mod segment;
pub mod interaction;
pub mod gestures;
pub mod layout;
mod random;

