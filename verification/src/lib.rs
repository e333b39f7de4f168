//! Harvesting of random bytes from image-sensor noise.
//!
//! Two extraction strategies turn grayscale pixel buffers into raw bit
//! streams, a von Neumann pass removes first-order bias, a Shannon-entropy
//! estimator and a lens-coverage detector gate the output, and an
//! accumulation state machine drives the whole loop until a requested
//! number of bytes has been collected.

pub mod accumulate;
pub mod bitpack;
pub mod engine;
pub mod extract;
pub mod quality;
pub mod surface;
pub mod whiten;

pub use engine::Ocelli;
pub use surface::{chop_and_tack, is_covered, pick_and_flip, shannon, whiten};
