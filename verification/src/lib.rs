//! Operational-transformation core for attributed rich text.
//!
//! A document edit is a [`delta::Delta`]: an ordered run of retain, insert and
//! delete operations over Unicode scalar values, each optionally carrying
//! formatting attributes. The algebra on deltas — `apply`, `compose`,
//! `transform`, `invert` — is what makes collaborative editing converge, and
//! its contracts here are stated over a mathematical model of operation
//! sequences so the algebraic laws can be proved rather than hoped for.

pub mod attributes;
pub mod compose;
pub mod delta;
pub mod errors;
pub mod interval;
pub mod invert;
pub mod laws;
pub mod model;
pub mod operation;
pub mod transform;

pub use attributes::Attributes;
pub use attributes::AttributesData;
pub use delta::Delta;
pub use errors::OTError;
pub use interval::Interval;
pub use operation::Operation;
