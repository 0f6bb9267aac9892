//! Batch image cropping with resolution snapping.
//!
//! The library covers the verified core of the tool: the resolution
//! specification grammar, the normalized candidate set, the aspect-ratio
//! snapping algorithm, and the content-addressed output pipeline.

pub mod parser;
pub mod resset;
pub mod snap;
pub mod pipeline;
pub mod canon;
