//! Canonical named streets from raw map ways: extraction of street segments,
//! grouping by shared nodes and by proximity, and attribute consensus.

pub mod connectivity;
pub mod consensus;
pub mod extract;
pub mod flood_fill;
pub mod graph;
pub mod grouping_laws;
pub mod merging;
pub mod pipeline;
pub mod segment;
pub mod spatial;
pub mod street_laws;
pub mod streets;
pub mod tags;
