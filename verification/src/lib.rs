//! Region-partitioned extraction of road-network polylines.
//!
//! The library consumes a stream of map elements (nodes and ways), caches
//! node coordinates per named rectangular region, and reconstructs each
//! qualifying way's geometry in the first region whose cache resolves every
//! one of the way's node identifiers. Coordinates are held in fixed-point
//! decimicro-degrees, the native precision of the input format.

pub mod builder;
pub mod geom;
pub mod laws;
pub mod region;
pub mod sink;
pub mod stream;
pub mod tags;
