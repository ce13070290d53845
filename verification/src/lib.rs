//! Compact columnar storage for 2D vector paths built from straight and
//! quadratic-curve subpaths, together with the algorithms to build the
//! storage from a stream of path commands, reconstruct that stream, reverse
//! a subpath's winding direction in place, and decompose a command stream
//! into discrete drawable segments.

pub mod buffer;
pub mod geometry;
pub mod laws;
pub mod segments;
pub mod stream;
