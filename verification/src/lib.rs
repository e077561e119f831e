//! Counting dead ends in a GFA (Graphical Fragment Assembly) graph.
//!
//! A segment of an assembly graph has two extremities, its start and its
//! end. An extremity that no link touches is a dead end. The `gfa` module
//! loads segment and link records from the bytes of a GFA file (plain or
//! gzip-compressed); the `analyzer` module counts how many extremities
//! remain unconnected once every link has been applied.

pub mod analyzer;
pub mod gfa;
pub mod misc;
