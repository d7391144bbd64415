//! Verified core of a headless resin (MSLA) slicer: mesh merging, face
//! adjacency, overhang grouping, island classification, pillar placement and
//! the choices of the command line.

pub mod cli;
pub mod mesh;
pub mod pipeline;
pub mod printer;
pub mod supports;
