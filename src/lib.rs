//! A directed multigraph held as a dense bit matrix, with cycle detection,
//! decomposition into traversals rooted at source nodes, and rendering of that
//! decomposition as DOT text.

pub mod bits;
pub mod storage;
pub mod adjac;
pub mod dotutils;
pub mod multidigraph;
