//! Verified core of a soft-jaw generator: grid layout, the combinatorial
//! part of dual contouring, binary STL framing and the pipeline's checks.

pub mod grid;
pub mod dc;
pub mod stl;
pub mod jaw;
pub mod output;
pub mod surface;
pub mod manifold;
