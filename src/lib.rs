//! A surface-mesh engine: polygonal surfaces held as half-edge graphs over
//! flat arrays, with construction from an interchange mesh, topological
//! queries and repairs (closedness, orientation, connected components,
//! feature edges, merging, extraction) and an OBJ text codec. Vertex
//! positions are carried as an opaque type `P`.

pub mod builder;
pub mod common;
pub mod components;
pub mod errors;
pub mod extract;
pub mod face;
pub mod features;
pub mod half_edge;
pub mod io;
pub mod laws;
pub mod merge;
pub mod orient;
pub mod patch;
pub mod queries;
pub mod surface;
pub mod wavefront;
