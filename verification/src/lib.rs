//! Integer core of a procedural world generator: the Voronoi/Delaunay topology, plate
//! assignment by breadth-first search, distance fields, plate connectivity, the world
//! fingerprint, and the bitmap font used to label animation frames.

pub mod graph;
pub mod mesh;
pub mod hydrology;
pub mod tectonics;
pub mod pipeline;
pub mod gif_export;
pub mod drawer;
