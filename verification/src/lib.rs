//! Incremental planar Delaunay triangulation (Bowyer-Watson) and its dual
//! Voronoi diagram, over exact integer coordinates, together with a small
//! memory-layout description module.

#![allow(non_snake_case)]

pub mod error;
pub mod geometry;
pub mod layout;
pub mod triangulation;
pub mod voronoi;
