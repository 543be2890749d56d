//! Constraint-graph construction and greedy coloring for triangulated meshes.
//!
//! From a mesh (a vertex count and a triangle index list) the library builds
//! an undirected adjacency graph over the vertices, optionally augments it
//! with two-hop "diagonal" edges, transforms it into its line graph (one
//! `Edge` per undirected vertex pair, edges adjacent when they share an
//! endpoint), and colors that edge graph with a DSATUR-style greedy
//! heuristic so that no two adjacent edges share a color.  Each color class
//! is then safe to process in parallel downstream.

pub mod edge;
pub mod graph;
pub mod mesh;
pub mod node;
