//! A spatially indexed model of a node-and-edge diagram.
//!
//! Nodes are labelled axis-aligned rectangles and edges join the centres of
//! two nodes. A display graph owns both, keeps the bounding region of every
//! element in an R-tree, and keeps for every node the list of the edges that
//! touch it, so that a node can be moved without a scan of all edges and the
//! node under a point can be found without a scan of all nodes.
//!
//! All geometry lives on an integer lattice: a coordinate is a whole number
//! of lattice units between `-SCENE_LIMIT` and `SCENE_LIMIT`. How many units
//! make up a pixel is for the application to choose.

pub mod display_graph;
pub mod element_id;
pub mod geometry;
pub mod graph;
mod ident;
