//! A grid distance field around the complete graph of placed nodes.
//!
//! Nodes sit on grid cells; every pair of nodes is joined by a straight
//! segment; each cell is classified by how close it lies to the segments.
//! All arithmetic is exact: points on segments are rationals, distances are
//! counted in thousandths of a cell.
pub mod direction;
pub mod field;
pub mod geometry;
pub mod graph;
pub mod input;
