//! Decision core of a two-dimensional convex-polygon collision engine.
//!
//! Coordinates, slopes and lengths are worked out by the caller. This crate
//! holds the rules that act on their outcomes: which side of an edge is
//! inside, which of several penetrations separates two shapes, which edge a
//! ray meets first, in what order overlapping pairs are reported, and how
//! registered shapes get and lose their identifiers.

pub mod lines;
pub mod nearest;
pub mod shape;
pub mod collisions;
pub mod world;
pub mod system;
pub mod vector;
