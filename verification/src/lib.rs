//! Perfect mazes on periodic polygon tilings.
//!
//! A [`tiling::Tiling`] describes one repeating tile of polygons and how the
//! sides of those polygons meet; [`tilings`] holds the tilings known by name.
//! [`maze::Maze`] holds the cells that a region keeps of a tiling, found as
//! [`flood`] describes, and the walls between them. The [`generators`] carve
//! passages into a maze, step by step, so that the passages form a tree
//! ([`graph`]), and [`highlights`] applies what they report.

pub mod flood;
pub mod generators;
pub mod graph;
pub mod highlights;
pub mod lattice;
pub mod maze;
pub mod random;
pub mod text;
pub mod tiling;
pub mod tilings;
