//! Layout core of a tiling window manager: a tree of containers and window
//! leaves per output, with insertion, splitting, removal and its cleanup,
//! swapping, resizing by ratios, neighbour search, and the rectangles that
//! all of these give to every window, handed out as batches of updates.
//!
//! `geometry` holds rectangles and the ratio arithmetic of a layout, `node`
//! the ids and nodes, `tree` the arena-backed tree and its operations,
//! `siblings` the searches along the tree, `resize` ratio-based resizing, and
//! `config` the key actions that drive them.

pub mod config;
pub mod geometry;
pub mod node;
pub mod resize;
pub mod siblings;
pub mod tree;
