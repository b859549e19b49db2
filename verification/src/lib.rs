//! Dependency-impact browser for pacman updates: the package graph, the
//! impact counts, the flattened dependency tree and the viewer's state machine.

pub mod names;
pub mod namemap;
pub mod graph;
pub mod sort;
pub mod text;
pub mod state;
pub mod keys;
pub mod parse;
pub mod layout;
pub mod laws;
pub mod render;
