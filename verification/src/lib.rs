//! Overlook: exploring Piton specifications.
//!
//! The library holds the logic of the application: reading `.pi` files,
//! building the graph of a specbase, the positions the language server speaks
//! in, and the pieces of the interface that decide rather than draw.

pub mod text;
pub mod parser;
pub mod lsp;
pub mod model;
pub mod paths;
pub mod walk;
pub mod loader;
pub mod graph;
pub mod reach;
pub mod node_map;
pub mod toolbar;
pub mod status;
pub mod application;
pub mod editor;
pub mod theme;
pub mod json;
pub mod client;
pub mod highlight;
