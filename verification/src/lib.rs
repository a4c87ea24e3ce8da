//! The logic of an org-roam graph viewer: reading the notes database into a
//! graph, laying it out, filtering and searching it, answering keys, pacing
//! frames, and opening notes in Emacs.

pub mod config;
pub mod db;
pub mod display_link;
pub mod emacs;
pub mod filters;
pub mod graph;
pub mod keys;
pub mod layout;
pub mod motion;
pub mod pacer;
pub mod reach;
pub mod status;
pub mod style;
pub mod text;
pub mod view;

pub use config::Config;
pub use db::RawNode;
pub use emacs::EmacsClient;
pub use graph::{Graph, Node};
