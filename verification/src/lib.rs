//! A personal knowledge-base engine: notes are cut into sentences, indexed
//! under their titles, searched by tag, and tagged by a classifier trained on
//! the workspace's own content.

pub mod text;
pub mod segment;
pub mod context;
pub mod tag;
pub mod note;
pub mod index;
pub mod classifier;
pub mod workspace;
pub mod registry;
pub mod commands;
pub mod search;
