//! Verified core of a command-line trash utility for macOS trash folders.
pub mod args;
pub mod empty;
pub mod error;
pub mod list;
pub mod order;
pub mod path;
pub mod put;
pub mod restore;
pub mod rm;
pub mod text;
pub mod trash;
pub mod unicode;
