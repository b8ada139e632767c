//! The native macOS trash: `.DS_Store` metadata, trash roots and scanning.
pub mod date;
pub mod dirs;
pub mod ds_store;
pub mod item_ops;
pub mod model;
pub mod scan;
