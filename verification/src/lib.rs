//! Filesystem-backed note storage core: a verified model of a storage tree
//! under a single root, with path-derived entry identities, an extension
//! allow-list, folder-tree materialization, and the decision logic of a
//! PDF-rendering bridge.

pub mod errors;
pub mod laws;
pub mod locate;
pub mod model;
pub mod paths;
pub mod render;
pub mod store;
pub mod tree;
pub mod walk;
