//! Navigation for a `category/package` source tree: locating the tree,
//! indexing its packages, resolving a typed name to a package directory and
//! browsing a package's files.

pub mod error;
pub mod index;
pub mod json;
pub mod new;
pub mod order;
pub mod parser;
pub mod path;
pub mod text;
pub mod tree;
pub mod view;
