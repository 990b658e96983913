//! The core of a module bundler: it follows the imports of the entries to a
//! dependency graph, decides which modules go into which bundle, and merges
//! the trees of each bundle into one, with every step specified and proved.

pub mod binding;
pub mod bundle;
pub mod bundler;
pub mod class;
pub mod config;
pub mod error;
pub mod graph;
pub mod hash;
pub mod id;
pub mod load;
pub mod memory;
pub mod merge;
pub mod module;
pub mod plan;
pub mod reach;
pub mod resolve;

pub use crate::bundler::{Bundle, BundleKind, Bundler, Config};
pub use crate::id::ModuleId;
pub use crate::load::Load;
pub use crate::resolve::Resolve;
