//! Why a run ends without bundles.

use vstd::prelude::*;
use crate::id::ModuleId;
use crate::module::Atom;

verus! {

/// Settings that contradict each other or name nothing to bundle. Found
/// before the first module is resolved.
#[derive(Clone, Copy, PartialEq, Eq, Structural, Debug)]
pub enum ConfigError {
    /// No entry was given.
    NoEntries,
    /// Two entries share a name.
    DuplicateEntryName,
}

/// Why a run gave no bundles.
#[derive(Clone, PartialEq, Eq, Debug)]
pub enum BundleError {
    Config(ConfigError),
    /// The resolver has no module for `specifier`, written in `importer`
    /// (`None`: written as an entry).
    Resolve { importer: Option<ModuleId>, specifier: String },
    /// The loader could not hand over the module `id`.
    Load { id: ModuleId },
    /// Two bindings of one unit came to the same final name. A defect of the
    /// bundler, which no input brings about.
    MergeConflict { module: ModuleId, name: Atom },
}

/// A failure with its specifier as characters.
pub enum BundleErrorView {
    Config(ConfigError),
    Resolve { importer: Option<ModuleId>, specifier: Seq<char> },
    Load { id: ModuleId },
    MergeConflict { module: ModuleId, name: Atom },
}

impl View for BundleError {
    type V = BundleErrorView;

    open spec fn view(&self) -> BundleErrorView {
        match *self {
            BundleError::Config(e) => BundleErrorView::Config(e),
            BundleError::Resolve { importer, specifier } => BundleErrorView::Resolve {
                importer,
                specifier: specifier@,
            },
            BundleError::Load { id } => BundleErrorView::Load { id },
            BundleError::MergeConflict { module, name } => BundleErrorView::MergeConflict {
                module,
                name,
            },
        }
    }
}

} // verus!
