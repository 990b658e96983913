use vstd::prelude::*;
use crate::id::ModuleId;
use crate::module::{LoadedModule, LoadedModuleView};

verus! {

/// Says that a resolved module could not be read or parsed.
#[derive(Clone, Copy, PartialEq, Eq, Debug)]
pub struct LoadError;

/// Reads and parses the module behind an identifier.
pub trait Load {
    /// What `load` returns for `id`, `None` where it fails: a function of
    /// `id` alone, for as long as the loader serves one run.
    open spec fn source(&self, id: ModuleId) -> Option<LoadedModuleView> {
        arbitrary()
    }

    fn load(&self, id: ModuleId) -> (r: Result<LoadedModule, LoadError>)
        ensures
            match r {
                Ok(m) => self.source(id) == Some(m@),
                Err(_) => self.source(id).is_none(),
            },
    ;
}

} // verus!
