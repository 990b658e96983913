use vstd::prelude::*;
use crate::id::ModuleId;

verus! {

/// Says that a specifier could not be mapped to a module.
#[derive(Clone, Copy, PartialEq, Eq, Debug)]
pub struct ResolveError;

/// Maps a specifier, as one module writes it, to the module it means.
pub trait Resolve {
    /// What `resolve` answers for the pair, `None` where it fails: a function
    /// of the pair alone, for as long as the resolver serves one run.
    open spec fn target(&self, importer: Option<ModuleId>, specifier: Seq<char>) -> Option<
        ModuleId,
    > {
        arbitrary()
    }

    fn resolve(&self, importer: Option<ModuleId>, specifier: &String) -> (r: Result<
        ModuleId,
        ResolveError,
    >)
        ensures
            match r {
                Ok(id) => self.target(importer, specifier@) == Some(id),
                Err(_) => self.target(importer, specifier@).is_none(),
            },
    ;
}

} // verus!
