use vstd::prelude::*;

verus! {

/// Identifier of a resolved module. Only a resolver makes one; the graph keys
/// its vertices by it.
#[derive(Clone, Copy, PartialEq, Eq, Structural, PartialOrd, Ord, Hash, Debug)]
pub struct ModuleId(pub u32);

impl ModuleId {
    /// The number that stands behind the identifier.
    pub fn raw(self) -> (n: u32)
        ensures
            n == self.0,
    {
        self.0
    }
}

} // verus!
