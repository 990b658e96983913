//! The settings of a run.

use vstd::prelude::*;
use crate::error::ConfigError;

verus! {

/// Whether modules that several entries need are set apart.
#[derive(Clone, Copy, PartialEq, Eq, Structural, Debug)]
pub enum MergeMode {
    /// Every entry gets one bundle, which holds all that the entry reaches.
    OneBundle,
    /// What several entries need becomes a chunk of its own.
    CodeSplit,
}

/// The module convention that the bundles are meant for.
#[derive(Clone, Copy, PartialEq, Eq, Structural, Debug)]
pub enum ModuleFormat {
    EsModule,
    CommonJs,
}

/// The settings of a run. They do not change while it lasts.
#[derive(Clone, Copy, PartialEq, Eq, Structural, Debug)]
pub struct Config {
    pub merge_mode: MergeMode,
    /// Set to put a module that is imported on demand where its importers
    /// put it, as if it were imported at once.
    pub inline_dynamic_imports: bool,
    pub module_format: ModuleFormat,
}

impl Config {
    /// Whether chunks are split off.
    pub open spec fn splits(self) -> bool {
        self.merge_mode == MergeMode::CodeSplit
    }

    /// Whether a module imported on demand gets a chunk of its own.
    pub open spec fn keeps_lazy_apart(self) -> bool {
        self.splits() && !self.inline_dynamic_imports
    }
}

/// The names of the entries, each entry being a name and a specifier.
pub open spec fn entry_names(entries: Seq<(String, String)>) -> Seq<Seq<char>> {
    Seq::new(entries.len(), |i: int| entries[i].0@)
}

/// What is wrong with the settings for entries of these names, if anything:
/// no entry at all, or else a name given twice.
pub open spec fn config_error(config: Config, names: Seq<Seq<char>>) -> Option<ConfigError> {
    if names.len() == 0 {
        Some(ConfigError::NoEntries)
    } else if exists|i: int, j: int| 0 <= i < j < names.len() && names[i] == names[j] {
        Some(ConfigError::DuplicateEntryName)
    } else {
        None
    }
}

impl Config {
    /// Checks the settings against the entries.
    pub fn validate(&self, entries: &Vec<(String, String)>) -> (found: Option<ConfigError>)
        ensures
            found == config_error(*self, entry_names(entries@)),
    {
        let ghost names = entry_names(entries@);
        if entries.len() == 0 {
            return Some(ConfigError::NoEntries);
        }
        let mut j: usize = 0;
        while j < entries.len()
            invariant
                names == entry_names(entries@),
                names.len() > 0,
                j <= entries@.len(),
                forall|a: int, b: int| 0 <= a < b < j ==> names[a] != names[b],
            decreases entries.len() - j,
        {
            let mut i: usize = 0;
            while i < j
                invariant
                    names == entry_names(entries@),
                    names.len() > 0,
                    j < entries@.len(),
                    i <= j,
                    forall|a: int| 0 <= a < i ==> names[a] != names[j as int],
                decreases j - i,
            {
                if entries[i].0 == entries[j].0 {
                    assert(names[i as int] == names[j as int]);
                    return Some(ConfigError::DuplicateEntryName);
                }
                i += 1;
            }
            j += 1;
        }
        None
    }
}

} // verus!
