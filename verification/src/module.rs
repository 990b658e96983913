//! What a loader hands over for one module: its tree, the specifiers it
//! imports and the names it exports.
//!
//! Names are atoms: the parser interns an identifier once and the bundler
//! compares atoms. A tree is the sequence of its nodes in source order; a
//! node either declares a top-level binding, refers to a name of the
//! module's scope, or is a fragment that the bundler carries over unread.

use vstd::prelude::*;
use crate::hash::{digest, ContentHash, Hasher};

verus! {

/// An interned identifier.
#[derive(Clone, Copy, PartialEq, Eq, Structural, PartialOrd, Ord, Hash, Debug)]
pub struct Atom(pub u32);

/// A node of a module's tree.
#[derive(Clone, Copy, PartialEq, Eq, Structural, Debug)]
pub enum Node {
    /// Syntax that names nothing of the module's scope, by its handle.
    Code(u32),
    /// The declaration of a top-level binding.
    Decl(Atom),
    /// A use of a name of the module's scope.
    Ref(Atom),
}

/// What an import takes from the module it names.
#[derive(Clone, Copy, PartialEq, Eq, Structural, Debug)]
pub enum Imported {
    Named(Atom),
    Default,
    Namespace,
}

/// The name under which a module offers a binding.
#[derive(Clone, Copy, PartialEq, Eq, Structural, Debug)]
pub enum Exported {
    Named(Atom),
    Default,
}

/// One name of an import: what is taken, and the local name it gets.
#[derive(Clone, Copy, PartialEq, Eq, Structural, Debug)]
pub struct ImportName {
    pub imported: Imported,
    pub local: Atom,
}

/// One export: the offered name and the binding of the module behind it.
#[derive(Clone, Copy, PartialEq, Eq, Structural, Debug)]
pub struct Export {
    pub exported: Exported,
    pub binding: Atom,
}

/// One import of a module, as written: not yet resolved.
#[derive(Clone, PartialEq, Eq, Debug)]
pub struct Import {
    pub specifier: String,
    pub names: Vec<ImportName>,
    /// Set for an import that is evaluated on demand.
    pub lazy: bool,
}

/// An import with its specifier as characters.
pub struct ImportView {
    pub specifier: Seq<char>,
    pub names: Seq<ImportName>,
    pub lazy: bool,
}

impl View for Import {
    type V = ImportView;

    open spec fn view(&self) -> ImportView {
        ImportView { specifier: self.specifier@, names: self.names@, lazy: self.lazy }
    }
}

/// The views of a list of imports, one for one.
pub open spec fn import_views(imports: Seq<Import>) -> Seq<ImportView> {
    imports.map_values(|i: Import| i@)
}

/// A module as its loader returns it.
#[derive(Clone, PartialEq, Eq, Debug)]
pub struct LoadedModule {
    pub tree: Vec<Node>,
    pub imports: Vec<Import>,
    pub exports: Vec<Export>,
}

/// A loaded module as the values it holds.
pub struct LoadedModuleView {
    pub tree: Seq<Node>,
    pub imports: Seq<ImportView>,
    pub exports: Seq<Export>,
}

impl View for LoadedModule {
    type V = LoadedModuleView;

    open spec fn view(&self) -> LoadedModuleView {
        LoadedModuleView {
            tree: self.tree@,
            imports: import_views(self.imports@),
            exports: self.exports@,
        }
    }
}


/// A node as words: its kind, then what it holds.
pub open spec fn source_words(node: Node) -> Seq<u64> {
    match node {
        Node::Code(fragment) => seq![0u64, fragment as u64],
        Node::Decl(name) => seq![1u64, name.0 as u64],
        Node::Ref(name) => seq![2u64, name.0 as u64],
    }
}

/// The first `k` nodes of a module's tree as words.
pub open spec fn content_words(tree: Seq<Node>, k: int) -> Seq<u64>
    decreases k,
{
    if k <= 0 {
        Seq::empty()
    } else {
        content_words(tree, k - 1) + source_words(tree[k - 1])
    }
}

impl LoadedModule {
    /// The digest of the module's tree: modules with the same tree have the
    /// same digest.
    pub fn content_hash(&self) -> (hash: ContentHash)
        ensures
            hash.0 == digest(content_words(self.tree@, self.tree@.len() as int)),
    {
        let mut hasher = Hasher::new();
        let mut i: usize = 0;
        assert(hasher.words() =~= content_words(self.tree@, 0));
        while i < self.tree.len()
            invariant
                i <= self.tree@.len(),
                hasher.words() == content_words(self.tree@, i as int),
            decreases self.tree.len() - i,
        {
            let ghost before = hasher.words();
            match self.tree[i] {
                Node::Code(fragment) => {
                    hasher.write(0);
                    hasher.write(fragment as u64);
                },
                Node::Decl(name) => {
                    hasher.write(1);
                    hasher.write(name.0 as u64);
                },
                Node::Ref(name) => {
                    hasher.write(2);
                    hasher.write(name.0 as u64);
                },
            }
            assert(hasher.words() =~= before + source_words(self.tree@[i as int]));
            i += 1;
        }
        hasher.finish()
    }
}

} // verus!
