//! A resolver and a loader over modules that are held in memory.

use vstd::prelude::*;
use crate::id::ModuleId;
use crate::load::{Load, LoadError};
use crate::module::{
    import_views, Export, Import, ImportName, LoadedModule, LoadedModuleView, Node,
};
use crate::resolve::{Resolve, ResolveError};

verus! {

/// The module of the first path from `i` on that is written `specifier`.
pub open spec fn path_from(paths: Seq<(String, ModuleId)>, specifier: Seq<char>, i: int) -> Option<
    ModuleId,
>
    decreases paths.len() - i,
{
    if i < 0 || i >= paths.len() {
        None
    } else if paths[i].0@ == specifier {
        Some(paths[i].1)
    } else {
        path_from(paths, specifier, i + 1)
    }
}

/// The first module from `i` on that is kept under `id`.
pub open spec fn module_from(modules: Seq<(ModuleId, LoadedModule)>, id: ModuleId, i: int)
    -> Option<LoadedModuleView>
    decreases modules.len() - i,
{
    if i < 0 || i >= modules.len() {
        None
    } else if modules[i].0 == id {
        Some(modules[i].1@)
    } else {
        module_from(modules, id, i + 1)
    }
}

/// Resolves a specifier to the module that the first path of that spelling
/// names, whoever imports it.
pub struct MemoryResolver {
    pub paths: Vec<(String, ModuleId)>,
}

/// Hands over a copy of the first module kept under an identifier.
pub struct MemoryLoader {
    pub modules: Vec<(ModuleId, LoadedModule)>,
}

impl Resolve for MemoryResolver {
    open spec fn target(&self, importer: Option<ModuleId>, specifier: Seq<char>) -> Option<
        ModuleId,
    > {
        path_from(self.paths@, specifier, 0)
    }

    fn resolve(&self, importer: Option<ModuleId>, specifier: &String) -> (r: Result<
        ModuleId,
        ResolveError,
    >) {
        let mut i: usize = 0;
        while i < self.paths.len()
            invariant
                i <= self.paths@.len(),
                path_from(self.paths@, specifier@, 0) == path_from(
                    self.paths@,
                    specifier@,
                    i as int,
                ),
            decreases self.paths.len() - i,
        {
            if self.paths[i].0 == *specifier {
                return Ok(self.paths[i].1);
            }
            i += 1;
        }
        Err(ResolveError)
    }
}

fn copy_nodes(nodes: &Vec<Node>) -> (copy: Vec<Node>)
    ensures
        copy@ == nodes@,
{
    let mut copy: Vec<Node> = Vec::new();
    let mut i: usize = 0;
    while i < nodes.len()
        invariant
            i <= nodes@.len(),
            copy@ == nodes@.take(i as int),
        decreases nodes.len() - i,
    {
        copy.push(nodes[i]);
        assert(copy@ =~= nodes@.take(i + 1));
        i += 1;
    }
    assert(nodes@.take(i as int) =~= nodes@);
    copy
}

fn copy_names(names: &Vec<ImportName>) -> (copy: Vec<ImportName>)
    ensures
        copy@ == names@,
{
    let mut copy: Vec<ImportName> = Vec::new();
    let mut i: usize = 0;
    while i < names.len()
        invariant
            i <= names@.len(),
            copy@ == names@.take(i as int),
        decreases names.len() - i,
    {
        copy.push(names[i]);
        assert(copy@ =~= names@.take(i + 1));
        i += 1;
    }
    assert(names@.take(i as int) =~= names@);
    copy
}

fn copy_exports(exports: &Vec<Export>) -> (copy: Vec<Export>)
    ensures
        copy@ == exports@,
{
    let mut copy: Vec<Export> = Vec::new();
    let mut i: usize = 0;
    while i < exports.len()
        invariant
            i <= exports@.len(),
            copy@ == exports@.take(i as int),
        decreases exports.len() - i,
    {
        copy.push(exports[i]);
        assert(copy@ =~= exports@.take(i + 1));
        i += 1;
    }
    assert(exports@.take(i as int) =~= exports@);
    copy
}

fn copy_imports(imports: &Vec<Import>) -> (copy: Vec<Import>)
    ensures
        import_views(copy@) == import_views(imports@),
{
    let mut copy: Vec<Import> = Vec::new();
    let mut i: usize = 0;
    while i < imports.len()
        invariant
            i <= imports@.len(),
            copy@.len() == i,
            forall|k: int| 0 <= k < i ==> (#[trigger] copy@[k])@ == imports@[k]@,
        decreases imports.len() - i,
    {
        let import = &imports[i];
        copy.push(
            Import {
                specifier: import.specifier.clone(),
                names: copy_names(&import.names),
                lazy: import.lazy,
            },
        );
        i += 1;
    }
    assert(import_views(copy@) =~= import_views(imports@));
    copy
}

/// A copy of a module: node for node, import for import, export for export.
pub fn copy_module(module: &LoadedModule) -> (copy: LoadedModule)
    ensures
        copy@ == module@,
{
    LoadedModule {
        tree: copy_nodes(&module.tree),
        imports: copy_imports(&module.imports),
        exports: copy_exports(&module.exports),
    }
}

impl Load for MemoryLoader {
    open spec fn source(&self, id: ModuleId) -> Option<LoadedModuleView> {
        module_from(self.modules@, id, 0)
    }

    fn load(&self, id: ModuleId) -> (r: Result<LoadedModule, LoadError>) {
        let mut i: usize = 0;
        while i < self.modules.len()
            invariant
                i <= self.modules@.len(),
                module_from(self.modules@, id, 0) == module_from(self.modules@, id, i as int),
            decreases self.modules.len() - i,
        {
            if self.modules[i].0 == id {
                return Ok(copy_module(&self.modules[i].1));
            }
            i += 1;
        }
        Err(LoadError)
    }
}

} // verus!
