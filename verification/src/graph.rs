//! The dependency graph and its discovery.
//!
//! Vertices are modules, numbered in the order of their discovery; the edges
//! of a vertex are its imports, each with the vertex it resolved to.
//! Discovery goes breadth first from the entries: a module is loaded once,
//! when its turn comes, and each of its specifiers is resolved once.

use vstd::prelude::*;
use crate::error::{BundleError, BundleErrorView};
use crate::id::ModuleId;
use crate::load::Load;
use crate::module::{
    import_views, Export, Import, ImportName, ImportView, LoadedModule, LoadedModuleView, Node,
};
use crate::resolve::Resolve;

verus! {

/// A loaded module with its imports resolved: `targets[j]` is the vertex
/// that `imports[j]` leads to.
#[derive(Clone, PartialEq, Eq, Debug)]
pub struct Module {
    pub id: ModuleId,
    pub tree: Vec<Node>,
    pub imports: Vec<Import>,
    pub targets: Vec<usize>,
    pub exports: Vec<Export>,
}

/// A vertex as the values it holds.
pub struct ModuleView {
    pub id: ModuleId,
    pub tree: Seq<Node>,
    pub imports: Seq<ImportView>,
    pub targets: Seq<usize>,
    pub exports: Seq<Export>,
}

impl View for Module {
    type V = ModuleView;

    open spec fn view(&self) -> ModuleView {
        ModuleView {
            id: self.id,
            tree: self.tree@,
            imports: import_views(self.imports@),
            targets: self.targets@,
            exports: self.exports@,
        }
    }
}

/// The views of a list of modules, one for one.
pub open spec fn module_views(modules: Seq<Module>) -> Seq<ModuleView> {
    modules.map_values(|m: Module| m@)
}

/// The modules reachable from the entries, and for each entry its vertex.
#[derive(Clone, PartialEq, Eq, Debug)]
pub struct DependencyGraph {
    pub modules: Vec<Module>,
    pub entries: Vec<usize>,
}

/// A graph as the values it holds.
pub struct GraphView {
    pub modules: Seq<ModuleView>,
    pub entries: Seq<usize>,
}

impl View for DependencyGraph {
    type V = GraphView;

    open spec fn view(&self) -> GraphView {
        GraphView { modules: module_views(self.modules@), entries: self.entries@ }
    }
}

impl GraphView {
    /// Every edge and every entry leads to a vertex, each import has its
    /// target, and no module stands at two vertices.
    pub open spec fn wf(self) -> bool {
        &&& forall|v: int|
            0 <= v < self.modules.len() ==> (#[trigger] self.modules[v]).targets.len()
                == self.modules[v].imports.len()
        &&& forall|v: int, j: int|
            0 <= v < self.modules.len() && 0 <= j < self.modules[v].targets.len() ==> (
            #[trigger] self.modules[v].targets[j]) < self.modules.len()
        &&& forall|e: int|
            0 <= e < self.entries.len() ==> (#[trigger] self.entries[e]) < self.modules.len()
        &&& forall|u: int, v: int|
            0 <= u < v < self.modules.len() ==> (#[trigger] self.modules[u]).id != (
            #[trigger] self.modules[v]).id
    }

    /// Whether the graph says what the resolver and the loader say: each
    /// module is what the loader has for its identifier, each import leads
    /// where the resolver sends its specifier, and so does each entry.
    pub open spec fn faithful<R: Resolve, L: Load>(
        self,
        resolver: &R,
        loader: &L,
        entries: Seq<Seq<char>>,
    ) -> bool {
        &&& self.entries.len() == entries.len()
        &&& forall|e: int|
            0 <= e < entries.len() ==> resolver.target(None, #[trigger] entries[e]) == Some(
                self.modules[self.entries[e] as int].id,
            )
        &&& forall|v: int|
            0 <= v < self.modules.len() ==> loader.source((#[trigger] self.modules[v]).id)
                == Some(
                LoadedModuleView {
                    tree: self.modules[v].tree,
                    imports: self.modules[v].imports,
                    exports: self.modules[v].exports,
                },
            )
        &&& forall|v: int, j: int|
            0 <= v < self.modules.len() && 0 <= j < self.modules[v].imports.len()
                ==> resolver.target(
                Some(self.modules[v].id),
                (#[trigger] self.modules[v].imports[j]).specifier,
            ) == Some(self.modules[self.modules[v].targets[j] as int].id)
    }
}

impl GraphView {
    /// Whether every vertex is the vertex of an entry or the target of an
    /// import of an earlier vertex.
    pub open spec fn grown_from_entries(self) -> bool {
        forall|t: int| 0 <= t < self.modules.len() ==> #[trigger] self.has_origin(t)
    }

    /// Whether `t` is the vertex of an entry or the target of an import of
    /// an earlier vertex.
    pub open spec fn has_origin(self, t: int) -> bool {
        ||| exists|e: int| 0 <= e < self.entries.len() && #[trigger] self.entries[e] == t
        ||| exists|p: int, j: int|
            0 <= p < t && 0 <= j < self.modules[p].targets.len()
                && #[trigger] self.modules[p].targets[j] == t
    }
}

/// A call that discovery makes.
pub enum Call {
    Resolve { importer: Option<ModuleId>, specifier: Seq<char> },
    Load { id: ModuleId },
}

/// The identifiers known so far with `id` among them: at the end if it is new.
pub open spec fn place(ids: Seq<ModuleId>, id: ModuleId) -> Seq<ModuleId> {
    if ids.contains(id) {
        ids
    } else {
        ids.push(id)
    }
}

/// The identifiers known after some imports were resolved, and the vertex of
/// each of them.
pub struct Linked {
    pub ids: Seq<ModuleId>,
    pub targets: Seq<usize>,
}

/// Resolves the first `n` of `imports`, written in `importer`, in order,
/// starting from the identifiers `ids`. An import that the resolver cannot
/// map ends it: the result is then the index of the first such import.
pub open spec fn linked<R: Resolve>(
    resolver: &R,
    importer: Option<ModuleId>,
    imports: Seq<ImportView>,
    ids: Seq<ModuleId>,
    n: nat,
) -> Result<Linked, int>
    decreases n,
{
    if n == 0 {
        Ok(Linked { ids, targets: Seq::empty() })
    } else {
        match linked(resolver, importer, imports, ids, (n - 1) as nat) {
            Err(i) => Err(i),
            Ok(before) => match resolver.target(importer, imports[n - 1].specifier) {
                None => Err(n - 1),
                Some(id) => Ok(
                    Linked {
                        ids: place(before.ids, id),
                        targets: before.targets.push(place(before.ids, id).index_of(id) as usize),
                    },
                ),
            },
        }
    }
}

/// The identifiers known and the modules loaded at some point of discovery.
pub struct Explored {
    pub ids: Seq<ModuleId>,
    pub modules: Seq<ModuleView>,
}

/// The module `id` as a vertex: what was loaded for it, with its targets.
pub open spec fn as_vertex(id: ModuleId, loaded: LoadedModuleView, targets: Seq<usize>)
    -> ModuleView {
    ModuleView {
        id,
        tree: loaded.tree,
        imports: loaded.imports,
        targets,
        exports: loaded.exports,
    }
}

/// Discovery after `k` turns, from the identifiers `start`. A turn loads the
/// first identifier not yet loaded and resolves its imports; when none is
/// left a turn changes nothing. The first call that fails ends discovery.
pub open spec fn explored<R: Resolve, L: Load>(
    resolver: &R,
    loader: &L,
    start: Seq<ModuleId>,
    k: nat,
) -> Result<Explored, BundleErrorView>
    decreases k,
{
    if k == 0 {
        Ok(Explored { ids: start, modules: Seq::empty() })
    } else {
        match explored(resolver, loader, start, (k - 1) as nat) {
            Err(e) => Err(e),
            Ok(before) => if before.modules.len() >= before.ids.len() {
                Ok(before)
            } else {
                let id = before.ids[before.modules.len() as int];
                match loader.source(id) {
                    None => Err(BundleErrorView::Load { id }),
                    Some(loaded) => match linked(
                        resolver,
                        Some(id),
                        loaded.imports,
                        before.ids,
                        loaded.imports.len(),
                    ) {
                        Err(i) => Err(
                            BundleErrorView::Resolve {
                                importer: Some(id),
                                specifier: loaded.imports[i].specifier,
                            },
                        ),
                        Ok(after) => Ok(
                            Explored {
                                ids: after.ids,
                                modules: before.modules.push(
                                    as_vertex(id, loaded, after.targets),
                                ),
                            },
                        ),
                    },
                }
            },
        }
    }
}

/// The entries as imports: a specifier each, and no names.
pub open spec fn as_imports(specifiers: Seq<Seq<char>>) -> Seq<ImportView> {
    Seq::new(
        specifiers.len(),
        |i: int| ImportView { specifier: specifiers[i], names: Seq::empty(), lazy: false },
    )
}

/// The graph that the entries `specifiers` lead to, or the first failure on
/// the way: the entries are resolved in order, then the modules are loaded
/// in the order of their discovery until none is left.
pub open spec fn discovered<R: Resolve, L: Load>(
    resolver: &R,
    loader: &L,
    specifiers: Seq<Seq<char>>,
) -> Result<GraphView, BundleErrorView> {
    match linked(resolver, None, as_imports(specifiers), Seq::empty(), specifiers.len()) {
        Err(i) => Err(BundleErrorView::Resolve { importer: None, specifier: specifiers[i] }),
        Ok(roots) => match explored(resolver, loader, roots.ids, usize::MAX as nat) {
            Err(e) => Err(e),
            Ok(end) => Ok(GraphView { modules: end.modules, entries: roots.targets }),
        },
    }
}


/// The specifiers of the entries, each entry being a name and a specifier.
pub open spec fn entry_specifiers(entries: Seq<(String, String)>) -> Seq<Seq<char>> {
    Seq::new(entries.len(), |i: int| entries[i].1@)
}

proof fn lemma_linked_failure_stays<R: Resolve>(
    resolver: &R,
    importer: Option<ModuleId>,
    imports: Seq<ImportView>,
    ids: Seq<ModuleId>,
    n: nat,
    m: nat,
)
    requires
        linked(resolver, importer, imports, ids, n) is Err,
        n <= m,
    ensures
        linked(resolver, importer, imports, ids, m) == linked(resolver, importer, imports, ids, n),
    decreases m,
{
    if n < m {
        lemma_linked_failure_stays(resolver, importer, imports, ids, n, (m - 1) as nat);
    }
}

proof fn lemma_explored_failure_stays<R: Resolve, L: Load>(
    resolver: &R,
    loader: &L,
    start: Seq<ModuleId>,
    k: nat,
    m: nat,
)
    requires
        explored(resolver, loader, start, k) is Err,
        k <= m,
    ensures
        explored(resolver, loader, start, m) == explored(resolver, loader, start, k),
    decreases m,
{
    if k < m {
        lemma_explored_failure_stays(resolver, loader, start, k, (m - 1) as nat);
    }
}

proof fn lemma_explored_settles<R: Resolve, L: Load>(
    resolver: &R,
    loader: &L,
    start: Seq<ModuleId>,
    k: nat,
    m: nat,
)
    requires
        explored(resolver, loader, start, k) matches Ok(end) && end.modules.len()
            >= end.ids.len(),
        k <= m,
    ensures
        explored(resolver, loader, start, m) == explored(resolver, loader, start, k),
    decreases m,
{
    if k < m {
        lemma_explored_settles(resolver, loader, start, k, (m - 1) as nat);
    }
}

pub(crate) fn find_or_push(ids: &mut Vec<ModuleId>, id: ModuleId) -> (at: usize)
    requires
        old(ids)@.no_duplicates(),
    ensures
        final(ids)@ == place(old(ids)@, id),
        final(ids)@.no_duplicates(),
        at < final(ids)@.len(),
        final(ids)@[at as int] == id,
        at == final(ids)@.index_of(id),
{
    let mut i: usize = 0;
    while i < ids.len()
        invariant
            i <= ids.len(),
            ids@ == old(ids)@,
            ids@.no_duplicates(),
            forall|j: int| 0 <= j < i ==> ids@[j] != id,
        decreases ids.len() - i,
    {
        if ids[i] == id {
            assert(ids@.contains(id));
            assert(ids@.index_of(id) == i);
            return i;
        }
        i += 1;
    }
    assert(!ids@.contains(id));
    ids.push(id);
    let at = ids.len() - 1;
    assert(ids@[at as int] == id);
    assert(ids@.index_of(id) == at);
    at
}

/// The first import before the `j`th that has its specifier, if any.
fn earlier_same(imports: &Vec<Import>, j: usize) -> (found: Option<usize>)
    requires
        j < imports.len(),
    ensures
        match found {
            Some(q) => q < j && imports@[q as int].specifier@ == imports@[j as int].specifier@,
            None => forall|q: int|
                0 <= q < j ==> (#[trigger] imports@[q]).specifier@ != imports@[j as int].specifier@,
        },
{
    let mut q: usize = 0;
    while q < j
        invariant
            q <= j,
            j < imports.len(),
            forall|p: int|
                0 <= p < q ==> (#[trigger] imports@[p]).specifier@ != imports@[j as int].specifier@,
        decreases j - q,
    {
        if imports[q].specifier == imports[j].specifier {
            return Some(q);
        }
        q += 1;
    }
    None
}

/// Whether the calls of `log` from `from` on are resolutions written in
/// `importer`, each of a specifier among the first `j` of `imports`.
spec fn resolutions_of(
    log: Seq<Call>,
    from: int,
    importer: Option<ModuleId>,
    imports: Seq<Import>,
    j: int,
) -> bool {
    forall|i: int|
        from <= i < log.len() ==> exists|q: int|
            0 <= q < j && #[trigger] log[i] == (Call::Resolve {
                importer,
                specifier: (#[trigger] imports[q]).specifier@,
            })
}

fn link_all<R: Resolve>(
    resolver: &R,
    importer: Option<ModuleId>,
    imports: &Vec<Import>,
    ids: &mut Vec<ModuleId>,
    Ghost(log): Ghost<Seq<Call>>,
) -> (out: (Result<Vec<usize>, usize>, Ghost<Seq<Call>>))
    requires
        old(ids)@.no_duplicates(),
        log.no_duplicates(),
        forall|i: int|
            0 <= i < log.len() ==> !(#[trigger] log[i] matches Call::Resolve { importer: p, .. }
                && p == importer),
    ensures
        final(ids)@.no_duplicates(),
        old(ids)@.len() <= final(ids)@.len(),
        forall|i: int| 0 <= i < old(ids)@.len() ==> final(ids)@[i] == old(ids)@[i],
        match out.0 {
            Ok(targets) => {
                &&& linked(resolver, importer, import_views(imports@), old(ids)@, imports@.len())
                    == Ok::<Linked, int>(Linked { ids: final(ids)@, targets: targets@ })
                &&& targets@.len() == imports@.len()
                &&& forall|j: int|
                    0 <= j < targets@.len() ==> (#[trigger] targets@[j]) < final(ids)@.len()
                        && resolver.target(importer, imports@[j].specifier@) == Some(
                        final(ids)@[targets@[j] as int],
                    )
                &&& forall|i: int|
                    old(ids)@.len() <= i < final(ids)@.len() ==> #[trigger] targets@.contains(
                        i as usize,
                    )
            },
            Err(i) => i < imports@.len() && linked(
                resolver,
                importer,
                import_views(imports@),
                old(ids)@,
                imports@.len(),
            ) == Err::<Linked, int>(i as int),
        },
        out.1@.no_duplicates(),
        log.len() <= out.1@.len(),
        forall|i: int| 0 <= i < log.len() ==> out.1@[i] == log[i],
        forall|i: int|
            log.len() <= i < out.1@.len() ==> (#[trigger] out.1@[i] matches Call::Resolve {
                importer: p,
                ..
            } && p == importer),
{
    let mut targets: Vec<usize> = Vec::new();
    let ghost mut cur = log;
    let ghost views = import_views(imports@);
    let mut j: usize = 0;
    while j < imports.len()
        invariant
            j <= imports.len(),
            views == import_views(imports@),
            ids@.no_duplicates(),
            old(ids)@.len() <= ids@.len(),
            forall|i: int| 0 <= i < old(ids)@.len() ==> ids@[i] == old(ids)@[i],
            linked(resolver, importer, views, old(ids)@, j as nat) == Ok::<Linked, int>(
                Linked { ids: ids@, targets: targets@ },
            ),
            targets@.len() == j,
            forall|q: int|
                0 <= q < j ==> (#[trigger] targets@[q]) < ids@.len() && resolver.target(
                    importer,
                    imports@[q].specifier@,
                ) == Some(ids@[targets@[q] as int]),
            forall|i: int|
                old(ids)@.len() <= i < ids@.len() ==> #[trigger] targets@.contains(i as usize),
            cur.no_duplicates(),
            log.len() <= cur.len(),
            forall|i: int| 0 <= i < log.len() ==> cur[i] == log[i],
            forall|i: int|
                0 <= i < log.len() ==> !(#[trigger] log[i] matches Call::Resolve {
                    importer: p,
                    ..
                } && p == importer),
            resolutions_of(cur, log.len() as int, importer, imports@, j as int),
        decreases imports.len() - j,
    {
        assert(views[j as int].specifier == imports@[j as int].specifier@);
        let ghost before = ids@;
        let ghost was = cur;
        match earlier_same(imports, j) {
            Some(q) => {
                let t = targets[q];
                proof {
                    let id = ids@[t as int];
                    assert(resolver.target(importer, imports@[j as int].specifier@) == Some(id));
                    assert(ids@.contains(id));
                    assert(ids@.index_of(id) == t);
                }
                let ghost found = targets@;
                targets.push(t);
                proof {
                    assert forall|i: int|
                        old(ids)@.len() <= i < ids@.len() implies #[trigger] targets@.contains(
                        i as usize,
                    ) by {
                        assert(found.contains(i as usize));
                        let q = choose|q: int| 0 <= q < found.len() && found[q] == i as usize;
                        assert(targets@[q] == i as usize);
                    }
                }
            },
            None => {
                let ghost call = Call::Resolve { importer, specifier: imports@[j as int].specifier@ };
                proof {
                    assert forall|i: int| 0 <= i < cur.len() implies cur[i] != call by {
                        if i >= log.len() {
                            let q = choose|q: int|
                                0 <= q < j && cur[i] == (Call::Resolve {
                                    importer,
                                    specifier: (#[trigger] imports@[q]).specifier@,
                                });
                            assert(imports@[q].specifier@ != imports@[j as int].specifier@);
                        } else {
                            assert(cur[i] == log[i]);
                        }
                    }
                    cur = cur.push(call);
                    assert(cur.no_duplicates());
                    assert forall|i: int| log.len() <= i < cur.len() implies exists|q: int|
                        0 <= q < j + 1 && #[trigger] cur[i] == (Call::Resolve {
                            importer,
                            specifier: (#[trigger] imports@[q]).specifier@,
                        }) by {
                        if i < was.len() {
                            let q = choose|q: int|
                                0 <= q < j && was[i] == (Call::Resolve {
                                    importer,
                                    specifier: (#[trigger] imports@[q]).specifier@,
                                });
                            assert(cur[i] == (Call::Resolve {
                                importer,
                                specifier: imports@[q].specifier@,
                            }));
                        } else {
                            assert(cur[i] == (Call::Resolve {
                                importer,
                                specifier: imports@[j as int].specifier@,
                            }));
                        }
                    }
                }
                match resolver.resolve(importer, &imports[j].specifier) {
                    Err(_) => {
                        proof {
                            assert(linked(resolver, importer, views, old(ids)@, (j + 1) as nat)
                                == Err::<Linked, int>(j as int));
                            lemma_linked_failure_stays(
                                resolver,
                                importer,
                                views,
                                old(ids)@,
                                (j + 1) as nat,
                                imports@.len(),
                            );
                            assert forall|i: int| log.len() <= i < cur.len() implies (
                            #[trigger] cur[i] matches Call::Resolve { importer: p, .. } && p
                                == importer) by {
                                let q = choose|q: int|
                                    0 <= q < j + 1 && cur[i] == (Call::Resolve {
                                        importer,
                                        specifier: (#[trigger] imports@[q]).specifier@,
                                    });
                            }
                        }
                        return (Err(j), Ghost(cur));
                    },
                    Ok(id) => {
                        let ghost found = targets@;
                        let t = find_or_push(ids, id);
                        targets.push(t);
                        proof {
                            assert forall|i: int|
                                old(ids)@.len() <= i
                                    < ids@.len() implies #[trigger] targets@.contains(
                                i as usize,
                            ) by {
                                if i < before.len() {
                                    assert(found.contains(i as usize));
                                    let q = choose|q: int|
                                        0 <= q < found.len() && found[q] == i as usize;
                                    assert(targets@[q] == i as usize);
                                } else {
                                    assert(targets@[j as int] == i as usize);
                                }
                            }
                        }
                    },
                }
            },
        }
        proof {
            assert(resolutions_of(cur, log.len() as int, importer, imports@, j + 1)) by {
                assert forall|i: int| log.len() <= i < cur.len() implies exists|q: int|
                    0 <= q < j + 1 && #[trigger] cur[i] == (Call::Resolve {
                        importer,
                        specifier: (#[trigger] imports@[q]).specifier@,
                    }) by {
                    if cur == was {
                        let q = choose|q: int|
                            0 <= q < j && was[i] == (Call::Resolve {
                                importer,
                                specifier: (#[trigger] imports@[q]).specifier@,
                            });
                        assert(cur[i] == (Call::Resolve {
                            importer,
                            specifier: imports@[q].specifier@,
                        }));
                    }
                }
            }
        }
        j += 1;
    }
    proof {
        assert forall|i: int| log.len() <= i < cur.len() implies (#[trigger] cur[i] matches Call::Resolve {
            importer: p,
            ..
        } && p == importer) by {
            let q = choose|q: int|
                0 <= q < j && cur[i] == (Call::Resolve {
                    importer,
                    specifier: (#[trigger] imports@[q]).specifier@,
                });
        }
    }
    (Ok(targets), Ghost(cur))
}


fn entry_imports(entries: &Vec<(String, String)>) -> (roots: Vec<Import>)
    ensures
        import_views(roots@) == as_imports(entry_specifiers(entries@)),
        roots@.len() == entries@.len(),
{
    let mut roots: Vec<Import> = Vec::new();
    let mut i: usize = 0;
    while i < entries.len()
        invariant
            i <= entries.len(),
            roots@.len() == i,
            forall|q: int|
                0 <= q < i ==> (#[trigger] roots@[q])@ == (ImportView {
                    specifier: entries@[q].1@,
                    names: Seq::empty(),
                    lazy: false,
                }),
        decreases entries.len() - i,
    {
        let specifier = entries[i].1.clone();
        let names: Vec<ImportName> = Vec::new();
        roots.push(Import { specifier, names, lazy: false });
        i += 1;
    }
    assert(import_views(roots@) =~= as_imports(entry_specifiers(entries@)));
    roots
}

/// Whether each of the first `known` identifiers was found as an entry or
/// through an import of a module that was loaded before its own turn.
spec fn found_so_far(modules: Seq<Module>, entries: Seq<usize>, known: int) -> bool {
    forall|t: int| 0 <= t < known ==> #[trigger] origin_known(modules, entries, t)
}

spec fn origin_known(modules: Seq<Module>, entries: Seq<usize>, t: int) -> bool {
    ||| exists|e: int| 0 <= e < entries.len() && #[trigger] entries[e] == t
    ||| exists|p: int, j: int|
        0 <= p < t && p < modules.len() && 0 <= j < modules[p].targets@.len()
            && #[trigger] modules[p].targets@[j] == t
}

/// Whether each call of `log` concerns a module among the first `loaded` of
/// `ids`: it loads one, or resolves a specifier written in one or as an entry.
spec fn calls_within(log: Seq<Call>, ids: Seq<ModuleId>, loaded: int) -> bool {
    forall|i: int|
        0 <= i < log.len() ==> match #[trigger] log[i] {
            Call::Load { id } => exists|v: int| 0 <= v < loaded && ids[v] == id,
            Call::Resolve { importer, .. } => importer is None || exists|v: int|
                0 <= v < loaded && importer == Some(ids[v]),
        }
}

/// What holds of the modules loaded so far, `ids` being the identifiers
/// known: each stands where its identifier does, is what the loader has, and
/// its imports lead where the resolver sends them.
spec fn loaded_so_far<R: Resolve, L: Load>(
    resolver: &R,
    loader: &L,
    modules: Seq<Module>,
    ids: Seq<ModuleId>,
) -> bool {
    &&& modules.len() <= ids.len()
    &&& forall|v: int|
        0 <= v < modules.len() ==> {
            &&& (#[trigger] modules[v]).id == ids[v]
            &&& modules[v].targets@.len() == modules[v].imports@.len()
            &&& loader.source(ids[v]) == Some(
                LoadedModuleView {
                    tree: modules[v].tree@,
                    imports: import_views(modules[v].imports@),
                    exports: modules[v].exports@,
                },
            )
        }
    &&& forall|v: int, j: int|
        0 <= v < modules.len() && 0 <= j < modules[v].targets@.len() ==> {
            &&& (#[trigger] modules[v].targets@[j]) < ids.len()
            &&& resolver.target(Some(ids[v]), modules[v].imports@[j].specifier@) == Some(
                ids[modules[v].targets@[j] as int],
            )
        }
}

impl DependencyGraph {
    /// Tells whether the graph is well formed: whether every import has its
    /// target, every target and every entry is a vertex, and no module
    /// stands at two vertices.
    pub fn is_wf(&self) -> (b: bool)
        ensures
            b == self@.wf(),
    {
        let n = self.modules.len();
        let mut e: usize = 0;
        while e < self.entries.len()
            invariant
                n == self.modules@.len(),
                e <= self.entries@.len(),
                forall|k: int| 0 <= k < e ==> (#[trigger] self@.entries[k]) < n,
            decreases self.entries.len() - e,
        {
            if self.entries[e] >= n {
                assert(!(self@.entries[e as int] < self@.modules.len()));
                return false;
            }
            e += 1;
        }
        let mut v: usize = 0;
        while v < n
            invariant
                n == self.modules@.len(),
                v <= n,
                forall|k: int| 0 <= k < self@.entries.len() ==> (#[trigger] self@.entries[k]) < n,
                forall|w: int|
                    0 <= w < v ==> (#[trigger] self@.modules[w]).targets.len()
                        == self@.modules[w].imports.len(),
                forall|w: int, j: int|
                    0 <= w < v && 0 <= j < self@.modules[w].targets.len() ==> (
                    #[trigger] self@.modules[w].targets[j]) < n,
                forall|u: int, w: int|
                    0 <= u < w < v ==> (#[trigger] self@.modules[u]).id != (
                    #[trigger] self@.modules[w]).id,
            decreases n - v,
        {
            let module = &self.modules[v];
            assert(module@ == self@.modules[v as int]);
            if module.targets.len() != module.imports.len() {
                assert(self@.modules[v as int].targets.len() != self@.modules[v as int].imports.len());
                return false;
            }
            let mut j: usize = 0;
            while j < module.targets.len()
                invariant
                    n == self.modules@.len(),
                    v < n,
                    module@ == self@.modules[v as int],
                    j <= module.targets@.len(),
                    forall|k: int| 0 <= k < j ==> (#[trigger] self@.modules[v as int].targets[k]) < n,
                decreases module.targets.len() - j,
            {
                if module.targets[j] >= n {
                    assert(!(self@.modules[v as int].targets[j as int] < self@.modules.len()));
                    return false;
                }
                j += 1;
            }
            let mut u: usize = 0;
            while u < v
                invariant
                    n == self.modules@.len(),
                    v < n,
                    module@ == self@.modules[v as int],
                    u <= v,
                    forall|k: int| 0 <= k < u ==> (#[trigger] self@.modules[k]).id != module.id,
                decreases v - u,
            {
                assert(self.modules@[u as int]@ == self@.modules[u as int]);
                if self.modules[u].id == module.id {
                    assert(self@.modules[u as int].id == self@.modules[v as int].id);
                    return false;
                }
                u += 1;
            }
            v += 1;
        }
        true
    }

    /// Discovers the graph of `entries`, each a name and a specifier, asking
    /// `resolver` and `loader`. Also hands back the calls it made, in order:
    /// none of them twice.
    pub fn build<R: Resolve, L: Load>(
        resolver: &R,
        loader: &L,
        entries: &Vec<(String, String)>,
    ) -> (out: (Result<DependencyGraph, BundleError>, Ghost<Seq<Call>>))
        ensures
            match out.0 {
                Ok(graph) => {
                    &&& discovered(resolver, loader, entry_specifiers(entries@)) == Ok::<
                        GraphView,
                        BundleErrorView,
                    >(graph@)
                    &&& graph@.wf()
                    &&& graph@.faithful(resolver, loader, entry_specifiers(entries@))
                    &&& graph@.grown_from_entries()
                },
                Err(e) => discovered(resolver, loader, entry_specifiers(entries@)) == Err::<
                    GraphView,
                    BundleErrorView,
                >(e@),
            },
            out.1@.no_duplicates(),
    {
        let ghost specifiers = entry_specifiers(entries@);
        let roots = entry_imports(entries);
        let mut ids: Vec<ModuleId> = Vec::new();
        let (linked_roots, Ghost(first_calls)) = link_all(
            resolver,
            None,
            &roots,
            &mut ids,
            Ghost(Seq::empty()),
        );
        let entry_targets = match linked_roots {
            Err(i) => {
                let specifier = roots[i].specifier.clone();
                assert(import_views(roots@)[i as int].specifier == specifiers[i as int]);
                return (Err(BundleError::Resolve { importer: None, specifier }), Ghost(first_calls));
            },
            Ok(targets) => targets,
        };
        let ghost start = ids@;
        let ghost mut log = first_calls;
        let mut modules: Vec<Module> = Vec::new();
        proof {
            assert forall|t: int| 0 <= t < ids@.len() implies #[trigger] origin_known(
                modules@,
                entry_targets@,
                t,
            ) by {
                assert(t < ids.len());
                assert(entry_targets@.contains(t as usize));
                let e = choose|e: int|
                    0 <= e < entry_targets@.len() && entry_targets@[e] == t as usize;
                assert(entry_targets@[e] == t);
            }
            assert(module_views(modules@) =~= Seq::<ModuleView>::empty());
            assert forall|e: int| 0 <= e < specifiers.len() implies resolver.target(
                None,
                #[trigger] specifiers[e],
            ) == Some(ids@[entry_targets@[e] as int]) by {
                assert(import_views(roots@)[e].specifier == specifiers[e]);
                assert(entry_targets@[e] < ids@.len());
            }
        }
        while modules.len() < ids.len()
            invariant
                ids@.no_duplicates(),
                specifiers == entry_specifiers(entries@),
                entry_targets@.len() == specifiers.len(),
                forall|e: int|
                    0 <= e < entry_targets@.len() ==> (#[trigger] entry_targets@[e]) < ids@.len(),
                forall|e: int|
                    0 <= e < specifiers.len() ==> resolver.target(None, #[trigger] specifiers[e])
                        == Some(ids@[entry_targets@[e] as int]),
                explored(resolver, loader, start, modules@.len()) == Ok::<
                    Explored,
                    BundleErrorView,
                >(Explored { ids: ids@, modules: module_views(modules@) }),
                linked(
                    resolver,
                    None,
                    as_imports(specifiers),
                    Seq::empty(),
                    specifiers.len(),
                ) == Ok::<Linked, int>(Linked { ids: start, targets: entry_targets@ }),
                loaded_so_far(resolver, loader, modules@, ids@),
                found_so_far(modules@, entry_targets@, ids@.len() as int),
                log.no_duplicates(),
                calls_within(log, ids@, modules@.len() as int),
            decreases usize::MAX - modules.len(),
        {
            let ghost k: int = modules@.len() as int;
            let ghost ids_before = ids@;
            let id = ids[modules.len()];
            let ghost load_call = Call::Load { id };
            proof {
                assert forall|i: int| 0 <= i < log.len() implies log[i] != load_call by {
                    if log[i] is Load {
                        let v = choose|v: int| 0 <= v < k && ids@[v] == log[i]->Load_id;
                    }
                }
                log = log.push(load_call);
                assert forall|i: int| 0 <= i < log.len() implies !(#[trigger] log[i] matches Call::Resolve {
                    importer: p,
                    ..
                } && p == Some(id)) by {
                    if i < log.len() - 1 {
                        if log[i] matches Call::Resolve { importer: p, .. } && p == Some(id) {
                            let v = choose|v: int| 0 <= v < k && Some(id) == Some(ids@[v]);
                        }
                    }
                }
            }
            let ghost log_loaded = log;
            match loader.load(id) {
                Err(_) => {
                    proof {
                        assert(explored(resolver, loader, start, (k + 1) as nat) == Err::<
                            Explored,
                            BundleErrorView,
                        >(BundleErrorView::Load { id }));
                        lemma_explored_failure_stays(
                            resolver,
                            loader,
                            start,
                            (k + 1) as nat,
                            usize::MAX as nat,
                        );
                    }
                    return (Err(BundleError::Load { id }), Ghost(log));
                },
                Ok(loaded) => {
                    let ghost loaded_view = loaded@;
                    let LoadedModule { tree, imports, exports } = loaded;
                    let (linked_imports, Ghost(calls)) = link_all(
                        resolver,
                        Some(id),
                        &imports,
                        &mut ids,
                        Ghost(log),
                    );
                    proof {
                        log = calls;
                    }
                    match linked_imports {
                        Err(i) => {
                            let specifier = imports[i].specifier.clone();
                            proof {
                                assert(loaded_view.imports[i as int].specifier == specifier@);
                                assert(explored(resolver, loader, start, (k + 1) as nat) == Err::<
                                    Explored,
                                    BundleErrorView,
                                >(
                                    BundleErrorView::Resolve {
                                        importer: Some(id),
                                        specifier: specifier@,
                                    },
                                ));
                                lemma_explored_failure_stays(
                                    resolver,
                                    loader,
                                    start,
                                    (k + 1) as nat,
                                    usize::MAX as nat,
                                );
                            }
                            return (
                                Err(BundleError::Resolve { importer: Some(id), specifier }),
                                Ghost(log),
                            );
                        },
                        Ok(targets) => {
                            let ghost before = modules@;
                                                let module = Module { id, tree, imports, targets, exports };
                            proof {
                                assert(module@ == as_vertex(id, loaded_view, module.targets@));
                            }
                            modules.push(module);
                            proof {
                                assert(module_views(modules@) =~= module_views(before).push(
                                    module@,
                                ));
                                assert forall|v: int| 0 <= v < modules@.len() implies {
                                    &&& (#[trigger] modules@[v]).id == ids@[v]
                                    &&& modules@[v].targets@.len() == modules@[v].imports@.len()
                                    &&& loader.source(ids@[v]) == Some(
                                        LoadedModuleView {
                                            tree: modules@[v].tree@,
                                            imports: import_views(modules@[v].imports@),
                                            exports: modules@[v].exports@,
                                        },
                                    )
                                } by {
                                    if v < k {
                                        assert(modules@[v] == before[v]);
                                    }
                                }
                                assert forall|v: int, j: int|
                                    0 <= v < modules@.len() && 0 <= j
                                        < modules@[v].targets@.len() implies {
                                    &&& (#[trigger] modules@[v].targets@[j]) < ids@.len()
                                    &&& resolver.target(
                                        Some(ids@[v]),
                                        modules@[v].imports@[j].specifier@,
                                    ) == Some(ids@[modules@[v].targets@[j] as int])
                                } by {
                                    if v < k {
                                        assert(modules@[v] == before[v]);
                                        assert(before[v].targets@[j] < ids_before.len());
                                    }
                                }
                                assert(found_so_far(modules@, entry_targets@, ids@.len() as int)) by {
                                    assert forall|t: int|
                                        0 <= t < ids@.len() implies #[trigger] origin_known(
                                        modules@,
                                        entry_targets@,
                                        t,
                                    ) by {
                                        if t < ids_before.len() {
                                            assert(origin_known(before, entry_targets@, t));
                                            if !(exists|e: int|
                                                0 <= e < entry_targets@.len()
                                                    && #[trigger] entry_targets@[e] == t) {
                                                let (p, j) = choose|p: int, j: int|
                                                    0 <= p < t && p < before.len() && 0 <= j
                                                        < before[p].targets@.len()
                                                        && #[trigger] before[p].targets@[j] == t;
                                                assert(modules@[p] == before[p]);
                                                assert(modules@[p].targets@[j] == t);
                                            }
                                        } else {
                                            assert(t < ids.len());
                                            assert(module.targets@.contains(t as usize));
                                            let j = choose|j: int|
                                                0 <= j < module.targets@.len()
                                                    && module.targets@[j] == t as usize;
                                            assert(modules@[k] == module);
                                            assert(modules@[k].targets@[j] == t);
                                        }
                                    }
                                }
                                assert(calls_within(log, ids@, k + 1)) by {
                                    assert forall|i: int| 0 <= i < log.len() implies match #[trigger] log[i] {
                                        Call::Load { id } => exists|v: int|
                                            0 <= v < k + 1 && ids@[v] == id,
                                        Call::Resolve { importer, .. } => importer is None
                                            || exists|v: int|
                                            0 <= v < k + 1 && importer == Some(ids@[v]),
                                    } by {
                                        if i < log_loaded.len() - 1 {
                                            assert(log[i] == log_loaded[i]);
                                            match log[i] {
                                                Call::Load { id: other } => {
                                                    let v = choose|v: int|
                                                        0 <= v < k && ids_before[v] == other;
                                                    assert(ids@[v] == other);
                                                },
                                                Call::Resolve { importer, .. } => {
                                                    if importer is Some {
                                                        let v = choose|v: int|
                                                            0 <= v < k && importer == Some(
                                                                ids_before[v],
                                                            );
                                                        assert(importer == Some(ids@[v]));
                                                    }
                                                },
                                            }
                                        } else if i == log_loaded.len() - 1 {
                                            assert(log[i] == log_loaded[i]);
                                            assert(ids@[k] == id);
                                        } else {
                                            assert(ids@[k] == id);
                                        }
                                    }
                                }
                            }
                        },
                    }
                },
            }
        }
        let graph = DependencyGraph { modules, entries: entry_targets };
        proof {
            lemma_explored_settles(
                resolver,
                loader,
                start,
                graph.modules@.len(),
                usize::MAX as nat,
            );
            assert(graph@.modules.len() == ids@.len());
            assert forall|u: int, v: int| 0 <= u < v < graph@.modules.len() implies (
            #[trigger] graph@.modules[u]).id != (#[trigger] graph@.modules[v]).id by {
                assert(graph.modules@[u].id == ids@[u]);
                assert(graph.modules@[v].id == ids@[v]);
            }
            assert(graph@.wf());
            assert forall|e: int| 0 <= e < specifiers.len() implies resolver.target(
                None,
                #[trigger] specifiers[e],
            ) == Some(graph@.modules[graph@.entries[e] as int].id) by {
                assert(graph.modules@[entry_targets@[e] as int].id == ids@[entry_targets@[e] as int]);
            }
            assert forall|v: int, j: int|
                0 <= v < graph@.modules.len() && 0 <= j
                    < graph@.modules[v].imports.len() implies resolver.target(
                Some(graph@.modules[v].id),
                (#[trigger] graph@.modules[v].imports[j]).specifier,
            ) == Some(graph@.modules[graph@.modules[v].targets[j] as int].id) by {
                let t = graph.modules@[v].targets@[j];
                assert(t < ids@.len());
                assert(graph.modules@[t as int].id == ids@[t as int]);
            }
            assert(graph@.faithful(resolver, loader, specifiers));
            assert forall|t: int|
                0 <= t < graph@.modules.len() implies #[trigger] graph@.has_origin(t) by {
                assert(origin_known(graph.modules@, entry_targets@, t));
                if !(exists|e: int|
                    0 <= e < graph@.entries.len() && #[trigger] graph@.entries[e] == t) {
                    let (p, j) = choose|p: int, j: int|
                        0 <= p < t && p < graph.modules@.len() && 0 <= j
                            < graph.modules@[p].targets@.len()
                            && #[trigger] graph.modules@[p].targets@[j] == t;
                    assert(graph@.modules[p].targets[j] == t);
                }
            }
        }
        (Ok(graph), Ghost(log))
    }
}

} // verus!
