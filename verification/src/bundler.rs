//! The bundler: from entries to bundles.

use vstd::prelude::*;
pub use crate::bundle::{Bundle, BundleKind};
use crate::bundle::{apart, bundle_views, BundleView};
pub use crate::config::Config;
use crate::config::{config_error, entry_names, MergeMode};
use crate::error::{BundleError, BundleErrorView};
use crate::graph::{
    as_imports, discovered, entry_specifiers, explored, linked, Call, DependencyGraph, GraphView,
};
use crate::id::ModuleId;
use crate::load::Load;
use crate::module::ImportView;
use crate::plan::Plan;
use crate::resolve::Resolve;

verus! {

/// What a run gives for `entries` under `config`: the error in the settings
/// if there is one, else the first failure of discovery if there is one,
/// else what the graph that was discovered gives out.
pub open spec fn bundled<R: Resolve, L: Load>(
    resolver: &R,
    loader: &L,
    config: Config,
    entries: Seq<(String, String)>,
) -> Result<Seq<BundleView>, BundleErrorView> {
    match config_error(config, entry_names(entries)) {
        Some(e) => Err(BundleErrorView::Config(e)),
        None => match discovered(resolver, loader, entry_specifiers(entries)) {
            Err(e) => Err(e),
            Ok(graph) => Ok(graph.output(config, entry_names(entries))),
        },
    }
}

/// How far a bundler has come.
#[derive(Clone, Copy, PartialEq, Eq, Structural, Debug)]
pub enum Phase {
    Idle,
    GraphBuilding,
    Planning,
    Merging,
    Done,
    Failed,
}

/// The phase that follows `phase` in a run whose end is `end`: the phases
/// follow each other in their order, a run that fails does so while its
/// graph is built, and nothing follows the end or comes before the start.
pub open spec fn successor(phase: Phase, end: Result<Seq<BundleView>, BundleErrorView>) -> Phase {
    match phase {
        Phase::Idle => Phase::Idle,
        Phase::GraphBuilding => if end is Ok {
            Phase::Planning
        } else {
            Phase::Failed
        },
        Phase::Planning => Phase::Merging,
        Phase::Merging => Phase::Done,
        Phase::Done => Phase::Done,
        Phase::Failed => Phase::Failed,
    }
}

/// What a run has given: bundles as their views, or the failure as its view.
pub open spec fn outcome_view(outcome: Result<Vec<Bundle>, BundleError>) -> Result<
    Seq<BundleView>,
    BundleErrorView,
> {
    match outcome {
        Ok(bundles) => Ok(bundle_views(bundles@)),
        Err(e) => Err(e@),
    }
}

/// Drives a run: discovers the graph through its resolver and loader, plans
/// the bundles and merges the trees. A run is started on entries and then
/// advanced phase by phase, or made in one go by `bundle`.
pub struct Bundler<R: Resolve, L: Load> {
    config: Config,
    resolver: R,
    loader: L,
    phase: Phase,
    entries: Vec<(String, String)>,
    graph: Option<DependencyGraph>,
    plan: Option<Plan>,
    outcome: Option<Result<Vec<Bundle>, BundleError>>,
    calls: Ghost<Seq<Call>>,
}

fn copy_entries(entries: &Vec<(String, String)>) -> (copy: Vec<(String, String)>)
    ensures
        copy@ == entries@,
{
    let mut copy: Vec<(String, String)> = Vec::new();
    let mut i: usize = 0;
    while i < entries.len()
        invariant
            i <= entries@.len(),
            copy@ == entries@.take(i as int),
        decreases entries.len() - i,
    {
        let name = entries[i].0.clone();
        let specifier = entries[i].1.clone();
        copy.push((name, specifier));
        assert(copy@ =~= entries@.take(i + 1));
        i += 1;
    }
    assert(entries@.take(i as int) =~= entries@);
    copy
}

impl<R: Resolve, L: Load> Bundler<R, L> {
    /// The settings that the bundler was made with.
    pub closed spec fn config(&self) -> Config {
        self.config
    }

    /// The resolver that the bundler asks.
    pub closed spec fn resolver(&self) -> &R {
        &self.resolver
    }

    /// The loader that the bundler asks.
    pub closed spec fn loader(&self) -> &L {
        &self.loader
    }

    /// The phase that the bundler is in.
    pub closed spec fn state(&self) -> Phase {
        self.phase
    }

    /// The entries of the run that was started last.
    pub closed spec fn entries(&self) -> Seq<(String, String)> {
        self.entries@
    }

    /// The calls that the run has made to the resolver and the loader, in
    /// order.
    pub closed spec fn calls(&self) -> Seq<Call> {
        self.calls@
    }

    /// What the run has given and still holds: nothing before its end, and
    /// nothing once `take` has handed it out.
    pub closed spec fn held(&self) -> Option<Result<Seq<BundleView>, BundleErrorView>> {
        match self.outcome {
            Some(outcome) => Some(outcome_view(outcome)),
            None => None,
        }
    }

    /// What the run gives in the end.
    pub open spec fn end(&self) -> Result<Seq<BundleView>, BundleErrorView> {
        bundled(self.resolver(), self.loader(), self.config(), self.entries())
    }

    /// Whether the bundler is sound: what it holds is what its phase says.
    /// A new bundler is, and every step keeps it so.
    pub closed spec fn wf(&self) -> bool {
        let names = entry_names(self.entries@);
        let specifiers = entry_specifiers(self.entries@);
        &&& self.calls@.no_duplicates()
        &&& self.outcome matches Some(outcome) ==> outcome_view(outcome) == self.end() && (
        self.config.splits() ==> (outcome matches Ok(bundles) ==> apart(bundle_views(bundles@))))
        &&& match self.phase {
            Phase::Idle => self.outcome is None,
            Phase::GraphBuilding => self.outcome is None && config_error(self.config, names)
                is None,
            Phase::Planning => {
                &&& self.outcome is None
                &&& config_error(self.config, names) is None
                &&& self.graph matches Some(graph) && graph@.wf() && graph.entries@.len()
                    == self.entries@.len() && discovered(&self.resolver, &self.loader, specifiers)
                    == Ok::<GraphView, BundleErrorView>(graph@)
            },
            Phase::Merging => {
                &&& self.outcome is None
                &&& config_error(self.config, names) is None
                &&& self.graph matches Some(graph) && graph@.wf() && graph.entries@.len()
                    == self.entries@.len() && discovered(&self.resolver, &self.loader, specifiers)
                    == Ok::<GraphView, BundleErrorView>(graph@) && (self.plan matches Some(plan)
                    ==> self.config.splits() && graph@.is_plan(self.config, plan))
            },
            Phase::Done => self.end() is Ok,
            Phase::Failed => self.end() is Err,
        }
    }

    /// A bundler that has not run yet.
    pub fn new(config: Config, resolver: R, loader: L) -> (bundler: Self)
        ensures
            bundler.wf(),
            bundler.config() == config,
            *bundler.resolver() == resolver,
            *bundler.loader() == loader,
            bundler.state() == Phase::Idle,
            bundler.calls() == Seq::<Call>::empty(),
            bundler.held() is None,
    {
        Bundler {
            config,
            resolver,
            loader,
            phase: Phase::Idle,
            entries: Vec::new(),
            graph: None,
            plan: None,
            outcome: None,
            calls: Ghost(Seq::empty()),
        }
    }

    /// How far the bundler has come.
    pub fn phase(&self) -> (phase: Phase)
        ensures
            phase == self.state(),
    {
        self.phase
    }

    /// Starts a run on `entries`, each a name and a specifier, whatever came
    /// before: nothing of an earlier run is kept. The settings are checked
    /// against the entries; the run has failed if they do not fit, and else
    /// is ready to build its graph.
    pub fn start(&mut self, entries: Vec<(String, String)>)
        ensures
            final(self).wf(),
            final(self).config() == old(self).config(),
            final(self).resolver() == old(self).resolver(),
            final(self).loader() == old(self).loader(),
            final(self).entries() == entries@,
            final(self).calls() == Seq::<Call>::empty(),
            match config_error(old(self).config(), entry_names(entries@)) {
                Some(e) => final(self).state() == Phase::Failed && final(self).held() == Some(
                    Err::<Seq<BundleView>, BundleErrorView>(BundleErrorView::Config(e)),
                ),
                None => final(self).state() == Phase::GraphBuilding && final(self).held() is None,
            },
    {
        self.calls = Ghost(Seq::empty());
        self.graph = None;
        self.plan = None;
        match self.config.validate(&entries) {
            Some(e) => {
                self.phase = Phase::Failed;
                self.outcome = Some(Err(BundleError::Config(e)));
            },
            None => {
                self.phase = Phase::GraphBuilding;
                self.outcome = None;
            },
        }
        self.entries = entries;
    }

    /// Does the work of the phase the run is in and moves to the next: the
    /// graph is built, then the bundles are planned (where chunks are split
    /// off: else every entry has its own plan, made when it is merged),
    /// then the trees are merged. A run that has ended, or was never started, stays as it is.
    pub fn advance(&mut self)
        requires
            old(self).wf(),
        ensures
            final(self).wf(),
            final(self).config() == old(self).config(),
            final(self).resolver() == old(self).resolver(),
            final(self).loader() == old(self).loader(),
            final(self).entries() == old(self).entries(),
            final(self).state() == successor(old(self).state(), old(self).end()),
            final(self).calls().no_duplicates(),
            final(self).held() == match old(self).state() {
                Phase::GraphBuilding => if old(self).end() is Err {
                    Some(old(self).end())
                } else {
                    None
                },
                Phase::Merging => Some(old(self).end()),
                _ => old(self).held(),
            },
    {
        match self.phase {
            Phase::GraphBuilding => {
                let (built, Ghost(calls)) = DependencyGraph::build(
                    &self.resolver,
                    &self.loader,
                    &self.entries,
                );
                self.calls = Ghost(calls);
                match built {
                    Err(e) => {
                        self.phase = Phase::Failed;
                        self.outcome = Some(Err(e));
                    },
                    Ok(graph) => {
                        self.graph = Some(graph);
                        self.phase = Phase::Planning;
                    },
                }
            },
            Phase::Planning => {
                let splits = match self.config.merge_mode {
                    MergeMode::CodeSplit => true,
                    MergeMode::OneBundle => false,
                };
                self.plan = None;
                if splits {
                    match &self.graph {
                        Some(graph) => {
                            let plan = graph.plan(&self.config);
                            self.plan = Some(plan);
                        },
                        None => {},
                    }
                }
                self.phase = Phase::Merging;
            },
            Phase::Merging => {
                let graph = self.graph.take();
                let plan = self.plan.take();
                match graph {
                    Some(mut graph) => {
                        let bundles = match plan {
                            Some(plan) => graph.merge(&self.config, &plan, &self.entries),
                            None => graph.emit(&self.config, &self.entries),
                        };
                        self.outcome = Some(Ok(bundles));
                        self.phase = Phase::Done;
                    },
                    None => {},
                }
            },
            _ => {},
        }
    }

    /// Hands out what the run has given, once: the bundles of a run that is
    /// done, the failure of one that has failed, nothing of one that has not
    /// ended or whose outcome was taken before.
    pub fn take(&mut self) -> (outcome: Option<Result<Vec<Bundle>, BundleError>>)
        requires
            old(self).wf(),
        ensures
            final(self).wf(),
            final(self).config() == old(self).config(),
            final(self).resolver() == old(self).resolver(),
            final(self).loader() == old(self).loader(),
            final(self).entries() == old(self).entries(),
            final(self).state() == old(self).state(),
            final(self).calls() == old(self).calls(),
            final(self).held() is None,
            match outcome {
                Some(given) => old(self).held() == Some(outcome_view(given)) && (old(
                    self,
                ).config().splits() ==> (given matches Ok(bundles) ==> apart(
                    bundle_views(bundles@),
                ))),
                None => old(self).held() is None,
            },
    {
        self.outcome.take()
    }

    /// Runs the bundler on `entries`, each a name and a specifier. A run
    /// starts afresh whatever came before. It ends `Done` with the bundles,
    /// or `Failed` with the first thing that went wrong and no bundle; and
    /// it asks the resolver and the loader nothing twice. With chunks split
    /// off no module lies in two bundles.
    pub fn bundle(&mut self, entries: &Vec<(String, String)>) -> (out: Result<
        Vec<Bundle>,
        BundleError,
    >)
        ensures
            final(self).wf(),
            match out {
                Ok(bundles) => bundled(
                    old(self).resolver(),
                    old(self).loader(),
                    old(self).config(),
                    entries@,
                ) == Ok::<Seq<BundleView>, BundleErrorView>(bundle_views(bundles@)) && (old(
                    self,
                ).config().splits() ==> apart(bundle_views(bundles@))) && final(self).state()
                    == Phase::Done,
                Err(e) => bundled(
                    old(self).resolver(),
                    old(self).loader(),
                    old(self).config(),
                    entries@,
                ) == Err::<Seq<BundleView>, BundleErrorView>(e@) && final(self).state()
                    == Phase::Failed,
            },
            final(self).calls().no_duplicates(),
            final(self).config() == old(self).config(),
            final(self).resolver() == old(self).resolver(),
            final(self).loader() == old(self).loader(),
            final(self).entries() == entries@,
            final(self).held() is None,
    {
        self.start(copy_entries(entries));
        self.advance();
        self.advance();
        self.advance();
        let outcome = self.take();
        outcome.unwrap()
    }
}

/// Whether two resolvers give the same answer to every question.
pub open spec fn resolve_alike<R1: Resolve, R2: Resolve>(first: &R1, second: &R2) -> bool {
    forall|importer: Option<ModuleId>, specifier: Seq<char>|
        #[trigger] first.target(importer, specifier) == second.target(importer, specifier)
}

/// Whether two loaders hand over the same module for every identifier.
pub open spec fn load_alike<L1: Load, L2: Load>(first: &L1, second: &L2) -> bool {
    forall|id: ModuleId| #[trigger] first.source(id) == second.source(id)
}

proof fn lemma_linked_alike<R1: Resolve, R2: Resolve>(
    first: &R1,
    second: &R2,
    importer: Option<ModuleId>,
    imports: Seq<ImportView>,
    ids: Seq<ModuleId>,
    n: nat,
)
    requires
        resolve_alike(first, second),
    ensures
        linked(first, importer, imports, ids, n) == linked(second, importer, imports, ids, n),
    decreases n,
{
    if n > 0 {
        lemma_linked_alike(first, second, importer, imports, ids, (n - 1) as nat);
        assert(first.target(importer, imports[n - 1].specifier) == second.target(
            importer,
            imports[n - 1].specifier,
        ));
    }
}

proof fn lemma_explored_alike<R1: Resolve, R2: Resolve, L1: Load, L2: Load>(
    resolver: &R1,
    loader: &L1,
    other_resolver: &R2,
    other_loader: &L2,
    start: Seq<ModuleId>,
    k: nat,
)
    requires
        resolve_alike(resolver, other_resolver),
        load_alike(loader, other_loader),
    ensures
        explored(resolver, loader, start, k) == explored(other_resolver, other_loader, start, k),
    decreases k,
{
    if k > 0 {
        lemma_explored_alike(
            resolver,
            loader,
            other_resolver,
            other_loader,
            start,
            (k - 1) as nat,
        );
        match explored(resolver, loader, start, (k - 1) as nat) {
            Ok(before) => {
                if before.modules.len() < before.ids.len() {
                    let id = before.ids[before.modules.len() as int];
                    assert(loader.source(id) == other_loader.source(id));
                    match loader.source(id) {
                        Some(loaded) => {
                            lemma_linked_alike(
                                resolver,
                                other_resolver,
                                Some(id),
                                loaded.imports,
                                before.ids,
                                loaded.imports.len(),
                            );
                        },
                        None => {},
                    }
                }
            },
            Err(_) => {},
        }
    }
}

/// A run is decided by its entries, its settings and the answers of its
/// resolver and loader: two runs that agree in these agree in what they
/// give, bundle for bundle, tree for tree and digest for digest, or failure
/// for failure.
pub proof fn lemma_runs_agree<R1: Resolve, R2: Resolve, L1: Load, L2: Load>(
    resolver: &R1,
    loader: &L1,
    other_resolver: &R2,
    other_loader: &L2,
    config: Config,
    entries: Seq<(String, String)>,
    other_entries: Seq<(String, String)>,
)
    requires
        resolve_alike(resolver, other_resolver),
        load_alike(loader, other_loader),
        entries.len() == other_entries.len(),
        forall|i: int|
            0 <= i < entries.len() ==> (#[trigger] entries[i]).0@ == other_entries[i].0@
                && entries[i].1@ == other_entries[i].1@,
    ensures
        bundled(resolver, loader, config, entries) == bundled(
            other_resolver,
            other_loader,
            config,
            other_entries,
        ),
{
    assert(entry_names(entries) =~= entry_names(other_entries));
    assert(entry_specifiers(entries) =~= entry_specifiers(other_entries));
    let specifiers = entry_specifiers(entries);
    lemma_linked_alike(
        resolver,
        other_resolver,
        None,
        as_imports(specifiers),
        Seq::empty(),
        specifiers.len(),
    );
    match linked(resolver, None, as_imports(specifiers), Seq::empty(), specifiers.len()) {
        Ok(roots) => {
            lemma_explored_alike(
                resolver,
                loader,
                other_resolver,
                other_loader,
                roots.ids,
                usize::MAX as nat,
            );
        },
        Err(_) => {},
    }
}


proof fn lemma_explored_failures<R: Resolve, L: Load>(
    resolver: &R,
    loader: &L,
    start: Seq<ModuleId>,
    k: nat,
)
    ensures
        explored(resolver, loader, start, k) matches Err(e) ==> e is Resolve || e is Load,
    decreases k,
{
    if k > 0 {
        lemma_explored_failures(resolver, loader, start, (k - 1) as nat);
    }
}

/// A run fails on its settings, on a specifier or on a module, and on
/// nothing else: merging never fails.
pub proof fn lemma_merging_never_fails<R: Resolve, L: Load>(
    resolver: &R,
    loader: &L,
    config: Config,
    entries: Seq<(String, String)>,
)
    ensures
        bundled(resolver, loader, config, entries) matches Err(e) ==> !(e is MergeConflict),
{
    let specifiers = entry_specifiers(entries);
    match linked(resolver, None, as_imports(specifiers), Seq::empty(), specifiers.len()) {
        Ok(roots) => {
            lemma_explored_failures(resolver, loader, roots.ids, usize::MAX as nat);
        },
        Err(_) => {},
    }
}

} // verus!
