//! Bundles: what a run gives out.

use vstd::prelude::*;
use crate::binding::{BindingTable, BoundName};
use crate::config::{entry_names, Config, MergeMode, ModuleFormat};
use crate::graph::{find_or_push, place, DependencyGraph, GraphView};
use crate::hash::{digest, mix, ContentHash, Hasher, OFFSET_BASIS, PRIME};
use crate::id::ModuleId;
use crate::merge::OutNode;
use crate::module::{Exported, Node};
use crate::plan::{Placement, Plan};

verus! {

/// What a bundle is to the caller.
#[derive(Clone, PartialEq, Eq, Debug)]
pub enum BundleKind {
    /// The bundle of the entry of this name.
    Named { name: String },
    /// A chunk that is loaded on demand.
    Dynamic,
    /// A chunk that several entries share, known by the digest of its
    /// modules.
    Lib { id: ContentHash },
}

/// A kind with its name as characters.
pub enum BundleKindView {
    Named { name: Seq<char> },
    Dynamic,
    Lib { id: ContentHash },
}

impl View for BundleKind {
    type V = BundleKindView;

    open spec fn view(&self) -> BundleKindView {
        match *self {
            BundleKind::Named { name } => BundleKindView::Named { name: name@ },
            BundleKind::Dynamic => BundleKindView::Dynamic,
            BundleKind::Lib { id } => BundleKindView::Lib { id },
        }
    }
}

/// What a bundle offers to the outside under the name `exported`.
#[derive(Clone, Copy, PartialEq, Eq, Structural, Debug)]
pub struct BundleExport {
    pub exported: Exported,
    pub target: OutNode,
}

/// One output of a run.
#[derive(Clone, PartialEq, Eq, Debug)]
pub struct Bundle {
    pub kind: BundleKind,
    /// The modules of the bundle, in the order in which their trees stand.
    pub modules: Vec<ModuleId>,
    /// The modules of the entries that need the bundle.
    pub entries: Vec<ModuleId>,
    pub tree: Vec<OutNode>,
    /// For the bundle of an entry, what the entry's module exports: all of
    /// it, in the module's order. Empty for a chunk.
    pub exports: Vec<BundleExport>,
    /// The digest of the tree.
    pub hash: ContentHash,
    pub format: ModuleFormat,
}

/// A bundle as the values it holds.
pub struct BundleView {
    pub kind: BundleKindView,
    pub modules: Seq<ModuleId>,
    pub entries: Seq<ModuleId>,
    pub tree: Seq<OutNode>,
    pub exports: Seq<BundleExport>,
    pub hash: ContentHash,
    pub format: ModuleFormat,
}

impl View for Bundle {
    type V = BundleView;

    open spec fn view(&self) -> BundleView {
        BundleView {
            kind: self.kind@,
            modules: self.modules@,
            entries: self.entries@,
            tree: self.tree@,
            exports: self.exports@,
            hash: self.hash,
            format: self.format,
        }
    }
}

/// The views of a list of bundles, one for one.
pub open spec fn bundle_views(bundles: Seq<Bundle>) -> Seq<BundleView> {
    bundles.map_values(|b: Bundle| b@)
}

/// Whether no module lies in two of the bundles.
pub open spec fn apart(bundles: Seq<BundleView>) -> bool {
    forall|i: int, j: int, id: ModuleId|
        0 <= i < j < bundles.len() && #[trigger] bundles[i].modules.contains(id)
            ==> !#[trigger] bundles[j].modules.contains(id)
}

/// The digest of a set of modules: each module's own digest, added up, so
/// that the order of the modules does not matter.
pub open spec fn set_digest(ids: Seq<ModuleId>) -> u64
    decreases ids.len(),
{
    if ids.len() == 0 {
        0
    } else {
        set_digest(ids.drop_last()).wrapping_add(mix(OFFSET_BASIS, ids.last().0 as u64))
    }
}

/// A final name as words.
pub open spec fn name_words(name: BoundName) -> Seq<u64> {
    match name {
        BoundName::Plain(atom) => seq![atom.0 as u64, 0u64],
        BoundName::Qualified(atom, module) => seq![atom.0 as u64, (module.0 + 1) as u64],
    }
}

/// A node as words: its kind, then what it holds.
pub open spec fn node_words(node: OutNode) -> Seq<u64> {
    match node {
        OutNode::Code { module, fragment } => seq![0u64, module.0 as u64, fragment as u64],
        OutNode::Decl(name) => seq![1u64] + name_words(name),
        OutNode::Ref(name) => seq![2u64] + name_words(name),
        OutNode::Link { unit, name } => seq![3u64, unit as u64] + name_words(name),
        OutNode::Namespace { unit, module } => seq![4u64, unit as u64, module.0 as u64],
        OutNode::Free(atom) => seq![5u64, atom.0 as u64],
    }
}

/// The first `k` nodes of a tree as words.
pub open spec fn tree_words(tree: Seq<OutNode>, k: int) -> Seq<u64>
    decreases k,
{
    if k <= 0 {
        Seq::empty()
    } else {
        tree_words(tree, k - 1) + node_words(tree[k - 1])
    }
}

impl GraphView {
    /// The identifiers of `members`.
    pub open spec fn member_ids(self, members: Seq<usize>) -> Seq<ModuleId> {
        Seq::new(members.len(), |i: int| self.modules[members[i] as int].id)
    }

    /// The modules of the first `k` of the entries `needed`, each once.
    pub open spec fn entry_ids(self, needed: Seq<usize>, k: int) -> Seq<ModuleId>
        decreases k,
    {
        if k <= 0 {
            Seq::empty()
        } else {
            place(
                self.entry_ids(needed, k - 1),
                self.modules[self.entries[needed[k - 1] as int] as int].id,
            )
        }
    }

    /// What the vertex `v` exports, each export with what the name behind it
    /// has become in the bundle of `v`.
    pub open spec fn exports_of(self, config: Config, v: int) -> Seq<BundleExport> {
        Seq::new(
            self.modules[v].exports.len(),
            |i: int|
                BundleExport {
                    exported: self.modules[v].exports[i].exported,
                    target: self.rewritten(
                        config,
                        v,
                        Node::Ref(self.modules[v].exports[i].binding),
                    ),
                },
        )
    }

    /// The bundle `unit`, for entries of the names `names`.
    pub open spec fn bundle(self, config: Config, names: Seq<Seq<char>>, unit: int) -> BundleView {
        let members = self.members(config, unit);
        let needed = self.needed_by(members, self.entries.len() as int);
        let tree = self.merged(config, members, members.len() as int);
        BundleView {
            kind: match self.placement(config, members[0] as int) {
                Placement::Entry(e) => BundleKindView::Named { name: names[e as int] },
                Placement::Dynamic(_) => BundleKindView::Dynamic,
                Placement::Shared => BundleKindView::Lib {
                    id: ContentHash(set_digest(self.member_ids(members))),
                },
            },
            modules: self.member_ids(members),
            entries: self.entry_ids(needed, needed.len() as int),
            tree,
            exports: match self.placement(config, members[0] as int) {
                Placement::Entry(e) => self.exports_of(config, self.entries[e as int] as int),
                _ => Seq::empty(),
            },
            hash: ContentHash(digest(tree_words(tree, tree.len() as int))),
            format: config.module_format,
        }
    }

    /// The graph with the entry `e` as its only entry.
    pub open spec fn only(self, e: int) -> GraphView {
        GraphView { modules: self.modules, entries: seq![self.entries[e]] }
    }

    /// The bundle of the entry `e` alone, named `names[e]`: the bundle that
    /// holds the entry's module in the graph that has no other entry.
    pub open spec fn entry_bundle(self, config: Config, names: Seq<Seq<char>>, e: int)
        -> BundleView {
        self.only(e).bundle(
            config,
            seq![names[e]],
            self.only(e).home(config, self.entries[e] as int) as int,
        )
    }

    /// What the graph gives out: with chunks split off, its bundles; else
    /// for each entry, in order, the bundle of that entry alone.
    pub open spec fn output(self, config: Config, names: Seq<Seq<char>>) -> Seq<BundleView> {
        if config.splits() {
            self.bundles(config, names)
        } else {
            Seq::new(self.entries.len(), |e: int| self.entry_bundle(config, names, e))
        }
    }

    /// The bundles of the graph, in the order of their first modules.
    pub open spec fn bundles(self, config: Config, names: Seq<Seq<char>>) -> Seq<BundleView> {
        Seq::new(
            self.roots_below(config, self.modules.len() as int),
            |i: int| self.bundle(config, names, i),
        )
    }

    proof fn lemma_owner_from_within(self, v: int, e: int)
        requires
            0 <= e,
        ensures
            self.owner_from(v, e) matches Some(o) ==> e <= o < self.entries.len(),
        decreases self.entries.len() - e,
    {
        if e < self.entries.len() && !self.same_component(self.entries[e] as int, v) {
            self.lemma_owner_from_within(v, e + 1);
        }
    }

    proof fn lemma_feeder_from_within(self, v: int, e: int)
        requires
            0 <= e,
        ensures
            self.feeder_from(v, e) matches Some(o) ==> e <= o < self.entries.len(),
        decreases self.entries.len() - e,
    {
        if e < self.entries.len() && !self.feeds(e, v) {
            self.lemma_feeder_from_within(v, e + 1);
        }
    }

    /// A module is only ever put with an entry that there is.
    pub proof fn lemma_placement_within(self, config: Config, v: int)
        ensures
            self.placement(config, v) matches Placement::Entry(e) ==> e < self.entries.len(),
    {
        self.lemma_owner_from_within(v, 0);
        self.lemma_feeder_from_within(v, 0);
    }
}

/// The digest of a set of modules.
pub fn chunk_id(ids: &Vec<ModuleId>) -> (id: ContentHash)
    ensures
        id.0 == set_digest(ids@),
{
    let mut sum: u64 = 0;
    let mut i: usize = 0;
    while i < ids.len()
        invariant
            i <= ids@.len(),
            sum == set_digest(ids@.take(i as int)),
        decreases ids.len() - i,
    {
        let word: u64 = ids[i].0 as u64;
        assert(ids@.take(i + 1).drop_last() =~= ids@.take(i as int));
        sum = sum.wrapping_add((OFFSET_BASIS ^ word).wrapping_mul(PRIME));
        i += 1;
    }
    assert(ids@.take(i as int) =~= ids@);
    ContentHash(sum)
}

fn write_name(hasher: &mut Hasher, name: BoundName)
    ensures
        final(hasher).words() == old(hasher).words() + name_words(name),
{
    match name {
        BoundName::Plain(atom) => {
            hasher.write(atom.0 as u64);
            hasher.write(0);
            assert(hasher.words() =~= old(hasher).words() + name_words(name));
        },
        BoundName::Qualified(atom, module) => {
            hasher.write(atom.0 as u64);
            hasher.write(module.0 as u64 + 1);
            assert(hasher.words() =~= old(hasher).words() + name_words(name));
        },
    }
}

fn write_node(hasher: &mut Hasher, node: OutNode)
    ensures
        final(hasher).words() == old(hasher).words() + node_words(node),
{
    match node {
        OutNode::Code { module, fragment } => {
            hasher.write(0);
            hasher.write(module.0 as u64);
            hasher.write(fragment as u64);
        },
        OutNode::Decl(name) => {
            hasher.write(1);
            write_name(hasher, name);
        },
        OutNode::Ref(name) => {
            hasher.write(2);
            write_name(hasher, name);
        },
        OutNode::Link { unit, name } => {
            hasher.write(3);
            hasher.write(unit as u64);
            write_name(hasher, name);
        },
        OutNode::Namespace { unit, module } => {
            hasher.write(4);
            hasher.write(unit as u64);
            hasher.write(module.0 as u64);
        },
        OutNode::Free(atom) => {
            hasher.write(5);
            hasher.write(atom.0 as u64);
        },
    }
    assert(hasher.words() =~= old(hasher).words() + node_words(node));
}

/// The digest of a bundle's tree.
pub fn hash_tree(tree: &Vec<OutNode>) -> (hash: ContentHash)
    ensures
        hash.0 == digest(tree_words(tree@, tree@.len() as int)),
{
    let mut hasher = Hasher::new();
    let mut i: usize = 0;
    assert(hasher.words() =~= tree_words(tree@, 0));
    while i < tree.len()
        invariant
            i <= tree@.len(),
            hasher.words() == tree_words(tree@, i as int),
        decreases tree.len() - i,
    {
        write_node(&mut hasher, tree[i]);
        i += 1;
    }
    hasher.finish()
}


impl GraphView {
    proof fn lemma_needed_by_within(self, members: Seq<usize>, k: int)
        ensures
            forall|a: int|
                0 <= a < self.needed_by(members, k).len() ==> (#[trigger] self.needed_by(
                    members,
                    k,
                )[a]) < k,
        decreases k,
    {
        if k > 0 {
            self.lemma_needed_by_within(members, k - 1);
            let before = self.needed_by(members, k - 1);
            let now = self.needed_by(members, k);
            assert forall|a: int| 0 <= a < now.len() implies (#[trigger] now[a]) < k by {
                if a < before.len() {
                    assert(now[a] == before[a]);
                }
            }
        }
    }
}

impl DependencyGraph {
    fn member_ids(&self, members: &Vec<usize>) -> (ids: Vec<ModuleId>)
        requires
            forall|a: int| 0 <= a < members@.len() ==> (#[trigger] members@[a]) < self.modules@.len(),
        ensures
            ids@ == self@.member_ids(members@),
    {
        let mut ids: Vec<ModuleId> = Vec::new();
        let mut a: usize = 0;
        while a < members.len()
            invariant
                forall|k: int|
                    0 <= k < members@.len() ==> (#[trigger] members@[k]) < self.modules@.len(),
                a <= members@.len(),
                ids@.len() == a,
                forall|k: int| 0 <= k < a ==> ids@[k] == self@.modules[members@[k] as int].id,
            decreases members.len() - a,
        {
            let v = members[a];
            assert(self.modules@[v as int]@ == self@.modules[v as int]);
            ids.push(self.modules[v].id);
            a += 1;
        }
        assert(ids@ =~= self@.member_ids(members@));
        ids
    }

    fn entry_ids(&self, needed: &Vec<usize>) -> (ids: Vec<ModuleId>)
        requires
            self@.wf(),
            forall|a: int| 0 <= a < needed@.len() ==> (#[trigger] needed@[a]) < self.entries@.len(),
        ensures
            ids@ == self@.entry_ids(needed@, needed@.len() as int),
    {
        let mut ids: Vec<ModuleId> = Vec::new();
        let mut a: usize = 0;
        while a < needed.len()
            invariant
                self@.wf(),
                forall|k: int|
                    0 <= k < needed@.len() ==> (#[trigger] needed@[k]) < self.entries@.len(),
                a <= needed@.len(),
                ids@.no_duplicates(),
                ids@ == self@.entry_ids(needed@, a as int),
            decreases needed.len() - a,
        {
            let e = needed[a];
            let v = self.entries[e];
            assert(v == self@.entries[e as int]);
            assert(self.modules@[v as int]@ == self@.modules[v as int]);
            find_or_push(&mut ids, self.modules[v].id);
            a += 1;
        }
        ids
    }

    fn entry_exports(
        &self,
        config: &Config,
        plan: &Plan,
        tables: &Vec<BindingTable>,
        v: usize,
    ) -> (exports: Vec<BundleExport>)
        requires
            self@.wf(),
            self@.is_plan(*config, *plan),
            self@.are_tables(*config, tables@),
            v < self.modules@.len(),
        ensures
            exports@ == self@.exports_of(*config, v as int),
    {
        let module = &self.modules[v];
        assert(module@ == self@.modules[v as int]);
        let mut exports: Vec<BundleExport> = Vec::new();
        let mut i: usize = 0;
        while i < module.exports.len()
            invariant
                self@.wf(),
                self@.is_plan(*config, *plan),
                self@.are_tables(*config, tables@),
                v < self.modules@.len(),
                module@ == self@.modules[v as int],
                i <= module.exports@.len(),
                exports@.len() == i,
                forall|k: int|
                    0 <= k < i ==> exports@[k] == self@.exports_of(*config, v as int)[k],
            decreases module.exports.len() - i,
        {
            let export = module.exports[i];
            let target = self.rewrite(config, plan, tables, v, Node::Ref(export.binding));
            exports.push(BundleExport { exported: export.exported, target });
            i += 1;
        }
        assert(exports@ =~= self@.exports_of(*config, v as int));
        exports
    }

    /// Makes the bundle `unit` of `plan`, for the entries `entries`.
    pub fn assemble(
        &self,
        config: &Config,
        plan: &Plan,
        tables: &Vec<BindingTable>,
        entries: &Vec<(String, String)>,
        unit: usize,
    ) -> (bundle: Bundle)
        requires
            self@.wf(),
            self@.is_plan(*config, *plan),
            self@.are_tables(*config, tables@),
            entries@.len() == self.entries@.len(),
            unit < plan.units@.len(),
        ensures
            bundle@ == self@.bundle(*config, entry_names(entries@), unit as int),
    {
        let planned = &plan.units[unit];
        proof {
            self@.lemma_members(*config, unit as int, planned.members@);
            self@.lemma_placement_within(*config, planned.members@[0] as int);
            self@.lemma_needed_by_within(planned.members@, self.entries@.len() as int);
        }
        let kind = match planned.placement {
            Placement::Entry(e) => BundleKind::Named { name: entries[e].0.clone() },
            Placement::Dynamic(_) => BundleKind::Dynamic,
            Placement::Shared => {
                let ids = self.member_ids(&planned.members);
                BundleKind::Lib { id: chunk_id(&ids) }
            },
        };
        let modules = self.member_ids(&planned.members);
        let needing = self.entry_ids(&planned.needed_by);
        let tree = self.merge_unit(config, plan, tables, unit);
        let exports = match planned.placement {
            Placement::Entry(e) => self.entry_exports(config, plan, tables, self.entries[e]),
            _ => Vec::new(),
        };
        let hash = hash_tree(&tree);
        Bundle { kind, modules, entries: needing, tree, exports, hash, format: config.module_format }
    }

    /// Makes the bundles of `plan`, for the entries `entries`.
    pub fn merge(&self, config: &Config, plan: &Plan, entries: &Vec<(String, String)>) -> (bundles:
        Vec<Bundle>)
        requires
            self@.wf(),
            self@.is_plan(*config, *plan),
            entries@.len() == self.entries@.len(),
        ensures
            bundle_views(bundles@) == self@.bundles(*config, entry_names(entries@)),
            apart(bundle_views(bundles@)),
    {
        proof {
            self@.lemma_bundles_apart(*config, entry_names(entries@), *plan);
        }
        let tables = self.tables(config, plan);
        let mut bundles: Vec<Bundle> = Vec::new();
        while bundles.len() < plan.units.len()
            invariant
                self@.wf(),
                self@.is_plan(*config, *plan),
                self@.are_tables(*config, tables@),
                entries@.len() == self.entries@.len(),
                bundles@.len() <= plan.units@.len(),
                forall|i: int|
                    0 <= i < bundles@.len() ==> (#[trigger] bundles@[i])@ == self@.bundle(
                        *config,
                        entry_names(entries@),
                        i,
                    ),
            decreases plan.units.len() - bundles.len(),
        {
            let bundle = self.assemble(config, plan, &tables, entries, bundles.len());
            bundles.push(bundle);
        }
        assert(bundle_views(bundles@) =~= self@.bundles(*config, entry_names(entries@)));
        bundles
    }

    /// Makes the bundle of the entry `e` alone, with all that it reaches.
    pub fn bundle_of_entry(
        &mut self,
        config: &Config,
        entries: &Vec<(String, String)>,
        e: usize,
    ) -> (bundle: Bundle)
        requires
            old(self)@.wf(),
            entries@.len() == old(self).entries@.len(),
            e < entries@.len(),
        ensures
            *final(self) == *old(self),
            bundle@ == old(self)@.entry_bundle(*config, entry_names(entries@), e as int),
    {
        let ghost whole = self@;
        let at = self.entries[e];
        assert(at == whole.entries[e as int]);
        let mut other: Vec<usize> = Vec::new();
        other.push(at);
        let mut name: Vec<(String, String)> = Vec::new();
        name.push((entries[e].0.clone(), entries[e].1.clone()));
        core::mem::swap(&mut self.entries, &mut other);
        proof {
            assert(self@.entries =~= seq![whole.entries[e as int]]);
            assert(self@ == whole.only(e as int));
            assert(entry_names(name@) =~= seq![entry_names(entries@)[e as int]]);
            self@.lemma_home_within(*config, at as int);
        }
        let plan = self.plan(config);
        let tables = self.tables(config, &plan);
        assert(plan.home@[at as int] == self@.home(*config, at as int));
        let bundle = self.assemble(config, &plan, &tables, &name, plan.home[at]);
        core::mem::swap(&mut self.entries, &mut other);
        bundle
    }

    /// Makes what the graph gives out, for the entries `entries`.
    pub fn emit(&mut self, config: &Config, entries: &Vec<(String, String)>) -> (bundles: Vec<
        Bundle,
    >)
        requires
            old(self)@.wf(),
            entries@.len() == old(self).entries@.len(),
        ensures
            *final(self) == *old(self),
            bundle_views(bundles@) == old(self)@.output(*config, entry_names(entries@)),
            config.splits() ==> apart(bundle_views(bundles@)),
    {
        let splits = match config.merge_mode {
            MergeMode::CodeSplit => true,
            MergeMode::OneBundle => false,
        };
        if splits {
            let plan = self.plan(config);
            return self.merge(config, &plan, entries);
        }
        let mut bundles: Vec<Bundle> = Vec::new();
        while bundles.len() < entries.len()
            invariant
                *self == *old(self),
                self@.wf(),
                entries@.len() == self.entries@.len(),
                bundles@.len() <= entries@.len(),
                forall|e: int|
                    0 <= e < bundles@.len() ==> (#[trigger] bundles@[e])@ == self@.entry_bundle(
                        *config,
                        entry_names(entries@),
                        e,
                    ),
            decreases entries.len() - bundles.len(),
        {
            let bundle = self.bundle_of_entry(config, entries, bundles.len());
            bundles.push(bundle);
        }
        assert(bundle_views(bundles@) =~= self@.output(*config, entry_names(entries@)));
        bundles
    }
}

impl GraphView {
    /// No module lies in two bundles.
    pub proof fn lemma_bundles_apart(self, config: Config, names: Seq<Seq<char>>, plan: Plan)
        requires
            self.wf(),
            self.is_plan(config, plan),
        ensures
            apart(self.bundles(config, names)),
    {
        let bundles = self.bundles(config, names);
        assert forall|i: int, j: int, id: ModuleId|
            0 <= i < j < bundles.len() && #[trigger] bundles[i].modules.contains(
                id,
            ) implies !#[trigger] bundles[j].modules.contains(id) by {
            let members = plan.units@[i].members@;
            self.lemma_members(config, i, members);
            let ids = self.member_ids(members);
            assert(bundles[i].modules == ids);
            let a = choose|a: int| 0 <= a < ids.len() && ids[a] == id;
            let v = members[a];
            assert(self.home(config, v as int) == i);
            self.lemma_one_bundle_holds(config, names, plan, v, j);
        }
    }

    /// Every module lies in exactly one bundle: in the bundle of its number
    /// and in no other. So what several entries need is there once, and the
    /// members of a cycle, which have one number, are there together.
    pub proof fn lemma_one_bundle_holds(
        self,
        config: Config,
        names: Seq<Seq<char>>,
        plan: Plan,
        v: usize,
        unit: int,
    )
        requires
            self.wf(),
            self.is_plan(config, plan),
            v < self.modules.len(),
            0 <= unit < plan.units@.len(),
        ensures
            self.bundles(config, names).len() == plan.units@.len(),
            self.bundles(config, names)[unit].modules.contains(self.modules[v as int].id) <==> unit
                == self.home(config, v as int),
    {
        let members = plan.units@[unit].members@;
        self.lemma_members(config, unit, members);
        self.lemma_one_bundle_each(config, plan, v, unit);
        let ids = self.member_ids(members);
        assert(self.bundles(config, names)[unit].modules == ids);
        if ids.contains(self.modules[v as int].id) {
            let a = choose|a: int| 0 <= a < ids.len() && ids[a] == self.modules[v as int].id;
            let w = members[a];
            assert(self.modules[w as int].id == self.modules[v as int].id);
            if (w as int) < (v as int) {
                assert(self.modules[w as int].id != self.modules[v as int].id);
            }
            if (v as int) < (w as int) {
                assert(self.modules[v as int].id != self.modules[w as int].id);
            }
            assert(members.contains(v));
        }
        if members.contains(v) {
            let a = choose|a: int| 0 <= a < members.len() && members[a] == v;
            assert(ids[a] == self.modules[v as int].id);
        }
    }
}


/// A module's own digest, as it goes into the digest of a set.
pub open spec fn module_digest(id: ModuleId) -> u64 {
    mix(OFFSET_BASIS, id.0 as u64)
}

proof fn lemma_set_digest_without(ids: Seq<ModuleId>, j: int)
    requires
        0 <= j < ids.len(),
    ensures
        set_digest(ids) == set_digest(ids.remove(j)).wrapping_add(module_digest(ids[j])),
    decreases ids.len(),
{
    if j == ids.len() - 1 {
        assert(ids.remove(j) =~= ids.drop_last());
    } else {
        let front = ids.drop_last();
        lemma_set_digest_without(front, j);
        assert(front.remove(j) =~= ids.remove(j).drop_last());
        assert(ids.remove(j).last() == ids.last());
        let rest = set_digest(front.remove(j));
        let one = module_digest(ids[j]);
        let other = module_digest(ids.last());
        assert(rest.wrapping_add(one).wrapping_add(other) == rest.wrapping_add(other).wrapping_add(
            one,
        ));
    }
}

/// The digest of a set of modules is the same in whatever order the modules
/// are listed.
pub proof fn lemma_set_digest_any_order(one: Seq<ModuleId>, other: Seq<ModuleId>)
    requires
        one.no_duplicates(),
        other.no_duplicates(),
        forall|id: ModuleId| one.contains(id) <==> other.contains(id),
    ensures
        set_digest(one) == set_digest(other),
    decreases one.len(),
{
    if one.len() == 0 {
        if other.len() > 0 {
            assert(other.contains(other[0]));
            assert(one.contains(other[0]));
        }
    } else {
        let last = one.last();
        assert(one.contains(last));
        assert(other.contains(last));
        let j = choose|j: int| 0 <= j < other.len() && other[j] == last;
        let front = one.drop_last();
        let rest = other.remove(j);
        assert forall|id: ModuleId| front.contains(id) <==> rest.contains(id) by {
            if front.contains(id) {
                let i = choose|i: int| 0 <= i < front.len() && front[i] == id;
                assert(one[i] == id);
                assert(id != last);
                assert(other.contains(id));
                let k = choose|k: int| 0 <= k < other.len() && other[k] == id;
                if k < j {
                    assert(rest[k] == id);
                } else {
                    assert(rest[k - 1] == id);
                }
            }
            if rest.contains(id) {
                let k = choose|k: int| 0 <= k < rest.len() && rest[k] == id;
                let at = if k < j {
                    k
                } else {
                    k + 1
                };
                assert(other[at] == id);
                assert(one.contains(id));
                let i = choose|i: int| 0 <= i < one.len() && one[i] == id;
                assert(front[i] == id);
            }
        }
        assert(rest.no_duplicates()) by {
            assert forall|a: int, b: int| 0 <= a < rest.len() && 0 <= b < rest.len() && a
                != b implies rest[a] != rest[b] by {
                let at_a = if a < j {
                    a
                } else {
                    a + 1
                };
                let at_b = if b < j {
                    b
                } else {
                    b + 1
                };
                assert(rest[a] == other[at_a] && rest[b] == other[at_b]);
            }
        }
        lemma_set_digest_any_order(front, rest);
        lemma_set_digest_without(other, j);
    }
}


impl GraphView {
    proof fn lemma_only_reaches(self, e: int, a: int, b: int)
        ensures
            self.only(e).reaches(a, b) == self.reaches(a, b),
    {
        let one = self.only(e);
        assert forall|path: Seq<int>| one.is_path(path) == self.is_path(path) by {
            assert forall|u: int, v: int| one.edge(u, v) == self.edge(u, v) by {}
        }
        if one.reaches(a, b) {
            let path = choose|path: Seq<int>| #[trigger]
                one.is_path(path) && path.first() == a && path.last() == b;
            assert(self.is_path(path));
        }
        if self.reaches(a, b) {
            let path = choose|path: Seq<int>| #[trigger]
                self.is_path(path) && path.first() == a && path.last() == b;
            assert(one.is_path(path));
        }
    }

    /// Where no chunks are split off, the bundle of an entry holds what the
    /// entry reaches and nothing else.
    pub proof fn lemma_entry_holds_what_it_reaches(self, config: Config, e: int, v: int)
        requires
            self.wf(),
            !config.splits(),
            0 <= e < self.entries.len(),
            0 <= v < self.modules.len(),
        ensures
            self.only(e).home(config, v) == self.only(e).home(config, self.entries[e] as int)
                <==> self.reaches(self.entries[e] as int, v),
    {
        let one = self.only(e);
        let root = self.entries[e] as int;
        self.lemma_only_reaches(e, root, v);
        self.lemma_only_reaches(e, root, root);
        self.lemma_reaches_self(root);
        assert(one.entries[0] == root);
        assert(one.same_component(root, root));
        assert(one.owner(root) == Some(0int));
        assert(one.feeds(0, root));
        assert(one.feeds(0, v) == self.reaches(root, v));
        if one.home(config, v) == one.home(config, root) {
            one.lemma_home_tells_apart(config, v, root);
        }
        if self.reaches(root, v) {
            assert(one.together(config, v, root));
            one.lemma_unit_root_shared(config, v, root);
        }
    }
}

} // verus!
