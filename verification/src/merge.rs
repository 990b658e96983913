//! The tree of a bundle: the trees of its modules, one after the other,
//! with every name of module scope replaced by the final name of its binding.

use vstd::prelude::*;
use crate::binding::{
    bound_of, fresh_name, has_name, lemma_bound_from, lemma_no_collision, lemma_plain_iff_named,
    lemma_registered_lookup, lemma_registered_names, lemma_registered_sound, plain_first,
    registered, sound, Binding, BindingTable, BoundName,
};
use crate::config::Config;
use crate::graph::{DependencyGraph, GraphView};
use crate::id::ModuleId;
use crate::module::{Atom, Export, Exported, ImportName, ImportView, Imported, Node};
use crate::plan::{as_int, Plan};

verus! {

/// A node of a bundle's tree.
#[derive(Clone, Copy, PartialEq, Eq, Structural, Debug)]
pub enum OutNode {
    /// A fragment of the module `module`, carried over.
    Code { module: ModuleId, fragment: u32 },
    /// The declaration of a binding, under its final name.
    Decl(BoundName),
    /// A use of a binding of this bundle.
    Ref(BoundName),
    /// A use of a binding that lies in the bundle `unit`.
    Link { unit: usize, name: BoundName },
    /// A use of all that the module `module`, in the bundle `unit`, exports.
    Namespace { unit: usize, module: ModuleId },
    /// A use of a name that no binding of the graph stands behind.
    Free(Atom),
}

/// Where a name leads.
pub enum Target {
    /// To a binding of the vertex `module`, which has the final name `name`.
    Binding { module: int, name: BoundName },
    /// To all that the vertex `module` exports.
    Namespace { module: int },
    /// To nothing that the graph holds.
    Nothing,
}

/// The table after the declarations among the first `k` nodes of `tree`,
/// the tree of `module`, came to it in order.
pub open spec fn with_tree(table: Seq<Binding>, module: ModuleId, tree: Seq<Node>, k: int) -> Seq<
    Binding,
>
    decreases k,
{
    if k <= 0 {
        table
    } else {
        let before = with_tree(table, module, tree, k - 1);
        match tree[k - 1] {
            Node::Decl(name) => registered(before, module, name),
            _ => before,
        }
    }
}

/// The first of `names` from `k` on that is known as `local`.
pub open spec fn local_from(names: Seq<ImportName>, local: Atom, k: int) -> Option<int>
    decreases names.len() - k,
{
    if k < 0 || k >= names.len() {
        None
    } else if names[k].local == local {
        Some(k)
    } else {
        local_from(names, local, k + 1)
    }
}

/// The first import from `j` on that brings the name `local`, and which of
/// its names does.
pub open spec fn import_from(imports: Seq<ImportView>, local: Atom, j: int) -> Option<(int, int)>
    decreases imports.len() - j,
{
    if j < 0 || j >= imports.len() {
        None
    } else {
        match local_from(imports[j].names, local, 0) {
            Some(k) => Some((j, k)),
            None => import_from(imports, local, j + 1),
        }
    }
}

/// The binding behind the first export from `i` on that is offered as `name`.
pub open spec fn export_from(exports: Seq<Export>, name: Exported, i: int) -> Option<Atom>
    decreases exports.len() - i,
{
    if i < 0 || i >= exports.len() {
        None
    } else if exports[i].exported == name {
        Some(exports[i].binding)
    } else {
        export_from(exports, name, i + 1)
    }
}

impl GraphView {
    /// The table of the bundle `unit` after the declarations of the vertices
    /// below `v` came to it: vertex by vertex, each tree in its order.
    pub open spec fn table_upto(self, config: Config, unit: int, v: int) -> Seq<Binding>
        decreases v,
    {
        if v <= 0 {
            Seq::empty()
        } else {
            let before = self.table_upto(config, unit, v - 1);
            if self.home(config, v - 1) == unit {
                with_tree(
                    before,
                    self.modules[v - 1].id,
                    self.modules[v - 1].tree,
                    self.modules[v - 1].tree.len() as int,
                )
            } else {
                before
            }
        }
    }

    /// The final names of the bindings of the bundle `unit`.
    pub open spec fn table(self, config: Config, unit: int) -> Seq<Binding> {
        self.table_upto(config, unit, self.modules.len() as int)
    }

    /// Where the name `name` of the scope of `v` leads: to the binding of
    /// that name if `v` declares one; else through the first import that
    /// brings the name, to all of the imported module or to what that module
    /// offers under the imported name. At most `hops` exports are followed
    /// on the way.
    pub open spec fn target(self, config: Config, v: int, name: Atom, hops: nat) -> Target
        decreases hops, 1nat,
    {
        match bound_of(self.table(config, self.home(config, v) as int), self.modules[v].id, name) {
            Some(bound) => Target::Binding { module: v, name: bound },
            None => match import_from(self.modules[v].imports, name, 0) {
                None => Target::Nothing,
                Some((j, k)) => {
                    let t = self.modules[v].targets[j] as int;
                    match self.modules[v].imports[j].names[k].imported {
                        Imported::Namespace => Target::Namespace { module: t },
                        Imported::Named(x) => self.offered(config, t, Exported::Named(x), hops),
                        Imported::Default => self.offered(config, t, Exported::Default, hops),
                    }
                },
            },
        }
    }

    /// Where what `t` offers as `name` leads: where the name behind the
    /// first such export leads in the scope of `t`, one hop further.
    pub open spec fn offered(self, config: Config, t: int, name: Exported, hops: nat) -> Target
        decreases hops, 0nat,
    {
        match export_from(self.modules[t].exports, name, 0) {
            None => Target::Nothing,
            Some(binding) => if hops == 0 {
                Target::Nothing
            } else {
                self.target(config, t, binding, (hops - 1) as nat)
            },
        }
    }

    /// The node that stands in `v` for a use of `written` that leads to
    /// `target`: a binding is used directly where it lies in the bundle of
    /// `v`, and through a link where it lies in another.
    pub open spec fn node_for(self, config: Config, v: int, target: Target, written: Atom)
        -> OutNode {
        match target {
            Target::Binding { module, name } => if self.home(config, module) == self.home(
                config,
                v,
            ) {
                OutNode::Ref(name)
            } else {
                OutNode::Link { unit: self.home(config, module) as usize, name }
            },
            Target::Namespace { module } => OutNode::Namespace {
                unit: self.home(config, module) as usize,
                module: self.modules[module].id,
            },
            Target::Nothing => OutNode::Free(written),
        }
    }

    /// What `node` of the vertex `v` becomes in the bundle of `v`. A chain
    /// of exports is followed for as many hops as there are modules.
    pub open spec fn rewritten(self, config: Config, v: int, node: Node) -> OutNode {
        match node {
            Node::Code(fragment) => OutNode::Code { module: self.modules[v].id, fragment },
            Node::Decl(name) => match bound_of(
                self.table(config, self.home(config, v) as int),
                self.modules[v].id,
                name,
            ) {
                Some(bound) => OutNode::Decl(bound),
                None => OutNode::Free(name),
            },
            Node::Ref(name) => self.node_for(
                config,
                v,
                self.target(config, v, name, self.modules.len()),
                name,
            ),
        }
    }

    /// The tree of `v` as it stands in its bundle.
    pub open spec fn module_nodes(self, config: Config, v: int) -> Seq<OutNode> {
        Seq::new(
            self.modules[v].tree.len(),
            |i: int| self.rewritten(config, v, self.modules[v].tree[i]),
        )
    }

    /// The trees of the first `k` of `members`, one after the other.
    pub open spec fn merged(self, config: Config, members: Seq<usize>, k: int) -> Seq<OutNode>
        decreases k,
    {
        if k <= 0 {
            Seq::empty()
        } else {
            self.merged(config, members, k - 1) + self.module_nodes(config, members[k - 1] as int)
        }
    }

    /// The number of a vertex's bundle is below the number of bundles.
    pub proof fn lemma_home_within(self, config: Config, v: int)
        requires
            0 <= v < self.modules.len(),
        ensures
            self.home(config, v) < self.roots_below(config, self.modules.len() as int),
    {
        self.lemma_unit_root(config, v);
        let r = self.unit_root(config, v);
        self.lemma_unit_root_shared(config, r, v);
        assert(self.roots_below(config, r + 1) == self.roots_below(config, r) + 1);
        self.lemma_roots_below_grows(config, r + 1, self.modules.len() as int);
    }

    /// The table of a bundle is sound, at every point of its making.
    pub proof fn lemma_table_sound(self, config: Config, unit: int, v: int)
        ensures
            sound(self.table_upto(config, unit, v)),
        decreases v,
    {
        if v > 0 {
            self.lemma_table_sound(config, unit, v - 1);
            if self.home(config, v - 1) == unit {
                lemma_with_tree_sound(
                    self.table_upto(config, unit, v - 1),
                    self.modules[v - 1].id,
                    self.modules[v - 1].tree,
                    self.modules[v - 1].tree.len() as int,
                );
            }
        }
    }
}

/// A sound table stays sound while the declarations of a tree come to it.
pub proof fn lemma_with_tree_sound(table: Seq<Binding>, module: ModuleId, tree: Seq<Node>, k: int)
    requires
        sound(table),
    ensures
        sound(with_tree(table, module, tree, k)),
    decreases k,
{
    if k > 0 {
        lemma_with_tree_sound(table, module, tree, k - 1);
        match tree[k - 1] {
            Node::Decl(name) => {
                lemma_registered_sound(with_tree(table, module, tree, k - 1), module, name);
            },
            _ => {},
        }
    }
}

/// Where a name leads, with vertices by their numbers.
enum Found {
    Binding { module: usize, name: BoundName },
    Namespace { module: usize },
    Nothing,
}

impl View for Found {
    type V = Target;

    closed spec fn view(&self) -> Target {
        match *self {
            Found::Binding { module, name } => Target::Binding { module: module as int, name },
            Found::Namespace { module } => Target::Namespace { module: module as int },
            Found::Nothing => Target::Nothing,
        }
    }
}

fn find_local(names: &Vec<ImportName>, local: Atom) -> (found: Option<usize>)
    ensures
        as_int(found) == local_from(names@, local, 0),
        found matches Some(k) ==> k < names@.len(),
{
    let mut k: usize = 0;
    while k < names.len()
        invariant
            k <= names@.len(),
            local_from(names@, local, 0) == local_from(names@, local, k as int),
        decreases names.len() - k,
    {
        if names[k].local == local {
            return Some(k);
        }
        k += 1;
    }
    None
}

fn find_export(exports: &Vec<Export>, name: Exported) -> (found: Option<Atom>)
    ensures
        found == export_from(exports@, name, 0),
{
    let mut i: usize = 0;
    while i < exports.len()
        invariant
            i <= exports@.len(),
            export_from(exports@, name, 0) == export_from(exports@, name, i as int),
        decreases exports.len() - i,
    {
        if exports[i].exported == name {
            return Some(exports[i].binding);
        }
        i += 1;
    }
    None
}

impl GraphView {
    /// Whether `tables` are the tables of the bundles, by their numbers.
    pub open spec fn are_tables(self, config: Config, tables: Seq<BindingTable>) -> bool {
        &&& tables.len() == self.roots_below(config, self.modules.len() as int)
        &&& forall|i: int|
            0 <= i < tables.len() ==> (#[trigger] tables[i])@ == self.table(config, i)
    }
}

impl DependencyGraph {
    /// The final names of the bindings of the bundle `unit`.
    pub fn unit_table(&self, config: &Config, plan: &Plan, unit: usize) -> (table: BindingTable)
        requires
            self@.wf(),
            self@.is_plan(*config, *plan),
        ensures
            table@ == self@.table(*config, unit as int),
            table.wf(),
    {
        let n = self.modules.len();
        let mut table = BindingTable::new();
        let mut v: usize = 0;
        while v < n
            invariant
                n == self.modules@.len(),
                self@.is_plan(*config, *plan),
                v <= n,
                table.wf(),
                table@ == self@.table_upto(*config, unit as int, v as int),
            decreases n - v,
        {
            assert(plan.home@[v as int] == self@.home(*config, v as int));
            if plan.home[v] == unit {
                let module = &self.modules[v];
                assert(module@ == self@.modules[v as int]);
                let ghost start = table@;
                let mut k: usize = 0;
                while k < module.tree.len()
                    invariant
                        k <= module.tree@.len(),
                        table.wf(),
                        table@ == with_tree(start, module.id, module.tree@, k as int),
                    decreases module.tree.len() - k,
                {
                    match module.tree[k] {
                        Node::Decl(name) => {
                            table.register(module.id, name);
                        },
                        _ => {},
                    }
                    k += 1;
                }
            }
            v += 1;
        }
        table
    }

    fn find_import(&self, v: usize, local: Atom) -> (found: Option<(usize, usize)>)
        requires
            v < self.modules@.len(),
        ensures
            match found {
                Some((j, k)) => import_from(self@.modules[v as int].imports, local, 0) == Some(
                    (j as int, k as int),
                ) && j < self@.modules[v as int].imports.len() && k
                    < self@.modules[v as int].imports[j as int].names.len(),
                None => import_from(self@.modules[v as int].imports, local, 0) is None,
            },
    {
        let module = &self.modules[v];
        assert(module@ == self@.modules[v as int]);
        let ghost imports = self@.modules[v as int].imports;
        let mut j: usize = 0;
        while j < module.imports.len()
            invariant
                module@ == self@.modules[v as int],
                imports == module@.imports,
                j <= module.imports@.len(),
                import_from(imports, local, 0) == import_from(imports, local, j as int),
            decreases module.imports.len() - j,
        {
            assert(imports[j as int].names == module.imports@[j as int].names@);
            match find_local(&module.imports[j].names, local) {
                Some(k) => {
                    return Some((j, k));
                },
                None => {},
            }
            j += 1;
        }
        None
    }

    fn follow(
        &self,
        config: &Config,
        plan: &Plan,
        tables: &Vec<BindingTable>,
        v: usize,
        name: Atom,
    ) -> (found: Found)
        requires
            self@.wf(),
            self@.is_plan(*config, *plan),
            self@.are_tables(*config, tables@),
            v < self.modules@.len(),
        ensures
            found@ == self@.target(*config, v as int, name, self.modules@.len()),
            found matches Found::Binding { module, .. } ==> module < self.modules@.len(),
            found matches Found::Namespace { module } ==> module < self.modules@.len(),
    {
        let mut at: usize = v;
        let mut wanted: Atom = name;
        let mut hops: usize = self.modules.len();
        loop
            invariant
                self@.wf(),
                self@.is_plan(*config, *plan),
                self@.are_tables(*config, tables@),
                at < self.modules@.len(),
                self@.target(*config, v as int, name, self.modules@.len()) == self@.target(
                    *config,
                    at as int,
                    wanted,
                    hops as nat,
                ),
            decreases hops,
        {
            let module = &self.modules[at];
            assert(module@ == self@.modules[at as int]);
            assert(plan.home@[at as int] == self@.home(*config, at as int));
            proof {
                self@.lemma_home_within(*config, at as int);
            }
            if let Some(bound) = tables[plan.home[at]].lookup(module.id, wanted) {
                return Found::Binding { module: at, name: bound };
            }
            let (j, k) = match self.find_import(at, wanted) {
                None => {
                    return Found::Nothing;
                },
                Some(place) => place,
            };
            assert(module.targets@.len() == module.imports@.len());
            let t = module.targets[j];
            assert(t == self@.modules[at as int].targets[j as int]);
            assert(t < self.modules@.len());
            assert(self@.modules[at as int].imports[j as int].names[k as int]
                == module.imports@[j as int].names@[k as int]);
            let offered = match module.imports[j].names[k].imported {
                Imported::Namespace => {
                    return Found::Namespace { module: t };
                },
                Imported::Named(x) => Exported::Named(x),
                Imported::Default => Exported::Default,
            };
            assert(self.modules@[t as int]@ == self@.modules[t as int]);
            assert(self@.target(*config, at as int, wanted, hops as nat) == self@.offered(
                *config,
                t as int,
                offered,
                hops as nat,
            ));
            match find_export(&self.modules[t].exports, offered) {
                None => {
                    return Found::Nothing;
                },
                Some(binding) => {
                    if hops == 0 {
                        return Found::Nothing;
                    }
                    at = t;
                    wanted = binding;
                    hops -= 1;
                },
            }
        }
    }

    /// What `node` of the vertex `v` becomes in the bundle of `v`.
    pub fn rewrite(
        &self,
        config: &Config,
        plan: &Plan,
        tables: &Vec<BindingTable>,
        v: usize,
        node: Node,
    ) -> (out: OutNode)
        requires
            self@.wf(),
            self@.is_plan(*config, *plan),
            self@.are_tables(*config, tables@),
            v < self.modules@.len(),
        ensures
            out == self@.rewritten(*config, v as int, node),
    {
        let module = &self.modules[v];
        assert(module@ == self@.modules[v as int]);
        assert(plan.home@[v as int] == self@.home(*config, v as int));
        proof {
            self@.lemma_home_within(*config, v as int);
        }
        match node {
            Node::Code(fragment) => OutNode::Code { module: module.id, fragment },
            Node::Decl(name) => match tables[plan.home[v]].lookup(module.id, name) {
                Some(bound) => OutNode::Decl(bound),
                None => OutNode::Free(name),
            },
            Node::Ref(name) => match self.follow(config, plan, tables, v, name) {
                Found::Binding { module: t, name: bound } => {
                    assert(plan.home@[t as int] == self@.home(*config, t as int));
                    if plan.home[t] == plan.home[v] {
                        OutNode::Ref(bound)
                    } else {
                        OutNode::Link { unit: plan.home[t], name: bound }
                    }
                },
                Found::Namespace { module: t } => {
                    assert(plan.home@[t as int] == self@.home(*config, t as int));
                    assert(self.modules@[t as int]@ == self@.modules[t as int]);
                    OutNode::Namespace { unit: plan.home[t], module: self.modules[t].id }
                },
                Found::Nothing => OutNode::Free(name),
            },
        }
    }

    /// The tables of all bundles of `plan`.
    pub fn tables(&self, config: &Config, plan: &Plan) -> (tables: Vec<BindingTable>)
        requires
            self@.wf(),
            self@.is_plan(*config, *plan),
        ensures
            self@.are_tables(*config, tables@),
    {
        let mut tables: Vec<BindingTable> = Vec::new();
        while tables.len() < plan.units.len()
            invariant
                self@.wf(),
                self@.is_plan(*config, *plan),
                tables@.len() <= plan.units@.len(),
                forall|i: int|
                    0 <= i < tables@.len() ==> (#[trigger] tables@[i])@ == self@.table(*config, i),
            decreases plan.units.len() - tables.len(),
        {
            let table = self.unit_table(config, plan, tables.len());
            tables.push(table);
        }
        tables
    }

    /// The tree of the bundle `unit` of `plan`.
    pub fn merge_unit(
        &self,
        config: &Config,
        plan: &Plan,
        tables: &Vec<BindingTable>,
        unit: usize,
    ) -> (tree: Vec<OutNode>)
        requires
            self@.wf(),
            self@.is_plan(*config, *plan),
            self@.are_tables(*config, tables@),
            unit < plan.units@.len(),
        ensures
            tree@ == self@.merged(
                *config,
                plan.units@[unit as int].members@,
                plan.units@[unit as int].members@.len() as int,
            ),
    {
        let members = &plan.units[unit].members;
        let mut tree: Vec<OutNode> = Vec::new();
        let mut m: usize = 0;
        while m < members.len()
            invariant
                self@.wf(),
                self@.is_plan(*config, *plan),
                self@.are_tables(*config, tables@),
                unit < plan.units@.len(),
                members@ == plan.units@[unit as int].members@,
                m <= members@.len(),
                tree@ == self@.merged(*config, members@, m as int),
            decreases members.len() - m,
        {
            let v = members[m];
            assert(v < self.modules@.len());
            let module = &self.modules[v];
            assert(module@ == self@.modules[v as int]);
            let ghost before = tree@;
            let mut i: usize = 0;
            while i < module.tree.len()
                invariant
                    self@.wf(),
                    self@.is_plan(*config, *plan),
                    self@.are_tables(*config, tables@),
                    v < self.modules@.len(),
                    module@ == self@.modules[v as int],
                    i <= module.tree@.len(),
                    tree@ == before + self@.module_nodes(*config, v as int).take(i as int),
                decreases module.tree.len() - i,
            {
                let node = self.rewrite(config, plan, tables, v, module.tree[i]);
                tree.push(node);
                assert(self@.module_nodes(*config, v as int).take(i + 1)
                    =~= self@.module_nodes(*config, v as int).take(i as int).push(node));
                assert(tree@ =~= before + self@.module_nodes(*config, v as int).take(i + 1));
                i += 1;
            }
            assert(self@.module_nodes(*config, v as int).take(i as int) =~= self@.module_nodes(
                *config,
                v as int,
            ));
            m += 1;
        }
        tree
    }
}


proof fn lemma_import_from_within(imports: Seq<ImportView>, local: Atom, j: int)
    requires
        0 <= j,
    ensures
        import_from(imports, local, j) matches Some((at, _)) ==> j <= at < imports.len(),
    decreases imports.len() - j,
{
    if j < imports.len() && local_from(imports[j].names, local, 0) is None {
        lemma_import_from_within(imports, local, j + 1);
    }
}

/// Whether some binding of the table has the final name `bound`.
pub open spec fn names(table: Seq<Binding>, bound: BoundName) -> bool {
    exists|k: int| 0 <= k < table.len() && (#[trigger] table[k]).bound == bound
}

/// A binding that the table has stays in it, under its name, while the
/// declarations of a tree come to the table.
pub proof fn lemma_with_tree_keeps(
    table: Seq<Binding>,
    module: ModuleId,
    tree: Seq<Node>,
    k: int,
    other: ModuleId,
    wanted: Atom,
)
    requires
        bound_of(table, other, wanted) is Some,
    ensures
        bound_of(with_tree(table, module, tree, k), other, wanted) == bound_of(table, other, wanted),
    decreases k,
{
    if k > 0 {
        lemma_with_tree_keeps(table, module, tree, k - 1, other, wanted);
        match tree[k - 1] {
            Node::Decl(name) => {
                lemma_registered_lookup(
                    with_tree(table, module, tree, k - 1),
                    module,
                    name,
                    other,
                    wanted,
                    0,
                );
            },
            _ => {},
        }
    }
}

/// Once the declarations of a tree have come to the table, the table has
/// each binding that the tree declares.
pub proof fn lemma_with_tree_binds(
    table: Seq<Binding>,
    module: ModuleId,
    tree: Seq<Node>,
    k: int,
    i: int,
)
    requires
        0 <= i < k <= tree.len(),
        tree[i] is Decl,
    ensures
        bound_of(with_tree(table, module, tree, k), module, tree[i]->Decl_0) is Some,
    decreases k,
{
    let wanted = tree[i]->Decl_0;
    let before = with_tree(table, module, tree, k - 1);
    if i < k - 1 {
        lemma_with_tree_binds(table, module, tree, k - 1, i);
    }
    match tree[k - 1] {
        Node::Decl(name) => {
            lemma_registered_lookup(before, module, name, module, wanted, 0);
        },
        _ => {},
    }
}

impl GraphView {
    /// No two bindings of a bundle have the same final name.
    pub proof fn lemma_names_differ(self, config: Config, unit: int, i: int, j: int)
        requires
            0 <= i < self.table(config, unit).len(),
            0 <= j < self.table(config, unit).len(),
            i != j,
        ensures
            self.table(config, unit)[i].bound != self.table(config, unit)[j].bound,
    {
        self.lemma_table_sound(config, unit, self.modules.len() as int);
        lemma_no_collision(self.table(config, unit), i, j);
    }

    proof fn lemma_table_keeps(self, config: Config, unit: int, from: int, to: int, other: ModuleId, wanted: Atom)
        requires
            0 <= from <= to,
            bound_of(self.table_upto(config, unit, from), other, wanted) is Some,
        ensures
            bound_of(self.table_upto(config, unit, to), other, wanted) == bound_of(
                self.table_upto(config, unit, from),
                other,
                wanted,
            ),
        decreases to - from,
    {
        if from < to {
            self.lemma_table_keeps(config, unit, from, to - 1, other, wanted);
            if self.home(config, to - 1) == unit {
                lemma_with_tree_keeps(
                    self.table_upto(config, unit, to - 1),
                    self.modules[to - 1].id,
                    self.modules[to - 1].tree,
                    self.modules[to - 1].tree.len() as int,
                    other,
                    wanted,
                );
            }
        }
    }

    /// Every binding that a module declares has a final name in the
    /// module's bundle; the declaration and every use of the binding in the
    /// module stand under that name.
    pub proof fn lemma_declared_is_bound(self, config: Config, v: int, i: int)
        requires
            0 <= v < self.modules.len(),
            0 <= i < self.modules[v].tree.len(),
            self.modules[v].tree[i] is Decl,
        ensures
            bound_of(
                self.table(config, self.home(config, v) as int),
                self.modules[v].id,
                self.modules[v].tree[i]->Decl_0,
            ) matches Some(bound) && self.rewritten(config, v, self.modules[v].tree[i])
                == OutNode::Decl(bound) && self.rewritten(
                config,
                v,
                Node::Ref(self.modules[v].tree[i]->Decl_0),
            ) == OutNode::Ref(bound),
    {
        let unit = self.home(config, v) as int;
        let tree = self.modules[v].tree;
        lemma_with_tree_binds(
            self.table_upto(config, unit, v),
            self.modules[v].id,
            tree,
            tree.len() as int,
            i,
        );
        self.lemma_table_keeps(
            config,
            unit,
            v + 1,
            self.modules.len() as int,
            self.modules[v].id,
            tree[i]->Decl_0,
        );
    }

    proof fn lemma_target_is_bound(self, config: Config, v: int, name: Atom, hops: nat)
        requires
            self.wf(),
            0 <= v < self.modules.len(),
        ensures
            match self.target(config, v, name, hops) {
                Target::Binding { module, name } => 0 <= module < self.modules.len() && names(
                    self.table(config, self.home(config, module) as int),
                    name,
                ),
                Target::Namespace { module } => 0 <= module < self.modules.len(),
                Target::Nothing => true,
            },
        decreases hops,
    {
        let own = self.table(config, self.home(config, v) as int);
        lemma_bound_from(own, self.modules[v].id, name, 0);
        if bound_of(own, self.modules[v].id, name) is None {
            match import_from(self.modules[v].imports, name, 0) {
                None => {},
                Some((j, k)) => {
                    lemma_import_from_within(self.modules[v].imports, name, 0);
                    let t = self.modules[v].targets[j] as int;
                    assert(t < self.modules.len());
                    let offered = match self.modules[v].imports[j].names[k].imported {
                        Imported::Named(x) => Exported::Named(x),
                        _ => Exported::Default,
                    };
                    if !(self.modules[v].imports[j].names[k].imported is Namespace) {
                        match export_from(self.modules[t].exports, offered, 0) {
                            None => {},
                            Some(binding) => {
                                if hops > 0 {
                                    self.lemma_target_is_bound(
                                        config,
                                        t,
                                        binding,
                                        (hops - 1) as nat,
                                    );
                                }
                            },
                        }
                    }
                },
            }
        }
    }

    /// A bundle's tree names only what is bound: a declaration or a direct
    /// use stands under a final name of the bundle's own table, and a link
    /// leads to another bundle and stands under a final name of that
    /// bundle's table. No bundle holds a copy of what lies in another.
    pub proof fn lemma_names_are_bound(self, config: Config, v: int, node: Node)
        requires
            self.wf(),
            0 <= v < self.modules.len() <= usize::MAX,
        ensures
            match self.rewritten(config, v, node) {
                OutNode::Decl(bound) => names(
                    self.table(config, self.home(config, v) as int),
                    bound,
                ),
                OutNode::Ref(bound) => names(self.table(config, self.home(config, v) as int), bound),
                OutNode::Link { unit, name } => unit != self.home(config, v) && exists|t: int|
                    0 <= t < self.modules.len() && unit == #[trigger] self.home(config, t)
                        && names(self.table(config, self.home(config, t) as int), name),
                _ => true,
            },
    {
        let own = self.table(config, self.home(config, v) as int);
        match node {
            Node::Code(_) => {},
            Node::Decl(name) => {
                lemma_bound_from(own, self.modules[v].id, name, 0);
            },
            Node::Ref(name) => {
                self.lemma_target_is_bound(config, v, name, self.modules.len());
                match self.target(config, v, name, self.modules.len()) {
                    Target::Binding { module, name } => {
                        self.lemma_unit_root(config, module);
                        self.lemma_roots_below_grows(config, 0, self.unit_root(config, module));
                    },
                    _ => {},
                }
            },
        }
    }
}


/// Whether one of the first `k` nodes of `tree` declares `name`.
pub open spec fn declares(tree: Seq<Node>, name: Atom, k: int) -> bool {
    exists|i: int| 0 <= i < k && i < tree.len() && #[trigger] tree[i] == Node::Decl(name)
}

proof fn lemma_declares_step(tree: Seq<Node>, name: Atom, k: int)
    requires
        0 < k <= tree.len(),
    ensures
        declares(tree, name, k) == (declares(tree, name, k - 1) || tree[k - 1] == Node::Decl(name)),
{
    if declares(tree, name, k) {
        let i = choose|i: int|
            0 <= i < k && i < tree.len() && #[trigger] tree[i] == Node::Decl(name);
        if i < k - 1 {
            assert(declares(tree, name, k - 1));
        }
    }
    if declares(tree, name, k - 1) {
        let i = choose|i: int|
            0 <= i < k - 1 && i < tree.len() && #[trigger] tree[i] == Node::Decl(name);
        assert(declares(tree, name, k));
    }
    if tree[k - 1] == Node::Decl(name) {
        assert(declares(tree, name, k));
    }
}

/// What the declarations of a tree change in a table: the table grows at its
/// end by bindings of the tree's module, and the names written are those of
/// before and those that the tree declares.
pub proof fn lemma_with_tree_names(table: Seq<Binding>, module: ModuleId, tree: Seq<Node>, k: int)
    requires
        sound(table),
        plain_first(table),
        0 <= k <= tree.len(),
    ensures
        sound(with_tree(table, module, tree, k)),
        plain_first(with_tree(table, module, tree, k)),
        forall|x: Atom|
            #[trigger] has_name(with_tree(table, module, tree, k), x) <==> has_name(table, x)
                || declares(tree, x, k),
        table.len() <= with_tree(table, module, tree, k).len(),
        forall|j: int|
            0 <= j < with_tree(table, module, tree, k).len() ==> if j < table.len() {
                (#[trigger] with_tree(table, module, tree, k)[j]) == table[j]
            } else {
                with_tree(table, module, tree, k)[j].module == module
            },
    decreases k,
{
    let now = with_tree(table, module, tree, k);
    if k > 0 {
        lemma_with_tree_names(table, module, tree, k - 1);
        let before = with_tree(table, module, tree, k - 1);
        match tree[k - 1] {
            Node::Decl(name) => {
                lemma_registered_sound(before, module, name);
                lemma_registered_names(before, module, name);
                assert forall|x: Atom| #[trigger]
                    has_name(now, x) <==> has_name(table, x) || declares(tree, x, k) by {
                    lemma_declares_step(tree, x, k);
                    assert(has_name(now, x) <==> has_name(before, x) || x == name);
                    assert(has_name(before, x) <==> has_name(table, x) || declares(tree, x, k - 1));
                }
                assert forall|j: int| 0 <= j < now.len() implies if j < table.len() {
                    (#[trigger] now[j]) == table[j]
                } else {
                    now[j].module == module
                } by {
                    if j < before.len() {
                        assert(now[j] == before[j]);
                    }
                }
            },
            _ => {
                assert forall|x: Atom| #[trigger]
                    has_name(now, x) <==> has_name(table, x) || declares(tree, x, k) by {
                    lemma_declares_step(tree, x, k);
                    assert(has_name(before, x) <==> has_name(table, x) || declares(tree, x, k - 1));
                }
            },
        }
    } else {
        assert forall|x: Atom| #[trigger]
            has_name(now, x) <==> has_name(table, x) || declares(tree, x, k) by {}
    }
}

/// The first declaration of a name in a tree decides the final name of the
/// binding in the tree's module: the fresh name at the time when the tree's
/// declarations began to come.
proof fn lemma_with_tree_first(
    table: Seq<Binding>,
    module: ModuleId,
    tree: Seq<Node>,
    k: int,
    name: Atom,
)
    requires
        sound(table),
        plain_first(table),
        0 <= k <= tree.len(),
        bound_of(table, module, name) is None,
    ensures
        bound_of(with_tree(table, module, tree, k), module, name) == if declares(tree, name, k) {
            Some(fresh_name(table, module, name))
        } else {
            None
        },
    decreases k,
{
    if k > 0 {
        lemma_with_tree_first(table, module, tree, k - 1, name);
        lemma_with_tree_names(table, module, tree, k - 1);
        let before = with_tree(table, module, tree, k - 1);
        if declares(tree, name, k - 1) {
            let i = choose|i: int|
                0 <= i < k - 1 && i < tree.len() && #[trigger] tree[i] == Node::Decl(name);
            assert(declares(tree, name, k));
        }
        if declares(tree, name, k) && !declares(tree, name, k - 1) {
            let i = choose|i: int|
                0 <= i < k && i < tree.len() && #[trigger] tree[i] == Node::Decl(name);
            assert(i == k - 1);
        }
        match tree[k - 1] {
            Node::Decl(other) => {
                lemma_registered_lookup(before, module, other, module, name, 0);
                if other == name {
                    assert(declares(tree, name, k));
                    if !declares(tree, name, k - 1) {
                        lemma_plain_iff_named(before, name);
                        lemma_plain_iff_named(table, name);
                    }
                }
            },
            _ => {},
        }
    }
}

impl GraphView {
    /// Whether a vertex below `v` that lies in the bundle `unit` declares
    /// `name`.
    pub open spec fn declared_before(self, config: Config, unit: int, v: int, name: Atom) -> bool {
        exists|w: int|
            0 <= w < v && w < self.modules.len() && #[trigger] self.home(config, w) == unit
                && declares(self.modules[w].tree, name, self.modules[w].tree.len() as int)
    }

    proof fn lemma_table_names(self, config: Config, unit: int, v: int)
        requires
            0 <= v <= self.modules.len(),
        ensures
            sound(self.table_upto(config, unit, v)),
            plain_first(self.table_upto(config, unit, v)),
            forall|x: Atom|
                has_name(self.table_upto(config, unit, v), x) <==> self.declared_before(
                    config,
                    unit,
                    v,
                    x,
                ),
            forall|j: int|
                0 <= j < self.table_upto(config, unit, v).len() ==> exists|w: int|
                    0 <= w < v && self.modules[w].id == (#[trigger] self.table_upto(
                        config,
                        unit,
                        v,
                    )[j]).module,
        decreases v,
    {
        let now = self.table_upto(config, unit, v);
        if v > 0 {
            self.lemma_table_names(config, unit, v - 1);
            let before = self.table_upto(config, unit, v - 1);
            let tree = self.modules[v - 1].tree;
            if self.home(config, v - 1) == unit {
                lemma_with_tree_names(before, self.modules[v - 1].id, tree, tree.len() as int);
            }
            assert forall|x: Atom| has_name(now, x) <==> self.declared_before(
                config,
                unit,
                v,
                x,
            ) by {
                if self.declared_before(config, unit, v, x) {
                    let w = choose|w: int|
                        0 <= w < v && w < self.modules.len() && #[trigger] self.home(config, w)
                            == unit && declares(
                            self.modules[w].tree,
                            x,
                            self.modules[w].tree.len() as int,
                        );
                    if w < v - 1 {
                        assert(self.declared_before(config, unit, v - 1, x));
                    }
                }
                if self.declared_before(config, unit, v - 1, x) {
                    let w = choose|w: int|
                        0 <= w < v - 1 && w < self.modules.len() && #[trigger] self.home(
                            config,
                            w,
                        ) == unit && declares(
                            self.modules[w].tree,
                            x,
                            self.modules[w].tree.len() as int,
                        );
                    assert(self.declared_before(config, unit, v, x));
                }
                if self.home(config, v - 1) == unit && declares(tree, x, tree.len() as int) {
                    assert(self.declared_before(config, unit, v, x));
                }
            }
            assert forall|j: int| 0 <= j < now.len() implies exists|w: int|
                0 <= w < v && self.modules[w].id == (#[trigger] now[j]).module by {
                if j < before.len() {
                    assert(now[j] == before[j]);
                    let w = choose|w: int| 0 <= w < v - 1 && self.modules[w].id == before[j].module;
                    assert(self.modules[w].id == now[j].module);
                } else {
                    assert(self.modules[v - 1].id == now[j].module);
                }
            }
        } else {
            assert forall|x: Atom| has_name(now, x) <==> self.declared_before(
                config,
                unit,
                v,
                x,
            ) by {}
        }
    }

    /// In a bundle the module that was found first keeps a name as it is
    /// written; a module found later that declares the same name has it
    /// qualified by its own identifier.
    pub proof fn lemma_first_keeps_name(self, config: Config, v: int, i: int)
        requires
            self.wf(),
            0 <= v < self.modules.len(),
            0 <= i < self.modules[v].tree.len(),
            self.modules[v].tree[i] is Decl,
        ensures
            bound_of(
                self.table(config, self.home(config, v) as int),
                self.modules[v].id,
                self.modules[v].tree[i]->Decl_0,
            ) == Some(
                if self.declared_before(
                    config,
                    self.home(config, v) as int,
                    v,
                    self.modules[v].tree[i]->Decl_0,
                ) {
                    BoundName::Qualified(self.modules[v].tree[i]->Decl_0, self.modules[v].id)
                } else {
                    BoundName::Plain(self.modules[v].tree[i]->Decl_0)
                },
            ),
    {
        let unit = self.home(config, v) as int;
        let tree = self.modules[v].tree;
        let name = tree[i]->Decl_0;
        let id = self.modules[v].id;
        let before = self.table_upto(config, unit, v);
        self.lemma_table_names(config, unit, v);
        lemma_bound_from(before, id, name, 0);
        if bound_of(before, id, name) is Some {
            let k = choose|k: int|
                0 <= k < before.len() && (#[trigger] before[k]).module == id && before[k].name
                    == name;
            let w = choose|w: int| 0 <= w < v && self.modules[w].id == before[k].module;
            assert(self.modules[w].id != self.modules[v].id);
        }
        assert(declares(tree, name, tree.len() as int));
        lemma_with_tree_first(before, id, tree, tree.len() as int, name);
        lemma_plain_iff_named(before, name);
        self.lemma_table_keeps(config, unit, v + 1, self.modules.len() as int, id, name);
    }
}

} // verus!
