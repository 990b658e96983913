use std::cell::RefCell;
use std::rc::Rc;

use bundler::binding::BoundName;
use bundler::bundle::{Bundle, BundleExport, BundleKind};
use bundler::bundler::{Bundler, Phase};
use bundler::config::{Config, MergeMode, ModuleFormat};
use bundler::error::{BundleError, ConfigError};
use bundler::graph::DependencyGraph;
use bundler::hash::ContentHash;
use bundler::id::ModuleId;
use bundler::load::{Load, LoadError};
use bundler::merge::OutNode;
use bundler::module::{Atom, Export, Exported, Import, ImportName, Imported, LoadedModule, Node};
use bundler::resolve::{Resolve, ResolveError};

const A: u32 = 10;
const B: u32 = 20;
const C: u32 = 30;
const D: u32 = 40;
const E: u32 = 50;

const VALUE: Atom = Atom(1);
const MAIN: Atom = Atom(2);
const HELPER: Atom = Atom(3);
const LOCAL: Atom = Atom(4);

/// Modules by name, and a record of what was asked.
struct Project {
    modules: Vec<(String, u32, LoadedModule)>,
    resolved: RefCell<Vec<(Option<ModuleId>, String)>>,
    loaded: RefCell<Vec<ModuleId>>,
}

struct Names(Rc<Project>);

struct Files(Rc<Project>);

impl Resolve for Names {
    fn resolve(&self, importer: Option<ModuleId>, specifier: &String) -> Result<ModuleId, ResolveError> {
        self.0.resolved.borrow_mut().push((importer, specifier.clone()));
        for (name, id, _) in self.0.modules.iter() {
            if name == specifier {
                return Ok(ModuleId(*id));
            }
        }
        Err(ResolveError)
    }
}

impl Load for Files {
    fn load(&self, id: ModuleId) -> Result<LoadedModule, LoadError> {
        self.0.loaded.borrow_mut().push(id);
        for (_, known, module) in self.0.modules.iter() {
            if *known == id.0 {
                if module.tree.is_empty() && module.imports.is_empty() && module.exports.is_empty() {
                    return Err(LoadError);
                }
                return Ok(module.clone());
            }
        }
        Err(LoadError)
    }
}

fn project(modules: Vec<(&str, u32, LoadedModule)>) -> Rc<Project> {
    Rc::new(Project {
        modules: modules.into_iter().map(|(n, i, m)| (n.to_string(), i, m)).collect(),
        resolved: RefCell::new(Vec::new()),
        loaded: RefCell::new(Vec::new()),
    })
}

fn import(specifier: &str, names: Vec<(Imported, Atom)>) -> Import {
    Import {
        specifier: specifier.to_string(),
        names: names.into_iter().map(|(imported, local)| ImportName { imported, local }).collect(),
        lazy: false,
    }
}

fn lazy_import(specifier: &str) -> Import {
    Import { specifier: specifier.to_string(), names: Vec::new(), lazy: true }
}

fn module(tree: Vec<Node>, imports: Vec<Import>, exports: Vec<(Exported, Atom)>) -> LoadedModule {
    LoadedModule {
        tree,
        imports,
        exports: exports.into_iter().map(|(exported, binding)| Export { exported, binding }).collect(),
    }
}

fn config(merge_mode: MergeMode) -> Config {
    Config { merge_mode, inline_dynamic_imports: false, module_format: ModuleFormat::EsModule }
}

fn entries(list: &[(&str, &str)]) -> Vec<(String, String)> {
    list.iter().map(|(n, s)| (n.to_string(), s.to_string())).collect()
}

fn run(
    project: &Rc<Project>,
    config: Config,
    list: &[(&str, &str)],
) -> Result<Vec<Bundle>, BundleError> {
    let mut bundler = Bundler::new(config, Names(project.clone()), Files(project.clone()));
    bundler.bundle(&entries(list))
}

fn ids(list: &[u32]) -> Vec<ModuleId> {
    list.iter().map(|i| ModuleId(*i)).collect()
}

/// `a` imports `b` and `c`; `b` and `c` import `d`; every module has some
/// code of its own, and `d` exports a binding that `b` and `c` use.
fn diamond() -> Vec<(&'static str, u32, LoadedModule)> {
    vec![
        (
            "a",
            A,
            module(
                vec![Node::Decl(MAIN), Node::Code(1)],
                vec![import("b", vec![]), import("c", vec![])],
                vec![],
            ),
        ),
        (
            "b",
            B,
            module(
                vec![Node::Code(2), Node::Ref(LOCAL)],
                vec![import("d", vec![(Imported::Named(HELPER), LOCAL)])],
                vec![],
            ),
        ),
        (
            "c",
            C,
            module(
                vec![Node::Code(3), Node::Ref(HELPER)],
                vec![import("d", vec![(Imported::Named(HELPER), HELPER)])],
                vec![],
            ),
        ),
        (
            "d",
            D,
            module(
                vec![Node::Decl(HELPER), Node::Code(4)],
                vec![],
                vec![(Exported::Named(HELPER), HELPER)],
            ),
        ),
    ]
}

#[test]
fn one_bundle_holds_the_diamond_once_and_in_order() {
    let p = project(diamond());
    let out = run(&p, config(MergeMode::OneBundle), &[("main", "a")]).unwrap();
    assert_eq!(out.len(), 1);
    let bundle = &out[0];
    assert_eq!(bundle.kind, BundleKind::Named { name: "main".to_string() });
    assert_eq!(bundle.modules, ids(&[D, B, C, A]));
    assert_eq!(bundle.entries, ids(&[A]));
    assert_eq!(
        bundle.tree,
        vec![
            OutNode::Decl(BoundName::Plain(HELPER)),
            OutNode::Code { module: ModuleId(D), fragment: 4 },
            OutNode::Code { module: ModuleId(B), fragment: 2 },
            OutNode::Ref(BoundName::Plain(HELPER)),
            OutNode::Code { module: ModuleId(C), fragment: 3 },
            OutNode::Ref(BoundName::Plain(HELPER)),
            OutNode::Decl(BoundName::Plain(MAIN)),
            OutNode::Code { module: ModuleId(A), fragment: 1 },
        ]
    );
    assert_eq!(bundle.format, ModuleFormat::EsModule);
}

#[test]
fn code_split_hoists_what_two_entries_share() {
    let mut modules = diamond();
    modules.push((
        "e",
        E,
        module(
            vec![Node::Ref(HELPER)],
            vec![import("d", vec![(Imported::Named(HELPER), HELPER)])],
            vec![],
        ),
    ));
    let p = project(modules);
    let out = run(&p, config(MergeMode::CodeSplit), &[("main", "a"), ("other", "e")]).unwrap();
    assert_eq!(out.len(), 3);
    assert_eq!(out[0].kind, BundleKind::Named { name: "main".to_string() });
    assert_eq!(out[0].modules, ids(&[B, C, A]));
    assert_eq!(out[0].entries, ids(&[A]));
    assert_eq!(out[1].kind, BundleKind::Named { name: "other".to_string() });
    assert_eq!(out[1].modules, ids(&[E]));
    assert_eq!(out[2].modules, ids(&[D]));
    assert_eq!(out[2].entries, ids(&[A, E]));
    assert!(matches!(out[2].kind, BundleKind::Lib { .. }));
    // The entries reach the shared binding through a link, and hold no copy.
    let link = OutNode::Link { unit: 2, name: BoundName::Plain(HELPER) };
    assert_eq!(
        out[0].tree,
        vec![
            OutNode::Code { module: ModuleId(B), fragment: 2 },
            link,
            OutNode::Code { module: ModuleId(C), fragment: 3 },
            link,
            OutNode::Decl(BoundName::Plain(MAIN)),
            OutNode::Code { module: ModuleId(A), fragment: 1 },
        ]
    );
    assert_eq!(out[1].tree, vec![link]);
    assert_eq!(
        out[2].tree,
        vec![
            OutNode::Decl(BoundName::Plain(HELPER)),
            OutNode::Code { module: ModuleId(D), fragment: 4 },
        ]
    );
    let holding_d = out.iter().filter(|b| b.modules.contains(&ModuleId(D))).count();
    assert_eq!(holding_d, 1);
}

/// `a` imports `b`; `b` and `c` import each other and use each other's
/// binding.
fn cycle() -> Vec<(&'static str, u32, LoadedModule)> {
    vec![
        ("a", A, module(vec![Node::Code(1)], vec![import("b", vec![])], vec![])),
        (
            "b",
            B,
            module(
                vec![Node::Decl(VALUE), Node::Ref(LOCAL)],
                vec![import("c", vec![(Imported::Named(HELPER), LOCAL)])],
                vec![(Exported::Named(VALUE), VALUE)],
            ),
        ),
        (
            "c",
            C,
            module(
                vec![Node::Decl(HELPER), Node::Ref(LOCAL)],
                vec![import("b", vec![(Imported::Named(VALUE), LOCAL)])],
                vec![(Exported::Named(HELPER), HELPER)],
            ),
        ),
    ]
}

#[test]
fn a_cycle_is_merged_whole() {
    let p = project(cycle());
    let out = run(&p, config(MergeMode::OneBundle), &[("main", "a")]).unwrap();
    assert_eq!(out.len(), 1);
    assert_eq!(out[0].modules, ids(&[B, C, A]));
    assert_eq!(
        out[0].tree,
        vec![
            OutNode::Decl(BoundName::Plain(VALUE)),
            OutNode::Ref(BoundName::Plain(HELPER)),
            OutNode::Decl(BoundName::Plain(HELPER)),
            OutNode::Ref(BoundName::Plain(VALUE)),
            OutNode::Code { module: ModuleId(A), fragment: 1 },
        ]
    );
}

#[test]
fn a_cycle_is_not_split_between_bundles() {
    // Two entries reach the cycle: both of its modules go to one chunk.
    let mut modules = cycle();
    modules.push(("e", E, module(vec![Node::Code(5)], vec![import("c", vec![])], vec![])));
    let p = project(modules);
    let out = run(&p, config(MergeMode::CodeSplit), &[("main", "a"), ("other", "e")]).unwrap();
    assert_eq!(out.len(), 3);
    assert_eq!(out[0].modules, ids(&[A]));
    assert_eq!(out[1].modules, ids(&[E]));
    assert_eq!(out[2].modules, ids(&[B, C]));
    assert_eq!(out[2].entries, ids(&[A, E]));
}

#[test]
fn equal_names_of_two_modules_are_told_apart() {
    let p = project(vec![
        (
            "a",
            A,
            module(
                vec![Node::Decl(VALUE), Node::Ref(VALUE), Node::Ref(LOCAL)],
                vec![import("b", vec![(Imported::Named(VALUE), LOCAL)])],
                vec![],
            ),
        ),
        (
            "b",
            B,
            module(
                vec![Node::Decl(VALUE), Node::Ref(VALUE)],
                vec![],
                vec![(Exported::Named(VALUE), VALUE)],
            ),
        ),
    ]);
    let out = run(&p, config(MergeMode::OneBundle), &[("main", "a")]).unwrap();
    let renamed = BoundName::Qualified(VALUE, ModuleId(B));
    assert_eq!(out[0].modules, ids(&[B, A]));
    assert_eq!(
        out[0].tree,
        vec![
            OutNode::Decl(renamed),
            OutNode::Ref(renamed),
            OutNode::Decl(BoundName::Plain(VALUE)),
            OutNode::Ref(BoundName::Plain(VALUE)),
            OutNode::Ref(renamed),
        ]
    );
}

#[test]
fn repeated_runs_give_the_same_bundles() {
    let p = project(diamond());
    let first = run(&p, config(MergeMode::CodeSplit), &[("main", "a")]).unwrap();
    let second = run(&p, config(MergeMode::CodeSplit), &[("main", "a")]).unwrap();
    assert_eq!(first, second);
    assert_eq!(first[0].hash, second[0].hash);
}

#[test]
fn nothing_is_asked_twice() {
    let mut modules = diamond();
    // `a` writes the specifier `b` a second time.
    modules[0].2.imports.push(import("b", vec![]));
    let p = project(modules);
    run(&p, config(MergeMode::OneBundle), &[("main", "a")]).unwrap();
    let loaded = p.loaded.borrow().clone();
    assert_eq!(loaded, ids(&[A, B, C, D]));
    let resolved = p.resolved.borrow().clone();
    assert_eq!(
        resolved,
        vec![
            (None, "a".to_string()),
            (Some(ModuleId(A)), "b".to_string()),
            (Some(ModuleId(A)), "c".to_string()),
            (Some(ModuleId(B)), "d".to_string()),
            (Some(ModuleId(C)), "d".to_string()),
        ]
    );
}

#[test]
fn an_unresolved_specifier_fails_the_run() {
    let p = project(vec![(
        "a",
        A,
        module(vec![Node::Code(1)], vec![import("missing", vec![])], vec![]),
    )]);
    let mut bundler = Bundler::new(config(MergeMode::OneBundle), Names(p.clone()), Files(p.clone()));
    assert_eq!(bundler.phase(), Phase::Idle);
    let out = bundler.bundle(&entries(&[("main", "a")]));
    assert_eq!(
        out,
        Err(BundleError::Resolve { importer: Some(ModuleId(A)), specifier: "missing".to_string() })
    );
    assert_eq!(bundler.phase(), Phase::Failed);
}

#[test]
fn an_unresolved_entry_fails_the_run() {
    let p = project(diamond());
    let out = run(&p, config(MergeMode::OneBundle), &[("main", "nowhere")]);
    assert_eq!(out, Err(BundleError::Resolve { importer: None, specifier: "nowhere".to_string() }));
    assert!(p.loaded.borrow().is_empty());
}

#[test]
fn a_module_that_does_not_load_fails_the_run() {
    let p = project(vec![
        ("a", A, module(vec![Node::Code(1)], vec![import("b", vec![])], vec![])),
        ("b", B, module(vec![], vec![], vec![])),
    ]);
    let out = run(&p, config(MergeMode::OneBundle), &[("main", "a")]);
    assert_eq!(out, Err(BundleError::Load { id: ModuleId(B) }));
}

#[test]
fn settings_are_checked_before_anything_is_resolved() {
    let p = project(diamond());
    assert_eq!(
        run(&p, config(MergeMode::CodeSplit), &[]),
        Err(BundleError::Config(ConfigError::NoEntries))
    );
    assert_eq!(
        run(&p, config(MergeMode::OneBundle), &[("x", "a"), ("x", "b")]),
        Err(BundleError::Config(ConfigError::DuplicateEntryName))
    );
    assert_eq!(
        run(&p, config(MergeMode::CodeSplit), &[("x", "a"), ("x", "b")]),
        Err(BundleError::Config(ConfigError::DuplicateEntryName))
    );
    assert!(p.resolved.borrow().is_empty());
}

#[test]
fn a_run_ends_done() {
    let p = project(diamond());
    let mut bundler = Bundler::new(config(MergeMode::OneBundle), Names(p.clone()), Files(p.clone()));
    assert!(bundler.bundle(&entries(&[("main", "a")])).is_ok());
    assert_eq!(bundler.phase(), Phase::Done);
}

#[test]
fn a_module_imported_on_demand_stands_alone() {
    let modules = vec![
        ("a", A, module(vec![Node::Code(1)], vec![lazy_import("b")], vec![])),
        ("b", B, module(vec![Node::Code(2)], vec![import("c", vec![])], vec![])),
        ("c", C, module(vec![Node::Code(3)], vec![], vec![])),
    ];
    let p = project(modules);
    let out = run(&p, config(MergeMode::CodeSplit), &[("main", "a")]).unwrap();
    assert_eq!(out.len(), 2);
    assert_eq!(out[0].modules, ids(&[C, A]));
    assert_eq!(out[1].kind, BundleKind::Dynamic);
    assert_eq!(out[1].modules, ids(&[B]));
    let mut inline = config(MergeMode::CodeSplit);
    inline.inline_dynamic_imports = true;
    let out = run(&p, inline, &[("main", "a")]).unwrap();
    assert_eq!(out.len(), 1);
    assert_eq!(out[0].modules, ids(&[C, B, A]));
}

#[test]
fn a_namespace_import_names_the_module() {
    let p = project(vec![
        (
            "a",
            A,
            module(
                vec![Node::Ref(LOCAL), Node::Ref(MAIN)],
                vec![import("b", vec![(Imported::Namespace, LOCAL), (Imported::Default, MAIN)])],
                vec![],
            ),
        ),
        ("b", B, module(vec![Node::Decl(VALUE)], vec![], vec![(Exported::Default, VALUE)])),
    ]);
    let out = run(&p, config(MergeMode::OneBundle), &[("main", "a")]).unwrap();
    assert_eq!(
        out[0].tree,
        vec![
            OutNode::Decl(BoundName::Plain(VALUE)),
            OutNode::Namespace { unit: 0, module: ModuleId(B) },
            OutNode::Ref(BoundName::Plain(VALUE)),
        ]
    );
}

#[test]
fn a_name_that_nothing_binds_stays_as_written() {
    let p = project(vec![(
        "a",
        A,
        module(vec![Node::Ref(HELPER)], vec![], vec![]),
    )]);
    let out = run(&p, config(MergeMode::OneBundle), &[("main", "a")]).unwrap();
    assert_eq!(out[0].tree, vec![OutNode::Free(HELPER)]);
}

#[test]
fn the_digest_of_a_tree_is_the_digest_of_its_words() {
    let p = project(vec![("a", A, module(vec![Node::Code(7)], vec![], vec![]))]);
    let out = run(&p, config(MergeMode::OneBundle), &[("main", "a")]).unwrap();
    // Words 0, 10, 7 mixed in from the offset basis.
    let mut state: u64 = 0xcbf2_9ce4_8422_2325;
    for word in [0u64, 10, 7] {
        state = (state ^ word).wrapping_mul(0x0000_0100_0000_01b3);
    }
    assert_eq!(out[0].hash, ContentHash(state));
}

#[test]
fn an_entry_bundle_keeps_what_the_entry_exports() {
    let p = project(vec![
        (
            "a",
            A,
            module(
                vec![Node::Decl(VALUE)],
                vec![import("b", vec![(Imported::Named(VALUE), LOCAL)])],
                vec![(Exported::Named(MAIN), VALUE), (Exported::Default, LOCAL), (Exported::Named(HELPER), HELPER)],
            ),
        ),
        ("b", B, module(vec![Node::Decl(VALUE)], vec![], vec![(Exported::Named(VALUE), VALUE)])),
    ]);
    let out = run(&p, config(MergeMode::OneBundle), &[("main", "a")]).unwrap();
    assert_eq!(
        out[0].exports,
        vec![
            BundleExport { exported: Exported::Named(MAIN), target: OutNode::Ref(BoundName::Plain(VALUE)) },
            BundleExport {
                exported: Exported::Default,
                target: OutNode::Ref(BoundName::Qualified(VALUE, ModuleId(B))),
            },
            BundleExport { exported: Exported::Named(HELPER), target: OutNode::Free(HELPER) },
        ]
    );
    assert_eq!(out[0].tree.len(), 2);
}

#[test]
fn a_chunk_has_no_exports_of_its_own() {
    let mut modules = diamond();
    modules.push(("e", E, module(vec![Node::Code(5)], vec![import("d", vec![])], vec![])));
    let p = project(modules);
    let out = run(&p, config(MergeMode::CodeSplit), &[("main", "a"), ("other", "e")]).unwrap();
    assert!(matches!(out[2].kind, BundleKind::Lib { .. }));
    assert!(out[2].exports.is_empty());
}

#[test]
fn a_name_is_followed_through_what_modules_pass_on() {
    // `a` takes `helper` from `b`, which passes on what it takes from `c`.
    let p = project(vec![
        (
            "a",
            A,
            module(
                vec![Node::Ref(LOCAL)],
                vec![import("b", vec![(Imported::Named(HELPER), LOCAL)])],
                vec![],
            ),
        ),
        (
            "b",
            B,
            module(
                vec![],
                vec![import("c", vec![(Imported::Default, MAIN)])],
                vec![(Exported::Named(HELPER), MAIN)],
            ),
        ),
        ("c", C, module(vec![Node::Decl(VALUE)], vec![], vec![(Exported::Default, VALUE)])),
    ]);
    let out = run(&p, config(MergeMode::OneBundle), &[("main", "a")]).unwrap();
    assert_eq!(
        out[0].tree,
        vec![OutNode::Decl(BoundName::Plain(VALUE)), OutNode::Ref(BoundName::Plain(VALUE))]
    );
}

#[test]
fn exports_that_pass_each_other_on_lead_nowhere() {
    let p = project(vec![
        (
            "a",
            A,
            module(
                vec![Node::Ref(LOCAL)],
                vec![import("b", vec![(Imported::Named(VALUE), LOCAL)])],
                vec![(Exported::Named(VALUE), LOCAL)],
            ),
        ),
        (
            "b",
            B,
            module(
                vec![Node::Code(1)],
                vec![import("a", vec![(Imported::Named(VALUE), LOCAL)])],
                vec![(Exported::Named(VALUE), LOCAL)],
            ),
        ),
    ]);
    let out = run(&p, config(MergeMode::OneBundle), &[("main", "a")]).unwrap();
    assert_eq!(
        out[0].tree,
        vec![OutNode::Free(LOCAL), OutNode::Code { module: ModuleId(B), fragment: 1 }]
    );
}

#[test]
fn the_identity_of_a_chunk_is_the_digest_of_its_modules() {
    let mut modules = diamond();
    modules.push(("e", E, module(vec![Node::Code(5)], vec![import("d", vec![])], vec![])));
    let p = project(modules);
    let out = run(&p, config(MergeMode::CodeSplit), &[("main", "a"), ("other", "e")]).unwrap();
    // One module, 40: (basis ^ 40) * prime.
    let expected = (0xcbf2_9ce4_8422_2325u64 ^ 40).wrapping_mul(0x0000_0100_0000_01b3);
    assert_eq!(out[2].kind, BundleKind::Lib { id: ContentHash(expected) });
}

#[test]
fn two_names_for_one_module_give_one_bundle() {
    let p = project(diamond());
    let out = run(&p, config(MergeMode::CodeSplit), &[("x", "a"), ("y", "a")]).unwrap();
    assert_eq!(out.len(), 1);
    assert_eq!(out[0].kind, BundleKind::Named { name: "x".to_string() });
    assert_eq!(out[0].modules, ids(&[D, B, C, A]));
    assert_eq!(out[0].entries, ids(&[A]));
}

#[test]
fn a_bundler_can_run_again() {
    let p = project(diamond());
    let mut bundler = Bundler::new(config(MergeMode::OneBundle), Names(p.clone()), Files(p.clone()));
    let failed = bundler.bundle(&entries(&[("main", "nowhere")]));
    assert!(failed.is_err());
    assert_eq!(bundler.phase(), Phase::Failed);
    let first = bundler.bundle(&entries(&[("main", "a")])).unwrap();
    assert_eq!(bundler.phase(), Phase::Done);
    let second = bundler.bundle(&entries(&[("main", "a")])).unwrap();
    assert_eq!(first, second);
}

#[test]
fn the_steps_of_a_run_can_be_taken_one_by_one() {
    let p = project(diamond());
    let list = entries(&[("main", "a")]);
    let (graph, _calls) = DependencyGraph::build(&Names(p.clone()), &Files(p.clone()), &list);
    let mut graph = graph.unwrap();
    let settings = config(MergeMode::CodeSplit);
    let whole = run(&p, settings, &[("main", "a")]).unwrap();
    assert_eq!(graph.emit(&settings, &list), whole);
    let plan = graph.plan(&settings);
    assert_eq!(graph.merge(&settings, &plan, &list), whole);
    let tables = graph.tables(&settings, &plan);
    assert_eq!(tables.len(), 1);
    assert_eq!(tables[0].len(), 2);
    assert_eq!(tables[0].lookup(ModuleId(A), MAIN), Some(BoundName::Plain(MAIN)));
    assert_eq!(tables[0].lookup(ModuleId(D), HELPER), Some(BoundName::Plain(HELPER)));
    assert_eq!(graph.unit_table(&settings, &plan, 0).len(), 2);
    assert_eq!(graph.merge_unit(&settings, &plan, &tables, 0), whole[0].tree);
    assert_eq!(graph.assemble(&settings, &plan, &tables, &list, 0), whole[0]);
    // Vertex 1 is `b`, which knows the binding of `d` as `LOCAL`.
    assert_eq!(
        graph.rewrite(&settings, &plan, &tables, 1, Node::Ref(LOCAL)),
        OutNode::Ref(BoundName::Plain(HELPER))
    );
    assert_eq!(
        graph.rewrite(&settings, &plan, &tables, 1, Node::Code(9)),
        OutNode::Code { module: ModuleId(B), fragment: 9 }
    );
    assert_eq!(graph.rewrite(&settings, &plan, &tables, 1, Node::Decl(VALUE)), OutNode::Free(VALUE));
}

#[test]
fn a_run_goes_through_its_phases() {
    let p = project(diamond());
    let mut bundler = Bundler::new(config(MergeMode::CodeSplit), Names(p.clone()), Files(p.clone()));
    assert_eq!(bundler.phase(), Phase::Idle);
    bundler.advance();
    assert_eq!(bundler.phase(), Phase::Idle);
    assert_eq!(bundler.take(), None);
    bundler.start(entries(&[("main", "a")]));
    assert_eq!(bundler.phase(), Phase::GraphBuilding);
    assert!(p.loaded.borrow().is_empty());
    bundler.advance();
    assert_eq!(bundler.phase(), Phase::Planning);
    assert_eq!(p.loaded.borrow().len(), 4);
    assert_eq!(bundler.take(), None);
    bundler.advance();
    assert_eq!(bundler.phase(), Phase::Merging);
    bundler.advance();
    assert_eq!(bundler.phase(), Phase::Done);
    bundler.advance();
    assert_eq!(bundler.phase(), Phase::Done);
    assert_eq!(p.loaded.borrow().len(), 4);
    let out = bundler.take().unwrap().unwrap();
    assert_eq!(out, run(&p, config(MergeMode::CodeSplit), &[("main", "a")]).unwrap());
    assert_eq!(bundler.take(), None);
    assert_eq!(bundler.phase(), Phase::Done);
}

#[test]
fn a_run_fails_while_its_graph_is_built() {
    let p = project(diamond());
    let mut bundler = Bundler::new(config(MergeMode::CodeSplit), Names(p.clone()), Files(p.clone()));
    bundler.start(entries(&[("main", "nowhere")]));
    assert_eq!(bundler.phase(), Phase::GraphBuilding);
    bundler.advance();
    assert_eq!(bundler.phase(), Phase::Failed);
    bundler.advance();
    assert_eq!(bundler.phase(), Phase::Failed);
    assert_eq!(
        bundler.take(),
        Some(Err(BundleError::Resolve { importer: None, specifier: "nowhere".to_string() }))
    );
    assert_eq!(bundler.take(), None);
}

#[test]
fn a_run_with_unfit_settings_fails_at_its_start() {
    let p = project(diamond());
    let mut bundler = Bundler::new(config(MergeMode::OneBundle), Names(p.clone()), Files(p.clone()));
    bundler.start(entries(&[("x", "a"), ("x", "b")]));
    assert_eq!(bundler.phase(), Phase::Failed);
    assert_eq!(bundler.take(), Some(Err(BundleError::Config(ConfigError::DuplicateEntryName))));
    bundler.start(entries(&[("x", "a")]));
    assert_eq!(bundler.phase(), Phase::GraphBuilding);
}

#[test]
fn without_splitting_every_entry_holds_all_it_needs() {
    let mut modules = diamond();
    modules.push((
        "e",
        E,
        module(
            vec![Node::Decl(HELPER), Node::Ref(LOCAL)],
            vec![import("d", vec![(Imported::Named(HELPER), LOCAL)])],
            vec![],
        ),
    ));
    let p = project(modules);
    let out = run(&p, config(MergeMode::OneBundle), &[("main", "a"), ("other", "e")]).unwrap();
    // Every module was loaded once, though two bundles hold `d`.
    let mut loaded: Vec<u32> = p.loaded.borrow().iter().map(|m| m.0).collect();
    loaded.sort();
    assert_eq!(loaded, vec![A, B, C, D, E]);
    assert_eq!(out.len(), 2);
    assert_eq!(out[0].kind, BundleKind::Named { name: "main".to_string() });
    assert_eq!(out[0].modules, ids(&[D, B, C, A]));
    assert_eq!(out[0].entries, ids(&[A]));
    assert_eq!(out[1].kind, BundleKind::Named { name: "other".to_string() });
    assert_eq!(out[1].modules, ids(&[D, E]));
    assert_eq!(out[1].entries, ids(&[E]));
    // The bundle of `a` is what it is without the other entry.
    let alone = run(&p, config(MergeMode::OneBundle), &[("main", "a")]).unwrap();
    assert_eq!(out[0], alone[0]);
    // In the bundle of `e` the shared module was found after `e`, which
    // keeps the name.
    assert_eq!(
        out[1].tree,
        vec![
            OutNode::Decl(BoundName::Qualified(HELPER, ModuleId(D))),
            OutNode::Code { module: ModuleId(D), fragment: 4 },
            OutNode::Decl(BoundName::Plain(HELPER)),
            OutNode::Ref(BoundName::Qualified(HELPER, ModuleId(D))),
        ]
    );
}
