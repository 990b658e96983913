use bundler::error::BundleError;
use bundler::graph::{DependencyGraph, Module};
use bundler::load::{Load, LoadError};
use bundler::module::{Import, LoadedModule, Node};
use bundler::resolve::{Resolve, ResolveError};
use bundler::ModuleId;

/// Specifiers are numbers written out; `0` does not resolve. A module
/// imports, in order, the specifiers listed for it.
struct Numbers;

struct Lists(Vec<(u32, Vec<&'static str>)>);

impl Resolve for Numbers {
    fn resolve(&self, _importer: Option<ModuleId>, specifier: &String) -> Result<ModuleId, ResolveError> {
        match specifier.parse::<u32>() {
            Ok(0) | Err(_) => Err(ResolveError),
            Ok(n) => Ok(ModuleId(n)),
        }
    }
}

impl Load for Lists {
    fn load(&self, id: ModuleId) -> Result<LoadedModule, LoadError> {
        for (known, imports) in self.0.iter() {
            if *known == id.0 {
                return Ok(LoadedModule {
                    tree: vec![Node::Code(id.0)],
                    imports: imports
                        .iter()
                        .map(|s| Import { specifier: s.to_string(), names: vec![], lazy: false })
                        .collect(),
                    exports: vec![],
                });
            }
        }
        Err(LoadError)
    }
}

fn entries(list: &[&str]) -> Vec<(String, String)> {
    list.iter().enumerate().map(|(i, s)| (format!("entry{}", i), s.to_string())).collect()
}

fn build(lists: Vec<(u32, Vec<&'static str>)>, roots: &[&str]) -> Result<DependencyGraph, BundleError> {
    let (graph, _calls) = DependencyGraph::build(&Numbers, &Lists(lists), &entries(roots));
    graph
}

fn ids(graph: &DependencyGraph) -> Vec<u32> {
    graph.modules.iter().map(|m: &Module| m.id.0).collect()
}

#[test]
fn modules_are_numbered_in_the_order_of_their_discovery() {
    let graph = build(
        vec![(1, vec!["2", "3"]), (2, vec!["4"]), (3, vec!["4", "2"]), (4, vec![])],
        &["1"],
    )
    .unwrap();
    assert_eq!(ids(&graph), vec![1, 2, 3, 4]);
    assert_eq!(graph.entries, vec![0]);
    assert_eq!(graph.modules[0].targets, vec![1, 2]);
    assert_eq!(graph.modules[1].targets, vec![3]);
    assert_eq!(graph.modules[2].targets, vec![3, 1]);
    assert_eq!(graph.modules[3].targets, Vec::<usize>::new());
    assert_eq!(graph.modules[2].imports[0].specifier, "4");
    assert_eq!(graph.modules[2].tree, vec![Node::Code(3)]);
}

#[test]
fn entries_come_first_and_a_module_has_one_vertex() {
    let graph = build(vec![(1, vec!["3"]), (2, vec!["3", "1"]), (3, vec![])], &["1", "2", "1"]).unwrap();
    assert_eq!(ids(&graph), vec![1, 2, 3]);
    assert_eq!(graph.entries, vec![0, 1, 0]);
    assert_eq!(graph.modules[1].targets, vec![2, 0]);
}

#[test]
fn a_cycle_is_followed_once() {
    let graph = build(vec![(1, vec!["2"]), (2, vec!["1", "2"])], &["1"]).unwrap();
    assert_eq!(ids(&graph), vec![1, 2]);
    assert_eq!(graph.modules[1].targets, vec![0, 1]);
}

#[test]
fn the_first_failure_is_reported() {
    // Module 2 is loaded before module 3: its specifier fails first.
    let out = build(vec![(1, vec!["2", "3"]), (2, vec!["0"])], &["1"]);
    assert_eq!(
        out,
        Err(BundleError::Resolve { importer: Some(ModuleId(2)), specifier: "0".to_string() })
    );
    let out = build(vec![(1, vec!["2", "3"]), (2, vec![])], &["1"]);
    assert_eq!(out, Err(BundleError::Load { id: ModuleId(3) }));
    let out = build(vec![(1, vec![])], &["1", "x", "0"]);
    assert_eq!(out, Err(BundleError::Resolve { importer: None, specifier: "x".to_string() }));
}

#[test]
fn no_entries_give_an_empty_graph() {
    let graph = build(vec![], &[]).unwrap();
    assert!(graph.modules.is_empty());
    assert!(graph.entries.is_empty());
}

#[test]
fn reaching_follows_imports_in_their_direction() {
    let graph = build(
        vec![(1, vec!["2"]), (2, vec!["3"]), (3, vec!["2"]), (4, vec!["1"])],
        &["1", "4"],
    )
    .unwrap();
    assert_eq!(ids(&graph), vec![1, 4, 2, 3]);
    assert_eq!(graph.reach_from(0), vec![true, false, true, true]);
    assert_eq!(graph.reach_from(1), vec![true, true, true, true]);
    assert_eq!(graph.reach_from(2), vec![false, false, true, true]);
    assert_eq!(graph.reach_from(3), vec![false, false, true, true]);
    assert_eq!(
        graph.closure(),
        vec![
            vec![true, false, true, true],
            vec![true, true, true, true],
            vec![false, false, true, true],
            vec![false, false, true, true],
        ]
    );
}

#[test]
fn a_graph_that_was_built_is_well_formed() {
    let mut graph = build(vec![(1, vec!["2"]), (2, vec!["1"])], &["1"]).unwrap();
    assert!(graph.is_wf());
    graph.entries.push(2);
    assert!(!graph.is_wf());
    graph.entries.pop();
    graph.modules[0].targets[0] = 5;
    assert!(!graph.is_wf());
    graph.modules[0].targets[0] = 1;
    graph.modules[1].targets.push(0);
    assert!(!graph.is_wf());
    graph.modules[1].targets.pop();
    graph.modules[1].id = ModuleId(1);
    assert!(!graph.is_wf());
    graph.modules[1].id = ModuleId(2);
    assert!(graph.is_wf());
}
