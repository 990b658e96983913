use bundler::config::{Config, MergeMode, ModuleFormat};
use bundler::graph::{DependencyGraph, Module};
use bundler::module::Import;
use bundler::plan::{Placement, Plan};
use bundler::ModuleId;

fn graph(edges: &[&[(usize, bool)]], entries: &[usize]) -> DependencyGraph {
    DependencyGraph {
        modules: edges
            .iter()
            .enumerate()
            .map(|(v, out)| Module {
                id: ModuleId(v as u32 + 100),
                tree: vec![],
                imports: out
                    .iter()
                    .map(|(to, lazy)| Import { specifier: to.to_string(), names: vec![], lazy: *lazy })
                    .collect(),
                targets: out.iter().map(|(to, _)| *to).collect(),
                exports: vec![],
            })
            .collect(),
        entries: entries.to_vec(),
    }
}

fn split() -> Config {
    Config {
        merge_mode: MergeMode::CodeSplit,
        inline_dynamic_imports: false,
        module_format: ModuleFormat::CommonJs,
    }
}

fn one() -> Config {
    Config { merge_mode: MergeMode::OneBundle, ..split() }
}

fn members(plan: &Plan) -> Vec<Vec<usize>> {
    plan.units.iter().map(|u| u.members.clone()).collect()
}

#[test]
fn what_one_entry_needs_goes_to_that_entry() {
    // 0 -> 1 -> 2
    let g = graph(&[&[(1, false)], &[(2, false)], &[]], &[0]);
    let plan = g.plan(&split());
    assert_eq!(plan.home, vec![0, 0, 0]);
    assert_eq!(members(&plan), vec![vec![2, 1, 0]]);
    assert_eq!(plan.units[0].placement, Placement::Entry(0));
    assert_eq!(plan.units[0].needed_by, vec![0]);
}

#[test]
fn what_two_entries_need_is_shared() {
    // entries 0 and 1; 0 -> 2, 1 -> 2, 2 -> 3, 1 -> 4
    let g = graph(&[&[(2, false)], &[(2, false), (4, false)], &[(3, false)], &[], &[]], &[0, 1]);
    let plan = g.plan(&split());
    assert_eq!(plan.home, vec![0, 1, 2, 2, 1]);
    assert_eq!(members(&plan), vec![vec![0], vec![4, 1], vec![3, 2]]);
    assert_eq!(plan.units[0].placement, Placement::Entry(0));
    assert_eq!(plan.units[1].placement, Placement::Entry(1));
    assert_eq!(plan.units[2].placement, Placement::Shared);
    assert_eq!(plan.units[2].needed_by, vec![0, 1]);
    assert_eq!(plan.units[1].needed_by, vec![1]);
}

#[test]
fn chunks_are_kept_apart_by_the_entries_that_need_them() {
    // entries 0, 1, 2; 3 needed by 0 and 1; 4 needed by 1 and 2; 5 needed by 0 and 1
    let g = graph(
        &[
            &[(3, false), (5, false)],
            &[(3, false), (4, false), (5, false)],
            &[(4, false)],
            &[],
            &[],
            &[],
        ],
        &[0, 1, 2],
    );
    let plan = g.plan(&split());
    assert_eq!(plan.home, vec![0, 1, 2, 3, 4, 3]);
    assert_eq!(members(&plan), vec![vec![0], vec![1], vec![2], vec![3, 5], vec![4]]);
    assert_eq!(plan.units[3].needed_by, vec![0, 1]);
    assert_eq!(plan.units[4].needed_by, vec![1, 2]);
}

#[test]
fn without_splitting_the_entry_takes_all_it_reaches() {
    // 0 -> 1 -lazy-> 2, and 3 -> 2 which the entry does not reach
    let g = graph(&[&[(1, false)], &[(2, true)], &[], &[(2, false)]], &[0]);
    let plan = g.plan(&one());
    assert_eq!(plan.home, vec![0, 0, 0, 1]);
    assert_eq!(members(&plan), vec![vec![2, 1, 0], vec![3]]);
    assert_eq!(plan.units[0].placement, Placement::Entry(0));
    assert_eq!(plan.units[1].placement, Placement::Shared);
}

#[test]
fn a_cycle_stays_together_and_in_the_order_of_discovery() {
    // 0 -> 1 -> 2 -> 3 -> 1, entries 0 and 4, 4 -> 3
    let g = graph(
        &[&[(1, false)], &[(2, false)], &[(3, false)], &[(1, false)], &[(3, false)]],
        &[0, 4],
    );
    let plan = g.plan(&split());
    assert_eq!(plan.home, vec![0, 1, 1, 1, 2]);
    assert_eq!(members(&plan), vec![vec![0], vec![1, 2, 3], vec![4]]);
    assert_eq!(plan.units[1].placement, Placement::Shared);
}

#[test]
fn an_entry_that_another_entry_imports_keeps_its_bundle() {
    // entries 0 and 1; 0 -> 1 -> 2
    let g = graph(&[&[(1, false)], &[(2, false)], &[]], &[0, 1]);
    let plan = g.plan(&split());
    assert_eq!(plan.home, vec![0, 1, 2]);
    assert_eq!(plan.units[1].placement, Placement::Entry(1));
    assert_eq!(plan.units[1].needed_by, vec![0, 1]);
    // What both need goes to a chunk, and not to either of them.
    assert_eq!(plan.units[2].placement, Placement::Shared);
}

#[test]
fn entries_in_one_cycle_share_the_bundle_of_the_first() {
    // entries 0 and 1 import each other; 1 -> 2
    let g = graph(&[&[(1, false)], &[(0, false), (2, false)], &[]], &[0, 1]);
    let plan = g.plan(&split());
    assert_eq!(plan.home, vec![0, 0, 0]);
    assert_eq!(plan.units[0].placement, Placement::Entry(0));
    assert_eq!(members(&plan), vec![vec![2, 0, 1]]);
}

#[test]
fn a_module_imported_on_demand_takes_its_cycle_along() {
    // 0 -lazy-> 1 <-> 2, 2 -> 3
    let g = graph(&[&[(1, true)], &[(2, false)], &[(1, false), (3, false)], &[]], &[0]);
    let plan = g.plan(&split());
    assert_eq!(plan.home, vec![0, 1, 1, 0]);
    assert_eq!(plan.units[1].placement, Placement::Dynamic(1));
    assert_eq!(members(&plan), vec![vec![3, 0], vec![1, 2]]);
    let mut inline = split();
    inline.inline_dynamic_imports = true;
    let plan = g.plan(&inline);
    assert_eq!(plan.home, vec![0, 0, 0, 0]);
}

#[test]
fn what_no_entry_reaches_is_set_aside() {
    let g = graph(&[&[], &[(0, false)]], &[0]);
    let plan = g.plan(&split());
    assert_eq!(plan.home, vec![0, 1]);
    assert_eq!(plan.units[1].placement, Placement::Shared);
    assert_eq!(plan.units[1].needed_by, Vec::<usize>::new());
}

#[test]
fn a_module_stands_after_what_it_needs() {
    // 0 -> 1, 0 -> 2, 1 -> 3, 2 -> 3, 3 -> 4
    let g = graph(
        &[&[(1, false), (2, false)], &[(3, false)], &[(3, false)], &[(4, false)], &[]],
        &[0],
    );
    let plan = g.plan(&one());
    let order = &plan.units[0].members;
    assert_eq!(order, &vec![4, 3, 1, 2, 0]);
    for (u, module) in g.modules.iter().enumerate() {
        for t in module.targets.iter() {
            let at = |x: usize| order.iter().position(|m| *m == x).unwrap();
            assert!(at(*t) < at(u));
        }
    }
}
