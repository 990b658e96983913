use std::cell::RefCell;
use std::rc::Rc;

use bundler::binding::BoundName;
use bundler::bundle::{Bundle, BundleKind};
use bundler::bundler::Bundler;
use bundler::config::{Config, MergeMode, ModuleFormat};
use bundler::load::{Load, LoadError};
use bundler::merge::OutNode;
use bundler::module::{Atom, Export, Exported, Import, ImportName, Imported, LoadedModule, Node};
use bundler::resolve::{Resolve, ResolveError};
use bundler::ModuleId;

/// A small generator of numbers, the same on every run.
struct Numbers(u64);

impl Numbers {
    fn next(&mut self, below: u64) -> u64 {
        self.0 = self.0.wrapping_mul(6364136223846793005).wrapping_add(1442695040888963407);
        (self.0 >> 33) % below
    }
}

struct World {
    modules: Vec<LoadedModule>,
    loads: RefCell<Vec<u32>>,
    resolves: RefCell<Vec<(Option<u32>, String)>>,
}

struct Names(Rc<World>);

struct Files(Rc<World>);

impl Resolve for Names {
    fn resolve(&self, importer: Option<ModuleId>, specifier: &String) -> Result<ModuleId, ResolveError> {
        self.0.resolves.borrow_mut().push((importer.map(|i| i.0), specifier.clone()));
        match specifier.parse::<usize>() {
            Ok(n) if n < self.0.modules.len() => Ok(ModuleId(n as u32)),
            _ => Err(ResolveError),
        }
    }
}

impl Load for Files {
    fn load(&self, id: ModuleId) -> Result<LoadedModule, LoadError> {
        self.0.loads.borrow_mut().push(id.0);
        Ok(self.0.modules[id.0 as usize].clone())
    }
}

/// A world of `n` modules: module `i` declares a few of five names, exports
/// what it declares, imports a few modules with a name each, and uses the
/// names it knows.
fn world(seed: u64, n: usize) -> World {
    let mut numbers = Numbers(seed);
    let mut modules = Vec::new();
    for _ in 0..n {
        let mut tree = Vec::new();
        let mut exports = Vec::new();
        for name in 0..5u32 {
            if numbers.next(3) == 0 {
                tree.push(Node::Decl(Atom(name)));
                exports.push(Export { exported: Exported::Named(Atom(name)), binding: Atom(name) });
            }
        }
        let mut imports = Vec::new();
        for _ in 0..numbers.next(4) {
            let to = numbers.next(n as u64);
            let taken = Atom(numbers.next(5) as u32);
            let local = Atom(10 + numbers.next(3) as u32);
            imports.push(Import {
                specifier: to.to_string(),
                names: vec![ImportName { imported: Imported::Named(taken), local }],
                lazy: numbers.next(5) == 0,
            });
        }
        for _ in 0..numbers.next(5) {
            tree.push(Node::Ref(Atom(numbers.next(13) as u32)));
        }
        tree.push(Node::Code(numbers.next(100) as u32));
        modules.push(LoadedModule { tree, imports, exports });
    }
    World { modules, loads: RefCell::new(Vec::new()), resolves: RefCell::new(Vec::new()) }
}

fn run(world: &Rc<World>, merge_mode: MergeMode, inline: bool, roots: &[usize]) -> Vec<Bundle> {
    let config = Config {
        merge_mode,
        inline_dynamic_imports: inline,
        module_format: ModuleFormat::EsModule,
    };
    let entries: Vec<(String, String)> =
        roots.iter().enumerate().map(|(i, r)| (format!("e{}", i), r.to_string())).collect();
    let mut bundler = Bundler::new(config, Names(world.clone()), Files(world.clone()));
    bundler.bundle(&entries).unwrap()
}

/// For each pair of modules, whether the first reaches the second.
fn reach(world: &World) -> Vec<Vec<bool>> {
    let n = world.modules.len();
    let mut r = vec![vec![false; n]; n];
    for (u, module) in world.modules.iter().enumerate() {
        r[u][u] = true;
        for import in module.imports.iter() {
            r[u][import.specifier.parse::<usize>().unwrap()] = true;
        }
    }
    for k in 0..n {
        for i in 0..n {
            for j in 0..n {
                if r[i][k] && r[k][j] {
                    r[i][j] = true;
                }
            }
        }
    }
    r
}

fn declared(bundle: &Bundle) -> Vec<BoundName> {
    bundle
        .tree
        .iter()
        .filter_map(|node| match node {
            OutNode::Decl(name) => Some(*name),
            _ => None,
        })
        .collect()
}

fn check(seed: u64, merge_mode: MergeMode, inline: bool) {
    let n = 2 + (seed % 7) as usize;
    let world = Rc::new(world(seed, n));
    let roots: Vec<usize> = vec![0, n - 1, (seed % n as u64) as usize];
    if let MergeMode::OneBundle = merge_mode {
        check_each(seed, &roots, inline);
        return;
    }
    let bundles = run(&world, merge_mode, inline, &roots);
    let r = reach(&world);
    let found: Vec<usize> = (0..n).filter(|v| roots.iter().any(|e| r[*e][*v])).collect();

    // Nothing was asked twice, and what was loaded is what the entries reach.
    let mut loads = world.loads.borrow().clone();
    let asked = world.resolves.borrow().clone();
    for (i, call) in asked.iter().enumerate() {
        assert!(!asked[..i].contains(call), "seed {}", seed);
    }
    loads.sort();
    assert_eq!(loads, found.iter().map(|v| *v as u32).collect::<Vec<u32>>(), "seed {}", seed);

    // Every module that was found lies in exactly one bundle.
    let home = |v: usize| -> usize {
        let holding: Vec<usize> = bundles
            .iter()
            .enumerate()
            .filter(|(_, b)| b.modules.contains(&ModuleId(v as u32)))
            .map(|(i, _)| i)
            .collect();
        assert_eq!(holding.len(), 1, "seed {} module {}", seed, v);
        holding[0]
    };
    let total: usize = bundles.iter().map(|b| b.modules.len()).sum();
    assert_eq!(total, found.len(), "seed {}", seed);

    for u in found.iter().copied() {
        for v in found.iter().copied() {
            // A cycle is never parted.
            if r[u][v] && r[v][u] {
                assert_eq!(home(u), home(v), "seed {}", seed);
            }
            // What a module needs from outside its cycle stands before it.
            if r[u][v] && !r[v][u] && home(u) == home(v) {
                let order = &bundles[home(u)].modules;
                let at = |x: usize| order.iter().position(|m| m.0 == x as u32).unwrap();
                assert!(at(v) < at(u), "seed {}", seed);
            }
        }
    }

    for (i, bundle) in bundles.iter().enumerate() {
        // Every node of every module is there.
        let nodes: usize =
            bundle.modules.iter().map(|m| world.modules[m.0 as usize].tree.len()).sum();
        assert_eq!(bundle.tree.len(), nodes, "seed {}", seed);
        // No two declarations have one final name.
        let names = declared(bundle);
        for (k, name) in names.iter().enumerate() {
            assert!(!names[..k].contains(name), "seed {}", seed);
        }
        for node in bundle.tree.iter() {
            match node {
                // A direct use names a binding of this bundle.
                OutNode::Ref(name) => assert!(names.contains(name), "seed {}", seed),
                // A link leads to another bundle, which declares the name.
                OutNode::Link { unit, name } => {
                    assert_ne!(*unit, i, "seed {}", seed);
                    assert!(declared(&bundles[*unit]).contains(name), "seed {}", seed);
                }
                _ => {}
            }
        }
        // The entries listed are those that reach the bundle.
        let needing: Vec<ModuleId> = {
            let mut list = Vec::new();
            for e in roots.iter() {
                let reaches = bundle.modules.iter().any(|m| r[*e][m.0 as usize]);
                if reaches && !list.contains(&ModuleId(*e as u32)) {
                    list.push(ModuleId(*e as u32));
                }
            }
            list
        };
        assert_eq!(bundle.entries, needing, "seed {}", seed);
    }

    // A second run gives the same.
    let again = run(&world, merge_mode, inline, &roots);
    assert_eq!(bundles, again, "seed {}", seed);
}

/// Without splitting: every entry has its bundle, which holds what the
/// entry reaches and links to nothing.
fn check_each(seed: u64, roots: &[usize], inline: bool) {
    let n = 2 + (seed % 7) as usize;
    let world = Rc::new(world(seed, n));
    let bundles = run(&world, MergeMode::OneBundle, inline, roots);
    let r = reach(&world);
    assert_eq!(bundles.len(), roots.len(), "seed {}", seed);
    let mut loads = world.loads.borrow().clone();
    let count = loads.len();
    loads.sort();
    loads.dedup();
    assert_eq!(loads.len(), count, "seed {}", seed);
    for (i, bundle) in bundles.iter().enumerate() {
        assert_eq!(bundle.kind, BundleKind::Named { name: format!("e{}", i) }, "seed {}", seed);
        let mut held: Vec<usize> = bundle.modules.iter().map(|m| m.0 as usize).collect();
        let order = held.clone();
        held.sort();
        let reached: Vec<usize> = (0..n).filter(|v| r[roots[i]][*v]).collect();
        assert_eq!(held, reached, "seed {}", seed);
        assert_eq!(bundle.entries, vec![ModuleId(roots[i] as u32)], "seed {}", seed);
        for u in reached.iter().copied() {
            for v in reached.iter().copied() {
                if r[u][v] && !r[v][u] {
                    let at = |x: usize| order.iter().position(|m| *m == x).unwrap();
                    assert!(at(v) < at(u), "seed {}", seed);
                }
            }
        }
        let names = declared(bundle);
        for (k, name) in names.iter().enumerate() {
            assert!(!names[..k].contains(name), "seed {}", seed);
        }
        for node in bundle.tree.iter() {
            match node {
                OutNode::Ref(name) => assert!(names.contains(name), "seed {}", seed),
                OutNode::Link { .. } => panic!("a link without splitting, seed {}", seed),
                _ => {}
            }
        }
    }
    let again = run(&world, MergeMode::OneBundle, inline, roots);
    assert_eq!(bundles, again, "seed {}", seed);
}

#[test]
fn one_bundle_holds_on_many_graphs() {
    for seed in 0..150 {
        check(seed, MergeMode::OneBundle, false);
    }
}

#[test]
fn code_split_holds_on_many_graphs() {
    for seed in 0..150 {
        check(seed, MergeMode::CodeSplit, false);
    }
}

#[test]
fn inlined_lazy_imports_hold_on_many_graphs() {
    for seed in 150..250 {
        check(seed, MergeMode::CodeSplit, true);
    }
}
