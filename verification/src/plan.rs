//! Which modules go together into one bundle.
//!
//! Modules that import each other in a cycle form a component and are never
//! parted. With chunks split off, a component that holds an entry belongs to
//! the first such entry. Of the others, one that holds a module imported on
//! demand stands alone; one that a single entry needs goes to that entry;
//! those that the same several entries need share a chunk. Without
//! splitting, what the first entry reaches goes with it; a graph of several
//! entries is then planned once for each of them, as if it had no other.
//!
//! Bundles are numbered in the order of their first modules. Inside a bundle
//! a module stands after what it needs, and the modules of a cycle stand
//! side by side in the order in which they were found.

use vstd::prelude::*;
use crate::config::Config;
use crate::graph::{DependencyGraph, GraphView};

verus! {

/// Where a module is put.
#[derive(Clone, Copy, PartialEq, Eq, Structural, Debug)]
pub enum Placement {
    /// With the entry of this index.
    Entry(usize),
    /// Alone with its component, which has this vertex first.
    Dynamic(usize),
    /// In a chunk, with all that the same entries need.
    Shared,
}

impl GraphView {
    /// Whether `u` and `v` import each other, directly or not.
    pub open spec fn same_component(self, u: int, v: int) -> bool {
        self.reaches(u, v) && self.reaches(v, u)
    }

    /// The first vertex from `u` on that is in the component of `v`.
    pub open spec fn component_from(self, v: int, u: int) -> int
        decreases self.modules.len() - u,
    {
        if u >= self.modules.len() {
            self.modules.len() as int
        } else if self.same_component(u, v) {
            u
        } else {
            self.component_from(v, u + 1)
        }
    }

    /// The first vertex of the component of `v`, which stands for it.
    pub open spec fn component(self, v: int) -> int {
        self.component_from(v, 0)
    }

    /// The first entry from `e` on whose module is in the component of `v`.
    pub open spec fn owner_from(self, v: int, e: int) -> Option<int>
        decreases self.entries.len() - e,
    {
        if e >= self.entries.len() {
            None
        } else if self.same_component(self.entries[e] as int, v) {
            Some(e)
        } else {
            self.owner_from(v, e + 1)
        }
    }

    /// The first entry whose module is in the component of `v`, if any.
    pub open spec fn owner(self, v: int) -> Option<int> {
        self.owner_from(v, 0)
    }

    /// Whether the entry `e` counts among those that need `v`: it reaches
    /// `v`, and no earlier entry lies in its own component.
    pub open spec fn feeds(self, e: int, v: int) -> bool {
        &&& 0 <= e < self.entries.len()
        &&& self.owner(self.entries[e] as int) == Some(e)
        &&& self.reaches(self.entries[e] as int, v)
    }

    /// The first entry from `e` on that needs `v`.
    pub open spec fn feeder_from(self, v: int, e: int) -> Option<int>
        decreases self.entries.len() - e,
    {
        if e >= self.entries.len() || e < 0 {
            None
        } else if self.feeds(e, v) {
            Some(e)
        } else {
            self.feeder_from(v, e + 1)
        }
    }

    /// The entry that needs `v`, if exactly one does.
    pub open spec fn sole_feeder(self, v: int) -> Option<int> {
        match self.feeder_from(v, 0) {
            Some(e) => if self.feeder_from(v, e + 1) is None {
                Some(e)
            } else {
                None
            },
            None => None,
        }
    }

    /// Whether some import that is evaluated on demand leads to `v`.
    pub open spec fn lazy_target(self, v: int) -> bool {
        exists|u: int, j: int|
            0 <= u < self.modules.len() && 0 <= j < self.modules[u].targets.len()
                && #[trigger] self.modules[u].targets[j] == v && self.modules[u].imports[j].lazy
    }

    /// Whether the component of `v` holds a module imported on demand.
    pub open spec fn on_boundary(self, v: int) -> bool {
        exists|w: int|
            0 <= w < self.modules.len() && #[trigger] self.same_component(w, v)
                && self.lazy_target(w)
    }

    /// Where `v` is put under `config`. Where no chunks are split off, what
    /// the first entry reaches goes with it, and the rest is set aside.
    pub open spec fn placement(self, config: Config, v: int) -> Placement {
        if !config.splits() {
            if self.feeds(0, v) {
                Placement::Entry(0)
            } else {
                Placement::Shared
            }
        } else if self.owner(v) is Some {
            Placement::Entry(self.owner(v).unwrap() as usize)
        } else if config.keeps_lazy_apart() && self.on_boundary(v) {
            Placement::Dynamic(self.component(v) as usize)
        } else if self.sole_feeder(v) is Some {
            Placement::Entry(self.sole_feeder(v).unwrap() as usize)
        } else {
            Placement::Shared
        }
    }

    /// Whether the same entries need `u` and `v`.
    pub open spec fn same_feeders(self, u: int, v: int) -> bool {
        forall|e: int| 0 <= e < self.entries.len() ==> self.feeds(e, u) == self.feeds(e, v)
    }

    /// Whether `u` and `v` go into one bundle.
    pub open spec fn together(self, config: Config, u: int, v: int) -> bool {
        &&& self.placement(config, u) == self.placement(config, v)
        &&& self.placement(config, u) == Placement::Shared ==> self.same_feeders(u, v)
    }

    /// The first vertex from `u` on that goes with `v`.
    pub open spec fn unit_root_from(self, config: Config, v: int, u: int) -> int
        decreases self.modules.len() - u,
    {
        if u >= self.modules.len() {
            self.modules.len() as int
        } else if self.together(config, u, v) {
            u
        } else {
            self.unit_root_from(config, v, u + 1)
        }
    }

    /// The first vertex of the bundle of `v`.
    pub open spec fn unit_root(self, config: Config, v: int) -> int {
        self.unit_root_from(config, v, 0)
    }

    /// How many of the vertices below `v` are the first of their bundle.
    pub open spec fn roots_below(self, config: Config, v: int) -> nat
        decreases v,
    {
        if v <= 0 {
            0
        } else {
            self.roots_below(config, v - 1) + if self.unit_root(config, v - 1) == v - 1 {
                1nat
            } else {
                0nat
            }
        }
    }

    /// The number of the bundle of `v`: bundles are numbered in the order of
    /// their first vertices.
    pub open spec fn home(self, config: Config, v: int) -> nat {
        self.roots_below(config, self.unit_root(config, v))
    }

    /// How many of the vertices below `k` the vertex `v` reaches.
    pub open spec fn reached_below(self, v: int, k: int) -> nat
        decreases k,
    {
        if k <= 0 {
            0
        } else {
            self.reached_below(v, k - 1) + if self.reaches(v, k - 1) {
                1nat
            } else {
                0nat
            }
        }
    }

    /// How many vertices `v` reaches: more than any module that it needs
    /// from outside its own component.
    pub open spec fn rank(self, v: int) -> nat {
        self.reached_below(v, self.modules.len() as int)
    }

    /// Whether `u` stands before `v` in a bundle: what reaches less comes
    /// first, then the component that was found first, then the module that
    /// was found first.
    pub open spec fn before(self, u: int, v: int) -> bool {
        ||| self.rank(u) < self.rank(v)
        ||| self.rank(u) == self.rank(v) && self.component(u) < self.component(v)
        ||| self.rank(u) == self.rank(v) && self.component(u) == self.component(v) && u < v
    }
}


/// An index as a number, where there is one.
pub open spec fn as_int(index: Option<usize>) -> Option<int> {
    match index {
        Some(i) => Some(i as int),
        None => None,
    }
}

impl GraphView {
    proof fn lemma_component_from(self, v: int, u: int)
        requires
            0 <= u <= v < self.modules.len(),
            forall|w: int| 0 <= w < u ==> !self.same_component(w, v),
        ensures
            u <= self.component_from(v, u) <= v,
            self.same_component(self.component_from(v, u), v),
            forall|w: int| 0 <= w < self.component_from(v, u) ==> !self.same_component(w, v),
            self.component_from(v, u) == self.component_from(v, 0),
        decreases v - u,
    {
        self.lemma_reaches_self(v);
        if !self.same_component(u, v) {
            self.lemma_component_from(v, u + 1);
        }
        if u > 0 {
            self.lemma_component_from_skips(v, 0, u);
        }
    }

    proof fn lemma_component_from_skips(self, v: int, from: int, to: int)
        requires
            0 <= from <= to <= self.modules.len(),
            forall|w: int| from <= w < to ==> !self.same_component(w, v),
        ensures
            self.component_from(v, from) == self.component_from(v, to),
        decreases to - from,
    {
        if from < to {
            self.lemma_component_from_skips(v, from + 1, to);
        }
    }

    /// The vertex that stands for a component is its first.
    pub proof fn lemma_component(self, v: int)
        requires
            0 <= v < self.modules.len(),
        ensures
            0 <= self.component(v) <= v,
            self.same_component(self.component(v), v),
            forall|w: int| 0 <= w < self.component(v) ==> !self.same_component(w, v),
    {
        self.lemma_component_from(v, 0);
    }

    /// Modules of one component have the same vertex standing for them.
    pub proof fn lemma_component_shared(self, u: int, v: int)
        requires
            self.same_component(u, v),
        ensures
            self.component(u) == self.component(v),
    {
        self.lemma_reaches_within(u, v);
        self.lemma_component(u);
        self.lemma_component(v);
        let cu = self.component(u);
        let cv = self.component(v);
        self.lemma_reaches_transitive(cu, u, v);
        self.lemma_reaches_transitive(v, u, cu);
        self.lemma_reaches_transitive(cv, v, u);
        self.lemma_reaches_transitive(u, v, cv);
        assert(self.same_component(cu, v));
        assert(self.same_component(cv, u));
    }

    proof fn lemma_owner_from_skips(self, v: int, from: int, to: int)
        requires
            0 <= from <= to <= self.entries.len(),
            forall|e: int| from <= e < to ==> !self.same_component(self.entries[e] as int, v),
        ensures
            self.owner_from(v, from) == self.owner_from(v, to),
        decreases to - from,
    {
        if from < to {
            self.lemma_owner_from_skips(v, from + 1, to);
        }
    }

    proof fn lemma_feeder_from_skips(self, v: int, from: int, to: int)
        requires
            0 <= from <= to <= self.entries.len(),
            forall|e: int| from <= e < to ==> !self.feeds(e, v),
        ensures
            self.feeder_from(v, from) == self.feeder_from(v, to),
        decreases to - from,
    {
        if from < to {
            self.lemma_feeder_from_skips(v, from + 1, to);
        }
    }

    proof fn lemma_unit_root_from_skips(self, config: Config, v: int, from: int, to: int)
        requires
            0 <= from <= to <= self.modules.len(),
            forall|u: int| from <= u < to ==> !self.together(config, u, v),
        ensures
            self.unit_root_from(config, v, from) == self.unit_root_from(config, v, to),
        decreases to - from,
    {
        if from < to {
            self.lemma_unit_root_from_skips(config, v, from + 1, to);
        }
    }

    proof fn lemma_unit_root_from(self, config: Config, v: int, u: int)
        requires
            0 <= u <= v < self.modules.len(),
        ensures
            u <= self.unit_root_from(config, v, u) <= v,
            self.together(config, self.unit_root_from(config, v, u), v),
            forall|w: int|
                u <= w < self.unit_root_from(config, v, u) ==> !self.together(config, w, v),
        decreases v - u,
    {
        if !self.together(config, u, v) {
            self.lemma_unit_root_from(config, v, u + 1);
        }
    }

    /// The first vertex of a bundle goes with each of the bundle's vertices,
    /// and none before it does.
    pub proof fn lemma_unit_root(self, config: Config, v: int)
        requires
            0 <= v < self.modules.len(),
        ensures
            0 <= self.unit_root(config, v) <= v,
            self.together(config, self.unit_root(config, v), v),
            forall|w: int| 0 <= w < self.unit_root(config, v) ==> !self.together(config, w, v),
    {
        self.lemma_unit_root_from(config, v, 0);
    }

    /// Vertices that go together have the same first vertex.
    pub proof fn lemma_unit_root_shared(self, config: Config, u: int, v: int)
        requires
            0 <= u < self.modules.len(),
            0 <= v < self.modules.len(),
            self.together(config, u, v),
        ensures
            self.unit_root(config, u) == self.unit_root(config, v),
    {
        self.lemma_unit_root(config, u);
        self.lemma_unit_root(config, v);
        let ru = self.unit_root(config, u);
        let rv = self.unit_root(config, v);
        assert(self.together(config, ru, v));
        assert(self.together(config, rv, u));
    }

    /// The count of first vertices grows with the bound, and is at most the
    /// bound.
    pub proof fn lemma_roots_below_grows(self, config: Config, a: int, b: int)
        requires
            0 <= a <= b,
        ensures
            self.roots_below(config, a) <= self.roots_below(config, b),
            self.roots_below(config, b) <= b,
        decreases b,
    {
        if a < b {
            self.lemma_roots_below_grows(config, a, b - 1);
        } else if b > 0 {
            self.lemma_roots_below_grows(config, 0, b - 1);
        }
    }
}

impl DependencyGraph {
    fn components(&self, reach: &Vec<Vec<bool>>) -> (out: Vec<usize>)
        requires
            self@.wf(),
            self@.is_closure(*reach),
        ensures
            out@.len() == self.modules@.len(),
            forall|v: int| 0 <= v < out@.len() ==> (#[trigger] out@[v]) == self@.component(v),
    {
        let n = self.modules.len();
        let mut out: Vec<usize> = Vec::new();
        while out.len() < n
            invariant
                n == self.modules@.len(),
                self@.is_closure(*reach),
                out@.len() <= n,
                forall|v: int| 0 <= v < out@.len() ==> (#[trigger] out@[v]) == self@.component(v),
            decreases n - out.len(),
        {
            let v = out.len();
            let mut u: usize = 0;
            while u < n && !(reach[u][v] && reach[v][u])
                invariant
                    n == self.modules@.len(),
                    self@.is_closure(*reach),
                    v < n,
                    u <= n,
                    forall|w: int| 0 <= w < u ==> !self@.same_component(w, v as int),
                decreases n - u,
            {
                u += 1;
            }
            proof {
                self@.lemma_component_from_skips(v as int, 0, u as int);
            }
            out.push(u);
        }
        out
    }

    fn ranks(&self, reach: &Vec<Vec<bool>>) -> (out: Vec<usize>)
        requires
            self@.is_closure(*reach),
        ensures
            out@.len() == self.modules@.len(),
            forall|v: int| 0 <= v < out@.len() ==> (#[trigger] out@[v]) == self@.rank(v),
    {
        let n = self.modules.len();
        let mut out: Vec<usize> = Vec::new();
        while out.len() < n
            invariant
                n == self.modules@.len(),
                self@.is_closure(*reach),
                out@.len() <= n,
                forall|v: int| 0 <= v < out@.len() ==> (#[trigger] out@[v]) == self@.rank(v),
            decreases n - out.len(),
        {
            let v = out.len();
            let mut count: usize = 0;
            let mut k: usize = 0;
            while k < n
                invariant
                    n == self.modules@.len(),
                    self@.is_closure(*reach),
                    v < n,
                    k <= n,
                    count <= k,
                    count == self@.reached_below(v as int, k as int),
                decreases n - k,
            {
                if reach[v][k] {
                    count += 1;
                }
                k += 1;
            }
            out.push(count);
        }
        out
    }

    fn holds_entry(&self, reach: &Vec<Vec<bool>>, e: usize, v: usize) -> (b: bool)
        requires
            self@.wf(),
            self@.is_closure(*reach),
            e < self.entries@.len(),
            v < self.modules@.len(),
        ensures
            b == self@.same_component(self@.entries[e as int] as int, v as int),
    {
        let at = self.entries[e];
        assert(at == self@.entries[e as int]);
        reach[at][v] && reach[v][at]
    }

    fn owners(&self, reach: &Vec<Vec<bool>>) -> (out: Vec<Option<usize>>)
        requires
            self@.wf(),
            self@.is_closure(*reach),
        ensures
            out@.len() == self.modules@.len(),
            forall|v: int| 0 <= v < out@.len() ==> as_int(#[trigger] out@[v]) == self@.owner(v),
            forall|v: int|
                0 <= v < out@.len() ==> ((#[trigger] out@[v]) matches Some(e) ==> e
                    < self.entries@.len()),
    {
        let n = self.modules.len();
        let mut out: Vec<Option<usize>> = Vec::new();
        while out.len() < n
            invariant
                n == self.modules@.len(),
                self@.wf(),
                self@.is_closure(*reach),
                out@.len() <= n,
                forall|v: int|
                    0 <= v < out@.len() ==> as_int(#[trigger] out@[v]) == self@.owner(v),
                forall|v: int|
                    0 <= v < out@.len() ==> ((#[trigger] out@[v]) matches Some(e) ==> e
                        < self.entries@.len()),
            decreases n - out.len(),
        {
            let v = out.len();
            let mut e: usize = 0;
            while e < self.entries.len() && !self.holds_entry(reach, e, v)
                invariant
                    n == self.modules@.len(),
                    self@.wf(),
                    self@.is_closure(*reach),
                    v < n,
                    e <= self.entries@.len(),
                    forall|k: int|
                        0 <= k < e ==> !self@.same_component(self@.entries[k] as int, v as int),
                decreases self.entries.len() - e,
            {
                e += 1;
            }
            proof {
                self@.lemma_owner_from_skips(v as int, 0, e as int);
            }
            if e < self.entries.len() {
                out.push(Some(e));
            } else {
                out.push(None);
            }
        }
        out
    }

    /// For each vertex and each entry, whether the entry needs the vertex.
    fn feeders(&self, reach: &Vec<Vec<bool>>, owners: &Vec<Option<usize>>) -> (out: Vec<Vec<bool>>)
        requires
            self@.wf(),
            self@.is_closure(*reach),
            owners@.len() == self.modules@.len(),
            forall|v: int| 0 <= v < owners@.len() ==> as_int(#[trigger] owners@[v]) == self@.owner(v),
        ensures
            self@.are_feeders(out),
    {
        let n = self.modules.len();
        let mut out: Vec<Vec<bool>> = Vec::new();
        while out.len() < n
            invariant
                n == self.modules@.len(),
                self@.wf(),
                self@.is_closure(*reach),
                owners@.len() == n,
                forall|v: int|
                    0 <= v < owners@.len() ==> as_int(#[trigger] owners@[v]) == self@.owner(v),
                out@.len() <= n,
                forall|v: int|
                    0 <= v < out@.len() ==> (#[trigger] out@[v])@.len() == self.entries@.len(),
                forall|v: int, e: int|
                    0 <= v < out@.len() && 0 <= e < self.entries@.len() ==> (
                    #[trigger] out@[v]@[e]) == self@.feeds(e, v),
            decreases n - out.len(),
        {
            let v = out.len();
            let mut row: Vec<bool> = Vec::new();
            while row.len() < self.entries.len()
                invariant
                    n == self.modules@.len(),
                    self@.wf(),
                    self@.is_closure(*reach),
                    owners@.len() == n,
                    forall|w: int|
                        0 <= w < owners@.len() ==> as_int(#[trigger] owners@[w]) == self@.owner(
                            w,
                        ),
                    v < n,
                    row@.len() <= self.entries@.len(),
                    forall|e: int| 0 <= e < row@.len() ==> (#[trigger] row@[e]) == self@.feeds(e, v as int),
                decreases self.entries.len() - row.len(),
            {
                let e = row.len();
                let at = self.entries[e];
                assert(at == self@.entries[e as int]);
                let first = match owners[at] {
                    Some(o) => o == e,
                    None => false,
                };
                row.push(first && reach[at][v]);
            }
            out.push(row);
        }
        out
    }

    fn is_lazy_target(&self, v: usize) -> (b: bool)
        requires
            self@.wf(),
        ensures
            b == self@.lazy_target(v as int),
    {
        let mut u: usize = 0;
        while u < self.modules.len()
            invariant
                self@.wf(),
                u <= self.modules@.len(),
                forall|w: int, j: int|
                    0 <= w < u && 0 <= j < self@.modules[w].targets.len() ==> !(
                    #[trigger] self@.modules[w].targets[j] == v && self@.modules[w].imports[j].lazy),
            decreases self.modules.len() - u,
        {
            let module = &self.modules[u];
            assert(module@ == self@.modules[u as int]);
            assert(module.targets@.len() == module.imports@.len());
            let mut j: usize = 0;
            while j < module.targets.len()
                invariant
                    module@ == self@.modules[u as int],
                    module.targets@.len() == module.imports@.len(),
                    u < self.modules@.len(),
                    j <= module.targets@.len(),
                    forall|k: int|
                        0 <= k < j ==> !(#[trigger] self@.modules[u as int].targets[k] == v
                            && self@.modules[u as int].imports[k].lazy),
                decreases module.targets.len() - j,
            {
                assert(module@.imports[j as int].lazy == module.imports@[j as int].lazy);
                if module.targets[j] == v && module.imports[j].lazy {
                    assert(self@.modules[u as int].targets[j as int] == v);
                    return true;
                }
                j += 1;
            }
            u += 1;
        }
        false
    }

    fn boundaries(&self, reach: &Vec<Vec<bool>>) -> (out: Vec<bool>)
        requires
            self@.wf(),
            self@.is_closure(*reach),
        ensures
            out@.len() == self.modules@.len(),
            forall|v: int| 0 <= v < out@.len() ==> (#[trigger] out@[v]) == self@.on_boundary(v),
    {
        let n = self.modules.len();
        let mut lazy: Vec<bool> = Vec::new();
        while lazy.len() < n
            invariant
                n == self.modules@.len(),
                self@.wf(),
                lazy@.len() <= n,
                forall|v: int| 0 <= v < lazy@.len() ==> (#[trigger] lazy@[v]) == self@.lazy_target(v),
            decreases n - lazy.len(),
        {
            let b = self.is_lazy_target(lazy.len());
            lazy.push(b);
        }
        let mut out: Vec<bool> = Vec::new();
        while out.len() < n
            invariant
                n == self.modules@.len(),
                self@.is_closure(*reach),
                lazy@.len() == n,
                forall|v: int| 0 <= v < lazy@.len() ==> (#[trigger] lazy@[v]) == self@.lazy_target(v),
                out@.len() <= n,
                forall|v: int| 0 <= v < out@.len() ==> (#[trigger] out@[v]) == self@.on_boundary(v),
            decreases n - out.len(),
        {
            let v = out.len();
            let mut w: usize = 0;
            while w < n && !(lazy[w] && reach[w][v] && reach[v][w])
                invariant
                    n == self.modules@.len(),
                    self@.is_closure(*reach),
                    lazy@.len() == n,
                    forall|x: int|
                        0 <= x < lazy@.len() ==> (#[trigger] lazy@[x]) == self@.lazy_target(x),
                    v < n,
                    w <= n,
                    forall|x: int|
                        0 <= x < w ==> !(#[trigger] self@.same_component(x, v as int)
                            && self@.lazy_target(x)),
                decreases n - w,
            {
                assert(lazy@[w as int] == self@.lazy_target(w as int));
                w += 1;
            }
            proof {
                if w < n {
                    assert(lazy@[w as int] == self@.lazy_target(w as int));
                    assert(self@.same_component(w as int, v as int));
                }
            }
            out.push(w < n);
        }
        out
    }
}

impl GraphView {
    /// Whether `feeders` tells of every vertex and entry whether the entry
    /// needs the vertex.
    pub open spec fn are_feeders(self, feeders: Vec<Vec<bool>>) -> bool {
        &&& feeders@.len() == self.modules.len()
        &&& forall|v: int|
            0 <= v < feeders@.len() ==> (#[trigger] feeders@[v])@.len() == self.entries.len()
        &&& forall|v: int, e: int|
            0 <= v < feeders@.len() && 0 <= e < self.entries.len() ==> (
            #[trigger] feeders@[v]@[e]) == self.feeds(e, v)
    }
}


/// The modules of one bundle, in the order in which they are laid out.
#[derive(Clone, PartialEq, Eq, Debug)]
pub struct Unit {
    pub placement: Placement,
    pub members: Vec<usize>,
    /// The entries, by their indices, that reach a module of the bundle.
    pub needed_by: Vec<usize>,
}

/// The bundles of a graph: for each vertex the number of its bundle, and the
/// bundles by their numbers.
#[derive(Clone, PartialEq, Eq, Debug)]
pub struct Plan {
    pub home: Vec<usize>,
    pub units: Vec<Unit>,
}

impl GraphView {
    /// Whether `members` are the vertices of the bundle `unit`, each once,
    /// laid out so that a module stands after what it needs.
    pub open spec fn are_members(self, config: Config, unit: int, members: Seq<usize>) -> bool {
        &&& forall|a: int| 0 <= a < members.len() ==> (#[trigger] members[a]) < self.modules.len()
        &&& forall|a: int|
            0 <= a < members.len() ==> self.home(config, (#[trigger] members[a]) as int) == unit
        &&& forall|a: int, b: int|
            0 <= a < b < members.len() ==> self.before(
                (#[trigger] members[a]) as int,
                (#[trigger] members[b]) as int,
            )
        &&& forall|v: int|
            0 <= v < self.modules.len() && #[trigger] self.home(config, v) == unit
                ==> members.contains(v as usize)
    }

    /// Whether the entry `e` reaches one of `members`.
    pub open spec fn needs(self, e: int, members: Seq<usize>) -> bool {
        exists|a: int|
            0 <= a < members.len() && self.reaches(
                self.entries[e] as int,
                (#[trigger] members[a]) as int,
            )
    }

    /// Those of the first `k` entries that reach one of `members`.
    pub open spec fn needed_by(self, members: Seq<usize>, k: int) -> Seq<usize>
        decreases k,
    {
        if k <= 0 {
            Seq::empty()
        } else if self.needs(k - 1, members) {
            self.needed_by(members, k - 1).push((k - 1) as usize)
        } else {
            self.needed_by(members, k - 1)
        }
    }

    /// In a bundle no module stands before itself, and standing before
    /// carries over: the layout is an order.
    pub proof fn lemma_before_orders(self, a: int, b: int, c: int)
        ensures
            !self.before(a, a),
            self.before(a, b) && self.before(b, c) ==> self.before(a, c),
            a != b ==> self.before(a, b) || self.before(b, a),
    {
    }

    /// Two layouts of the same modules are the same layout.
    pub proof fn lemma_layout_unique(self, a: Seq<usize>, b: Seq<usize>)
        requires
            forall|i: int, j: int|
                0 <= i < j < a.len() ==> self.before((#[trigger] a[i]) as int, (#[trigger] a[j]) as int),
            forall|i: int, j: int|
                0 <= i < j < b.len() ==> self.before((#[trigger] b[i]) as int, (#[trigger] b[j]) as int),
            forall|x: usize| a.contains(x) <==> b.contains(x),
        ensures
            a == b,
        decreases a.len(),
    {
        if a.len() == 0 {
            if b.len() > 0 {
                assert(b.contains(b[0]));
                assert(a.contains(b[0]));
            }
            assert(a =~= b);
        } else {
            let top = a.last();
            assert(a.contains(top));
            assert(b.contains(top));
            let j = choose|j: int| 0 <= j < b.len() && b[j] == top;
            if j < b.len() - 1 {
                let other = b.last();
                assert(self.before(b[j] as int, other as int));
                assert(b.contains(other));
                assert(a.contains(other));
                let i = choose|i: int| 0 <= i < a.len() && a[i] == other;
                if i < a.len() - 1 {
                    assert(self.before(a[i] as int, a[a.len() - 1] as int));
                }
                assert(false);
            }
            let a0 = a.drop_last();
            let b0 = b.drop_last();
            assert forall|x: usize| a0.contains(x) <==> b0.contains(x) by {
                if a0.contains(x) {
                    let i = choose|i: int| 0 <= i < a0.len() && a0[i] == x;
                    assert(a[i] == x);
                    assert(self.before(a[i] as int, a[a.len() - 1] as int));
                    assert(b.contains(x));
                    let k = choose|k: int| 0 <= k < b.len() && b[k] == x;
                    assert(b0[k] == x);
                }
                if b0.contains(x) {
                    let k = choose|k: int| 0 <= k < b0.len() && b0[k] == x;
                    assert(b[k] == x);
                    assert(self.before(b[k] as int, b[b.len() - 1] as int));
                    assert(a.contains(x));
                    let i = choose|i: int| 0 <= i < a.len() && a[i] == x;
                    assert(a0[i] == x);
                }
            }
            assert forall|i: int, k: int| 0 <= i < k < a0.len() implies self.before(
                (#[trigger] a0[i]) as int,
                (#[trigger] a0[k]) as int,
            ) by {
                assert(a0[i] == a[i] && a0[k] == a[k]);
            }
            assert forall|i: int, k: int| 0 <= i < k < b0.len() implies self.before(
                (#[trigger] b0[i]) as int,
                (#[trigger] b0[k]) as int,
            ) by {
                assert(b0[i] == b[i] && b0[k] == b[k]);
            }
            self.lemma_layout_unique(a0, b0);
            assert(a =~= a0.push(top));
            assert(b =~= b0.push(top));
        }
    }

    /// The vertices of the bundle `unit` in their layout.
    pub open spec fn members(self, config: Config, unit: int) -> Seq<usize> {
        choose|members: Seq<usize>| self.are_members(config, unit, members)
    }

    /// A bundle has one layout.
    pub proof fn lemma_members(self, config: Config, unit: int, members: Seq<usize>)
        requires
            self.are_members(config, unit, members),
        ensures
            members == self.members(config, unit),
    {
        let chosen = self.members(config, unit);
        assert(self.are_members(config, unit, chosen));
        assert forall|x: usize| members.contains(x) <==> chosen.contains(x) by {
            if members.contains(x) {
                let i = choose|i: int| 0 <= i < members.len() && members[i] == x;
                assert(self.home(config, members[i] as int) == unit);
                assert(chosen.contains(x as int as usize));
            }
            if chosen.contains(x) {
                let i = choose|i: int| 0 <= i < chosen.len() && chosen[i] == x;
                assert(self.home(config, chosen[i] as int) == unit);
                assert(members.contains(x as int as usize));
            }
        }
        self.lemma_layout_unique(members, chosen);
    }

    /// Whether `plan` is the plan of this graph under `config`.
    pub open spec fn is_plan(self, config: Config, plan: Plan) -> bool {
        &&& plan.home@.len() == self.modules.len()
        &&& forall|v: int|
            0 <= v < plan.home@.len() ==> (#[trigger] plan.home@[v]) == self.home(config, v)
        &&& plan.units@.len() == self.roots_below(config, self.modules.len() as int)
        &&& forall|i: int|
            0 <= i < plan.units@.len() ==> {
                &&& self.are_members(config, i, (#[trigger] plan.units@[i]).members@)
                &&& plan.units@[i].members@.len() > 0
                &&& plan.units@[i].placement == self.placement(
                    config,
                    plan.units@[i].members@[0] as int,
                )
                &&& plan.units@[i].needed_by@ == self.needed_by(
                    plan.units@[i].members@,
                    self.entries.len() as int,
                )
            }
    }
}

impl DependencyGraph {
    fn first_feeder(&self, feeders: &Vec<Vec<bool>>, v: usize, from: usize) -> (found: Option<
        usize,
    >)
        requires
            self@.are_feeders(*feeders),
            v < self.modules@.len(),
            from <= self.entries@.len(),
        ensures
            as_int(found) == self@.feeder_from(v as int, from as int),
            found matches Some(e) ==> from <= e < self.entries@.len(),
    {
        let row = &feeders[v];
        let mut e: usize = from;
        while e < row.len() && !row[e]
            invariant
                self@.are_feeders(*feeders),
                v < self.modules@.len(),
                row@ == feeders@[v as int]@,
                from <= e <= self.entries@.len(),
                forall|k: int| from <= k < e ==> !self@.feeds(k, v as int),
            decreases row.len() - e,
        {
            assert(row@[e as int] == self@.feeds(e as int, v as int));
            e += 1;
        }
        proof {
            self@.lemma_feeder_from_skips(v as int, from as int, e as int);
            if e < row.len() {
                assert(row@[e as int] == self@.feeds(e as int, v as int));
            }
        }
        if e < row.len() {
            Some(e)
        } else {
            None
        }
    }

    fn placements(
        &self,
        config: &Config,
        components: &Vec<usize>,
        owners: &Vec<Option<usize>>,
        feeders: &Vec<Vec<bool>>,
        boundaries: &Vec<bool>,
    ) -> (out: Vec<Placement>)
        requires
            self@.wf(),
            self@.are_feeders(*feeders),
            components@.len() == self.modules@.len(),
            forall|v: int|
                0 <= v < components@.len() ==> (#[trigger] components@[v]) == self@.component(v),
            owners@.len() == self.modules@.len(),
            forall|v: int| 0 <= v < owners@.len() ==> as_int(#[trigger] owners@[v]) == self@.owner(v),
            boundaries@.len() == self.modules@.len(),
            forall|v: int|
                0 <= v < boundaries@.len() ==> (#[trigger] boundaries@[v]) == self@.on_boundary(v),
        ensures
            out@.len() == self.modules@.len(),
            forall|v: int|
                0 <= v < out@.len() ==> (#[trigger] out@[v]) == self@.placement(*config, v),
    {
        let n = self.modules.len();
        let splits = match config.merge_mode {
            crate::config::MergeMode::CodeSplit => true,
            crate::config::MergeMode::OneBundle => false,
        };
        let apart = splits && !config.inline_dynamic_imports;
        let mut out: Vec<Placement> = Vec::new();
        while out.len() < n
            invariant
                n == self.modules@.len(),
                splits == config.splits(),
                apart == config.keeps_lazy_apart(),
                self@.wf(),
                self@.are_feeders(*feeders),
                components@.len() == n,
                forall|v: int|
                    0 <= v < components@.len() ==> (#[trigger] components@[v])
                        == self@.component(v),
                owners@.len() == n,
                forall|v: int|
                    0 <= v < owners@.len() ==> as_int(#[trigger] owners@[v]) == self@.owner(v),
                boundaries@.len() == n,
                forall|v: int|
                    0 <= v < boundaries@.len() ==> (#[trigger] boundaries@[v])
                        == self@.on_boundary(v),
                out@.len() <= n,
                forall|v: int|
                    0 <= v < out@.len() ==> (#[trigger] out@[v]) == self@.placement(*config, v),
            decreases n - out.len(),
        {
            let v = out.len();
            assert(as_int(owners@[v as int]) == self@.owner(v as int));
            assert(boundaries@[v as int] == self@.on_boundary(v as int));
            assert(components@[v as int] == self@.component(v as int));
            let placement = if !splits {
                if self.entries.len() > 0 && feeders[v][0] {
                    assert(feeders@[v as int]@[0] == self@.feeds(0, v as int));
                    Placement::Entry(0)
                } else {
                    if self.entries.len() > 0 {
                        assert(feeders@[v as int]@[0] == self@.feeds(0, v as int));
                    }
                    Placement::Shared
                }
            } else {
                match owners[v] {
                    Some(e) => Placement::Entry(e),
                    None => {
                        if apart && boundaries[v] {
                            Placement::Dynamic(components[v])
                        } else {
                            let first = self.first_feeder(feeders, v, 0);
                            match first {
                                None => Placement::Shared,
                                Some(e) => {
                                    let count = self.entries.len();
                                    assert(e < count);
                                    match self.first_feeder(feeders, v, e + 1) {
                                        None => Placement::Entry(e),
                                        Some(_) => Placement::Shared,
                                    }
                                },
                            }
                        }
                    },
                }
            };
            out.push(placement);
        }
        out
    }

    fn goes_with(
        &self,
        config: &Config,
        placements: &Vec<Placement>,
        feeders: &Vec<Vec<bool>>,
        u: usize,
        v: usize,
    ) -> (b: bool)
        requires
            self@.are_feeders(*feeders),
            placements@.len() == self.modules@.len(),
            forall|w: int|
                0 <= w < placements@.len() ==> (#[trigger] placements@[w]) == self@.placement(
                    *config,
                    w,
                ),
            u < self.modules@.len(),
            v < self.modules@.len(),
        ensures
            b == self@.together(*config, u as int, v as int),
    {
        if placements[u] != placements[v] {
            return false;
        }
        match placements[u] {
            Placement::Shared => {
                let mut e: usize = 0;
                while e < self.entries.len()
                    invariant
                        self@.are_feeders(*feeders),
                        u < self.modules@.len(),
                        v < self.modules@.len(),
                        e <= self.entries@.len(),
                        self@.placement(*config, u as int) == Placement::Shared,
                        self@.placement(*config, v as int) == Placement::Shared,
                        forall|k: int|
                            0 <= k < e ==> self@.feeds(k, u as int) == self@.feeds(k, v as int),
                    decreases self.entries.len() - e,
                {
                    assert(feeders@[u as int]@[e as int] == self@.feeds(e as int, u as int));
                    assert(feeders@[v as int]@[e as int] == self@.feeds(e as int, v as int));
                    if feeders[u][e] != feeders[v][e] {
                        assert(self@.feeds(e as int, u as int) != self@.feeds(e as int, v as int));
                        assert(!self@.same_feeders(u as int, v as int));
                        return false;
                    }
                    e += 1;
                }
                true
            },
            _ => true,
        }
    }

    /// The number of the bundle of each vertex, and the first vertex of each
    /// bundle.
    fn homes(&self, config: &Config, placements: &Vec<Placement>, feeders: &Vec<Vec<bool>>) -> (out:
        (Vec<usize>, Vec<usize>))
        requires
            self@.are_feeders(*feeders),
            placements@.len() == self.modules@.len(),
            forall|w: int|
                0 <= w < placements@.len() ==> (#[trigger] placements@[w]) == self@.placement(
                    *config,
                    w,
                ),
        ensures
            out.0@.len() == self.modules@.len(),
            forall|v: int|
                0 <= v < out.0@.len() ==> (#[trigger] out.0@[v]) == self@.home(*config, v),
            out.1@.len() == self@.roots_below(*config, self.modules@.len() as int),
            forall|i: int|
                0 <= i < out.1@.len() ==> (#[trigger] out.1@[i]) < self.modules@.len()
                    && self@.home(*config, out.1@[i] as int) == i,
    {
        let n = self.modules.len();
        let mut home: Vec<usize> = Vec::new();
        let mut roots: Vec<usize> = Vec::new();
        while home.len() < n
            invariant
                n == self.modules@.len(),
                self@.are_feeders(*feeders),
                placements@.len() == n,
                forall|w: int|
                    0 <= w < placements@.len() ==> (#[trigger] placements@[w])
                        == self@.placement(*config, w),
                home@.len() <= n,
                forall|v: int|
                    0 <= v < home@.len() ==> (#[trigger] home@[v]) == self@.home(*config, v),
                roots@.len() == self@.roots_below(*config, home@.len() as int),
                roots@.len() <= home@.len(),
                forall|i: int|
                    0 <= i < roots@.len() ==> (#[trigger] roots@[i]) < home@.len() && self@.home(
                        *config,
                        roots@[i] as int,
                    ) == i,
            decreases n - home.len(),
        {
            let v = home.len();
            let mut u: usize = 0;
            while u < v && !self.goes_with(config, placements, feeders, u, v)
                invariant
                    n == self.modules@.len(),
                    self@.are_feeders(*feeders),
                    placements@.len() == n,
                    forall|w: int|
                        0 <= w < placements@.len() ==> (#[trigger] placements@[w])
                            == self@.placement(*config, w),
                    v < n,
                    u <= v,
                    forall|w: int| 0 <= w < u ==> !self@.together(*config, w, v as int),
                decreases v - u,
            {
                u += 1;
            }
            proof {
                self@.lemma_unit_root_from_skips(*config, v as int, 0, u as int);
                self@.lemma_unit_root(*config, v as int);
                assert(self@.unit_root(*config, v as int) == u);
                if u < v {
                    self@.lemma_unit_root_shared(*config, u as int, v as int);
                }
            }
            if u == v {
                home.push(roots.len());
                roots.push(v);
            } else {
                let h = home[u];
                home.push(h);
            }
        }
        (home, roots)
    }

    fn comes_before(ranks: &Vec<usize>, components: &Vec<usize>, u: usize, v: usize) -> (b: bool)
        requires
            u < ranks@.len(),
            v < ranks@.len(),
            ranks@.len() == components@.len(),
        ensures
            b == (ranks@[u as int] < ranks@[v as int] || (ranks@[u as int] == ranks@[v as int]
                && components@[u as int] < components@[v as int]) || (ranks@[u as int]
                == ranks@[v as int] && components@[u as int] == components@[v as int] && u < v)),
    {
        if ranks[u] != ranks[v] {
            ranks[u] < ranks[v]
        } else if components[u] != components[v] {
            components[u] < components[v]
        } else {
            u < v
        }
    }

    fn members_of(
        &self,
        config: &Config,
        home: &Vec<usize>,
        ranks: &Vec<usize>,
        components: &Vec<usize>,
        unit: usize,
    ) -> (members: Vec<usize>)
        requires
            home@.len() == self.modules@.len(),
            forall|v: int|
                0 <= v < home@.len() ==> (#[trigger] home@[v]) == self@.home(*config, v),
            ranks@.len() == self.modules@.len(),
            forall|v: int| 0 <= v < ranks@.len() ==> (#[trigger] ranks@[v]) == self@.rank(v),
            components@.len() == self.modules@.len(),
            forall|v: int|
                0 <= v < components@.len() ==> (#[trigger] components@[v]) == self@.component(v),
        ensures
            self@.are_members(*config, unit as int, members@),
    {
        let n = self.modules.len();
        let mut members: Vec<usize> = Vec::new();
        let mut v: usize = 0;
        while v < n
            invariant
                n == self.modules@.len(),
                home@.len() == n,
                forall|w: int|
                    0 <= w < home@.len() ==> (#[trigger] home@[w]) == self@.home(*config, w),
                ranks@.len() == n,
                forall|w: int| 0 <= w < ranks@.len() ==> (#[trigger] ranks@[w]) == self@.rank(w),
                components@.len() == n,
                forall|w: int|
                    0 <= w < components@.len() ==> (#[trigger] components@[w])
                        == self@.component(w),
                v <= n,
                forall|a: int| 0 <= a < members@.len() ==> (#[trigger] members@[a]) < v,
                forall|a: int|
                    0 <= a < members@.len() ==> self@.home(*config, (#[trigger] members@[a]) as int)
                        == unit,
                forall|a: int, b: int|
                    0 <= a < b < members@.len() ==> self@.before(
                        (#[trigger] members@[a]) as int,
                        (#[trigger] members@[b]) as int,
                    ),
                forall|w: int|
                    0 <= w < v && #[trigger] self@.home(*config, w) == unit ==> members@.contains(
                        w as usize,
                    ),
            decreases n - v,
        {
            if home[v] == unit {
                let mut p: usize = 0;
                while p < members.len() && !Self::comes_before(ranks, components, v, members[p])
                    invariant
                        n == self.modules@.len(),
                        ranks@.len() == n,
                        forall|w: int|
                            0 <= w < ranks@.len() ==> (#[trigger] ranks@[w]) == self@.rank(w),
                        components@.len() == n,
                        forall|w: int|
                            0 <= w < components@.len() ==> (#[trigger] components@[w])
                                == self@.component(w),
                        v < n,
                        p <= members@.len(),
                        forall|a: int| 0 <= a < members@.len() ==> (#[trigger] members@[a]) < v,
                        forall|a: int|
                            0 <= a < p ==> self@.before((#[trigger] members@[a]) as int, v as int),
                    decreases members.len() - p,
                {
                    proof {
                        let m = members@[p as int];
                        assert(m < v);
                        assert(ranks@[m as int] == self@.rank(m as int));
                        assert(components@[m as int] == self@.component(m as int));
                        assert(ranks@[v as int] == self@.rank(v as int));
                        assert(components@[v as int] == self@.component(v as int));
                    }
                    p += 1;
                }
                let ghost old_members = members@;
                proof {
                    if p < members.len() {
                        let m = members@[p as int];
                        assert(m < v);
                        assert(ranks@[m as int] == self@.rank(m as int));
                        assert(components@[m as int] == self@.component(m as int));
                        assert(ranks@[v as int] == self@.rank(v as int));
                        assert(components@[v as int] == self@.component(v as int));
                        assert(self@.before(v as int, m as int));
                    }
                }
                members.insert(p, v);
                proof {
                    assert forall|a: int, b: int| 0 <= a < b < members@.len() implies self@.before(
                        (#[trigger] members@[a]) as int,
                        (#[trigger] members@[b]) as int,
                    ) by {
                        if b < p {
                            assert(members@[a] == old_members[a] && members@[b] == old_members[b]);
                        } else if b == p {
                            assert(members@[a] == old_members[a]);
                        } else if a < p {
                            assert(members@[a] == old_members[a] && members@[b] == old_members[b
                                - 1]);
                        } else if a == p {
                            assert(members@[b] == old_members[b - 1]);
                            if b - 1 > p {
                                assert(self@.before(
                                    old_members[p as int] as int,
                                    old_members[b - 1] as int,
                                ));
                            }
                        } else {
                            assert(members@[a] == old_members[a - 1] && members@[b] == old_members[b
                                - 1]);
                        }
                    }
                    assert forall|a: int| 0 <= a < members@.len() implies (#[trigger] members@[a])
                        < v + 1 && self@.home(*config, members@[a] as int) == unit by {
                        if a < p {
                            assert(members@[a] == old_members[a]);
                        } else if a > p {
                            assert(members@[a] == old_members[a - 1]);
                        }
                    }
                    assert forall|w: int|
                        0 <= w < v + 1 && #[trigger] self@.home(*config, w)
                            == unit implies members@.contains(w as usize) by {
                        if w == v {
                            assert(members@[p as int] == v);
                        } else {
                            assert(old_members.contains(w as usize));
                            let a = choose|a: int|
                                0 <= a < old_members.len() && old_members[a] == w as usize;
                            if a < p {
                                assert(members@[a] == w as usize);
                            } else {
                                assert(members@[a + 1] == w as usize);
                            }
                        }
                    }
                }
            }
            v += 1;
        }
        members
    }

    fn needed_by(&self, reach: &Vec<Vec<bool>>, members: &Vec<usize>) -> (out: Vec<usize>)
        requires
            self@.wf(),
            self@.is_closure(*reach),
            forall|a: int| 0 <= a < members@.len() ==> (#[trigger] members@[a]) < self.modules@.len(),
        ensures
            out@ == self@.needed_by(members@, self.entries@.len() as int),
    {
        let mut out: Vec<usize> = Vec::new();
        let mut e: usize = 0;
        while e < self.entries.len()
            invariant
                self@.wf(),
                self@.is_closure(*reach),
                forall|a: int|
                    0 <= a < members@.len() ==> (#[trigger] members@[a]) < self.modules@.len(),
                e <= self.entries@.len(),
                out@ == self@.needed_by(members@, e as int),
            decreases self.entries.len() - e,
        {
            let at = self.entries[e];
            assert(at == self@.entries[e as int]);
            let mut a: usize = 0;
            while a < members.len() && !reach[at][members[a]]
                invariant
                    self@.is_closure(*reach),
                    at < self.modules@.len(),
                    forall|k: int|
                        0 <= k < members@.len() ==> (#[trigger] members@[k]) < self.modules@.len(),
                    a <= members@.len(),
                    forall|k: int|
                        0 <= k < a ==> !self@.reaches(at as int, (#[trigger] members@[k]) as int),
                decreases members.len() - a,
            {
                a += 1;
            }
            if a < members.len() {
                assert(self@.reaches(at as int, members@[a as int] as int));
                out.push(e);
            }
            e += 1;
        }
        out
    }

    /// Plans the bundles of the graph.
    pub fn plan(&self, config: &Config) -> (plan: Plan)
        requires
            self@.wf(),
        ensures
            self@.is_plan(*config, plan),
    {
        let reach = self.closure();
        let components = self.components(&reach);
        let ranks = self.ranks(&reach);
        let owners = self.owners(&reach);
        let feeders = self.feeders(&reach, &owners);
        let boundaries = self.boundaries(&reach);
        let placements = self.placements(config, &components, &owners, &feeders, &boundaries);
        let (home, roots) = self.homes(config, &placements, &feeders);
        let mut units: Vec<Unit> = Vec::new();
        while units.len() < roots.len()
            invariant
                self@.wf(),
                home@.len() == self.modules@.len(),
                forall|v: int|
                    0 <= v < home@.len() ==> (#[trigger] home@[v]) == self@.home(*config, v),
                ranks@.len() == self.modules@.len(),
                forall|v: int| 0 <= v < ranks@.len() ==> (#[trigger] ranks@[v]) == self@.rank(v),
                components@.len() == self.modules@.len(),
                forall|v: int|
                    0 <= v < components@.len() ==> (#[trigger] components@[v])
                        == self@.component(v),
                placements@.len() == self.modules@.len(),
                self@.is_closure(reach),
                forall|v: int|
                    0 <= v < placements@.len() ==> (#[trigger] placements@[v])
                        == self@.placement(*config, v),
                forall|i: int|
                    0 <= i < roots@.len() ==> (#[trigger] roots@[i]) < self.modules@.len()
                        && self@.home(*config, roots@[i] as int) == i,
                units@.len() <= roots@.len(),
                forall|i: int|
                    0 <= i < units@.len() ==> {
                        &&& self@.are_members(*config, i, (#[trigger] units@[i]).members@)
                        &&& units@[i].members@.len() > 0
                        &&& units@[i].placement == self@.placement(
                            *config,
                            units@[i].members@[0] as int,
                        )
                        &&& units@[i].needed_by@ == self@.needed_by(
                            units@[i].members@,
                            self.entries@.len() as int,
                        )
                    },
            decreases roots.len() - units.len(),
        {
            let i = units.len();
            let members = self.members_of(config, &home, &ranks, &components, i);
            proof {
                let r = roots@[i as int];
                assert(self@.home(*config, r as int) == i);
                assert(members@.contains(r));
            }
            let first = members[0];
            let placement = placements[first];
            let needed_by = self.needed_by(&reach, &members);
            units.push(Unit { placement, members, needed_by });
        }
        Plan { home, units }
    }
}


impl GraphView {
    proof fn lemma_component_reaches_alike(self, u: int, v: int, w: int)
        requires
            self.same_component(u, v),
        ensures
            self.reaches(w, u) == self.reaches(w, v),
            self.reaches(u, w) == self.reaches(v, w),
            self.same_component(w, u) == self.same_component(w, v),
    {
        if self.reaches(w, u) {
            self.lemma_reaches_transitive(w, u, v);
        }
        if self.reaches(w, v) {
            self.lemma_reaches_transitive(w, v, u);
        }
        if self.reaches(u, w) {
            self.lemma_reaches_transitive(v, u, w);
        }
        if self.reaches(v, w) {
            self.lemma_reaches_transitive(u, v, w);
        }
    }

    proof fn lemma_owner_alike(self, u: int, v: int, e: int)
        requires
            self.same_component(u, v),
            0 <= e,
        ensures
            self.owner_from(u, e) == self.owner_from(v, e),
        decreases self.entries.len() - e,
    {
        if e < self.entries.len() {
            self.lemma_component_reaches_alike(u, v, self.entries[e] as int);
            self.lemma_owner_alike(u, v, e + 1);
        }
    }

    proof fn lemma_feeders_alike(self, u: int, v: int, e: int)
        requires
            self.same_component(u, v),
            0 <= e,
        ensures
            self.feeder_from(u, e) == self.feeder_from(v, e),
            self.feeds(e, u) == self.feeds(e, v),
        decreases self.entries.len() - e,
    {
        if e < self.entries.len() {
            self.lemma_component_reaches_alike(u, v, self.entries[e] as int);
            self.lemma_feeders_alike(u, v, e + 1);
        }
    }

    proof fn lemma_boundary_alike(self, u: int, v: int)
        requires
            self.same_component(u, v),
        ensures
            self.on_boundary(u) == self.on_boundary(v),
    {
        if self.on_boundary(u) {
            let w = choose|w: int|
                0 <= w < self.modules.len() && #[trigger] self.same_component(w, u)
                    && self.lazy_target(w);
            self.lemma_component_reaches_alike(u, v, w);
            assert(self.same_component(w, v));
        }
        if self.on_boundary(v) {
            let w = choose|w: int|
                0 <= w < self.modules.len() && #[trigger] self.same_component(w, v)
                    && self.lazy_target(w);
            self.lemma_component_reaches_alike(u, v, w);
            assert(self.same_component(w, u));
        }
    }

    /// Modules that import each other in a cycle go into one bundle.
    pub proof fn lemma_cycle_together(self, config: Config, u: int, v: int)
        requires
            self.same_component(u, v),
        ensures
            self.together(config, u, v),
            self.home(config, u) == self.home(config, v),
    {
        self.lemma_reaches_within(u, v);
        self.lemma_owner_alike(u, v, 0);
        self.lemma_boundary_alike(u, v);
        self.lemma_component_shared(u, v);
        self.lemma_feeders_alike(u, v, 0);
        match self.feeder_from(u, 0) {
            Some(e) => {
                self.lemma_feeder_from_within_entries(u, 0);
                self.lemma_feeders_alike(u, v, e + 1);
            },
            None => {},
        }
        assert forall|e: int| 0 <= e < self.entries.len() implies self.feeds(e, u) == self.feeds(
            e,
            v,
        ) by {
            self.lemma_feeders_alike(u, v, e);
        }
        assert(self.together(config, u, v));
        self.lemma_unit_root_shared(config, u, v);
    }

    proof fn lemma_feeder_from_within_entries(self, v: int, e: int)
        requires
            0 <= e,
        ensures
            self.feeder_from(v, e) matches Some(f) ==> e <= f < self.entries.len() && self.feeds(
                f,
                v,
            ),
        decreases self.entries.len() - e,
    {
        if e < self.entries.len() && !self.feeds(e, v) {
            self.lemma_feeder_from_within_entries(v, e + 1);
        }
    }

    proof fn lemma_feeder_found(self, v: int, from: int, e: int)
        requires
            0 <= from <= e,
            self.feeds(e, v),
        ensures
            self.feeder_from(v, from) matches Some(f) && from <= f <= e,
        decreases e - from,
    {
        if !self.feeds(from, v) {
            self.lemma_feeder_found(v, from + 1, e);
        }
    }

    /// With chunks split off, a module that two entries need, and that is in
    /// the component of no entry, is put with neither of them: it goes to a
    /// chunk.
    pub proof fn lemma_shared_is_hoisted(self, config: Config, v: int, first: int, second: int)
        requires
            config.splits(),
            self.feeds(first, v),
            self.feeds(second, v),
            first < second,
            self.owner(v) is None,
        ensures
            !(self.placement(config, v) is Entry),
    {
        self.lemma_feeder_found(v, 0, first);
        let f = self.feeder_from(v, 0).unwrap();
        self.lemma_feeder_found(v, f + 1, second);
    }

    /// Every module lies in the bundle of its number and in no other.
    pub proof fn lemma_one_bundle_each(self, config: Config, plan: Plan, v: usize, unit: int)
        requires
            self.is_plan(config, plan),
            v < self.modules.len(),
            0 <= unit < plan.units@.len(),
        ensures
            self.home(config, v as int) < plan.units@.len(),
            plan.units@[unit].members@.contains(v) <==> unit == self.home(config, v as int),
    {
        self.lemma_unit_root(config, v as int);
        let r = self.unit_root(config, v as int);
        self.lemma_unit_root_shared(config, r, v as int);
        assert(self.roots_below(config, r + 1) == self.roots_below(config, r) + 1);
        self.lemma_roots_below_grows(config, r + 1, self.modules.len() as int);
        let members = plan.units@[unit].members@;
        assert(self.are_members(config, unit, members));
        if members.contains(v) {
            let a = choose|a: int| 0 <= a < members.len() && members[a] == v;
            assert(self.home(config, members[a] as int) == unit);
        }
        if unit == self.home(config, v as int) {
            assert(members.contains(v as int as usize));
        }
    }

    proof fn lemma_reached_no_more(self, u: int, v: int, k: int)
        requires
            self.reaches(u, v),
        ensures
            self.reached_below(v, k) <= self.reached_below(u, k),
        decreases k,
    {
        if k > 0 {
            self.lemma_reached_no_more(u, v, k - 1);
            if self.reaches(v, k - 1) {
                self.lemma_reaches_transitive(u, v, k - 1);
            }
        }
    }

    proof fn lemma_reached_less(self, u: int, v: int, k: int)
        requires
            self.reaches(u, v),
            !self.reaches(v, u),
            0 <= u < k,
        ensures
            self.reached_below(v, k) < self.reached_below(u, k),
        decreases k,
    {
        self.lemma_reaches_within(u, v);
        self.lemma_reaches_self(u);
        if k == u + 1 {
            self.lemma_reached_no_more(u, v, k - 1);
        } else {
            self.lemma_reached_less(u, v, k - 1);
            if self.reaches(v, k - 1) {
                self.lemma_reaches_transitive(u, v, k - 1);
            }
        }
    }

    /// A module stands after what it needs from outside its own cycle: what
    /// `u` reaches without being reached back comes before `u`.
    pub proof fn lemma_needed_comes_first(self, u: int, v: int)
        requires
            self.reaches(u, v),
            !self.same_component(u, v),
        ensures
            self.before(v, u),
    {
        self.lemma_reaches_within(u, v);
        self.lemma_reached_less(u, v, self.modules.len() as int);
    }
}


impl GraphView {
    /// Every entry that reaches a module of a bundle is listed with the
    /// bundle.
    pub proof fn lemma_needing_entry_listed(self, members: Seq<usize>, k: int, e: int)
        requires
            0 <= e < k,
            e <= usize::MAX,
            self.needs(e, members),
        ensures
            self.needed_by(members, k).contains(e as usize),
        decreases k,
    {
        if e < k - 1 {
            self.lemma_needing_entry_listed(members, k - 1, e);
            let before = self.needed_by(members, k - 1);
            let a = choose|a: int| 0 <= a < before.len() && before[a] == e as usize;
            assert(self.needed_by(members, k)[a] == e as usize);
        } else {
            let now = self.needed_by(members, k);
            assert(now[now.len() - 1] == e as usize);
        }
    }
}


impl GraphView {
    proof fn lemma_reached_alike(self, u: int, v: int, k: int)
        requires
            self.same_component(u, v),
        ensures
            self.reached_below(u, k) == self.reached_below(v, k),
        decreases k,
    {
        if k > 0 {
            self.lemma_reached_alike(u, v, k - 1);
            self.lemma_component_reaches_alike(u, v, k - 1);
        }
    }

    /// The modules of a cycle stand in the order in which they were found.
    pub proof fn lemma_cycle_in_order(self, u: int, v: int)
        requires
            self.same_component(u, v),
            u < v,
        ensures
            self.before(u, v),
    {
        self.lemma_reached_alike(u, v, self.modules.len() as int);
        self.lemma_component_shared(u, v);
    }

    /// The modules of a cycle stand side by side: what stands between two
    /// of them is of the cycle too.
    pub proof fn lemma_cycle_unbroken(self, u: int, v: int, w: int)
        requires
            self.same_component(u, v),
            0 <= w < self.modules.len(),
            self.before(u, w),
            self.before(w, v),
        ensures
            self.same_component(u, w),
    {
        self.lemma_reaches_within(u, v);
        self.lemma_reached_alike(u, v, self.modules.len() as int);
        self.lemma_component_shared(u, v);
        self.lemma_component(u);
        self.lemma_component(w);
        let c = self.component(u);
        assert(self.component(w) == c);
        self.lemma_reaches_transitive(u, c, w);
        self.lemma_reaches_transitive(w, c, u);
    }
}


impl GraphView {
    /// Modules with one number go together: different bundles have different
    /// numbers.
    pub proof fn lemma_home_tells_apart(self, config: Config, u: int, v: int)
        requires
            0 <= u < self.modules.len(),
            0 <= v < self.modules.len(),
            self.home(config, u) == self.home(config, v),
        ensures
            self.together(config, u, v),
    {
        self.lemma_unit_root(config, u);
        self.lemma_unit_root(config, v);
        let ru = self.unit_root(config, u);
        let rv = self.unit_root(config, v);
        self.lemma_unit_root_shared(config, ru, u);
        self.lemma_unit_root_shared(config, rv, v);
        if ru < rv {
            assert(self.roots_below(config, ru + 1) == self.roots_below(config, ru) + 1);
            self.lemma_roots_below_grows(config, ru + 1, rv);
        }
        if rv < ru {
            assert(self.roots_below(config, rv + 1) == self.roots_below(config, rv) + 1);
            self.lemma_roots_below_grows(config, rv + 1, ru);
        }
        assert(self.together(config, ru, u));
        assert(self.together(config, ru, v));
    }
}

} // verus!
