//! Which modules a module reaches through imports.

use vstd::prelude::*;
use crate::graph::{DependencyGraph, GraphView};

verus! {

impl GraphView {
    /// Whether some import of the vertex `u` leads to the vertex `v`.
    pub open spec fn edge(self, u: int, v: int) -> bool {
        &&& 0 <= u < self.modules.len()
        &&& exists|j: int|
            0 <= j < self.modules[u].targets.len() && #[trigger] self.modules[u].targets[j] == v
    }

    /// Whether `path` is a walk along edges: at least one vertex, and from
    /// each to the next an edge.
    pub open spec fn is_path(self, path: Seq<int>) -> bool {
        &&& path.len() > 0
        &&& forall|i: int| 0 <= i < path.len() ==> 0 <= #[trigger] path[i] < self.modules.len()
        &&& forall|i: int| 0 <= i < path.len() - 1 ==> self.edge(#[trigger] path[i], path[i + 1])
    }

    /// Whether a walk leads from `a` to `b`. A vertex reaches itself.
    pub open spec fn reaches(self, a: int, b: int) -> bool {
        exists|path: Seq<int>| #[trigger] self.is_path(path) && path.first() == a && path.last()
            == b
    }

    /// A vertex reaches itself.
    pub proof fn lemma_reaches_self(self, a: int)
        requires
            0 <= a < self.modules.len(),
        ensures
            self.reaches(a, a),
    {
        let path = seq![a];
        assert(self.is_path(path));
        assert(path.first() == a && path.last() == a);
    }

    /// What reaches a vertex reaches what an edge leads to from there.
    pub proof fn lemma_reaches_step(self, a: int, b: int, c: int)
        requires
            self.reaches(a, b),
            self.edge(b, c),
            0 <= c < self.modules.len(),
        ensures
            self.reaches(a, c),
    {
        let path = choose|path: Seq<int>| #[trigger]
            self.is_path(path) && path.first() == a && path.last() == b;
        let longer = path.push(c);
        assert forall|i: int| 0 <= i < longer.len() - 1 implies self.edge(
            #[trigger] longer[i],
            longer[i + 1],
        ) by {
            if i < path.len() - 1 {
                assert(self.edge(path[i], path[i + 1]));
            }
        }
        assert(self.is_path(longer));
        assert(longer.first() == a && longer.last() == c);
    }

    /// Reaching is transitive.
    pub proof fn lemma_reaches_transitive(self, a: int, b: int, c: int)
        requires
            self.reaches(a, b),
            self.reaches(b, c),
        ensures
            self.reaches(a, c),
    {
        let first = choose|path: Seq<int>| #[trigger]
            self.is_path(path) && path.first() == a && path.last() == b;
        let second = choose|path: Seq<int>| #[trigger]
            self.is_path(path) && path.first() == b && path.last() == c;
        let joined = first + second.skip(1);
        assert forall|i: int| 0 <= i < joined.len() - 1 implies self.edge(
            #[trigger] joined[i],
            joined[i + 1],
        ) by {
            if i < first.len() - 1 {
                assert(self.edge(first[i], first[i + 1]));
            } else {
                let k = i - first.len() + 1;
                assert(self.edge(second[k], second[k + 1]));
                if i == first.len() - 1 {
                    assert(joined[i] == first.last());
                }
            }
        }
        assert forall|i: int| 0 <= i < joined.len() implies 0 <= #[trigger] joined[i]
            < self.modules.len() by {
            if i >= first.len() {
                assert(joined[i] == second[i - first.len() + 1]);
            }
        }
        assert(self.is_path(joined));
        assert(joined.first() == a);
        assert(joined.last() == c) by {
            if second.len() == 1 {
                assert(joined =~= first);
            }
        }
    }

    /// The ends of a walk are vertices.
    pub proof fn lemma_reaches_within(self, a: int, b: int)
        requires
            self.reaches(a, b),
        ensures
            0 <= a < self.modules.len(),
            0 <= b < self.modules.len(),
    {
        let path = choose|path: Seq<int>| #[trigger]
            self.is_path(path) && path.first() == a && path.last() == b;
        assert(0 <= path[0] < self.modules.len());
        assert(0 <= path[path.len() - 1] < self.modules.len());
    }

    /// In a graph that has grown from its entries, every module is reached
    /// from an entry.
    pub proof fn lemma_reached_from_entries(self, t: int)
        requires
            self.wf(),
            self.grown_from_entries(),
            0 <= t < self.modules.len(),
        ensures
            exists|e: int|
                0 <= e < self.entries.len() && #[trigger] self.reaches(self.entries[e] as int, t),
        decreases t,
    {
        assert(self.has_origin(t));
        if exists|e: int| 0 <= e < self.entries.len() && #[trigger] self.entries[e] == t {
            let e = choose|e: int| 0 <= e < self.entries.len() && #[trigger] self.entries[e] == t;
            self.lemma_reaches_self(t);
            assert(self.reaches(self.entries[e] as int, t));
        } else {
            let (p, j) = choose|p: int, j: int|
                0 <= p < t && 0 <= j < self.modules[p].targets.len()
                    && #[trigger] self.modules[p].targets[j] == t;
            self.lemma_reached_from_entries(p);
            let e = choose|e: int|
                0 <= e < self.entries.len() && #[trigger] self.reaches(self.entries[e] as int, p);
            assert(self.edge(p, t));
            self.lemma_reaches_step(self.entries[e] as int, p, t);
        }
    }

    /// Whether `marks` holds a set of vertices that no edge leaves.
    pub open spec fn closed(self, marks: Seq<bool>) -> bool {
        &&& marks.len() == self.modules.len()
        &&& forall|u: int, j: int|
            0 <= u < self.modules.len() && marks[u] && 0 <= j < self.modules[u].targets.len()
                ==> marks[(#[trigger] self.modules[u].targets[j]) as int]
    }

    proof fn lemma_walk_stays(self, marks: Seq<bool>, path: Seq<int>, i: int)
        requires
            self.wf(),
            self.closed(marks),
            self.is_path(path),
            marks[path[0]],
            0 <= i < path.len(),
        ensures
            marks[path[i]],
        decreases i,
    {
        if i > 0 {
            self.lemma_walk_stays(marks, path, i - 1);
            assert(self.edge(path[i - 1], path[i]));
            let j = choose|j: int|
                0 <= j < self.modules[path[i - 1]].targets.len()
                    && #[trigger] self.modules[path[i - 1]].targets[j] == path[i];
            assert(marks[self.modules[path[i - 1]].targets[j] as int]);
        }
    }

    /// A set that no edge leaves holds all that its members reach.
    pub proof fn lemma_closed_holds_reached(self, marks: Seq<bool>, a: int, b: int)
        requires
            self.wf(),
            self.closed(marks),
            0 <= a < marks.len(),
            marks[a],
            self.reaches(a, b),
        ensures
            0 <= b < marks.len(),
            marks[b],
    {
        let path = choose|path: Seq<int>| #[trigger]
            self.is_path(path) && path.first() == a && path.last() == b;
        self.lemma_walk_stays(marks, path, path.len() - 1);
        assert(0 <= path[path.len() - 1] < self.modules.len());
    }
}

/// Distinct numbers below `n` are at most `n`.
pub proof fn lemma_distinct_below(s: Seq<usize>, n: nat)
    requires
        s.no_duplicates(),
        forall|i: int| 0 <= i < s.len() ==> (#[trigger] s[i]) < n,
    ensures
        s.len() <= n,
{
    let t = s.map_values(|x: usize| x as int);
    assert(t.no_duplicates());
    t.unique_seq_to_set();
    vstd::set_lib::lemma_int_range(0, n as int);
    let range = vstd::set_lib::set_int_range(0, n as int);
    assert forall|x: int| t.to_set().contains(x) implies range.contains(x) by {
        let i = choose|i: int| 0 <= i < t.len() && t[i] == x;
        assert(s[i] < n);
    }
    vstd::set_lib::lemma_len_subset(t.to_set(), range);
}

fn filled(n: usize, value: bool) -> (out: Vec<bool>)
    ensures
        out@.len() == n,
        forall|i: int| 0 <= i < n ==> out@[i] == value,
{
    let mut out: Vec<bool> = Vec::new();
    while out.len() < n
        invariant
            out@.len() <= n,
            forall|i: int| 0 <= i < out@.len() ==> out@[i] == value,
        decreases n - out.len(),
    {
        out.push(value);
    }
    out
}

/// What holds of a search from `from` with the vertices of `queue` found and
/// the first `head` of them done: what is marked is reached and queued, and
/// what a done vertex leads to is marked.
spec fn searching(graph: GraphView, from: int, marks: Seq<bool>, queue: Seq<usize>, head: int)
    -> bool {
    &&& marks.len() == graph.modules.len()
    &&& 0 <= head <= queue.len()
    &&& queue.no_duplicates()
    &&& forall|i: int| 0 <= i < queue.len() ==> (#[trigger] queue[i]) < marks.len()
    &&& forall|i: int| 0 <= i < queue.len() ==> marks[(#[trigger] queue[i]) as int]
    &&& forall|v: int| 0 <= v < marks.len() && #[trigger] marks[v] ==> graph.reaches(from, v)
    &&& forall|v: int|
        0 <= v < marks.len() && #[trigger] marks[v] ==> exists|i: int|
            0 <= i < queue.len() && #[trigger] queue[i] == v
    &&& forall|i: int, j: int|
        0 <= i < head && 0 <= j < graph.modules[queue[i] as int].targets.len()
            ==> marks[(#[trigger] graph.modules[queue[i] as int].targets[j]) as int]
}

impl DependencyGraph {
    /// Marks the vertices that `from` reaches.
    pub fn reach_from(&self, from: usize) -> (marks: Vec<bool>)
        requires
            self@.wf(),
            from < self.modules@.len(),
        ensures
            marks@.len() == self.modules@.len(),
            forall|v: int| 0 <= v < marks@.len() ==> marks@[v] == self@.reaches(from as int, v),
    {
        let n = self.modules.len();
        let mut marks = filled(n, false);
        let mut queue: Vec<usize> = Vec::new();
        marks.set(from, true);
        queue.push(from);
        let mut head: usize = 0;
        proof {
            self@.lemma_reaches_self(from as int);
            assert(queue@[0] == from);
        }
        while head < queue.len()
            invariant
                n == self.modules@.len(),
                self@.wf(),
                from < n,
                marks@[from as int],
                searching(self@, from as int, marks@, queue@, head as int),
            decreases n - head,
        {
            proof {
                lemma_distinct_below(queue@, n as nat);
            }
            let u = queue[head];
            let targets = &self.modules[u].targets;
            assert(targets@ == self@.modules[u as int].targets);
            let mut j: usize = 0;
            while j < targets.len()
                invariant
                    n == self.modules@.len(),
                    self@.wf(),
                    from < n,
                    marks@[from as int],
                    head < queue@.len(),
                    u == queue@[head as int],
                    u < n,
                    targets@ == self@.modules[u as int].targets,
                    j <= targets@.len(),
                    searching(self@, from as int, marks@, queue@, head as int),
                    forall|q: int| 0 <= q < j ==> marks@[(#[trigger] targets@[q]) as int],
                decreases targets.len() - j,
            {
                let v = targets[j];
                assert(v < n);
                if !marks[v] {
                    let ghost marks_before = marks@;
                    let ghost queue_before = queue@;
                    proof {
                        assert(self@.edge(u as int, v as int));
                        self@.lemma_reaches_step(from as int, u as int, v as int);
                        assert forall|i: int| 0 <= i < queue@.len() implies queue@[i] != v by {
                            assert(marks@[queue@[i] as int]);
                        }
                    }
                    marks.set(v, true);
                    queue.push(v);
                    proof {
                        assert(queue@.no_duplicates());
                        assert forall|w: int| 0 <= w < marks@.len() && #[trigger] marks@[w] implies exists|
                            i: int,
                        |
                            0 <= i < queue@.len() && #[trigger] queue@[i] == w by {
                            if w == v {
                                assert(queue@[queue@.len() - 1] == v);
                            } else {
                                assert(marks_before[w]);
                                let i = choose|i: int|
                                    0 <= i < queue_before.len() && #[trigger] queue_before[i] == w;
                                assert(queue@[i] == w);
                            }
                        }
                        assert forall|i: int, q: int|
                            0 <= i < head && 0 <= q
                                < self@.modules[queue@[i] as int].targets.len() implies marks@[(
                        #[trigger] self@.modules[queue@[i] as int].targets[q]) as int] by {
                            assert(queue@[i] == queue_before[i]);
                            assert(marks_before[self@.modules[queue_before[i] as int].targets[q] as int]);
                        }
                        assert forall|i: int| 0 <= i < queue@.len() implies marks@[(
                        #[trigger] queue@[i]) as int] by {
                            if i < queue_before.len() {
                                assert(marks_before[queue_before[i] as int]);
                            }
                        }
                    }
                }
                j += 1;
            }
            head += 1;
        }
        proof {
            assert(self@.closed(marks@)) by {
                assert forall|u: int, j: int|
                    0 <= u < self@.modules.len() && marks@[u] && 0 <= j
                        < self@.modules[u].targets.len() implies marks@[(
                #[trigger] self@.modules[u].targets[j]) as int] by {
                    let i = choose|i: int| 0 <= i < queue@.len() && #[trigger] queue@[i] == u;
                    assert(marks@[self@.modules[queue@[i] as int].targets[j] as int]);
                }
            }
            assert forall|v: int| 0 <= v < marks@.len() implies marks@[v] == self@.reaches(
                from as int,
                v,
            ) by {
                if self@.reaches(from as int, v) {
                    self@.lemma_closed_holds_reached(marks@, from as int, v);
                }
            }
        }
        marks
    }

    /// For every pair of vertices, whether the first reaches the second.
    pub fn closure(&self) -> (reach: Vec<Vec<bool>>)
        requires
            self@.wf(),
        ensures
            self@.is_closure(reach),
    {
        let mut reach: Vec<Vec<bool>> = Vec::new();
        while reach.len() < self.modules.len()
            invariant
                self@.wf(),
                reach@.len() <= self.modules@.len(),
                forall|u: int|
                    0 <= u < reach@.len() ==> (#[trigger] reach@[u])@.len()
                        == self.modules@.len(),
                forall|u: int, v: int|
                    0 <= u < reach@.len() && 0 <= v < self.modules@.len() ==> (
                    #[trigger] reach@[u]@[v]) == self@.reaches(u, v),
            decreases self.modules.len() - reach.len(),
        {
            let row = self.reach_from(reach.len());
            reach.push(row);
        }
        reach
    }
}

impl GraphView {
    /// Whether `reach` tells of every pair of vertices whether the first
    /// reaches the second.
    pub open spec fn is_closure(self, reach: Vec<Vec<bool>>) -> bool {
        &&& reach@.len() == self.modules.len()
        &&& forall|u: int| 0 <= u < reach@.len() ==> (#[trigger] reach@[u])@.len() == reach@.len()
        &&& forall|u: int, v: int|
            0 <= u < reach@.len() && 0 <= v < reach@.len() ==> (#[trigger] reach@[u]@[v])
                == self.reaches(u, v)
    }
}

} // verus!
