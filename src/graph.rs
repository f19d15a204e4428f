//! The module graph: one node per distinct module path, one edge per distinct
//! static import, and the index from path to node.
use vstd::prelude::*;
use vstd::hash_map::StringHashMap;
use petgraph::Graph;
use crate::digraph::{
    add_node, edge_count, shortest_walk, walk_between, graph_edges, graph_nodes, neighbors, new_graph, node_count, node_weight,
    targets_from, update_edge, INDEX_LIMIT,
};
use crate::report::{Dependency, Module};

verus! {

/// `d` is a static (non-dynamic) import whose target is `s`.
pub open spec fn static_import_of(d: Dependency, s: Seq<char>) -> bool {
    !d.dynamic && d.resolved@ == s
}

/// `s` is `m`'s own path or the target of one of its first `l` imports that is static.
pub open spec fn head_mentions(m: Module, l: int, s: Seq<char>) -> bool {
    m.source@ == s || exists|j: int|
        0 <= j < l && j < m.dependencies@.len() && #[trigger] static_import_of(m.dependencies@[j], s)
}

/// `s` is `m`'s own path or the target of one of its static imports.
pub open spec fn mentioned_by(m: Module, s: Seq<char>) -> bool {
    head_mentions(m, m.dependencies@.len() as int, s)
}

/// `s` is mentioned by one of the first `k` modules.
pub open spec fn mentioned_upto(ms: Seq<Module>, k: int, s: Seq<char>) -> bool {
    exists|i: int| 0 <= i < k && i < ms.len() && #[trigger] mentioned_by(ms[i], s)
}

/// `s` is the path of a module or the target of a static import in the report.
pub open spec fn mentioned(ms: Seq<Module>, s: Seq<char>) -> bool {
    mentioned_upto(ms, ms.len() as int, s)
}

/// `m` is the module at `a` and one of its first `l` imports is a static one of `b`.
pub open spec fn head_links(m: Module, l: int, a: Seq<char>, b: Seq<char>) -> bool {
    m.source@ == a && exists|j: int|
        0 <= j < l && j < m.dependencies@.len() && #[trigger] static_import_of(m.dependencies@[j], b)
}

/// `m` is the module at `a` and statically imports `b`.
pub open spec fn links_from(m: Module, a: Seq<char>, b: Seq<char>) -> bool {
    head_links(m, m.dependencies@.len() as int, a, b)
}

/// One of the first `k` modules is at `a` and statically imports `b`.
pub open spec fn linked_upto(ms: Seq<Module>, k: int, a: Seq<char>, b: Seq<char>) -> bool {
    exists|i: int| 0 <= i < k && i < ms.len() && #[trigger] links_from(ms[i], a, b)
}

/// Some module of the report at `a` statically imports `b`.
pub open spec fn linked_in(ms: Seq<Module>, a: Seq<char>, b: Seq<char>) -> bool {
    linked_upto(ms, ms.len() as int, a, b)
}

/// Module entries plus imports among the first `k` modules: a bound on what
/// the graph of those modules holds.
pub open spec fn size_upto(ms: Seq<Module>, k: int) -> nat
    decreases k,
{
    if k <= 0 || k > ms.len() {
        0
    } else {
        size_upto(ms, k - 1) + 1 + ms[k - 1].dependencies@.len()
    }
}

/// Module entries plus imports in the whole report.
pub open spec fn report_size(ms: Seq<Module>) -> nat {
    size_upto(ms, ms.len() as int)
}

proof fn lemma_size_monotone(ms: Seq<Module>, k: int, k2: int)
    requires
        0 <= k <= k2 <= ms.len(),
    ensures
        size_upto(ms, k) <= size_upto(ms, k2),
    decreases k2 - k,
{
    if k < k2 {
        lemma_size_monotone(ms, k, k2 - 1);
    }
}

/// A dependency graph: node `i` carries a module path, `index` finds the node
/// of a path.
pub struct ModuleGraph {
    graph: Graph<String, ()>,
    index: StringHashMap<usize>,
}

impl ModuleGraph {
    /// The path of each node, node `i` at position `i`.
    pub closed spec fn names(&self) -> Seq<Seq<char>> {
        graph_nodes(self.graph)
    }

    /// The edges as pairs of node numbers.
    pub closed spec fn edges(&self) -> Seq<(usize, usize)> {
        graph_edges(self.graph)
    }

    /// The path-to-node index.
    pub closed spec fn ids(&self) -> Map<Seq<char>, usize> {
        self.index@
    }

    /// Whether `s` has a node.
    pub open spec fn has_node(&self, s: Seq<char>) -> bool {
        self.ids().contains_key(s)
    }

    /// The node of path `s`.
    pub open spec fn id(&self, s: Seq<char>) -> usize {
        self.ids()[s]
    }

    /// Whether there is an edge from the node of `a` to the node of `b`.
    pub open spec fn links(&self, a: Seq<char>, b: Seq<char>) -> bool {
        self.has_node(a) && self.has_node(b) && self.edges().contains((self.id(a), self.id(b)))
    }

    /// Nodes and index agree, paths are distinct, edges join existing nodes
    /// and none is repeated.
    pub open spec fn wf(&self) -> bool {
        let names = self.names();
        let es = self.edges();
        &&& forall|i: int|
            0 <= i < names.len() ==> #[trigger] self.ids().contains_key(names[i]) && self.ids()[names[i]]
                == i
        &&& forall|s: Seq<char>| #[trigger]
            self.ids().contains_key(s) ==> self.ids()[s] < names.len() && names[self.ids()[s] as int]
                == s
        &&& forall|k: int| 0 <= k < es.len() ==> (#[trigger] es[k]).0 < names.len() && es[k].1 < names.len()
        &&& es.no_duplicates()
    }

    /// The node of `name`, added if it has none yet.
    fn intern(&mut self, name: &String) -> (i: usize)
        requires
            old(self).wf(),
            old(self).names().len() < INDEX_LIMIT,
        ensures
            final(self).wf(),
            final(self).has_node(name@),
            i == final(self).id(name@),
            i < final(self).names().len(),
            final(self).names().len() <= old(self).names().len() + 1,
            final(self).edges() == old(self).edges(),
            forall|s: Seq<char>| #[trigger]
                final(self).has_node(s) <==> (old(self).has_node(s) || s == name@),
            forall|s: Seq<char>| old(self).has_node(s) ==> #[trigger] final(self).id(s) == old(self).id(s),
            forall|a: Seq<char>, b: Seq<char>| #[trigger]
                final(self).links(a, b) <==> old(self).links(a, b),
    {
        match self.index.get(name.as_str()) {
            Some(i) => *i,
            None => {
                let ghost before = *self;
                let i = add_node(&mut self.graph, name.clone());
                self.index.insert(name.clone(), i);
                assert forall|j: int| 0 <= j < self.names().len() implies #[trigger] self.ids().contains_key(
                    self.names()[j],
                ) && self.ids()[self.names()[j]] == j by {
                    if j < before.names().len() {
                        assert(before.ids().contains_key(before.names()[j]));
                    }
                }
                assert forall|t: Seq<char>| #[trigger] self.ids().contains_key(t) implies self.ids()[t]
                    < self.names().len() && self.names()[self.ids()[t] as int] == t by {
                    if t != name@ {
                        assert(before.ids().contains_key(t));
                    }
                }
                assert forall|k: int| 0 <= k < self.edges().len() implies (#[trigger] self.edges()[k]).0
                    < self.names().len() && self.edges()[k].1 < self.names().len() by {
                    assert(before.edges()[k] == self.edges()[k]);
                }
                assert forall|a: Seq<char>, b: Seq<char>| #[trigger]
                    self.links(a, b) <==> before.links(a, b) by {
                    if self.links(a, b) && !before.links(a, b) {
                        let k = self.edges().index_of((self.id(a), self.id(b)));
                        assert(self.edges()[k] == (self.id(a), self.id(b)));
                    }
                }
                i
            },
        }
    }

    /// The graph holds exactly what `ms` describes: one node per path that
    /// is a module or a static import target, and one edge per pair of a
    /// module and a path it statically imports.
    pub open spec fn built_from(&self, ms: Seq<Module>) -> bool {
        &&& self.wf()
        &&& forall|s: Seq<char>| #[trigger] self.has_node(s) <==> mentioned(ms, s)
        &&& forall|a: Seq<char>, b: Seq<char>| #[trigger] self.links(a, b) <==> linked_in(ms, a, b)
    }

    /// The node of `name`, if it has one.
    pub fn lookup(&self, name: &str) -> (r: Option<usize>)
        requires
            self.wf(),
        ensures
            r == (if self.has_node(name@) {
                Some(self.id(name@))
            } else {
                None
            }),
            r is Some ==> r->Some_0 < self.names().len(),
    {
        match self.index.get(name) {
            Some(i) => {
                assert(self.ids().contains_key(name@));
                Some(*i)
            },
            None => None,
        }
    }

    /// Whether the module at `name` has a node.
    pub fn contains(&self, name: &str) -> (r: bool)
        requires
            self.wf(),
        ensures
            r == self.has_node(name@),
    {
        self.index.contains_key(name)
    }

    /// The number of nodes.
    pub fn node_count(&self) -> (r: usize)
        ensures
            r == self.names().len(),
    {
        node_count(&self.graph)
    }

    /// The number of edges.
    pub fn edge_count(&self) -> (r: usize)
        ensures
            r == self.edges().len(),
    {
        edge_count(&self.graph)
    }

    /// The path of node `i`.
    pub fn name_at(&self, i: usize) -> (r: String)
        requires
            i < self.names().len(),
        ensures
            r@ == self.names()[i as int],
    {
        match node_weight(&self.graph, i) {
            Some(s) => s,
            None => String::new(),
        }
    }

    /// The targets of the edges out of node `a`, newest edge first.
    pub fn successors(&self, a: usize) -> (r: Vec<usize>)
        requires
            a < self.names().len(),
        ensures
            r@ == targets_from(self.edges(), a),
    {
        neighbors(&self.graph, a)
    }

    /// Whether the module at `from` has an edge to the module at `to`.
    pub fn has_edge(&self, from: &str, to: &str) -> (r: bool)
        requires
            self.wf(),
        ensures
            r == self.links(from@, to@),
    {
        let a = match self.lookup(from) {
            Some(a) => a,
            None => return false,
        };
        let b = match self.lookup(to) {
            Some(b) => b,
            None => return false,
        };
        let nb = self.successors(a);
        proof {
            lemma_targets_contain(self.edges(), a);
        }
        let mut j: usize = 0;
        while j < nb.len()
            invariant
                0 <= j <= nb@.len(),
                forall|k: int| 0 <= k < j ==> nb@[k] != b,
                self.has_node(from@) && self.has_node(to@),
                a == self.id(from@) && b == self.id(to@),
                forall|y: usize| #[trigger] nb@.contains(y) <==> self.edges().contains((a, y)),
            decreases nb@.len() - j,
        {
            if nb[j] == b {
                assert(nb@.contains(b));
                return true;
            }
            j = j + 1;
        }
        proof {
            if nb@.contains(b) {
                let k = nb@.index_of(b);
            }
        }
        false
    }

    /// A walk from node `a` to node `b` with the fewest edges, and that number.
    pub fn fewest_edges(&self, a: usize, b: usize) -> (r: Option<(usize, Vec<usize>)>)
        requires
            a < self.names().len(),
            b < self.names().len(),
        ensures
            match r {
                Some((c, p)) => {
                    &&& walk_between(self.edges(), self.names().len(), p@, a, b)
                    &&& c == p@.len() - 1
                    &&& forall|q: Seq<usize>|
                        #[trigger] walk_between(self.edges(), self.names().len(), q, a, b) ==> p@.len()
                            <= q.len()
                },
                None => forall|q: Seq<usize>| !#[trigger] walk_between(self.edges(), self.names().len(), q, a, b),
            },
    {
        shortest_walk(&self.graph, a, b)
    }

    /// Builds the graph of a report: every module path and every static
    /// import target gets exactly one node, and every static import one edge
    /// from its module's node (parallel imports share one edge).
    pub fn build(modules: &Vec<Module>) -> (g: ModuleGraph)
        requires
            report_size(modules@) < INDEX_LIMIT,
        ensures
            g.built_from(modules@),
    {
        let ghost ms = modules@;
        let mut g = ModuleGraph { graph: new_graph(), index: StringHashMap::new() };
        let mut k: usize = 0;
        while k < modules.len()
            invariant
                0 <= k <= ms.len(),
                ms == modules@,
                report_size(ms) < INDEX_LIMIT,
                g.wf(),
                g.names().len() <= size_upto(ms, k as int),
                g.edges().len() <= size_upto(ms, k as int),
                forall|s: Seq<char>| #[trigger] g.has_node(s) <==> mentioned_upto(ms, k as int, s),
                forall|a: Seq<char>, b: Seq<char>| #[trigger]
                    g.links(a, b) <==> linked_upto(ms, k as int, a, b),
            decreases ms.len() - k,
        {
            let m = &modules[k];
            proof {
                lemma_size_monotone(ms, k + 1, ms.len() as int);
            }
            let src = g.intern(&m.source);
            let mut l: usize = 0;
            while l < m.dependencies.len()
                invariant
                    0 <= k < ms.len(),
                    ms == modules@,
                    *m == ms[k as int],
                    0 <= l <= m.dependencies@.len(),
                    size_upto(ms, k + 1) < INDEX_LIMIT,
                    g.wf(),
                    g.has_node(m.source@),
                    src == g.id(m.source@),
                    g.names().len() <= size_upto(ms, k as int) + 1 + l,
                    g.edges().len() <= size_upto(ms, k as int) + l,
                    forall|s: Seq<char>| #[trigger]
                        g.has_node(s) <==> (mentioned_upto(ms, k as int, s) || head_mentions(
                            *m,
                            l as int,
                            s,
                        )),
                    forall|a: Seq<char>, b: Seq<char>| #[trigger]
                        g.links(a, b) <==> (linked_upto(ms, k as int, a, b) || head_links(
                            *m,
                            l as int,
                            a,
                            b,
                        )),
                decreases m.dependencies@.len() - l,
            {
                let d = &m.dependencies[l];
                if !d.dynamic {
                    let ghost before = g;
                    let dst = g.intern(&d.resolved);
                    let ghost mid = g;
                    assert(g.has_node(m.source@));
                    assert(g.id(m.source@) == src);
                    assert(src < g.names().len());
                    update_edge(&mut g.graph, src, dst);
                    assert(g.ids() == mid.ids());
                    assert forall|k2: int| 0 <= k2 < g.edges().len() implies (#[trigger] g.edges()[k2]).0
                        < g.names().len() && g.edges()[k2].1 < g.names().len() by {
                        if k2 < mid.edges().len() {
                            assert(mid.edges()[k2] == g.edges()[k2]);
                        }
                    }
                    assert(mid.has_node(d.resolved@) && mid.id(d.resolved@) == dst);
                    assert(g.edges().contains((src, dst))) by {
                        if !mid.edges().contains((src, dst)) {
                            assert(g.edges()[g.edges().len() - 1] == (src, dst));
                        }
                    }
                    assert forall|a: Seq<char>, b: Seq<char>| #[trigger]
                        g.links(a, b) <==> (mid.links(a, b) || (a == m.source@ && b == d.resolved@)) by {
                        if g.links(a, b) && !mid.links(a, b) {
                            let k2 = g.edges().index_of((g.id(a), g.id(b)));
                            assert(g.edges()[k2] == (g.id(a), g.id(b)));
                            if k2 < mid.edges().len() {
                                assert(mid.edges()[k2] == g.edges()[k2]);
                            }
                            assert((g.id(a), g.id(b)) == (src, dst));
                            assert(mid.ids().contains_key(a) && mid.ids().contains_key(b));
                        }
                        if mid.links(a, b) {
                            let k2 = mid.edges().index_of((mid.id(a), mid.id(b)));
                            assert(g.edges()[k2] == mid.edges()[k2]);
                        }
                    }
                    assert forall|t: Seq<char>| #[trigger] g.has_node(t) <==> (before.has_node(t) || t
                        == d.resolved@) by {
                        assert(mid.has_node(t) <==> (before.has_node(t) || t == d.resolved@));
                    }
                    assert(static_import_of(m.dependencies@[l as int], d.resolved@));
                }
                assert forall|t: Seq<char>| #[trigger] head_mentions(*m, l + 1, t) <==> (head_mentions(
                    *m,
                    l as int,
                    t,
                ) || static_import_of(m.dependencies@[l as int], t)) by {
                    if head_mentions(*m, l + 1, t) && !head_mentions(*m, l as int, t) && m.source@ != t {
                        let j = choose|j: int|
                            0 <= j < l + 1 && j < m.dependencies@.len() && #[trigger] static_import_of(
                                m.dependencies@[j],
                                t,
                            );
                        assert(j == l);
                    }
                }
                assert forall|a: Seq<char>, t: Seq<char>| #[trigger] head_links(*m, l + 1, a, t) <==> (
                head_links(*m, l as int, a, t) || (a == m.source@ && static_import_of(
                    m.dependencies@[l as int],
                    t,
                ))) by {
                    if head_links(*m, l + 1, a, t) && !head_links(*m, l as int, a, t) {
                        let j = choose|j: int|
                            0 <= j < l + 1 && j < m.dependencies@.len() && #[trigger] static_import_of(
                                m.dependencies@[j],
                                t,
                            );
                        assert(j == l);
                    }
                }
                l = l + 1;
            }
            assert forall|s: Seq<char>| #[trigger]
                g.has_node(s) <==> mentioned_upto(ms, k + 1, s) by {
                if mentioned_upto(ms, k + 1, s) && !mentioned_upto(ms, k as int, s) {
                    let i = choose|i: int| 0 <= i < k + 1 && i < ms.len() && #[trigger] mentioned_by(ms[i], s);
                    assert(i == k);
                }
                if mentioned_by(ms[k as int], s) {
                    assert(mentioned_upto(ms, k + 1, s));
                }
                if mentioned_upto(ms, k as int, s) {
                    let i = choose|i: int| 0 <= i < k && i < ms.len() && #[trigger] mentioned_by(ms[i], s);
                    assert(mentioned_upto(ms, k + 1, s));
                }
            }
            assert forall|a: Seq<char>, b: Seq<char>| #[trigger]
                g.links(a, b) <==> linked_upto(ms, k + 1, a, b) by {
                if linked_upto(ms, k + 1, a, b) && !linked_upto(ms, k as int, a, b) {
                    let i = choose|i: int| 0 <= i < k + 1 && i < ms.len() && #[trigger] links_from(ms[i], a, b);
                    assert(i == k);
                }
                if links_from(ms[k as int], a, b) {
                    assert(linked_upto(ms, k + 1, a, b));
                }
                if linked_upto(ms, k as int, a, b) {
                    let i = choose|i: int| 0 <= i < k && i < ms.len() && #[trigger] links_from(ms[i], a, b);
                    assert(linked_upto(ms, k + 1, a, b));
                }
            }
            k = k + 1;
        }
        g
    }
}

/// `y` follows `a` in `targets_from(es, a)` exactly when `es` has the edge `a -> y`.
pub proof fn lemma_targets_contain(es: Seq<(usize, usize)>, a: usize)
    ensures
        forall|y: usize| #[trigger] targets_from(es, a).contains(y) <==> es.contains((a, y)),
    decreases es.len(),
{
    if es.len() > 0 {
        let init = es.drop_last();
        lemma_targets_contain(init, a);
        let t = targets_from(es, a);
        let ti = targets_from(init, a);
        assert forall|y: usize| #[trigger] t.contains(y) <==> es.contains((a, y)) by {
            if es.contains((a, y)) {
                let k = es.index_of((a, y));
                if k < init.len() {
                    assert(init[k] == es[k]);
                    assert(ti.contains(y));
                    if es.last().0 == a {
                        assert(t[ti.index_of(y) + 1] == y);
                    }
                } else {
                    assert(t[0] == y);
                }
            }
            if t.contains(y) {
                let k = t.index_of(y);
                if es.last().0 == a && k == 0 {
                    assert(es[es.len() - 1] == (a, y));
                } else {
                    if es.last().0 == a {
                        assert(ti[k - 1] == y);
                    } else {
                        assert(ti[k] == y);
                    }
                    assert(ti.contains(y));
                    assert(init.contains((a, y)));
                    let m = init.index_of((a, y));
                    assert(es[m] == init[m]);
                }
            }
        }
    }
}

/// Whether the report is small enough for `ModuleGraph::build`.
pub fn report_fits(modules: &Vec<Module>) -> (r: bool)
    ensures
        r == (report_size(modules@) < INDEX_LIMIT),
{
    let mut total: usize = 0;
    let mut k: usize = 0;
    while k < modules.len()
        invariant
            0 <= k <= modules@.len(),
            total == size_upto(modules@, k as int),
            total < INDEX_LIMIT,
        decreases modules@.len() - k,
    {
        let more = modules[k].dependencies.len();
        if more >= INDEX_LIMIT - 1 - total {
            proof {
                lemma_size_monotone(modules@, k + 1, modules@.len() as int);
            }
            return false;
        }
        total = total + 1 + more;
        k = k + 1;
    }
    true
}

/// Each path that is a module or the target of a static import has exactly
/// one node, however often the report repeats it.
pub proof fn law_one_node_per_path(g: ModuleGraph, ms: Seq<Module>, s: Seq<char>)
    requires
        g.built_from(ms),
        mentioned(ms, s),
    ensures
        g.has_node(s),
        g.names()[g.id(s) as int] == s,
        forall|i: int| 0 <= i < g.names().len() && #[trigger] g.names()[i] == s ==> i == g.id(s),
{
    assert(g.has_node(s));
    assert forall|i: int| 0 <= i < g.names().len() && #[trigger] g.names()[i] == s implies i == g.id(s) by {
        assert(g.ids().contains_key(g.names()[i]));
    }
}

/// A dynamic import makes no edge: an edge from its module's path to its
/// target exists only where some module at that path imports it statically.
pub proof fn law_dynamic_makes_no_edge(g: ModuleGraph, ms: Seq<Module>, i: int, j: int)
    requires
        g.built_from(ms),
        0 <= i < ms.len(),
        0 <= j < ms[i].dependencies@.len(),
        ms[i].dependencies@[j].dynamic,
    ensures
        g.links(ms[i].source@, ms[i].dependencies@[j].resolved@) ==> linked_in(
            ms,
            ms[i].source@,
            ms[i].dependencies@[j].resolved@,
        ),
{
}

} // verus!
