//! Queries by module path: the shortest dependency chain and all simple
//! dependency chains between two modules.
use vstd::prelude::*;
use crate::digraph::walk_between;
use crate::graph::ModuleGraph;
use crate::paths::{lemma_distinct_below, simple_walk, simple_walks, views};

verus! {

/// Why a query could not be answered.
#[derive(Debug, PartialEq, Eq)]
pub enum QueryError {
    /// The path has no node in the graph.
    UnknownNode(String),
}

/// The paths held by a list of strings.
pub open spec fn texts(v: Seq<String>) -> Seq<Seq<char>> {
    v.map_values(|s: String| s@)
}

/// The chains held by a list of lists of strings.
pub open spec fn chains(v: Seq<Vec<String>>) -> Seq<Seq<Seq<char>>> {
    v.map_values(|c: Vec<String>| texts(c@))
}

/// What a shortest-chain answer holds, in paths.
pub open spec fn found_view(r: Option<(usize, Vec<String>)>) -> Option<(usize, Seq<Seq<char>>)> {
    match r {
        Some((c, p)) => Some((c, texts(p@))),
        None => None,
    }
}

/// `r` is the error that names `x` as unknown.
pub open spec fn is_unknown<T>(r: Result<T, QueryError>, x: Seq<char>) -> bool {
    match r {
        Err(QueryError::UnknownNode(s)) => s@ == x,
        Ok(_) => false,
    }
}

impl ModuleGraph {
    /// The paths of the nodes of `p`.
    pub open spec fn path_names(&self, p: Seq<usize>) -> Seq<Seq<char>> {
        p.map_values(|i: usize| self.names()[i as int])
    }

    /// `c` is a chain of modules, each depending on the next.
    pub open spec fn is_chain(&self, c: Seq<Seq<char>>) -> bool {
        &&& c.len() >= 1
        &&& forall|k: int| 0 <= k < c.len() ==> #[trigger] self.has_node(c[k])
        &&& forall|k: int| 0 <= k < c.len() - 1 ==> #[trigger] self.links(c[k], c[k + 1])
    }

    /// `c` is a chain from `a` to `b`.
    pub open spec fn chain_between(&self, c: Seq<Seq<char>>, a: Seq<char>, b: Seq<char>) -> bool {
        self.is_chain(c) && c[0] == a && c.last() == b
    }

    /// `b` can be reached from `a` along dependency edges.
    pub open spec fn reaches(&self, a: Seq<char>, b: Seq<char>) -> bool {
        exists|c: Seq<Seq<char>>| #[trigger] self.chain_between(c, a, b)
    }

    /// `r` answers the shortest-chain question from `a` to `b`: a chain with
    /// the fewest edges and its edge count, or `None` when there is no chain.
    pub open spec fn shortest_answer(&self, a: Seq<char>, b: Seq<char>, r: Option<(usize, Seq<Seq<char>>)>) -> bool {
        match r {
            Some((c, p)) => {
                &&& self.chain_between(p, a, b)
                &&& c == p.len() - 1
                &&& forall|q: Seq<Seq<char>>| #[trigger] self.chain_between(q, a, b) ==> p.len() <= q.len()
            },
            None => !self.reaches(a, b),
        }
    }

    /// A walk of node numbers reads as a chain of paths.
    proof fn lemma_walk_chain(&self, p: Seq<usize>, x: usize, y: usize)
        requires
            self.wf(),
            walk_between(self.edges(), self.names().len() as nat, p, x, y),
        ensures
            self.chain_between(self.path_names(p), self.names()[x as int], self.names()[y as int]),
            self.path_names(p).len() == p.len(),
            p.no_duplicates() ==> self.path_names(p).no_duplicates(),
    {
        let c = self.path_names(p);
        assert forall|k: int| 0 <= k < c.len() implies #[trigger] self.has_node(c[k]) && self.id(c[k]) == p[k] by {
            assert(p[k] < self.names().len());
            assert(self.ids().contains_key(self.names()[p[k] as int]));
        }
        assert forall|k: int| 0 <= k < c.len() - 1 implies #[trigger] self.links(c[k], c[k + 1]) by {
            assert(self.edges().contains((p[k], p[k + 1])));
            assert(self.has_node(c[k + 1]) && self.id(c[k + 1]) == p[k + 1]);
        }
        if p.no_duplicates() {
            assert forall|i: int, j: int| 0 <= i < j < c.len() implies c[i] != c[j] by {
                assert(self.has_node(c[i]) && self.has_node(c[j]));
                assert(self.id(c[i]) == p[i] && self.id(c[j]) == p[j]);
            }
        }
    }

    /// A chain of paths reads as a walk of node numbers.
    proof fn lemma_chain_walk(&self, c: Seq<Seq<char>>, a: Seq<char>, b: Seq<char>) -> (p: Seq<usize>)
        requires
            self.wf(),
            self.chain_between(c, a, b),
        ensures
            walk_between(self.edges(), self.names().len() as nat, p, self.id(a), self.id(b)),
            self.path_names(p) == c,
            p.len() == c.len(),
            c.no_duplicates() ==> p.no_duplicates(),
    {
        let p = c.map_values(|s: Seq<char>| self.id(s));
        assert forall|k: int| 0 <= k < p.len() implies #[trigger] p[k] < self.names().len() && self.names()[p[k] as int] == c[k] by {
            assert(self.has_node(c[k]));
        }
        assert forall|k: int| 0 <= k < p.len() - 1 implies #[trigger] self.edges().contains((p[k], p[k + 1])) by {
            assert(self.links(c[k], c[k + 1]));
        }
        assert(self.path_names(p) =~= c);
        if c.no_duplicates() {
            assert forall|i: int, j: int| 0 <= i < j < p.len() implies p[i] != p[j] by {
                assert(self.names()[p[i] as int] == c[i] && self.names()[p[j] as int] == c[j]);
            }
        }
        p
    }

    /// The paths of the nodes of `p`.
    fn names_of(&self, p: &Vec<usize>) -> (r: Vec<String>)
        requires
            forall|k: int| 0 <= k < p@.len() ==> #[trigger] p@[k] < self.names().len(),
        ensures
            texts(r@) == self.path_names(p@),
    {
        let mut r: Vec<String> = Vec::new();
        let mut i: usize = 0;
        while i < p.len()
            invariant
                0 <= i <= p@.len(),
                forall|k: int| 0 <= k < p@.len() ==> #[trigger] p@[k] < self.names().len(),
                texts(r@) == self.path_names(p@.take(i as int)),
                r@.len() == i,
            decreases p@.len() - i,
        {
            let s = self.name_at(p[i]);
            let ghost r0 = r@;
            r.push(s);
            proof {
                assert forall|k: int| 0 <= k < i + 1 implies #[trigger] texts(r@)[k] == self.path_names(p@.take(i + 1))[k] by {
                    if k < i {
                        assert(r@[k] == r0[k]);
                        assert(texts(r0)[k] == self.path_names(p@.take(i as int))[k]);
                    }
                }
            }
            i = i + 1;
            assert(texts(r@) =~= self.path_names(p@.take(i as int)));
        }
        assert(p@.take(i as int) =~= p@);
        r
    }

    /// The shortest dependency chain from `start` to `end` and its number of
    /// edges, `None` when `end` cannot be reached; an unknown path is an error.
    pub fn shortest_path(&self, start: &str, end: &str) -> (r: Result<Option<(usize, Vec<String>)>, QueryError>)
        requires
            self.wf(),
        ensures
            !self.has_node(start@) ==> is_unknown(r, start@),
            self.has_node(start@) && !self.has_node(end@) ==> is_unknown(r, end@),
            self.has_node(start@) && self.has_node(end@) ==> r is Ok && self.shortest_answer(
                start@,
                end@,
                found_view(r->Ok_0),
            ),
    {
        let a = match self.lookup(start) {
            Some(a) => a,
            None => return Err(QueryError::UnknownNode(start.to_string())),
        };
        let b = match self.lookup(end) {
            Some(b) => b,
            None => return Err(QueryError::UnknownNode(end.to_string())),
        };
        proof {
            assert(self.names()[a as int] == start@ && self.names()[b as int] == end@);
        }
        match self.fewest_edges(a, b) {
            Some((c, p)) => {
                let names = self.names_of(&p);
                proof {
                    self.lemma_walk_chain(p@, a, b);
                    assert forall|q: Seq<Seq<char>>| #[trigger] self.chain_between(q, start@, end@) implies texts(names@).len() <= q.len() by {
                        let w = self.lemma_chain_walk(q, start@, end@);
                    }
                }
                Ok(Some((c, names)))
            },
            None => {
                proof {
                    if self.reaches(start@, end@) {
                        let q = choose|q: Seq<Seq<char>>| #[trigger] self.chain_between(q, start@, end@);
                        let w = self.lemma_chain_walk(q, start@, end@);
                    }
                }
                Ok(None)
            },
        }
    }

    /// Every dependency chain from `start` to `end` that visits no module
    /// twice, each once, the shorter ones first; an unknown path is an error.
    pub fn all_simple_paths(&self, start: &str, end: &str) -> (r: Result<Vec<Vec<String>>, QueryError>)
        requires
            self.wf(),
        ensures
            !self.has_node(start@) ==> is_unknown(r, start@),
            self.has_node(start@) && !self.has_node(end@) ==> is_unknown(r, end@),
            self.has_node(start@) && self.has_node(end@) ==> r is Ok && chains(r->Ok_0@).no_duplicates() && (
            forall|c: Seq<Seq<char>>| #[trigger]
                chains(r->Ok_0@).contains(c) <==> (self.chain_between(c, start@, end@) && c.no_duplicates())),
    {
        let n = self.node_count();
        let r = self.all_simple_paths_within(start, end, n);
        proof {
            if self.has_node(start@) && self.has_node(end@) {
                assert forall|c: Seq<Seq<char>>| #[trigger] self.chain_between(c, start@, end@) && c.no_duplicates()
                    implies c.len() <= n by {
                    let w = self.lemma_chain_walk(c, start@, end@);
                    lemma_distinct_below(w, n as nat);
                }
            }
        }
        r
    }

    /// Every dependency chain from `start` to `end` of at most `max_nodes`
    /// modules that visits no module twice, each once, the shorter ones first;
    /// an unknown path is an error. The bound keeps the enumeration small on
    /// densely connected graphs.
    pub fn all_simple_paths_within(&self, start: &str, end: &str, max_nodes: usize) -> (r: Result<
        Vec<Vec<String>>,
        QueryError,
    >)
        requires
            self.wf(),
        ensures
            !self.has_node(start@) ==> is_unknown(r, start@),
            self.has_node(start@) && !self.has_node(end@) ==> is_unknown(r, end@),
            self.has_node(start@) && self.has_node(end@) ==> r is Ok && chains(r->Ok_0@).no_duplicates() && (
            forall|c: Seq<Seq<char>>| #[trigger]
                chains(r->Ok_0@).contains(c) <==> (self.chain_between(c, start@, end@) && c.no_duplicates()
                    && c.len() <= max_nodes)),
    {
        let a = match self.lookup(start) {
            Some(a) => a,
            None => return Err(QueryError::UnknownNode(start.to_string())),
        };
        let b = match self.lookup(end) {
            Some(b) => b,
            None => return Err(QueryError::UnknownNode(end.to_string())),
        };
        proof {
            assert(self.names()[a as int] == start@ && self.names()[b as int] == end@);
        }
        let walks = simple_walks(self, a, b, max_nodes);
        let ghost es = self.edges();
        let ghost nn = self.names().len() as nat;
        let mut out: Vec<Vec<String>> = Vec::new();
        let mut i: usize = 0;
        while i < walks.len()
            invariant
                self.wf(),
                es == self.edges(),
                nn == self.names().len(),
                0 <= i <= walks@.len(),
                forall|q: Seq<usize>| #[trigger] views(walks@).contains(q) <==> (simple_walk(es, nn, q, a, b)
                    && q.len() <= max_nodes),
                views(walks@).no_duplicates(),
                out@.len() == i,
                forall|k: int| 0 <= k < i ==> #[trigger] chains(out@)[k] == self.path_names(walks@[k]@),
            decreases walks@.len() - i,
        {
            let w = &walks[i];
            proof {
                assert(views(walks@)[i as int] == w@);
                assert(views(walks@).contains(w@));
                assert(simple_walk(es, nn, w@, a, b));
            }
            let names = self.names_of(w);
            let ghost out0 = out@;
            out.push(names);
            proof {
                assert forall|k: int| 0 <= k < i + 1 implies #[trigger] chains(out@)[k] == self.path_names(walks@[k]@) by {
                    if k < i {
                        assert(out@[k] == out0[k]);
                        assert(chains(out0)[k] == self.path_names(walks@[k]@));
                    }
                }
            }
            i = i + 1;
        }
        proof {
            let cs = chains(out@);
            assert forall|k: int| 0 <= k < cs.len() implies self.chain_between(#[trigger] cs[k], start@, end@)
                && cs[k].no_duplicates() && cs[k].len() <= max_nodes by {
                assert(views(walks@)[k] == walks@[k]@);
                assert(views(walks@).contains(walks@[k]@));
                self.lemma_walk_chain(walks@[k]@, a, b);
            }
            assert forall|c: Seq<Seq<char>>| #[trigger] cs.contains(c) <==> (self.chain_between(c, start@, end@)
                && c.no_duplicates() && c.len() <= max_nodes) by {
                if cs.contains(c) {
                    let k = cs.index_of(c);
                }
                if self.chain_between(c, start@, end@) && c.no_duplicates() && c.len() <= max_nodes {
                    let w = self.lemma_chain_walk(c, start@, end@);
                    assert(simple_walk(es, nn, w, a, b));
                    assert(w.len() <= max_nodes);
                    assert(views(walks@).contains(w));
                    let k = views(walks@).index_of(w);
                    assert(cs[k] == c);
                }
            }
            assert forall|x: int, y: int| 0 <= x < y < cs.len() implies cs[x] != cs[y] by {
                assert(views(walks@)[x] == walks@[x]@ && views(walks@)[y] == walks@[y]@);
                assert(views(walks@).contains(walks@[x]@) && views(walks@).contains(walks@[y]@));
                if cs[x] == cs[y] {
                    let wx = self.lemma_chain_walk(cs[x], start@, end@);
                    self.lemma_walk_chain(walks@[x]@, a, b);
                    self.lemma_walk_chain(walks@[y]@, a, b);
                    assert(walks@[x]@ =~= walks@[y]@) by {
                        assert forall|k: int| 0 <= k < walks@[x]@.len() implies walks@[x]@[k] == walks@[y]@[k] by {
                            assert(self.path_names(walks@[x]@)[k] == self.path_names(walks@[y]@)[k]);
                            assert(walks@[x]@[k] < nn && walks@[y]@[k] < nn);
                            assert(self.ids().contains_key(self.names()[walks@[x]@[k] as int]));
                            assert(self.ids().contains_key(self.names()[walks@[y]@[k] as int]));
                        }
                    }
                }
            }
        }
        Ok(out)
    }
}

/// The shortest chain from a module to itself is the module alone, with no edge.
pub proof fn law_shortest_to_self(g: ModuleGraph, x: Seq<char>, r: Option<(usize, Seq<Seq<char>>)>)
    requires
        g.wf(),
        g.has_node(x),
        g.shortest_answer(x, x, r),
    ensures
        r == Some((0usize, seq![x])),
{
    let one = seq![x];
    assert(g.chain_between(one, x, x));
    match r {
        Some((c, p)) => {
            assert(p.len() == 1);
            assert(p =~= one);
        },
        None => {
            assert(g.reaches(x, x));
        },
    }
}

/// Between two modules with no directed chain from the first to the second
/// there is no shortest chain.
pub proof fn law_unreachable_has_no_chain(
    g: ModuleGraph,
    a: Seq<char>,
    b: Seq<char>,
    r: Option<(usize, Seq<Seq<char>>)>,
)
    requires
        g.wf(),
        !g.reaches(a, b),
        g.shortest_answer(a, b, r),
    ensures
        r is None,
{
    if let Some((c, p)) = r {
        assert(g.chain_between(p, a, b));
    }
}

} // verus!
