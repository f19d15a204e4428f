//! The directed graph of `petgraph` that holds the module graph, seen through
//! two names: the node weights in index order and the edges in insertion order.
use vstd::prelude::*;
use petgraph::algo::astar;
use petgraph::graph::NodeIndex;
use petgraph::visit::EdgeRef;
use petgraph::Graph;

verus! {

#[verifier::external_type_specification]
#[verifier::external_body]
#[verifier::reject_recursive_types(N)]
#[verifier::reject_recursive_types(E)]
#[verifier::reject_recursive_types(Ty)]
#[verifier::reject_recursive_types(Ix)]
pub struct ExGraph<N, E, Ty, Ix>(petgraph::Graph<N, E, Ty, Ix>);

#[verifier::external_type_specification]
#[verifier::external_body]
pub struct ExDirected(petgraph::Directed);

/// The graph's node weights, node `i` at position `i`.
pub uninterp spec fn graph_nodes(g: Graph<String, ()>) -> Seq<Seq<char>>;

/// The graph's edges as (source index, target index), oldest first.
pub uninterp spec fn graph_edges(g: Graph<String, ()>) -> Seq<(usize, usize)>;

/// Largest node or edge count that `petgraph`'s default `u32` index admits.
pub const INDEX_LIMIT: usize = 0xFFFF_FFFF;

/// Targets of the edges out of `a`, most recently added edge first.
pub open spec fn targets_from(es: Seq<(usize, usize)>, a: usize) -> Seq<usize>
    decreases es.len(),
{
    if es.len() == 0 {
        Seq::empty()
    } else {
        let rest = targets_from(es.drop_last(), a);
        if es.last().0 == a {
            seq![es.last().1] + rest
        } else {
            rest
        }
    }
}

/// `p` is a walk along the edges `es` among nodes below `n`.
pub open spec fn is_walk(es: Seq<(usize, usize)>, n: nat, p: Seq<usize>) -> bool {
    &&& p.len() >= 1
    &&& forall|k: int| 0 <= k < p.len() ==> #[trigger] p[k] < n
    &&& forall|k: int| 0 <= k < p.len() - 1 ==> #[trigger] es.contains((p[k], p[k + 1]))
}

/// `p` is a walk from `a` to `b`.
pub open spec fn walk_between(es: Seq<(usize, usize)>, n: nat, p: Seq<usize>, a: usize, b: usize) -> bool {
    is_walk(es, n, p) && p[0] == a && p.last() == b
}

/// Every edge costs one.
fn unit_cost() -> (c: usize)
    ensures
        c == 1,
{
    1
}

/// A remaining-cost estimate of zero, which never overestimates.
fn zero_estimate() -> (c: usize)
    ensures
        c == 0,
{
    0
}

/// Whether node `x` is the goal `b`.
fn is_goal(x: usize, b: usize) -> (r: bool)
    ensures
        r == (x == b),
{
    x == b
}

/// Relies on `petgraph::algo::astar`, with a cost of one per edge and an
/// estimate of zero (admissible): it finds a cheapest walk from `a` to `b` and
/// its cost, the number of its edges, or `None` when `b` cannot be reached.
#[verifier::external_body]
pub fn shortest_walk(g: &Graph<String, ()>, a: usize, b: usize) -> (r: Option<(usize, Vec<usize>)>)
    requires
        a < graph_nodes(*g).len(),
        b < graph_nodes(*g).len(),
    ensures
        match r {
            Some((c, p)) => {
                &&& walk_between(graph_edges(*g), graph_nodes(*g).len(), p@, a, b)
                &&& c == p@.len() - 1
                &&& forall|q: Seq<usize>|
                    #[trigger] walk_between(graph_edges(*g), graph_nodes(*g).len(), q, a, b) ==> p@.len()
                        <= q.len()
            },
            None => forall|q: Seq<usize>|
                !#[trigger] walk_between(graph_edges(*g), graph_nodes(*g).len(), q, a, b),
        },
{
    let found = astar(
        g,
        NodeIndex::new(a),
        |x| is_goal(x.index(), b),
        |_e: petgraph::graph::EdgeReference<()>| unit_cost(),
        |_| zero_estimate(),
    );
    found.map(|(c, p)| (c, p.into_iter().map(|x| x.index()).collect()))
}

/// Relies on `Graph::new`: a directed graph with no nodes and no edges.
#[verifier::external_body]
pub fn new_graph() -> (g: Graph<String, ()>)
    ensures
        graph_nodes(g) == Seq::<Seq<char>>::empty(),
        graph_edges(g) == Seq::<(usize, usize)>::empty(),
{
    Graph::new()
}

/// Relies on `Graph::add_node`: the weight is appended and its index returned;
/// it panics only when the count has reached the `u32` index limit.
#[verifier::external_body]
pub fn add_node(g: &mut Graph<String, ()>, name: String) -> (i: usize)
    requires
        graph_nodes(*old(g)).len() < INDEX_LIMIT,
    ensures
        graph_nodes(*final(g)) == graph_nodes(*old(g)).push(name@),
        graph_edges(*final(g)) == graph_edges(*old(g)),
        i == graph_nodes(*old(g)).len(),
{
    g.add_node(name).index()
}

/// Relies on `Graph::update_edge`: an edge `a -> b` is added unless one is
/// already there; it panics on a missing node or at the `u32` edge limit.
#[verifier::external_body]
pub fn update_edge(g: &mut Graph<String, ()>, a: usize, b: usize)
    requires
        a < graph_nodes(*old(g)).len(),
        b < graph_nodes(*old(g)).len(),
        graph_edges(*old(g)).len() < INDEX_LIMIT,
    ensures
        graph_nodes(*final(g)) == graph_nodes(*old(g)),
        graph_edges(*final(g)) == (if graph_edges(*old(g)).contains((a, b)) {
            graph_edges(*old(g))
        } else {
            graph_edges(*old(g)).push((a, b))
        }),
{
    g.update_edge(NodeIndex::new(a), NodeIndex::new(b), ());
}

/// Relies on `Graph::neighbors`: in a directed graph, the targets of the edges
/// out of `a`, listed in reverse order of their addition.
#[verifier::external_body]
pub fn neighbors(g: &Graph<String, ()>, a: usize) -> (r: Vec<usize>)
    requires
        a < graph_nodes(*g).len(),
    ensures
        r@ == targets_from(graph_edges(*g), a),
{
    g.neighbors(NodeIndex::new(a)).map(|n| n.index()).collect()
}

/// Relies on `Graph::node_weight`: the weight of an existing node `i`.
#[verifier::external_body]
pub fn node_weight(g: &Graph<String, ()>, i: usize) -> (r: Option<String>)
    requires
        i < graph_nodes(*g).len(),
    ensures
        r is Some && r->Some_0@ == graph_nodes(*g)[i as int],
{
    g.node_weight(NodeIndex::new(i)).cloned()
}

/// Relies on `Graph::node_count`: the number of nodes.
#[verifier::external_body]
pub fn node_count(g: &Graph<String, ()>) -> (r: usize)
    ensures
        r == graph_nodes(*g).len(),
{
    g.node_count()
}

/// Relies on `Graph::edge_count`: the number of edges.
#[verifier::external_body]
pub fn edge_count(g: &Graph<String, ()>) -> (r: usize)
    ensures
        r == graph_edges(*g).len(),
{
    g.edge_count()
}

} // verus!
