//! Enumeration of the simple walks between two nodes of a module graph.
use vstd::prelude::*;
use crate::digraph::{is_walk, targets_from, walk_between};
use crate::graph::{lemma_targets_contain, ModuleGraph};

verus! {

/// `p` is a walk from `a` to `b` that visits no node twice.
pub open spec fn simple_walk(es: Seq<(usize, usize)>, n: nat, p: Seq<usize>, a: usize, b: usize) -> bool {
    walk_between(es, n, p, a, b) && p.no_duplicates()
}

/// `p` has `len` nodes, starts at `a`, follows edges and repeats no node.
pub open spec fn partial_walk(es: Seq<(usize, usize)>, n: nat, p: Seq<usize>, a: usize, len: int) -> bool {
    is_walk(es, n, p) && p[0] == a && p.no_duplicates() && p.len() == len
}

/// The contents of a list of node lists.
pub open spec fn views(s: Seq<Vec<usize>>) -> Seq<Seq<usize>> {
    s.map_values(|v: Vec<usize>| v@)
}

/// `x` is among positions `lo .. hi` of `s`.
pub open spec fn seen(s: Seq<Vec<usize>>, lo: int, hi: int, x: Seq<usize>) -> bool {
    exists|k: int| lo <= k < hi && #[trigger] s[k]@ == x
}

/// The targets out of `a` are exactly the ends of `a`'s edges, and without
/// repeated edges none is listed twice.
pub proof fn lemma_targets_from(es: Seq<(usize, usize)>, a: usize)
    ensures
        forall|y: usize| #[trigger] targets_from(es, a).contains(y) <==> es.contains((a, y)),
        es.no_duplicates() ==> targets_from(es, a).no_duplicates(),
    decreases es.len(),
{
    lemma_targets_contain(es, a);
    if es.len() > 0 && es.no_duplicates() {
        let init = es.drop_last();
        let t = targets_from(es, a);
        let ti = targets_from(init, a);
        assert(init.no_duplicates()) by {
            assert forall|i: int, j: int| 0 <= i < j < init.len() implies init[i] != init[j] by {
                assert(init[i] == es[i] && init[j] == es[j]);
            }
        }
        lemma_targets_from(init, a);
        if es.last().0 == a {
            if ti.contains(es.last().1) {
                assert(init.contains((a, es.last().1)));
                let m = init.index_of((a, es.last().1));
                assert(es[m] == es[es.len() - 1]);
            }
            assert forall|i: int, j: int| 0 <= i < j < t.len() implies t[i] != t[j] by {
                if i == 0 {
                    assert(t[j] == ti[j - 1]);
                    assert(ti.contains(t[j]));
                } else {
                    assert(t[i] == ti[i - 1] && t[j] == ti[j - 1]);
                }
            }
        }
    }
}

/// A list of distinct numbers below `n` has at most `n` entries.
pub proof fn lemma_distinct_below(p: Seq<usize>, n: nat)
    requires
        p.no_duplicates(),
        forall|k: int| 0 <= k < p.len() ==> #[trigger] p[k] < n,
    ensures
        p.len() <= n,
    decreases n,
{
    if n == 0 {
        if p.len() > 0 {
            assert(p[0] < n);
        }
    } else {
        let top = (n - 1) as usize;
        if p.contains(top) {
            let i = p.index_of(top);
            let q = p.remove(i);
            assert forall|k: int| 0 <= k < q.len() implies #[trigger] q[k] < (n - 1) as nat by {
                if k < i {
                    assert(q[k] == p[k]);
                } else {
                    assert(q[k] == p[k + 1]);
                }
            }
            assert(q.no_duplicates()) by {
                assert forall|x: int, y: int| 0 <= x < y < q.len() implies q[x] != q[y] by {
                    let px = if x < i { x } else { x + 1 };
                    let py = if y < i { y } else { y + 1 };
                    assert(q[x] == p[px] && q[y] == p[py]);
                }
            }
            lemma_distinct_below(q, (n - 1) as nat);
        } else {
            assert forall|k: int| 0 <= k < p.len() implies #[trigger] p[k] < (n - 1) as nat by {
                assert(p[k] != top);
            }
            lemma_distinct_below(p, (n - 1) as nat);
        }
    }
}

/// Whether `x` is on `p`.
fn on_path(p: &Vec<usize>, x: usize) -> (r: bool)
    ensures
        r == p@.contains(x),
{
    let mut i: usize = 0;
    while i < p.len()
        invariant
            0 <= i <= p@.len(),
            forall|k: int| 0 <= k < i ==> p@[k] != x,
        decreases p@.len() - i,
    {
        if p[i] == x {
            return true;
        }
        i = i + 1;
    }
    false
}

/// `p` followed by `x`.
fn extended(p: &Vec<usize>, x: usize) -> (r: Vec<usize>)
    ensures
        r@ == p@.push(x),
{
    let mut r: Vec<usize> = Vec::new();
    let mut i: usize = 0;
    while i < p.len()
        invariant
            0 <= i <= p@.len(),
            r@ == p@.take(i as int),
        decreases p@.len() - i,
    {
        r.push(p[i]);
        i = i + 1;
        assert(r@ =~= p@.take(i as int));
    }
    r.push(x);
    assert(r@ =~= p@.push(x));
    r
}

/// A copy of `p`.
fn copied(p: &Vec<usize>) -> (r: Vec<usize>)
    ensures
        r@ == p@,
{
    let mut r: Vec<usize> = Vec::new();
    let mut i: usize = 0;
    while i < p.len()
        invariant
            0 <= i <= p@.len(),
            r@ == p@.take(i as int),
        decreases p@.len() - i,
    {
        r.push(p[i]);
        i = i + 1;
        assert(r@ =~= p@.take(i as int));
    }
    assert(r@ =~= p@);
    r
}

/// An edge of a well-formed graph ends at an existing node.
proof fn lemma_edge_ends(g: &ModuleGraph, x: usize, y: usize)
    requires
        g.wf(),
        g.edges().contains((x, y)),
    ensures
        x < g.names().len(),
        y < g.names().len(),
{
    let k = g.edges().index_of((x, y));
    assert(g.edges()[k] == (x, y));
}

/// Every walk from node `a` to node `b` of at most `max_nodes` nodes that
/// repeats no node, each once and the shorter ones first, found level by level
/// with an explicit work list.
pub fn simple_walks(g: &ModuleGraph, a: usize, b: usize, max_nodes: usize) -> (out: Vec<Vec<usize>>)
    requires
        g.wf(),
        a < g.names().len(),
        b < g.names().len(),
    ensures
        forall|q: Seq<usize>|
            #[trigger] views(out@).contains(q) <==> (simple_walk(g.edges(), g.names().len() as nat, q, a, b)
                && q.len() <= max_nodes),
        views(out@).no_duplicates(),
{
    let ghost es = g.edges();
    let ghost nn = g.names().len() as nat;
    let n = g.node_count();
    let mut out: Vec<Vec<usize>> = Vec::new();
    let mut start: Vec<usize> = Vec::new();
    start.push(a);
    let mut frontier: Vec<Vec<usize>> = Vec::new();
    frontier.push(start);
    let mut d: usize = 0;
    proof {
        assert forall|q: Seq<usize>| #[trigger] simple_walk(es, nn, q, a, b) implies views(out@).contains(q) || (
        q.len() >= d + 1 && seen(frontier@, 0, frontier@.len() as int, q.take(d + 1))) by {
            assert(frontier@[0]@ =~= q.take(1));
        }
        assert(views(frontier@).no_duplicates());
        assert(partial_walk(es, nn, frontier@[0]@, a, 1));
    }
    while d < n && d < max_nodes
        invariant
            g.wf(),
            n == nn,
            es == g.edges(),
            nn == g.names().len(),
            a < nn,
            b < nn,
            0 <= d <= n,
            d <= max_nodes,
            forall|k: int| 0 <= k < frontier@.len() ==> partial_walk(es, nn, #[trigger] frontier@[k]@, a, d + 1),
            views(frontier@).no_duplicates(),
            forall|k: int|
                0 <= k < out@.len() ==> simple_walk(es, nn, #[trigger] out@[k]@, a, b) && out@[k]@.len() <= d,
            views(out@).no_duplicates(),
            forall|q: Seq<usize>| #[trigger]
                simple_walk(es, nn, q, a, b) ==> views(out@).contains(q) || (q.len() >= d + 1 && seen(
                    frontier@,
                    0,
                    frontier@.len() as int,
                    q.take(d + 1),
                )),
        decreases n - d,
    {
        let mut next: Vec<Vec<usize>> = Vec::new();
        let mut i: usize = 0;
        while i < frontier.len()
            invariant
                g.wf(),
                n == nn,
                es == g.edges(),
                nn == g.names().len(),
                a < nn,
                b < nn,
                0 <= d < n,
                0 <= i <= frontier@.len(),
                forall|k: int|
                    0 <= k < frontier@.len() ==> partial_walk(es, nn, #[trigger] frontier@[k]@, a, d + 1),
                views(frontier@).no_duplicates(),
                forall|k: int|
                    0 <= k < out@.len() ==> simple_walk(es, nn, #[trigger] out@[k]@, a, b) && (out@[k]@.len()
                        <= d || seen(frontier@, 0, i as int, out@[k]@)),
                views(out@).no_duplicates(),
                forall|k: int|
                    0 <= k < next@.len() ==> partial_walk(es, nn, #[trigger] next@[k]@, a, d + 2) && seen(
                        frontier@,
                        0,
                        i as int,
                        next@[k]@.take(d + 1),
                    ),
                views(next@).no_duplicates(),
                forall|q: Seq<usize>| #[trigger]
                    simple_walk(es, nn, q, a, b) ==> views(out@).contains(q) || (q.len() >= d + 1 && seen(
                        frontier@,
                        i as int,
                        frontier@.len() as int,
                        q.take(d + 1),
                    )) || (q.len() >= d + 2 && views(next@).contains(q.take(d + 2))),
            decreases frontier@.len() - i,
        {
            let p = &frontier[i];
            assert(partial_walk(es, nn, frontier@[i as int]@, a, d + 1));
            let last = p[d];
            if last == b {
                let ghost out0 = out@;
                out.push(copied(p));
                proof {
                    assert(views(out@) =~= views(out0).push(p@));
                    assert forall|k: int| 0 <= k < out@.len() implies simple_walk(es, nn, #[trigger] out@[k]@, a, b) && (
                    out@[k]@.len() <= d || seen(frontier@, 0, i + 1, out@[k]@)) by {
                        if k < out0.len() {
                            assert(out@[k] == out0[k]);
                        } else {
                            assert(frontier@[i as int]@ == out@[k]@);
                        }
                    }
                    assert(views(out@).no_duplicates()) by {
                        if views(out0).contains(p@) {
                            let k = views(out0).index_of(p@);
                            assert(out0[k]@ == p@);
                            let k2 = choose|k2: int| 0 <= k2 < i && #[trigger] frontier@[k2]@ == p@;
                            assert(views(frontier@)[k2] == views(frontier@)[i as int]);
                        }
                    }
                    assert forall|k: int| 0 <= k < next@.len() implies seen(frontier@, 0, i + 1, #[trigger] next@[k]@.take(d + 1)) by {
                        let k2 = choose|k2: int| 0 <= k2 < i && #[trigger] frontier@[k2]@ == next@[k]@.take(d + 1);
                    }
                    assert forall|q: Seq<usize>| #[trigger] simple_walk(es, nn, q, a, b) implies views(out@).contains(q) || (
                    q.len() >= d + 1 && seen(frontier@, i + 1, frontier@.len() as int, q.take(d + 1))) || (q.len()
                        >= d + 2 && views(next@).contains(q.take(d + 2))) by {
                        if views(out0).contains(q) {
                            let k = views(out0).index_of(q);
                            assert(views(out@)[k] == q);
                        } else if q.len() >= d + 1 && seen(frontier@, i as int, frontier@.len() as int, q.take(d + 1)) {
                            let k2 = choose|k2: int| i <= k2 < frontier@.len() && #[trigger] frontier@[k2]@ == q.take(d + 1);
                            if k2 == i {
                                assert(q[d as int] == b);
                                assert(q[q.len() - 1] == b);
                                assert(q.len() == d + 1);
                                assert(q =~= p@);
                                assert(views(out@)[out0.len() as int] == q);
                            }
                        }
                    }
                }
            } else {
                let nb = g.successors(last);
                proof {
                    lemma_targets_from(es, last);
                    assert(nb@.subrange(0, nb@.len() as int) =~= nb@);
                    assert forall|q: Seq<usize>| #[trigger] simple_walk(es, nn, q, a, b) implies views(out@).contains(q) || (q.len() >= d + 1 && seen(
                            frontier@,
                            i + 1,
                            frontier@.len() as int,
                            q.take(d + 1),
                        )) || (q.len() >= d + 2 && views(next@).contains(q.take(d + 2))) || (q.len() >= d + 2
                            && q.take(d + 1) == p@ && nb@.subrange(0, nb@.len() as int).contains(
                            q[d + 1],
                        )) by {
                        if !views(out@).contains(q) && !(q.len() >= d + 2 && views(next@).contains(q.take(d + 2))) {
                            let k2 = choose|k2: int| i <= k2 < frontier@.len() && #[trigger] frontier@[k2]@ == q.take(d + 1);
                            if k2 == i {
                                assert(q[d as int] == last);
                                assert(q.len() != d + 1);
                                assert(es.contains((q[d as int], q[d + 1])));
                                assert(nb@.contains(q[d + 1]));
                            }
                        }
                    }
                }
                let mut j: usize = 0;
                while j < nb.len()
                    invariant
                        g.wf(),
                        n == nn,
                        es == g.edges(),
                        nn == g.names().len(),
                        a < nn,
                        b < nn,
                        0 <= d < n,
                        0 <= i < frontier@.len(),
                        *p == frontier@[i as int],
                        last == p@[d as int],
                        last != b,
                        partial_walk(es, nn, p@, a, d + 1),
                        nb@ == targets_from(es, last),
                        nb@.no_duplicates(),
                        forall|y: usize| #[trigger] nb@.contains(y) <==> es.contains((last, y)),
                        0 <= j <= nb@.len(),
                        forall|k: int|
                            0 <= k < frontier@.len() ==> partial_walk(es, nn, #[trigger] frontier@[k]@, a, d + 1),
                        views(frontier@).no_duplicates(),
                        forall|k: int|
                            0 <= k < out@.len() ==> simple_walk(es, nn, #[trigger] out@[k]@, a, b) && (
                            out@[k]@.len() <= d || seen(frontier@, 0, i as int, out@[k]@)),
                        views(out@).no_duplicates(),
                        forall|k: int|
                            0 <= k < next@.len() ==> partial_walk(es, nn, #[trigger] next@[k]@, a, d + 2) && (seen(
                                frontier@,
                                0,
                                i as int,
                                next@[k]@.take(d + 1),
                            ) || (next@[k]@.take(d + 1) == p@ && nb@.take(j as int).contains(next@[k]@[d + 1]))),
                        views(next@).no_duplicates(),
                        forall|q: Seq<usize>| #[trigger]
                            simple_walk(es, nn, q, a, b) ==> views(out@).contains(q) || (q.len() >= d + 1 && seen(
                                frontier@,
                                i + 1,
                                frontier@.len() as int,
                                q.take(d + 1),
                            )) || (q.len() >= d + 2 && views(next@).contains(q.take(d + 2))) || (q.len() >= d + 2
                                && q.take(d + 1) == p@ && nb@.subrange(j as int, nb@.len() as int).contains(
                                q[d + 1],
                            )),
                    decreases nb@.len() - j,
                {
                    let x = nb[j];
                    let ghost next_before = next@;
                    if !on_path(p, x) {
                        let ghost next0 = next@;
                        let ext = extended(p, x);
                        proof {
                            assert(nb@.contains(x));
                            lemma_edge_ends(g, last, x);
                            assert(partial_walk(es, nn, ext@, a, d + 2)) by {
                                assert forall|k: int| 0 <= k < ext@.len() - 1 implies #[trigger] es.contains(
                                    (ext@[k], ext@[k + 1]),
                                ) by {
                                    if k < d {
                                        assert(ext@[k] == p@[k] && ext@[k + 1] == p@[k + 1]);
                                    }
                                }
                                assert forall|k: int| 0 <= k < ext@.len() implies #[trigger] ext@[k] < nn by {
                                    if k <= d {
                                        assert(ext@[k] == p@[k]);
                                    }
                                }
                            }
                            assert(ext@.take(d + 1) =~= p@);
                        }
                        next.push(ext);
                        proof {
                            assert(views(next@) =~= views(next0).push(ext@));
                            assert(views(next@).no_duplicates()) by {
                                if views(next0).contains(ext@) {
                                    let k = views(next0).index_of(ext@);
                                    assert(next0[k]@ == ext@);
                                    assert(next0[k]@.take(d + 1) == p@);
                                    if seen(frontier@, 0, i as int, p@) {
                                        let k2 = choose|k2: int| 0 <= k2 < i && #[trigger] frontier@[k2]@ == p@;
                                        assert(views(frontier@)[k2] == views(frontier@)[i as int]);
                                    } else {
                                        let jj = nb@.take(j as int).index_of(x);
                                        assert(nb@[jj] == nb@[j as int]);
                                    }
                                }
                            }
                        }
                    }
                    proof {
                        assert forall|k: int| 0 <= k < next@.len() implies partial_walk(es, nn, #[trigger] next@[k]@, a, d + 2) && (seen(
                                frontier@,
                                0,
                                i as int,
                                next@[k]@.take(d + 1),
                            ) || (next@[k]@.take(d + 1) == p@ && nb@.take(j + 1).contains(next@[k]@[d + 1]))) by {
                            if nb@.take(j as int).contains(next@[k]@[d + 1]) {
                                let jj = nb@.take(j as int).index_of(next@[k]@[d + 1]);
                                assert(nb@.take(j + 1)[jj] == nb@[jj]);
                            }
                            if next@[k]@[d + 1] == x {
                                assert(nb@.take(j + 1)[j as int] == x);
                            }
                        }
                        assert forall|q: Seq<usize>| #[trigger] simple_walk(es, nn, q, a, b) implies views(out@).contains(q) || (q.len() >= d + 1 && seen(
                                frontier@,
                                i + 1,
                                frontier@.len() as int,
                                q.take(d + 1),
                            )) || (q.len() >= d + 2 && views(next@).contains(q.take(d + 2))) || (q.len() >= d + 2
                                && q.take(d + 1) == p@ && nb@.subrange(j + 1, nb@.len() as int).contains(
                                q[d + 1],
                            )) by {
                            if q.len() >= d + 2 && q.take(d + 1) == p@ && nb@.subrange(j as int, nb@.len() as int).contains(q[d + 1]) {
                                let jj = nb@.subrange(j as int, nb@.len() as int).index_of(q[d + 1]);
                                if jj == 0 {
                                    assert(q[d + 1] == x);
                                    assert(!p@.contains(x)) by {
                                        if p@.contains(x) {
                                            let u = p@.index_of(x);
                                            assert(q[u] == p@[u]);
                                        }
                                    }
                                    assert(q.take(d + 2) =~= p@.push(x));
                                    assert(views(next@)[next@.len() - 1] == q.take(d + 2));
                                } else {
                                    assert(nb@.subrange(j + 1, nb@.len() as int)[jj - 1] == q[d + 1]);
                                }
                            }
                            if q.len() >= d + 2 && views(next_before).contains(q.take(d + 2)) {
                                let k = views(next_before).index_of(q.take(d + 2));
                                assert(next_before[k] == next@[k]);
                                assert(views(next@)[k] == q.take(d + 2));
                            }
                        }
                    }
                    j = j + 1;
                }
                proof {
                    assert forall|k: int| 0 <= k < next@.len() implies seen(frontier@, 0, i + 1, #[trigger] next@[k]@.take(d + 1)) by {
                        if seen(frontier@, 0, i as int, next@[k]@.take(d + 1)) {
                            let k2 = choose|k2: int| 0 <= k2 < i && #[trigger] frontier@[k2]@ == next@[k]@.take(d + 1);
                        } else {
                            assert(frontier@[i as int]@ == next@[k]@.take(d + 1));
                        }
                    }
                    assert forall|k: int| 0 <= k < out@.len() implies (out@[k]@.len() <= d || seen(frontier@, 0, i + 1, #[trigger] out@[k]@)) by {
                        if seen(frontier@, 0, i as int, out@[k]@) {
                            let k2 = choose|k2: int| 0 <= k2 < i && #[trigger] frontier@[k2]@ == out@[k]@;
                        }
                    }
                }
            }
            i = i + 1;
        }
        proof {
            assert forall|q: Seq<usize>| #[trigger] simple_walk(es, nn, q, a, b) implies views(out@).contains(q) || (q.len() >= d + 2 && seen(
                    next@,
                    0,
                    next@.len() as int,
                    q.take(d + 2),
                )) by {
                if !views(out@).contains(q) {
                    let k = views(next@).index_of(q.take(d + 2));
                    assert(next@[k]@ == q.take(d + 2));
                }
            }
            assert forall|k: int| 0 <= k < out@.len() implies #[trigger] out@[k]@.len() <= d + 1 by {
                if seen(frontier@, 0, frontier@.len() as int, out@[k]@) {
                    let k2 = choose|k2: int| 0 <= k2 < frontier@.len() && #[trigger] frontier@[k2]@ == out@[k]@;
                }
            }
        }
        frontier = next;
        d = d + 1;
    }
    proof {
        assert forall|q: Seq<usize>| #[trigger] views(out@).contains(q) <==> (simple_walk(es, nn, q, a, b)
            && q.len() <= max_nodes) by {
            if simple_walk(es, nn, q, a, b) {
                lemma_distinct_below(q, nn);
            }
            if views(out@).contains(q) {
                let k = views(out@).index_of(q);
                assert(out@[k]@ == q);
            }
        }
    }
    out
}

} // verus!
