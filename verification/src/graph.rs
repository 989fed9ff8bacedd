//! The edge container and the one-shot, capacity-bounded topological sort.

use crate::lemmas::{
    lemma_distinct_members_bound, lemma_fresh_member_exceeds, lemma_node_set_finite,
    lemma_topo_order_acyclic, lemma_topo_order_total, lemma_trapped_edges_cycle,
};
use crate::order::{
    edge_respected, has_cycle, has_edge, has_incoming, has_other_incoming, has_outgoing,
    is_closed_walk, is_node_of, is_topo_order, node_set, placed_before,
};
use crate::{Edge, Error};
use vstd::prelude::*;

verus! {

/// A directed graph held as an ordered list of edges, bounded by the
/// compile-time capacity `C`.  The same bound limits every auxiliary
/// structure used while sorting.
#[derive(Debug, Clone, PartialEq, Eq)]
pub struct Graph<const C: usize> {
    edges: Vec<Edge>,
}

impl<const C: usize> Default for Graph<C> {
    /// An empty graph, exactly as `new` builds it.
    fn default() -> (g: Self)
        ensures
            g@ == Seq::<Edge>::empty(),
            g.wf(),
    {
        Graph::new()
    }
}

impl<const C: usize> View for Graph<C> {
    type V = Seq<Edge>;

    closed spec fn view(&self) -> Seq<Edge> {
        self.edges@
    }
}

impl<const C: usize> Graph<C> {
    /// The edge list never exceeds the capacity bound.
    pub open spec fn wf(self) -> bool {
        self@.len() <= C
    }

    /// Create a new, empty graph.
    pub fn new() -> (g: Self)
        ensures
            g@ == Seq::<Edge>::empty(),
            g.wf(),
    {
        Graph { edges: Vec::new() }
    }

    /// Create a graph from existing, already capacity-bounded edge data.
    /// No validation of the edges themselves is performed.
    pub fn new_with_edges(edges: Vec<Edge>) -> (g: Self)
        requires
            edges@.len() <= C,
        ensures
            g@ == edges@,
            g.wf(),
    {
        Graph { edges }
    }

    /// Append one edge in insertion order.  No duplicate check is performed.
    /// Fails with `Error::OverCapacity`, leaving the graph unchanged, when
    /// the edge list is already full.
    pub fn insert_edge(&mut self, edge: Edge) -> (r: Result<(), Error>)
        requires
            old(self).wf(),
        ensures
            final(self).wf(),
            old(self)@.len() < C ==> r == Ok::<(), Error>(()) && final(self)@ == old(self)@.push(
                edge,
            ),
            old(self)@.len() >= C ==> r == Err::<(), Error>(Error::OverCapacity) && final(self)@
                == old(self)@,
    {
        if self.edges.len() < C {
            self.edges.push(edge);
            Ok(())
        } else {
            Err(Error::OverCapacity)
        }
    }

    /// Compute a topological sort, consuming the graph.
    ///
    /// On success the result lists every node of the graph exactly once,
    /// with the source of every edge strictly before its destination.
    /// `Cycle` is reported exactly when the graph contains a directed cycle
    /// and no capacity overflow struck first; an overflow can only happen
    /// when the graph has more than `C` distinct nodes, so within capacity
    /// the three outcomes characterize the input completely.  When several
    /// starting nodes are available at once, the most recently discovered
    /// one is taken first.
    pub fn into_topo_sorted(self) -> (r: Result<Vec<usize>, Error>)
        ensures
            r matches Ok(o) ==> is_topo_order(o@, self@),
            r matches Ok(o) ==> o@.len() == node_set(self@).len(),
            r == Err::<Vec<usize>, Error>(Error::Cycle) ==> has_cycle(self@),
            r == Err::<Vec<usize>, Error>(Error::OverCapacity) ==> node_set(self@).len() > C,
            has_cycle(self@) && node_set(self@).len() <= C ==> r == Err::<Vec<usize>, Error>(
                Error::Cycle,
            ),
            !has_cycle(self@) && node_set(self@).len() <= C ==> r is Ok,
            !has_cycle(self@) && node_set(self@).len() > C ==> r == Err::<Vec<usize>, Error>(
                Error::OverCapacity,
            ),
    {
        let ghost orig = self@;
        let mut edges = self.edges;
        let mut output: Vec<usize> = Vec::new();
        let mut candidates = match seed_candidates::<C>(&edges) {
            Ok(c) => c,
            Err(_) => {
                return Err(Error::OverCapacity);
            },
        };
        proof {
            lemma_node_set_finite(orig);
            assert forall|n: usize| #[trigger] candidates@.contains(n) implies node_set(
                orig,
            ).contains(n) by {
                assert(has_outgoing(orig, n));
                let k = choose|k: int| 0 <= k < orig.len() && orig[k].from == n;
                assert(is_node_of(orig, n));
            }
        }
        while candidates.len() > 0
            invariant
                orig == self@,
                node_set(orig).finite(),
                candidates@.len() <= C,
                output@.len() <= C,
                candidates@.no_duplicates(),
                output@.no_duplicates(),
                forall|n: usize| #[trigger] candidates@.contains(n) ==> !output@.contains(n),
                forall|n: usize|
                    #[trigger] candidates@.contains(n) ==> node_set(orig).contains(n),
                forall|n: usize| #[trigger] output@.contains(n) ==> node_set(orig).contains(n),
                forall|a: usize, b: usize|
                    #[trigger] has_edge(edges@, a, b) ==> has_edge(orig, a, b),
                forall|n: usize|
                    #[trigger] candidates@.contains(n) ==> !has_incoming(edges@, n),
                forall|n: usize| #[trigger] output@.contains(n) ==> !has_incoming(edges@, n),
                forall|n: usize|
                    has_outgoing(edges@, n) && !has_incoming(edges@, n) ==> #[trigger]
                        candidates@.contains(n),
                forall|n: usize|
                    #[trigger] node_set(orig).contains(n) ==> output@.contains(n)
                        || candidates@.contains(n) || is_node_of(edges@, n),
                forall|a: usize, b: usize|
                    #[trigger] has_edge(orig, a, b) ==> has_edge(edges@, a, b)
                        || placed_before(output@, a, b),
                output@.len() <= node_set(orig).len(),
            decreases node_set(orig).len() - output@.len(),
        {
            let ghost cands_pre = candidates@;
            let ghost out_pre = output@;
            let node = candidates.pop().unwrap();
            proof {
                assert(cands_pre[cands_pre.len() - 1] == node);
                assert(cands_pre.contains(node));
                assert forall|x: usize| #[trigger] candidates@.contains(x) implies
                    cands_pre.contains(x) && x != node by {
                    let k = choose|k: int| 0 <= k < candidates@.len() && candidates@[k] == x;
                    assert(cands_pre[k] == x);
                }
                assert forall|x: usize| cands_pre.contains(x) && x != node implies #[trigger]
                    candidates@.contains(x) by {
                    let k = choose|k: int| 0 <= k < cands_pre.len() && cands_pre[k] == x;
                    assert(k != cands_pre.len() - 1);
                    assert(candidates@[k] == x);
                }
            }
            if output.len() == C {
                proof {
                    assert(node_set(orig).contains(node));
                    assert(!output@.contains(node));
                    lemma_fresh_member_exceeds(output@, node_set(orig), node);
                }
                return Err(Error::OverCapacity);
            }
            output.push(node);
            proof {
                assert(output@[out_pre.len() as int] == node);
                assert(output@.contains(node));
                assert forall|x: usize| #[trigger] output@.contains(x) implies
                    out_pre.contains(x) || x == node by {
                    let k = choose|k: int| 0 <= k < output@.len() && output@[k] == x;
                    if k < out_pre.len() {
                        assert(out_pre[k] == x);
                    }
                }
                assert forall|x: usize| out_pre.contains(x) implies #[trigger]
                    output@.contains(x) by {
                    let k = choose|k: int| 0 <= k < out_pre.len() && out_pre[k] == x;
                    assert(output@[k] == x);
                }
                assert(!out_pre.contains(node));
                assert(output@.no_duplicates());
                assert forall|n: usize| is_node_of(edges@, n) implies #[trigger] node_set(
                    orig,
                ).contains(n) by {
                    let i = choose|i: int|
                        0 <= i < edges@.len() && (edges@[i].from == n || edges@[i].to == n);
                    assert(has_edge(edges@, edges@[i].from, edges@[i].to));
                    assert(has_edge(orig, edges@[i].from, edges@[i].to));
                    let k = choose|k: int|
                        0 <= k < orig.len() && orig[k].from == edges@[i].from && orig[k].to
                            == edges@[i].to;
                    assert(is_node_of(orig, n));
                }
            }
            let ghost cands_mid = candidates@;
            let kept = match retire_and_promote::<C>(
                &edges,
                node,
                &mut candidates,
                Ghost(node_set(orig)),
            ) {
                Ok(k) => k,
                Err(_) => {
                    return Err(Error::OverCapacity);
                },
            };
            proof {
                let e0 = edges@;
                let e1 = kept@;
                let c2 = candidates@;
                let o1 = output@;
                // the popped node had, and keeps, no incoming edge
                assert(!has_incoming(e0, node));
                // disjointness of candidates and output
                assert forall|x: usize| #[trigger] c2.contains(x) implies !o1.contains(x) by {
                    if cands_mid.contains(x) {
                        assert(cands_pre.contains(x) && x != node);
                        assert(!out_pre.contains(x));
                    } else {
                        assert(has_edge(e0, node, x));
                        assert(has_incoming(e0, x));
                        if x == node {
                            assert(false);
                        }
                        if out_pre.contains(x) {
                            assert(!has_incoming(e0, x));
                            assert(false);
                        }
                    }
                }
                // edge values of the remainder come from the original graph
                assert forall|a: usize, b: usize| #[trigger] has_edge(e1, a, b) implies
                    has_edge(orig, a, b) by {
                    assert(has_edge(e0, a, b));
                }
                // no candidate has a remaining incoming edge
                assert forall|x: usize| #[trigger] c2.contains(x) implies !has_incoming(
                    e1,
                    x,
                ) by {
                    if has_incoming(e1, x) {
                        let i = choose|i: int| 0 <= i < e1.len() && e1[i].to == x;
                        assert(has_edge(e1, e1[i].from, x));
                        assert(has_edge(e0, e1[i].from, x) && e1[i].from != node);
                        if cands_mid.contains(x) {
                            assert(!has_incoming(e0, x));
                            assert(false);
                        } else {
                            assert(!has_other_incoming(e0, x, node));
                            assert(false);
                        }
                    }
                }
                // no output node has a remaining incoming edge
                assert forall|x: usize| #[trigger] o1.contains(x) implies !has_incoming(
                    e1,
                    x,
                ) by {
                    if has_incoming(e1, x) {
                        let i = choose|i: int| 0 <= i < e1.len() && e1[i].to == x;
                        assert(has_edge(e1, e1[i].from, x));
                        assert(has_edge(e0, e1[i].from, x) && e1[i].from != node);
                        if out_pre.contains(x) {
                            assert(!has_incoming(e0, x));
                            assert(false);
                        } else {
                            assert(x == node);
                            assert(false);
                        }
                    }
                }
                // every fresh source is a candidate
                assert forall|n: usize|
                    has_outgoing(e1, n) && !has_incoming(e1, n) implies #[trigger] c2.contains(
                    n,
                ) by {
                    let i = choose|i: int| 0 <= i < e1.len() && e1[i].from == n;
                    assert(has_edge(e1, n, e1[i].to));
                    assert(has_edge(e0, n, e1[i].to) && n != node);
                    if !has_incoming(e0, n) {
                        assert(has_outgoing(e0, n));
                        assert(cands_pre.contains(n));
                        assert(cands_mid.contains(n));
                    } else {
                        if has_other_incoming(e0, n, node) {
                            let k = choose|k: int|
                                0 <= k < e0.len() && e0[k].to == n && e0[k].from != node;
                            assert(has_edge(e0, e0[k].from, n));
                            assert(has_edge(e1, e0[k].from, n));
                            assert(has_incoming(e1, n));
                            assert(false);
                        } else {
                            let i0 = choose|i0: int| 0 <= i0 < e0.len() && e0[i0].to == n;
                            assert(e0[i0].from == node);
                            assert(c2.contains(e0[i0].to));
                        }
                    }
                }
                // node coverage
                assert forall|n: usize| #[trigger] node_set(orig).contains(n) implies
                    o1.contains(n) || c2.contains(n) || is_node_of(e1, n) by {
                    if out_pre.contains(n) {
                    } else if cands_pre.contains(n) {
                        if n != node {
                            assert(cands_mid.contains(n));
                        }
                    } else if !is_node_of(e1, n) {
                        assert(is_node_of(e0, n));
                        let i = choose|i: int|
                            0 <= i < e0.len() && (e0[i].from == n || e0[i].to == n);
                        if e0[i].from == n {
                            assert(has_edge(e0, n, e0[i].to));
                            if n != node {
                                assert(has_edge(e1, n, e0[i].to));
                                let kk = choose|kk: int|
                                    0 <= kk < e1.len() && e1[kk].from == n
                                        && e1[kk].to == e0[i].to;
                                assert(is_node_of(e1, n));
                                assert(false);
                            }
                        } else {
                            if has_other_incoming(e0, n, node) {
                                let k = choose|k: int|
                                    0 <= k < e0.len() && e0[k].to == n && e0[k].from != node;
                                assert(has_edge(e0, e0[k].from, n));
                                assert(has_edge(e1, e0[k].from, n));
                                let m = choose|m: int|
                                    0 <= m < e1.len() && e1[m].from == e0[k].from && e1[m].to
                                        == n;
                                assert(is_node_of(e1, n));
                                assert(false);
                            } else {
                                assert(e0[i].from == node);
                                assert(c2.contains(e0[i].to));
                            }
                        }
                    }
                }
                // every original edge is still pending or already respected
                assert forall|a: usize, b: usize| #[trigger] has_edge(orig, a, b) implies
                    has_edge(e1, a, b) || placed_before(o1, a, b) by {
                    if placed_before(out_pre, a, b) {
                        let i = choose|i: int|
                            0 <= i < out_pre.len() && out_pre[i] == a && (forall|j: int|
                                0 <= j < out_pre.len() && out_pre[j] == b ==> i < j);
                        assert(o1[i] == a);
                        assert forall|j: int| 0 <= j < o1.len() && o1[j] == b implies i < j by {
                            if j < out_pre.len() {
                                assert(out_pre[j] == b);
                            }
                        }
                        assert(placed_before(o1, a, b));
                    } else {
                        assert(has_edge(e0, a, b));
                        if a != node {
                            assert(has_edge(e1, a, b));
                        } else {
                            let istar = out_pre.len() as int;
                            assert(o1[istar] == node);
                            assert forall|j: int| 0 <= j < o1.len() && o1[j] == b implies
                                istar < j by {
                                if j == istar {
                                    assert(b == node);
                                    assert(has_incoming(e0, node));
                                    assert(false);
                                } else if j < istar {
                                    assert(out_pre[j] == b);
                                    assert(out_pre.contains(b));
                                    assert(!has_incoming(e0, b));
                                    assert(false);
                                }
                            }
                            assert(placed_before(o1, node, b));
                        }
                    }
                }
                lemma_distinct_members_bound(o1, node_set(orig));
            }
            edges = kept;
        }
        if edges.len() == 0 {
            proof {
                assert forall|n: usize| #[trigger] output@.contains(n) implies is_node_of(
                    orig,
                    n,
                ) by {
                    assert(node_set(orig).contains(n));
                }
                assert forall|n: usize| is_node_of(orig, n) implies #[trigger] output@.contains(
                    n,
                ) by {
                    assert(node_set(orig).contains(n));
                    assert(!candidates@.contains(n));
                    assert(!is_node_of(edges@, n));
                }
                assert forall|i: int| 0 <= i < orig.len() implies edge_respected(
                    output@,
                    #[trigger] orig[i],
                ) by {
                    let e = orig[i];
                    assert(has_edge(orig, e.from, e.to));
                    assert(!has_edge(edges@, e.from, e.to));
                    assert(placed_before(output@, e.from, e.to));
                    assert(is_node_of(orig, e.to));
                    assert(output@.contains(e.to));
                    let pi = choose|pi: int|
                        0 <= pi < output@.len() && output@[pi] == e.from && (forall|j: int|
                            0 <= j < output@.len() && output@[j] == e.to ==> pi < j);
                    let pj = choose|pj: int| 0 <= pj < output@.len() && output@[pj] == e.to;
                    assert(pi < pj);
                    assert(edge_respected(output@, e));
                }
                assert(is_topo_order(output@, orig));
                lemma_topo_order_total(output@, orig);
                lemma_topo_order_acyclic(output@, orig);
            }
            Ok(output)
        } else {
            proof {
                assert forall|n: usize| #[trigger] has_outgoing(edges@, n) implies has_incoming(
                    edges@,
                    n,
                ) by {
                    if !has_incoming(edges@, n) {
                        assert(candidates@.contains(n));
                        let k = choose|k: int|
                            0 <= k < candidates@.len() && candidates@[k] == n;
                        assert(false);
                    }
                }
                lemma_trapped_edges_cycle(edges@);
                let p = choose|p: Seq<usize>| is_closed_walk(edges@, p);
                assert forall|i: int| 0 <= i < p.len() - 1 implies has_edge(
                    orig,
                    #[trigger] p[i],
                    p[i + 1],
                ) by {
                    assert(has_edge(edges@, p[i], p[i + 1]));
                }
                assert(is_closed_walk(orig, p));
            }
            Err(Error::Cycle)
        }
    }
}

/// Whether `x` occurs in `v`.
fn vec_contains(v: &Vec<usize>, x: usize) -> (b: bool)
    ensures
        b == v@.contains(x),
{
    let mut i: usize = 0;
    while i < v.len()
        invariant
            i <= v@.len(),
            forall|k: int| 0 <= k < i ==> v@[k] != x,
        decreases v@.len() - i,
    {
        if v[i] == x {
            return true;
        }
        i += 1;
    }
    false
}

/// Whether some edge of `edges` points at `n`.
fn scan_incoming(edges: &Vec<Edge>, n: usize) -> (b: bool)
    ensures
        b == has_incoming(edges@, n),
{
    let mut i: usize = 0;
    while i < edges.len()
        invariant
            i <= edges@.len(),
            forall|k: int| 0 <= k < i ==> edges@[k].to != n,
        decreases edges@.len() - i,
    {
        if edges[i].to == n {
            return true;
        }
        i += 1;
    }
    false
}

/// Whether some edge of `edges` points at `n` from a source other than `src`.
fn scan_other_incoming(edges: &Vec<Edge>, n: usize, src: usize) -> (b: bool)
    ensures
        b == has_other_incoming(edges@, n, src),
{
    let mut i: usize = 0;
    while i < edges.len()
        invariant
            i <= edges@.len(),
            forall|k: int| 0 <= k < i ==> !(edges@[k].to == n && edges@[k].from != src),
        decreases edges@.len() - i,
    {
        if edges[i].to == n && edges[i].from != src {
            return true;
        }
        i += 1;
    }
    false
}

/// Collect the nodes that have an outgoing edge but no incoming edge: the
/// initial candidates of Kahn's algorithm.  Fails when a candidate would not
/// fit within the capacity bound `C`.
fn seed_candidates<const C: usize>(edges: &Vec<Edge>) -> (r: Result<Vec<usize>, Error>)
    ensures
        r matches Ok(c) ==> c@.no_duplicates() && c@.len() <= C && (forall|n: usize|
            #[trigger] c@.contains(n) <==> (has_outgoing(edges@, n) && !has_incoming(
                edges@,
                n,
            ))),
        r is Err ==> r == Err::<Vec<usize>, Error>(Error::OverCapacity) && node_set(
            edges@,
        ).len() > C,
{
    let mut candidates: Vec<usize> = Vec::new();
    let mut i: usize = 0;
    while i < edges.len()
        invariant
            i <= edges@.len(),
            candidates@.no_duplicates(),
            candidates@.len() <= C,
            forall|n: usize| #[trigger] candidates@.contains(n) ==> has_outgoing(edges@, n)
                && !has_incoming(edges@, n),
            forall|k: int|
                0 <= k < i && !has_incoming(edges@, #[trigger] edges@[k].from)
                    ==> candidates@.contains(edges@[k].from),
        decreases edges@.len() - i,
    {
        let f = edges[i].from;
        if !scan_incoming(edges, f) {
            if !vec_contains(&candidates, f) {
                if candidates.len() == C {
                    proof {
                        lemma_node_set_finite(edges@);
                        assert(is_node_of(edges@, f));
                        assert forall|n: usize| candidates@.contains(n) implies #[trigger]
                            node_set(edges@).contains(n) by {
                            assert(has_outgoing(edges@, n));
                            let k = choose|k: int|
                                0 <= k < edges@.len() && edges@[k].from == n;
                            assert(is_node_of(edges@, n));
                        }
                        lemma_fresh_member_exceeds(candidates@, node_set(edges@), f);
                    }
                    return Err(Error::OverCapacity);
                }
                let ghost old_candidates = candidates@;
                candidates.push(f);
                proof {
                    assert(candidates@[old_candidates.len() as int] == f);
                    assert(candidates@.contains(f));
                    assert(is_node_of(edges@, f));
                    assert(has_outgoing(edges@, f));
                    assert forall|n: usize| #[trigger] candidates@.contains(n) implies
                        has_outgoing(edges@, n) && !has_incoming(edges@, n) by {
                        if n != f {
                            let k = choose|k: int|
                                0 <= k < candidates@.len() && candidates@[k] == n;
                            assert(old_candidates[k] == n);
                            assert(old_candidates.contains(n));
                        }
                    }
                    assert forall|n: usize| old_candidates.contains(n) implies
                        candidates@.contains(n) by {
                        let k = choose|k: int|
                            0 <= k < old_candidates.len() && old_candidates[k] == n;
                        assert(candidates@[k] == n);
                    }
                }
            }
        }
        i += 1;
    }
    proof {
        assert forall|n: usize|
            has_outgoing(edges@, n) && !has_incoming(edges@, n) implies #[trigger]
            candidates@.contains(n) by {
            let k = choose|k: int| 0 <= k < edges@.len() && edges@[k].from == n;
        }
    }
    Ok(candidates)
}

/// One round of edge retirement: drop every edge leaving `node`, keeping the
/// remaining edges in order, and append to `candidates` each destination that
/// thereby loses its last incoming edge.  `all_nodes` bounds every node
/// identifier in sight, so a capacity overflow proves the graph has more than
/// `C` distinct nodes.
fn retire_and_promote<const C: usize>(
    edges: &Vec<Edge>,
    node: usize,
    candidates: &mut Vec<usize>,
    Ghost(all_nodes): Ghost<Set<usize>>,
) -> (r: Result<Vec<Edge>, Error>)
    requires
        old(candidates)@.no_duplicates(),
        old(candidates)@.len() <= C,
        all_nodes.finite(),
        forall|n: usize| old(candidates)@.contains(n) ==> #[trigger] all_nodes.contains(n),
        forall|n: usize| is_node_of(edges@, n) ==> #[trigger] all_nodes.contains(n),
    ensures
        final(candidates)@.no_duplicates(),
        final(candidates)@.len() <= C,
        forall|n: usize| final(candidates)@.contains(n) ==> #[trigger] all_nodes.contains(n),
        forall|n: usize|
            old(candidates)@.contains(n) ==> #[trigger] final(candidates)@.contains(n),
        forall|n: usize|
            #[trigger] final(candidates)@.contains(n) && !old(candidates)@.contains(n)
                ==> has_edge(edges@, node, n) && !has_other_incoming(edges@, n, node),
        r matches Ok(kept) ==> (forall|a: usize, b: usize|
            has_edge(edges@, a, b) && a != node ==> #[trigger] has_edge(kept@, a, b)) && (
        forall|a: usize, b: usize|
            #[trigger] has_edge(kept@, a, b) ==> has_edge(edges@, a, b) && a != node) && (
        forall|n: usize| #[trigger] is_node_of(kept@, n) ==> is_node_of(edges@, n)) && (
        forall|i: int|
            0 <= i < edges@.len() && (#[trigger] edges@[i]).from == node
                && !has_other_incoming(edges@, edges@[i].to, node)
                ==> final(candidates)@.contains(edges@[i].to)),
        r is Err ==> r == Err::<Vec<Edge>, Error>(Error::OverCapacity) && all_nodes.len() > C,
{
    let ghost cands0 = old(candidates)@;
    let mut kept: Vec<Edge> = Vec::new();
    let mut j: usize = 0;
    while j < edges.len()
        invariant
            cands0 == old(candidates)@,
            j <= edges@.len(),
            candidates@.no_duplicates(),
            candidates@.len() <= C,
            all_nodes.finite(),
            forall|n: usize| candidates@.contains(n) ==> #[trigger] all_nodes.contains(n),
            forall|n: usize| is_node_of(edges@, n) ==> #[trigger] all_nodes.contains(n),
            forall|n: usize| cands0.contains(n) ==> #[trigger] candidates@.contains(n),
            forall|n: usize|
                #[trigger] candidates@.contains(n) && !cands0.contains(n) ==> has_edge(
                    edges@,
                    node,
                    n,
                ) && !has_other_incoming(edges@, n, node),
            forall|k: int|
                0 <= k < kept@.len() ==> (#[trigger] kept@[k]).from != node
                    && edges@.contains(kept@[k]),
            forall|i: int|
                0 <= i < j && (#[trigger] edges@[i]).from != node ==> kept@.contains(
                    edges@[i],
                ),
            forall|i: int|
                0 <= i < j && (#[trigger] edges@[i]).from == node && !has_other_incoming(
                    edges@,
                    edges@[i].to,
                    node,
                ) ==> candidates@.contains(edges@[i].to),
        decreases edges@.len() - j,
    {
        let e = edges[j];
        proof {
            assert(edges@[j as int] == e);
        }
        if e.from == node {
            if !scan_other_incoming(edges, e.to, node) {
                if !vec_contains(candidates, e.to) {
                    if candidates.len() == C {
                        proof {
                            assert(is_node_of(edges@, e.to));
                            assert(all_nodes.contains(e.to));
                            lemma_fresh_member_exceeds(candidates@, all_nodes, e.to);
                        }
                        return Err(Error::OverCapacity);
                    }
                    let ghost before = candidates@;
                    candidates.push(e.to);
                    proof {
                        assert(candidates@[before.len() as int] == e.to);
                        assert(candidates@.contains(e.to));
                        assert(has_edge(edges@, node, e.to));
                        assert(is_node_of(edges@, e.to));
                        assert forall|n: usize|
                            #[trigger] candidates@.contains(n) && n != e.to implies
                            before.contains(n) by {
                            let k = choose|k: int|
                                0 <= k < candidates@.len() && candidates@[k] == n;
                            assert(before[k] == n);
                        }
                        assert forall|n: usize| before.contains(n) implies
                            candidates@.contains(n) by {
                            let k = choose|k: int| 0 <= k < before.len() && before[k] == n;
                            assert(candidates@[k] == n);
                        }
                        assert forall|n: usize| cands0.contains(n) implies #[trigger]
                            candidates@.contains(n) by {
                            assert(before.contains(n));
                        }
                    }
                }
            }
        } else {
            let ghost kept0 = kept@;
            kept.push(e);
            proof {
                assert(kept@[kept0.len() as int] == e);
                assert(edges@.contains(e));
                assert forall|i: int|
                    0 <= i < j + 1 && (#[trigger] edges@[i]).from != node implies
                    kept@.contains(edges@[i]) by {
                    if i < j {
                        assert(kept0.contains(edges@[i]));
                        let k = choose|k: int| 0 <= k < kept0.len() && kept0[k] == edges@[i];
                        assert(kept@[k] == edges@[i]);
                    } else {
                        assert(kept@[kept0.len() as int] == edges@[i]);
                    }
                }
            }
        }
        j += 1;
    }
    proof {
        assert forall|a: usize, b: usize| has_edge(edges@, a, b) && a != node implies
            #[trigger] has_edge(kept@, a, b) by {
            let i = choose|i: int|
                0 <= i < edges@.len() && edges@[i].from == a && edges@[i].to == b;
            assert(kept@.contains(edges@[i]));
            let k = choose|k: int| 0 <= k < kept@.len() && kept@[k] == edges@[i];
            assert(kept@[k].from == a && kept@[k].to == b);
        }
        assert forall|a: usize, b: usize| #[trigger] has_edge(kept@, a, b) implies has_edge(
            edges@,
            a,
            b,
        ) && a != node by {
            let k = choose|k: int|
                0 <= k < kept@.len() && kept@[k].from == a && kept@[k].to == b;
            assert(edges@.contains(kept@[k]));
            let i = choose|i: int| 0 <= i < edges@.len() && edges@[i] == kept@[k];
            assert(edges@[i].from == a && edges@[i].to == b);
        }
        assert forall|n: usize| #[trigger] is_node_of(kept@, n) implies is_node_of(
            edges@,
            n,
        ) by {
            let k = choose|k: int|
                0 <= k < kept@.len() && (kept@[k].from == n || kept@[k].to == n);
            assert(edges@.contains(kept@[k]));
            let i = choose|i: int| 0 <= i < edges@.len() && edges@[i] == kept@[k];
            assert(edges@[i].from == n || edges@[i].to == n);
        }
    }
    Ok(kept)
}

} // verus!
