//! The mathematical model of the sort: which identifiers are nodes of an
//! edge sequence, what a topological order is, and what a cycle is.

use crate::Edge;
use vstd::prelude::*;

verus! {

/// `n` appears in `es` as the source or the destination of some edge.
pub open spec fn is_node_of(es: Seq<Edge>, n: usize) -> bool {
    exists|i: int| 0 <= i < es.len() && (es[i].from == n || es[i].to == n)
}

/// All node identifiers appearing in `es`.
pub open spec fn node_set(es: Seq<Edge>) -> Set<usize> {
    Set::new(|n: usize| is_node_of(es, n))
}

/// Some edge in `es` goes from `a` to `b`.
pub open spec fn has_edge(es: Seq<Edge>, a: usize, b: usize) -> bool {
    exists|i: int| 0 <= i < es.len() && es[i].from == a && es[i].to == b
}

/// `n` has at least one incoming edge in `es`.
pub open spec fn has_incoming(es: Seq<Edge>, n: usize) -> bool {
    exists|i: int| 0 <= i < es.len() && es[i].to == n
}

/// `n` has at least one outgoing edge in `es`.
pub open spec fn has_outgoing(es: Seq<Edge>, n: usize) -> bool {
    exists|i: int| 0 <= i < es.len() && es[i].from == n
}

/// `n` has an incoming edge in `es` whose source is different from `src`.
pub open spec fn has_other_incoming(es: Seq<Edge>, n: usize, src: usize) -> bool {
    exists|i: int| 0 <= i < es.len() && es[i].to == n && es[i].from != src
}

/// `a` occurs in `o`, and strictly earlier than every occurrence of `b`.
pub open spec fn placed_before(o: Seq<usize>, a: usize, b: usize) -> bool {
    exists|i: int|
        0 <= i < o.len() && o[i] == a && (forall|j: int| 0 <= j < o.len() && o[j] == b ==> i < j)
}

/// The source of `e` occurs in `o` strictly before an occurrence of its
/// destination.
pub open spec fn edge_respected(o: Seq<usize>, e: Edge) -> bool {
    exists|i: int, j: int| 0 <= i < j < o.len() && o[i] == e.from && o[j] == e.to
}

/// `o` is a topological order of the edge sequence `es`: it lists every node
/// of `es` exactly once, and for each edge the source comes strictly before
/// the destination.
pub open spec fn is_topo_order(o: Seq<usize>, es: Seq<Edge>) -> bool {
    &&& o.no_duplicates()
    &&& forall|n: usize| #[trigger] o.contains(n) <==> is_node_of(es, n)
    &&& forall|i: int| 0 <= i < es.len() ==> edge_respected(o, #[trigger] es[i])
}

/// `p` is a closed walk in `es`: consecutive elements are joined by edges and
/// the walk returns to its starting node.
pub open spec fn is_closed_walk(es: Seq<Edge>, p: Seq<usize>) -> bool {
    &&& p.len() >= 2
    &&& p[0] == p[p.len() - 1]
    &&& forall|i: int| 0 <= i < p.len() - 1 ==> has_edge(es, #[trigger] p[i], p[i + 1])
}

/// `es` contains at least one directed cycle.
pub open spec fn has_cycle(es: Seq<Edge>) -> bool {
    exists|p: Seq<usize>| is_closed_walk(es, p)
}

} // verus!
