//! Proof library: finiteness of the node set, the pigeonhole step that turns
//! a long walk into a cycle, and the laws relating topological orders,
//! cycles, and permutations of the edge list.

use crate::order::{
    edge_respected, has_cycle, has_edge, has_incoming, has_outgoing, is_closed_walk, is_node_of,
    is_topo_order, node_set, placed_before,
};
use crate::Edge;
use vstd::prelude::*;
use vstd::set_lib::lemma_len_subset;

verus! {

/// The set of nodes of an edge sequence is finite.
pub proof fn lemma_node_set_finite(es: Seq<Edge>)
    ensures
        node_set(es).finite(),
    decreases es.len(),
{
    if es.len() == 0 {
        assert(node_set(es) =~= Set::<usize>::empty());
    } else {
        let rest = es.drop_last();
        lemma_node_set_finite(rest);
        let last = es.last();
        assert(node_set(es) =~= node_set(rest).insert(last.from).insert(last.to)) by {
            assert forall|n: usize| node_set(es).contains(n) implies node_set(rest).insert(
                last.from,
            ).insert(last.to).contains(n) by {
                let i = choose|i: int|
                    0 <= i < es.len() && (es[i].from == n || es[i].to == n);
                if i < es.len() - 1 {
                    assert(rest[i] == es[i]);
                    assert(is_node_of(rest, n));
                }
            }
            assert forall|n: usize| node_set(rest).insert(last.from).insert(last.to).contains(
                n,
            ) implies node_set(es).contains(n) by {
                if is_node_of(rest, n) {
                    let i = choose|i: int|
                        0 <= i < rest.len() && (rest[i].from == n || rest[i].to == n);
                    assert(es[i] == rest[i]);
                } else {
                    assert(es[es.len() - 1] == last);
                }
            }
        }
    }
}

/// A duplicate-free sequence drawn from a finite set is no longer than the
/// set's cardinality.
pub proof fn lemma_distinct_members_bound(v: Seq<usize>, s: Set<usize>)
    requires
        v.no_duplicates(),
        s.finite(),
        forall|n: usize| v.contains(n) ==> #[trigger] s.contains(n),
    ensures
        v.len() <= s.len(),
{
    broadcast use vstd::set::group_set_axioms;

    v.unique_seq_to_set();
    assert(v.to_set().subset_of(s)) by {
        assert forall|n: usize| v.to_set().contains(n) implies s.contains(n) by {
            assert(v.contains(n));
        }
    }
    lemma_len_subset(v.to_set(), s);
}

/// A duplicate-free sequence drawn from a finite set, together with one more
/// member of the set that the sequence misses, shows the set is strictly
/// larger than the sequence.
pub proof fn lemma_fresh_member_exceeds(v: Seq<usize>, s: Set<usize>, x: usize)
    requires
        v.no_duplicates(),
        s.finite(),
        forall|n: usize| v.contains(n) ==> #[trigger] s.contains(n),
        !v.contains(x),
        s.contains(x),
    ensures
        s.len() > v.len(),
{
    broadcast use vstd::set::group_set_axioms;

    v.unique_seq_to_set();
    assert(v.to_set().subset_of(s)) by {
        assert forall|n: usize| v.to_set().contains(n) implies s.contains(n) by {
            assert(v.contains(n));
        }
    }
    assert(!v.to_set().contains(x));
    v.to_set().lemma_subset_not_in_lt(s, x);
}

/// Build a backward walk of the requested length ending at `v`, inside an
/// edge sequence where every node with an outgoing edge also has an incoming
/// one.
proof fn lemma_backward_walk(es: Seq<Edge>, v: usize, len: nat) -> (p: Seq<usize>)
    requires
        forall|n: usize| #[trigger] has_outgoing(es, n) ==> has_incoming(es, n),
        has_outgoing(es, v),
    ensures
        p.len() == len + 1,
        p[len as int] == v,
        forall|i: int| 0 <= i < len ==> has_edge(es, #[trigger] p[i], p[i + 1]),
        forall|i: int| 0 <= i <= len ==> has_outgoing(es, #[trigger] p[i]),
    decreases len,
{
    if len == 0 {
        let p = seq![v];
        assert(p[0] == v);
        p
    } else {
        assert(has_incoming(es, v));
        let i = choose|i: int| 0 <= i < es.len() && es[i].to == v;
        let u = es[i].from;
        assert(has_outgoing(es, u));
        assert(has_edge(es, u, v));
        let q = lemma_backward_walk(es, u, (len - 1) as nat);
        let p = q.push(v);
        assert(p[len as int] == v);
        assert forall|k: int| 0 <= k < len implies has_edge(es, #[trigger] p[k], p[k + 1]) by {
            if k < len - 1 {
                assert(p[k] == q[k] && p[k + 1] == q[k + 1]);
            } else {
                assert(p[k] == q[(len - 1) as int]);
                assert(p[k + 1] == v);
            }
        }
        p
    }
}

/// In a sequence longer than a finite set containing all its elements, two
/// positions must hold the same value.
proof fn lemma_pigeonhole(p: Seq<usize>, s: Set<usize>) -> (ij: (int, int))
    requires
        s.finite(),
        p.len() > s.len(),
        forall|i: int| 0 <= i < p.len() ==> s.contains(#[trigger] p[i]),
    ensures
        0 <= ij.0 < ij.1 < p.len(),
        p[ij.0] == p[ij.1],
{
    if p.no_duplicates() {
        assert forall|n: usize| p.contains(n) implies #[trigger] s.contains(n) by {
            let i = choose|i: int| 0 <= i < p.len() && p[i] == n;
        }
        lemma_distinct_members_bound(p, s);
        assert(false);
    }
    let (i, j) = choose|i: int, j: int|
        0 <= i < p.len() && 0 <= j < p.len() && i != j && p[i] == p[j];
    if i < j {
        (i, j)
    } else {
        (j, i)
    }
}

/// A non-empty edge sequence in which every source node also has an incoming
/// edge contains a cycle: walking backwards long enough must revisit a node.
pub proof fn lemma_trapped_edges_cycle(es: Seq<Edge>)
    requires
        es.len() > 0,
        forall|n: usize| #[trigger] has_outgoing(es, n) ==> has_incoming(es, n),
    ensures
        has_cycle(es),
{
    lemma_node_set_finite(es);
    let v = es[0].from;
    assert(has_outgoing(es, v));
    let bound = node_set(es).len();
    let p = lemma_backward_walk(es, v, bound + 1);
    assert forall|i: int| 0 <= i < p.len() implies node_set(es).contains(#[trigger] p[i]) by {
        assert(has_outgoing(es, p[i]));
        let k = choose|k: int| 0 <= k < es.len() && es[k].from == p[i];
        assert(is_node_of(es, p[i]));
    }
    let (i, j) = lemma_pigeonhole(p, node_set(es));
    let cyc = p.subrange(i, j + 1);
    assert(cyc.len() >= 2);
    assert(cyc[0] == p[i]);
    assert(cyc[cyc.len() - 1] == p[j]);
    assert forall|k: int| 0 <= k < cyc.len() - 1 implies has_edge(
        es,
        #[trigger] cyc[k],
        cyc[k + 1],
    ) by {
        assert(cyc[k] == p[i + k]);
        assert(cyc[k + 1] == p[i + k + 1]);
        assert(has_edge(es, p[i + k], p[i + k + 1]));
    }
    assert(is_closed_walk(es, cyc));
}

/// The unique position of `n` in a duplicate-free sequence.
spec fn pos_of(o: Seq<usize>, n: usize) -> int {
    choose|i: int| 0 <= i < o.len() && o[i] == n
}

proof fn lemma_pos_of_valid(o: Seq<usize>, n: usize)
    requires
        o.contains(n),
        o.no_duplicates(),
    ensures
        0 <= pos_of(o, n) < o.len(),
        o[pos_of(o, n)] == n,
{
    let i = choose|i: int| 0 <= i < o.len() && o[i] == n;
}

/// In a topological order, the endpoints of every present edge occur, and the
/// source strictly before the destination.
proof fn lemma_edge_positions(o: Seq<usize>, es: Seq<Edge>, a: usize, b: usize)
    requires
        is_topo_order(o, es),
        has_edge(es, a, b),
    ensures
        o.contains(a),
        o.contains(b),
        pos_of(o, a) < pos_of(o, b),
{
    let idx = choose|i: int| 0 <= i < es.len() && es[i].from == a && es[i].to == b;
    let e = es[idx];
    assert(edge_respected(o, e));
    let (i, j) = choose|i: int, j: int| 0 <= i < j < o.len() && o[i] == e.from && o[j] == e.to;
    assert(o[i] == a);
    assert(o.contains(a));
    assert(o[j] == b);
    assert(o.contains(b));
    lemma_pos_of_valid(o, a);
    lemma_pos_of_valid(o, b);
    assert(pos_of(o, a) == i);
    assert(pos_of(o, b) == j);
}

/// Positions strictly increase along any walk through a topological order.
proof fn lemma_walk_positions(o: Seq<usize>, es: Seq<Edge>, p: Seq<usize>, k: int)
    requires
        is_topo_order(o, es),
        forall|i: int| 0 <= i < p.len() - 1 ==> has_edge(es, #[trigger] p[i], p[i + 1]),
        p.len() >= 2,
        0 <= k < p.len(),
    ensures
        o.contains(p[0]),
        k >= 1 ==> o.contains(p[k]) && pos_of(o, p[0]) + k <= pos_of(o, p[k]),
    decreases k,
{
    if k == 0 {
        lemma_edge_positions(o, es, p[0], p[1]);
    } else {
        lemma_walk_positions(o, es, p, k - 1);
        lemma_edge_positions(o, es, p[k - 1], p[k]);
        if k - 1 >= 1 {
        } else {
            assert(pos_of(o, p[0]) < pos_of(o, p[1]));
        }
    }
}

/// An edge sequence that admits a topological order has no cycle.
pub proof fn lemma_topo_order_acyclic(o: Seq<usize>, es: Seq<Edge>)
    requires
        is_topo_order(o, es),
    ensures
        !has_cycle(es),
{
    if has_cycle(es) {
        let p = choose|p: Seq<usize>| is_closed_walk(es, p);
        lemma_walk_positions(o, es, p, p.len() - 1);
        assert(p[p.len() - 1] == p[0]);
        assert(pos_of(o, p[0]) + (p.len() - 1) <= pos_of(o, p[p.len() - 1]));
    }
}

/// A topological order lists exactly as many entries as the edge sequence has
/// distinct nodes.
pub proof fn lemma_topo_order_total(o: Seq<usize>, es: Seq<Edge>)
    requires
        is_topo_order(o, es),
    ensures
        o.len() == node_set(es).len(),
{
    broadcast use vstd::set::group_set_axioms;

    o.unique_seq_to_set();
    assert(o.to_set() =~= node_set(es)) by {
        assert forall|n: usize| o.to_set().contains(n) implies node_set(es).contains(n) by {
            assert(o.contains(n));
        }
        assert forall|n: usize| node_set(es).contains(n) implies o.to_set().contains(n) by {
            assert(is_node_of(es, n));
            assert(o.contains(n));
        }
    }
}

/// A value of one of two edge sequences holding the same multiset of edges
/// occurs in the other as well.
proof fn lemma_edge_transfer(es1: Seq<Edge>, es2: Seq<Edge>, e: Edge)
    requires
        es1.to_multiset() == es2.to_multiset(),
        es1.contains(e),
    ensures
        es2.contains(e),
{
    vstd::seq_lib::to_multiset_contains(es1, e);
    vstd::seq_lib::to_multiset_contains(es2, e);
}

/// Inserting the same edges in another order never changes whether a
/// sequence is a valid topological order: validity depends only on the
/// multiset of edges.
pub proof fn lemma_topo_order_insertion_order_irrelevant(
    o: Seq<usize>,
    es1: Seq<Edge>,
    es2: Seq<Edge>,
)
    requires
        es1.to_multiset() == es2.to_multiset(),
        is_topo_order(o, es1),
    ensures
        is_topo_order(o, es2),
{
    assert forall|n: usize| is_node_of(es1, n) == is_node_of(es2, n) by {
        if is_node_of(es1, n) {
            let i = choose|i: int| 0 <= i < es1.len() && (es1[i].from == n || es1[i].to == n);
            assert(es1.contains(es1[i]));
            lemma_edge_transfer(es1, es2, es1[i]);
            let k = choose|k: int| 0 <= k < es2.len() && es2[k] == es1[i];
            assert(is_node_of(es2, n));
        }
        if is_node_of(es2, n) {
            let i = choose|i: int| 0 <= i < es2.len() && (es2[i].from == n || es2[i].to == n);
            assert(es2.contains(es2[i]));
            lemma_edge_transfer(es2, es1, es2[i]);
            let k = choose|k: int| 0 <= k < es1.len() && es1[k] == es2[i];
            assert(is_node_of(es1, n));
        }
    }
    assert forall|i: int| 0 <= i < es2.len() implies edge_respected(o, #[trigger] es2[i]) by {
        let e = es2[i];
        assert(es2.contains(e));
        lemma_edge_transfer(es2, es1, e);
        let k = choose|k: int| 0 <= k < es1.len() && es1[k] == e;
        assert(edge_respected(o, es1[k]));
    }
}

/// Inserting the same edges in another order never changes whether the graph
/// contains a cycle.
pub proof fn lemma_cycle_insertion_order_irrelevant(es1: Seq<Edge>, es2: Seq<Edge>)
    requires
        es1.to_multiset() == es2.to_multiset(),
        has_cycle(es1),
    ensures
        has_cycle(es2),
{
    let p = choose|p: Seq<usize>| is_closed_walk(es1, p);
    assert forall|i: int| 0 <= i < p.len() - 1 implies has_edge(
        es2,
        #[trigger] p[i],
        p[i + 1],
    ) by {
        assert(has_edge(es1, p[i], p[i + 1]));
        let k = choose|k: int|
            0 <= k < es1.len() && es1[k].from == p[i] && es1[k].to == p[i + 1];
        assert(es1.contains(es1[k]));
        lemma_edge_transfer(es1, es2, es1[k]);
        let m = choose|m: int| 0 <= m < es2.len() && es2[m] == es1[k];
    }
    assert(is_closed_walk(es2, p));
}

} // verus!
