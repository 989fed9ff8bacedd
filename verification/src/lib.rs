//! Topological sorting of a directed graph whose only state is a
//! fixed-capacity list of edges.
//!
//! The graph stores no node payload: a node exists only as an integer
//! identifier appearing in some edge.  A `Graph` is created empty (or from a
//! pre-built edge list), filled through `insert_edge`, and consumed exactly
//! once by `into_topo_sorted`, which returns a valid topological order of all
//! nodes or reports a cycle or a capacity overflow.
//!
//! A single capacity bound `C` limits the edge list and every auxiliary
//! structure the sort uses (candidate set and output sequence).  Callers
//! should pick `C` at least as large as both the number of edges and the
//! number of distinct nodes.

use vstd::prelude::*;

pub mod graph;
pub mod lemmas;
pub mod order;

pub use graph::Graph;

verus! {

/// The two ways a sort attempt can fail.
#[derive(PartialEq, Eq, Structural, Debug)]
pub enum Error {
    /// The algorithm finished with edges left over, proving a cycle exists.
    Cycle,
    /// A fixed-size structure would have exceeded the capacity bound.
    OverCapacity,
}

/// One directed dependency: `from` must precede `to` in any valid order.
#[derive(PartialEq, Eq, Structural, Clone, Copy, Debug)]
pub struct Edge {
    /// Source node identifier.
    pub from: usize,
    /// Destination node identifier.
    pub to: usize,
}

impl From<(usize, usize)> for Edge {
    fn from(value: (usize, usize)) -> (r: Self)
        ensures
            r == (Edge { from: value.0, to: value.1 }),
    {
        Edge { from: value.0, to: value.1 }
    }
}

impl vstd::std_specs::convert::FromSpecImpl<(usize, usize)> for Edge {
    open spec fn obeys_from_spec() -> bool {
        true
    }

    open spec fn from_spec(value: (usize, usize)) -> Edge {
        Edge { from: value.0, to: value.1 }
    }
}

} // verus!
