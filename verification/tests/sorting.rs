use toposort::{Edge, Error, Graph};

const CAPACITY: usize = 32;

/// Check by hand that `order` is a valid topological order of `edges`:
/// every node appears exactly once and every edge's source comes first.
fn check_valid_order(order: &[usize], edges: &[(usize, usize)]) {
    let mut nodes: Vec<usize> = Vec::new();
    for &(a, b) in edges {
        if !nodes.contains(&a) {
            nodes.push(a);
        }
        if !nodes.contains(&b) {
            nodes.push(b);
        }
    }
    assert_eq!(order.len(), nodes.len());
    for n in &nodes {
        assert!(order.contains(n));
    }
    for &(a, b) in edges {
        let pa = order.iter().position(|&x| x == a).unwrap();
        let pb = order.iter().position(|&x| x == b).unwrap();
        assert!(pa < pb);
    }
}

#[test]
fn ok() {
    // the first 4 edges imply the only possible topological sorting is 1,2,3,4,5
    let edge_data = [(1, 2), (2, 3), (3, 4), (4, 5), (3, 5), (1, 5)];
    let mut edges: Vec<Edge> = Vec::new();

    // construct graph from a reversed iter to reduce likelihood of accidental success
    for edge in edge_data.into_iter().rev() {
        edges.push(edge.into());
        assert!(
            edges.len() <= CAPACITY,
            "bug in test case: edge vec over capacity"
        );
    }
    let graph = Graph::<CAPACITY>::new_with_edges(edges);
    let res = graph.into_topo_sorted();
    let expected = vec![1, 2, 3, 4, 5];
    assert_eq!(Ok(expected), res);
}

#[test]
fn ok_with_push() {
    // the first 4 edges imply the only possible topological sorting is 1,2,3,4,5
    let edge_data = [(1, 2), (2, 3), (3, 4), (4, 5), (3, 5), (1, 5)];
    let mut graph = Graph::<CAPACITY>::new();
    for edge in edge_data.into_iter() {
        graph.insert_edge(edge.into()).unwrap();
    }
    let res = graph.into_topo_sorted();
    let expected = vec![1, 2, 3, 4, 5];
    assert_eq!(Ok(expected), res);
}

#[test]
fn err_too_many_edges() {
    let mut graph = Graph::<1>::new();
    assert_eq!(Ok(()), graph.insert_edge((1, 2).into()));
    assert_eq!(Err(Error::OverCapacity), graph.insert_edge((2, 3).into()));
}

#[test]
fn err_num_nodes_greater_than_num_edges() {
    let mut graph = Graph::<2>::new();
    assert_eq!(Ok(()), graph.insert_edge((1, 2).into()));
    assert_eq!(Ok(()), graph.insert_edge((0, 1).into()));
    assert_eq!(Err(Error::OverCapacity), graph.into_topo_sorted());
}

#[test]
fn err_cycles() {
    let edge_data = [(1, 2), (2, 3), (3, 4), (4, 5), (3, 5), (1, 5), (5, 1)];
    let mut edges: Vec<Edge> = Vec::new();

    for edge in edge_data {
        edges.push(edge.into());
        assert!(
            edges.len() <= CAPACITY,
            "bug in test case: edge vec over capacity"
        );
    }
    let graph = Graph::<CAPACITY>::new_with_edges(edges);
    let res = graph.into_topo_sorted();
    assert_eq!(Err(Error::Cycle), res);
}

#[test]
fn empty_graph_sorts_to_empty() {
    let graph = Graph::<4>::new();
    assert_eq!(Ok(vec![]), graph.into_topo_sorted());
}

#[test]
fn self_loop_is_a_cycle() {
    let mut graph = Graph::<2>::new();
    assert_eq!(Ok(()), graph.insert_edge((1, 1).into()));
    assert_eq!(Err(Error::Cycle), graph.into_topo_sorted());
}

#[test]
fn two_node_cycle() {
    let mut graph = Graph::<4>::new();
    graph.insert_edge((1, 2).into()).unwrap();
    graph.insert_edge((2, 1).into()).unwrap();
    assert_eq!(Err(Error::Cycle), graph.into_topo_sorted());
}

#[test]
fn cycle_beats_acyclic_surroundings() {
    // an acyclic edge feeding into a two-node cycle still reports the cycle
    let mut graph = Graph::<8>::new();
    graph.insert_edge((1, 2).into()).unwrap();
    graph.insert_edge((2, 3).into()).unwrap();
    graph.insert_edge((3, 2).into()).unwrap();
    assert_eq!(Err(Error::Cycle), graph.into_topo_sorted());
}

#[test]
fn duplicate_edges_are_kept() {
    // duplicates are legal, fill capacity, and do not disturb the order
    let mut graph = Graph::<2>::new();
    assert_eq!(Ok(()), graph.insert_edge((1, 2).into()));
    assert_eq!(Ok(()), graph.insert_edge((1, 2).into()));
    assert_eq!(Ok(vec![1, 2]), graph.into_topo_sorted());
}

#[test]
fn failed_insert_leaves_edges_intact() {
    let mut graph = Graph::<2>::new();
    assert_eq!(Ok(()), graph.insert_edge((1, 2).into()));
    assert_eq!(Ok(()), graph.insert_edge((1, 2).into()));
    assert_eq!(Err(Error::OverCapacity), graph.insert_edge((9, 9).into()));
    // the rejected edge (a self-loop) must not have been stored
    assert_eq!(Ok(vec![1, 2]), graph.into_topo_sorted());
}

#[test]
fn diamond_orders_all_nodes() {
    // 1 -> {2,3} -> 4: two valid orders exist; the result must list all four
    // nodes and respect every edge
    let edge_data = [(1, 2), (1, 3), (2, 4), (3, 4)];
    let mut graph = Graph::<8>::new();
    for edge in edge_data.into_iter() {
        graph.insert_edge(edge.into()).unwrap();
    }
    let res = graph.into_topo_sorted().unwrap();
    check_valid_order(&res, &edge_data);
    assert_eq!(vec![1, 3, 2, 4], res);
}

#[test]
fn insertion_order_does_not_affect_validity() {
    // the same edge set in two insertion orders: the outputs may differ,
    // but each must be a valid topological order
    let edge_data = [(1, 2), (1, 3), (2, 4), (3, 4)];
    let mut forward = Graph::<8>::new();
    for edge in edge_data.into_iter() {
        forward.insert_edge(edge.into()).unwrap();
    }
    let mut backward = Graph::<8>::new();
    for edge in edge_data.into_iter().rev() {
        backward.insert_edge(edge.into()).unwrap();
    }
    let res_forward = forward.into_topo_sorted().unwrap();
    let res_backward = backward.into_topo_sorted().unwrap();
    check_valid_order(&res_forward, &edge_data);
    check_valid_order(&res_backward, &edge_data);
    assert_ne!(res_forward, res_backward);
}

#[test]
fn default_graph_is_empty() {
    let graph: Graph<4> = Default::default();
    assert_eq!(graph, Graph::<4>::new());
    assert_eq!(Ok(vec![]), graph.into_topo_sorted());
}
