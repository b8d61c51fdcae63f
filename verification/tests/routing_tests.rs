use test_transpiler::connectivity::{Connectivity, ConnectivityCreationError, RoutingInstructionTarget};
use test_transpiler::hypergraph::HyperGraph;
use test_transpiler::misc::NonZeroEvenUsize;
use std::collections::BTreeMap;

#[test]
fn test_supports_operation_on() {
    let connectivity = Connectivity::new(
        12,
        vec![
            vec![1, 2, 3],
            vec![1, 4, 5, 6],
            vec![2, 4],
            vec![6, 4, 7],
            vec![6, 8, 9, 10],
            vec![1, 11, 0],
        ],
    )
    .unwrap();

    assert!(connectivity.supports_operation_on(&vec![1, 2, 3]));
    assert!(!connectivity.supports_operation_on(&vec![1, 2, 4]));
    assert!(!connectivity.supports_operation_on(&vec![12]));
    assert!(connectivity.supports_operation_on(&vec![1, 5, 4, 6]));
    assert!(connectivity.supports_operation_on(&vec![]))
}

#[test]
fn test_explosion() {
    let mut hypergraph = HyperGraph::new();
    let node_0 = hypergraph.add_node();
    let node_1 = hypergraph.add_node();
    let node_2 = hypergraph.add_node();
    let node_3 = hypergraph.add_node();
    let node_4 = hypergraph.add_node();
    let node_5 = hypergraph.add_node();
    let node_6 = hypergraph.add_node();
    let node_7 = hypergraph.add_node();

    let edge_a = hypergraph
        .add_edge(vec![node_0, node_1, node_2, node_3])
        .unwrap();
    let edge_b = hypergraph
        .add_edge(vec![node_1, node_3, node_4, node_5])
        .unwrap();
    let edge_c = hypergraph
        .add_edge(vec![node_1, node_5, node_6, node_7])
        .unwrap();

    let explosion = hypergraph.explode();
    assert_eq!(explosion.edge_count(), 7);
    assert_eq!(explosion.node_count(), 6);

    let mut edgemap: BTreeMap<usize, usize> = BTreeMap::new();
    for index in 0..explosion.node_count() {
        let weight = explosion.get_node(index).unwrap();
        let mut edges = weight.hyper_edges.clone();
        edges.sort();
        let mut nodes = weight.hyper_nodes.clone();
        nodes.sort();
        let edges: Vec<usize> = edges.iter().map(|e| e.0).collect();
        let target = if edges == vec![edge_a.0] && nodes == vec![node_0, node_2] {
            0
        } else if edges == vec![edge_a.0, edge_b.0] && nodes == vec![node_3] {
            1
        } else if edges == vec![edge_b.0] && nodes == vec![node_4] {
            2
        } else if edges == vec![edge_b.0, edge_c.0] && nodes == vec![node_5] {
            3
        } else if edges == vec![edge_c.0] && nodes == vec![node_6, node_7] {
            4
        } else if edges == vec![edge_a.0, edge_b.0, edge_c.0] && nodes == vec![node_1] {
            5
        } else {
            unreachable!()
        };

        edgemap.insert(target, index);
    }
    assert_eq!(edgemap.len(), 6);

    let edges = [(0, 1), (1, 2), (2, 3), (3, 4), (4, 5), (0, 5), (2, 5)];
    for (a, b) in edges {
        let a = *edgemap.get(&a).unwrap();
        let b = *edgemap.get(&b).unwrap();
        assert!(explosion.contains_edge(a, b));
    }
}

#[test]
fn line_routing_path_crosses_both_edges() {
    let n = NonZeroEvenUsize::new(4).unwrap();
    let connectivity = Connectivity::create_line(n, 7).unwrap();
    assert_eq!(connectivity.qubit_count(), 7);

    let path = connectivity.get_routing_path(&vec![0, 6]).unwrap();
    assert_eq!(path.len(), 2);
    // Both edges hand their letters over at the shared qubit.
    for instr in path.iter() {
        match &instr.target {
            RoutingInstructionTarget::Single(t) => assert_eq!(*t, 3),
            _ => panic!("each instruction should aim at the shared qubit"),
        }
    }
    let mut covered: Vec<usize> = Vec::new();
    for instr in path.iter() {
        covered.extend(instr.qubits.iter().cloned());
    }
    covered.sort();
    covered.dedup();
    assert_eq!(covered, vec![0, 1, 2, 3, 4, 5, 6]);

    // A path of one instruction is upgraded to an unconstrained target.
    let single = connectivity.get_routing_path(&vec![0, 2]).unwrap();
    assert_eq!(single.len(), 1);
    assert!(matches!(single[0].target, RoutingInstructionTarget::Any));
}

#[test]
fn connectivity_error_variants() {
    match Connectivity::new(2, vec![vec![0, 2]]) {
        Err(ConnectivityCreationError::IndexOutOfRange(q)) => assert_eq!(q, 2),
        _ => panic!("expected an out of range error"),
    }
    match Connectivity::new(3, vec![vec![0, 1, 1]]) {
        Err(ConnectivityCreationError::DublicateInGroup) => {}
        _ => panic!("expected a duplicate error"),
    }
    match Connectivity::new(3, vec![vec![0, 1]]) {
        Err(ConnectivityCreationError::NotFullyConnected) => {}
        _ => panic!("expected a connectivity error"),
    }
}

#[test]
fn hypergraph_connectivity_detection() {
    let g = HyperGraph::new();
    assert!(g.fully_connected());

    let mut g = HyperGraph::new();
    let a = g.add_node();
    let b = g.add_node();
    let c = g.add_node();
    g.add_edge(vec![a, b]).unwrap();
    assert!(!g.fully_connected());
    g.add_edge(vec![b, c]).unwrap();
    assert!(g.fully_connected());
}
