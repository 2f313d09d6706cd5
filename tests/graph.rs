use ttwa::graph::{EdgeDirection, Graph, GraphError, MAX_TOTAL_FLOW};

fn build(m: Vec<Vec<u32>>) -> Graph {
    match Graph::from_adjacency_matrix(m) {
        Ok(g) => g,
        Err(e) => panic!("unexpected error {:?}", e),
    }
}

#[test]
fn degrees_are_row_and_column_sums() {
    let g = build(vec![vec![1, 2, 0], vec![0, 0, 3], vec![4, 0, 5]]);
    assert_eq!(g.num_nodes(), 3);
    let outs: Vec<u32> = g.nodes.iter().map(|n| n.out_degree).collect();
    let ins: Vec<u32> = g.nodes.iter().map(|n| n.in_degree).collect();
    assert_eq!(outs, vec![3, 3, 9]);
    assert_eq!(ins, vec![5, 2, 8]);
    assert_eq!(g.out_degree(2), 9);
    assert_eq!(g.in_degree(0), 5);
    let ids: Vec<usize> = g.nodes.iter().map(|n| n.id).collect();
    assert_eq!(ids, vec![0, 1, 2]);
}

#[test]
fn edge_weights_sum_to_matrix_total() {
    let g = build(vec![vec![1, 2, 0], vec![0, 0, 3], vec![4, 0, 5]]);
    let total: u32 = g.edges.iter().map(|e| e.weight).sum();
    assert_eq!(total, 15);
    assert_eq!(g.edges.len(), 5);
}

#[test]
fn edges_follow_row_major_order() {
    let g = build(vec![vec![1, 2, 0], vec![0, 0, 3], vec![4, 0, 5]]);
    let pairs: Vec<(usize, usize)> = g.edges.iter().map(|e| (e.source, e.target)).collect();
    assert_eq!(pairs, vec![(0, 0), (0, 1), (1, 2), (2, 0), (2, 2)]);
    let ins: Vec<usize> = g.get_edges(0, EdgeDirection::In).iter().map(|e| e.source).collect();
    assert_eq!(ins, vec![0, 2]);
    let outs: Vec<usize> = g.get_edges(2, EdgeDirection::Out).iter().map(|e| e.target).collect();
    assert_eq!(outs, vec![0, 2]);
    let w: Vec<u32> = g.get_edges(2, EdgeDirection::In).iter().map(|e| e.weight).collect();
    assert_eq!(w, vec![3, 5]);
}

#[test]
fn self_loop_is_an_edge_in_both_directions() {
    let g = build(vec![vec![5]]);
    assert_eq!(g.get_edges(0, EdgeDirection::In).len(), 1);
    assert_eq!(g.get_edges(0, EdgeDirection::Out).len(), 1);
    assert_eq!(g.nodes[0].in_degree, 5);
    assert_eq!(g.nodes[0].out_degree, 5);
}

#[test]
fn non_square_matrix_is_rejected() {
    let r = Graph::from_adjacency_matrix(vec![vec![1, 2], vec![3]]);
    assert!(matches!(r, Err(GraphError::NotSquare { row: 1 })));
    let r = Graph::from_adjacency_matrix(vec![vec![1, 2, 3], vec![3, 4]]);
    assert!(matches!(r, Err(GraphError::NotSquare { row: 0 })));
}

#[test]
fn isolated_node_is_rejected() {
    let r = Graph::from_adjacency_matrix(vec![vec![1, 0, 2], vec![0, 0, 0], vec![3, 0, 0]]);
    assert!(matches!(r, Err(GraphError::IsolatedNode { node: 1 })));
}

#[test]
fn node_with_only_outgoing_flow_is_accepted() {
    let g = build(vec![vec![0, 7], vec![0, 1]]);
    assert_eq!(g.nodes[0].in_degree, 0);
    assert_eq!(g.nodes[0].out_degree, 7);
}

#[test]
fn too_much_flow_is_rejected() {
    let big = u32::MAX;
    let r = Graph::from_adjacency_matrix(vec![vec![big]]);
    assert!(matches!(r, Err(GraphError::TotalFlowTooLarge)));
    let half = (MAX_TOTAL_FLOW / 2) as u32;
    let r = Graph::from_adjacency_matrix(vec![vec![half, 1], vec![1, half]]);
    assert!(matches!(r, Err(GraphError::TotalFlowTooLarge)));
    let ok = Graph::from_adjacency_matrix(vec![vec![half, 1], vec![0, half]]);
    assert!(ok.is_ok());
}

#[test]
fn empty_matrix_gives_empty_graph() {
    let g = build(vec![]);
    assert_eq!(g.num_nodes(), 0);
    assert!(g.edges.is_empty());
}
