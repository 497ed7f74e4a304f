use stack_set::{has_cycle, Graph};

#[test]
fn triangle_reports_a_cycle() {
    let g = Graph {
        vertices: 3,
        edges: vec![vec![1], vec![2], vec![0]],
    };
    assert!(has_cycle(&g));
}

#[test]
fn empty_graph_reports_no_cycle() {
    let g = Graph {
        vertices: 0,
        edges: Vec::new(),
    };
    assert!(!has_cycle(&g));
}

#[test]
fn chain_reports_no_cycle() {
    let g = Graph {
        vertices: 3,
        edges: vec![vec![1], vec![2], vec![]],
    };
    assert!(!has_cycle(&g));
}

#[test]
fn self_loop_reports_a_cycle() {
    let g = Graph {
        vertices: 1,
        edges: vec![vec![0]],
    };
    assert!(has_cycle(&g));
}

#[test]
fn diamond_without_back_edge_reports_no_cycle() {
    let g = Graph {
        vertices: 4,
        edges: vec![vec![1, 2], vec![3], vec![3], vec![]],
    };
    assert!(!has_cycle(&g));
}

#[test]
fn deep_back_edge_reports_a_cycle() {
    let g = Graph {
        vertices: 5,
        edges: vec![vec![1], vec![2], vec![3], vec![4], vec![1]],
    };
    assert!(has_cycle(&g));
}
