use algos::depth_first_search::{depth_first_search, Edge, Graph, Vertex};

fn graph_of(edge_pairs: &[(u32, u32)]) -> Graph {
    let mut vertices: Vec<Vertex> = Vec::new();
    let mut edges: Vec<Edge> = Vec::new();
    for &(a, b) in edge_pairs {
        vertices.push(Vertex::from(a));
        vertices.push(Vertex::from(b));
        edges.push(Edge::from((a, b)));
    }
    Graph::new(vertices, edges)
}

#[test]
fn dfs_finds_a_reachable_objective() {
    let graph = graph_of(&[(1, 2), (1, 3), (2, 4), (3, 4), (4, 5)]);
    let history = depth_first_search(&graph, Vertex::from(1), Vertex::from(5))
        .expect("5 is reachable from 1");
    assert_eq!(history.first(), Some(&1));
    assert_eq!(history.last(), Some(&5));
}

#[test]
fn dfs_visits_depth_first() {
    // a chain next to a dead end: depth-first follows 1 -> 2 -> 4 before 3
    let graph = graph_of(&[(1, 2), (1, 3), (2, 4)]);
    let history = depth_first_search(&graph, Vertex::from(1), Vertex::from(4))
        .expect("4 is reachable from 1");
    assert_eq!(history, vec![1, 2, 4]);
}

#[test]
fn dfs_reports_an_unreachable_objective() {
    let graph = graph_of(&[(1, 2), (3, 4)]);
    assert_eq!(depth_first_search(&graph, Vertex::from(1), Vertex::from(4)), None);
    assert_eq!(depth_first_search(&graph, Vertex::from(2), Vertex::from(1)), None);
}

#[test]
fn dfs_finds_the_root_immediately() {
    let graph = graph_of(&[(7, 8)]);
    let history = depth_first_search(&graph, Vertex::from(7), Vertex::from(7))
        .expect("the root is trivially reachable");
    assert_eq!(history, vec![7]);
}

#[test]
fn dfs_handles_cycles() {
    let graph = graph_of(&[(1, 2), (2, 3), (3, 1), (3, 4)]);
    let history = depth_first_search(&graph, Vertex::from(1), Vertex::from(4))
        .expect("4 is reachable through the cycle");
    assert_eq!(history.last(), Some(&4));
    assert_eq!(depth_first_search(&graph, Vertex::from(4), Vertex::from(1)), None);
}

#[test]
fn vertex_value_reads_back() {
    let v = Vertex::from(42);
    assert_eq!(v.value(), 42);
    let neighbors = Vertex::from(1)
        .neighbors(&graph_of(&[(1, 9), (2, 5), (1, 6)]));
    let values: Vec<u32> = neighbors.iter().map(|v| v.value()).collect();
    assert_eq!(values, vec![9, 6]);
}
