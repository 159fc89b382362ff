use std::collections::BTreeMap;

use algos::dijkstra::dijkstra;
use algos::graph::Graph;

fn add_edge(graph: &mut Graph, v1: u64, v2: u64, c: u64) {
    graph.add_edge(v1, v2, c);
}

fn table_of(graph: &Graph, start: u64) -> BTreeMap<u64, Option<(u64, u64)>> {
    dijkstra(graph, start).items().into_iter().collect()
}

#[test]
fn single_vertex() {
    let mut graph = Graph::new();
    graph.add_vertex(0);

    let mut dists = BTreeMap::new();
    dists.insert(0, None);

    assert_eq!(table_of(&graph, 0), dists);
}

#[test]
fn single_edge() {
    let mut graph = Graph::new();
    add_edge(&mut graph, 0, 1, 2);

    let mut dists_0 = BTreeMap::new();
    dists_0.insert(0, None);
    dists_0.insert(1, Some((0, 2)));

    assert_eq!(table_of(&graph, 0), dists_0);

    let mut dists_1 = BTreeMap::new();
    dists_1.insert(1, None);

    assert_eq!(table_of(&graph, 1), dists_1);
}

#[test]
fn tree_1() {
    let mut graph = Graph::new();
    let mut dists = BTreeMap::new();
    dists.insert(1u64, None);
    for i in 1u64..100 {
        add_edge(&mut graph, i, i * 2, i * 2);
        add_edge(&mut graph, i, i * 2 + 1, i * 2 + 1);

        match dists[&i] {
            Some((_, d)) => {
                dists.insert(i * 2, Some((i, d + i * 2)));
                dists.insert(i * 2 + 1, Some((i, d + i * 2 + 1)));
            }
            None => {
                dists.insert(i * 2, Some((i, i * 2)));
                dists.insert(i * 2 + 1, Some((i, i * 2 + 1)));
            }
        }
    }

    assert_eq!(table_of(&graph, 1), dists);
}

#[test]
fn graph_1() {
    let a = 'a' as u64;
    let b = 'b' as u64;
    let c = 'c' as u64;
    let d = 'd' as u64;
    let e = 'e' as u64;
    let mut graph = Graph::new();
    add_edge(&mut graph, a, c, 12);
    add_edge(&mut graph, a, d, 60);
    add_edge(&mut graph, b, a, 10);
    add_edge(&mut graph, c, b, 20);
    add_edge(&mut graph, c, d, 32);
    add_edge(&mut graph, e, a, 7);

    let mut dists_a = BTreeMap::new();
    dists_a.insert(a, None);
    dists_a.insert(c, Some((a, 12)));
    dists_a.insert(d, Some((c, 44)));
    dists_a.insert(b, Some((c, 32)));
    assert_eq!(table_of(&graph, a), dists_a);

    let mut dists_b = BTreeMap::new();
    dists_b.insert(b, None);
    dists_b.insert(a, Some((b, 10)));
    dists_b.insert(c, Some((a, 22)));
    dists_b.insert(d, Some((c, 54)));
    assert_eq!(table_of(&graph, b), dists_b);

    let mut dists_c = BTreeMap::new();
    dists_c.insert(c, None);
    dists_c.insert(b, Some((c, 20)));
    dists_c.insert(d, Some((c, 32)));
    dists_c.insert(a, Some((b, 30)));
    assert_eq!(table_of(&graph, c), dists_c);

    let mut dists_d = BTreeMap::new();
    dists_d.insert(d, None);
    assert_eq!(table_of(&graph, d), dists_d);

    let mut dists_e = BTreeMap::new();
    dists_e.insert(e, None);
    dists_e.insert(a, Some((e, 7)));
    dists_e.insert(c, Some((a, 19)));
    dists_e.insert(d, Some((c, 51)));
    dists_e.insert(b, Some((c, 39)));
    assert_eq!(table_of(&graph, e), dists_e);
}

#[test]
fn start_keeps_no_predecessor_despite_incoming_edges() {
    let mut graph = Graph::new();
    add_edge(&mut graph, 0, 1, 1);
    add_edge(&mut graph, 1, 0, 1);
    add_edge(&mut graph, 0, 0, 0);

    let table = table_of(&graph, 0);
    assert_eq!(table[&0], None);
    assert_eq!(table[&1], Some((0, 1)));
}

#[test]
fn lazy_deletion_discards_stale_entries() {
    // 0 -> 2 direct is long; 0 -> 1 -> 2 is shorter and must supersede
    // the earlier, staler candidate for 2
    let mut graph = Graph::new();
    add_edge(&mut graph, 0, 2, 10);
    add_edge(&mut graph, 0, 1, 1);
    add_edge(&mut graph, 1, 2, 2);

    let table = table_of(&graph, 0);
    assert_eq!(table[&2], Some((1, 3)));
}

#[test]
fn unreachable_vertices_are_absent() {
    let mut graph = Graph::new();
    add_edge(&mut graph, 0, 1, 4);
    add_edge(&mut graph, 2, 3, 5);

    let table = table_of(&graph, 0);
    assert_eq!(table.len(), 2);
    assert!(table.contains_key(&0));
    assert!(table.contains_key(&1));
    assert!(!table.contains_key(&2));
    assert!(!table.contains_key(&3));
}

#[test]
fn ties_keep_the_first_recorded_predecessor() {
    // two equal-weight routes to 3: through 1 and through 2; the first
    // recorded one wins and is never displaced by an equal candidate
    let mut graph = Graph::new();
    add_edge(&mut graph, 0, 1, 1);
    add_edge(&mut graph, 0, 2, 1);
    add_edge(&mut graph, 1, 3, 1);
    add_edge(&mut graph, 2, 3, 1);

    let table = table_of(&graph, 0);
    let entry = table[&3].unwrap();
    assert_eq!(entry.1, 2);
    assert_eq!(entry.0, 1);
}

#[test]
fn repeated_add_edge_overwrites_the_weight() {
    let mut graph = Graph::new();
    add_edge(&mut graph, 0, 1, 9);
    add_edge(&mut graph, 0, 1, 3);

    let table = table_of(&graph, 0);
    assert_eq!(table[&1], Some((0, 3)));
}
