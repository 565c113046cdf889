use graph::{Graph, OrientedEdge};

#[test]
fn add_nodes() {
    let mut g = Graph::<String, u32>::new();
    assert_eq!(g.insert_node(1, "the first".to_string()), None);
    assert_eq!(g.insert_node(2, "the second".to_string()), None);
    assert_eq!(
        g.insert_node(1, "the first_overrided".to_string()),
        Some("the first".to_string())
    );
    let mut sorted_vertices = g.traverse_bfs();
    sorted_vertices.sort();
    assert_eq!(sorted_vertices, vec![1, 2]);
}

#[test]
fn add_edges() {
    let mut g = Graph::<u32, u32>::new();
    g.insert_node(1, 1);
    g.insert_node(2, 2);
    g.insert_node(3, 3);
    assert_eq!(g.insert_edge(OrientedEdge(1, 3), 5), None);
    assert_eq!(g.insert_edge(OrientedEdge(1, 2), 3), None);
    assert_eq!(g.insert_edge(OrientedEdge(5, 3), 5), None);
    assert_eq!(g.insert_edge(OrientedEdge(1, 3), 7), Some(5));
    assert_eq!(g.insert_edge(OrientedEdge(3, 1), 3), None);
    let mut adjacents = g.get_adjacents(1).unwrap();
    adjacents.sort();
    assert_eq!(adjacents, vec![&2, &3]);
}

#[test]
fn remove_nodes() {
    let mut g = Graph::<u32, u32>::new();
    g.insert_node(1, 1);
    g.insert_node(2, 2);
    g.insert_node(3, 3);
    g.insert_edge(OrientedEdge(1, 3), 5);
    g.insert_edge(OrientedEdge(1, 2), 3);
    g.insert_edge(OrientedEdge(3, 1), 3);
    g.remove_node(1);
    let mut adjacents = g.get_adjacents(3).unwrap();
    adjacents.sort();
    assert_eq!(adjacents, Vec::<&u32>::new());
    assert_eq!(g.get_adjacents(1), None);
}

#[test]
fn remove_edges() {
    let mut g = Graph::<u32, u32>::new();
    g.insert_node(1, 1);
    g.insert_node(2, 2);
    g.insert_node(3, 3);
    g.insert_edge(OrientedEdge(1, 3), 5);
    g.insert_edge(OrientedEdge(1, 2), 3);
    g.insert_edge(OrientedEdge(3, 1), 3);
    g.remove_edge(OrientedEdge(1, 3));
    let mut adjacents = g.get_adjacents(1).unwrap();
    adjacents.sort();
    assert_eq!(adjacents, vec![&2]);
}

#[test]
fn repeated_inserts_keep_last_value() {
    let mut g = Graph::<u32, u32>::new();
    assert_eq!(g.insert_node(4, 10), None);
    assert_eq!(g.insert_node(9, 20), None);
    assert_eq!(g.insert_node(4, 30), Some(10));
    assert_eq!(g.insert_node(4, 40), Some(30));
    assert_eq!(g.get_vertex_value(4), Some(&40));
    assert_eq!(g.get_vertex_value(9), Some(&20));
    assert_eq!(g.get_vertex_value(7), None);
    let mut ids = g.traverse_bfs();
    ids.sort();
    assert_eq!(ids, vec![4, 9]);
}

#[test]
fn reinserted_vertex_keeps_its_edges() {
    let mut g = Graph::<u32, u32>::new();
    g.insert_node(1, 1);
    g.insert_node(2, 2);
    g.insert_edge(OrientedEdge(1, 2), 8);
    g.insert_node(1, 5);
    assert_eq!(g.get_adjacents(1), Some(vec![&2]));
    assert_eq!(g.remove_edge(OrientedEdge(1, 2)), Some(8));
}

#[test]
fn edge_from_unknown_vertex_is_ignored() {
    let mut g = Graph::<u32, u32>::new();
    g.insert_node(1, 1);
    assert_eq!(g.insert_edge(OrientedEdge(2, 1), 4), None);
    assert_eq!(g.get_adjacents(2), None);
    assert_eq!(g.get_adjacents(1), Some(Vec::<&u32>::new()));
    assert_eq!(g.insert_edge(OrientedEdge(1, 1), 6), None);
    assert_eq!(g.insert_edge(OrientedEdge(1, 1), 7), Some(6));
}

#[test]
fn remove_missing_edges_reports_nothing() {
    let mut g = Graph::<u32, u32>::new();
    g.insert_node(1, 1);
    g.insert_edge(OrientedEdge(1, 2), 3);
    assert_eq!(g.remove_edge(OrientedEdge(7, 2)), None);
    assert_eq!(g.remove_edge(OrientedEdge(1, 9)), None);
    assert_eq!(g.get_adjacents(1), Some(vec![&2]));
    assert_eq!(g.remove_edge(OrientedEdge(1, 2)), Some(3));
    assert_eq!(g.remove_edge(OrientedEdge(1, 2)), None);
}

#[test]
fn remove_node_drops_incoming_edges_only_to_it() {
    let mut g = Graph::<u32, u32>::new();
    g.insert_node(1, 1);
    g.insert_node(2, 2);
    g.insert_node(3, 3);
    g.insert_edge(OrientedEdge(2, 1), 1);
    g.insert_edge(OrientedEdge(2, 3), 1);
    g.insert_edge(OrientedEdge(3, 1), 1);
    g.insert_edge(OrientedEdge(3, 8), 1);
    assert_eq!(g.remove_node(1), Some(1));
    assert_eq!(g.remove_node(1), None);
    assert_eq!(g.get_vertex_value(1), None);
    assert_eq!(g.get_adjacents(2), Some(vec![&3]));
    assert_eq!(g.get_adjacents(3), Some(vec![&8]));
    let mut ids = g.traverse_bfs();
    ids.sort();
    assert_eq!(ids, vec![2, 3]);
}

#[test]
fn bfs_visits_each_vertex_once() {
    let mut g = Graph::<u32, u32>::new();
    for id in [1u32, 2, 3, 4, 5, 6] {
        g.insert_node(id, id * 10);
    }
    g.insert_edge(OrientedEdge(1, 2), 0);
    g.insert_edge(OrientedEdge(2, 3), 0);
    g.insert_edge(OrientedEdge(3, 1), 0);
    g.insert_edge(OrientedEdge(4, 5), 0);
    g.insert_edge(OrientedEdge(5, 4), 0);
    g.insert_edge(OrientedEdge(5, 42), 0);
    let mut ids = g.traverse_bfs();
    assert_eq!(ids.len(), 6);
    ids.sort();
    assert_eq!(ids, vec![1, 2, 3, 4, 5, 6]);
}

#[test]
fn bfs_walks_by_distance_in_a_chain() {
    let mut g = Graph::<u32, u32>::new();
    g.insert_node(1, 0);
    g.insert_node(2, 0);
    g.insert_node(3, 0);
    g.insert_edge(OrientedEdge(1, 2), 0);
    g.insert_edge(OrientedEdge(2, 3), 0);
    g.insert_edge(OrientedEdge(3, 1), 0);
    let ids = g.traverse_bfs();
    let expect = match ids[0] {
        1 => vec![1, 2, 3],
        2 => vec![2, 3, 1],
        _ => vec![3, 1, 2],
    };
    assert_eq!(ids, expect);
}

#[test]
fn empty_graph_has_empty_traversal() {
    let g = Graph::<u32, u32>::new();
    assert_eq!(g.traverse_bfs(), Vec::<u32>::new());
    assert_eq!(g.get_adjacents(0), None);
}

#[test]
fn bfs_reaches_ids_in_order_of_their_first_parent() {
    let mut g = Graph::<u32, u32>::new();
    let edges = [(1u32, 2u32), (1, 3), (2, 4), (3, 5), (4, 6), (5, 1), (6, 2), (7, 8), (8, 7), (2, 9)];
    for id in 1u32..=8 {
        g.insert_node(id, 0);
    }
    for (a, b) in edges.iter() {
        g.insert_edge(OrientedEdge(*a, *b), 0);
    }
    let r = g.traverse_bfs();
    assert_eq!(r.len(), 8);
    let leads = |a: u32, b: u32| b != 9 && edges.iter().any(|&(x, y)| x == a && y == b);
    let mut last_parent = 0usize;
    for x in 0..r.len() {
        match (0..x).find(|&y| leads(r[y], r[x])) {
            Some(p) => {
                assert!(p >= last_parent);
                last_parent = p;
            }
            None => {
                for y in 0..x {
                    for z in 1u32..=8 {
                        if leads(r[y], z) {
                            assert!(r[..x].contains(&z));
                        }
                    }
                }
            }
        }
    }
}
