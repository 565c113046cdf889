use graph::{Graph, OrientedEdge, TgfError, TextValue};

#[test]
fn missing_separator_is_a_format_error() {
    let r = Graph::<String, String>::from_tgf("1 a\n2 b\n");
    let e = r.err().unwrap();
    assert_eq!(e, TgfError::MissingSeparator);
    assert!(e.is_format_error());
}

#[test]
fn vertex_line_without_space_is_a_format_error() {
    let r = Graph::<String, String>::from_tgf("1 a\n2\n#\n");
    let e = r.err().unwrap();
    assert_eq!(e, TgfError::MissingVertexValue);
    assert!(e.is_format_error());
}

#[test]
fn non_numeric_id_is_a_parse_error() {
    let r = Graph::<String, String>::from_tgf("x a\n#\n");
    let e = r.err().unwrap();
    assert_eq!(e, TgfError::InvalidId);
    assert!(!e.is_format_error());
}

#[test]
fn edge_lines_missing_parts() {
    let r = Graph::<String, String>::from_tgf("1 a\n#\n1\n");
    assert_eq!(r.err().unwrap(), TgfError::MissingEdgeTarget);
    let r = Graph::<String, String>::from_tgf("1 a\n#\n1 2\n");
    assert_eq!(r.err().unwrap(), TgfError::MissingEdgeValue);
    let r = Graph::<String, u32>::from_tgf("1 a\n#\n1 2 x\n");
    assert_eq!(r.err().unwrap(), TgfError::InvalidValue);
    let r = Graph::<u32, u32>::from_tgf("1 z\n#\n");
    assert_eq!(r.err().unwrap(), TgfError::InvalidValue);
    let r = Graph::<u32, u32>::from_tgf("1 1\n#\n1 4294967296 3\n");
    assert_eq!(r.err().unwrap(), TgfError::InvalidId);
}

#[test]
fn reads_sections_lines_and_values() {
    let text = "  \n1 first vertex\r\n\n2 second\n3 +7 \n1 again\n#\n1 2 edge one\n1 3 x\n9 1 dropped\n1 2 edge two\n3 1 back\n\n";
    let g = Graph::<String, String>::from_tgf(text).unwrap();
    let mut ids = g.traverse_bfs();
    ids.sort();
    assert_eq!(ids, vec![1, 2, 3]);
    assert_eq!(g.get_vertex_value(1), Some(&"again".to_string()));
    assert_eq!(g.get_vertex_value(2), Some(&"second".to_string()));
    assert_eq!(g.get_vertex_value(3), Some(&"+7".to_string()));
    let mut adj = g.get_adjacents(1).unwrap();
    adj.sort();
    assert_eq!(adj, vec![&2, &3]);
    assert_eq!(g.get_adjacents(9), None);
    let mut h = g;
    assert_eq!(h.remove_edge(OrientedEdge(1, 2)), Some("edge two".to_string()));
    assert_eq!(h.remove_edge(OrientedEdge(3, 1)), Some("back".to_string()));
}

#[test]
fn reads_numbers_with_plus_sign() {
    let g = Graph::<u32, u32>::from_tgf("+5 +10\n4294967295 0\n#\n5 4294967295 +3\n").unwrap();
    assert_eq!(g.get_vertex_value(5), Some(&10));
    assert_eq!(g.get_vertex_value(4294967295), Some(&0));
    let mut h = g;
    assert_eq!(h.remove_edge(OrientedEdge(5, 4294967295)), Some(3));
}

#[test]
fn empty_text_sections() {
    let g = Graph::<String, String>::from_tgf("#").unwrap();
    assert_eq!(g.traverse_bfs(), Vec::<u32>::new());
    let g = Graph::<String, String>::from_tgf("\n \n#\n\n").unwrap();
    assert_eq!(g.traverse_bfs(), Vec::<u32>::new());
}

#[test]
fn writes_one_line_per_vertex_and_edge() {
    let mut g = Graph::<String, u32>::new();
    g.insert_node(12, "twelve".to_string());
    g.insert_edge(OrientedEdge(12, 7), 305);
    assert_eq!(g.to_tgf(), "12 twelve\n#\n12 7 305\n".to_string());
    let e = Graph::<String, u32>::new();
    assert_eq!(e.to_tgf(), "#\n".to_string());
}

#[test]
fn text_round_trip_keeps_vertices_and_edges() {
    let mut g = Graph::<String, u32>::new();
    g.insert_node(1, "one".to_string());
    g.insert_node(2, "two words".to_string());
    g.insert_node(3, "three".to_string());
    g.insert_edge(OrientedEdge(1, 2), 12);
    g.insert_edge(OrientedEdge(1, 3), 13);
    g.insert_edge(OrientedEdge(3, 1), 31);
    g.insert_edge(OrientedEdge(2, 8), 28);
    let text = g.to_tgf();
    let mut h = Graph::<String, u32>::from_tgf(&text).unwrap();
    let mut ids = h.traverse_bfs();
    ids.sort();
    assert_eq!(ids, vec![1, 2, 3]);
    assert_eq!(h.get_vertex_value(2), Some(&"two words".to_string()));
    let mut adj = h.get_adjacents(1).unwrap();
    adj.sort();
    assert_eq!(adj, vec![&2, &3]);
    assert_eq!(h.remove_edge(OrientedEdge(1, 2)), Some(12));
    assert_eq!(h.remove_edge(OrientedEdge(1, 3)), Some(13));
    assert_eq!(h.remove_edge(OrientedEdge(3, 1)), Some(31));
    assert_eq!(h.remove_edge(OrientedEdge(2, 8)), Some(28));
}

#[test]
fn value_text_conversions() {
    assert_eq!(4294967295u32.to_text(), "4294967295".chars().collect::<Vec<char>>());
    assert_eq!(0u32.to_text(), vec!['0']);
    assert_eq!(u32::from_text(&"+0042".chars().collect()), Some(42));
    assert_eq!(u32::from_text(&"-1".chars().collect()), None);
    assert_eq!(u32::from_text(&"+".chars().collect()), None);
    assert_eq!(u32::from_text(&Vec::new()), None);
    assert_eq!(String::from_text(&vec!['h', 'i']), Some("hi".to_string()));
    assert_eq!("hé".to_string().to_text(), vec!['h', 'é']);
}
