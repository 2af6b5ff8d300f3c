use mad_doc::graph::GraphDatabase;
use mad_doc::graph::ReferentialIntegrityError;
use mad_doc::props::PropMap;

fn props(pairs: &[(&str, &str)]) -> PropMap {
    let mut m = PropMap::new();
    for (k, v) in pairs {
        m.insert(k.to_string(), v.to_string());
    }
    m
}

#[test]
fn add_edge_rejects_unknown_endpoints() {
    let mut g = GraphDatabase::new();
    g.add_node("a", "Person", PropMap::new());
    let r = g.add_edge("a", "ghost", "KNOWS", PropMap::new());
    assert_eq!(r, Err(ReferentialIntegrityError));
    let r2 = g.add_edge("ghost", "a", "KNOWS", PropMap::new());
    assert_eq!(r2, Err(ReferentialIntegrityError));
    let stats = g.get_statistics();
    assert_eq!(stats.node_count, 1);
    assert_eq!(stats.edge_count, 0);
    assert!(g.get_neighbors("a", None).is_empty());
}

#[test]
fn add_edge_links_existing_nodes() {
    let mut g = GraphDatabase::new();
    g.add_node("a", "Person", PropMap::new());
    g.add_node("b", "Person", PropMap::new());
    let id = g.add_edge("a", "b", "KNOWS", PropMap::new()).unwrap();
    assert_eq!(id, "0");
    let id2 = g.add_edge("b", "a", "KNOWS", PropMap::new()).unwrap();
    assert_eq!(id2, "1");
    let neighbors = g.get_neighbors("a", None);
    assert_eq!(neighbors.len(), 1);
    assert_eq!(neighbors[0].id, "b");
}

#[test]
fn add_node_overwrites_in_place() {
    let mut g = GraphDatabase::new();
    g.add_node("a", "Old", PropMap::new());
    g.add_node("b", "Person", PropMap::new());
    g.add_edge("a", "b", "KNOWS", PropMap::new()).unwrap();
    g.add_node("a", "New", props(&[("x", "1")]));
    let node = g.get_node("a").unwrap();
    assert_eq!(node.label, "New");
    // the edge survives the overwrite
    let neighbors = g.get_neighbors("a", None);
    assert_eq!(neighbors.len(), 1);
    assert_eq!(neighbors[0].id, "b");
    let stats = g.get_statistics();
    assert_eq!(stats.node_count, 2);
    assert_eq!(stats.edge_count, 1);
}

#[test]
fn get_node_unknown_is_none() {
    let g = GraphDatabase::new();
    assert!(g.get_node("nope").is_none());
}

#[test]
fn neighbors_respect_relationship_filter_and_order() {
    let mut g = GraphDatabase::new();
    g.add_node("a", "N", PropMap::new());
    g.add_node("b", "N", PropMap::new());
    g.add_node("c", "N", PropMap::new());
    g.add_edge("a", "b", "LIKES", PropMap::new()).unwrap();
    g.add_edge("a", "c", "KNOWS", PropMap::new()).unwrap();
    g.add_edge("a", "b", "KNOWS", PropMap::new()).unwrap();
    let all = g.get_neighbors("a", None);
    let ids: Vec<&str> = all.iter().map(|n| n.id.as_str()).collect();
    assert_eq!(ids, vec!["b", "c", "b"]);
    let knows = g.get_neighbors("a", Some("KNOWS".to_string()));
    let ids: Vec<&str> = knows.iter().map(|n| n.id.as_str()).collect();
    assert_eq!(ids, vec!["c", "b"]);
    assert!(g.get_neighbors("zzz", None).is_empty());
}

#[test]
fn shortest_path_prefers_fewer_hops() {
    let mut g = GraphDatabase::new();
    g.add_node("A", "N", PropMap::new());
    g.add_node("B", "N", PropMap::new());
    g.add_node("C", "N", PropMap::new());
    g.add_edge("A", "B", "R", PropMap::new()).unwrap();
    g.add_edge("B", "C", "R", PropMap::new()).unwrap();
    let r = g.find_shortest_path("A", "C", None);
    assert_eq!(r.paths.len(), 1);
    assert_eq!(r.paths[0].length, 2);
    let ids: Vec<&str> = r.nodes.iter().map(|n| n.id.as_str()).collect();
    assert_eq!(ids, vec!["A", "B", "C"]);
    assert_eq!(r.edges.len(), 2);
    assert_eq!(r.edges[0].from, "A");
    assert_eq!(r.edges[0].to, "B");
    assert_eq!(r.edges[1].from, "B");
    assert_eq!(r.edges[1].to, "C");
    // a direct edge shortens the result to one hop
    g.add_edge("A", "C", "R", PropMap::new()).unwrap();
    let r2 = g.find_shortest_path("A", "C", None);
    assert_eq!(r2.paths.len(), 1);
    assert_eq!(r2.paths[0].length, 1);
    let ids: Vec<&str> = r2.nodes.iter().map(|n| n.id.as_str()).collect();
    assert_eq!(ids, vec!["A", "C"]);
}

#[test]
fn shortest_path_unreachable_is_empty() {
    let mut g = GraphDatabase::new();
    g.add_node("A", "N", PropMap::new());
    g.add_node("B", "N", PropMap::new());
    g.add_node("C", "N", PropMap::new());
    g.add_edge("B", "A", "R", PropMap::new()).unwrap();
    let r = g.find_shortest_path("A", "C", None);
    assert!(r.nodes.is_empty());
    assert!(r.edges.is_empty());
    assert!(r.paths.is_empty());
    let r2 = g.find_shortest_path("A", "nope", None);
    assert!(r2.paths.is_empty());
}

#[test]
fn shortest_path_same_node_has_zero_length() {
    let mut g = GraphDatabase::new();
    g.add_node("A", "N", PropMap::new());
    let r = g.find_shortest_path("A", "A", None);
    assert_eq!(r.paths.len(), 1);
    assert_eq!(r.paths[0].length, 0);
    let ids: Vec<&str> = r.nodes.iter().map(|n| n.id.as_str()).collect();
    assert_eq!(ids, vec!["A"]);
    assert!(r.edges.is_empty());
}

#[test]
fn shortest_path_honors_filter() {
    let mut g = GraphDatabase::new();
    g.add_node("A", "N", PropMap::new());
    g.add_node("B", "N", PropMap::new());
    g.add_edge("A", "B", "SKIP", PropMap::new()).unwrap();
    let r = g.find_shortest_path("A", "B", Some("ONLY".to_string()));
    assert!(r.paths.is_empty());
    let r2 = g.find_shortest_path("A", "B", Some("SKIP".to_string()));
    assert_eq!(r2.paths.len(), 1);
    assert_eq!(r2.paths[0].length, 1);
}

#[test]
fn traverse_stops_at_max_depth() {
    let mut g = GraphDatabase::new();
    g.add_node("A", "N", PropMap::new());
    g.add_node("B", "N", PropMap::new());
    g.add_node("C", "N", PropMap::new());
    g.add_node("D", "N", PropMap::new());
    let e1 = g.add_edge("A", "B", "R", PropMap::new()).unwrap();
    let e2 = g.add_edge("B", "C", "R", PropMap::new()).unwrap();
    g.add_edge("C", "D", "R", PropMap::new()).unwrap();
    let r = g.traverse("A", 2, None);
    let ids: Vec<&str> = r.nodes.iter().map(|n| n.id.as_str()).collect();
    assert_eq!(ids, vec!["A", "B"]);
    let edge_ids: Vec<&str> = r.edges.iter().map(|e| e.id.as_str()).collect();
    assert_eq!(edge_ids, vec![e1.as_str(), e2.as_str()]);
    assert!(r.nodes.iter().all(|n| n.id != "D"));
    assert!(r.edges.iter().all(|e| e.to != "D"));
    assert!(r.paths.is_empty());
}

#[test]
fn traverse_records_edges_in_discovery_order() {
    let mut g = GraphDatabase::new();
    g.add_node("A", "N", PropMap::new());
    g.add_node("B", "N", PropMap::new());
    g.add_node("C", "N", PropMap::new());
    g.add_node("D", "N", PropMap::new());
    let ab = g.add_edge("A", "B", "R", PropMap::new()).unwrap();
    let ac = g.add_edge("A", "C", "R", PropMap::new()).unwrap();
    let cd = g.add_edge("C", "D", "R", PropMap::new()).unwrap();
    let bd = g.add_edge("B", "D", "R", PropMap::new()).unwrap();
    let r = g.traverse("A", 3, None);
    // visit order: A, then A's targets B and C, then D
    let ids: Vec<&str> = r.nodes.iter().map(|n| n.id.as_str()).collect();
    assert_eq!(ids, vec!["A", "B", "C", "D"]);
    // each visited node contributes its outgoing edges in adjacency order
    let edge_ids: Vec<&str> = r.edges.iter().map(|e| e.id.as_str()).collect();
    assert_eq!(edge_ids, vec![ab.as_str(), ac.as_str(), bd.as_str(), cd.as_str()]);
}

#[test]
fn traverse_zero_depth_and_unknown_start_are_empty() {
    let mut g = GraphDatabase::new();
    g.add_node("A", "N", PropMap::new());
    let r = g.traverse("A", 0, None);
    assert!(r.nodes.is_empty());
    assert!(r.edges.is_empty());
    let r2 = g.traverse("nope", 3, None);
    assert!(r2.nodes.is_empty());
    assert!(r2.edges.is_empty());
}

#[test]
fn traverse_skips_filtered_edges_without_blocking() {
    let mut g = GraphDatabase::new();
    g.add_node("A", "N", PropMap::new());
    g.add_node("B", "N", PropMap::new());
    g.add_edge("A", "B", "OTHER", PropMap::new()).unwrap();
    g.add_edge("A", "B", "WANTED", PropMap::new()).unwrap();
    let r = g.traverse("A", 2, Some("WANTED".to_string()));
    let mut ids: Vec<&str> = r.nodes.iter().map(|n| n.id.as_str()).collect();
    ids.sort();
    assert_eq!(ids, vec!["A", "B"]);
    assert_eq!(r.edges.len(), 1);
    assert_eq!(r.edges[0].relationship, "WANTED");
}

#[test]
fn query_by_properties_is_conjunctive() {
    let mut g = GraphDatabase::new();
    g.add_node("a", "P", props(&[("color", "red"), ("size", "big")]));
    g.add_node("b", "P", props(&[("color", "red")]));
    g.add_node("c", "P", props(&[("color", "blue"), ("size", "big")]));
    g.add_edge("a", "b", "R", props(&[("w", "1")])).unwrap();
    g.add_edge("b", "c", "R", props(&[("w", "2")])).unwrap();
    let r = g.query_by_properties(&props(&[("color", "red"), ("size", "big")]), &PropMap::new());
    let ids: Vec<&str> = r.nodes.iter().map(|n| n.id.as_str()).collect();
    assert_eq!(ids, vec!["a"]);
    assert_eq!(r.edges.len(), 2);
    let r2 = g.query_by_properties(&PropMap::new(), &props(&[("w", "2")]));
    assert_eq!(r2.nodes.len(), 3);
    assert_eq!(r2.edges.len(), 1);
    assert_eq!(r2.edges[0].from, "b");
    assert!(r2.paths.is_empty());
}

#[test]
fn statistics_count_nodes_edges_and_kinds() {
    let mut g = GraphDatabase::new();
    g.add_node("a", "Person", PropMap::new());
    g.add_node("b", "Person", PropMap::new());
    g.add_node("c", "City", PropMap::new());
    g.add_edge("a", "b", "KNOWS", PropMap::new()).unwrap();
    g.add_edge("a", "c", "LIVES_IN", PropMap::new()).unwrap();
    g.add_edge("b", "c", "LIVES_IN", PropMap::new()).unwrap();
    let s = g.get_statistics();
    assert_eq!(s.node_count, 3);
    assert_eq!(s.edge_count, 3);
    let mut labels = s.node_labels.clone();
    labels.sort();
    assert_eq!(labels, vec!["City".to_string(), "Person".to_string()]);
    let mut rels = s.relationship_types.clone();
    rels.sort();
    assert_eq!(rels, vec!["KNOWS".to_string(), "LIVES_IN".to_string()]);
    // 3 outgoing edges over 3 nodes: average out-degree 1.000
    assert_eq!(s.average_out_degree_milli, 1000);
}

#[test]
fn statistics_empty_graph_average_is_zero() {
    let g = GraphDatabase::new();
    let s = g.get_statistics();
    assert_eq!(s.node_count, 0);
    assert_eq!(s.edge_count, 0);
    assert_eq!(s.average_out_degree_milli, 0);
    assert!(s.node_labels.is_empty());
    assert!(s.relationship_types.is_empty());
}

#[test]
fn statistics_average_rounds_down_in_thousandths() {
    let mut g = GraphDatabase::new();
    g.add_node("a", "N", PropMap::new());
    g.add_node("b", "N", PropMap::new());
    g.add_edge("a", "b", "R", PropMap::new()).unwrap();
    let s = g.get_statistics();
    // one edge over two nodes: 0.500 average out-degree
    assert_eq!(s.average_out_degree_milli, 500);
}

#[test]
fn export_cypher_lists_nodes_then_edges() {
    let mut g = GraphDatabase::new();
    g.add_node("a", "L", PropMap::new());
    g.add_node("b", "M", PropMap::new());
    g.add_edge("a", "b", "REL", PropMap::new()).unwrap();
    let text = g.export_cypher();
    assert_eq!(
        text,
        "CREATE (a:L);\nCREATE (b:M);\nMATCH (a), (b) WHERE a.id = 'a' AND b.id = 'b' CREATE (a)-[:REL]->(b);"
    );
}

#[test]
fn export_cypher_escapes_single_quotes() {
    let mut g = GraphDatabase::new();
    g.add_node("a", "L", props(&[("k", "it's")]));
    let text = g.export_cypher();
    assert_eq!(text, "CREATE (a:L {k: 'it\\'s'});");
}

#[test]
fn export_cypher_empty_graph_is_a_lone_semicolon() {
    let g = GraphDatabase::new();
    assert_eq!(g.export_cypher(), ";");
}

#[test]
fn export_cypher_joins_properties_with_commas() {
    let mut g = GraphDatabase::new();
    g.add_node("n", "T", props(&[("a", "1"), ("b", "2")]));
    let text = g.export_cypher();
    assert_eq!(text, "CREATE (n:T {a: '1', b: '2'});");
}

#[test]
fn export_cypher_sorts_nodes_by_id() {
    let mut g = GraphDatabase::new();
    g.add_node("b", "M", PropMap::new());
    g.add_node("a", "L", PropMap::new());
    let text = g.export_cypher();
    assert_eq!(text, "CREATE (a:L);\nCREATE (b:M);");
}

#[test]
fn export_cypher_is_canonical_across_insertion_orders() {
    let mut g1 = GraphDatabase::new();
    g1.add_node("x", "L", props(&[("p", "1")]));
    g1.add_node("m", "L", PropMap::new());
    g1.add_node("a", "L", PropMap::new());
    let mut g2 = GraphDatabase::new();
    g2.add_node("a", "L", PropMap::new());
    g2.add_node("x", "L", props(&[("p", "1")]));
    g2.add_node("m", "L", PropMap::new());
    assert_eq!(g1.export_cypher(), g2.export_cypher());
}
