use mad_doc::document::MadDocument;
use mad_doc::props::PropMap;

#[test]
fn new_document_has_fresh_metadata() {
    let doc = MadDocument::new("Title", "Author", 42);
    let meta = doc.get_metadata();
    assert_eq!(meta.title, "Title");
    assert_eq!(meta.author, "Author");
    assert_eq!(meta.created, 42);
    assert_eq!(meta.content_hash, "");
    assert_eq!(meta.version, "1.0");
    assert_eq!(meta.id.len(), 36);
}

#[test]
fn add_content_stores_base64_payload() {
    let mut doc = MadDocument::new("t", "a", 0);
    let id = doc.add_content("text/plain", b"hello", "a greeting");
    assert_eq!(id.len(), 36);
    let items = doc.content_items();
    assert_eq!(items.len(), 1);
    assert_eq!(items[0].id, id);
    assert_eq!(items[0].content_type, "text/plain");
    assert_eq!(items[0].data, base64::encode(b"hello"));
    assert_eq!(items[0].data, "aGVsbG8=");
    assert_eq!(items[0].text_content, "a greeting");
}

#[test]
fn search_content_is_case_insensitive_substring() {
    let mut doc = MadDocument::new("t", "a", 0);
    let id1 = doc.add_content("text/plain", b"x", "Hello World");
    let _id2 = doc.add_content("text/plain", b"y", "nothing here");
    let id3 = doc.add_content("text/markdown", b"z", "the WORLD is round");
    let hits = doc.search_content("world");
    let ids: Vec<&str> = hits.iter().map(|(id, _)| id.as_str()).collect();
    assert_eq!(ids, vec![id1.as_str(), id3.as_str()]);
    assert_eq!(hits[0].1, "text/plain");
    assert_eq!(hits[1].1, "text/markdown");
    assert!(doc.search_content("absent").is_empty());
}

#[test]
fn search_content_empty_query_matches_everything() {
    let mut doc = MadDocument::new("t", "a", 0);
    doc.add_content("text/plain", b"x", "one");
    doc.add_content("text/plain", b"y", "two");
    assert_eq!(doc.search_content("").len(), 2);
}

#[test]
fn content_hash_is_deterministic_without_mutation() {
    let mut doc = MadDocument::new("t", "a", 7);
    doc.add_content("text/plain", b"abc", "abc");
    doc.add_graph_node("n", "L", PropMap::new());
    let h1 = doc.calculate_content_hash();
    let h2 = doc.calculate_content_hash();
    assert_eq!(h1, h2);
    assert_eq!(h1.len(), 64);
    assert!(h1.chars().all(|c| c.is_ascii_hexdigit() && !c.is_ascii_uppercase()));
    assert_eq!(doc.get_metadata().content_hash, h1);
}

#[test]
fn content_hash_changes_after_mutation() {
    let mut doc = MadDocument::new("t", "a", 7);
    let h1 = doc.calculate_content_hash();
    doc.add_content("text/plain", b"abc", "abc");
    let h2 = doc.calculate_content_hash();
    assert_ne!(h1, h2);
    doc.add_vector_embedding("v1", "some text", vec![1, 2, 3]);
    let h3 = doc.calculate_content_hash();
    assert_ne!(h2, h3);
    doc.add_graph_node("n", "L", PropMap::new());
    let h4 = doc.calculate_content_hash();
    assert_ne!(h3, h4);
}

#[test]
fn graph_operations_forward_through_the_document() {
    let mut doc = MadDocument::new("t", "a", 0);
    doc.add_graph_node("A", "N", PropMap::new());
    doc.add_graph_node("B", "N", PropMap::new());
    doc.add_graph_node("C", "N", PropMap::new());
    let e = doc.add_graph_edge("A", "B", "R", PropMap::new()).unwrap();
    assert_eq!(e, "0");
    doc.add_graph_edge("B", "C", "R", PropMap::new()).unwrap();
    assert!(doc.add_graph_edge("A", "nope", "R", PropMap::new()).is_err());
    let path = doc.find_path("A", "C", None);
    assert_eq!(path.paths.len(), 1);
    assert_eq!(path.paths[0].length, 2);
    let walked = doc.query_graph("A", 1, None);
    let ids: Vec<&str> = walked.nodes.iter().map(|n| n.id.as_str()).collect();
    assert_eq!(ids, vec!["A"]);
    assert_eq!(walked.edges.len(), 1);
}

#[test]
fn init_databases_changes_nothing() {
    let mut doc = MadDocument::new("t", "a", 1);
    doc.add_content("text/plain", b"x", "x");
    let before = doc.calculate_content_hash();
    doc.init_databases();
    let after = doc.calculate_content_hash();
    assert_eq!(before, after);
}

#[test]
fn vector_entries_keep_the_submitted_bits() {
    let mut doc = MadDocument::new("t", "a", 0);
    let bits: Vec<u32> = vec![1.0f32.to_bits(), 0.0f32.to_bits()];
    doc.add_vector_embedding("v1", "first", bits.clone());
    let stored = doc.vectors();
    assert_eq!(stored.len(), 1);
    assert_eq!(stored[0].id, "v1");
    assert_eq!(stored[0].content, "first");
    assert_eq!(stored[0].embedding, bits);
}
