use fukurow::model::{InternedString, Triple, InternedTriple};
use fukurow::store::GraphStore;

fn t(s: &str, p: &str, o: &str) -> Triple {
    Triple { subject: s.to_string(), predicate: p.to_string(), object: o.to_string() }
}

#[test]
fn test_interned_string_new() {
    let s1 = InternedString::new("test");
    let s2 = InternedString::new("test");
    assert_eq!(s1.as_str(), "test");
    assert_eq!(s2.as_str(), "test");
    assert_eq!(s1, s2);
}

#[test]
fn test_interned_string_len() {
    let s = InternedString::new("hello");
    assert_eq!(s.len(), 5);
}

#[test]
fn test_interned_string_is_empty() {
    let s1 = InternedString::new("");
    let s2 = InternedString::new("not empty");
    assert!(s1.is_empty());
    assert!(!s2.is_empty());
}

#[test]
fn test_interned_string_from_string() {
    let s: InternedString = "test".to_string().into();
    assert_eq!(s.as_str(), "test");
}

#[test]
fn test_interned_string_from_str() {
    let s: InternedString = "test".into();
    assert_eq!(s.as_str(), "test");
}

#[test]
fn test_interned_string_from_string_ref() {
    let string = "test".to_string();
    let s: InternedString = (&string).into();
    assert_eq!(s.as_str(), "test");
}

#[test]
fn test_interned_string_display() {
    let s = InternedString::new("test");
    assert_eq!(s.to_string(), "test");
}

#[test]
fn test_interned_string_as_ref() {
    let s = InternedString::new("test");
    let str_ref: &str = s.as_ref();
    assert_eq!(str_ref, "test");
}

#[test]
fn test_triple_creation() {
    let triple = t("subject", "predicate", "object");
    assert_eq!(triple.subject, "subject");
    assert_eq!(triple.predicate, "predicate");
    assert_eq!(triple.object, "object");
}

#[test]
fn test_triple_equality() {
    let triple1 = t("s", "p", "o");
    let triple2 = t("s", "p", "o");
    let triple3 = t("s", "p", "different");
    assert_eq!(triple1, triple2);
    assert_ne!(triple1, triple3);
}

#[test]
fn test_interned_triple_new() {
    let triple = InternedTriple::new("subject", "predicate", "object");
    assert_eq!(triple.subject.as_str(), "subject");
    assert_eq!(triple.predicate.as_str(), "predicate");
    assert_eq!(triple.object.as_str(), "object");
}

#[test]
fn test_interned_triple_to_triple() {
    let interned = InternedTriple::new("s", "p", "o");
    let triple = interned.to_triple();
    assert_eq!(triple.subject, "s");
    assert_eq!(triple.predicate, "p");
    assert_eq!(triple.object, "o");
}

#[test]
fn test_interned_triple_from_triple() {
    let triple = t("subject", "predicate", "object");
    let interned = InternedTriple::from_triple(&triple);
    assert_eq!(interned.subject.as_str(), "subject");
    assert_eq!(interned.predicate.as_str(), "predicate");
    assert_eq!(interned.object.as_str(), "object");
}

#[test]
fn test_interned_triple_equality() {
    let triple1 = InternedTriple::new("s", "p", "o");
    let triple2 = InternedTriple::new("s", "p", "o");
    let triple3 = InternedTriple::new("s", "p", "different");
    assert_eq!(triple1, triple2);
    assert_ne!(triple1, triple3);
}

#[test]
fn test_interned_round_trip() {
    let triple = t("a", "b", "c");
    let back = InternedTriple::from_triple(&triple).to_triple();
    assert_eq!(back, triple);
}

#[test]
fn test_graph_store_new() {
    let store = GraphStore::new();
    assert_eq!(store.graph_names().len(), 0);
    assert_eq!(store.get_default_graph().triples.len(), 0);
}

#[test]
fn test_add_triple_to_default() {
    let mut store = GraphStore::new();
    let triple = t("subject", "predicate", "object");
    store.add_triple(triple.clone());
    assert_eq!(store.get_default_graph().triples.len(), 1);
    assert_eq!(store.get_default_graph().triples[0], triple);
}

#[test]
fn test_add_triple_to_named_graph() {
    let mut store = GraphStore::new();
    let triple = t("subject", "predicate", "object");
    store.add_triple_to_graph("test_graph", triple.clone());
    let graph = store.get_graph("test_graph").unwrap();
    assert_eq!(graph.triples.len(), 1);
    assert_eq!(graph.triples[0], triple);
    assert_eq!(graph.name, "test_graph");
}

#[test]
fn test_add_triples_to_graph() {
    let mut store = GraphStore::new();
    let triples = vec![t("s1", "p1", "o1"), t("s2", "p2", "o2")];
    store.add_triples_to_graph("test_graph", triples.clone());
    let graph = store.get_graph("test_graph").unwrap();
    assert_eq!(graph.triples.len(), 2);
    assert_eq!(graph.triples, triples);
}

#[test]
fn test_graph_names() {
    let mut store = GraphStore::new();
    store.add_triple_to_graph("graph1", t("s1", "p1", "o1"));
    store.add_triple_to_graph("graph2", t("s2", "p2", "o2"));
    let names = store.graph_names();
    assert_eq!(names.len(), 2);
    assert!(names.contains(&"graph1".to_string()));
    assert!(names.contains(&"graph2".to_string()));
}

#[test]
fn test_find_triples_exact_match() {
    let mut store = GraphStore::new();
    let triple1 = t("subject1", "predicate1", "object1");
    let triple2 = t("subject2", "predicate2", "object2");
    store.add_triple(triple1.clone());
    store.add_triple_to_graph("named", triple2.clone());
    let results = store.find_triples(Some("subject1"), Some("predicate1"), Some("object1"));
    assert_eq!(results.len(), 1);
    assert_eq!(results[0], &triple1);
}

#[test]
fn test_find_triples_partial_match() {
    let mut store = GraphStore::new();
    let triple1 = t("subject1", "predicate1", "object1");
    let triple2 = t("subject1", "predicate2", "object2");
    store.add_triple(triple1.clone());
    store.add_triple(triple2.clone());
    let results = store.find_triples(Some("subject1"), None, None);
    assert_eq!(results.len(), 2);
    assert!(results.contains(&&triple1));
    assert!(results.contains(&&triple2));
}

#[test]
fn test_find_triples_no_match() {
    let mut store = GraphStore::new();
    store.add_triple(t("subject1", "predicate1", "object1"));
    let results = store.find_triples(Some("nonexistent"), None, None);
    assert_eq!(results.len(), 0);
}

#[test]
fn test_find_after_add_keeps_order() {
    let mut store = GraphStore::new();
    store.add_triple(t("a", "p", "1"));
    store.add_triple(t("b", "p", "2"));
    store.add_triple(t("a", "q", "3"));
    let results = store.find_triples(None, Some("p"), None);
    assert_eq!(results.len(), 2);
    assert_eq!(results[0], &t("a", "p", "1"));
    assert_eq!(results[1], &t("b", "p", "2"));
    let by_object = store.find_triples(None, None, Some("3"));
    assert_eq!(by_object, vec![&t("a", "q", "3")]);
    let subject_and_object = store.find_triples(Some("a"), None, Some("3"));
    assert_eq!(subject_and_object.len(), 1);
    assert_eq!(store.find_triples(None, None, None).len(), 3);
}

#[test]
fn test_to_jsonld() {
    let mut store = GraphStore::new();
    store.add_triple(t("s1", "p1", "o1"));
    store.add_triple_to_graph("named", t("s2", "p2", "o2"));
    let jsonld = store.to_jsonld().unwrap();
    assert!(jsonld.graph.is_some());
    assert_eq!(jsonld.graph.as_ref().unwrap().len(), 2);
}

#[test]
fn test_clear() {
    let mut store = GraphStore::new();
    store.add_triple(t("s1", "p1", "o1"));
    store.add_triple_to_graph("named", t("s2", "p2", "o2"));
    assert_eq!(store.get_default_graph().triples.len(), 1);
    assert!(store.get_graph("named").is_some());
    store.clear();
    assert_eq!(store.get_default_graph().triples.len(), 0);
    assert!(store.get_graph("named").is_none());
    assert_eq!(store.graph_names().len(), 0);
}

#[test]
fn test_graph_store_to_jsonld() {
    let mut store = GraphStore::new();
    store.add_triple(t("s1", "p1", "o1"));
    let jsonld = store.to_jsonld().unwrap();
    assert!(jsonld.graph.is_some());
    assert_eq!(jsonld.graph.as_ref().unwrap().len(), 1);
}
