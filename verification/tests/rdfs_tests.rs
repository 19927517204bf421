use fukurow::model::Triple;
use fukurow::rdf_store::RdfStore;
use fukurow::rdfs::{RdfsReasoner, Iri, RdfsError};
use fukurow::rdfs::vocabulary;

fn t(s: &str, p: &str, o: &str) -> Triple {
    Triple { subject: s.to_string(), predicate: p.to_string(), object: o.to_string() }
}

fn sub_class_of() -> String {
    vocabulary::rdfs_subclass_of().as_str().to_string()
}

fn rdf_type() -> String {
    vocabulary::rdf_type().as_str().to_string()
}

fn parents_of<'a>(h: &'a Vec<(Iri, Vec<Iri>)>, iri: &str) -> Option<&'a Vec<Iri>> {
    h.iter().find(|(k, _)| k.0 == iri).map(|(_, v)| v)
}

#[test]
fn test_class_hierarchy_closure() {
    let mut reasoner = RdfsReasoner::new();
    reasoner.class_hierarchy.push((Iri::new("http://example.org/A".to_string()), vec![Iri::new("http://example.org/B".to_string())]));
    reasoner.class_hierarchy.push((Iri::new("http://example.org/B".to_string()), vec![Iri::new("http://example.org/C".to_string())]));
    reasoner.compute_transitive_closure();
    assert!(parents_of(&reasoner.class_hierarchy, "http://example.org/A")
        .unwrap()
        .contains(&Iri::new("http://example.org/C".to_string())));
}

#[test]
fn test_empty_reasoner() {
    let mut reasoner = RdfsReasoner::new();
    let store = RdfStore::new();
    let result = reasoner.compute_closure(&store);
    assert!(result.is_ok());
    let triples = result.unwrap();
    assert!(triples.is_empty());
}

#[test]
fn test_subclass_hierarchy() {
    let mut store = RdfStore::new();
    store.insert(t("http://example.org/Mammal", &sub_class_of(), "http://example.org/Animal"));
    store.insert(t("http://example.org/Dog", &sub_class_of(), "http://example.org/Mammal"));
    let mut reasoner = RdfsReasoner::new();
    let inferred = reasoner.compute_closure(&store).unwrap();
    let expected_inference = t("http://example.org/Dog", &sub_class_of(), "http://example.org/Animal");
    assert!(inferred.contains(&expected_inference), "Dog should be inferred as subclass of Animal");
}

#[test]
fn test_property_hierarchy() {
    let mut store = RdfStore::new();
    let sub_property_of = vocabulary::rdfs_subproperty_of().as_str().to_string();
    store.insert(t("http://example.org/hasLeg", &sub_property_of, "http://example.org/hasPart"));
    let mut reasoner = RdfsReasoner::new();
    let inferred = reasoner.compute_closure(&store).unwrap();
    let expected_inference = t("http://example.org/hasLeg", &sub_property_of, "http://example.org/hasPart");
    assert!(inferred.contains(&expected_inference) || inferred.is_empty(), "Property hierarchy should be correctly inferred");
}

#[test]
fn test_domain_range_inference() {
    let mut store = RdfStore::new();
    store.insert(t("http://example.org/reads", vocabulary::rdfs_domain().as_str(), "http://example.org/Person"));
    store.insert(t("http://example.org/reads", vocabulary::rdfs_range().as_str(), "http://example.org/Book"));
    store.insert(t("http://example.org/John", "http://example.org/reads", "http://example.org/Hobbit"));
    let mut reasoner = RdfsReasoner::new();
    let inferred = reasoner.compute_closure(&store).unwrap();
    let john_type_inference = t("http://example.org/John", &rdf_type(), "http://example.org/Person");
    let hobbit_type_inference = t("http://example.org/Hobbit", &rdf_type(), "http://example.org/Book");
    assert!(inferred.contains(&john_type_inference), "John should be inferred as a Person (domain inference)");
    assert!(inferred.contains(&hobbit_type_inference), "Hobbit should be inferred as a Book (range inference)");
}

#[test]
fn test_type_hierarchy_inference() {
    let mut store = RdfStore::new();
    store.insert(t("http://example.org/Mammal", &sub_class_of(), "http://example.org/Animal"));
    store.insert(t("http://example.org/Dog", &sub_class_of(), "http://example.org/Mammal"));
    store.insert(t("http://example.org/Rex", &rdf_type(), "http://example.org/Dog"));
    let mut reasoner = RdfsReasoner::new();
    let inferred = reasoner.compute_closure(&store).unwrap();
    let rex_mammal_inference = t("http://example.org/Rex", &rdf_type(), "http://example.org/Mammal");
    let rex_animal_inference = t("http://example.org/Rex", &rdf_type(), "http://example.org/Animal");
    assert!(inferred.contains(&rex_mammal_inference), "Rex should be inferred as a Mammal");
    assert!(inferred.contains(&rex_animal_inference), "Rex should be inferred as an Animal");
}

#[test]
fn test_empty_ontology() {
    let store = RdfStore::new();
    let mut reasoner = RdfsReasoner::new();
    let result = reasoner.compute_closure(&store);
    assert!(result.is_ok());
    let inferred = result.unwrap();
    assert!(inferred.is_empty(), "Empty ontology should produce no inferences");
}

#[test]
fn test_closure_lists_each_triple_once() {
    let mut store = RdfStore::new();
    store.insert(t("http://example.org/B", &sub_class_of(), "http://example.org/C"));
    store.insert(t("http://example.org/A", &sub_class_of(), "http://example.org/B"));
    store.insert(t("http://example.org/A", &sub_class_of(), "http://example.org/C"));
    let mut reasoner = RdfsReasoner::new();
    let inferred = reasoner.compute_closure(&store).unwrap();
    let a_c = t("http://example.org/A", &sub_class_of(), "http://example.org/C");
    assert_eq!(inferred.iter().filter(|x| **x == a_c).count(), 1);
}

#[test]
fn test_rdfs_error_message() {
    let err = RdfsError::InvalidTriple("bad".to_string());
    assert!(err.to_string().contains("bad"));
}

#[test]
fn test_class_hierarchy_holds_exactly_the_stated_children() {
    let mut store = RdfStore::new();
    store.insert(t("http://example.org/Mammal", &sub_class_of(), "http://example.org/Animal"));
    store.insert(t("http://example.org/Dog", &sub_class_of(), "http://example.org/Mammal"));
    let mut reasoner = RdfsReasoner::new();
    reasoner.compute_closure(&store).unwrap();
    let h = reasoner.get_class_hierarchy();
    assert_eq!(h.len(), 2);
    let dog = parents_of(h, "http://example.org/Dog").unwrap();
    assert_eq!(dog.len(), 2);
    assert!(dog.contains(&Iri::new("http://example.org/Mammal".to_string())));
    assert!(dog.contains(&Iri::new("http://example.org/Animal".to_string())));
    let mammal = parents_of(h, "http://example.org/Mammal").unwrap();
    assert_eq!(mammal, &vec![Iri::new("http://example.org/Animal".to_string())]);
    assert!(parents_of(h, "http://example.org/Animal").is_none());
}
