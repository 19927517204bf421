use fukurow::model::Triple;
use fukurow::rdf_store::RdfStore;
use fukurow::lite::OwlError;
use fukurow::lite::model::{Ontology, Class, Property, Individual, Axiom, OwlIri};
use fukurow::lite::loader::{DefaultOntologyLoader, OntologyLoader};
use fukurow::lite::reasoner::OwlLiteReasoner;

fn t(s: &str, p: &str, o: &str) -> Triple {
    Triple { subject: s.to_string(), predicate: p.to_string(), object: o.to_string() }
}

fn load_ontology_from_triples(triples: Vec<Triple>) -> Result<Ontology, OwlError> {
    let mut store = RdfStore::new();
    for triple in triples {
        store.insert(triple);
    }
    let loader = DefaultOntologyLoader;
    loader.load_from_store(&store)
}

const RDF_TYPE: &str = "http://www.w3.org/1999/02/22-rdf-syntax-ns#type";
const OWL_CLASS: &str = "http://www.w3.org/2002/07/owl#Class";
const OWL_OBJECT_PROPERTY: &str = "http://www.w3.org/2002/07/owl#ObjectProperty";
const OWL_DATATYPE_PROPERTY: &str = "http://www.w3.org/2002/07/owl#DatatypeProperty";
const OWL_NAMED_INDIVIDUAL: &str = "http://www.w3.org/2002/07/owl#NamedIndividual";
const RDFS_SUBCLASS_OF: &str = "http://www.w3.org/2000/01/rdf-schema#subClassOf";

fn named(iri: &str) -> Class {
    Class::Named(OwlIri::new(iri.to_string()))
}

fn create_test_triples() -> Vec<Triple> {
    vec![
        t("http://example.org/Person", RDF_TYPE, OWL_CLASS),
        t("http://example.org/Animal", RDF_TYPE, OWL_CLASS),
        t("http://example.org/hasParent", RDF_TYPE, OWL_OBJECT_PROPERTY),
        t("http://example.org/hasAge", RDF_TYPE, OWL_DATATYPE_PROPERTY),
        t("http://example.org/john", RDF_TYPE, OWL_NAMED_INDIVIDUAL),
        t("http://example.org/mary", RDF_TYPE, OWL_NAMED_INDIVIDUAL),
        t("http://example.org/john", RDF_TYPE, "http://example.org/Person"),
        t("http://example.org/mary", RDF_TYPE, "http://example.org/Person"),
        t("http://example.org/Student", RDFS_SUBCLASS_OF, "http://example.org/Person"),
    ]
}

fn create_test_store() -> RdfStore {
    let mut store = RdfStore::new();
    let triples = vec![
        t("http://example.org/Person", RDF_TYPE, OWL_CLASS),
        t("http://example.org/Animal", RDF_TYPE, OWL_CLASS),
        t("http://example.org/Student", RDF_TYPE, OWL_CLASS),
        t("http://example.org/Person", RDFS_SUBCLASS_OF, "http://example.org/Animal"),
        t("http://example.org/Student", RDFS_SUBCLASS_OF, "http://example.org/Person"),
    ];
    for triple in triples {
        store.insert(triple);
    }
    store
}

fn supers_of<'a>(hierarchy: &'a Vec<(Class, Vec<Class>)>, class: &Class) -> Option<&'a Vec<Class>> {
    hierarchy.iter().find(|(k, _)| k == class).map(|(_, v)| v)
}

#[test]
fn test_load_empty_ontology() {
    let triples = Vec::new();
    let ontology = load_ontology_from_triples(triples).unwrap();
    assert!(ontology.classes.is_empty());
    assert!(ontology.properties.is_empty());
    assert!(ontology.individuals.is_empty());
    assert!(ontology.axioms.is_empty());
}

#[test]
fn test_load_classes() {
    let triples = vec![
        t("http://example.org/Person", RDF_TYPE, OWL_CLASS),
        t("http://example.org/Animal", RDF_TYPE, OWL_CLASS),
    ];
    let ontology = load_ontology_from_triples(triples).unwrap();
    assert_eq!(ontology.classes.len(), 2);
    assert!(ontology.classes.contains(&named("http://example.org/Person")));
    assert!(ontology.classes.contains(&named("http://example.org/Animal")));
}

#[test]
fn test_load_properties() {
    let triples = vec![
        t("http://example.org/hasParent", RDF_TYPE, OWL_OBJECT_PROPERTY),
        t("http://example.org/hasAge", RDF_TYPE, OWL_DATATYPE_PROPERTY),
    ];
    let ontology = load_ontology_from_triples(triples).unwrap();
    assert_eq!(ontology.properties.len(), 2);
    assert!(ontology.properties.contains(&Property::Object(OwlIri::new("http://example.org/hasParent".to_string()))));
    assert!(ontology.properties.contains(&Property::Data(OwlIri::new("http://example.org/hasAge".to_string()))));
}

#[test]
fn test_load_individuals() {
    let triples = vec![
        t("http://example.org/john", RDF_TYPE, OWL_NAMED_INDIVIDUAL),
        t("http://example.org/mary", RDF_TYPE, OWL_NAMED_INDIVIDUAL),
    ];
    let ontology = load_ontology_from_triples(triples).unwrap();
    assert_eq!(ontology.individuals.len(), 2);
    assert!(ontology.individuals.contains(&Individual(OwlIri::new("http://example.org/john".to_string()))));
    assert!(ontology.individuals.contains(&Individual(OwlIri::new("http://example.org/mary".to_string()))));
}

#[test]
fn test_load_class_assertions() {
    let triples = vec![
        t("http://example.org/john", RDF_TYPE, OWL_NAMED_INDIVIDUAL),
        t("http://example.org/Person", RDF_TYPE, OWL_CLASS),
        t("http://example.org/john", RDF_TYPE, "http://example.org/Person"),
    ];
    let ontology = load_ontology_from_triples(triples).unwrap();
    assert_eq!(ontology.classes.len(), 1);
    assert_eq!(ontology.individuals.len(), 1);
    assert_eq!(ontology.axioms.len(), 1);
    match &ontology.axioms[0] {
        Axiom::ClassAssertion(class, individual) => {
            assert_eq!(*class, named("http://example.org/Person"));
            assert_eq!(*individual, Individual(OwlIri::new("http://example.org/john".to_string())));
        }
        _ => panic!("Expected ClassAssertion axiom"),
    }
}

#[test]
fn test_load_subclass_relation() {
    let triples = vec![
        t("http://example.org/Person", RDF_TYPE, OWL_CLASS),
        t("http://example.org/Student", RDF_TYPE, OWL_CLASS),
        t("http://example.org/Student", RDFS_SUBCLASS_OF, "http://example.org/Person"),
    ];
    let ontology = load_ontology_from_triples(triples).unwrap();
    assert_eq!(ontology.classes.len(), 2);
    assert_eq!(ontology.axioms.len(), 1);
    match &ontology.axioms[0] {
        Axiom::SubClassOf(subclass, superclass) => {
            assert_eq!(*subclass, named("http://example.org/Student"));
            assert_eq!(*superclass, named("http://example.org/Person"));
        }
        _ => panic!("Expected SubClassOf axiom"),
    }
}

#[test]
fn test_load_complex_ontology() {
    let triples = create_test_triples();
    let ontology = load_ontology_from_triples(triples).unwrap();
    assert_eq!(ontology.classes.len(), 3);
    assert_eq!(ontology.properties.len(), 2);
    assert_eq!(ontology.individuals.len(), 2);
    assert_eq!(ontology.axioms.len(), 3);
}

#[test]
fn test_reasoner_creation() {
    let _reasoner = OwlLiteReasoner::new();
    assert!(true);
}

#[test]
fn lib_test_consistency_check() {
    let triples = vec![
        t("http://example.org/Person", RDF_TYPE, OWL_CLASS),
        t("http://example.org/john", RDF_TYPE, OWL_NAMED_INDIVIDUAL),
        t("http://example.org/john", RDF_TYPE, "http://example.org/Person"),
    ];
    let ontology = load_ontology_from_triples(triples).unwrap();
    let mut reasoner = OwlLiteReasoner::new();
    let result = reasoner.is_consistent(&ontology);
    assert!(result.unwrap_or(false));
}

#[test]
fn test_class_hierarchy_inference() {
    let triples = vec![
        t("http://example.org/Person", RDF_TYPE, OWL_CLASS),
        t("http://example.org/Student", RDF_TYPE, OWL_CLASS),
        t("http://example.org/Student", RDFS_SUBCLASS_OF, "http://example.org/Person"),
        t("http://example.org/john", RDF_TYPE, OWL_NAMED_INDIVIDUAL),
        t("http://example.org/john", RDF_TYPE, "http://example.org/Student"),
    ];
    let ontology = load_ontology_from_triples(triples).unwrap();
    let mut reasoner = OwlLiteReasoner::new();
    let inferred = reasoner.get_inferred_axioms(&ontology).unwrap();
    let john_person_assertion = inferred.iter().any(|stmt| {
        matches!(stmt, Axiom::ClassAssertion(class, individual)
            if *class == named("http://example.org/Person")
            && *individual == Individual(OwlIri::new("http://example.org/john".to_string())))
    });
    assert!(john_person_assertion, "john should be inferred to be a Person");
}

#[test]
fn test_ontology_creation() {
    let ontology = Ontology::new();
    assert!(ontology.classes.is_empty());
    assert!(ontology.properties.is_empty());
    assert!(ontology.individuals.is_empty());
    assert!(ontology.axioms.is_empty());
}

#[test]
fn test_class_equality() {
    let class1 = named("http://example.org/Person");
    let class2 = named("http://example.org/Person");
    let class3 = named("http://example.org/Animal");
    assert_eq!(class1, class2);
    assert_ne!(class1, class3);
}

#[test]
fn test_individual_equality() {
    let ind1 = Individual(OwlIri::new("http://example.org/john".to_string()));
    let ind2 = Individual(OwlIri::new("http://example.org/john".to_string()));
    let ind3 = Individual(OwlIri::new("http://example.org/mary".to_string()));
    assert_eq!(ind1, ind2);
    assert_ne!(ind1, ind3);
}

#[test]
fn test_property_equality() {
    let prop1 = Property::Object(OwlIri::new("http://example.org/hasParent".to_string()));
    let prop2 = Property::Object(OwlIri::new("http://example.org/hasParent".to_string()));
    let prop3 = Property::Data(OwlIri::new("http://example.org/hasAge".to_string()));
    assert_eq!(prop1, prop2);
    assert_ne!(prop1, prop3);
}

#[test]
fn test_owl_iri_creation() {
    let iri = OwlIri::new("http://example.org/Person".to_string());
    assert_eq!(iri.0, "http://example.org/Person");
}

#[test]
fn test_load_ontology() {
    let store = create_test_store();
    let reasoner = OwlLiteReasoner::new();
    let ontology = reasoner.load_ontology(&store).unwrap();
    assert!(ontology.classes.contains(&named("http://example.org/Person")));
    assert!(ontology.classes.contains(&named("http://example.org/Animal")));
    assert!(ontology.classes.contains(&named("http://example.org/Student")));
    let person_animal = ontology.axioms.iter().any(|stmt| {
        matches!(stmt, Axiom::SubClassOf(Class::Named(p), Class::Named(a))
            if p.0 == "http://example.org/Person" && a.0 == "http://example.org/Animal")
    });
    assert!(person_animal);
    let student_person = ontology.axioms.iter().any(|stmt| {
        matches!(stmt, Axiom::SubClassOf(Class::Named(s), Class::Named(p))
            if s.0 == "http://example.org/Student" && p.0 == "http://example.org/Person")
    });
    assert!(student_person);
}

#[test]
fn reasoner_test_consistency_check() {
    let store = create_test_store();
    let mut reasoner = OwlLiteReasoner::new();
    let ontology = reasoner.load_ontology(&store).unwrap();
    let is_consistent = reasoner.is_consistent(&ontology).unwrap();
    assert!(is_consistent);
}

#[test]
fn test_class_hierarchy() {
    let store = create_test_store();
    let mut reasoner = OwlLiteReasoner::new();
    let ontology = reasoner.load_ontology(&store).unwrap();
    let hierarchy = reasoner.compute_class_hierarchy(&ontology).unwrap();
    let student = named("http://example.org/Student");
    let person = named("http://example.org/Person");
    let animal = named("http://example.org/Animal");
    assert!(supers_of(&hierarchy, &student).unwrap().contains(&person));
    assert!(supers_of(&hierarchy, &student).unwrap().contains(&animal));
    assert!(supers_of(&hierarchy, &person).unwrap().contains(&animal));
}

#[test]
fn test_subsumption_is_transitive_on_store() {
    let store = create_test_store();
    let mut reasoner = OwlLiteReasoner::new();
    let ontology = reasoner.load_ontology(&store).unwrap();
    let student = named("http://example.org/Student");
    let person = named("http://example.org/Person");
    let animal = named("http://example.org/Animal");
    assert!(reasoner.is_subsumed_by(&ontology, &student, &person).unwrap());
    assert!(reasoner.is_subsumed_by(&ontology, &person, &animal).unwrap());
    assert!(reasoner.is_subsumed_by(&ontology, &student, &animal).unwrap());
    assert!(!reasoner.is_subsumed_by(&ontology, &animal, &student).unwrap());
}

#[test]
fn test_sub_and_superclasses_agree() {
    let store = create_test_store();
    let mut reasoner = OwlLiteReasoner::new();
    let ontology = reasoner.load_ontology(&store).unwrap();
    let student = named("http://example.org/Student");
    let animal = named("http://example.org/Animal");
    let supers = reasoner.get_superclasses(&ontology, &student).unwrap();
    let subs = reasoner.get_subclasses(&ontology, &animal).unwrap();
    assert!(supers.contains(&animal));
    assert!(supers.contains(&student));
    assert!(subs.contains(&student));
    assert!(subs.contains(&animal));
    assert_eq!(supers.len(), 3);
    assert_eq!(subs.len(), 3);
}

#[test]
fn test_instance_check_reads_assertions_and_hierarchy() {
    let mut ontology = Ontology::new();
    let john = Individual(OwlIri::new("http://example.org/john".to_string()));
    let mary = Individual(OwlIri::new("http://example.org/mary".to_string()));
    ontology.add_axiom(Axiom::SubClassOf(named("http://example.org/Student"), named("http://example.org/Person")));
    ontology.add_axiom(Axiom::ClassAssertion(named("http://example.org/Student"), john.clone()));
    let mut reasoner = OwlLiteReasoner::new();
    assert_eq!(reasoner.is_instance_of(&ontology, &john, &named("http://example.org/Student")).unwrap(), true);
    assert_eq!(reasoner.is_instance_of(&ontology, &john, &named("http://example.org/Person")).unwrap(), true);
    assert_eq!(reasoner.is_instance_of(&ontology, &john, &named("http://example.org/Animal")).unwrap(), false);
    assert_eq!(reasoner.is_instance_of(&ontology, &mary, &named("http://example.org/Person")).unwrap(), false);
}

#[test]
fn test_subsumption_is_reflexive() {
    let mut ontology = Ontology::new();
    ontology.add_axiom(Axiom::SubClassOf(named("http://example.org/Student"), named("http://example.org/Person")));
    let mut reasoner = OwlLiteReasoner::new();
    let person = named("http://example.org/Person");
    let other = named("http://example.org/Other");
    assert!(reasoner.is_subsumed_by(&ontology, &person, &person).unwrap());
    assert!(reasoner.is_subsumed_by(&ontology, &other, &other).unwrap());
    assert!(!reasoner.is_subsumed_by(&ontology, &person, &named("http://example.org/Student")).unwrap());
}

#[test]
fn test_consistency_depends_on_ontology_alone() {
    let mut bad = Ontology::new();
    let john = Individual(OwlIri::new("http://example.org/john".to_string()));
    bad.add_axiom(Axiom::ClassAssertion(Class::Thing, john.clone()));
    bad.add_axiom(Axiom::ClassAssertion(Class::Nothing, john.clone()));
    let mut reasoner = OwlLiteReasoner::new();
    let first = reasoner.is_consistent(&bad).unwrap();
    assert!(!first);
    let second = reasoner.is_consistent(&Ontology::new()).unwrap();
    assert!(second);
    let mut fresh = OwlLiteReasoner::new();
    assert_eq!(fresh.is_consistent(&bad).unwrap(), first);
}
