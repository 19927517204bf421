use fukurow::model::Triple;
use fukurow::rdf_store::RdfStore;
use fukurow::lite::model::{Class, Individual, OwlIri, Axiom as LiteAxiom};
use fukurow::dl::OwlDlError;
use fukurow::dl::model::{Axiom, ClassExpression, PropertyExpression, OwlDlOntology};
use fukurow::dl::reasoner::OwlDlReasoner;
use fukurow::dl::loader::{DefaultOwlDlOntologyLoader, OwlDlOntologyLoader};
use fukurow::dl::tableau::{DlCompletionGraph, DlTableauReasoner};

const RDF_TYPE: &str = "http://www.w3.org/1999/02/22-rdf-syntax-ns#type";
const RDF_FIRST: &str = "http://www.w3.org/1999/02/22-rdf-syntax-ns#first";
const RDF_REST: &str = "http://www.w3.org/1999/02/22-rdf-syntax-ns#rest";
const RDF_NIL: &str = "http://www.w3.org/1999/02/22-rdf-syntax-ns#nil";
const OWL_CLASS: &str = "http://www.w3.org/2002/07/owl#Class";
const OWL_OBJECT_PROPERTY: &str = "http://www.w3.org/2002/07/owl#ObjectProperty";
const OWL_NAMED_INDIVIDUAL: &str = "http://www.w3.org/2002/07/owl#NamedIndividual";
const OWL_RESTRICTION: &str = "http://www.w3.org/2002/07/owl#Restriction";
const OWL_ON_PROPERTY: &str = "http://www.w3.org/2002/07/owl#onProperty";
const RDFS_SUBCLASS_OF: &str = "http://www.w3.org/2000/01/rdf-schema#subClassOf";

fn t(s: &str, p: &str, o: &str) -> Triple {
    Triple { subject: s.to_string(), predicate: p.to_string(), object: o.to_string() }
}

fn store_of(triples: Vec<Triple>) -> RdfStore {
    let mut store = RdfStore::new();
    for triple in triples {
        store.insert(triple);
    }
    store
}

fn ind(iri: &str) -> Individual {
    Individual(OwlIri::new(iri.to_string()))
}

fn named(iri: &str) -> ClassExpression {
    ClassExpression::Named(OwlIri::new(iri.to_string()))
}

fn has_child() -> PropertyExpression {
    PropertyExpression::ObjectProperty(OwlIri::new("http://example.org/hasChild".to_string()))
}

fn create_test_store() -> RdfStore {
    store_of(vec![
        t("http://example.org/Person", RDF_TYPE, OWL_CLASS),
        t("http://example.org/Animal", RDF_TYPE, OWL_CLASS),
        t("http://example.org/Person", RDFS_SUBCLASS_OF, "http://example.org/Animal"),
        t("http://example.org/john", RDF_TYPE, OWL_NAMED_INDIVIDUAL),
        t("http://example.org/john", RDF_TYPE, "http://example.org/Person"),
    ])
}

#[test]
fn test_load_dl_ontology() {
    let store = create_test_store();
    let reasoner = OwlDlReasoner::new();
    let ontology = reasoner.load_ontology(&store).unwrap();
    assert!(ontology.classes.contains(&Class::Named(OwlIri::new("http://example.org/Person".to_string()))));
    assert!(ontology.individuals.contains(&ind("http://example.org/john")));
    let has_assertion = ontology.axioms.iter().any(|stmt| {
        matches!(stmt, Axiom::OwlLite(LiteAxiom::ClassAssertion(
            Class::Named(iri), Individual(ind_iri)
        )) if iri.0 == "http://example.org/Person" && ind_iri.0 == "http://example.org/john")
    });
    assert!(has_assertion);
}

#[test]
fn test_dl_consistency_check() {
    let store = create_test_store();
    let mut reasoner = OwlDlReasoner::new();
    let ontology = reasoner.load_ontology(&store).unwrap();
    let is_consistent = reasoner.is_consistent(&ontology).unwrap();
    assert!(is_consistent);
}

#[test]
fn test_convert_to_owl_lite() {
    let store = create_test_store();
    let reasoner = OwlDlReasoner::new();
    let dl_ontology = reasoner.load_ontology(&store).unwrap();
    let lite_ontology = reasoner.to_owl_lite(&dl_ontology).unwrap();
    assert_eq!(dl_ontology.classes, lite_ontology.classes);
    assert_eq!(dl_ontology.individuals, lite_ontology.individuals);
}

#[test]
fn test_intersection_of_reasoning() {
    let store = store_of(vec![
        t("http://example.org/Person", RDF_TYPE, OWL_CLASS),
        t("http://example.org/Mammal", RDF_TYPE, OWL_CLASS),
        t("http://example.org/Human", RDF_TYPE, OWL_CLASS),
        t("http://example.org/Human", "http://www.w3.org/2002/07/owl#intersectionOf", "http://example.org/HumanList"),
        t("http://example.org/HumanList", RDF_FIRST, "http://example.org/Person"),
        t("http://example.org/HumanList", RDF_REST, "http://example.org/MammalList"),
        t("http://example.org/MammalList", RDF_FIRST, "http://example.org/Mammal"),
        t("http://example.org/MammalList", RDF_REST, RDF_NIL),
        t("http://example.org/alice", RDF_TYPE, OWL_NAMED_INDIVIDUAL),
        t("http://example.org/alice", RDF_TYPE, "http://example.org/Person"),
        t("http://example.org/alice", RDF_TYPE, "http://example.org/Mammal"),
    ]);
    let mut reasoner = OwlDlReasoner::new();
    let ontology = reasoner.load_ontology(&store).unwrap();
    let alice = ind("http://example.org/alice");
    let human_class = ClassExpression::IntersectionOf(vec![
        named("http://example.org/Person"),
        named("http://example.org/Mammal"),
    ]);
    let is_instance = reasoner.is_instance_of(&ontology, &alice, &human_class).unwrap();
    assert!(is_instance, "Alice should be an instance of Person and Mammal");
}

#[test]
fn test_union_of_reasoning() {
    let store = store_of(vec![
        t("http://example.org/Student", RDF_TYPE, OWL_CLASS),
        t("http://example.org/Employee", RDF_TYPE, OWL_CLASS),
        t("http://example.org/Person", RDF_TYPE, OWL_CLASS),
        t("http://example.org/Person", "http://www.w3.org/2002/07/owl#unionOf", "http://example.org/PersonList"),
        t("http://example.org/PersonList", RDF_FIRST, "http://example.org/Student"),
        t("http://example.org/PersonList", RDF_REST, "http://example.org/EmployeeList"),
        t("http://example.org/EmployeeList", RDF_FIRST, "http://example.org/Employee"),
        t("http://example.org/EmployeeList", RDF_REST, RDF_NIL),
        t("http://example.org/bob", RDF_TYPE, OWL_NAMED_INDIVIDUAL),
        t("http://example.org/bob", RDF_TYPE, "http://example.org/Student"),
    ]);
    let mut reasoner = OwlDlReasoner::new();
    let ontology = reasoner.load_ontology(&store).unwrap();
    let bob = ind("http://example.org/bob");
    let person_class = ClassExpression::UnionOf(vec![
        named("http://example.org/Student"),
        named("http://example.org/Employee"),
    ]);
    let is_instance = reasoner.is_instance_of(&ontology, &bob, &person_class).unwrap();
    assert!(is_instance, "Bob should be an instance of Student or Employee");
}

#[test]
fn test_complement_of_reasoning() {
    let store = store_of(vec![
        t("http://example.org/Student", RDF_TYPE, OWL_CLASS),
        t("http://example.org/Person", RDF_TYPE, OWL_CLASS),
        t("http://example.org/NonStudent", RDF_TYPE, OWL_CLASS),
        t("http://example.org/NonStudent", "http://www.w3.org/2002/07/owl#complementOf", "http://example.org/Student"),
        t("http://example.org/charlie", RDF_TYPE, OWL_NAMED_INDIVIDUAL),
        t("http://example.org/charlie", RDF_TYPE, "http://example.org/Person"),
    ]);
    let mut reasoner = OwlDlReasoner::new();
    let ontology = reasoner.load_ontology(&store).unwrap();
    let charlie = ind("http://example.org/charlie");
    let non_student_class = ClassExpression::ComplementOf(Box::new(named("http://example.org/Student")));
    let is_instance = reasoner.is_instance_of(&ontology, &charlie, &non_student_class).unwrap();
    assert!(is_instance, "Charlie should be an instance of not Student");
}

#[test]
fn test_some_values_from_reasoning() {
    let store = store_of(vec![
        t("http://example.org/Person", RDF_TYPE, OWL_CLASS),
        t("http://example.org/hasChild", RDF_TYPE, OWL_OBJECT_PROPERTY),
        t("http://example.org/Parent", RDF_TYPE, OWL_RESTRICTION),
        t("http://example.org/Parent", OWL_ON_PROPERTY, "http://example.org/hasChild"),
        t("http://example.org/Parent", "http://www.w3.org/2002/07/owl#someValuesFrom", "http://example.org/Person"),
        t("http://example.org/david", RDF_TYPE, OWL_NAMED_INDIVIDUAL),
        t("http://example.org/david", "http://example.org/hasChild", "http://example.org/emma"),
        t("http://example.org/emma", RDF_TYPE, OWL_NAMED_INDIVIDUAL),
        t("http://example.org/emma", RDF_TYPE, "http://example.org/Person"),
    ]);
    let mut reasoner = OwlDlReasoner::new();
    let ontology = reasoner.load_ontology(&store).unwrap();
    let david = ind("http://example.org/david");
    let parent_class = ClassExpression::SomeValuesFrom {
        property: has_child(),
        class: Box::new(named("http://example.org/Person")),
    };
    let is_instance = reasoner.is_instance_of(&ontology, &david, &parent_class).unwrap();
    assert!(is_instance, "David should be an instance of hasChild some Person");
}

#[test]
fn test_all_values_from_reasoning() {
    let store = store_of(vec![
        t("http://example.org/Person", RDF_TYPE, OWL_CLASS),
        t("http://example.org/hasChild", RDF_TYPE, OWL_OBJECT_PROPERTY),
        t("http://example.org/GoodParent", RDF_TYPE, OWL_RESTRICTION),
        t("http://example.org/GoodParent", OWL_ON_PROPERTY, "http://example.org/hasChild"),
        t("http://example.org/GoodParent", "http://www.w3.org/2002/07/owl#allValuesFrom", "http://example.org/Person"),
        t("http://example.org/eve", RDF_TYPE, OWL_NAMED_INDIVIDUAL),
        t("http://example.org/eve", "http://example.org/hasChild", "http://example.org/fiona"),
        t("http://example.org/fiona", RDF_TYPE, OWL_NAMED_INDIVIDUAL),
        t("http://example.org/fiona", RDF_TYPE, "http://example.org/Person"),
    ]);
    let mut reasoner = OwlDlReasoner::new();
    let ontology = reasoner.load_ontology(&store).unwrap();
    let eve = ind("http://example.org/eve");
    let good_parent_class = ClassExpression::AllValuesFrom {
        property: has_child(),
        class: Box::new(named("http://example.org/Person")),
    };
    let is_instance = reasoner.is_instance_of(&ontology, &eve, &good_parent_class).unwrap();
    assert!(is_instance, "Eve should be an instance of hasChild only Person");
}

#[test]
fn test_has_value_reasoning() {
    let store = store_of(vec![
        t("http://example.org/hasChild", RDF_TYPE, OWL_OBJECT_PROPERTY),
        t("http://example.org/JohnsParent", RDF_TYPE, OWL_RESTRICTION),
        t("http://example.org/JohnsParent", OWL_ON_PROPERTY, "http://example.org/hasChild"),
        t("http://example.org/JohnsParent", "http://www.w3.org/2002/07/owl#hasValue", "http://example.org/john"),
        t("http://example.org/mary", RDF_TYPE, OWL_NAMED_INDIVIDUAL),
        t("http://example.org/mary", "http://example.org/hasChild", "http://example.org/john"),
        t("http://example.org/john", RDF_TYPE, OWL_NAMED_INDIVIDUAL),
    ]);
    let mut reasoner = OwlDlReasoner::new();
    let ontology = reasoner.load_ontology(&store).unwrap();
    let mary = ind("http://example.org/mary");
    let johns_parent_class = ClassExpression::HasValue {
        property: has_child(),
        individual: ind("http://example.org/john"),
    };
    let is_instance = reasoner.is_instance_of(&ontology, &mary, &johns_parent_class).unwrap();
    assert!(is_instance, "Mary should be an instance of hasChild value john");
}

#[test]
fn test_cardinality_restrictions() {
    let store = store_of(vec![
        t("http://example.org/hasChild", RDF_TYPE, OWL_OBJECT_PROPERTY),
        t("http://example.org/MultiChildParent", RDF_TYPE, OWL_RESTRICTION),
        t("http://example.org/MultiChildParent", OWL_ON_PROPERTY, "http://example.org/hasChild"),
        t("http://example.org/MultiChildParent", "http://www.w3.org/2002/07/owl#minCardinality", "2"),
        t("http://example.org/george", RDF_TYPE, OWL_NAMED_INDIVIDUAL),
        t("http://example.org/george", "http://example.org/hasChild", "http://example.org/harry"),
        t("http://example.org/george", "http://example.org/hasChild", "http://example.org/ian"),
        t("http://example.org/harry", RDF_TYPE, OWL_NAMED_INDIVIDUAL),
        t("http://example.org/ian", RDF_TYPE, OWL_NAMED_INDIVIDUAL),
    ]);
    let mut reasoner = OwlDlReasoner::new();
    let ontology = reasoner.load_ontology(&store).unwrap();
    let george = ind("http://example.org/george");
    let multi_child_parent_class = ClassExpression::MinCardinality {
        cardinality: 2,
        property: has_child(),
        class: None,
    };
    let is_instance = reasoner.is_instance_of(&ontology, &george, &multi_child_parent_class).unwrap();
    assert!(is_instance, "George should be an instance of at least two hasChild");
}

fn stated_children_ontology() -> OwlDlOntology {
    let mut ontology = OwlDlOntology::new();
    ontology.add_axiom(Axiom::ObjectPropertyAssertion(has_child(), ind("http://example.org/g"), ind("http://example.org/h")));
    ontology.add_axiom(Axiom::ObjectPropertyAssertion(has_child(), ind("http://example.org/g"), ind("http://example.org/i")));
    ontology.add_axiom(Axiom::OwlLite(LiteAxiom::ClassAssertion(Class::Named(OwlIri::new("http://example.org/Person".to_string())), ind("http://example.org/h"))));
    ontology
}

#[test]
fn test_cardinality_counts_exactly() {
    let ontology = stated_children_ontology();
    let mut reasoner = OwlDlReasoner::new();
    let g = ind("http://example.org/g");
    let at_most_one = ClassExpression::MaxCardinality { cardinality: 1, property: has_child(), class: None };
    assert!(!reasoner.is_instance_of(&ontology, &g, &at_most_one).unwrap());
    let exactly_two = ClassExpression::ExactCardinality { cardinality: 2, property: has_child(), class: None };
    assert!(reasoner.is_instance_of(&ontology, &g, &exactly_two).unwrap());
    let one_person = ClassExpression::ExactCardinality {
        cardinality: 1,
        property: has_child(),
        class: Some(Box::new(named("http://example.org/Person"))),
    };
    assert!(reasoner.is_instance_of(&ontology, &g, &one_person).unwrap());
    let all_persons = ClassExpression::AllValuesFrom { property: has_child(), class: Box::new(named("http://example.org/Person")) };
    assert!(!reasoner.is_instance_of(&ontology, &g, &all_persons).unwrap());
}

#[test]
fn test_complement_of_complement() {
    let ontology = stated_children_ontology();
    let mut reasoner = OwlDlReasoner::new();
    let h = ind("http://example.org/h");
    let i = ind("http://example.org/i");
    let twice = ClassExpression::ComplementOf(Box::new(ClassExpression::ComplementOf(Box::new(named("http://example.org/Person")))));
    assert!(reasoner.is_instance_of(&ontology, &h, &twice).unwrap());
    assert!(!reasoner.is_instance_of(&ontology, &i, &twice).unwrap());
    assert!(reasoner.is_instance_of(&ontology, &i, &ClassExpression::Thing).unwrap());
    assert!(!reasoner.is_instance_of(&ontology, &i, &ClassExpression::Nothing).unwrap());
}

#[test]
fn test_named_membership_reads_lite_assertions_only() {
    let mut ontology = OwlDlOntology::new();
    ontology.add_axiom(Axiom::ClassAssertion(named("http://example.org/Person"), ind("http://example.org/k")));
    let mut reasoner = OwlDlReasoner::new();
    assert!(!reasoner.is_instance_of(&ontology, &ind("http://example.org/k"), &named("http://example.org/Person")).unwrap());
}

#[test]
fn test_unsupported_subsumption() {
    let ontology = OwlDlOntology::new();
    let mut reasoner = OwlDlReasoner::new();
    match reasoner.is_subsumed_by(&ontology, &named("http://example.org/A"), &named("http://example.org/B")) {
        Err(OwlDlError::UnsupportedFeature(m)) => assert_eq!(m, "Complex class expression subsumption not yet implemented"),
        _ => panic!("Expected UnsupportedFeature"),
    }
}

#[test]
fn test_same_and_different_clash() {
    let mut ontology = OwlDlOntology::new();
    ontology.add_axiom(Axiom::SameIndividual(vec![ind("http://example.org/a"), ind("http://example.org/b")]));
    let mut reasoner = DlTableauReasoner::new();
    assert!(reasoner.is_consistent(&ontology).unwrap());
    ontology.add_axiom(Axiom::DifferentIndividuals(vec![ind("http://example.org/a"), ind("http://example.org/b")]));
    let mut reasoner = DlTableauReasoner::new();
    assert!(!reasoner.is_consistent(&ontology).unwrap());
}

#[test]
fn test_thing_and_nothing_clash() {
    let mut ontology = OwlDlOntology::new();
    ontology.add_axiom(Axiom::ClassAssertion(ClassExpression::IntersectionOf(vec![ClassExpression::Thing, ClassExpression::Nothing]), ind("http://example.org/x")));
    let mut reasoner = DlTableauReasoner::new();
    assert!(!reasoner.is_consistent(&ontology).unwrap());
}

#[test]
fn test_existential_creates_successor() {
    let mut ontology = OwlDlOntology::new();
    ontology.add_axiom(Axiom::ClassAssertion(
        ClassExpression::SomeValuesFrom { property: has_child(), class: Box::new(ClassExpression::Nothing) },
        ind("http://example.org/x"),
    ));
    ontology.add_axiom(Axiom::ClassAssertion(ClassExpression::Thing, ind("anon_http://example.org/x")));
    let mut reasoner = DlTableauReasoner::new();
    assert!(!reasoner.is_consistent(&ontology).unwrap());
}

#[test]
fn test_same_individuals_are_symmetric_and_transitive() {
    let mut g = DlCompletionGraph::new();
    let a = ind("http://example.org/a");
    let b = ind("http://example.org/b");
    let c = ind("http://example.org/c");
    g.add_same_individual(a.clone(), b.clone());
    g.add_same_individual(c.clone(), b.clone());
    assert!(g.are_same_individual(&a, &b));
    assert!(g.are_same_individual(&b, &a));
    assert!(g.are_same_individual(&a, &c));
    assert!(g.are_same_individual(&c, &a));
    assert!(!g.are_same_individual(&a, &ind("http://example.org/d")));
    g.add_different_individuals(a.clone(), ind("http://example.org/d"));
    assert!(g.are_different_individuals(&a, &ind("http://example.org/d")));
    assert!(g.are_different_individuals(&ind("http://example.org/d"), &a));
    assert!(!g.are_different_individuals(&a, &b));
}

#[test]
fn test_merging_two_classes() {
    let mut g = DlCompletionGraph::new();
    let a = ind("http://example.org/a");
    let b = ind("http://example.org/b");
    let c = ind("http://example.org/c");
    let d = ind("http://example.org/d");
    g.add_same_individual(c.clone(), d.clone());
    g.add_same_individual(a.clone(), b.clone());
    g.add_same_individual(b.clone(), c.clone());
    assert!(g.are_same_individual(&a, &d));
    assert!(g.are_same_individual(&d, &a));
}

#[test]
fn test_same_individual_closure_keeps_chains_apart() {
    let mut g = DlCompletionGraph::new();
    let a = ind("http://example.org/a");
    let b = ind("http://example.org/b");
    let c = ind("http://example.org/c");
    let x = ind("http://example.org/x");
    let y = ind("http://example.org/y");
    g.add_same_individual(a.clone(), b.clone());
    g.add_same_individual(x.clone(), y.clone());
    assert!(g.are_same_individual(&a, &b));
    assert!(g.are_same_individual(&y, &x));
    assert!(!g.are_same_individual(&a, &x));
    assert!(!g.are_same_individual(&b, &y));
    g.add_same_individual(b.clone(), c.clone());
    assert!(g.are_same_individual(&a, &c));
    assert!(!g.are_same_individual(&c, &x));
    g.add_same_individual(y.clone(), c.clone());
    assert!(g.are_same_individual(&a, &x));
    assert!(g.are_same_individual(&x, &b));
}

#[test]
fn test_label_read_after_write() {
    let mut g = DlCompletionGraph::new();
    let a = ind("http://example.org/a");
    assert!(!g.has_label(&a, &named("http://example.org/P")));
    assert!(g.add_label(&a, named("http://example.org/P")));
    assert!(g.has_label(&a, &named("http://example.org/P")));
    assert!(!g.add_label(&a, named("http://example.org/P")));
    g.add_property_assertion(&a, has_child(), &ind("http://example.org/b"));
    let successors = g.get_property_successors(&a, &has_child());
    assert_eq!(successors.len(), 1);
    assert_eq!(successors[0], ind("http://example.org/b"));
}

#[test]
fn test_complement_clash_is_inconsistent() {
    let x = ind("http://example.org/x");
    let c = named("http://example.org/C");
    let mut ontology = OwlDlOntology::new();
    ontology.add_axiom(Axiom::ClassAssertion(c.clone(), x.clone()));
    ontology.add_axiom(Axiom::ClassAssertion(ClassExpression::ComplementOf(Box::new(c)), x));
    let mut tableau = DlTableauReasoner::new();
    assert_eq!(tableau.is_consistent(&ontology).unwrap(), false);
}

#[test]
fn test_dl_verdict_depends_on_ontology_alone() {
    let a = ind("http://example.org/a");
    let b = ind("http://example.org/b");
    let mut clashing = OwlDlOntology::new();
    clashing.add_axiom(Axiom::SameIndividual(vec![a.clone(), b.clone()]));
    clashing.add_axiom(Axiom::DifferentIndividuals(vec![a, b]));
    let mut tableau = DlTableauReasoner::new();
    assert_eq!(tableau.is_consistent(&clashing).unwrap(), false);
    assert_eq!(tableau.is_consistent(&OwlDlOntology::new()).unwrap(), true);
    assert_eq!(tableau.is_consistent(&clashing).unwrap(), false);
}

#[test]
fn test_restriction_without_on_property_is_a_loader_error() {
    let store = store_of(vec![
        t("http://example.org/R", RDF_TYPE, OWL_RESTRICTION),
        t("http://example.org/R", "http://www.w3.org/2002/07/owl#someValuesFrom", "http://example.org/Person"),
    ]);
    let loader = DefaultOwlDlOntologyLoader::new();
    match loader.load_from_store(&store) {
        Err(OwlDlError::LoaderError(m)) => assert_eq!(m, "No onProperty found for restriction http://example.org/R"),
        other => panic!("unexpected result {:?}", other),
    }
}

#[test]
fn test_loaded_intersection_is_recorded() {
    let store = store_of(vec![
        t("http://example.org/Human", "http://www.w3.org/2002/07/owl#intersectionOf", "http://example.org/L1"),
        t("http://example.org/L1", RDF_FIRST, "http://example.org/Person"),
        t("http://example.org/L1", RDF_REST, "http://example.org/L2"),
        t("http://example.org/L2", RDF_FIRST, "http://example.org/Mammal"),
        t("http://example.org/L2", RDF_REST, RDF_NIL),
    ]);
    let loader = DefaultOwlDlOntologyLoader::new();
    let ontology = loader.load_from_store(&store).unwrap();
    let found = ontology.class_expressions.iter().any(|e| match e {
        ClassExpression::IntersectionOf(parts) => parts.len() == 2 && format!("{:?}", parts[0]).contains("Person")
            && format!("{:?}", parts[1]).contains("Mammal"),
        _ => false,
    });
    assert!(found);
}
