use fukurow::model::Triple;
use fukurow::rdf_store::RdfStore;
use fukurow::shacl::ShaclError;
use fukurow::shacl::loader::{DefaultShaclLoader, Shape, ShapesGraph, PropertyShape, PropertyPath, PropertyConstraint, NodeShape,
    Target, NodeConstraint};
use fukurow::shacl::validator::{DefaultShaclValidator, ValidationConfig, ValidationMode, ValidationResult, ViolationLevel};

const RDF_TYPE: &str = "http://www.w3.org/1999/02/22-rdf-syntax-ns#type";

fn t(s: &str, p: &str, o: &str) -> Triple {
    Triple { subject: s.to_string(), predicate: p.to_string(), object: o.to_string() }
}

fn store_of(triples: Vec<Triple>) -> RdfStore {
    let mut store = RdfStore::new();
    for triple in triples {
        store.insert(triple);
    }
    store
}

fn create_test_store() -> RdfStore {
    store_of(vec![
        t("http://example.org/John", RDF_TYPE, "http://example.org/Person"),
        t("http://example.org/John", "http://example.org/name", "John Doe"),
    ])
}

fn person_shape(prop: &str, path: &str, constraint: &str, value: &str) -> Vec<Triple> {
    vec![
        t("http://example.org/PersonShape", RDF_TYPE, "http://www.w3.org/ns/shacl#NodeShape"),
        t("http://example.org/PersonShape", "http://www.w3.org/ns/shacl#targetClass", "http://example.org/Person"),
        t("http://example.org/PersonShape", "http://www.w3.org/ns/shacl#property", prop),
        t(prop, "http://www.w3.org/ns/shacl#path", path),
        t(prop, constraint, value),
    ]
}

fn validate(store: &RdfStore) -> fukurow::shacl::validator::ValidationReport {
    let loader = DefaultShaclLoader;
    let validator = DefaultShaclValidator;
    let shapes_graph = loader.load_from_store(store).unwrap();
    let config = ValidationConfig::default();
    let result = validator.validate_graph(&shapes_graph, store, &config);
    assert!(result.is_ok());
    result.unwrap()
}

#[test]
fn test_shacl_loader_basic() {
    let store = create_test_store();
    let loader = DefaultShaclLoader;
    let result = loader.load_from_store(&store);
    assert!(result.is_ok());
    let shapes_graph = result.unwrap();
    assert!(shapes_graph.shapes.is_empty());
}

#[test]
fn test_shacl_validator_basic() {
    let store = create_test_store();
    let report = validate(&store);
    assert!(report.conforms);
    assert!(report.results.is_empty());
}

#[test]
fn test_shacl_with_simple_shapes() {
    let mut triples = vec![
        t("http://example.org/John", RDF_TYPE, "http://example.org/Person"),
        t("http://example.org/John", "http://example.org/name", "John Doe"),
    ];
    triples.extend(person_shape("http://example.org/NameProperty", "http://example.org/name",
        "http://www.w3.org/ns/shacl#datatype", "http://www.w3.org/2001/XMLSchema#string"));
    let store = store_of(triples);
    let report = validate(&store);
    println!("Validation conforms: {}", report.conforms);
    println!("Number of validation results: {}", report.results.len());
}

#[test]
fn test_shacl_datatype_constraint() {
    let mut triples = vec![
        t("http://example.org/John", RDF_TYPE, "http://example.org/Person"),
        t("http://example.org/John", "http://example.org/age", "25"),
    ];
    triples.extend(person_shape("http://example.org/AgeProperty", "http://example.org/age",
        "http://www.w3.org/ns/shacl#datatype", "http://www.w3.org/2001/XMLSchema#integer"));
    let report = validate(&store_of(triples));
    assert!(!report.conforms);
    assert!(!report.results.is_empty());
}

#[test]
fn test_shacl_min_count_constraint() {
    let mut triples = vec![t("http://example.org/Jane", RDF_TYPE, "http://example.org/Person")];
    triples.extend(person_shape("http://example.org/NameProperty", "http://example.org/name",
        "http://www.w3.org/ns/shacl#minCount", "1"));
    let report = validate(&store_of(triples));
    assert!(!report.conforms);
    assert!(!report.results.is_empty());
}

#[test]
fn test_shacl_max_count_constraint() {
    let mut triples = vec![
        t("http://example.org/Bob", RDF_TYPE, "http://example.org/Person"),
        t("http://example.org/Bob", "http://example.org/name", "Bob Smith"),
        t("http://example.org/Bob", "http://example.org/name", "Robert Smith"),
    ];
    triples.extend(person_shape("http://example.org/NameProperty", "http://example.org/name",
        "http://www.w3.org/ns/shacl#maxCount", "1"));
    let report = validate(&store_of(triples));
    assert!(!report.conforms);
    assert!(!report.results.is_empty());
}

#[test]
fn test_shacl_has_value_constraint() {
    let triples = vec![
        t("http://example.org/Alice", RDF_TYPE, "http://example.org/Student"),
        t("http://example.org/StudentShape", RDF_TYPE, "http://www.w3.org/ns/shacl#NodeShape"),
        t("http://example.org/StudentShape", "http://www.w3.org/ns/shacl#targetClass", "http://example.org/Student"),
        t("http://example.org/StudentShape", "http://www.w3.org/ns/shacl#property", "http://example.org/TypeProperty"),
        t("http://example.org/TypeProperty", "http://www.w3.org/ns/shacl#path", RDF_TYPE),
        t("http://example.org/TypeProperty", "http://www.w3.org/ns/shacl#hasValue", "http://example.org/Student"),
    ];
    let report = validate(&store_of(triples));
    assert!(report.conforms);
}

#[test]
fn test_shacl_class_constraint() {
    let mut triples = vec![
        t("http://example.org/Tom", RDF_TYPE, "http://example.org/Person"),
        t("http://example.org/Tom", "http://example.org/manager", "http://example.org/InvalidClass"),
    ];
    triples.extend(person_shape("http://example.org/ManagerProperty", "http://example.org/manager",
        "http://www.w3.org/ns/shacl#class", "http://example.org/Person"));
    let report = validate(&store_of(triples));
    assert!(!report.conforms);
    assert!(!report.results.is_empty());
}

#[test]
fn test_shacl_multiple_shapes() {
    let triples = vec![
        t("http://example.org/John", RDF_TYPE, "http://example.org/Person"),
        t("http://example.org/John", "http://example.org/name", "John Doe"),
        t("http://example.org/Company", RDF_TYPE, "http://example.org/Organization"),
        t("http://example.org/PersonShape", RDF_TYPE, "http://www.w3.org/ns/shacl#NodeShape"),
        t("http://example.org/PersonShape", "http://www.w3.org/ns/shacl#targetClass", "http://example.org/Person"),
        t("http://example.org/OrgShape", RDF_TYPE, "http://www.w3.org/ns/shacl#NodeShape"),
        t("http://example.org/OrgShape", "http://www.w3.org/ns/shacl#targetClass", "http://example.org/Organization"),
    ];
    let report = validate(&store_of(triples));
    assert!(report.conforms);
}

#[test]
fn test_shacl_loader_reads_property_shape() {
    let mut triples = Vec::new();
    triples.extend(person_shape("http://example.org/NameProperty", "http://example.org/name",
        "http://www.w3.org/ns/shacl#minCount", "+2"));
    let shapes = DefaultShaclLoader.load_from_store(&store_of(triples)).unwrap();
    assert_eq!(shapes.shapes.len(), 2);
    match &shapes.shapes[0].1 {
        Shape::Node(n) => {
            assert_eq!(n.id, "http://example.org/PersonShape");
            assert_eq!(n.targets.len(), 2);
            assert_eq!(n.property_shapes, vec!["http://example.org/NameProperty".to_string()]);
        },
        Shape::Property(_) => panic!("expected a node shape"),
    }
    match &shapes.shapes[1].1 {
        Shape::Property(p) => {
            match &p.path {
                PropertyPath::Predicate(pr) => assert_eq!(pr, "http://example.org/name"),
                _ => panic!("expected a predicate path"),
            }
            assert!(matches!(p.constraints[0], PropertyConstraint::MinCount(2)));
        },
        Shape::Node(_) => panic!("expected a property shape"),
    }
}

#[test]
fn test_shacl_typed_literal_datatype_and_messages() {
    let mut triples = vec![
        t("http://example.org/John", RDF_TYPE, "http://example.org/Person"),
        t("http://example.org/John", "http://example.org/age", "\"25\"^^<http://www.w3.org/2001/XMLSchema#integer>"),
    ];
    triples.extend(person_shape("http://example.org/AgeProperty", "http://example.org/age",
        "http://www.w3.org/ns/shacl#datatype", "http://www.w3.org/2001/XMLSchema#integer"));
    let report = validate(&store_of(triples));
    assert!(report.conforms);

    let jane = store_of(vec![t("http://example.org/Jane", RDF_TYPE, "http://example.org/Person")]);
    let shapes = ShapesGraph {
        shapes: vec![("http://example.org/S".to_string(), Shape::Node(NodeShape {
            id: "http://example.org/S".to_string(),
            targets: vec![Target::Class("http://example.org/Person".to_string())],
            constraints: vec![NodeConstraint::Class("http://example.org/Robot".to_string())],
            property_shapes: vec![],
        }))],
        prefixes: vec![],
    };
    let report = DefaultShaclValidator.validate_graph(&shapes, &jane, &ValidationConfig::default()).unwrap();
    assert!(!report.conforms);
    assert_eq!(report.results.len(), 1);
    assert_eq!(report.results[0].message.as_deref(), Some("Node http://example.org/Jane is not of class http://example.org/Robot"));
    assert_eq!(report.violation_count(), 1);
    assert_eq!(report.warning_count(), 0);
    assert_eq!(report.to_simple_string(),
        "Validation Report: DOES NOT CONFORM\nViolation 1: Node http://example.org/Jane is not of class http://example.org/Robot\n  Focus Node: http://example.org/Jane\n  Severity: Violation\n  Constraint: http://www.w3.org/ns/shacl#class\n\n");
}

#[test]
fn test_shacl_modes_and_complex_paths() {
    let jane = store_of(vec![t("http://example.org/Jane", RDF_TYPE, "http://example.org/Person")]);
    let shapes = ShapesGraph {
        shapes: vec![
            ("http://example.org/S".to_string(), Shape::Node(NodeShape {
                id: "http://example.org/S".to_string(),
                targets: vec![Target::Node("http://example.org/Jane".to_string())],
                constraints: vec![NodeConstraint::HasValue("http://example.org/Missing".to_string())],
                property_shapes: vec!["http://example.org/P".to_string()],
            })),
            ("http://example.org/P".to_string(), Shape::Property(PropertyShape {
                id: "http://example.org/P".to_string(),
                path: PropertyPath::Inverse(Box::new(PropertyPath::Predicate("http://example.org/knows".to_string()))),
                constraints: vec![],
            })),
        ],
        prefixes: vec![],
    };
    match DefaultShaclValidator.validate_graph(&shapes, &jane, &ValidationConfig::default()) {
        Err(ShaclError::UnsupportedFeature(m)) => assert_eq!(m, "Complex property paths not yet implemented"),
        _ => panic!("expected UnsupportedFeature"),
    }
    let skip = ValidationConfig { mode: ValidationMode::Skip, report_jsonld: true };
    let report = DefaultShaclValidator.validate_graph(&shapes, &jane, &skip).unwrap();
    assert!(report.conforms);
    assert!(report.results.is_empty());
    assert_eq!(report.shapes_graph.unwrap().shapes.len(), 2);
}

#[test]
fn test_validation_result_levels() {
    let w = ValidationResult::warning(None, "c".to_string(), "m".to_string());
    assert_eq!(w.severity, ViolationLevel::Warning);
    let i = ValidationResult::info(Some("n".to_string()), "c".to_string(), "m".to_string());
    assert_eq!(i.severity, ViolationLevel::Info);
    assert_eq!(i.focus_node.as_deref(), Some("n"));
}

#[test]
fn test_shacl_length_counts_bytes() {
    let store = store_of(vec![t("http://example.org/x", "http://example.org/name", "é")]);
    let shapes = ShapesGraph {
        shapes: vec![
            ("http://example.org/S".to_string(), Shape::Node(NodeShape {
                id: "http://example.org/S".to_string(),
                targets: vec![Target::Node("http://example.org/x".to_string())],
                constraints: vec![],
                property_shapes: vec!["http://example.org/P".to_string()],
            })),
            ("http://example.org/P".to_string(), Shape::Property(PropertyShape {
                id: "http://example.org/P".to_string(),
                path: PropertyPath::Predicate("http://example.org/name".to_string()),
                constraints: vec![PropertyConstraint::MaxLength(1)],
            })),
        ],
        prefixes: vec![],
    };
    let report = DefaultShaclValidator.validate_graph(&shapes, &store, &ValidationConfig::default()).unwrap();
    assert!(!report.conforms);
    assert_eq!(report.results[0].message.as_deref(), Some("Value 'é' has length 2, maximum is 1"));
}
