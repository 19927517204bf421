use std::collections::HashMap;
use fukurow::model::{JsonValue, SecurityAction, Triple};
use fukurow::rdf_store::RdfStore;
use fukurow::rules::{PatternValue, RuleError, TemplateValue, TriplePattern, TripleTemplate, ViolationLevel};
use fukurow::rules::dsl::{RuleResult, ValidationViolation};
use fukurow::rules::registry::{BindingMap, InferenceRule, Rule, RuleRegistry, ValidationRule};

struct MockRule {
    name: &'static str,
    description: &'static str,
    priority: i32,
    should_apply_result: bool,
}

impl MockRule {
    fn new(name: &'static str, description: &'static str, priority: i32) -> Self {
        MockRule { name, description, priority, should_apply_result: true }
    }

    fn with_should_apply(mut self, should_apply: bool) -> Self {
        self.should_apply_result = should_apply;
        self
    }
}

fn test_triple() -> Triple {
    Triple {
        subject: "test_subject".to_string(),
        predicate: "test_predicate".to_string(),
        object: "test_object".to_string(),
    }
}

impl Rule for MockRule {
    fn name(&self) -> &'static str {
        self.name
    }

    fn description(&self) -> &'static str {
        self.description
    }

    fn priority(&self) -> i32 {
        self.priority
    }

    fn apply(&self, _store: &RdfStore) -> Result<RuleResult, RuleError> {
        Ok(RuleResult {
            triples_to_add: vec![test_triple()],
            triples_to_remove: vec![],
            actions: vec![SecurityAction::Alert {
                severity: "info".to_string(),
                message: "Mock alert".to_string(),
                details: JsonValue::Object(vec![("mock".to_string(), JsonValue::Bool(true))]),
            }],
            violations: vec![],
            metadata: Vec::new(),
        })
    }

    fn should_apply(&self, _store: &RdfStore) -> bool {
        self.should_apply_result
    }
}

struct FailingRule;

impl Rule for FailingRule {
    fn name(&self) -> &'static str {
        "failing"
    }

    fn description(&self) -> &'static str {
        "always fails"
    }

    fn apply(&self, _store: &RdfStore) -> Result<RuleResult, RuleError> {
        Err(RuleError::ExecutionError { message: "boom".to_string() })
    }
}

struct MockValidationRule {
    name: &'static str,
    description: &'static str,
}

impl MockValidationRule {
    fn new(name: &'static str, description: &'static str) -> Self {
        MockValidationRule { name, description }
    }
}

impl ValidationRule for MockValidationRule {
    fn name(&self) -> &'static str {
        self.name
    }

    fn description(&self) -> &'static str {
        self.description
    }

    fn validate(&self, _store: &RdfStore) -> Result<Vec<ValidationViolation>, RuleError> {
        Ok(vec![ValidationViolation {
            level: ViolationLevel::Warning,
            message: "Mock violation".to_string(),
            triple: Some(test_triple()),
            rule_name: self.name.to_string(),
            context: Vec::new(),
        }])
    }
}

struct MockInferenceRule {
    name: &'static str,
    conditions: Vec<TriplePattern>,
    conclusions: Vec<TripleTemplate>,
}

impl MockInferenceRule {
    fn new(name: &'static str) -> Self {
        MockInferenceRule {
            name,
            conditions: vec![TriplePattern {
                subject: PatternValue::Variable("s".to_string()),
                predicate: PatternValue::Constant("type".to_string()),
                object: PatternValue::Constant("Person".to_string()),
            }],
            conclusions: vec![TripleTemplate {
                subject: TemplateValue::Variable("s".to_string()),
                predicate: TemplateValue::Constant("hasName".to_string()),
                object: TemplateValue::Constant("Unknown".to_string()),
            }],
        }
    }
}

impl InferenceRule for MockInferenceRule {
    fn name(&self) -> &'static str {
        self.name
    }

    fn conditions(&self) -> &[TriplePattern] {
        &self.conditions
    }

    fn conclusions(&self) -> &[TripleTemplate] {
        &self.conclusions
    }

    fn infer(&self, bindings: &BindingMap, _store: &RdfStore) -> Result<Vec<Triple>, RuleError> {
        let mut triples = Vec::new();
        for template in &self.conclusions {
            if let (TemplateValue::Variable(s_var), TemplateValue::Constant(p), TemplateValue::Constant(o)) =
                (&template.subject, &template.predicate, &template.object)
            {
                if let Some(subject) = bindings.get(s_var) {
                    triples.push(Triple { subject: subject.clone(), predicate: p.clone(), object: o.clone() });
                }
            }
        }
        Ok(triples)
    }
}

#[test]
fn test_rule_result_creation() {
    let triples_to_add = vec![Triple {
        subject: "subject1".to_string(),
        predicate: "predicate1".to_string(),
        object: "object1".to_string(),
    }];
    let actions = vec![SecurityAction::Alert {
        severity: "high".to_string(),
        message: "Test alert".to_string(),
        details: JsonValue::Object(vec![("test".to_string(), JsonValue::Bool(true))]),
    }];
    let metadata = vec![("execution_time".to_string(), JsonValue::Number(150))];
    let result = RuleResult {
        triples_to_add: triples_to_add.clone(),
        triples_to_remove: vec![],
        actions: actions.clone(),
        violations: vec![],
        metadata: metadata.clone(),
    };
    assert_eq!(result.triples_to_add.len(), 1);
    assert_eq!(result.triples_to_remove.len(), 0);
    assert_eq!(result.actions.len(), 1);
    assert_eq!(result.violations.len(), 0);
    let execution_time = result.metadata.iter().find(|(k, _)| k == "execution_time").map(|(_, v)| v);
    assert_eq!(execution_time, Some(&JsonValue::Number(150)));
}

#[test]
fn test_validation_violation_without_triple() {
    let violation = ValidationViolation {
        level: ViolationLevel::Info,
        message: "Info message".to_string(),
        triple: None,
        rule_name: "info_rule".to_string(),
        context: Vec::new(),
    };
    assert_eq!(violation.level, ViolationLevel::Info);
    assert!(violation.triple.is_none());
}

#[test]
fn test_mock_rule_implementation() {
    let rule = MockRule::new("test_rule", "Test rule description", 10);
    let store = RdfStore::new();
    assert_eq!(rule.name(), "test_rule");
    assert_eq!(rule.description(), "Test rule description");
    assert_eq!(rule.priority(), 10);
    assert!(rule.should_apply(&store));
    let result = rule.apply(&store).unwrap();
    assert_eq!(result.triples_to_add.len(), 1);
    assert_eq!(result.actions.len(), 1);
}

#[test]
fn test_mock_rule_with_should_apply_false() {
    let rule = MockRule::new("conditional_rule", "Conditional rule", 5).with_should_apply(false);
    let store = RdfStore::new();
    assert!(!rule.should_apply(&store));
}

#[test]
fn test_mock_validation_rule() {
    let rule = MockValidationRule::new("validation_rule", "Validation rule");
    let store = RdfStore::new();
    assert_eq!(rule.name(), "validation_rule");
    assert_eq!(rule.description(), "Validation rule");
    let violations = rule.validate(&store).unwrap();
    assert_eq!(violations.len(), 1);
    assert_eq!(violations[0].level, ViolationLevel::Warning);
    assert_eq!(violations[0].rule_name, "validation_rule");
}

#[test]
fn test_mock_inference_rule() {
    let rule = MockInferenceRule::new("inference_rule");
    let mut bindings = HashMap::new();
    bindings.insert("s".to_string(), "person123".to_string());
    let store = RdfStore::new();
    assert_eq!(rule.name(), "inference_rule");
    assert_eq!(rule.conditions().len(), 1);
    assert_eq!(rule.conclusions().len(), 1);
    let triples = rule.infer(&bindings, &store).unwrap();
    assert_eq!(triples.len(), 1);
    assert_eq!(triples[0].subject, "person123");
    assert_eq!(triples[0].predicate, "hasName");
    assert_eq!(triples[0].object, "Unknown");
}

#[test]
fn test_rule_registry_creation() {
    let registry = RuleRegistry::new();
    assert_eq!(registry.rule_count(), 0);
    assert_eq!(registry.validation_rule_count(), 0);
    assert_eq!(registry.inference_rule_count(), 0);
}

#[test]
fn test_rule_registry_default() {
    let registry = RuleRegistry::default();
    assert_eq!(registry.rule_count(), 0);
}

#[test]
fn test_register_and_apply_rules() {
    let mut registry = RuleRegistry::new();
    registry.register_rule(Box::new(MockRule::new("test_rule", "Test rule", 0)));
    assert_eq!(registry.rule_count(), 1);
    let store = RdfStore::new();
    let results = registry.apply_all_rules(&store).unwrap();
    assert_eq!(results.len(), 1);
    assert_eq!(results[0].triples_to_add.len(), 1);
}

#[test]
fn test_register_and_validate_rules() {
    let mut registry = RuleRegistry::new();
    registry.register_validation_rule(Box::new(MockValidationRule::new("validation", "Validation rule")));
    assert_eq!(registry.validation_rule_count(), 1);
    let store = RdfStore::new();
    let violations = registry.validate_all(&store).unwrap();
    assert_eq!(violations.len(), 1);
    assert_eq!(violations[0].level, ViolationLevel::Warning);
}

#[test]
fn test_register_inference_rule() {
    let mut registry = RuleRegistry::new();
    registry.register_inference_rule(Box::new(MockInferenceRule::new("inference")));
    assert_eq!(registry.inference_rule_count(), 1);
}

#[test]
fn test_multiple_rules_execution() {
    let mut registry = RuleRegistry::new();
    registry.register_rule(Box::new(MockRule::new("rule1", "First rule", 10)));
    registry.register_rule(Box::new(MockRule::new("rule2", "Second rule", 5)));
    let store = RdfStore::new();
    let results = registry.apply_all_rules(&store).unwrap();
    assert_eq!(results.len(), 2);
    assert_eq!(results.iter().map(|r| r.triples_to_add.len()).sum::<usize>(), 2);
}

#[test]
fn test_empty_registry() {
    let registry = RuleRegistry::new();
    let store = RdfStore::new();
    let results = registry.apply_all_rules(&store).unwrap();
    assert_eq!(results.len(), 0);
    let violations = registry.validate_all(&store).unwrap();
    assert_eq!(violations.len(), 0);
}

#[test]
fn test_binding_map_usage() {
    let mut bindings: BindingMap = HashMap::new();
    bindings.insert("person".to_string(), "john_doe".to_string());
    bindings.insert("age".to_string(), "30".to_string());
    assert_eq!(bindings.get("person"), Some(&"john_doe".to_string()));
    assert_eq!(bindings.get("age"), Some(&"30".to_string()));
    assert_eq!(bindings.get("nonexistent"), None);
}

#[test]
fn test_registry_skips_and_stops() {
    let mut registry = RuleRegistry::new();
    registry.register_rule(Box::new(MockRule::new("off", "skipped", 0).with_should_apply(false)));
    registry.register_rule(Box::new(MockRule::new("on", "applied", 0)));
    let store = RdfStore::new();
    assert_eq!(registry.apply_all_rules(&store).unwrap().len(), 1);
    registry.register_rule(Box::new(FailingRule));
    match registry.apply_all_rules(&store) {
        Err(RuleError::ExecutionError { message }) => assert_eq!(message, "boom"),
        _ => panic!("the failing rule stops the run"),
    }
}
