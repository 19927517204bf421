use fukurow::rules::{ViolationLevel, TriplePattern, TripleTemplate, PatternValue, TemplateValue, RuleError};

#[test]
fn test_violation_level_equality() {
    assert_eq!(ViolationLevel::Info, ViolationLevel::Info);
    assert_eq!(ViolationLevel::Warning, ViolationLevel::Warning);
    assert_eq!(ViolationLevel::Error, ViolationLevel::Error);
    assert_eq!(ViolationLevel::Critical, ViolationLevel::Critical);
    assert_ne!(ViolationLevel::Info, ViolationLevel::Warning);
}

#[test]
fn test_triple_pattern_creation() {
    let pattern = TriplePattern {
        subject: PatternValue::Variable("s".to_string()),
        predicate: PatternValue::Constant("type".to_string()),
        object: PatternValue::Variable("o".to_string()),
    };
    match &pattern.subject {
        PatternValue::Variable(var) => assert_eq!(var, "s"),
        _ => panic!("Expected variable"),
    }
    match &pattern.predicate {
        PatternValue::Constant(const_val) => assert_eq!(const_val, "type"),
        _ => panic!("Expected constant"),
    }
}

#[test]
fn test_triple_template_creation() {
    let template = TripleTemplate {
        subject: TemplateValue::Variable("person".to_string()),
        predicate: TemplateValue::Constant("name".to_string()),
        object: TemplateValue::Constant("John".to_string()),
    };
    match &template.subject {
        TemplateValue::Variable(var) => assert_eq!(var, "person"),
        _ => panic!("Expected variable"),
    }
}

#[test]
fn test_pattern_value_equality() {
    assert_eq!(PatternValue::Variable("x".to_string()), PatternValue::Variable("x".to_string()));
    assert_eq!(PatternValue::Constant("type".to_string()), PatternValue::Constant("type".to_string()));
    assert_ne!(PatternValue::Variable("x".to_string()), PatternValue::Constant("x".to_string()));
}

#[test]
fn test_template_value_equality() {
    assert_eq!(TemplateValue::Variable("y".to_string()), TemplateValue::Variable("y".to_string()));
    assert_eq!(TemplateValue::Constant("value".to_string()), TemplateValue::Constant("value".to_string()));
    assert_ne!(TemplateValue::Variable("y".to_string()), TemplateValue::Constant("y".to_string()));
}

#[test]
fn test_rule_error_variants() {
    let err1 = RuleError::ExecutionError { message: "exec failed".to_string() };
    assert!(err1.to_string().contains("exec failed"));
    let err2 = RuleError::ConfigurationError { message: "config error".to_string() };
    assert!(err2.to_string().contains("config error"));
    let err3 = RuleError::PatternMatchError { message: "match failed".to_string() };
    assert!(err3.to_string().contains("match failed"));
    let err4 = RuleError::TemplateError { message: "template error".to_string() };
    assert!(err4.to_string().contains("template error"));
    let err5 = RuleError::ValidationError { message: "validation failed".to_string() };
    assert!(err5.to_string().contains("validation failed"));
    let store_err = RuleError::StoreError(anyhow::Error::msg("store error"));
    assert!(store_err.to_string().contains("store error"));
}
