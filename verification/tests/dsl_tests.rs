use fukurow::model::{JsonValue, SecurityAction, Triple};
use fukurow::rdf_store::RdfStore;
use fukurow::rules::{ComparisonOperator, RuleError, SecurityActionType, Severity, ViolationLevel};
use fukurow::rules::dsl::{Condition, DslRule, DslRuleEngine, PolicyAction, PolicyRule, SecurityPolicy, ValueExpression};

fn store_with(triples: &[(&str, &str, &str)]) -> RdfStore {
    let mut store = RdfStore::new();
    for (s, p, o) in triples {
        store.insert(Triple { subject: s.to_string(), predicate: p.to_string(), object: o.to_string() });
    }
    store
}

fn rule(id: &str, conditions: Vec<Condition>, actions: Vec<PolicyAction>, severity: Severity) -> PolicyRule {
    PolicyRule {
        id: id.to_string(),
        name: format!("{} rule", id),
        description: String::new(),
        conditions,
        actions,
        severity,
        metadata: Vec::new(),
    }
}

fn policy(name: &str, rules: Vec<PolicyRule>) -> SecurityPolicy {
    SecurityPolicy {
        name: name.to_string(),
        description: String::new(),
        version: "1.0".to_string(),
        priority: 1,
        rules,
        metadata: Vec::new(),
    }
}

fn holds_triple(s: &str, p: &str, o: &str) -> Condition {
    Condition::TripleExists { subject: s.to_string(), predicate: p.to_string(), object: o.to_string() }
}

fn alert(message: &str) -> PolicyAction {
    PolicyAction::SecurityAction {
        action_type: SecurityActionType::Alert,
        message: message.to_string(),
        details: vec![("k".to_string(), JsonValue::Number(1))],
    }
}

fn number(n: i64) -> ValueExpression {
    ValueExpression::Constant(JsonValue::Number(n))
}

#[test]
fn test_dsl_rule_fires_on_pattern_with_variables() {
    let store = store_with(&[("host1", "http://example.org/status", "compromised")]);
    let p = policy(
        "isolation",
        vec![rule(
            "r1",
            vec![holds_triple("?h", "http://example.org/status", "compromised")],
            vec![
                PolicyAction::AddTriple {
                    subject: "host1".to_string(),
                    predicate: "http://example.org/isolated".to_string(),
                    object: "true".to_string(),
                },
                alert("host compromised"),
            ],
            Severity::High,
        )],
    );
    let r = DslRule::new().with_policy(p);
    assert_eq!(r.name(), "dsl_rule");
    assert_eq!(r.priority(), 100);
    assert!(r.should_apply(&store));
    let result = r.apply(&store).expect("no error");
    assert_eq!(result.triples_to_add.len(), 1);
    assert_eq!(result.triples_to_add[0].predicate, "http://example.org/isolated");
    assert_eq!(result.actions.len(), 1);
    match &result.actions[0] {
        SecurityAction::Alert { severity, message, details } => {
            assert_eq!(severity, "high");
            assert_eq!(message, "host compromised");
            assert_eq!(details.get("k"), Some(&JsonValue::Number(1)));
        }
        other => panic!("unexpected action {:?}", other),
    }
    let keys: Vec<&str> = result.metadata.iter().map(|(k, _)| k.as_str()).collect();
    assert_eq!(keys, vec!["policy_name", "policy_version", "execution_time"]);
    assert_eq!(result.metadata[0].1, JsonValue::Str("isolation".to_string()));
    assert_eq!(result.metadata[1].1, JsonValue::Str("1.0".to_string()));
}

#[test]
fn test_dsl_rule_does_not_fire_without_match() {
    let store = store_with(&[("host1", "http://example.org/status", "clean")]);
    let p = policy("p", vec![rule("r1", vec![holds_triple("?h", "http://example.org/status", "compromised")], vec![alert("x")], Severity::Low)]);
    let result = DslRule::new().with_policy(p).apply(&store).expect("no error");
    assert!(result.actions.is_empty());
    assert!(result.triples_to_add.is_empty());
    assert_eq!(result.metadata.len(), 3);
}

#[test]
fn test_dsl_missing_variable_is_an_execution_error() {
    let store = RdfStore::new();
    let cond = Condition::NumericComparison {
        left: ValueExpression::Variable("x".to_string()),
        operator: ComparisonOperator::GreaterThan,
        right: number(1),
    };
    let p = policy("p", vec![rule("r1", vec![cond], vec![alert("x")], Severity::Low)]);
    let err = DslRule::new().with_policy(p).apply(&store).unwrap_err();
    match &err {
        RuleError::ExecutionError { message } => assert_eq!(message, "Variable not found: x"),
        other => panic!("unexpected error {:?}", other),
    }
    assert_eq!(err.to_string(), "Rule execution failed: Variable not found: x");
}

#[test]
fn test_dsl_numeric_comparison_and_variables() {
    let store = RdfStore::new();
    let cond = Condition::NumericComparison {
        left: ValueExpression::Variable("failed_logins".to_string()),
        operator: ComparisonOperator::GreaterThanOrEqual,
        right: number(5),
    };
    let p = policy("p", vec![rule("r1", vec![cond], vec![alert("many failures")], Severity::Medium)]);
    let mut r = DslRule::new().with_policy(p);
    r.set_variable("failed_logins".to_string(), JsonValue::Number(3));
    assert!(r.apply(&store).unwrap().actions.is_empty());
    // The later setting counts.
    r.set_variable("failed_logins".to_string(), JsonValue::Number(5));
    assert_eq!(r.apply(&store).unwrap().actions.len(), 1);
}

#[test]
fn test_dsl_logical_conditions() {
    let store = store_with(&[("a", "p", "b")]);
    let yes = || holds_triple("a", "p", "b");
    let no = || holds_triple("a", "p", "c");
    let cases = vec![
        (Condition::And(vec![yes(), yes()]), true),
        (Condition::And(vec![yes(), no()]), false),
        (Condition::Or(vec![no(), yes()]), true),
        (Condition::Or(vec![no(), no()]), false),
        (Condition::Not(Box::new(no())), true),
        (Condition::Not(Box::new(yes())), false),
        (Condition::TripleNotExists { subject: "a".to_string(), predicate: "p".to_string(), object: "c".to_string() }, true),
    ];
    for (cond, fires) in cases {
        let p = policy("p", vec![rule("r", vec![cond], vec![alert("m")], Severity::Low)]);
        let result = DslRule::new().with_policy(p).apply(&store).unwrap();
        assert_eq!(result.actions.len() == 1, fires);
    }
}

#[test]
fn test_dsl_variable_binding() {
    let store = RdfStore::new();
    let cond = || Condition::VariableBinding { variable: "mode".to_string(), value: "strict".to_string() };
    let mut r = DslRule::new().with_policy(policy("p", vec![rule("r", vec![cond()], vec![alert("m")], Severity::Low)]));
    assert!(r.apply(&store).unwrap().actions.is_empty());
    r.set_variable("mode".to_string(), JsonValue::Str("strict".to_string()));
    assert_eq!(r.apply(&store).unwrap().actions.len(), 1);
}

#[test]
fn test_dsl_action_kinds() {
    let store = RdfStore::new();
    let act = |t: SecurityActionType| PolicyAction::SecurityAction { action_type: t, message: "m".to_string(), details: Vec::new() };
    let p = policy(
        "p",
        vec![rule(
            "r9",
            Vec::new(),
            vec![
                act(SecurityActionType::Block),
                act(SecurityActionType::Log),
                act(SecurityActionType::Notify),
                PolicyAction::ReportViolation { level: ViolationLevel::Warning, message: "bad".to_string(), context: Vec::new() },
            ],
            Severity::Critical,
        )],
    );
    let result = DslRule::new().with_policy(p).apply(&store).unwrap();
    let summary: Vec<(String, String)> = result
        .actions
        .iter()
        .map(|a| match a {
            SecurityAction::Alert { severity, message, .. } => (severity.clone(), message.clone()),
            other => panic!("unexpected {:?}", other),
        })
        .collect();
    assert_eq!(
        summary,
        vec![
            ("high".to_string(), "Block action required: m".to_string()),
            ("info".to_string(), "Log: m".to_string()),
            ("critical".to_string(), "Notification: m".to_string()),
        ]
    );
    match &result.actions[0] {
        SecurityAction::Alert { details, .. } => {
            assert_eq!(details.get("reason"), Some(&JsonValue::Str("Policy violation: r9 rule".to_string())));
        }
        _ => unreachable!(),
    }
    assert_eq!(result.violations.len(), 1);
    assert_eq!(result.violations[0].rule_name, "r9");
    assert_eq!(result.violations[0].message, "bad");
}

#[test]
fn test_dsl_policies_combine_in_order() {
    let store = RdfStore::new();
    let p1 = policy("first", vec![rule("a", Vec::new(), vec![alert("one")], Severity::Low)]);
    let p2 = policy("second", vec![rule("b", Vec::new(), vec![alert("two")], Severity::Low)]);
    let r = DslRule::new().with_policy(p1).with_policy(p2);
    let result = r.apply(&store).unwrap();
    let messages: Vec<String> = result
        .actions
        .iter()
        .map(|a| match a {
            SecurityAction::Alert { message, .. } => message.clone(),
            _ => String::new(),
        })
        .collect();
    assert_eq!(messages, vec!["one".to_string(), "two".to_string()]);
    assert_eq!(result.metadata.len(), 6);
    assert_eq!(result.metadata[3].1, JsonValue::Str("second".to_string()));
}

#[test]
fn test_dsl_engine_runs_each_policy() {
    let store = RdfStore::new();
    let mut engine = DslRuleEngine::new();
    engine.add_policy(policy("first", Vec::new()));
    engine.add_policy(policy("second", vec![rule("b", Vec::new(), vec![alert("two")], Severity::Low)]));
    let results = engine.execute_all_policies(&store).unwrap();
    assert_eq!(results.len(), 2);
    assert!(results[0].actions.is_empty());
    assert_eq!(results[1].actions.len(), 1);
}

#[test]
fn test_dsl_rule_without_policies() {
    let store = RdfStore::new();
    let r = DslRule::new();
    assert!(!r.should_apply(&store));
    let result = r.apply(&store).unwrap();
    assert!(result.actions.is_empty());
    assert!(result.metadata.is_empty());
}

#[test]
fn test_dsl_only_firing_rules_contribute_in_order() {
    let store = store_with(&[("host1", "http://example.org/status", "compromised")]);
    let p = policy(
        "mixed",
        vec![
            rule("a", vec![holds_triple("?h", "http://example.org/status", "compromised")], vec![alert("first")], Severity::Low),
            rule("b", vec![holds_triple("?h", "http://example.org/status", "clean")], vec![alert("never")], Severity::Low),
            rule(
                "c",
                Vec::new(),
                vec![
                    PolicyAction::RemoveTriple {
                        subject: "host1".to_string(),
                        predicate: "http://example.org/status".to_string(),
                        object: "compromised".to_string(),
                    },
                    alert("second"),
                ],
                Severity::Low,
            ),
        ],
    );
    let result = DslRule::new().with_policy(p).apply(&store).unwrap();
    let messages: Vec<String> = result
        .actions
        .iter()
        .map(|a| match a {
            SecurityAction::Alert { message, .. } => message.clone(),
            _ => String::new(),
        })
        .collect();
    assert_eq!(messages, vec!["first".to_string(), "second".to_string()]);
    assert_eq!(result.triples_to_remove.len(), 1);
    assert_eq!(result.triples_to_remove[0].object, "compromised");
    assert!(result.triples_to_add.is_empty());
}
