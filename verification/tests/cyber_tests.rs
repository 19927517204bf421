use fukurow::cyber::{MaliciousIpDetector, LateralMovementDetector, PrivilegeEscalationDetector};
use fukurow::cyber::patterns::PatternDetector;
use fukurow::model::{CyberEvent, SecurityAction, JsonValue, Triple};
use fukurow::rdf_store::RdfStore;

fn login(user: &str, ip: &str, success: bool, timestamp: i64) -> CyberEvent {
    CyberEvent::UserLogin {
        user: user.to_string(),
        source_ip: ip.to_string(),
        success,
        timestamp,
    }
}

fn field<'a>(details: &'a JsonValue, key: &str) -> &'a JsonValue {
    details.get(key).expect("field present")
}

#[test]
fn test_malicious_ip_detector() {
    let detector = MaliciousIpDetector::new();

    assert!(detector.is_malicious_ip("192.168.1.100"));
    assert!(detector.is_malicious_ip("10.0.0.50"));
    assert!(!detector.is_malicious_ip("8.8.8.8"));

    assert!(detector.is_malicious_ip("192.168.1.200"));
    assert!(!detector.is_malicious_ip("172.16.0.1"));
}

#[test]
fn test_malicious_ip_patterns_are_anchored() {
    let detector = MaliciousIpDetector::new();
    assert!(detector.is_malicious_ip("10.0.0.7"));
    assert!(!detector.is_malicious_ip("110.0.0.7"));
    assert!(!detector.is_malicious_ip("192.168.1."));
    assert!(!detector.is_malicious_ip("192.168.1.5x"));
    assert!(!detector.is_malicious_ip("192x168.1.5"));
}

#[test]
fn test_lateral_movement_detector() {
    let detector = LateralMovementDetector::new();

    let events = vec![
        login("alice", "192.168.1.10", true, 1640995200),
        login("alice", "192.168.1.20", true, 1640995260),
        login("alice", "192.168.1.30", true, 1640995320),
    ];

    let actions = detector.detect_lateral_movement(&events);

    assert!(!actions.is_empty());
    let has_alert = actions.iter().any(|action| matches!(action, SecurityAction::Alert { .. }));
    assert!(has_alert);
}

#[test]
fn test_lateral_movement_detector_no_movement() {
    let detector = LateralMovementDetector::new();

    let events = vec![login("bob", "192.168.1.10", true, 1640995200)];

    let actions = detector.detect_lateral_movement(&events);
    assert!(actions.is_empty());
}

#[test]
fn test_lateral_movement_alert_details() {
    let detector = LateralMovementDetector::new();
    // Out of order in time: sorting puts 100, 150, 200 first.
    let events = vec![
        login("carol", "10.1.0.3", true, 200),
        login("carol", "10.1.0.1", true, 100),
        login("dave", "10.2.0.1", true, 100),
        login("carol", "10.1.0.2", true, 150),
        login("carol", "10.1.0.9", false, 160),
        login("carol", "10.1.0.4", true, 1000),
    ];
    let actions = detector.detect_lateral_movement(&events);
    assert_eq!(actions.len(), 1);
    match &actions[0] {
        SecurityAction::Alert { severity, message, details } => {
            assert_eq!(severity, "high");
            assert_eq!(message, "Rapid lateral movement detected");
            assert_eq!(field(details, "user"), &JsonValue::Str("carol".to_string()));
            assert_eq!(field(details, "session_count"), &JsonValue::Number(4));
            assert_eq!(field(details, "time_span_seconds"), &JsonValue::Number(100));
            assert_eq!(field(details, "unique_ips"), &JsonValue::Number(3));
        }
        other => panic!("unexpected action {:?}", other),
    }
}

#[test]
fn test_lateral_movement_needs_three_addresses_within_window() {
    let detector = LateralMovementDetector::new();
    // Same address twice in the only window.
    let repeated = vec![
        login("erin", "10.0.0.1", true, 0),
        login("erin", "10.0.0.2", true, 10),
        login("erin", "10.0.0.1", true, 20),
    ];
    assert!(detector.detect_lateral_movement(&repeated).is_empty());
    // Three addresses, 301 seconds apart.
    let slow = vec![
        login("erin", "10.0.0.1", true, 0),
        login("erin", "10.0.0.2", true, 10),
        login("erin", "10.0.0.3", true, 301),
    ];
    assert!(detector.detect_lateral_movement(&slow).is_empty());
    // Exactly 300 seconds counts.
    let edge = vec![
        login("erin", "10.0.0.1", true, 0),
        login("erin", "10.0.0.2", true, 10),
        login("erin", "10.0.0.3", true, 300),
    ];
    assert_eq!(detector.detect_lateral_movement(&edge).len(), 1);
}

#[test]
fn test_lateral_movement_one_alert_per_user_in_first_login_order() {
    let detector = LateralMovementDetector::new();
    let events = vec![
        login("zed", "1.1.1.1", true, 0),
        login("amy", "2.2.2.1", true, 0),
        login("zed", "1.1.1.2", true, 1),
        login("amy", "2.2.2.2", true, 1),
        login("zed", "1.1.1.3", true, 2),
        login("amy", "2.2.2.3", true, 2),
        login("zed", "1.1.1.4", true, 3),
    ];
    let actions = detector.detect_lateral_movement(&events);
    assert_eq!(actions.len(), 2);
    let users: Vec<JsonValue> = actions
        .iter()
        .map(|a| match a {
            SecurityAction::Alert { details, .. } => field(details, "user").clone(),
            _ => panic!("not an alert"),
        })
        .collect();
    assert_eq!(users, vec![JsonValue::Str("zed".to_string()), JsonValue::Str("amy".to_string())]);
}

#[test]
fn test_lateral_movement_rule() {
    let detector = LateralMovementDetector::new();
    let rule = detector.create_rule();
    assert_eq!(rule.name, "lateral_movement_detection");
    assert_eq!(rule.conditions.len(), 4);
    assert_eq!(rule.conditions[0].predicate, "https://w3id.org/security#hasSession");
    assert_eq!(rule.actions.len(), 1);
}

#[test]
fn test_privilege_escalation_detector() {
    let detector = PrivilegeEscalationDetector::new();

    assert!(detector.is_dangerous_command("sudo rm -rf /"));
    assert!(detector.is_dangerous_command("chmod 777 /etc/passwd"));
    assert!(detector.is_dangerous_command("netcat -l 8080"));
    assert!(!detector.is_dangerous_command("ls -la"));
    assert!(!detector.is_dangerous_command("cat /etc/hosts"));
}

#[test]
fn test_privilege_escalation_detector_rule() {
    let detector = PrivilegeEscalationDetector::new();
    let rule = detector.create_rule();

    assert_eq!(rule.name, "privilege_escalation_detection");
    assert!(rule.conditions.len() > 0);
    assert!(rule.actions.len() > 0);

    let has_isolate = rule.actions.iter().any(|action| matches!(action, SecurityAction::IsolateHost { .. }));
    let has_revoke = rule.actions.iter().any(|action| matches!(action, SecurityAction::RevokePrivileges { .. }));

    assert!(has_isolate);
    assert!(has_revoke);
}

#[test]
fn test_pattern_detector() {
    let detector = PatternDetector::new();

    let ransomware_event = CyberEvent::ProcessExecution {
        process_id: 1234,
        parent_process_id: None,
        command_line: "encrypt.exe --bitcoin-wallet abc123".to_string(),
        user: "user".to_string(),
        timestamp: 1640995200,
    };

    let actions = detector.match_patterns(&[ransomware_event]);
    assert!(!actions.is_empty());

    let has_critical_alert = actions.iter().any(|action| match action {
        SecurityAction::Alert { severity, .. } => severity == "critical",
        _ => false,
    });
    assert!(has_critical_alert);
}

#[test]
fn test_pattern_detector_no_match() {
    let detector = PatternDetector::new();

    let normal_event = CyberEvent::ProcessExecution {
        process_id: 1234,
        parent_process_id: None,
        command_line: "notepad.exe".to_string(),
        user: "user".to_string(),
        timestamp: 1640995200,
    };

    let actions = detector.match_patterns(&[normal_event]);
    assert!(actions.is_empty());
}

#[test]
fn test_pattern_detector_patterns_and_order() {
    let detector = PatternDetector::new();
    let names: Vec<&str> = detector.get_patterns().iter().map(|p| p.name.as_str()).collect();
    assert_eq!(names, vec!["ransomware_execution", "data_exfiltration", "brute_force_login"]);

    let events = vec![
        CyberEvent::ProcessExecution {
            process_id: 1,
            parent_process_id: None,
            command_line: "scp --external_ip 1.2.3.4".to_string(),
            user: "u".to_string(),
            timestamp: 0,
        },
        CyberEvent::ProcessExecution {
            process_id: 2,
            parent_process_id: None,
            command_line: "open notes.encrypted".to_string(),
            user: "u".to_string(),
            timestamp: 1,
        },
    ];
    let actions = detector.match_patterns(&events);
    // Ransomware first (three actions), then exfiltration (two).
    assert_eq!(actions.len(), 5);
    assert!(matches!(actions[0], SecurityAction::IsolateHost { .. }));
    assert!(matches!(actions[1], SecurityAction::TerminateProcess { process_id: 0, .. }));
    assert!(matches!(actions[3], SecurityAction::BlockConnection { .. }));
}

#[test]
fn test_pattern_detector_ignores_other_events() {
    let detector = PatternDetector::new();
    let events = vec![
        login("encrypt", "ransom", true, 0),
        CyberEvent::FileAccess {
            file_path: "/tmp/bitcoin".to_string(),
            access_type: "encrypt".to_string(),
            user: "ransom".to_string(),
            process_id: 3,
            timestamp: 0,
        },
    ];
    assert!(detector.match_patterns(&events).is_empty());
}

#[test]
fn test_integration_cyber_event_processing() {
    let detector = MaliciousIpDetector::new();
    let pattern_detector = PatternDetector::new();

    let event = CyberEvent::NetworkConnection {
        source_ip: "192.168.1.10".to_string(),
        dest_ip: "192.168.1.100".to_string(),
        port: 443,
        protocol: "tcp".to_string(),
        timestamp: 1640995200,
    };

    assert!(detector.is_malicious_ip("192.168.1.100"));

    let actions = pattern_detector.match_patterns(&[event]);
    let _actions = actions;
}

#[test]
fn test_complex_attack_scenario() {
    let ip_detector = MaliciousIpDetector::new();
    let privilege_detector = PrivilegeEscalationDetector::new();
    let pattern_detector = PatternDetector::new();

    let events = vec![
        CyberEvent::NetworkConnection {
            source_ip: "192.168.1.100".to_string(),
            dest_ip: "10.0.0.1".to_string(),
            port: 22,
            protocol: "tcp".to_string(),
            timestamp: 1640995200,
        },
        CyberEvent::ProcessExecution {
            process_id: 1234,
            parent_process_id: Some(1),
            command_line: "sudo netcat -l 8080".to_string(),
            user: "admin".to_string(),
            timestamp: 1640995260,
        },
        CyberEvent::ProcessExecution {
            process_id: 1235,
            parent_process_id: Some(1234),
            command_line: "encrypt.exe --target /home --bitcoin abc123".to_string(),
            user: "admin".to_string(),
            timestamp: 1640995320,
        },
    ];

    assert!(ip_detector.is_malicious_ip("192.168.1.100"));
    assert!(privilege_detector.is_dangerous_command("sudo netcat -l 8080"));

    let actions = pattern_detector.match_patterns(&events);
    assert!(!actions.is_empty());
}

fn store_with(triples: &[(&str, &str, &str)]) -> RdfStore {
    let mut store = RdfStore::new();
    for (s, p, o) in triples {
        store.insert(Triple { subject: s.to_string(), predicate: p.to_string(), object: o.to_string() });
    }
    store
}

#[test]
fn test_malicious_ip_rule_apply() {
    let rule = MaliciousIpDetector::new().create_rule();
    assert_eq!(rule.name(), "malicious_ip_detection");
    assert_eq!(rule.priority(), 10);
    let rdf_type = "http://www.w3.org/1999/02/22-rdf-syntax-ns#type";
    let store = store_with(&[
        ("conn1", rdf_type, "http://example.org/CyberEvent"),
        ("conn1", "http://example.org/destIP", "10.0.0.50"),
        ("conn1", "http://example.org/destIP", "8.8.8.8"),
        ("conn2", rdf_type, "http://example.org/CyberEvent"),
        ("conn2", "http://example.org/destIP", "192.168.1.77"),
        ("conn3", "http://example.org/destIP", "10.0.0.50"),
    ]);
    assert!(rule.should_apply(&store));
    let result = rule.apply(&store).expect("the rule does not fail");
    assert!(result.triples_to_add.is_empty());
    assert!(result.violations.is_empty());
    assert_eq!(result.actions.len(), 2);
    match &result.actions[1] {
        SecurityAction::Alert { severity, message, details } => {
            assert_eq!(severity, "high");
            assert_eq!(message, "Connection to malicious IP detected");
            assert_eq!(field(details, "connection_id"), &JsonValue::Str("conn2".to_string()));
            assert_eq!(field(details, "destination_ip"), &JsonValue::Str("192.168.1.77".to_string()));
            assert_eq!(field(details, "detection_method"), &JsonValue::Str("pattern_matching".to_string()));
        }
        other => panic!("unexpected action {:?}", other),
    }
}
