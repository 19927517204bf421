use fukurow::cli::{CommandResult, OutputFormat};
use fukurow::model::JsonValue;
use fukurow::interactive::{session_step, trim_text, SessionStep};

#[test]
fn test_output_format_enum() {
    let text_format = OutputFormat::Text;
    let json_format = OutputFormat::Json;
    let json_pretty_format = OutputFormat::JsonPretty;

    assert_eq!(format!("{:?}", text_format), "Text");
    assert_eq!(format!("{:?}", json_format), "Json");
    assert_eq!(format!("{:?}", json_pretty_format), "JsonPretty");
}

#[test]
fn test_command_result_creation() {
    let success_result = CommandResult {
        success: true,
        message: "Operation completed".to_string(),
        data: Some(JsonValue::Object(vec![("count".to_string(), JsonValue::Number(5))])),
    };

    assert!(success_result.success);
    assert_eq!(success_result.message, "Operation completed");
    assert!(success_result.data.is_some());

    let error_result = CommandResult {
        success: false,
        message: "Operation failed".to_string(),
        data: None,
    };

    assert!(!error_result.success);
    assert_eq!(error_result.message, "Operation failed");
    assert!(error_result.data.is_none());
}

use fukurow::cli::{process_message, process_report, query_message, query_report};
use fukurow::model::Triple;

#[test]
fn test_query_and_process_reports() {
    let a = Triple { subject: "s1".to_string(), predicate: "p".to_string(), object: "o1".to_string() };
    let b = Triple { subject: "s2".to_string(), predicate: "p".to_string(), object: "o2".to_string() };
    let found = vec![&a, &b];
    assert_eq!(query_report(&found), "Found 2 triples:\n  s1 p o1\n  s2 p o2\n");
    assert_eq!(query_report(&Vec::new()), "Found 0 triples:\n");
    assert_eq!(query_message(2), "Found 2 triples");
    assert_eq!(process_report(3, 0), "Processed 3 events, generated 0 actions");
    assert_eq!(process_message(12), "Processed 12 events");
}

#[test]
fn test_session_step_decisions() {
    assert!(matches!(session_step("   \n"), SessionStep::Skip));
    assert!(matches!(session_step("quit\n"), SessionStep::Quit));
    assert!(matches!(session_step("  exit "), SessionStep::Quit));
    assert!(matches!(session_step("q"), SessionStep::Quit));
    assert!(matches!(session_step("help"), SessionStep::Help));
    assert!(matches!(session_step("h\n"), SessionStep::Help));
    assert!(matches!(session_step("clear"), SessionStep::Clear));
    assert!(matches!(session_step("analyze \"unclosed"), SessionStep::BadQuoting));
    match session_step("  analyze --file 'a b.json' # note\n") {
        SessionStep::Run(words) => assert_eq!(words, vec!["analyze".to_string(), "--file".to_string(), "a b.json".to_string()]),
        _ => panic!("expected a command"),
    }
    match session_step("quitting now") {
        SessionStep::Run(words) => assert_eq!(words, vec!["quitting".to_string(), "now".to_string()]),
        _ => panic!("expected a command"),
    }
}

#[test]
fn test_trim_text_removes_unicode_white_space() {
    assert_eq!(trim_text("\u{3000}\t info \u{a0}\n"), "info");
    assert_eq!(trim_text(" \n\t"), "");
    assert_eq!(trim_text("a b"), "a b");
}
