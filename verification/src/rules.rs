//! Rule vocabulary: triple patterns and templates, violation levels, the
//! policy language's enumerations and the errors of rule execution.

pub mod dsl;
pub mod registry;

use vstd::prelude::*;
use crate::outside::error_message;
use crate::text::join;

verus! {

/// Severity of a validation violation.
#[derive(Debug, Clone, Copy, PartialEq, Eq, Structural)]
pub enum ViolationLevel {
    Info,
    Warning,
    Error,
    Critical,
}

/// Pattern over triples: a variable or a constant at each position.
#[derive(Debug, Clone)]
pub struct TriplePattern {
    pub subject: PatternValue,
    pub predicate: PatternValue,
    pub object: PatternValue,
}

/// Template of generated triples.
#[derive(Debug, Clone)]
pub struct TripleTemplate {
    pub subject: TemplateValue,
    pub predicate: TemplateValue,
    pub object: TemplateValue,
}

/// A position of a pattern.
#[derive(Debug, Clone)]
pub enum PatternValue {
    Variable(String),
    Constant(String),
}

impl PatternValue {
    pub open spec fn view_of(&self) -> (bool, Seq<char>) {
        match self {
            PatternValue::Variable(s) => (true, s@),
            PatternValue::Constant(s) => (false, s@),
        }
    }
}

impl PartialEq for PatternValue {
    fn eq(&self, other: &Self) -> (r: bool) {
        match (self, other) {
            (PatternValue::Variable(a), PatternValue::Variable(b)) => *a == *b,
            (PatternValue::Constant(a), PatternValue::Constant(b)) => *a == *b,
            _ => false,
        }
    }
}

impl vstd::std_specs::cmp::PartialEqSpecImpl for PatternValue {
    open spec fn obeys_eq_spec() -> bool {
        true
    }

    open spec fn eq_spec(&self, other: &PatternValue) -> bool {
        self.view_of() == other.view_of()
    }
}

/// A position of a template.
#[derive(Debug, Clone)]
pub enum TemplateValue {
    Variable(String),
    Constant(String),
}

impl TemplateValue {
    pub open spec fn view_of(&self) -> (bool, Seq<char>) {
        match self {
            TemplateValue::Variable(s) => (true, s@),
            TemplateValue::Constant(s) => (false, s@),
        }
    }
}

impl PartialEq for TemplateValue {
    fn eq(&self, other: &Self) -> (r: bool) {
        match (self, other) {
            (TemplateValue::Variable(a), TemplateValue::Variable(b)) => *a == *b,
            (TemplateValue::Constant(a), TemplateValue::Constant(b)) => *a == *b,
            _ => false,
        }
    }
}

impl vstd::std_specs::cmp::PartialEqSpecImpl for TemplateValue {
    open spec fn obeys_eq_spec() -> bool {
        true
    }

    open spec fn eq_spec(&self, other: &TemplateValue) -> bool {
        self.view_of() == other.view_of()
    }
}

/// Errors of rule execution.
#[derive(Debug)]
pub enum RuleError {
    ExecutionError { message: String },
    ConfigurationError { message: String },
    PatternMatchError { message: String },
    TemplateError { message: String },
    ValidationError { message: String },
    StoreError(anyhow::Error),
}

/// The message of a rule error, for every kind but a storage error, whose
/// text comes from the outside error.
pub open spec fn rule_error_message(e: RuleError) -> Option<Seq<char>> {
    match e {
        RuleError::ExecutionError { message } => Some("Rule execution failed: "@ + message@),
        RuleError::ConfigurationError { message } => Some("Invalid rule configuration: "@ + message@),
        RuleError::PatternMatchError { message } => Some("Pattern matching failed: "@ + message@),
        RuleError::TemplateError { message } => Some("Template instantiation failed: "@ + message@),
        RuleError::ValidationError { message } => Some("Validation failed: "@ + message@),
        RuleError::StoreError(_) => None,
    }
}

impl RuleError {
    /// The error message: a prefix naming the kind of error, then the
    /// message it carries. For a store error the text after the prefix is
    /// the outside error's own message.
    pub fn to_string(&self) -> (r: String)
        ensures
            match self {
                RuleError::ExecutionError { message } => r@ == "Rule execution failed: "@ + message@,
                RuleError::ConfigurationError { message } => r@ == "Invalid rule configuration: "@ + message@,
                RuleError::PatternMatchError { message } => r@ == "Pattern matching failed: "@ + message@,
                RuleError::TemplateError { message } => r@ == "Template instantiation failed: "@ + message@,
                RuleError::ValidationError { message } => r@ == "Validation failed: "@ + message@,
                RuleError::StoreError(_) => r@.subrange(0, "Storage operation failed: "@.len() as int) == "Storage operation failed: "@,
            },
    {
        match self {
            RuleError::ExecutionError { message } => join("Rule execution failed: ", message.as_str()),
            RuleError::ConfigurationError { message } => join("Invalid rule configuration: ", message.as_str()),
            RuleError::PatternMatchError { message } => join("Pattern matching failed: ", message.as_str()),
            RuleError::TemplateError { message } => join("Template instantiation failed: ", message.as_str()),
            RuleError::ValidationError { message } => join("Validation failed: ", message.as_str()),
            RuleError::StoreError(e) => {
                let text = error_message(e);
                let r = join("Storage operation failed: ", text.as_str());
                proof {
                    assert(r@.subrange(0, "Storage operation failed: "@.len() as int) =~= "Storage operation failed: "@);
                }
                r
            },
        }
    }
}

/// Part of a triple that a policy extracts.
#[derive(Debug, Clone, Copy, PartialEq, Eq, Structural)]
pub enum ExtractType {
    Subject,
    Predicate,
    Object,
}

/// Comparison of a policy condition.
#[derive(Debug, Clone, Copy, PartialEq, Eq, Structural)]
pub enum ComparisonOperator {
    Equal,
    NotEqual,
    GreaterThan,
    LessThan,
    GreaterThanOrEqual,
    LessThanOrEqual,
    Contains,
    NotContains,
}

/// Kind of action a policy takes.
#[derive(Debug, Clone, Copy, PartialEq, Eq, Structural)]
pub enum SecurityActionType {
    Alert,
    Block,
    Log,
    Quarantine,
    Notify,
}

/// Severity of a policy's finding.
#[derive(Debug, Clone, Copy, PartialEq, Eq, Structural)]
pub enum Severity {
    Low,
    Medium,
    High,
    Critical,
}

} // verus!
