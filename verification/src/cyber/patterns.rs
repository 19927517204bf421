//! Attack patterns and their matching against events.

use vstd::prelude::*;
use crate::model::{CyberEvent, SecurityAction, ActionV, action_view, JsonValue, JsonV, json_view, json_seq_view, json_fields_view, push_field};
use crate::closure::node_views;
use crate::siem::jstr;
use crate::text::{contains_text, has_substring};

verus! {

/// A known attack: the words that betray it and the actions it calls for.
#[derive(Debug, Clone)]
pub struct AttackPattern {
    pub name: String,
    pub description: String,
    pub indicators: Vec<String>,
    pub severity: String,
    pub actions: Vec<SecurityAction>,
}

/// An attack pattern as a value.
pub struct AttackPatternV {
    pub name: Seq<char>,
    pub description: Seq<char>,
    pub indicators: Seq<Seq<char>>,
    pub severity: Seq<char>,
    pub actions: Seq<ActionV>,
}

/// The values of a list of actions.
pub open spec fn action_views(s: Seq<SecurityAction>) -> Seq<ActionV> {
    s.map_values(|a: SecurityAction| action_view(a))
}

/// The value of an attack pattern.
pub open spec fn attack_pattern_view(p: AttackPattern) -> AttackPatternV {
    AttackPatternV {
        name: p.name@,
        description: p.description@,
        indicators: node_views(p.indicators@),
        severity: p.severity@,
        actions: action_views(p.actions@),
    }
}

/// The ransomware pattern.
pub open spec fn ransomware_pattern() -> AttackPatternV {
    AttackPatternV {
        name: "ransomware_execution"@,
        description: "Detect ransomware execution patterns"@,
        indicators: seq!["encrypt"@, "bitcoin"@, "ransom"@, ".encrypted"@],
        severity: "critical"@,
        actions: seq![
            ActionV::IsolateHost("?host_ip"@, "Ransomware execution detected"@),
            ActionV::TerminateProcess(0, "Ransomware process termination"@),
            ActionV::Alert("critical"@, "Ransomware attack detected"@, JsonV::Object(seq![
                ("indicators"@, JsonV::Array(seq![jstr("encrypt"@), jstr("bitcoin"@), jstr("ransom"@)])),
                ("pattern"@, jstr("ransomware_execution"@)),
            ])),
        ],
    }
}

/// The data exfiltration pattern.
pub open spec fn exfiltration_pattern() -> AttackPatternV {
    AttackPatternV {
        name: "data_exfiltration"@,
        description: "Detect large data transfers to external IPs"@,
        indicators: seq!["large_file_transfer"@, "external_ip"@, "unusual_traffic"@],
        severity: "high"@,
        actions: seq![
            ActionV::BlockConnection("?source_ip"@, "?dest_ip"@, "Potential data exfiltration detected"@),
            ActionV::Alert("high"@, "Data exfiltration attempt"@, JsonV::Object(seq![
                ("pattern"@, jstr("data_exfiltration"@)),
                ("traffic_type"@, jstr("large_transfer"@)),
            ])),
        ],
    }
}

/// The brute force login pattern.
pub open spec fn brute_force_pattern() -> AttackPatternV {
    AttackPatternV {
        name: "brute_force_login"@,
        description: "Detect brute force login attempts"@,
        indicators: seq!["multiple_failed_logins"@, "same_user"@, "rapid_attempts"@],
        severity: "medium"@,
        actions: seq![
            ActionV::BlockConnection("?source_ip"@, "?dest_ip"@, "Brute force login attempts detected"@),
            ActionV::Alert("medium"@, "Brute force attack detected"@, JsonV::Object(seq![
                ("attempt_count"@, jstr("?count"@)),
                ("pattern"@, jstr("brute_force_login"@)),
            ])),
        ],
    }
}

/// The patterns a detector starts with, in this order.
pub open spec fn builtin_patterns() -> Seq<AttackPatternV> {
    seq![ransomware_pattern(), exfiltration_pattern(), brute_force_pattern()]
}

/// Whether an event shows one of the indicators: only a process execution
/// can, by a command line that contains an indicator.
pub open spec fn event_shows(indicators: Seq<Seq<char>>, e: CyberEvent) -> bool {
    match e {
        CyberEvent::ProcessExecution { command_line, .. } =>
            exists|k: int| 0 <= k < indicators.len() && has_substring(command_line@, #[trigger] indicators[k]),
        _ => false,
    }
}

/// Whether some event shows one of the pattern's indicators.
pub open spec fn pattern_hits(p: AttackPatternV, events: Seq<CyberEvent>) -> bool {
    exists|i: int| 0 <= i < events.len() && event_shows(p.indicators, #[trigger] events[i])
}

/// The actions of the patterns that the events hit, pattern by pattern.
pub open spec fn matched_actions(ps: Seq<AttackPatternV>, events: Seq<CyberEvent>) -> Seq<ActionV>
    decreases ps.len(),
{
    if ps.len() == 0 {
        Seq::empty()
    } else {
        matched_actions(ps.drop_last(), events)
            + if pattern_hits(ps.last(), events) { ps.last().actions } else { Seq::empty() }
    }
}

/// Matches events against known attack patterns.
#[derive(Debug)]
pub struct PatternDetector {
    patterns: Vec<AttackPattern>,
}

/// A string value.
fn text(s: &str) -> (r: JsonValue)
    ensures
        json_view(r) == jstr(s@),
{
    JsonValue::str_value(s)
}

/// A list of strings.
fn owned_strings(a: &str, b: &str, c: &str) -> (r: Vec<String>)
    ensures
        node_views(r@) == seq![a@, b@, c@],
{
    let mut v: Vec<String> = Vec::new();
    v.push(a.to_string());
    v.push(b.to_string());
    v.push(c.to_string());
    proof {
        assert(node_views(v@) =~= seq![a@, b@, c@]);
    }
    v
}

/// Three strings as a JSON array.
fn string_array(a: &str, b: &str, c: &str) -> (r: JsonValue)
    ensures
        json_view(r) == JsonV::Array(seq![jstr(a@), jstr(b@), jstr(c@)]),
{
    let mut v: Vec<JsonValue> = Vec::new();
    v.push(text(a));
    proof {
        assert(v@.drop_last() =~= Seq::<JsonValue>::empty());
        assert(json_seq_view(v@.drop_last()) =~= Seq::<JsonV>::empty());
        assert(json_seq_view(v@) =~= seq![jstr(a@)]);
    }
    let ghost v1 = v@;
    v.push(text(b));
    proof {
        assert(v@.drop_last() =~= v1);
        assert(json_seq_view(v@) =~= seq![jstr(a@), jstr(b@)]);
    }
    let ghost v2 = v@;
    v.push(text(c));
    proof {
        assert(v@.drop_last() =~= v2);
        assert(json_seq_view(v@) =~= seq![jstr(a@), jstr(b@), jstr(c@)]);
    }
    JsonValue::Array(v)
}

fn ransomware() -> (r: AttackPattern)
    ensures
        attack_pattern_view(r) == ransomware_pattern(),
{
    let mut indicators = owned_strings("encrypt", "bitcoin", "ransom");
    let ghost three = indicators@;
    indicators.push(".encrypted".to_string());
    proof {
        assert(node_views(indicators@) =~= node_views(three).push(".encrypted"@));
    }
    let mut details: Vec<(String, JsonValue)> = Vec::new();
    push_field(&mut details, "indicators", string_array("encrypt", "bitcoin", "ransom"));
    push_field(&mut details, "pattern", text("ransomware_execution"));
    let alert = SecurityAction::Alert { severity: "critical".to_string(), message: "Ransomware attack detected".to_string(), details: JsonValue::Object(details) };
    proof {
        assert(json_fields_view(details@) =~= seq![
            ("indicators"@, JsonV::Array(seq![jstr("encrypt"@), jstr("bitcoin"@), jstr("ransom"@)])),
            ("pattern"@, jstr("ransomware_execution"@)),
        ]);
        assert(action_view(alert) == ransomware_pattern().actions[2]);
    }
    let mut actions: Vec<SecurityAction> = Vec::new();
    actions.push(SecurityAction::IsolateHost { host_ip: "?host_ip".to_string(), reason: "Ransomware execution detected".to_string() });
    actions.push(SecurityAction::TerminateProcess { process_id: 0, reason: "Ransomware process termination".to_string() });
    actions.push(alert);
    let r = AttackPattern {
        name: "ransomware_execution".to_string(),
        description: "Detect ransomware execution patterns".to_string(),
        indicators,
        severity: "critical".to_string(),
        actions,
    };
    proof {
        assert(node_views(r.indicators@) =~= ransomware_pattern().indicators);
        assert(action_views(r.actions@) =~= ransomware_pattern().actions);
    }
    r
}

fn exfiltration() -> (r: AttackPattern)
    ensures
        attack_pattern_view(r) == exfiltration_pattern(),
{
    let indicators = owned_strings("large_file_transfer", "external_ip", "unusual_traffic");
    let mut details: Vec<(String, JsonValue)> = Vec::new();
    push_field(&mut details, "pattern", text("data_exfiltration"));
    push_field(&mut details, "traffic_type", text("large_transfer"));
    let alert = SecurityAction::Alert { severity: "high".to_string(), message: "Data exfiltration attempt".to_string(), details: JsonValue::Object(details) };
    proof {
        assert(json_fields_view(details@) =~= seq![("pattern"@, jstr("data_exfiltration"@)), ("traffic_type"@, jstr("large_transfer"@))]);
        assert(action_view(alert) == exfiltration_pattern().actions[1]);
    }
    let mut actions: Vec<SecurityAction> = Vec::new();
    actions.push(SecurityAction::BlockConnection { source_ip: "?source_ip".to_string(), dest_ip: "?dest_ip".to_string(), reason: "Potential data exfiltration detected".to_string() });
    actions.push(alert);
    let r = AttackPattern {
        name: "data_exfiltration".to_string(),
        description: "Detect large data transfers to external IPs".to_string(),
        indicators,
        severity: "high".to_string(),
        actions,
    };
    proof {
        assert(action_views(r.actions@) =~= exfiltration_pattern().actions);
    }
    r
}

fn brute_force() -> (r: AttackPattern)
    ensures
        attack_pattern_view(r) == brute_force_pattern(),
{
    let indicators = owned_strings("multiple_failed_logins", "same_user", "rapid_attempts");
    let mut details: Vec<(String, JsonValue)> = Vec::new();
    push_field(&mut details, "attempt_count", text("?count"));
    push_field(&mut details, "pattern", text("brute_force_login"));
    let alert = SecurityAction::Alert { severity: "medium".to_string(), message: "Brute force attack detected".to_string(), details: JsonValue::Object(details) };
    proof {
        assert(json_fields_view(details@) =~= seq![("attempt_count"@, jstr("?count"@)), ("pattern"@, jstr("brute_force_login"@))]);
        assert(action_view(alert) == brute_force_pattern().actions[1]);
    }
    let mut actions: Vec<SecurityAction> = Vec::new();
    actions.push(SecurityAction::BlockConnection { source_ip: "?source_ip".to_string(), dest_ip: "?dest_ip".to_string(), reason: "Brute force login attempts detected".to_string() });
    actions.push(alert);
    let r = AttackPattern {
        name: "brute_force_login".to_string(),
        description: "Detect brute force login attempts".to_string(),
        indicators,
        severity: "medium".to_string(),
        actions,
    };
    proof {
        assert(action_views(r.actions@) =~= brute_force_pattern().actions);
    }
    r
}

impl PatternDetector {
    /// The patterns of the detector, as values.
    pub closed spec fn patterns_view(&self) -> Seq<AttackPatternV> {
        self.patterns@.map_values(|p: AttackPattern| attack_pattern_view(p))
    }

    /// A detector for ransomware, data exfiltration and brute force logins.
    pub fn new() -> (r: Self)
        ensures
            r.patterns_view() == builtin_patterns(),
    {
        let mut detector = PatternDetector { patterns: Vec::new() };
        proof {
            assert(detector.patterns_view() =~= Seq::<AttackPatternV>::empty());
        }
        detector.initialize_patterns();
        proof {
            assert(Seq::<AttackPatternV>::empty() + builtin_patterns() =~= builtin_patterns());
        }
        detector
    }

    /// Add the built-in patterns after those there are.
    fn initialize_patterns(&mut self)
        ensures
            final(self).patterns_view() == old(self).patterns_view() + builtin_patterns(),
    {
        self.patterns.push(ransomware());
        self.patterns.push(exfiltration());
        self.patterns.push(brute_force());
        proof {
            assert(self.patterns_view() =~= old(self).patterns_view() + builtin_patterns());
        }
    }

    /// The actions of every pattern that the events hit, in pattern order.
    pub fn match_patterns(&self, events: &[CyberEvent]) -> (r: Vec<SecurityAction>)
        ensures
            action_views(r@) == matched_actions(self.patterns_view(), events@),
    {
        let mut actions: Vec<SecurityAction> = Vec::new();
        let mut k: usize = 0;
        proof {
            assert(self.patterns_view().take(0) =~= Seq::<AttackPatternV>::empty());
            assert(action_views(actions@) =~= Seq::<ActionV>::empty());
        }
        while k < self.patterns.len()
            invariant
                k <= self.patterns@.len(),
                action_views(actions@) == matched_actions(self.patterns_view().take(k as int), events@),
            decreases self.patterns.len() - k,
        {
            let ghost pv = self.patterns_view();
            proof {
                assert(pv.take(k + 1).drop_last() =~= pv.take(k as int));
                assert(pv.take(k + 1).last() == attack_pattern_view(self.patterns@[k as int]));
            }
            let ghost before = action_views(actions@);
            if self.pattern_matches_events(&self.patterns[k], events) {
                let pa = &self.patterns[k].actions;
                let mut j: usize = 0;
                while j < pa.len()
                    invariant
                        j <= pa@.len(),
                        action_views(actions@) == before + action_views(pa@.take(j as int)),
                    decreases pa.len() - j,
                {
                    let a = pa[j].clone();
                    let ghost old_actions = actions@;
                    actions.push(a);
                    proof {
                        assert(action_views(actions@) =~= action_views(old_actions).push(action_view(pa@[j as int])));
                        assert(action_views(pa@.take(j + 1)) =~= action_views(pa@.take(j as int)).push(action_view(pa@[j as int])));
                        assert(action_views(actions@) =~= before + action_views(pa@.take(j + 1)));
                    }
                    j += 1;
                }
                proof {
                    assert(pa@.take(pa@.len() as int) =~= pa@);
                }
            } else {
                proof {
                    assert(before + Seq::<ActionV>::empty() =~= before);
                }
            }
            k += 1;
        }
        proof {
            assert(self.patterns_view().take(self.patterns@.len() as int) =~= self.patterns_view());
        }
        actions
    }

    /// Whether some process execution among the events has a command line
    /// with one of the pattern's indicators in it.
    fn pattern_matches_events(&self, pattern: &AttackPattern, events: &[CyberEvent]) -> (r: bool)
        ensures
            r == pattern_hits(attack_pattern_view(*pattern), events@),
    {
        let ghost inds = node_views(pattern.indicators@);
        let mut i: usize = 0;
        while i < events.len()
            invariant
                i <= events@.len(),
                inds == node_views(pattern.indicators@),
                forall|j: int| 0 <= j < i ==> !event_shows(inds, #[trigger] events@[j]),
            decreases events.len() - i,
        {
            let e = &events[i];
            match e {
                CyberEvent::ProcessExecution { process_id, parent_process_id, command_line, user, timestamp } => {
                    let mut k: usize = 0;
                    while k < pattern.indicators.len()
                        invariant
                            k <= pattern.indicators@.len(),
                            i < events@.len(),
                            *e == events@[i as int],
                            *e == (CyberEvent::ProcessExecution { process_id: *process_id, parent_process_id: *parent_process_id, command_line: *command_line, user: *user, timestamp: *timestamp }),
                            inds == node_views(pattern.indicators@),
                            forall|m: int| 0 <= m < k ==> !has_substring(command_line@, #[trigger] inds[m]),
                        decreases pattern.indicators.len() - k,
                    {
                        if contains_text(command_line.as_str(), pattern.indicators[k].as_str()) {
                            proof {
                                assert(*e == events@[i as int]);
                                assert(inds[k as int] == pattern.indicators@[k as int]@);
                                assert(has_substring(command_line@, inds[k as int]));
                                assert(event_shows(inds, events@[i as int]));
                            }
                            return true;
                        }
                        k += 1;
                    }
                },
                _ => {},
            }
            i += 1;
        }
        false
    }

    /// The patterns of the detector.
    pub fn get_patterns(&self) -> (r: &[AttackPattern])
        ensures
            r@.map_values(|p: AttackPattern| attack_pattern_view(p)) == self.patterns_view(),
    {
        self.patterns.as_slice()
    }
}

} // verus!
