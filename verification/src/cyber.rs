//! Cyber security detectors.

pub mod patterns;

use vstd::prelude::*;
use crate::closure::{node_views, distinct, contains_node, GraphNode};
use crate::model::{CyberEvent, SecurityAction, ActionV, action_view, JsonValue, JsonV, json_view, json_fields_view, push_field, Triple, TripleView, triples_view, InferenceRule};
use crate::siem::jstr;
use crate::cyber::patterns::action_views;
use crate::outside::{CompiledPattern, compile_pattern, pattern_is_match, copy_pattern, regex_accepts, regex_matches};
use crate::rdf_store::RdfStore;
use crate::store::{select, PatternView};
use crate::rules::RuleError;
use crate::rules::dsl::{RuleResult, PolicyOutputV, result_view};
use crate::nodeset::{insert_node, seq_insert, lemma_seq_insert};
use crate::text::{contains_text, has_substring};

verus! {

/// The patterns, of those given, that the regex crate accepts, in order.
pub open spec fn accepted_patterns(ps: Seq<Seq<char>>) -> Seq<Seq<char>>
    decreases ps.len(),
{
    if ps.len() == 0 {
        Seq::empty()
    } else {
        let rest = accepted_patterns(ps.drop_last());
        if regex_accepts(ps.last()) { rest.push(ps.last()) } else { rest }
    }
}

/// The pattern of the addresses 192.168.1.x.
pub open spec fn private_net_pattern() -> Seq<char> {
    "^192\\.168\\.1\\.\\d+$"@
}

/// The pattern of the addresses 10.0.0.x.
pub open spec fn internal_net_pattern() -> Seq<char> {
    "^10\\.0\\.0\\.\\d+$"@
}

/// Whether an address is known to be malicious or matches one of the
/// suspicious patterns.
pub open spec fn ip_flagged(known: Seq<Seq<char>>, patterns: Seq<Seq<char>>, ip: Seq<char>) -> bool {
    known.contains(ip) || exists|k: int| 0 <= k < patterns.len() && regex_matches(#[trigger] patterns[k], ip)
}

/// Knows malicious addresses and suspicious address patterns.
#[derive(Debug)]
pub struct MaliciousIpDetector {
    known_malicious_ips: Vec<String>,
    suspicious_patterns: Vec<CompiledPattern>,
}

/// The sources of compiled patterns.
pub open spec fn pattern_sources(ps: Seq<CompiledPattern>) -> Seq<Seq<char>> {
    ps.map_values(|p: CompiledPattern| p.source_view())
}

impl MaliciousIpDetector {
    /// The addresses known to be malicious.
    pub closed spec fn known(&self) -> Seq<Seq<char>> {
        node_views(self.known_malicious_ips@)
    }

    /// The suspicious address patterns.
    pub closed spec fn patterns(&self) -> Seq<Seq<char>> {
        pattern_sources(self.suspicious_patterns@)
    }

    /// A detector that knows 192.168.1.100 and 10.0.0.50 and suspects the
    /// addresses 192.168.1.x and 10.0.0.x.
    pub fn new() -> (r: Self)
        ensures
            r.known() == seq!["192.168.1.100"@, "10.0.0.50"@],
            r.patterns() == accepted_patterns(seq![private_net_pattern(), internal_net_pattern()]),
    {
        let mut known: Vec<String> = Vec::new();
        known.push("192.168.1.100".to_string());
        known.push("10.0.0.50".to_string());
        let mut patterns: Vec<CompiledPattern> = Vec::new();
        let first = "^192\\.168\\.1\\.\\d+$";
        let second = "^10\\.0\\.0\\.\\d+$";
        let ghost both = seq![first@, second@];
        match compile_pattern(first) {
            Some(p) => { patterns.push(p); },
            None => {},
        }
        proof {
            assert(both.drop_last() =~= seq![first@]);
            assert(seq![first@].drop_last() =~= Seq::<Seq<char>>::empty());
            assert(accepted_patterns(seq![first@].drop_last()) =~= Seq::<Seq<char>>::empty());
            assert(seq![first@].last() == first@);
            assert(pattern_sources(patterns@) =~= accepted_patterns(seq![first@]));
        }
        let ghost one = patterns@;
        match compile_pattern(second) {
            Some(p) => { patterns.push(p); },
            None => {},
        }
        proof {
            assert(pattern_sources(patterns@) =~= accepted_patterns(both));
            assert(node_views(known@) =~= seq!["192.168.1.100"@, "10.0.0.50"@]);
        }
        MaliciousIpDetector { known_malicious_ips: known, suspicious_patterns: patterns }
    }

    /// Whether the address is known to be malicious or matches a suspicious
    /// pattern.
    pub fn is_malicious_ip(&self, ip: &str) -> (r: bool)
        ensures
            r == ip_flagged(self.known(), self.patterns(), ip@),
    {
        let ip_owned = ip.to_string();
        if contains_node(&self.known_malicious_ips, &ip_owned) {
            return true;
        }
        let mut k: usize = 0;
        while k < self.suspicious_patterns.len()
            invariant
                k <= self.suspicious_patterns@.len(),
                forall|j: int| 0 <= j < k ==> !regex_matches(#[trigger] self.patterns()[j], ip@),
            decreases self.suspicious_patterns.len() - k,
        {
            if pattern_is_match(&self.suspicious_patterns[k], ip) {
                proof {
                    assert(self.patterns()[k as int] == self.suspicious_patterns@[k as int].source_view());
                }
                return true;
            }
            proof {
                assert(self.patterns()[k as int] == self.suspicious_patterns@[k as int].source_view());
            }
            k += 1;
        }
        false
    }

    /// The rule that raises an alert for each connection to a flagged
    /// address.
    pub fn create_rule(&self) -> (r: MaliciousIpRule)
        ensures
            r.detector_of().known() == self.known(),
            r.detector_of().patterns() == self.patterns(),
    {
        let mut known: Vec<String> = Vec::new();
        let mut k: usize = 0;
        while k < self.known_malicious_ips.len()
            invariant
                k <= self.known_malicious_ips@.len(),
                node_views(known@) == node_views(self.known_malicious_ips@.take(k as int)),
            decreases self.known_malicious_ips.len() - k,
        {
            let ghost before = known@;
            known.push(self.known_malicious_ips[k].copy_node());
            proof {
                assert(self.known_malicious_ips@.take(k + 1) =~= self.known_malicious_ips@.take(k as int).push(self.known_malicious_ips@[k as int]));
                assert(node_views(known@) =~= node_views(before).push(self.known_malicious_ips@[k as int]@));
                assert(node_views(self.known_malicious_ips@.take(k + 1)) =~= node_views(self.known_malicious_ips@.take(k as int)).push(self.known_malicious_ips@[k as int]@));
                assert(node_views(known@) =~= node_views(self.known_malicious_ips@.take(k + 1)));
            }
            k += 1;
        }
        let mut patterns: Vec<CompiledPattern> = Vec::new();
        let mut j: usize = 0;
        while j < self.suspicious_patterns.len()
            invariant
                j <= self.suspicious_patterns@.len(),
                pattern_sources(patterns@) == pattern_sources(self.suspicious_patterns@.take(j as int)),
            decreases self.suspicious_patterns.len() - j,
        {
            let ghost before = patterns@;
            patterns.push(copy_pattern(&self.suspicious_patterns[j]));
            proof {
                assert(self.suspicious_patterns@.take(j + 1) =~= self.suspicious_patterns@.take(j as int).push(self.suspicious_patterns@[j as int]));
                assert(pattern_sources(patterns@) =~= pattern_sources(before).push(self.suspicious_patterns@[j as int].source_view()));
                assert(pattern_sources(patterns@) =~= pattern_sources(self.suspicious_patterns@.take(j + 1)));
            }
            j += 1;
        }
        proof {
            assert(self.known_malicious_ips@.take(self.known_malicious_ips@.len() as int) =~= self.known_malicious_ips@);
            assert(self.suspicious_patterns@.take(self.suspicious_patterns@.len() as int) =~= self.suspicious_patterns@);
        }
        MaliciousIpRule { detector: MaliciousIpDetector { known_malicious_ips: known, suspicious_patterns: patterns } }
    }
}

/// The events of the store: subjects typed as cyber events.
pub open spec fn cyber_event_pattern() -> PatternView {
    PatternView {
        subject: None,
        predicate: Some("http://www.w3.org/1999/02/22-rdf-syntax-ns#type"@),
        object: Some("http://example.org/CyberEvent"@),
    }
}

/// The destination addresses of a connection.
pub open spec fn dest_ip_pattern(connection: Seq<char>) -> PatternView {
    PatternView { subject: Some(connection), predicate: Some("http://example.org/destIP"@), object: None }
}

/// The alert for a connection to a flagged address.
pub open spec fn malicious_alert(connection: Seq<char>, ip: Seq<char>) -> ActionV {
    ActionV::Alert("high"@, "Connection to malicious IP detected"@, JsonV::Object(seq![
        ("connection_id"@, jstr(connection)),
        ("destination_ip"@, jstr(ip)),
        ("detection_method"@, jstr("pattern_matching"@)),
    ]))
}

/// An alert for each of the destinations that is flagged, in order.
pub open spec fn dest_alerts(connection: Seq<char>, dests: Seq<TripleView>, known: Seq<Seq<char>>, patterns: Seq<Seq<char>>) -> Seq<ActionV>
    decreases dests.len(),
{
    if dests.len() == 0 {
        Seq::empty()
    } else {
        dest_alerts(connection, dests.drop_last(), known, patterns)
            + if ip_flagged(known, patterns, dests.last().object) {
                seq![malicious_alert(connection, dests.last().object)]
            } else {
                Seq::empty()
            }
    }
}

/// The alerts for the connections in order.
pub open spec fn connection_alerts(ts: Seq<TripleView>, conns: Seq<TripleView>, known: Seq<Seq<char>>, patterns: Seq<Seq<char>>) -> Seq<ActionV>
    decreases conns.len(),
{
    if conns.len() == 0 {
        Seq::empty()
    } else {
        connection_alerts(ts, conns.drop_last(), known, patterns)
            + dest_alerts(conns.last().subject, select(ts, dest_ip_pattern(conns.last().subject)), known, patterns)
    }
}

/// The alerts for the cyber events of the store whose destination address
/// is flagged.
pub open spec fn malicious_alerts(ts: Seq<TripleView>, known: Seq<Seq<char>>, patterns: Seq<Seq<char>>) -> Seq<ActionV> {
    connection_alerts(ts, select(ts, cyber_event_pattern()), known, patterns)
}

/// A rule that raises alerts for connections to flagged addresses.
#[derive(Debug)]
pub struct MaliciousIpRule {
    detector: MaliciousIpDetector,
}

impl MaliciousIpRule {
    /// The detector of the rule.
    pub closed spec fn detector_of(&self) -> MaliciousIpDetector {
        self.detector
    }

    /// The name of the rule.
    pub fn name(&self) -> (r: &'static str)
        ensures
            r@ == "malicious_ip_detection"@,
    {
        "malicious_ip_detection"
    }

    /// What the rule does.
    pub fn description(&self) -> (r: &'static str)
        ensures
            r@ == "Detect connections to known malicious IPs"@,
    {
        "Detect connections to known malicious IPs"
    }

    /// The priority of the rule.
    pub fn priority(&self) -> (r: i32)
        ensures
            r == 10,
    {
        10
    }

    /// The rule applies to every store.
    pub fn should_apply(&self, _store: &RdfStore) -> (r: bool)
        ensures
            r,
    {
        true
    }

    /// An alert for each destination address of each cyber event in the
    /// store that the detector flags; nothing else.
    pub fn apply(&self, store: &RdfStore) -> (r: Result<RuleResult, RuleError>)
        ensures
            r matches Ok(res) && res.metadata@.len() == 0
                && result_view(res) == (PolicyOutputV {
                    add: Seq::empty(),
                    remove: Seq::empty(),
                    actions: malicious_alerts(store.view_triples(), self.detector_of().known(), self.detector_of().patterns()),
                    violations: Seq::empty(),
                }),
    {
        let ghost ts = store.view_triples();
        let ghost known = self.detector.known();
        let ghost pats = self.detector.patterns();
        let connections = store.find_triples(None, Some("http://www.w3.org/1999/02/22-rdf-syntax-ns#type"), Some("http://example.org/CyberEvent"));
        let ghost cv = connections@.map_values(|t: &Triple| t@);
        proof {
            assert(cv == select(ts, cyber_event_pattern()));
            assert(cv.take(0) =~= Seq::<TripleView>::empty());
        }
        let mut actions: Vec<SecurityAction> = Vec::new();
        proof {
            assert(action_views(actions@) =~= Seq::<ActionV>::empty());
        }
        let mut c: usize = 0;
        while c < connections.len()
            invariant
                c <= connections@.len(),
                cv == connections@.map_values(|t: &Triple| t@),
                ts == store.view_triples(),
                known == self.detector.known(),
                pats == self.detector.patterns(),
                action_views(actions@) == connection_alerts(ts, cv.take(c as int), known, pats),
            decreases connections.len() - c,
        {
            let conn = connections[c];
            let ghost subject = conn.subject@;
            proof {
                assert(cv.take(c + 1).drop_last() =~= cv.take(c as int));
                assert(cv.take(c + 1).last() == conn@);
            }
            let dests = store.find_triples(Some(conn.subject.as_str()), Some("http://example.org/destIP"), None);
            let ghost dv = dests@.map_values(|t: &Triple| t@);
            let ghost before = action_views(actions@);
            proof {
                assert(dv == select(ts, dest_ip_pattern(subject)));
                assert(dv.take(0) =~= Seq::<TripleView>::empty());
                assert(before + dest_alerts(subject, dv.take(0), known, pats) =~= before);
            }
            let mut d: usize = 0;
            while d < dests.len()
                invariant
                    d <= dests@.len(),
                    dv == dests@.map_values(|t: &Triple| t@),
                    subject == conn.subject@,
                    known == self.detector.known(),
                    pats == self.detector.patterns(),
                    action_views(actions@) == before + dest_alerts(subject, dv.take(d as int), known, pats),
                decreases dests.len() - d,
            {
                let dest = dests[d];
                proof {
                    assert(dv.take(d + 1).drop_last() =~= dv.take(d as int));
                    assert(dv.take(d + 1).last() == dest@);
                }
                let ghost prior = action_views(actions@);
                if self.detector.is_malicious_ip(dest.object.as_str()) {
                    let alert = SecurityAction::Alert {
                        severity: "high".to_string(),
                        message: "Connection to malicious IP detected".to_string(),
                        details: three_fields(
                            "connection_id", conn.subject.as_str(),
                            "destination_ip", dest.object.as_str(),
                            "detection_method", "pattern_matching",
                        ),
                    };
                    let ghost prior_actions = actions@;
                    actions.push(alert);
                    proof {
                        assert(action_views(actions@) =~= action_views(prior_actions).push(malicious_alert(subject, dest.object@)));
                        assert(action_views(actions@) =~= before + dest_alerts(subject, dv.take(d + 1), known, pats));
                    }
                } else {
                    proof {
                        assert(dest_alerts(subject, dv.take(d + 1), known, pats) =~= dest_alerts(subject, dv.take(d as int), known, pats) + Seq::<ActionV>::empty());
                    }
                }
                d += 1;
            }
            proof {
                assert(dv.take(dests@.len() as int) =~= dv);
            }
            c += 1;
        }
        proof {
            assert(cv.take(connections@.len() as int) =~= cv);
        }
        let res = RuleResult {
            triples_to_add: Vec::new(),
            triples_to_remove: Vec::new(),
            actions,
            violations: Vec::new(),
            metadata: Vec::new(),
        };
        proof {
            assert(result_view(res).add =~= Seq::<TripleView>::empty());
            assert(result_view(res).remove =~= Seq::<TripleView>::empty());
            assert(result_view(res).violations =~= Seq::<crate::rules::dsl::ViolationV>::empty());
        }
        Ok(res)
    }
}

/// Watches logins for movement between hosts.
#[derive(Debug)]
pub struct LateralMovementDetector {
    time_window_seconds: u64,
}

/// The user, source address and time of a successful login; `None` for
/// any other event.
pub open spec fn successful_login(e: CyberEvent) -> Option<(Seq<char>, Seq<char>, i64)> {
    match e {
        CyberEvent::UserLogin { user, source_ip, success, timestamp } =>
            if success { Some((user@, source_ip@, timestamp)) } else { None },
        _ => None,
    }
}

/// The users with a successful login, each once, in the order of their
/// first one.
pub open spec fn login_users(es: Seq<CyberEvent>) -> Seq<Seq<char>>
    decreases es.len(),
{
    if es.len() == 0 {
        Seq::empty()
    } else {
        let rest = login_users(es.drop_last());
        match successful_login(es.last()) {
            Some(l) => if rest.contains(l.0) { rest } else { rest.push(l.0) },
            None => rest,
        }
    }
}

/// The successful logins of user `u`: source address and time, in order.
pub open spec fn sessions_of(es: Seq<CyberEvent>, u: Seq<char>) -> Seq<(Seq<char>, i64)>
    decreases es.len(),
{
    if es.len() == 0 {
        Seq::empty()
    } else {
        let rest = sessions_of(es.drop_last(), u);
        match successful_login(es.last()) {
            Some(l) => if l.0 == u { rest.push((l.1, l.2)) } else { rest },
            None => rest,
        }
    }
}

/// `x` put after every session of `s` that is not later than it.
pub open spec fn insert_by_time(s: Seq<(Seq<char>, i64)>, x: (Seq<char>, i64)) -> Seq<(Seq<char>, i64)>
    decreases s.len(),
{
    if s.len() == 0 {
        seq![x]
    } else if s.last().1 <= x.1 {
        s.push(x)
    } else {
        insert_by_time(s.drop_last(), x).push(s.last())
    }
}

/// The sessions ordered by time; sessions at the same time keep their
/// order (a stable sort).
pub open spec fn sort_by_time(s: Seq<(Seq<char>, i64)>) -> Seq<(Seq<char>, i64)>
    decreases s.len(),
{
    if s.len() == 0 {
        s
    } else {
        insert_by_time(sort_by_time(s.drop_last()), s.last())
    }
}

/// The three sessions from `i` on lie within `w` seconds and come from
/// three different addresses.
pub open spec fn rapid_window(s: Seq<(Seq<char>, i64)>, i: int, w: int) -> bool {
    &&& s[i + 2].1 - s[i].1 <= w
    &&& s[i].0 != s[i + 1].0
    &&& s[i].0 != s[i + 2].0
    &&& s[i + 1].0 != s[i + 2].0
}

/// The first start, from `i` on, of three sessions in a rapid window.
pub open spec fn first_rapid_window(s: Seq<(Seq<char>, i64)>, w: int, i: int) -> Option<int>
    decreases s.len() - i,
{
    if i < 0 || i + 3 > s.len() {
        None
    } else if rapid_window(s, i, w) {
        Some(i)
    } else {
        first_rapid_window(s, w, i + 1)
    }
}

/// The alert for user `u` whose time-ordered sessions `s` move rapidly
/// from `i` on.
pub open spec fn lateral_alert(u: Seq<char>, s: Seq<(Seq<char>, i64)>, i: int) -> ActionV {
    ActionV::Alert("high"@, "Rapid lateral movement detected"@, JsonV::Object(seq![
        ("session_count"@, JsonV::Number((s.len() as i64) as int)),
        ("time_span_seconds"@, JsonV::Number(s[i + 2].1 - s[i].1)),
        ("unique_ips"@, JsonV::Number(3)),
        ("user"@, jstr(u)),
    ]))
}

/// At most one alert for a user: for the first rapid window of the
/// sessions in time order.
pub open spec fn user_alerts(u: Seq<char>, sessions: Seq<(Seq<char>, i64)>, w: int) -> Seq<ActionV> {
    let t = sort_by_time(sessions);
    match first_rapid_window(t, w, 0) {
        Some(i) => seq![lateral_alert(u, t, i)],
        None => Seq::empty(),
    }
}

/// The alerts for the users in order.
pub open spec fn lateral_alerts(us: Seq<Seq<char>>, es: Seq<CyberEvent>, w: int) -> Seq<ActionV>
    decreases us.len(),
{
    if us.len() == 0 {
        Seq::empty()
    } else {
        lateral_alerts(us.drop_last(), es, w) + user_alerts(us.last(), sessions_of(es, us.last()), w)
    }
}

/// Whether the sessions are in time order.
pub open spec fn time_sorted(s: Seq<(Seq<char>, i64)>) -> bool {
    forall|i: int, j: int| 0 <= i < j < s.len() ==> (#[trigger] s[i]).1 <= (#[trigger] s[j]).1
}

/// Inserting keeps the order and adds just `x`.
proof fn lemma_insert_sorted(s: Seq<(Seq<char>, i64)>, x: (Seq<char>, i64))
    requires
        time_sorted(s),
    ensures
        time_sorted(insert_by_time(s, x)),
        insert_by_time(s, x).len() == s.len() + 1,
        forall|y: (Seq<char>, i64)| #[trigger] insert_by_time(s, x).contains(y) ==> y == x || s.contains(y),
    decreases s.len(),
{
    if s.len() == 0 {
    } else if s.last().1 <= x.1 {
        let r = s.push(x);
        assert forall|y: (Seq<char>, i64)| #[trigger] r.contains(y) implies y == x || s.contains(y) by {
            let k = choose|k: int| 0 <= k < r.len() && r[k] == y;
            if k < s.len() {
                assert(s[k] == y);
            }
        }
    } else {
        let d = s.drop_last();
        lemma_insert_sorted(d, x);
        let q = insert_by_time(d, x);
        let r = q.push(s.last());
        assert forall|i: int, j: int| 0 <= i < j < r.len() implies (#[trigger] r[i]).1 <= (#[trigger] r[j]).1 by {
            if j == r.len() - 1 {
                assert(q.contains(q[i]));
                if q[i] != x {
                    let m = choose|m: int| 0 <= m < d.len() && d[m] == q[i];
                    assert(s[m] == d[m]);
                }
            }
        }
        assert forall|y: (Seq<char>, i64)| #[trigger] r.contains(y) implies y == x || s.contains(y) by {
            let k = choose|k: int| 0 <= k < r.len() && r[k] == y;
            if k == r.len() - 1 {
                assert(s[s.len() - 1] == y);
            } else {
                assert(q[k] == y);
                assert(q.contains(y));
                if y != x {
                    let m = choose|m: int| 0 <= m < d.len() && d[m] == y;
                    assert(s[m] == y);
                }
            }
        }
    }
}

/// The stable sort is in time order and keeps the number of sessions.
proof fn lemma_sort_sorted(s: Seq<(Seq<char>, i64)>)
    ensures
        time_sorted(sort_by_time(s)),
        sort_by_time(s).len() == s.len(),
    decreases s.len(),
{
    if s.len() > 0 {
        lemma_sort_sorted(s.drop_last());
        lemma_insert_sorted(sort_by_time(s.drop_last()), s.last());
    }
}

/// A user gets at most one movement alert: the alerts are never more than
/// the users.
pub proof fn law_one_alert_per_user(us: Seq<Seq<char>>, es: Seq<CyberEvent>, w: int)
    ensures
        lateral_alerts(us, es, w).len() <= us.len(),
    decreases us.len(),
{
    if us.len() > 0 {
        law_one_alert_per_user(us.drop_last(), es, w);
    }
}

/// The values of sessions.
pub open spec fn session_views(s: Seq<(String, i64)>) -> Seq<(Seq<char>, i64)> {
    s.map_values(|p: (String, i64)| (p.0@, p.1))
}

/// Where `insert_by_time` puts `x`: after the last session not later than it.
proof fn lemma_insert_at(s: Seq<(Seq<char>, i64)>, x: (Seq<char>, i64), p: int)
    requires
        0 <= p <= s.len(),
        forall|q: int| p <= q < s.len() ==> (#[trigger] s[q]).1 > x.1,
        p == 0 || s[p - 1].1 <= x.1,
    ensures
        insert_by_time(s, x) == s.insert(p, x),
    decreases s.len(),
{
    if s.len() == 0 {
        assert(s.insert(p, x) =~= seq![x]);
    } else if s.last().1 <= x.1 {
        assert(p == s.len());
        assert(s.insert(p, x) =~= s.push(x));
    } else {
        let d = s.drop_last();
        assert(p < s.len());
        lemma_insert_at(d, x, p);
        assert(s.insert(p, x) =~= d.insert(p, x).push(s.last()));
    }
}

/// Put `x` into the time-ordered sessions after every session not later
/// than it.
fn insert_session(v: &mut Vec<(String, i64)>, x: (String, i64))
    ensures
        session_views(final(v)@) == insert_by_time(session_views(old(v)@), (x.0@, x.1)),
{
    let ghost sv = session_views(v@);
    let mut p: usize = v.len();
    while p > 0 && v[p - 1].1 > x.1
        invariant
            p <= v@.len(),
            sv == session_views(v@),
            forall|q: int| p <= q < sv.len() ==> (#[trigger] sv[q]).1 > x.1,
        decreases p,
    {
        p -= 1;
    }
    let ghost xv = (x.0@, x.1);
    proof {
        lemma_insert_at(sv, xv, p as int);
    }
    v.insert(p, x);
    proof {
        assert(session_views(v@) =~= sv.insert(p as int, xv));
    }
}

/// The sessions in time order, stable among equal times.
fn sort_sessions(s: &Vec<(String, i64)>) -> (r: Vec<(String, i64)>)
    ensures
        session_views(r@) == sort_by_time(session_views(s@)),
{
    let ghost sv = session_views(s@);
    let mut out: Vec<(String, i64)> = Vec::new();
    let mut k: usize = 0;
    proof {
        assert(sv.take(0) =~= Seq::<(Seq<char>, i64)>::empty());
        assert(session_views(out@) =~= Seq::<(Seq<char>, i64)>::empty());
    }
    while k < s.len()
        invariant
            k <= s@.len(),
            sv == session_views(s@),
            session_views(out@) == sort_by_time(sv.take(k as int)),
        decreases s.len() - k,
    {
        proof {
            assert(sv.take(k + 1).drop_last() =~= sv.take(k as int));
            assert(sv.take(k + 1).last() == sv[k as int]);
        }
        insert_session(&mut out, (s[k].0.clone(), s[k].1));
        k += 1;
    }
    proof {
        assert(sv.take(s@.len() as int) =~= sv);
    }
    out
}

/// The users with a successful login, each once, in order of their first one.
fn users_with_logins(events: &[CyberEvent]) -> (r: Vec<String>)
    ensures
        node_views(r@) == login_users(events@),
{
    let mut users: Vec<String> = Vec::new();
    let mut k: usize = 0;
    proof {
        assert(events@.take(0) =~= Seq::<CyberEvent>::empty());
        assert(node_views(users@) =~= Seq::<Seq<char>>::empty());
    }
    while k < events.len()
        invariant
            k <= events@.len(),
            node_views(users@) == login_users(events@.take(k as int)),
        decreases events.len() - k,
    {
        proof {
            assert(events@.take(k + 1).drop_last() =~= events@.take(k as int));
            assert(events@.take(k + 1).last() == events@[k as int]);
        }
        match &events[k] {
            CyberEvent::UserLogin { user, success, .. } => {
                if *success && !contains_node(&users, user) {
                    let ghost before = users@;
                    users.push(user.clone());
                    proof {
                        assert(node_views(users@) =~= node_views(before).push(user@));
                    }
                }
            },
            _ => {},
        }
        k += 1;
    }
    proof {
        assert(events@.take(events@.len() as int) =~= events@);
    }
    users
}

/// The successful logins of a user: source address and time, in order.
fn sessions_for(events: &[CyberEvent], u: &String) -> (r: Vec<(String, i64)>)
    ensures
        session_views(r@) == sessions_of(events@, u@),
{
    let mut out: Vec<(String, i64)> = Vec::new();
    let mut k: usize = 0;
    proof {
        assert(events@.take(0) =~= Seq::<CyberEvent>::empty());
        assert(session_views(out@) =~= Seq::<(Seq<char>, i64)>::empty());
    }
    while k < events.len()
        invariant
            k <= events@.len(),
            session_views(out@) == sessions_of(events@.take(k as int), u@),
        decreases events.len() - k,
    {
        proof {
            assert(events@.take(k + 1).drop_last() =~= events@.take(k as int));
            assert(events@.take(k + 1).last() == events@[k as int]);
        }
        match &events[k] {
            CyberEvent::UserLogin { user, source_ip, success, timestamp } => {
                if *success && *user == *u {
                    let ghost before = out@;
                    out.push((source_ip.clone(), *timestamp));
                    proof {
                        assert(session_views(out@) =~= session_views(before).push((source_ip@, *timestamp)));
                    }
                }
            },
            _ => {},
        }
        k += 1;
    }
    proof {
        assert(events@.take(events@.len() as int) =~= events@);
    }
    out
}

/// A triple of three texts.
fn triple_of(s: &str, p: &str, o: &str) -> (r: Triple)
    ensures
        r@ == (TripleView { subject: s@, predicate: p@, object: o@ }),
{
    Triple { subject: s.to_string(), predicate: p.to_string(), object: o.to_string() }
}

/// Three string fields of a JSON object, in this order.
fn three_fields(k1: &str, v1: &str, k2: &str, v2: &str, k3: &str, v3: &str) -> (r: JsonValue)
    ensures
        json_view(r) == JsonV::Object(seq![(k1@, jstr(v1@)), (k2@, jstr(v2@)), (k3@, jstr(v3@))]),
{
    let mut fields: Vec<(String, JsonValue)> = Vec::new();
    push_field(&mut fields, k1, JsonValue::str_value(v1));
    push_field(&mut fields, k2, JsonValue::str_value(v2));
    push_field(&mut fields, k3, JsonValue::str_value(v3));
    proof {
        assert(json_fields_view(fields@) =~= seq![(k1@, jstr(v1@)), (k2@, jstr(v2@)), (k3@, jstr(v3@))]);
    }
    JsonValue::Object(fields)
}

/// The conditions of the lateral movement rule.
pub open spec fn lateral_conditions() -> Seq<TripleView> {
    seq![
        TripleView { subject: "?user"@, predicate: "https://w3id.org/security#hasSession"@, object: "?session1"@ },
        TripleView { subject: "?user"@, predicate: "https://w3id.org/security#hasSession"@, object: "?session2"@ },
        TripleView { subject: "?session1"@, predicate: "https://w3id.org/security#sourceIp"@, object: "?ip1"@ },
        TripleView { subject: "?session2"@, predicate: "https://w3id.org/security#sourceIp"@, object: "?ip2"@ },
    ]
}

/// The actions of the lateral movement rule.
pub open spec fn lateral_actions() -> Seq<ActionV> {
    seq![ActionV::Alert("medium"@, "Potential lateral movement detected"@, JsonV::Object(seq![
        ("from_ip"@, jstr("?ip1"@)), ("to_ip"@, jstr("?ip2"@)), ("user"@, jstr("?user"@)),
    ]))]
}

impl LateralMovementDetector {
    /// The time window within which three logins count as movement.
    pub closed spec fn window(&self) -> u64 {
        self.time_window_seconds
    }

    /// The window is a number of seconds that a signed time difference can hold.
    #[verifier::type_invariant]
    spec fn window_fits(&self) -> bool {
        self.time_window_seconds <= i64::MAX
    }

    /// A detector with a window of five minutes.
    pub fn new() -> (r: Self)
        ensures
            r.window() == 300,
    {
        LateralMovementDetector { time_window_seconds: 300 }
    }

    /// For each user with successful logins (in the order of their first
    /// one), an alert when three of the user's logins in time order, one
    /// after the other, come from three addresses within the window.
    pub fn detect_lateral_movement(&self, events: &[CyberEvent]) -> (r: Vec<SecurityAction>)
        ensures
            action_views(r@) == lateral_alerts(login_users(events@), events@, self.window() as int),
    {
        proof {
            use_type_invariant(self);
        }
        let ghost w = self.window() as int;
        let users = users_with_logins(events);
        let ghost us = login_users(events@);
        let mut actions: Vec<SecurityAction> = Vec::new();
        let mut j: usize = 0;
        proof {
            assert(us.take(0) =~= Seq::<Seq<char>>::empty());
            assert(action_views(actions@) =~= Seq::<ActionV>::empty());
        }
        while j < users.len()
            invariant
                j <= users@.len(),
                w == self.window() as int,
                w <= i64::MAX,
                us == node_views(users@),
                action_views(actions@) == lateral_alerts(us.take(j as int), events@, w),
            decreases users.len() - j,
        {
            let u = &users[j];
            let sessions = sessions_for(events, u);
            let sorted = sort_sessions(&sessions);
            let ghost t = session_views(sorted@);
            proof {
                assert(us.take(j + 1).drop_last() =~= us.take(j as int));
                assert(us.take(j + 1).last() == u@);
                assert(t == sort_by_time(sessions_of(events@, u@)));
                lemma_sort_sorted(sessions_of(events@, u@));
            }
            let ghost before = action_views(actions@);
            if sorted.len() >= 3 {
                let mut i: usize = 0;
                proof {
                    assert(before + Seq::<ActionV>::empty() =~= before);
                }
                while i + 2 < sorted.len()
                    invariant_except_break
                        i + 2 <= sorted@.len(),
                        t == session_views(sorted@),
                        t == sort_by_time(sessions_of(events@, u@)),
                        time_sorted(t),
                        before + Seq::<ActionV>::empty() == before,
                        w == self.window() as int,
                        w <= i64::MAX,
                        action_views(actions@) == before,
                        first_rapid_window(t, w, 0) == first_rapid_window(t, w, i as int),
                    ensures
                        action_views(actions@) == before + user_alerts(u@, sessions_of(events@, u@), w),
                    decreases sorted.len() - i,
                {
                    let t0 = sorted[i].1;
                    let t2 = sorted[i + 2].1;
                    let span: i128 = t2 as i128 - t0 as i128;
                    if span <= self.time_window_seconds as i128
                        && !(sorted[i].0 == sorted[i + 1].0)
                        && !(sorted[i].0 == sorted[i + 2].0)
                        && !(sorted[i + 1].0 == sorted[i + 2].0)
                    {
                        proof {
                            assert(rapid_window(t, i as int, w));
                            assert(t[i as int].1 <= t[i + 2].1);
                        }
                        let details = self.movement_details(u, sorted.len(), t2 - t0);
                        let alert = SecurityAction::Alert {
                            severity: "high".to_string(),
                            message: "Rapid lateral movement detected".to_string(),
                            details,
                        };
                        proof {
                            assert(action_view(alert) == lateral_alert(u@, t, i as int));
                        }
                        let ghost prior = actions@;
                        actions.push(alert);
                        proof {
                            assert(action_views(actions@) =~= action_views(prior).push(action_view(alert)));
                            assert(user_alerts(u@, sessions_of(events@, u@), w) == seq![lateral_alert(u@, t, i as int)]);
                        }
                        break;
                    }
                    i += 1;
                }
            } else {
                proof {
                    assert(first_rapid_window(t, w, 0) is None);
                    assert(before + Seq::<ActionV>::empty() =~= before);
                }
            }
            j += 1;
        }
        proof {
            assert(us.take(users@.len() as int) =~= us);
        }
        actions
    }

    /// The details of a movement alert.
    fn movement_details(&self, user: &String, count: usize, span: i64) -> (r: JsonValue)
        requires
            span >= 0,
        ensures
            json_view(r) == JsonV::Object(seq![
                ("session_count"@, JsonV::Number((count as i64) as int)),
                ("time_span_seconds"@, JsonV::Number(span as int)),
                ("unique_ips"@, JsonV::Number(3)),
                ("user"@, jstr(user@)),
            ]),
    {
        let mut fields: Vec<(String, JsonValue)> = Vec::new();
        push_field(&mut fields, "session_count", JsonValue::Number(count as i64));
        push_field(&mut fields, "time_span_seconds", JsonValue::Number(span));
        push_field(&mut fields, "unique_ips", JsonValue::Number(3));
        push_field(&mut fields, "user", JsonValue::str_value(user.as_str()));
        proof {
            assert(json_fields_view(fields@) =~= seq![
                ("session_count"@, JsonV::Number((count as i64) as int)),
                ("time_span_seconds"@, JsonV::Number(span as int)),
                ("unique_ips"@, JsonV::Number(3)),
                ("user"@, jstr(user@)),
            ]);
        }
        JsonValue::Object(fields)
    }

    /// The inference rule that looks for a user with sessions from two
    /// addresses.
    pub fn create_rule(&self) -> (r: InferenceRule)
        ensures
            r.name@ == "lateral_movement_detection"@,
            r.description@ == "Detect lateral movement patterns across multiple hosts"@,
            triples_view(r.conditions@) == lateral_conditions(),
            action_views(r.actions@) == lateral_actions(),
    {
        let mut conditions: Vec<Triple> = Vec::new();
        conditions.push(triple_of("?user", "https://w3id.org/security#hasSession", "?session1"));
        conditions.push(triple_of("?user", "https://w3id.org/security#hasSession", "?session2"));
        conditions.push(triple_of("?session1", "https://w3id.org/security#sourceIp", "?ip1"));
        conditions.push(triple_of("?session2", "https://w3id.org/security#sourceIp", "?ip2"));
        let mut actions: Vec<SecurityAction> = Vec::new();
        actions.push(SecurityAction::Alert {
            severity: "medium".to_string(),
            message: "Potential lateral movement detected".to_string(),
            details: three_fields("from_ip", "?ip1", "to_ip", "?ip2", "user", "?user"),
        });
        proof {
            assert(triples_view(conditions@) =~= lateral_conditions());
            assert(action_views(actions@) =~= lateral_actions());
        }
        InferenceRule {
            name: "lateral_movement_detection".to_string(),
            description: "Detect lateral movement patterns across multiple hosts".to_string(),
            conditions,
            actions,
        }
    }
}

/// Recognises commands that may escalate privileges.
#[derive(Debug)]
pub struct PrivilegeEscalationDetector {
    dangerous_commands: Vec<String>,
}

/// The command fragments that mark a dangerous command.
pub open spec fn dangerous_fragments() -> Seq<Seq<char>> {
    seq!["sudo"@, "su"@, "chmod 777"@, "rm -rf /"@, "netcat"@, "nmap"@]
}

/// The conditions of the privilege escalation rule.
pub open spec fn privilege_conditions() -> Seq<TripleView> {
    seq![
        TripleView { subject: "?process"@, predicate: "rdf:type"@, object: "https://w3id.org/security#ProcessExecution"@ },
        TripleView { subject: "?process"@, predicate: "https://w3id.org/security#user"@, object: "?user"@ },
        TripleView { subject: "?user"@, predicate: "https://w3id.org/security#privilegeLevel"@, object: "admin"@ },
        TripleView { subject: "?process"@, predicate: "https://w3id.org/security#commandLine"@, object: "?command"@ },
    ]
}

/// The actions of the privilege escalation rule.
pub open spec fn privilege_actions() -> Seq<ActionV> {
    seq![
        ActionV::IsolateHost("?host_ip"@, "Privileged user executing dangerous commands"@),
        ActionV::RevokePrivileges("?user"@, "admin"@, "Dangerous command execution detected"@),
        ActionV::Alert("critical"@, "Privilege escalation alert"@, JsonV::Object(seq![
            ("command"@, jstr("?command"@)), ("process"@, jstr("?process"@)), ("user"@, jstr("?user"@)),
        ])),
    ]
}

impl PrivilegeEscalationDetector {
    /// The fragments the detector looks for, each once.
    pub closed spec fn fragments(&self) -> Seq<Seq<char>> {
        node_views(self.dangerous_commands@)
    }

    /// A detector for sudo, su, chmod 777, rm -rf /, netcat and nmap.
    pub fn new() -> (r: Self)
        ensures
            r.fragments() == dangerous_fragments(),
            distinct(r.fragments()),
    {
        let mut v: Vec<String> = Vec::new();
        v.push("sudo".to_string());
        v.push("su".to_string());
        v.push("chmod 777".to_string());
        v.push("rm -rf /".to_string());
        v.push("netcat".to_string());
        v.push("nmap".to_string());
        proof {
            reveal_strlit("sudo");
            reveal_strlit("su");
            reveal_strlit("chmod 777");
            reveal_strlit("rm -rf /");
            reveal_strlit("netcat");
            reveal_strlit("nmap");
            assert(node_views(v@) =~= dangerous_fragments());
            let f = dangerous_fragments();
            assert(f[0].len() == 4 && f[1].len() == 2 && f[2].len() == 9 && f[3].len() == 8 && f[4].len() == 6 && f[5].len() == 4);
            assert(f[0][0] != f[5][0]);
            assert forall|i: int, j: int| 0 <= i < j < f.len() implies f[i] != f[j] by {
                if f[i].len() == f[j].len() {
                    assert(i == 0 && j == 5);
                    assert(f[i][0] != f[j][0]);
                }
            }
        }
        PrivilegeEscalationDetector { dangerous_commands: v }
    }

    /// The inference rule that looks for an admin running a command.
    pub fn create_rule(&self) -> (r: InferenceRule)
        ensures
            r.name@ == "privilege_escalation_detection"@,
            r.description@ == "Detect privilege escalation through dangerous command execution"@,
            triples_view(r.conditions@) == privilege_conditions(),
            action_views(r.actions@) == privilege_actions(),
    {
        let mut conditions: Vec<Triple> = Vec::new();
        conditions.push(triple_of("?process", "rdf:type", "https://w3id.org/security#ProcessExecution"));
        conditions.push(triple_of("?process", "https://w3id.org/security#user", "?user"));
        conditions.push(triple_of("?user", "https://w3id.org/security#privilegeLevel", "admin"));
        conditions.push(triple_of("?process", "https://w3id.org/security#commandLine", "?command"));
        let mut actions: Vec<SecurityAction> = Vec::new();
        actions.push(SecurityAction::IsolateHost {
            host_ip: "?host_ip".to_string(),
            reason: "Privileged user executing dangerous commands".to_string(),
        });
        actions.push(SecurityAction::RevokePrivileges {
            user: "?user".to_string(),
            privilege: "admin".to_string(),
            reason: "Dangerous command execution detected".to_string(),
        });
        actions.push(SecurityAction::Alert {
            severity: "critical".to_string(),
            message: "Privilege escalation alert".to_string(),
            details: three_fields("command", "?command", "process", "?process", "user", "?user"),
        });
        proof {
            assert(triples_view(conditions@) =~= privilege_conditions());
            assert(action_views(actions@) =~= privilege_actions());
        }
        InferenceRule {
            name: "privilege_escalation_detection".to_string(),
            description: "Detect privilege escalation through dangerous command execution".to_string(),
            conditions,
            actions,
        }
    }

    /// Whether the command contains one of the dangerous fragments.
    pub fn is_dangerous_command(&self, command: &str) -> (r: bool)
        ensures
            r == exists|k: int| 0 <= k < self.fragments().len() && has_substring(command@, #[trigger] self.fragments()[k]),
    {
        let mut k: usize = 0;
        while k < self.dangerous_commands.len()
            invariant
                k <= self.dangerous_commands@.len(),
                forall|j: int| 0 <= j < k ==> !has_substring(command@, #[trigger] self.fragments()[j]),
            decreases self.dangerous_commands.len() - k,
        {
            if contains_text(command, self.dangerous_commands[k].as_str()) {
                proof {
                    assert(self.fragments()[k as int] == self.dangerous_commands@[k as int]@);
                }
                return true;
            }
            proof {
                assert(self.fragments()[k as int] == self.dangerous_commands@[k as int]@);
            }
            k += 1;
        }
        false
    }
}

impl crate::rules::registry::Rule for MaliciousIpRule {
    open spec fn may_decline(&self, ts: Seq<TripleView>) -> bool {
        false
    }

    open spec fn apply_answer(&self, ts: Seq<TripleView>, r: Result<RuleResult, RuleError>) -> bool {
        r matches Ok(res) && res.metadata@.len() == 0
            && result_view(res) == (PolicyOutputV {
                add: Seq::empty(),
                remove: Seq::empty(),
                actions: malicious_alerts(ts, self.detector_of().known(), self.detector_of().patterns()),
                violations: Seq::empty(),
            })
    }

    fn name(&self) -> (r: &'static str)
        ensures
            r@ == "malicious_ip_detection"@,
    {
        MaliciousIpRule::name(self)
    }

    fn description(&self) -> (r: &'static str)
        ensures
            r@ == "Detect connections to known malicious IPs"@,
    {
        MaliciousIpRule::description(self)
    }

    fn priority(&self) -> (r: i32)
        ensures
            r == 10,
    {
        MaliciousIpRule::priority(self)
    }

    fn apply(&self, store: &RdfStore) -> (r: Result<RuleResult, RuleError>)
        ensures
            r matches Ok(res) && res.metadata@.len() == 0
                && result_view(res) == (PolicyOutputV {
                    add: Seq::empty(),
                    remove: Seq::empty(),
                    actions: malicious_alerts(store.view_triples(), self.detector_of().known(), self.detector_of().patterns()),
                    violations: Seq::empty(),
                }),
    {
        MaliciousIpRule::apply(self, store)
    }

    fn should_apply(&self, store: &RdfStore) -> (r: bool)
        ensures
            r,
    {
        MaliciousIpRule::should_apply(self, store)
    }
}

} // verus!
