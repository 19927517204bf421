//! SIEM integration settings: the systems the reasoner forwards its findings
//! to, ready-made settings for each, and the address events are sent to.

use vstd::prelude::*;
use std::collections::HashMap;
use vstd::string::StrSliceExecFns;
use vstd::string::StringExecFns;
use crate::model::{JsonValue, JsonV, SecurityAction, json_view, json_fields_view, push_field, copy_fields};
use crate::outside::current_rfc3339;
use crate::text::{join, decimal, decimal_spec};

verus! {

/// Kind of SIEM system.
#[derive(Debug, Clone, Copy, PartialEq, Eq, Structural)]
pub enum SiemType {
    Splunk,
    Elk,
    Chronicle,
    Custom,
}

/// Settings of one SIEM system.
#[derive(Debug, Clone)]
pub struct SiemConfig {
    pub system_type: SiemType,
    pub endpoint_url: String,
    pub auth_token: Option<String>,
    pub username: Option<String>,
    pub password: Option<String>,
    pub index: Option<String>,
    pub source_type: Option<String>,
    pub custom_headers: HashMap<String, String>,
}

/// Errors of the SIEM integration.
#[derive(Debug)]
pub enum SiemError {
    NetworkError(String),
    HttpError { status: u16, body: String },
    SerializationError(String),
    ConfigError(String),
    MultipleErrors(Vec<(String, SiemError)>),
}

/// Ready-made SIEM settings.
#[derive(Debug)]
pub struct SiemUtils;

/// The view of an optional string.
pub open spec fn opt_view(o: Option<String>) -> Option<Seq<char>> {
    match o {
        Some(s) => Some(s@),
        None => None,
    }
}

impl SiemUtils {
    /// Splunk settings: the token, index "security" and source type
    /// "fukurow:security".
    pub fn create_splunk_config(endpoint_url: String, auth_token: String) -> (r: SiemConfig)
        ensures
            r.system_type == SiemType::Splunk,
            r.endpoint_url@ == endpoint_url@,
            opt_view(r.auth_token) == Some(auth_token@),
            r.username is None,
            r.password is None,
            opt_view(r.index) == Some("security"@),
            opt_view(r.source_type) == Some("fukurow:security"@),
            r.custom_headers@.len() == 0,
    {
        SiemConfig {
            system_type: SiemType::Splunk,
            endpoint_url,
            auth_token: Some(auth_token),
            username: None,
            password: None,
            index: Some("security".to_string()),
            source_type: Some("fukurow:security".to_string()),
            custom_headers: HashMap::new(),
        }
    }

    /// ELK settings with an optional token.
    pub fn create_elk_config(endpoint_url: String, auth_token: Option<String>) -> (r: SiemConfig)
        ensures
            r.system_type == SiemType::Elk,
            r.endpoint_url@ == endpoint_url@,
            opt_view(r.auth_token) == opt_view(auth_token),
            r.username is None,
            r.password is None,
            r.index is None,
            r.source_type is None,
            r.custom_headers@.len() == 0,
    {
        SiemConfig {
            system_type: SiemType::Elk,
            endpoint_url,
            auth_token,
            username: None,
            password: None,
            index: None,
            source_type: None,
            custom_headers: HashMap::new(),
        }
    }

    /// Chronicle settings.
    pub fn create_chronicle_config(endpoint_url: String, auth_token: String) -> (r: SiemConfig)
        ensures
            r.system_type == SiemType::Chronicle,
            r.endpoint_url@ == endpoint_url@,
            opt_view(r.auth_token) == Some(auth_token@),
            r.username is None,
            r.password is None,
            r.index is None,
            r.source_type is None,
            r.custom_headers@.len() == 0,
    {
        SiemConfig {
            system_type: SiemType::Chronicle,
            endpoint_url,
            auth_token: Some(auth_token),
            username: None,
            password: None,
            index: None,
            source_type: None,
            custom_headers: HashMap::new(),
        }
    }
}

/// `s` without its trailing slashes.
pub open spec fn trim_trailing_slashes(s: Seq<char>) -> Seq<char>
    decreases s.len(),
{
    if s.len() > 0 && s.last() == '/' {
        trim_trailing_slashes(s.drop_last())
    } else {
        s
    }
}

/// The path that events of a system are posted to.
pub open spec fn ingest_path(t: SiemType) -> Seq<char> {
    match t {
        SiemType::Splunk => "/services/collector/event"@,
        SiemType::Elk => "/_bulk"@,
        SiemType::Chronicle => "/v1/ingest"@,
        SiemType::Custom => ""@,
    }
}

/// The address events are posted to: the endpoint without trailing slashes,
/// then the ingest path of the system.
pub fn build_url(config: &SiemConfig) -> (r: String)
    ensures
        r@ == trim_trailing_slashes(config.endpoint_url@) + ingest_path(config.system_type),
{
    let base = config.endpoint_url.as_str();
    let mut end = base.unicode_len();
    proof {
        assert(base@.subrange(0, end as int) =~= base@);
    }
    while end > 0 && base.get_char(end - 1) == '/'
        invariant
            end <= base@.len(),
            trim_trailing_slashes(base@) == trim_trailing_slashes(base@.subrange(0, end as int)),
        decreases end,
    {
        proof {
            assert(base@.subrange(0, end - 1) =~= base@.subrange(0, end as int).drop_last());
        }
        end -= 1;
    }
    let trimmed = base.substring_char(0, end);
    proof {
        assert(trimmed@ == trim_trailing_slashes(base@.subrange(0, end as int)));
    }
    let path = match config.system_type {
        SiemType::Splunk => "/services/collector/event",
        SiemType::Elk => "/_bulk",
        SiemType::Chronicle => "/v1/ingest",
        SiemType::Custom => "",
    };
    trimmed.to_string().concat(path)
}

/// An event as a SIEM system receives it.
#[derive(Debug, Clone)]
pub struct SiemEvent {
    pub timestamp: String,
    pub level: String,
    pub message: String,
    pub host: String,
    pub source: String,
    pub event_type: String,
    pub severity: String,
    pub details: JsonValue,
    /// Further fields, each key once
    pub metadata: Vec<(String, JsonValue)>,
}

/// A JSON string value.
pub open spec fn jstr(s: Seq<char>) -> JsonV {
    JsonV::Str(s)
}

/// What a security action becomes: level, message, event type, severity
/// and details (the keys of the details in sorted order, as serde_json
/// writes them).
pub open spec fn action_event_spec(a: SecurityAction) -> (Seq<char>, Seq<char>, Seq<char>, Seq<char>, JsonV) {
    match a {
        SecurityAction::Alert { severity, message, details } =>
            (severity@, message@, "security_alert"@, severity@, json_view(details)),
        SecurityAction::IsolateHost { host_ip, reason } =>
            ("critical"@, "Host isolation required: "@ + host_ip@ + " - "@ + reason@, "host_isolation"@, "critical"@,
                JsonV::Object(seq![("action"@, jstr("isolate"@)), ("reason"@, jstr(reason@)), ("target_host"@, jstr(host_ip@))])),
        SecurityAction::BlockConnection { source_ip, dest_ip, reason } =>
            ("high"@, "Connection blocked: "@ + source_ip@ + " -> "@ + dest_ip@ + " - "@ + reason@, "connection_block"@, "high"@,
                JsonV::Object(seq![("action"@, jstr("block"@)), ("dest_ip"@, jstr(dest_ip@)), ("reason"@, jstr(reason@)), ("source_ip"@, jstr(source_ip@))])),
        SecurityAction::TerminateProcess { process_id, reason } =>
            ("high"@, "Process termination required: "@ + decimal_spec(process_id as nat) + " - "@ + reason@, "process_termination"@, "high"@,
                JsonV::Object(seq![("action"@, jstr("terminate"@)), ("process_id"@, JsonV::Number(process_id as int)), ("reason"@, jstr(reason@))])),
        SecurityAction::RevokePrivileges { user, privilege, reason } =>
            ("medium"@, "Privilege revocation required: "@ + user@ + " - "@ + privilege@ + " - "@ + reason@, "privilege_revocation"@, "medium"@,
                JsonV::Object(seq![("action"@, jstr("revoke"@)), ("privilege"@, jstr(privilege@)), ("reason"@, jstr(reason@)), ("user"@, jstr(user@))])),
    }
}

/// `v` is a JSON object that has a field `k`, and every field `k` of it
/// holds `x`.
pub open spec fn carries(v: JsonV, k: Seq<char>, x: JsonV) -> bool {
    &&& v is Object
    &&& exists|i: int| 0 <= i < v->Object_0.len() && #[trigger] v->Object_0[i] == (k, x)
    &&& forall|i: int| 0 <= i < v->Object_0.len() && (#[trigger] v->Object_0[i]).0 == k ==> v->Object_0[i].1 == x
}

proof fn lemma_detail_keys()
    ensures
        "action"@[0] == 'a',
        "dest_ip"@[0] == 'd',
        "reason"@[0] == 'r',
        "source_ip"@[0] == 's',
        "target_host"@[0] == 't',
        "process_id"@[0] == 'p',
        "privilege"@[0] == 'p',
        "user"@[0] == 'u',
        "action"@.len() > 0,
        "dest_ip"@.len() > 0,
        "reason"@.len() > 0,
        "source_ip"@.len() > 0,
        "target_host"@.len() > 0,
        "process_id"@.len() > 0,
        "privilege"@.len() > 0,
        "user"@.len() > 0,
{
    reveal_strlit("action");
    reveal_strlit("dest_ip");
    reveal_strlit("reason");
    reveal_strlit("source_ip");
    reveal_strlit("target_host");
    reveal_strlit("process_id");
    reveal_strlit("privilege");
    reveal_strlit("user");
}

/// The details of the SIEM event for an action carry the action's own
/// fields, each under its own name: a blocked connection's source address
/// under "source_ip" and its destination under "dest_ip", an isolated
/// host under "target_host", a process under "process_id", a user and a
/// privilege under "user" and "privilege", and every reason under
/// "reason"; an alert's details are its own.
pub proof fn law_event_details(a: SecurityAction)
    ensures
        ({
            let d = action_event_spec(a).4;
            match a {
                SecurityAction::BlockConnection { source_ip, dest_ip, reason } => {
                    &&& carries(d, "source_ip"@, jstr(source_ip@))
                    &&& carries(d, "dest_ip"@, jstr(dest_ip@))
                    &&& carries(d, "reason"@, jstr(reason@))
                    &&& carries(d, "action"@, jstr("block"@))
                },
                SecurityAction::IsolateHost { host_ip, reason } => {
                    &&& carries(d, "target_host"@, jstr(host_ip@))
                    &&& carries(d, "reason"@, jstr(reason@))
                    &&& carries(d, "action"@, jstr("isolate"@))
                },
                SecurityAction::TerminateProcess { process_id, reason } => {
                    &&& carries(d, "process_id"@, JsonV::Number(process_id as int))
                    &&& carries(d, "reason"@, jstr(reason@))
                    &&& carries(d, "action"@, jstr("terminate"@))
                },
                SecurityAction::RevokePrivileges { user, privilege, reason } => {
                    &&& carries(d, "user"@, jstr(user@))
                    &&& carries(d, "privilege"@, jstr(privilege@))
                    &&& carries(d, "reason"@, jstr(reason@))
                    &&& carries(d, "action"@, jstr("revoke"@))
                },
                SecurityAction::Alert { details, .. } => d == json_view(details),
            }
        }),
{
    lemma_detail_keys();
    let d = action_event_spec(a).4;
    match a {
        SecurityAction::BlockConnection { source_ip, dest_ip, reason } => {
            let fs = d->Object_0;
            assert(fs[0] == ("action"@, jstr("block"@)));
            assert(fs[1] == ("dest_ip"@, jstr(dest_ip@)));
            assert(fs[2] == ("reason"@, jstr(reason@)));
            assert(fs[3] == ("source_ip"@, jstr(source_ip@)));
        },
        SecurityAction::IsolateHost { host_ip, reason } => {
            let fs = d->Object_0;
            assert(fs[0] == ("action"@, jstr("isolate"@)));
            assert(fs[1] == ("reason"@, jstr(reason@)));
            assert(fs[2] == ("target_host"@, jstr(host_ip@)));
        },
        SecurityAction::TerminateProcess { process_id, reason } => {
            let fs = d->Object_0;
            assert(fs[0] == ("action"@, jstr("terminate"@)));
            assert(fs[1] == ("process_id"@, JsonV::Number(process_id as int)));
            assert(fs[2] == ("reason"@, jstr(reason@)));
        },
        SecurityAction::RevokePrivileges { user, privilege, reason } => {
            let fs = d->Object_0;
            assert(fs[0] == ("action"@, jstr("revoke"@)));
            assert(fs[1] == ("privilege"@, jstr(privilege@)));
            assert(fs[2] == ("reason"@, jstr(reason@)));
            assert(fs[3] == ("user"@, jstr(user@)));
        },
        SecurityAction::Alert { .. } => {},
    }
}

/// `a`, then `b`, then `c`.
fn join3(a: &str, b: &str, c: &str) -> (r: String)
    ensures
        r@ == a@ + b@ + c@,
{
    let ab = join(a, b);
    join(ab.as_str(), c)
}

impl SiemEvent {
    /// The event for a security action, on `host`, from
    /// "fukurow-reasoner", stamped with the current time.
    pub fn from_security_action(action: &SecurityAction, host: String) -> (r: SiemEvent)
        ensures
            (r.level@, r.message@, r.event_type@, r.severity@, json_view(r.details)) == action_event_spec(*action),
            r.host@ == host@,
            r.source@ == "fukurow-reasoner"@,
            r.metadata@.len() == 0,
    {
        let timestamp = current_rfc3339();
        match action {
            SecurityAction::Alert { severity, message, details } => SiemEvent {
                timestamp,
                level: severity.as_str().to_string(),
                message: message.as_str().to_string(),
                host,
                source: "fukurow-reasoner".to_string(),
                event_type: "security_alert".to_string(),
                severity: severity.as_str().to_string(),
                details: details.clone(),
                metadata: Vec::new(),
            },
            SecurityAction::IsolateHost { host_ip, reason } => {
                let head = join3("Host isolation required: ", host_ip.as_str(), " - ");
                let mut fields: Vec<(String, JsonValue)> = Vec::new();
                push_field(&mut fields, "action", JsonValue::str_value("isolate"));
                push_field(&mut fields, "reason", JsonValue::str_value(reason.as_str()));
                push_field(&mut fields, "target_host", JsonValue::str_value(host_ip.as_str()));
                proof {
                    assert(json_fields_view(fields@) =~= seq![("action"@, jstr("isolate"@)), ("reason"@, jstr(reason@)), ("target_host"@, jstr(host_ip@))]);
                }
                SiemEvent {
                    timestamp,
                    level: "critical".to_string(),
                    message: join(head.as_str(), reason.as_str()),
                    host,
                    source: "fukurow-reasoner".to_string(),
                    event_type: "host_isolation".to_string(),
                    severity: "critical".to_string(),
                    details: JsonValue::Object(fields),
                    metadata: Vec::new(),
                }
            },
            SecurityAction::BlockConnection { source_ip, dest_ip, reason } => {
                let head = join3("Connection blocked: ", source_ip.as_str(), " -> ");
                let mid = join3(head.as_str(), dest_ip.as_str(), " - ");
                let mut fields: Vec<(String, JsonValue)> = Vec::new();
                push_field(&mut fields, "action", JsonValue::str_value("block"));
                push_field(&mut fields, "dest_ip", JsonValue::str_value(dest_ip.as_str()));
                push_field(&mut fields, "reason", JsonValue::str_value(reason.as_str()));
                push_field(&mut fields, "source_ip", JsonValue::str_value(source_ip.as_str()));
                proof {
                    assert(json_fields_view(fields@) =~= seq![("action"@, jstr("block"@)), ("dest_ip"@, jstr(dest_ip@)), ("reason"@, jstr(reason@)), ("source_ip"@, jstr(source_ip@))]);
                }
                SiemEvent {
                    timestamp,
                    level: "high".to_string(),
                    message: join(mid.as_str(), reason.as_str()),
                    host,
                    source: "fukurow-reasoner".to_string(),
                    event_type: "connection_block".to_string(),
                    severity: "high".to_string(),
                    details: JsonValue::Object(fields),
                    metadata: Vec::new(),
                }
            },
            SecurityAction::TerminateProcess { process_id, reason } => {
                let pid = decimal(*process_id as u64);
                let head = join3("Process termination required: ", pid.as_str(), " - ");
                let mut fields: Vec<(String, JsonValue)> = Vec::new();
                push_field(&mut fields, "action", JsonValue::str_value("terminate"));
                push_field(&mut fields, "process_id", JsonValue::Number(*process_id as i64));
                push_field(&mut fields, "reason", JsonValue::str_value(reason.as_str()));
                proof {
                    assert(json_fields_view(fields@) =~= seq![("action"@, jstr("terminate"@)), ("process_id"@, JsonV::Number(*process_id as int)), ("reason"@, jstr(reason@))]);
                }
                SiemEvent {
                    timestamp,
                    level: "high".to_string(),
                    message: join(head.as_str(), reason.as_str()),
                    host,
                    source: "fukurow-reasoner".to_string(),
                    event_type: "process_termination".to_string(),
                    severity: "high".to_string(),
                    details: JsonValue::Object(fields),
                    metadata: Vec::new(),
                }
            },
            SecurityAction::RevokePrivileges { user, privilege, reason } => {
                let head = join3("Privilege revocation required: ", user.as_str(), " - ");
                let mid = join3(head.as_str(), privilege.as_str(), " - ");
                let mut fields: Vec<(String, JsonValue)> = Vec::new();
                push_field(&mut fields, "action", JsonValue::str_value("revoke"));
                push_field(&mut fields, "privilege", JsonValue::str_value(privilege.as_str()));
                push_field(&mut fields, "reason", JsonValue::str_value(reason.as_str()));
                push_field(&mut fields, "user", JsonValue::str_value(user.as_str()));
                proof {
                    assert(json_fields_view(fields@) =~= seq![("action"@, jstr("revoke"@)), ("privilege"@, jstr(privilege@)), ("reason"@, jstr(reason@)), ("user"@, jstr(user@))]);
                }
                SiemEvent {
                    timestamp,
                    level: "medium".to_string(),
                    message: join(mid.as_str(), reason.as_str()),
                    host,
                    source: "fukurow-reasoner".to_string(),
                    event_type: "privilege_revocation".to_string(),
                    severity: "medium".to_string(),
                    details: JsonValue::Object(fields),
                    metadata: Vec::new(),
                }
            },
        }
    }
}

/// A string setting, or a default when it is not set.
pub open spec fn setting_or(o: Option<String>, d: Seq<char>) -> Seq<char> {
    match o {
        Some(s) => s@,
        None => d,
    }
}

/// An event as a JSON object, its keys in sorted order as serde_json writes
/// them; the metadata keeps the order of its list.
pub open spec fn event_json_spec(e: SiemEvent) -> JsonV {
    JsonV::Object(seq![
        ("details"@, json_view(e.details)),
        ("event_type"@, jstr(e.event_type@)),
        ("host"@, jstr(e.host@)),
        ("level"@, jstr(e.level@)),
        ("message"@, jstr(e.message@)),
        ("metadata"@, JsonV::Object(json_fields_view(e.metadata@))),
        ("severity"@, jstr(e.severity@)),
        ("source"@, jstr(e.source@)),
        ("timestamp"@, jstr(e.timestamp@)),
    ])
}

/// The JSON document a SIEM system of the configured kind receives for an
/// event (`version` is the reasoner's version, which ELK records).
pub open spec fn payload_spec(c: SiemConfig, e: SiemEvent, version: Seq<char>) -> JsonV {
    match c.system_type {
        SiemType::Splunk => JsonV::Object(seq![
            ("event"@, event_json_spec(e)),
            ("host"@, jstr(e.host@)),
            ("index"@, jstr(setting_or(c.index, "main"@))),
            ("source"@, jstr("fukurow-reasoner"@)),
            ("sourcetype"@, jstr(setting_or(c.source_type, "fukurow:security"@))),
            ("time"@, jstr(e.timestamp@)),
        ]),
        SiemType::Elk => JsonV::Object(seq![
            ("@timestamp"@, jstr(e.timestamp@)),
            ("event"@, event_json_spec(e)),
            ("host"@, JsonV::Object(seq![("name"@, jstr(e.host@))])),
            ("level"@, jstr(e.level@)),
            ("message"@, jstr(e.message@)),
            ("service"@, JsonV::Object(seq![("name"@, jstr("fukurow-reasoner"@)), ("version"@, jstr(version))])),
        ]),
        SiemType::Chronicle => JsonV::Object(seq![
            ("event"@, event_json_spec(e)),
            ("metadata"@, JsonV::Object(seq![
                ("event_timestamp"@, jstr(e.timestamp@)),
                ("event_type"@, jstr("SECURITY_EVENT"@)),
                ("product_name"@, jstr("reasoner"@)),
                ("vendor_name"@, jstr("fukurow"@)),
            ])),
        ]),
        SiemType::Custom => event_json_spec(e),
    }
}

/// In an object whose keys are all different, each field is carried.
proof fn lemma_carries_distinct(fs: Seq<(Seq<char>, JsonV)>, i: int)
    requires
        0 <= i < fs.len(),
        forall|a: int, b: int| 0 <= a < fs.len() && 0 <= b < fs.len() && a != b ==> #[trigger] fs[a].0 != #[trigger] fs[b].0,
    ensures
        carries(JsonV::Object(fs), fs[i].0, fs[i].1),
{
    let v = JsonV::Object(fs);
    assert(v->Object_0[i] == (fs[i].0, fs[i].1));
}

proof fn lemma_event_keys()
    ensures
        "details"@.len() == 7 && "details"@[0] == 'd',
        "event_type"@.len() == 10 && "event_type"@[0] == 'e',
        "host"@.len() == 4 && "host"@[0] == 'h',
        "level"@.len() == 5 && "level"@[0] == 'l',
        "message"@.len() == 7 && "message"@[0] == 'm',
        "metadata"@.len() == 8 && "metadata"@[0] == 'm',
        "severity"@.len() == 8 && "severity"@[0] == 's',
        "source"@.len() == 6 && "source"@[0] == 's',
        "timestamp"@.len() == 9 && "timestamp"@[0] == 't',
        "event"@.len() == 5 && "event"@[0] == 'e',
        "index"@.len() == 5 && "index"@[0] == 'i',
        "sourcetype"@.len() == 10 && "sourcetype"@[0] == 's',
        "time"@.len() == 4 && "time"@[0] == 't',
        "@timestamp"@.len() == 10 && "@timestamp"@[0] == '@',
        "service"@.len() == 7 && "service"@[0] == 's',
{
    reveal_strlit("details");
    reveal_strlit("event_type");
    reveal_strlit("host");
    reveal_strlit("level");
    reveal_strlit("message");
    reveal_strlit("metadata");
    reveal_strlit("severity");
    reveal_strlit("source");
    reveal_strlit("timestamp");
    reveal_strlit("event");
    reveal_strlit("index");
    reveal_strlit("sourcetype");
    reveal_strlit("time");
    reveal_strlit("@timestamp");
    reveal_strlit("service");
}

/// The JSON of an event carries each of its fields under its own name; a
/// Splunk payload carries the event, its host and its time; an ELK payload
/// its timestamp under "@timestamp", its level and its message; a
/// Chronicle payload the event; any other system the event itself.
pub proof fn law_event_payloads(c: SiemConfig, e: SiemEvent, version: Seq<char>)
    ensures
        carries(event_json_spec(e), "details"@, json_view(e.details)),
        carries(event_json_spec(e), "event_type"@, jstr(e.event_type@)),
        carries(event_json_spec(e), "host"@, jstr(e.host@)),
        carries(event_json_spec(e), "level"@, jstr(e.level@)),
        carries(event_json_spec(e), "message"@, jstr(e.message@)),
        carries(event_json_spec(e), "severity"@, jstr(e.severity@)),
        carries(event_json_spec(e), "source"@, jstr(e.source@)),
        carries(event_json_spec(e), "timestamp"@, jstr(e.timestamp@)),
        c.system_type is Splunk ==> {
            &&& carries(payload_spec(c, e, version), "event"@, event_json_spec(e))
            &&& carries(payload_spec(c, e, version), "host"@, jstr(e.host@))
            &&& carries(payload_spec(c, e, version), "time"@, jstr(e.timestamp@))
        },
        c.system_type is Elk ==> {
            &&& carries(payload_spec(c, e, version), "@timestamp"@, jstr(e.timestamp@))
            &&& carries(payload_spec(c, e, version), "event"@, event_json_spec(e))
            &&& carries(payload_spec(c, e, version), "level"@, jstr(e.level@))
            &&& carries(payload_spec(c, e, version), "message"@, jstr(e.message@))
        },
        c.system_type is Chronicle ==> carries(payload_spec(c, e, version), "event"@, event_json_spec(e)),
        c.system_type is Custom ==> payload_spec(c, e, version) == event_json_spec(e),
{
    lemma_event_keys();
    let fs = event_json_spec(e)->Object_0;
    assert forall|a: int, b: int| 0 <= a < fs.len() && 0 <= b < fs.len() && a != b implies #[trigger] fs[a].0 != #[trigger] fs[b].0 by {}
    lemma_carries_distinct(fs, 0);
    lemma_carries_distinct(fs, 1);
    lemma_carries_distinct(fs, 2);
    lemma_carries_distinct(fs, 3);
    lemma_carries_distinct(fs, 4);
    lemma_carries_distinct(fs, 6);
    lemma_carries_distinct(fs, 7);
    lemma_carries_distinct(fs, 8);
    match c.system_type {
        SiemType::Splunk => {
            let ps = payload_spec(c, e, version)->Object_0;
            assert forall|a: int, b: int| 0 <= a < ps.len() && 0 <= b < ps.len() && a != b implies #[trigger] ps[a].0 != #[trigger] ps[b].0 by {}
            lemma_carries_distinct(ps, 0);
            lemma_carries_distinct(ps, 1);
            lemma_carries_distinct(ps, 5);
        },
        SiemType::Elk => {
            let ps = payload_spec(c, e, version)->Object_0;
            assert forall|a: int, b: int| 0 <= a < ps.len() && 0 <= b < ps.len() && a != b implies #[trigger] ps[a].0 != #[trigger] ps[b].0 by {}
            lemma_carries_distinct(ps, 0);
            lemma_carries_distinct(ps, 1);
            lemma_carries_distinct(ps, 3);
            lemma_carries_distinct(ps, 4);
        },
        SiemType::Chronicle => {
            let ps = payload_spec(c, e, version)->Object_0;
            reveal_strlit("metadata");
            assert forall|a: int, b: int| 0 <= a < ps.len() && 0 <= b < ps.len() && a != b implies #[trigger] ps[a].0 != #[trigger] ps[b].0 by {}
            lemma_carries_distinct(ps, 0);
        },
        SiemType::Custom => {},
    }
}

/// An event as a JSON object.
pub fn siem_event_json(e: &SiemEvent) -> (r: JsonValue)
    ensures
        json_view(r) == event_json_spec(*e),
{
    let mut fields: Vec<(String, JsonValue)> = Vec::new();
    push_field(&mut fields, "details", e.details.clone());
    push_field(&mut fields, "event_type", JsonValue::str_value(e.event_type.as_str()));
    push_field(&mut fields, "host", JsonValue::str_value(e.host.as_str()));
    push_field(&mut fields, "level", JsonValue::str_value(e.level.as_str()));
    push_field(&mut fields, "message", JsonValue::str_value(e.message.as_str()));
    let meta = copy_fields(&e.metadata);
    push_field(&mut fields, "metadata", JsonValue::Object(meta));
    push_field(&mut fields, "severity", JsonValue::str_value(e.severity.as_str()));
    push_field(&mut fields, "source", JsonValue::str_value(e.source.as_str()));
    push_field(&mut fields, "timestamp", JsonValue::str_value(e.timestamp.as_str()));
    proof {
        if let JsonV::Object(expected) = event_json_spec(*e) {
            assert(json_fields_view(fields@) =~= expected);
        }
    }
    JsonValue::Object(fields)
}

/// The value of a string setting, or a default.
fn setting_value(o: &Option<String>, d: &str) -> (r: JsonValue)
    ensures
        json_view(r) == jstr(setting_or(*o, d@)),
{
    match o {
        Some(s) => JsonValue::str_value(s.as_str()),
        None => JsonValue::str_value(d),
    }
}

/// The JSON document a SIEM system of the configured kind receives for an
/// event, before it is written out.
pub fn siem_payload(config: &SiemConfig, event: &SiemEvent, version: &str) -> (r: JsonValue)
    ensures
        json_view(r) == payload_spec(*config, *event, version@),
{
    let ev = siem_event_json(event);
    match config.system_type {
        SiemType::Splunk => {
            let mut fields: Vec<(String, JsonValue)> = Vec::new();
            push_field(&mut fields, "event", ev);
            push_field(&mut fields, "host", JsonValue::str_value(event.host.as_str()));
            push_field(&mut fields, "index", setting_value(&config.index, "main"));
            push_field(&mut fields, "source", JsonValue::str_value("fukurow-reasoner"));
            push_field(&mut fields, "sourcetype", setting_value(&config.source_type, "fukurow:security"));
            push_field(&mut fields, "time", JsonValue::str_value(event.timestamp.as_str()));
            proof {
                if let JsonV::Object(expected) = payload_spec(*config, *event, version@) {
                    assert(json_fields_view(fields@) =~= expected);
                }
            }
            JsonValue::Object(fields)
        },
        SiemType::Elk => {
            let mut host: Vec<(String, JsonValue)> = Vec::new();
            push_field(&mut host, "name", JsonValue::str_value(event.host.as_str()));
            let mut service: Vec<(String, JsonValue)> = Vec::new();
            push_field(&mut service, "name", JsonValue::str_value("fukurow-reasoner"));
            push_field(&mut service, "version", JsonValue::str_value(version));
            proof {
                assert(json_fields_view(host@) =~= seq![("name"@, jstr(event.host@))]);
                assert(json_fields_view(service@) =~= seq![("name"@, jstr("fukurow-reasoner"@)), ("version"@, jstr(version@))]);
            }
            let mut fields: Vec<(String, JsonValue)> = Vec::new();
            push_field(&mut fields, "@timestamp", JsonValue::str_value(event.timestamp.as_str()));
            push_field(&mut fields, "event", ev);
            push_field(&mut fields, "host", JsonValue::Object(host));
            push_field(&mut fields, "level", JsonValue::str_value(event.level.as_str()));
            push_field(&mut fields, "message", JsonValue::str_value(event.message.as_str()));
            push_field(&mut fields, "service", JsonValue::Object(service));
            proof {
                if let JsonV::Object(expected) = payload_spec(*config, *event, version@) {
                    assert(json_fields_view(fields@) =~= expected);
                }
            }
            JsonValue::Object(fields)
        },
        SiemType::Chronicle => {
            let mut meta: Vec<(String, JsonValue)> = Vec::new();
            push_field(&mut meta, "event_timestamp", JsonValue::str_value(event.timestamp.as_str()));
            push_field(&mut meta, "event_type", JsonValue::str_value("SECURITY_EVENT"));
            push_field(&mut meta, "product_name", JsonValue::str_value("reasoner"));
            push_field(&mut meta, "vendor_name", JsonValue::str_value("fukurow"));
            proof {
                assert(json_fields_view(meta@) =~= seq![("event_timestamp"@, jstr(event.timestamp@)), ("event_type"@, jstr("SECURITY_EVENT"@)),
                    ("product_name"@, jstr("reasoner"@)), ("vendor_name"@, jstr("fukurow"@))]);
            }
            let mut fields: Vec<(String, JsonValue)> = Vec::new();
            push_field(&mut fields, "event", ev);
            push_field(&mut fields, "metadata", JsonValue::Object(meta));
            proof {
                if let JsonV::Object(expected) = payload_spec(*config, *event, version@) {
                    assert(json_fields_view(fields@) =~= expected);
                }
            }
            JsonValue::Object(fields)
        },
        SiemType::Custom => ev,
    }
}

/// The settings by name: a later entry of a name replaces an earlier one.
pub open spec fn config_map(s: Seq<(String, SiemConfig)>) -> Map<Seq<char>, SiemConfig>
    decreases s.len(),
{
    if s.len() == 0 {
        Map::empty()
    } else {
        config_map(s.drop_last()).insert(s.last().0@, s.last().1)
    }
}

/// No two entries have the same name.
pub open spec fn config_names_distinct(s: Seq<(String, SiemConfig)>) -> bool {
    forall|i: int, j: int| 0 <= i < j < s.len() ==> (#[trigger] s[i]).0@ != (#[trigger] s[j]).0@
}

/// The names of the entries, in order.
pub open spec fn config_names(s: Seq<(String, SiemConfig)>) -> Seq<Seq<char>> {
    s.map_values(|e: (String, SiemConfig)| e.0@)
}

proof fn lemma_config_map_at(s: Seq<(String, SiemConfig)>, i: int)
    requires
        config_names_distinct(s),
        0 <= i < s.len(),
    ensures
        config_map(s).dom().contains(s[i].0@),
        config_map(s)[s[i].0@] == s[i].1,
    decreases s.len(),
{
    if i < s.len() - 1 {
        lemma_config_map_at(s.drop_last(), i);
        assert(s.drop_last()[i] == s[i]);
        assert(s[i].0@ != s[s.len() - 1].0@);
    }
}

proof fn lemma_config_map_dom(s: Seq<(String, SiemConfig)>, name: Seq<char>)
    ensures
        config_map(s).dom().contains(name) <==> exists|i: int| 0 <= i < s.len() && (#[trigger] s[i]).0@ == name,
    decreases s.len(),
{
    if s.len() > 0 {
        lemma_config_map_dom(s.drop_last(), name);
        if config_map(s).dom().contains(name) && name != s.last().0@ {
            let i = choose|i: int| 0 <= i < s.len() - 1 && (#[trigger] s.drop_last()[i]).0@ == name;
            assert(s[i] == s.drop_last()[i]);
        }
        if exists|i: int| 0 <= i < s.len() && (#[trigger] s[i]).0@ == name {
            let i = choose|i: int| 0 <= i < s.len() && (#[trigger] s[i]).0@ == name;
            if i < s.len() - 1 {
                assert(s.drop_last()[i] == s[i]);
            }
        }
    }
}

proof fn lemma_config_map_update(s: Seq<(String, SiemConfig)>, i: int, e: (String, SiemConfig))
    requires
        config_names_distinct(s),
        0 <= i < s.len(),
        s[i].0@ == e.0@,
    ensures
        config_names_distinct(s.update(i, e)),
        config_map(s.update(i, e)) == config_map(s).insert(e.0@, e.1),
{
    let u = s.update(i, e);
    assert(config_names_distinct(u)) by {
        assert forall|a: int, b: int| 0 <= a < b < u.len() implies (#[trigger] u[a]).0@ != (#[trigger] u[b]).0@ by {
            assert(s[a].0@ != s[b].0@);
        }
    }
    let m1 = config_map(u);
    let m2 = config_map(s).insert(e.0@, e.1);
    assert forall|k: Seq<char>| #[trigger] m1.dom().contains(k) <==> m2.dom().contains(k) by {
        lemma_config_map_dom(u, k);
        lemma_config_map_dom(s, k);
        if k == e.0@ {
            assert(u[i].0@ == k);
        }
        if m2.dom().contains(k) && k != e.0@ {
            let j = choose|j: int| 0 <= j < s.len() && (#[trigger] s[j]).0@ == k;
            assert(j != i);
            assert(u[j] == s[j]);
        }
        if m1.dom().contains(k) {
            let j = choose|j: int| 0 <= j < u.len() && (#[trigger] u[j]).0@ == k;
            if j != i {
                assert(u[j] == s[j]);
            }
        }
    }
    assert forall|k: Seq<char>| m1.dom().contains(k) implies m1[k] == m2[k] by {
        lemma_config_map_dom(u, k);
        let j = choose|j: int| 0 <= j < u.len() && (#[trigger] u[j]).0@ == k;
        lemma_config_map_at(u, j);
        if j != i {
            lemma_config_map_at(s, j);
        }
    }
    assert(m1 =~= m2);
}

/// SIEM settings by name, each name once.
#[derive(Debug)]
struct ConfigTable {
    entries: Vec<(String, SiemConfig)>,
}

impl ConfigTable {
    #[verifier::type_invariant]
    spec fn names_once(&self) -> bool {
        config_names_distinct(self.entries@)
    }

    fn insert(&mut self, name: String, config: SiemConfig)
        ensures
            config_map(final(self).entries@) == config_map(old(self).entries@).insert(name@, config),
    {
        proof {
            use_type_invariant(&*self);
        }
        let ghost s0 = self.entries@;
        let mut entries: Vec<(String, SiemConfig)> = Vec::new();
        std::mem::swap(&mut entries, &mut self.entries);
        let mut i: usize = 0;
        while i < entries.len()
            invariant
                i <= entries@.len(),
                entries@ == s0,
                s0 == old(self).entries@,
                config_names_distinct(s0),
                forall|j: int| 0 <= j < i ==> (#[trigger] s0[j]).0@ != name@,
            decreases entries.len() - i,
        {
            if entries[i].0 == name {
                let ghost e = (name, config);
                proof {
                    lemma_config_map_update(s0, i as int, e);
                }
                entries.set(i, (name, config));
                self.entries = entries;
                return;
            }
            i += 1;
        }
        let ghost e = (name, config);
        proof {
            lemma_config_map_dom(s0, name@);
            assert(s0.push(e).drop_last() =~= s0);
            assert(config_names_distinct(s0.push(e))) by {
                let t = s0.push(e);
                assert forall|a: int, b: int| 0 <= a < b < t.len() implies (#[trigger] t[a]).0@ != (#[trigger] t[b]).0@ by {
                    if b == t.len() - 1 {
                        assert(s0[a].0@ != name@);
                    }
                }
            }
        }
        entries.push((name, config));
        self.entries = entries;
    }
}

/// Where the reasoner forwards its findings: SIEM settings by name and a
/// switch. The sending itself is done by the program around the library,
/// after the decisions below.
#[derive(Debug)]
pub struct SiemIntegrationManager {
    configs: ConfigTable,
    enabled: bool,
}

impl SiemIntegrationManager {
    /// The settings by name.
    pub closed spec fn configs_view(&self) -> Map<Seq<char>, SiemConfig> {
        config_map(self.configs.entries@)
    }

    /// Whether events are forwarded at all.
    pub closed spec fn is_on(&self) -> bool {
        self.enabled
    }

    /// No settings, forwarding on.
    pub fn new() -> (r: Self)
        ensures
            r.configs_view() == Map::<Seq<char>, SiemConfig>::empty(),
            r.is_on(),
    {
        SiemIntegrationManager { configs: ConfigTable { entries: Vec::new() }, enabled: true }
    }

    /// Add settings under a name; earlier settings of the name are replaced.
    pub fn add_config(&mut self, name: String, config: SiemConfig)
        ensures
            final(self).configs_view() == old(self).configs_view().insert(name@, config),
            final(self).is_on() == old(self).is_on(),
    {
        self.configs.insert(name, config);
    }

    /// Turn forwarding on or off.
    pub fn set_enabled(&mut self, enabled: bool)
        ensures
            final(self).is_on() == enabled,
            final(self).configs_view() == old(self).configs_view(),
    {
        self.enabled = enabled;
    }

    /// Whether events are forwarded.
    pub fn is_enabled(&self) -> (r: bool)
        ensures
            r == self.is_on(),
    {
        self.enabled
    }

    /// The names of the settings, each once, in the order they were first added.
    pub fn list_configs(&self) -> (r: Vec<String>)
        ensures
            r@.len() == self.configs_view().dom().len(),
            forall|k: Seq<char>| self.configs_view().dom().contains(k) <==> exists|i: int| 0 <= i < r@.len() && (#[trigger] r@[i])@ == k,
            forall|i: int, j: int| 0 <= i < j < r@.len() ==> (#[trigger] r@[i])@ != (#[trigger] r@[j])@,
    {
        proof {
            use_type_invariant(&self.configs);
        }
        let ghost s = self.configs.entries@;
        let mut names: Vec<String> = Vec::new();
        let mut i: usize = 0;
        while i < self.configs.entries.len()
            invariant
                i <= s.len(),
                s == self.configs.entries@,
                names@.len() == i,
                forall|j: int| 0 <= j < i ==> (#[trigger] names@[j])@ == s[j].0@,
            decreases self.configs.entries.len() - i,
        {
            names.push(self.configs.entries[i].0.clone());
            i += 1;
        }
        proof {
            assert forall|k: Seq<char>| self.configs_view().dom().contains(k) <==> exists|i: int| 0 <= i < names@.len() && (#[trigger] names@[i])@ == k by {
                lemma_config_map_dom(s, k);
                if self.configs_view().dom().contains(k) {
                    let j = choose|j: int| 0 <= j < s.len() && (#[trigger] s[j]).0@ == k;
                    assert(names@[j]@ == k);
                }
                if exists|i: int| 0 <= i < names@.len() && (#[trigger] names@[i])@ == k {
                    let j = choose|j: int| 0 <= j < names@.len() && (#[trigger] names@[j])@ == k;
                    assert(s[j].0@ == k);
                }
            }
            lemma_config_map_len(s);
        }
        names
    }

    /// The settings of a name.
    pub fn get_config(&self, name: &str) -> (r: Option<&SiemConfig>)
        ensures
            match r {
                Some(c) => self.configs_view().dom().contains(name@) && *c == self.configs_view()[name@],
                None => !self.configs_view().dom().contains(name@),
            },
    {
        proof {
            use_type_invariant(&self.configs);
        }
        let ghost s = self.configs.entries@;
        let wanted = name.to_string();
        let mut i: usize = 0;
        while i < self.configs.entries.len()
            invariant
                i <= s.len(),
                s == self.configs.entries@,
                config_names_distinct(s),
                wanted@ == name@,
                forall|j: int| 0 <= j < i ==> (#[trigger] s[j]).0@ != name@,
            decreases self.configs.entries.len() - i,
        {
            if self.configs.entries[i].0 == wanted {
                proof {
                    lemma_config_map_at(s, i as int);
                }
                return Some(&self.configs.entries[i].1);
            }
            i += 1;
        }
        proof {
            lemma_config_map_dom(s, name@);
        }
        None
    }

    /// The settings to send an event to, in order: none while forwarding is
    /// off.
    pub fn targets(&self) -> (r: Vec<&(String, SiemConfig)>)
        ensures
            !self.is_on() ==> r@.len() == 0,
            self.is_on() ==> r@.len() == self.configs_view().dom().len()
                && forall|i: int| 0 <= i < r@.len() ==> self.configs_view().dom().contains(#[trigger] r@[i].0@)
                    && self.configs_view()[r@[i].0@] == r@[i].1,
    {
        proof {
            use_type_invariant(&self.configs);
        }
        let mut out: Vec<&(String, SiemConfig)> = Vec::new();
        if !self.enabled {
            return out;
        }
        let ghost s = self.configs.entries@;
        let mut i: usize = 0;
        while i < self.configs.entries.len()
            invariant
                i <= s.len(),
                s == self.configs.entries@,
                config_names_distinct(s),
                out@.len() == i,
                forall|j: int| 0 <= j < i ==> *(#[trigger] out@[j]) == s[j],
            decreases self.configs.entries.len() - i,
        {
            out.push(&self.configs.entries[i]);
            i += 1;
        }
        proof {
            assert forall|j: int| 0 <= j < out@.len() implies self.configs_view().dom().contains(#[trigger] out@[j].0@)
                && self.configs_view()[out@[j].0@] == out@[j].1 by {
                lemma_config_map_at(s, j);
            }
            lemma_config_map_len(s);
        }
        out
    }
}

/// With distinct names, the map has as many names as the list entries.
proof fn lemma_config_map_len(s: Seq<(String, SiemConfig)>)
    requires
        config_names_distinct(s),
    ensures
        config_map(s).dom().len() == s.len(),
        config_map(s).dom().finite(),
    decreases s.len(),
{
    if s.len() > 0 {
        let d = s.drop_last();
        assert(config_names_distinct(d)) by {
            assert forall|a: int, b: int| 0 <= a < b < d.len() implies (#[trigger] d[a]).0@ != (#[trigger] d[b]).0@ by {
                assert(s[a].0@ != s[b].0@);
            }
        }
        lemma_config_map_len(d);
        lemma_config_map_dom(d, s.last().0@);
        if config_map(d).dom().contains(s.last().0@) {
            let i = choose|i: int| 0 <= i < d.len() && (#[trigger] d[i]).0@ == s.last().0@;
            assert(s[i].0@ != s[s.len() - 1].0@);
        }
    }
}

/// The Authorization header for a system with a token: "Splunk" and the
/// token for Splunk, "Bearer" and the token for the others; none without a
/// token.
pub fn authorization_header(config: &SiemConfig) -> (r: Option<String>)
    ensures
        match config.auth_token {
            None => r is None,
            Some(t) => r matches Some(h) && h@ == (if config.system_type == SiemType::Splunk { "Splunk "@ } else { "Bearer "@ }) + t@,
        },
{
    match &config.auth_token {
        None => None,
        Some(token) => match config.system_type {
            SiemType::Splunk => Some(join("Splunk ", token.as_str())),
            SiemType::Elk => Some(join("Bearer ", token.as_str())),
            SiemType::Chronicle => Some(join("Bearer ", token.as_str())),
            SiemType::Custom => Some(join("Bearer ", token.as_str())),
        },
    }
}

/// The user name and password for basic authentication, when both are set.
pub fn basic_credentials(config: &SiemConfig) -> (r: Option<(String, String)>)
    ensures
        match (config.username, config.password) {
            (Some(u), Some(p)) => r matches Some(c) && c.0@ == u@ && c.1@ == p@,
            _ => r is None,
        },
{
    match (&config.username, &config.password) {
        (Some(u), Some(p)) => Some((u.clone(), p.clone())),
        _ => None,
    }
}

/// The outcome of a SIEM system's answer: success for a 2xx status, an HTTP
/// error with the status and body otherwise.
pub fn response_outcome(status: u16, body: String) -> (r: Result<(), SiemError>)
    ensures
        200 <= status <= 299 ==> r is Ok,
        !(200 <= status <= 299) ==> (r matches Err(SiemError::HttpError { status: s, body: b }) && s == status && b@ == body@),
{
    if 200 <= status && status <= 299 {
        Ok(())
    } else {
        Err(SiemError::HttpError { status, body })
    }
}

/// The names of the systems whose sending failed, in order.
pub open spec fn failed_names(s: Seq<(String, Result<(), SiemError>)>) -> Seq<Seq<char>>
    decreases s.len(),
{
    if s.len() == 0 {
        Seq::empty()
    } else {
        failed_names(s.drop_last()) + if s.last().1 is Err { seq![s.last().0@] } else { Seq::empty() }
    }
}

/// The outcome of sending one event to several systems: success when every
/// sending succeeded, else the errors with the names of their systems, in
/// order.
pub fn combine_send_outcomes(outcomes: Vec<(String, Result<(), SiemError>)>) -> (r: Result<(), SiemError>)
    ensures
        failed_names(outcomes@).len() == 0 ==> r is Ok,
        failed_names(outcomes@).len() > 0 ==> (r matches Err(SiemError::MultipleErrors(errs))
            && errs@.map_values(|e: (String, SiemError)| e.0@) == failed_names(outcomes@)),
{
    let ghost all = outcomes@;
    let mut errors: Vec<(String, SiemError)> = Vec::new();
    let mut rest = outcomes;
    let ghost mut k: int = 0;
    proof {
        assert(rest@ =~= all.subrange(0, all.len() as int));
        assert(all.take(0) =~= Seq::<(String, Result<(), SiemError>)>::empty());
        assert(errors@.map_values(|e: (String, SiemError)| e.0@) =~= Seq::<Seq<char>>::empty());
    }
    while rest.len() > 0
        invariant
            0 <= k <= all.len(),
            rest@ == all.subrange(k, all.len() as int),
            errors@.map_values(|e: (String, SiemError)| e.0@) == failed_names(all.take(k)),
        decreases rest.len(),
    {
        let (name, outcome) = rest.remove(0);
        proof {
            assert((name, outcome) == all[k]);
            assert(rest@ =~= all.subrange(k + 1, all.len() as int));
            assert(all.take(k + 1).drop_last() =~= all.take(k));
            assert(all.take(k + 1).last() == all[k]);
        }
        let ghost before = errors@;
        let ghost nm = name@;
        match outcome {
            Ok(()) => {
                proof {
                    assert(failed_names(all.take(k + 1)) =~= failed_names(all.take(k)));
                }
            },
            Err(e) => {
                errors.push((name, e));
                proof {
                    assert(errors@.map_values(|e: (String, SiemError)| e.0@) =~= before.map_values(|e: (String, SiemError)| e.0@).push(nm));
                    assert(failed_names(all.take(k + 1)) =~= failed_names(all.take(k)).push(nm));
                }
            },
        }
        proof {
            k = k + 1;
        }
    }
    proof {
        assert(all.take(all.len() as int) =~= all);
    }
    if errors.len() == 0 {
        proof {
            assert(errors@.map_values(|e: (String, SiemError)| e.0@).len() == 0);
        }
        Ok(())
    } else {
        Err(SiemError::MultipleErrors(errors))
    }
}

} // verus!
