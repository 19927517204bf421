//! Graph data model: triples, interned strings, named graphs, cyber events
//! and the security actions that the reasoner can propose.

use vstd::prelude::*;

verus! {

/// A string whose value is shared between all triples that mention it.
#[derive(Debug, Eq, Hash)]
pub struct InternedString(String);

impl View for InternedString {
    type V = Seq<char>;

    closed spec fn view(&self) -> Seq<char> {
        self.0@
    }
}

impl InternedString {
    /// Create an interned string holding the characters of `s`.
    pub fn new(s: &str) -> (r: Self)
        ensures
            r@ == s@,
    {
        InternedString(s.to_string())
    }

    /// Create an interned string that takes over `s`.
    pub fn from_owned(s: String) -> (r: Self)
        ensures
            r@ == s@,
    {
        InternedString(s)
    }

    /// The characters of the string.
    pub fn as_str(&self) -> (r: &str)
        ensures
            r@ == self@,
    {
        self.0.as_str()
    }

    /// Length in bytes of the UTF-8 encoding.
    pub fn len(&self) -> (r: usize)
        ensures
            r == vstd::utf8::encode_utf8(self@).len() as usize,
    {
        self.0.as_str().len()
    }

    /// Whether the string holds no character.
    pub fn is_empty(&self) -> (r: bool)
        ensures
            r == (self@.len() == 0),
    {
        self.0.as_str().is_empty()
    }

    /// The string as an owned `String`.
    pub fn to_string(&self) -> (r: String)
        ensures
            r@ == self@,
    {
        self.0.clone()
    }
}

impl Clone for InternedString {
    fn clone(&self) -> (r: Self)
        ensures
            r@ == self@,
    {
        InternedString(self.0.clone())
    }
}

impl PartialEq for InternedString {
    fn eq(&self, other: &Self) -> (r: bool) {
        self.0 == other.0
    }
}

impl vstd::std_specs::cmp::PartialEqSpecImpl for InternedString {
    open spec fn obeys_eq_spec() -> bool {
        true
    }

    open spec fn eq_spec(&self, other: &InternedString) -> bool {
        self@ == other@
    }
}

impl From<String> for InternedString {
    fn from(s: String) -> (r: Self)
        ensures
            r@ == s@,
    {
        InternedString(s)
    }
}

impl vstd::std_specs::convert::FromSpecImpl<String> for InternedString {
    open spec fn obeys_from_spec() -> bool {
        true
    }

    closed spec fn from_spec(v: String) -> InternedString {
        InternedString(v)
    }
}

impl From<&str> for InternedString {
    fn from(s: &str) -> (r: Self)
        ensures
            r@ == s@,
    {
        InternedString::new(s)
    }
}

impl vstd::std_specs::convert::FromSpecImpl<&str> for InternedString {
    /// The string is copied, so the result is equal to it only by its view.
    open spec fn obeys_from_spec() -> bool {
        false
    }

    open spec fn from_spec(v: &str) -> InternedString {
        arbitrary()
    }
}

impl From<&String> for InternedString {
    fn from(s: &String) -> (r: Self)
        ensures
            r@ == s@,
    {
        InternedString(s.clone())
    }
}

impl vstd::std_specs::convert::FromSpecImpl<&String> for InternedString {
    open spec fn obeys_from_spec() -> bool {
        true
    }

    closed spec fn from_spec(v: &String) -> InternedString {
        InternedString(*v)
    }
}

impl AsRef<str> for InternedString {
    fn as_ref(&self) -> (r: &str)
        ensures
            r@ == self@,
    {
        self.as_str()
    }
}

/// The characters of a triple: subject, predicate and object.
pub struct TripleView {
    pub subject: Seq<char>,
    pub predicate: Seq<char>,
    pub object: Seq<char>,
}

/// RDF triple.
#[derive(Debug, Eq, Hash)]
pub struct Triple {
    pub subject: String,
    pub predicate: String,
    pub object: String,
}

impl View for Triple {
    type V = TripleView;

    open spec fn view(&self) -> TripleView {
        TripleView { subject: self.subject@, predicate: self.predicate@, object: self.object@ }
    }
}

impl Triple {
    /// A triple made of the three given strings.
    pub fn new(subject: &str, predicate: &str, object: &str) -> (r: Triple)
        ensures
            r@ == (TripleView { subject: subject@, predicate: predicate@, object: object@ }),
    {
        Triple {
            subject: subject.to_string(),
            predicate: predicate.to_string(),
            object: object.to_string(),
        }
    }
}

impl Clone for Triple {
    fn clone(&self) -> (r: Self)
        ensures
            r@ == self@,
    {
        Triple {
            subject: self.subject.clone(),
            predicate: self.predicate.clone(),
            object: self.object.clone(),
        }
    }
}

impl PartialEq for Triple {
    fn eq(&self, other: &Self) -> (r: bool) {
        self.subject == other.subject && self.predicate == other.predicate && self.object
            == other.object
    }
}

impl vstd::std_specs::cmp::PartialEqSpecImpl for Triple {
    open spec fn obeys_eq_spec() -> bool {
        true
    }

    open spec fn eq_spec(&self, other: &Triple) -> bool {
        self@ == other@
    }
}

/// The views of a sequence of triples.
pub open spec fn triples_view(s: Seq<Triple>) -> Seq<TripleView> {
    s.map_values(|t: Triple| t@)
}

/// Memory-optimized triple whose parts are interned strings.
#[derive(Debug, Eq, Hash)]
pub struct InternedTriple {
    pub subject: InternedString,
    pub predicate: InternedString,
    pub object: InternedString,
}

impl View for InternedTriple {
    type V = TripleView;

    open spec fn view(&self) -> TripleView {
        TripleView { subject: self.subject@, predicate: self.predicate@, object: self.object@ }
    }
}

impl Clone for InternedTriple {
    fn clone(&self) -> (r: Self)
        ensures
            r@ == self@,
    {
        InternedTriple {
            subject: self.subject.clone(),
            predicate: self.predicate.clone(),
            object: self.object.clone(),
        }
    }
}

impl PartialEq for InternedTriple {
    fn eq(&self, other: &Self) -> (r: bool) {
        self.subject == other.subject && self.predicate == other.predicate && self.object
            == other.object
    }
}

impl vstd::std_specs::cmp::PartialEqSpecImpl for InternedTriple {
    open spec fn obeys_eq_spec() -> bool {
        true
    }

    open spec fn eq_spec(&self, other: &InternedTriple) -> bool {
        self@ == other@
    }
}

impl InternedTriple {
    /// Create an interned triple from three strings.
    pub fn new(subject: &str, predicate: &str, object: &str) -> (r: Self)
        ensures
            r@ == (TripleView { subject: subject@, predicate: predicate@, object: object@ }),
    {
        InternedTriple {
            subject: InternedString::new(subject),
            predicate: InternedString::new(predicate),
            object: InternedString::new(object),
        }
    }

    /// Convert to a regular triple.
    pub fn to_triple(&self) -> (r: Triple)
        ensures
            r@ == self@,
    {
        Triple {
            subject: self.subject.to_string(),
            predicate: self.predicate.to_string(),
            object: self.object.to_string(),
        }
    }

    /// Convert from a regular triple.
    pub fn from_triple(triple: &Triple) -> (r: Self)
        ensures
            r@ == triple@,
    {
        InternedTriple {
            subject: InternedString(triple.subject.clone()),
            predicate: InternedString(triple.predicate.clone()),
            object: InternedString(triple.object.clone()),
        }
    }
}

/// Converting a triple to its interned form and back gives the same triple.
pub proof fn lemma_interned_round_trip(t: Triple, i: InternedTriple, back: Triple)
    requires
        i@ == t@,
        back@ == i@,
    ensures
        back@ == t@,
{
}

/// Named graph: a name and the triples it holds, in insertion order.
#[derive(Debug, Default)]
pub struct NamedGraph {
    pub name: String,
    pub triples: Vec<Triple>,
}

/// The name and triples of a named graph.
pub struct NamedGraphView {
    pub name: Seq<char>,
    pub triples: Seq<TripleView>,
}

impl View for NamedGraph {
    type V = NamedGraphView;

    open spec fn view(&self) -> NamedGraphView {
        NamedGraphView { name: self.name@, triples: triples_view(self.triples@) }
    }
}

/// Copy a vector of triples.
pub fn clone_triples(v: &Vec<Triple>) -> (r: Vec<Triple>)
    ensures
        triples_view(r@) == triples_view(v@),
{
    let mut out: Vec<Triple> = Vec::new();
    let mut i: usize = 0;
    while i < v.len()
        invariant
            i <= v.len(),
            out.len() == i,
            forall|j: int| 0 <= j < i ==> (#[trigger] out@[j])@ == v@[j]@,
        decreases v.len() - i,
    {
        out.push(v[i].clone());
        i += 1;
    }
    assert(triples_view(out@) =~= triples_view(v@));
    out
}

impl Clone for NamedGraph {
    fn clone(&self) -> (r: Self)
        ensures
            r@ == self@,
    {
        NamedGraph { name: self.name.clone(), triples: clone_triples(&self.triples) }
    }
}

/// Cyber security events.
#[derive(Debug, Clone)]
pub enum CyberEvent {
    NetworkConnection {
        source_ip: String,
        dest_ip: String,
        port: u16,
        protocol: String,
        timestamp: i64,
    },
    ProcessExecution {
        process_id: u32,
        parent_process_id: Option<u32>,
        command_line: String,
        user: String,
        timestamp: i64,
    },
    FileAccess {
        file_path: String,
        access_type: String,
        user: String,
        process_id: u32,
        timestamp: i64,
    },
    UserLogin { user: String, source_ip: String, success: bool, timestamp: i64 },
}

/// A JSON value, as carried in the details of an alert.
#[derive(Debug, PartialEq)]
pub enum JsonValue {
    Null,
    Bool(bool),
    Number(i64),
    Str(String),
    Array(Vec<JsonValue>),
    Object(Vec<(String, JsonValue)>),
}

/// The mathematical content of a JSON value.
pub enum JsonV {
    Null,
    Bool(bool),
    Number(int),
    Str(Seq<char>),
    Array(Seq<JsonV>),
    Object(Seq<(Seq<char>, JsonV)>),
}

pub open spec fn json_view(j: JsonValue) -> JsonV
    decreases j,
{
    match j {
        JsonValue::Null => JsonV::Null,
        JsonValue::Bool(b) => JsonV::Bool(b),
        JsonValue::Number(n) => JsonV::Number(n as int),
        JsonValue::Str(s) => JsonV::Str(s@),
        JsonValue::Array(v) => JsonV::Array(json_seq_view(v@)),
        JsonValue::Object(v) => JsonV::Object(json_fields_view(v@)),
    }
}

pub open spec fn json_seq_view(s: Seq<JsonValue>) -> Seq<JsonV>
    decreases s,
{
    if s.len() == 0 {
        Seq::empty()
    } else {
        json_seq_view(s.drop_last()).push(json_view(s.last()))
    }
}

pub open spec fn json_fields_view(s: Seq<(String, JsonValue)>) -> Seq<(Seq<char>, JsonV)>
    decreases s,
{
    if s.len() == 0 {
        Seq::empty()
    } else {
        json_fields_view(s.drop_last()).push((s.last().0@, json_view(s.last().1)))
    }
}

impl JsonValue {
    /// A JSON string.
    pub fn str_value(s: &str) -> (r: JsonValue)
        ensures
            json_view(r) == JsonV::Str(s@),
    {
        JsonValue::Str(s.to_string())
    }

    /// Look up a field of a JSON object; `None` for other values and absent keys.
    #[verifier::loop_isolation(false)]
    pub fn get(&self, key: &str) -> (r: Option<&JsonValue>)
        ensures
            match *self {
                JsonValue::Object(fields) => match r {
                    Some(v) => exists|i: int|
                        0 <= i < fields@.len() && fields@[i].0@ == key@ && fields@[i].1 == *v,
                    None => forall|i: int| 0 <= i < fields@.len() ==> fields@[i].0@ != key@,
                },
                _ => r is None,
            },
    {
        match self {
            JsonValue::Object(fields) => {
                let k = key.to_string();
                let mut i: usize = 0;
                while i < fields.len()
                    invariant
                        i <= fields@.len(),
                        k@ == key@,
                        forall|j: int| 0 <= j < i ==> fields@[j].0@ != key@,
                    decreases fields.len() - i,
                {
                    if fields[i].0 == k {
                        proof {
                            assert(exists|j: int|
                                0 <= j < fields@.len() && fields@[j].0@ == key@ && fields@[j].1 == fields@[i as int].1);
                        }
                        return Some(&fields[i].1);
                    }
                    i += 1;
                }
                None
            },
            _ => None,
        }
    }
}

impl Clone for JsonValue {
    #[verifier::loop_isolation(false)]
    fn clone(&self) -> (r: Self)
        ensures
            json_view(r) == json_view(*self),
        decreases self,
    {
        match self {
            JsonValue::Null => JsonValue::Null,
            JsonValue::Bool(b) => JsonValue::Bool(*b),
            JsonValue::Number(n) => JsonValue::Number(*n),
            JsonValue::Str(s) => JsonValue::Str(s.clone()),
            JsonValue::Array(v) => {
                let mut out: Vec<JsonValue> = Vec::new();
                let mut i: usize = 0;
                while i < v.len()
                    invariant
                        i <= v.len(),
                        out.len() == i,
                        forall|j: int| 0 <= j < i ==> json_view(#[trigger] out@[j]) == json_view(v@[j]),
                    decreases v.len() - i,
                {
                    proof {
                        let ghost j = *self;
                        assert(decreases_to!(j => j->Array_0));
                        assert(decreases_to!(j->Array_0 => j->Array_0@));
                        assert(decreases_to!(j->Array_0@ => j->Array_0@[i as int]));
                    }
                    out.push(v[i].clone());
                    i += 1;
                }
                proof {
                    lemma_json_seq_view_eq(out@, v@);
                }
                JsonValue::Array(out)
            },
            JsonValue::Object(v) => {
                let mut out: Vec<(String, JsonValue)> = Vec::new();
                let mut i: usize = 0;
                while i < v.len()
                    invariant
                        i <= v.len(),
                        out.len() == i,
                        forall|j: int| 0 <= j < i ==> (#[trigger] out@[j]).0@ == v@[j].0@ && json_view(out@[j].1) == json_view(v@[j].1),
                    decreases v.len() - i,
                {
                    proof {
                        let ghost j = *self;
                        assert(decreases_to!(j => j->Object_0));
                        assert(decreases_to!(j->Object_0 => j->Object_0@));
                        assert(decreases_to!(j->Object_0@ => j->Object_0@[i as int]));
                        assert(decreases_to!(j->Object_0@[i as int] => j->Object_0@[i as int].1));
                    }
                    let k = v[i].0.clone();
                    let x = v[i].1.clone();
                    out.push((k, x));
                    i += 1;
                }
                proof {
                    lemma_json_fields_view_eq(out@, v@);
                }
                JsonValue::Object(out)
            },
        }
    }
}

proof fn lemma_json_seq_view_eq(a: Seq<JsonValue>, b: Seq<JsonValue>)
    requires
        a.len() == b.len(),
        forall|j: int| 0 <= j < a.len() ==> json_view(#[trigger] a[j]) == json_view(b[j]),
    ensures
        json_seq_view(a) == json_seq_view(b),
    decreases a.len(),
{
    if a.len() > 0 {
        lemma_json_seq_view_eq(a.drop_last(), b.drop_last());
    }
}

proof fn lemma_json_fields_view_eq(a: Seq<(String, JsonValue)>, b: Seq<(String, JsonValue)>)
    requires
        a.len() == b.len(),
        forall|j: int| 0 <= j < a.len() ==> (#[trigger] a[j]).0@ == b[j].0@ && json_view(a[j].1) == json_view(b[j].1),
    ensures
        json_fields_view(a) == json_fields_view(b),
    decreases a.len(),
{
    if a.len() > 0 {
        lemma_json_fields_view_eq(a.drop_last(), b.drop_last());
    }
}

/// Security actions that can be proposed by the reasoner.
#[derive(Debug)]
pub enum SecurityAction {
    IsolateHost { host_ip: String, reason: String },
    BlockConnection { source_ip: String, dest_ip: String, reason: String },
    TerminateProcess { process_id: u32, reason: String },
    RevokePrivileges { user: String, privilege: String, reason: String },
    Alert { severity: String, message: String, details: JsonValue },
}

/// A security action as a value.
pub enum ActionV {
    IsolateHost(Seq<char>, Seq<char>),
    BlockConnection(Seq<char>, Seq<char>, Seq<char>),
    TerminateProcess(u32, Seq<char>),
    RevokePrivileges(Seq<char>, Seq<char>, Seq<char>),
    Alert(Seq<char>, Seq<char>, JsonV),
}

/// The value of a security action.
pub open spec fn action_view(a: SecurityAction) -> ActionV {
    match a {
        SecurityAction::IsolateHost { host_ip, reason } => ActionV::IsolateHost(host_ip@, reason@),
        SecurityAction::BlockConnection { source_ip, dest_ip, reason } => ActionV::BlockConnection(source_ip@, dest_ip@, reason@),
        SecurityAction::TerminateProcess { process_id, reason } => ActionV::TerminateProcess(process_id, reason@),
        SecurityAction::RevokePrivileges { user, privilege, reason } => ActionV::RevokePrivileges(user@, privilege@, reason@),
        SecurityAction::Alert { severity, message, details } => ActionV::Alert(severity@, message@, json_view(details)),
    }
}

impl Clone for SecurityAction {
    fn clone(&self) -> (r: Self)
        ensures
            action_view(r) == action_view(*self),
    {
        match self {
            SecurityAction::IsolateHost { host_ip, reason } =>
                SecurityAction::IsolateHost { host_ip: host_ip.clone(), reason: reason.clone() },
            SecurityAction::BlockConnection { source_ip, dest_ip, reason } =>
                SecurityAction::BlockConnection { source_ip: source_ip.clone(), dest_ip: dest_ip.clone(), reason: reason.clone() },
            SecurityAction::TerminateProcess { process_id, reason } =>
                SecurityAction::TerminateProcess { process_id: *process_id, reason: reason.clone() },
            SecurityAction::RevokePrivileges { user, privilege, reason } =>
                SecurityAction::RevokePrivileges { user: user.clone(), privilege: privilege.clone(), reason: reason.clone() },
            SecurityAction::Alert { severity, message, details } =>
                SecurityAction::Alert { severity: severity.clone(), message: message.clone(), details: details.clone() },
        }
    }
}

/// Append a field to the fields of a JSON object.
pub fn push_field(fields: &mut Vec<(String, JsonValue)>, key: &str, value: JsonValue)
    ensures
        json_fields_view(final(fields)@) == json_fields_view(old(fields)@).push((key@, json_view(value))),
        final(fields)@.len() == old(fields)@.len() + 1,
{
    let ghost before = fields@;
    fields.push((key.to_string(), value));
    proof {
        assert(fields@.drop_last() =~= before);
    }
}

/// A copy of the fields of a JSON object.
pub fn copy_fields(fields: &Vec<(String, JsonValue)>) -> (r: Vec<(String, JsonValue)>)
    ensures
        json_fields_view(r@) == json_fields_view(fields@),
{
    let mut out: Vec<(String, JsonValue)> = Vec::new();
    let mut i: usize = 0;
    proof {
        assert(fields@.take(0) =~= Seq::<(String, JsonValue)>::empty());
    }
    while i < fields.len()
        invariant
            i <= fields@.len(),
            json_fields_view(out@) == json_fields_view(fields@.take(i as int)),
        decreases fields.len() - i,
    {
        proof {
            assert(fields@.take(i + 1).drop_last() =~= fields@.take(i as int));
        }
        push_field(&mut out, fields[i].0.as_str(), fields[i].1.clone());
        i += 1;
    }
    proof {
        assert(fields@.take(fields@.len() as int) =~= fields@);
    }
    out
}

/// Inference rule for pattern matching.
#[derive(Debug, Clone)]
pub struct InferenceRule {
    pub name: String,
    pub description: String,
    pub conditions: Vec<Triple>,
    pub actions: Vec<SecurityAction>,
}

} // verus!

verus! {

/// JSON-LD document: a context, an optional list of graph nodes and further
/// top-level members.
#[derive(Debug, Clone)]
pub struct JsonLdDocument {
    pub context: JsonValue,
    pub graph: Option<Vec<JsonValue>>,
    pub data: Vec<(String, JsonValue)>,
}

} // verus!
