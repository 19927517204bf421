//! Shapes graphs, and reading them from the triples of a store.

use vstd::prelude::*;
use crate::model::{Triple, TripleView, triples_view};
use crate::rdf_store::RdfStore;
use crate::text::parse_u64;
use super::ShaclError;

verus! {

/// Whom a shape is about.
#[derive(Debug, Clone)]
pub enum Target {
    Class(String),
    Node(String),
    SubjectsOf(String),
    ObjectsOf(String),
}

/// How a property shape reaches the values of a node.
#[derive(Debug)]
pub enum PropertyPath {
    Predicate(String),
    Inverse(Box<PropertyPath>),
    Sequence(Vec<PropertyPath>),
    Alternative(Vec<PropertyPath>),
    ZeroOrMore(Box<PropertyPath>),
    OneOrMore(Box<PropertyPath>),
    ZeroOrOne(Box<PropertyPath>),
}

/// The kinds of RDF term a node may be.
#[derive(Debug, Clone, Copy, PartialEq, Eq, Structural)]
pub enum NodeKind {
    BlankNode,
    Iri,
    Literal,
    BlankNodeOrIri,
    BlankNodeOrLiteral,
    IriOrLiteral,
}

/// A constraint on the focus node of a node shape.
#[derive(Debug, Clone)]
pub enum NodeConstraint {
    Class(String),
    Datatype(String),
    NodeKind(NodeKind),
    MinExclusive(String),
    MaxExclusive(String),
    MinInclusive(String),
    MaxInclusive(String),
    MinLength(u64),
    MaxLength(u64),
    Pattern { pattern: String, flags: Option<String> },
    LanguageIn(Vec<String>),
    UniqueLang(bool),
    Equals(String),
    Disjoint(String),
    LessThan(String),
    LessThanOrEquals(String),
    In(Vec<String>),
    HasValue(String),
    Closed { closed: bool, ignored_properties: Vec<String> },
}

/// A constraint on the values that a property shape reaches.
#[derive(Debug, Clone)]
pub enum PropertyConstraint {
    MinCount(u64),
    MaxCount(u64),
    QualifiedValueShape {
        shape: String,
        qualified_min_count: Option<u64>,
        qualified_max_count: Option<u64>,
        qualified_value_shapes_disjoint: Option<bool>,
    },
    UniqueLang(bool),
    LanguageIn(Vec<String>),
    Equals(String),
    Disjoint(String),
    LessThan(String),
    LessThanOrEquals(String),
    MinExclusive(String),
    MaxExclusive(String),
    MinInclusive(String),
    MaxInclusive(String),
    MinLength(u64),
    MaxLength(u64),
    Pattern { pattern: String, flags: Option<String> },
    In(Vec<String>),
    HasValue(String),
    SparqlConstraint(String),
    Class(String),
    Datatype(String),
}

/// A node shape: targets, constraints on each focus node, and the
/// property shapes to check for it.
#[derive(Debug, Clone)]
pub struct NodeShape {
    pub id: String,
    pub targets: Vec<Target>,
    pub constraints: Vec<NodeConstraint>,
    pub property_shapes: Vec<String>,
}

/// A property shape: a path and constraints on the values it reaches.
#[derive(Debug)]
pub struct PropertyShape {
    pub id: String,
    pub path: PropertyPath,
    pub constraints: Vec<PropertyConstraint>,
}

/// A node shape or a property shape.
#[derive(Debug)]
pub enum Shape {
    Node(NodeShape),
    Property(PropertyShape),
}

/// The shapes, each under its IRI, in the order they were first met, and
/// the prefixes.
#[derive(Debug)]
pub struct ShapesGraph {
    pub shapes: Vec<(String, Shape)>,
    pub prefixes: Vec<(String, String)>,
}

/// The content of a target.
pub enum TargetV {
    Class(Seq<char>),
    Node(Seq<char>),
    SubjectsOf(Seq<char>),
    ObjectsOf(Seq<char>),
}

pub open spec fn target_view(t: Target) -> TargetV {
    match t {
        Target::Class(s) => TargetV::Class(s@),
        Target::Node(s) => TargetV::Node(s@),
        Target::SubjectsOf(s) => TargetV::SubjectsOf(s@),
        Target::ObjectsOf(s) => TargetV::ObjectsOf(s@),
    }
}

/// The content of a path as far as checking reads it: the predicate of a
/// one-step path; every other path is complex.
pub enum PathV {
    Predicate(Seq<char>),
    Complex,
}

pub open spec fn path_view(p: PropertyPath) -> PathV {
    match p {
        PropertyPath::Predicate(s) => PathV::Predicate(s@),
        _ => PathV::Complex,
    }
}

/// The views of a list of strings.
pub open spec fn strings_view(v: Seq<String>) -> Seq<Seq<char>> {
    v.map_values(|s: String| s@)
}

/// The view of an optional string.
pub open spec fn opt_str(o: Option<String>) -> Option<Seq<char>> {
    match o {
        Some(s) => Some(s@),
        None => None,
    }
}

/// The content of a node constraint.
pub enum NodeConstraintV {
    Class(Seq<char>),
    Datatype(Seq<char>),
    NodeKind(NodeKind),
    MinExclusive(Seq<char>),
    MaxExclusive(Seq<char>),
    MinInclusive(Seq<char>),
    MaxInclusive(Seq<char>),
    MinLength(u64),
    MaxLength(u64),
    Pattern(Seq<char>, Option<Seq<char>>),
    LanguageIn(Seq<Seq<char>>),
    UniqueLang(bool),
    Equals(Seq<char>),
    Disjoint(Seq<char>),
    LessThan(Seq<char>),
    LessThanOrEquals(Seq<char>),
    In(Seq<Seq<char>>),
    HasValue(Seq<char>),
    Closed(bool, Seq<Seq<char>>),
}

pub open spec fn node_constraint_view(c: NodeConstraint) -> NodeConstraintV {
    match c {
        NodeConstraint::Class(s) => NodeConstraintV::Class(s@),
        NodeConstraint::Datatype(s) => NodeConstraintV::Datatype(s@),
        NodeConstraint::NodeKind(k) => NodeConstraintV::NodeKind(k),
        NodeConstraint::MinExclusive(s) => NodeConstraintV::MinExclusive(s@),
        NodeConstraint::MaxExclusive(s) => NodeConstraintV::MaxExclusive(s@),
        NodeConstraint::MinInclusive(s) => NodeConstraintV::MinInclusive(s@),
        NodeConstraint::MaxInclusive(s) => NodeConstraintV::MaxInclusive(s@),
        NodeConstraint::MinLength(n) => NodeConstraintV::MinLength(n),
        NodeConstraint::MaxLength(n) => NodeConstraintV::MaxLength(n),
        NodeConstraint::Pattern { pattern, flags } => NodeConstraintV::Pattern(pattern@, opt_str(flags)),
        NodeConstraint::LanguageIn(v) => NodeConstraintV::LanguageIn(strings_view(v@)),
        NodeConstraint::UniqueLang(b) => NodeConstraintV::UniqueLang(b),
        NodeConstraint::Equals(s) => NodeConstraintV::Equals(s@),
        NodeConstraint::Disjoint(s) => NodeConstraintV::Disjoint(s@),
        NodeConstraint::LessThan(s) => NodeConstraintV::LessThan(s@),
        NodeConstraint::LessThanOrEquals(s) => NodeConstraintV::LessThanOrEquals(s@),
        NodeConstraint::In(v) => NodeConstraintV::In(strings_view(v@)),
        NodeConstraint::HasValue(s) => NodeConstraintV::HasValue(s@),
        NodeConstraint::Closed { closed, ignored_properties } => NodeConstraintV::Closed(closed, strings_view(ignored_properties@)),
    }
}

/// The content of a property constraint.
pub enum PropertyConstraintV {
    MinCount(u64),
    MaxCount(u64),
    QualifiedValueShape(Seq<char>, Option<u64>, Option<u64>, Option<bool>),
    UniqueLang(bool),
    LanguageIn(Seq<Seq<char>>),
    Equals(Seq<char>),
    Disjoint(Seq<char>),
    LessThan(Seq<char>),
    LessThanOrEquals(Seq<char>),
    MinExclusive(Seq<char>),
    MaxExclusive(Seq<char>),
    MinInclusive(Seq<char>),
    MaxInclusive(Seq<char>),
    MinLength(u64),
    MaxLength(u64),
    Pattern(Seq<char>, Option<Seq<char>>),
    In(Seq<Seq<char>>),
    HasValue(Seq<char>),
    SparqlConstraint(Seq<char>),
    Class(Seq<char>),
    Datatype(Seq<char>),
}

pub open spec fn property_constraint_view(c: PropertyConstraint) -> PropertyConstraintV {
    match c {
        PropertyConstraint::MinCount(n) => PropertyConstraintV::MinCount(n),
        PropertyConstraint::MaxCount(n) => PropertyConstraintV::MaxCount(n),
        PropertyConstraint::QualifiedValueShape { shape, qualified_min_count, qualified_max_count, qualified_value_shapes_disjoint } =>
            PropertyConstraintV::QualifiedValueShape(shape@, qualified_min_count, qualified_max_count, qualified_value_shapes_disjoint),
        PropertyConstraint::UniqueLang(b) => PropertyConstraintV::UniqueLang(b),
        PropertyConstraint::LanguageIn(v) => PropertyConstraintV::LanguageIn(strings_view(v@)),
        PropertyConstraint::Equals(s) => PropertyConstraintV::Equals(s@),
        PropertyConstraint::Disjoint(s) => PropertyConstraintV::Disjoint(s@),
        PropertyConstraint::LessThan(s) => PropertyConstraintV::LessThan(s@),
        PropertyConstraint::LessThanOrEquals(s) => PropertyConstraintV::LessThanOrEquals(s@),
        PropertyConstraint::MinExclusive(s) => PropertyConstraintV::MinExclusive(s@),
        PropertyConstraint::MaxExclusive(s) => PropertyConstraintV::MaxExclusive(s@),
        PropertyConstraint::MinInclusive(s) => PropertyConstraintV::MinInclusive(s@),
        PropertyConstraint::MaxInclusive(s) => PropertyConstraintV::MaxInclusive(s@),
        PropertyConstraint::MinLength(n) => PropertyConstraintV::MinLength(n),
        PropertyConstraint::MaxLength(n) => PropertyConstraintV::MaxLength(n),
        PropertyConstraint::Pattern { pattern, flags } => PropertyConstraintV::Pattern(pattern@, opt_str(flags)),
        PropertyConstraint::In(v) => PropertyConstraintV::In(strings_view(v@)),
        PropertyConstraint::HasValue(s) => PropertyConstraintV::HasValue(s@),
        PropertyConstraint::SparqlConstraint(s) => PropertyConstraintV::SparqlConstraint(s@),
        PropertyConstraint::Class(s) => PropertyConstraintV::Class(s@),
        PropertyConstraint::Datatype(s) => PropertyConstraintV::Datatype(s@),
    }
}

/// The content of a shape.
pub enum ShapeV {
    Node { id: Seq<char>, targets: Seq<TargetV>, constraints: Seq<NodeConstraintV>, property_shapes: Seq<Seq<char>> },
    Property { id: Seq<char>, path: PathV, constraints: Seq<PropertyConstraintV> },
}

pub open spec fn shape_view(s: Shape) -> ShapeV {
    match s {
        Shape::Node(n) => ShapeV::Node {
            id: n.id@,
            targets: n.targets@.map_values(|t: Target| target_view(t)),
            constraints: n.constraints@.map_values(|c: NodeConstraint| node_constraint_view(c)),
            property_shapes: strings_view(n.property_shapes@),
        },
        Shape::Property(p) => ShapeV::Property {
            id: p.id@,
            path: path_view(p.path),
            constraints: p.constraints@.map_values(|c: PropertyConstraint| property_constraint_view(c)),
        },
    }
}

/// The shapes of a graph, each under its IRI, in order.
pub open spec fn entries_view(v: Seq<(String, Shape)>) -> Seq<(Seq<char>, ShapeV)> {
    v.map_values(|e: (String, Shape)| (e.0@, shape_view(e.1)))
}

impl ShapesGraph {
    /// The shapes, each under its IRI, in the order they were first met.
    pub open spec fn shapes_view(&self) -> Seq<(Seq<char>, ShapeV)> {
        entries_view(self.shapes@)
    }

    /// The shape under an IRI, the first where several share it.
    pub fn get_shape(&self, id: &str) -> (r: Option<&Shape>)
        ensures
            match first_index(self.shapes_view(), id@) {
                Some(k) => r matches Some(s) && shape_view(*s) == self.shapes_view()[k].1,
                None => r is None,
            },
    {
        let key = id.to_string();
        match find_entry(&self.shapes, &key) {
            Some(k) => {
                proof {
                    assert(self.shapes_view()[k as int].1 == shape_view(self.shapes@[k as int].1));
                }
                Some(&self.shapes[k].1)
            },
            None => None,
        }
    }
}

/// The first position of a shape under IRI `k`.
pub open spec fn first_index(g: Seq<(Seq<char>, ShapeV)>, k: Seq<char>) -> Option<int>
    decreases g.len(),
{
    if g.len() == 0 {
        None
    } else {
        match first_index(g.drop_last(), k) {
            Some(i) => Some(i),
            None => if g.last().0 == k { Some(g.len() - 1) } else { None },
        }
    }
}

proof fn lemma_first_index(g: Seq<(Seq<char>, ShapeV)>, k: Seq<char>)
    ensures
        match first_index(g, k) {
            Some(i) => 0 <= i < g.len() && g[i].0 == k && forall|j: int| 0 <= j < i ==> g[j].0 != k,
            None => forall|j: int| 0 <= j < g.len() ==> g[j].0 != k,
        },
    decreases g.len(),
{
    if g.len() > 0 {
        lemma_first_index(g.drop_last(), k);
        assert forall|j: int| 0 <= j < g.len() - 1 implies g.drop_last()[j] == g[j] by {}
    }
}

/// The position of the first entry under `key`.
fn find_entry(v: &Vec<(String, Shape)>, key: &String) -> (r: Option<usize>)
    ensures
        r matches Some(i) ==> i < v@.len() && first_index(entries_view(v@), key@) == Some(i as int),
        r is None ==> first_index(entries_view(v@), key@) is None,
{
    let ghost g = entries_view(v@);
    proof {
        lemma_first_index(g, key@);
    }
    let mut i: usize = 0;
    while i < v.len()
        invariant
            i <= v@.len(),
            g == entries_view(v@),
            forall|j: int| 0 <= j < i ==> g[j].0 != key@,
        decreases v.len() - i,
    {
        if v[i].0 == *key {
            proof {
                lemma_first_index(g, key@);
                assert(g[i as int].0 == key@);
                match first_index(g, key@) {
                    Some(q) => {
                        if q > i { assert(false); }
                        if q < i { assert(g[q].0 != key@); }
                    },
                    None => { assert(false); },
                }
            }
            return Some(i);
        }
        proof {
            assert(g[i as int].0 == v@[i as int].0@);
        }
        i += 1;
    }
    proof {
        lemma_first_index(g, key@);
        match first_index(g, key@) {
            Some(q) => { assert(g[q].0 != key@); },
            None => {},
        }
    }
    None
}

pub open spec fn sh_target_class() -> Seq<char> { "http://www.w3.org/ns/shacl#targetClass"@ }
pub open spec fn sh_property() -> Seq<char> { "http://www.w3.org/ns/shacl#property"@ }
pub open spec fn sh_path() -> Seq<char> { "http://www.w3.org/ns/shacl#path"@ }
pub open spec fn sh_min_count() -> Seq<char> { "http://www.w3.org/ns/shacl#minCount"@ }
pub open spec fn sh_max_count() -> Seq<char> { "http://www.w3.org/ns/shacl#maxCount"@ }
pub open spec fn sh_datatype() -> Seq<char> { "http://www.w3.org/ns/shacl#datatype"@ }
pub open spec fn sh_class() -> Seq<char> { "http://www.w3.org/ns/shacl#class"@ }
pub open spec fn sh_has_value() -> Seq<char> { "http://www.w3.org/ns/shacl#hasValue"@ }
pub open spec fn placeholder_path() -> Seq<char> { "http://example.org/predicate"@ }

/// A node shape with the given targets and nothing else.
pub open spec fn bare_node(id: Seq<char>, targets: Seq<TargetV>) -> ShapeV {
    ShapeV::Node { id, targets, constraints: Seq::empty(), property_shapes: Seq::empty() }
}

/// A property shape whose path is not read yet.
pub open spec fn bare_property(id: Seq<char>) -> ShapeV {
    ShapeV::Property { id, path: PathV::Predicate(placeholder_path()), constraints: Seq::empty() }
}

/// The shapes with one under `k`, added as `default` when there was none,
/// and its position.
pub open spec fn entry_of(g: Seq<(Seq<char>, ShapeV)>, k: Seq<char>, default: ShapeV) -> (Seq<(Seq<char>, ShapeV)>, int) {
    match first_index(g, k) {
        Some(i) => (g, i),
        None => (g.push((k, default)), g.len() as int),
    }
}

/// The shapes after the one under `k`, made `default` where there was none,
/// was changed by `f`.
pub open spec fn upsert(g: Seq<(Seq<char>, ShapeV)>, k: Seq<char>, default: ShapeV, f: spec_fn(ShapeV) -> ShapeV) -> Seq<(Seq<char>, ShapeV)> {
    let (g1, i) = entry_of(g, k, default);
    g1.update(i, (g1[i].0, f(g1[i].1)))
}

/// A node shape with one more target.
pub open spec fn push_target(s: ShapeV, t: TargetV) -> ShapeV {
    match s {
        ShapeV::Node { id, targets, constraints, property_shapes } => ShapeV::Node { id, targets: targets.push(t), constraints, property_shapes },
        _ => s,
    }
}

/// A node shape with one more property shape.
pub open spec fn push_property_shape(s: ShapeV, p: Seq<char>) -> ShapeV {
    match s {
        ShapeV::Node { id, targets, constraints, property_shapes } => ShapeV::Node { id, targets, constraints, property_shapes: property_shapes.push(p) },
        _ => s,
    }
}

/// A property shape with its path set to a predicate.
pub open spec fn set_path(s: ShapeV, p: Seq<char>) -> ShapeV {
    match s {
        ShapeV::Property { id, path, constraints } => ShapeV::Property { id, path: PathV::Predicate(p), constraints },
        _ => s,
    }
}

/// A property shape with one more constraint.
pub open spec fn push_property_constraint(s: ShapeV, c: PropertyConstraintV) -> ShapeV {
    match s {
        ShapeV::Property { id, path, constraints } => ShapeV::Property { id, path, constraints: constraints.push(c) },
        _ => s,
    }
}

/// A node shape with one more node constraint, or a property shape with
/// one more property constraint.
pub open spec fn push_either(s: ShapeV, nc: NodeConstraintV, pc: PropertyConstraintV) -> ShapeV {
    match s {
        ShapeV::Node { id, targets, constraints, property_shapes } => ShapeV::Node { id, targets, constraints: constraints.push(nc), property_shapes },
        ShapeV::Property { id, path, constraints } => ShapeV::Property { id, path, constraints: constraints.push(pc) },
    }
}

/// What one triple adds to the shapes read so far.
pub open spec fn load_step(g: Seq<(Seq<char>, ShapeV)>, t: TripleView) -> Seq<(Seq<char>, ShapeV)> {
    let s = t.subject;
    let o = t.object;
    if t.predicate == sh_target_class() {
        upsert(g, s, bare_node(s, seq![TargetV::Class(o)]), |x: ShapeV| push_target(x, TargetV::Class(o)))
    } else if t.predicate == sh_property() {
        let g2 = upsert(g, s, bare_node(s, Seq::empty()), |x: ShapeV| push_property_shape(x, o));
        entry_of(g2, o, bare_property(o)).0
    } else if t.predicate == sh_path() {
        upsert(g, s, bare_property(s), |x: ShapeV| set_path(x, o))
    } else if t.predicate == sh_min_count() {
        match crate::text::parse_u64_spec(o) {
            Some(n) => upsert(g, s, bare_property(s), |x: ShapeV| push_property_constraint(x, PropertyConstraintV::MinCount(n))),
            None => g,
        }
    } else if t.predicate == sh_max_count() {
        match crate::text::parse_u64_spec(o) {
            Some(n) => upsert(g, s, bare_property(s), |x: ShapeV| push_property_constraint(x, PropertyConstraintV::MaxCount(n))),
            None => g,
        }
    } else if t.predicate == sh_datatype() {
        upsert(g, s, bare_node(s, Seq::empty()), |x: ShapeV| push_either(x, NodeConstraintV::Datatype(o), PropertyConstraintV::Datatype(o)))
    } else if t.predicate == sh_class() {
        upsert(g, s, bare_node(s, Seq::empty()), |x: ShapeV| push_either(x, NodeConstraintV::Class(o), PropertyConstraintV::Class(o)))
    } else if t.predicate == sh_has_value() {
        upsert(g, s, bare_node(s, Seq::empty()), |x: ShapeV| push_either(x, NodeConstraintV::HasValue(o), PropertyConstraintV::HasValue(o)))
    } else {
        g
    }
}

/// The shapes that the triples `ts` describe, read in order.
pub open spec fn shacl_load_spec(ts: Seq<TripleView>) -> Seq<(Seq<char>, ShapeV)>
    decreases ts.len(),
{
    if ts.len() == 0 {
        Seq::empty()
    } else {
        load_step(shacl_load_spec(ts.drop_last()), ts.last())
    }
}

/// Put `e` at position `i` in place of what was there, which is returned.
fn replace_entry(v: &mut Vec<(String, Shape)>, i: usize, e: (String, Shape)) -> (r: (String, Shape))
    requires
        i < old(v)@.len(),
    ensures
        final(v)@ == old(v)@.update(i as int, e),
        r == old(v)@[i as int],
{
    let r = v.remove(i);
    v.insert(i, e);
    proof {
        assert(final(v)@ =~= old(v)@.update(i as int, e));
    }
    r
}

/// The position of the shape under `key`, after adding `default` under it
/// where there was none.
fn entry_index(v: &mut Vec<(String, Shape)>, key: &String, default: Shape) -> (r: usize)
    ensures
        entries_view(final(v)@) == entry_of(entries_view(old(v)@), key@, shape_view(default)).0,
        r == entry_of(entries_view(old(v)@), key@, shape_view(default)).1,
        r < final(v)@.len(),
{
    match find_entry(v, key) {
        Some(i) => i,
        None => {
            let ghost before = entries_view(v@);
            v.push((key.clone(), default));
            proof {
                assert(entries_view(v@) =~= before.push((key@, shape_view(default))));
            }
            v.len() - 1
        },
    }
}

/// Change the shape at position `i` with `f`, given as the exec change
/// `apply` and its meaning `fv`.
fn modify_entry(v: &mut Vec<(String, Shape)>, i: usize, change: ShapeChange)
    requires
        i < old(v)@.len(),
    ensures
        entries_view(final(v)@) == entries_view(old(v)@).update(i as int,
            (entries_view(old(v)@)[i as int].0, change_view(change, entries_view(old(v)@)[i as int].1))),
{
    let placeholder = (String::new(), Shape::Node(NodeShape { id: String::new(), targets: Vec::new(), constraints: Vec::new(), property_shapes: Vec::new() }));
    let (k, shape) = replace_entry(v, i, placeholder);
    let changed = apply_change(shape, change);
    let ghost mid = v@;
    replace_entry(v, i, (k, changed));
    proof {
        assert(entries_view(v@) =~= entries_view(old(v)@).update(i as int,
            (entries_view(old(v)@)[i as int].0, change_view(change, entries_view(old(v)@)[i as int].1))));
    }
}

/// A change that one statement makes to a shape.
pub enum ShapeChange {
    AddTarget(Target),
    AddPropertyShape(String),
    SetPath(String),
    AddPropertyConstraint(PropertyConstraint),
    AddEither(NodeConstraint, PropertyConstraint),
}

/// What a change does to the content of a shape.
pub open spec fn change_view(c: ShapeChange, s: ShapeV) -> ShapeV {
    match c {
        ShapeChange::AddTarget(t) => push_target(s, target_view(t)),
        ShapeChange::AddPropertyShape(p) => push_property_shape(s, p@),
        ShapeChange::SetPath(p) => set_path(s, p@),
        ShapeChange::AddPropertyConstraint(pc) => push_property_constraint(s, property_constraint_view(pc)),
        ShapeChange::AddEither(nc, pc) => push_either(s, node_constraint_view(nc), property_constraint_view(pc)),
    }
}

/// Make a change to a shape.
fn apply_change(s: Shape, c: ShapeChange) -> (r: Shape)
    ensures
        shape_view(r) == change_view(c, shape_view(s)),
{
    let ghost sv = shape_view(s);
    match c {
        ShapeChange::AddTarget(t) => match s {
            Shape::Node(mut n) => {
                let ghost before = n.targets@;
                n.targets.push(t);
                proof {
                    assert(n.targets@.map_values(|x: Target| target_view(x)) =~= before.map_values(|x: Target| target_view(x)).push(target_view(t)));
                }
                Shape::Node(n)
            },
            Shape::Property(p) => Shape::Property(p),
        },
        ShapeChange::AddPropertyShape(id) => match s {
            Shape::Node(mut n) => {
                let ghost before = n.property_shapes@;
                n.property_shapes.push(id);
                proof {
                    assert(strings_view(n.property_shapes@) =~= strings_view(before).push(id@));
                }
                Shape::Node(n)
            },
            Shape::Property(p) => Shape::Property(p),
        },
        ShapeChange::SetPath(pred) => match s {
            Shape::Node(n) => Shape::Node(n),
            Shape::Property(mut p) => {
                p.path = PropertyPath::Predicate(pred);
                Shape::Property(p)
            },
        },
        ShapeChange::AddPropertyConstraint(pc) => match s {
            Shape::Node(n) => Shape::Node(n),
            Shape::Property(mut p) => {
                let ghost before = p.constraints@;
                p.constraints.push(pc);
                proof {
                    assert(p.constraints@.map_values(|x: PropertyConstraint| property_constraint_view(x))
                        =~= before.map_values(|x: PropertyConstraint| property_constraint_view(x)).push(property_constraint_view(pc)));
                }
                Shape::Property(p)
            },
        },
        ShapeChange::AddEither(nc, pc) => match s {
            Shape::Node(mut n) => {
                let ghost before = n.constraints@;
                n.constraints.push(nc);
                proof {
                    assert(n.constraints@.map_values(|x: NodeConstraint| node_constraint_view(x))
                        =~= before.map_values(|x: NodeConstraint| node_constraint_view(x)).push(node_constraint_view(nc)));
                }
                Shape::Node(n)
            },
            Shape::Property(mut p) => {
                let ghost before = p.constraints@;
                p.constraints.push(pc);
                proof {
                    assert(p.constraints@.map_values(|x: PropertyConstraint| property_constraint_view(x))
                        =~= before.map_values(|x: PropertyConstraint| property_constraint_view(x)).push(property_constraint_view(pc)));
                }
                Shape::Property(p)
            },
        },
    }
}

/// A node shape without targets, constraints or property shapes.
fn empty_node(id: &String) -> (r: Shape)
    ensures
        shape_view(r) == bare_node(id@, Seq::empty()),
{
    let targets: Vec<Target> = Vec::new();
    let constraints: Vec<NodeConstraint> = Vec::new();
    let property_shapes: Vec<String> = Vec::new();
    proof {
        assert(targets@.map_values(|t: Target| target_view(t)) =~= Seq::<TargetV>::empty());
        assert(constraints@.map_values(|c: NodeConstraint| node_constraint_view(c)) =~= Seq::<NodeConstraintV>::empty());
        assert(strings_view(property_shapes@) =~= Seq::<Seq<char>>::empty());
    }
    Shape::Node(NodeShape { id: id.clone(), targets, constraints, property_shapes })
}

/// A property shape whose path is not read yet.
fn empty_property(id: &String) -> (r: Shape)
    ensures
        shape_view(r) == bare_property(id@),
{
    let constraints: Vec<PropertyConstraint> = Vec::new();
    proof {
        assert(constraints@.map_values(|c: PropertyConstraint| property_constraint_view(c)) =~= Seq::<PropertyConstraintV>::empty());
    }
    Shape::Property(PropertyShape { id: id.clone(), path: PropertyPath::Predicate("http://example.org/predicate".to_string()), constraints })
}

/// Change the shape under `key`, made from `default` where there was none.
fn upsert_exec(v: &mut Vec<(String, Shape)>, key: &String, default: Shape, change: ShapeChange)
    ensures
        entries_view(final(v)@) == upsert(entries_view(old(v)@), key@, shape_view(default), |x: ShapeV| change_view(change, x)),
{
    let i = entry_index(v, key, default);
    modify_entry(v, i, change);
}

/// Reads SHACL shapes from the triples of a store.
#[derive(Debug)]
pub struct DefaultShaclLoader;

impl DefaultShaclLoader {
    /// Shapes from Turtle text: Turtle is not read, so the graph is empty.
    pub fn load_turtle(&self, _ttl: &str) -> (r: Result<ShapesGraph, ShaclError>)
        ensures
            r matches Ok(g) && g.shapes@.len() == 0 && g.prefixes@.len() == 0,
    {
        Ok(ShapesGraph { shapes: Vec::new(), prefixes: Vec::new() })
    }

    /// Shapes from a JSON-LD document: JSON-LD is not read, so the graph is
    /// empty.
    pub fn load_jsonld(&self, _jsonld: &crate::model::JsonValue) -> (r: Result<ShapesGraph, ShaclError>)
        ensures
            r matches Ok(g) && g.shapes@.len() == 0 && g.prefixes@.len() == 0,
    {
        Ok(ShapesGraph { shapes: Vec::new(), prefixes: Vec::new() })
    }

    /// Read the shapes that the store's triples describe, in order:
    /// sh:targetClass gives a node shape a target class, sh:property gives it a
    /// property shape, sh:path sets a property shape's predicate,
    /// sh:minCount and sh:maxCount (when the object is a number) constrain a
    /// property shape, and sh:datatype, sh:class and sh:hasValue constrain a
    /// node shape or a property shape. Reading never fails.
    pub fn load_from_store(&self, store: &RdfStore) -> (r: Result<ShapesGraph, ShaclError>)
        ensures
            r matches Ok(g) && g.shapes_view() == shacl_load_spec(store.view_triples()) && g.prefixes@.len() == 0,
    {
        let v_sh_target_class = "http://www.w3.org/ns/shacl#targetClass".to_string();
        let v_sh_property = "http://www.w3.org/ns/shacl#property".to_string();
        let v_sh_path = "http://www.w3.org/ns/shacl#path".to_string();
        let v_sh_min_count = "http://www.w3.org/ns/shacl#minCount".to_string();
        let v_sh_max_count = "http://www.w3.org/ns/shacl#maxCount".to_string();
        let v_sh_datatype = "http://www.w3.org/ns/shacl#datatype".to_string();
        let v_sh_class = "http://www.w3.org/ns/shacl#class".to_string();
        let v_sh_has_value = "http://www.w3.org/ns/shacl#hasValue".to_string();
        let triples = store.all_triples();
        let ghost ts = store.view_triples();
        let mut shapes: Vec<(String, Shape)> = Vec::new();
        proof {
            assert(entries_view(shapes@) =~= shacl_load_spec(ts.take(0)));
        }
        let mut k: usize = 0;
        while k < triples.len()
            invariant
                k <= triples@.len(),
                ts == triples_view(triples@),
                entries_view(shapes@) == shacl_load_spec(ts.take(k as int)),
                v_sh_target_class@ == sh_target_class(),
                v_sh_property@ == sh_property(),
                v_sh_path@ == sh_path(),
                v_sh_min_count@ == sh_min_count(),
                v_sh_max_count@ == sh_max_count(),
                v_sh_datatype@ == sh_datatype(),
                v_sh_class@ == sh_class(),
                v_sh_has_value@ == sh_has_value(),
            decreases triples.len() - k,
        {
            let t = &triples[k];
            proof {
                assert(ts.take(k + 1).drop_last() =~= ts.take(k as int));
                assert(ts.take(k + 1).last() == t@);
            }
            let s = &t.subject;
            let o = &t.object;
            if t.predicate == v_sh_target_class {
                let mut first: Vec<Target> = Vec::new();
                first.push(Target::Class(o.clone()));
                let constraints: Vec<NodeConstraint> = Vec::new();
                let property_shapes: Vec<String> = Vec::new();
                proof {
                    assert(first@.map_values(|x: Target| target_view(x)) =~= seq![TargetV::Class(o@)]);
                    assert(constraints@.map_values(|c: NodeConstraint| node_constraint_view(c)) =~= Seq::<NodeConstraintV>::empty());
                    assert(strings_view(property_shapes@) =~= Seq::<Seq<char>>::empty());
                }
                let default = Shape::Node(NodeShape { id: s.clone(), targets: first, constraints, property_shapes });
                upsert_exec(&mut shapes, s, default, ShapeChange::AddTarget(Target::Class(o.clone())));
            } else if t.predicate == v_sh_property {
                upsert_exec(&mut shapes, s, empty_node(s), ShapeChange::AddPropertyShape(o.clone()));
                entry_index(&mut shapes, o, empty_property(o));
            } else if t.predicate == v_sh_path {
                upsert_exec(&mut shapes, s, empty_property(s), ShapeChange::SetPath(o.clone()));
            } else if t.predicate == v_sh_min_count {
                match parse_u64(o.as_str()) {
                    Some(n) => { upsert_exec(&mut shapes, s, empty_property(s), ShapeChange::AddPropertyConstraint(PropertyConstraint::MinCount(n))); },
                    None => {},
                }
            } else if t.predicate == v_sh_max_count {
                match parse_u64(o.as_str()) {
                    Some(n) => { upsert_exec(&mut shapes, s, empty_property(s), ShapeChange::AddPropertyConstraint(PropertyConstraint::MaxCount(n))); },
                    None => {},
                }
            } else if t.predicate == v_sh_datatype {
                upsert_exec(&mut shapes, s, empty_node(s), ShapeChange::AddEither(NodeConstraint::Datatype(o.clone()), PropertyConstraint::Datatype(o.clone())));
            } else if t.predicate == v_sh_class {
                upsert_exec(&mut shapes, s, empty_node(s), ShapeChange::AddEither(NodeConstraint::Class(o.clone()), PropertyConstraint::Class(o.clone())));
            } else if t.predicate == v_sh_has_value {
                upsert_exec(&mut shapes, s, empty_node(s), ShapeChange::AddEither(NodeConstraint::HasValue(o.clone()), PropertyConstraint::HasValue(o.clone())));
            }
            k += 1;
        }
        proof {
            assert(ts.take(ts.len() as int) =~= ts);
        }
        Ok(ShapesGraph { shapes, prefixes: Vec::new() })
    }
}

/// A copy of a list of strings.
fn copy_strings(v: &Vec<String>) -> (r: Vec<String>)
    ensures
        strings_view(r@) == strings_view(v@),
{
    let mut out: Vec<String> = Vec::new();
    let mut k: usize = 0;
    while k < v.len()
        invariant
            k <= v@.len(),
            strings_view(out@) == strings_view(v@.take(k as int)),
        decreases v.len() - k,
    {
        let ghost before = out@;
        out.push(v[k].clone());
        proof {
            assert(v@.take(k + 1) =~= v@.take(k as int).push(v@[k as int]));
            assert(out@ =~= before.push(v@[k as int]));
            assert(strings_view(before.push(v@[k as int])) =~= strings_view(before).push(v@[k as int]@));
            assert(strings_view(v@.take(k as int).push(v@[k as int])) =~= strings_view(v@.take(k as int)).push(v@[k as int]@));
            assert(strings_view(out@) =~= strings_view(v@.take(k + 1)));
        }
        k += 1;
    }
    proof {
        assert(v@.take(v@.len() as int) =~= v@);
    }
    out
}

fn copy_opt(o: &Option<String>) -> (r: Option<String>)
    ensures
        opt_str(r) == opt_str(*o),
{
    match o {
        Some(s) => Some(s.clone()),
        None => None,
    }
}

impl Target {
    /// A copy of the target.
    pub fn copy(&self) -> (r: Target)
        ensures
            target_view(r) == target_view(*self),
    {
        match self {
            Target::Class(s) => Target::Class(s.clone()),
            Target::Node(s) => Target::Node(s.clone()),
            Target::SubjectsOf(s) => Target::SubjectsOf(s.clone()),
            Target::ObjectsOf(s) => Target::ObjectsOf(s.clone()),
        }
    }
}

impl PropertyPath {
    /// A copy of the path.
    pub fn copy(&self) -> (r: PropertyPath)
        ensures
            path_view(r) == path_view(*self),
        decreases self,
    {
        match self {
            PropertyPath::Predicate(s) => PropertyPath::Predicate(s.clone()),
            PropertyPath::Inverse(b) => PropertyPath::Inverse(Box::new((**b).copy())),
            PropertyPath::Sequence(v) => PropertyPath::Sequence(copy_paths(v)),
            PropertyPath::Alternative(v) => PropertyPath::Alternative(copy_paths(v)),
            PropertyPath::ZeroOrMore(b) => PropertyPath::ZeroOrMore(Box::new((**b).copy())),
            PropertyPath::OneOrMore(b) => PropertyPath::OneOrMore(Box::new((**b).copy())),
            PropertyPath::ZeroOrOne(b) => PropertyPath::ZeroOrOne(Box::new((**b).copy())),
        }
    }
}

/// Copies of the paths of a list.
fn copy_paths(v: &Vec<PropertyPath>) -> (r: Vec<PropertyPath>)
    decreases v,
{
    let mut out: Vec<PropertyPath> = Vec::new();
    let mut k: usize = 0;
    while k < v.len()
        invariant
            k <= v@.len(),
        decreases v.len() - k,
    {
        proof {
            vstd::std_specs::vec::axiom_vec_index_decreases(*v, k as int);
        }
        out.push(v[k].copy());
        k += 1;
    }
    out
}

impl NodeConstraint {
    /// A copy of the constraint.
    pub fn copy(&self) -> (r: NodeConstraint)
        ensures
            node_constraint_view(r) == node_constraint_view(*self),
    {
        match self {
            NodeConstraint::Class(s) => NodeConstraint::Class(s.clone()),
            NodeConstraint::Datatype(s) => NodeConstraint::Datatype(s.clone()),
            NodeConstraint::NodeKind(k) => NodeConstraint::NodeKind(*k),
            NodeConstraint::MinExclusive(s) => NodeConstraint::MinExclusive(s.clone()),
            NodeConstraint::MaxExclusive(s) => NodeConstraint::MaxExclusive(s.clone()),
            NodeConstraint::MinInclusive(s) => NodeConstraint::MinInclusive(s.clone()),
            NodeConstraint::MaxInclusive(s) => NodeConstraint::MaxInclusive(s.clone()),
            NodeConstraint::MinLength(n) => NodeConstraint::MinLength(*n),
            NodeConstraint::MaxLength(n) => NodeConstraint::MaxLength(*n),
            NodeConstraint::Pattern { pattern, flags } => NodeConstraint::Pattern { pattern: pattern.clone(), flags: copy_opt(flags) },
            NodeConstraint::LanguageIn(v) => NodeConstraint::LanguageIn(copy_strings(v)),
            NodeConstraint::UniqueLang(b) => NodeConstraint::UniqueLang(*b),
            NodeConstraint::Equals(s) => NodeConstraint::Equals(s.clone()),
            NodeConstraint::Disjoint(s) => NodeConstraint::Disjoint(s.clone()),
            NodeConstraint::LessThan(s) => NodeConstraint::LessThan(s.clone()),
            NodeConstraint::LessThanOrEquals(s) => NodeConstraint::LessThanOrEquals(s.clone()),
            NodeConstraint::In(v) => NodeConstraint::In(copy_strings(v)),
            NodeConstraint::HasValue(s) => NodeConstraint::HasValue(s.clone()),
            NodeConstraint::Closed { closed, ignored_properties } => NodeConstraint::Closed { closed: *closed, ignored_properties: copy_strings(ignored_properties) },
        }
    }
}

impl PropertyConstraint {
    /// A copy of the constraint.
    pub fn copy(&self) -> (r: PropertyConstraint)
        ensures
            property_constraint_view(r) == property_constraint_view(*self),
    {
        match self {
            PropertyConstraint::MinCount(n) => PropertyConstraint::MinCount(*n),
            PropertyConstraint::MaxCount(n) => PropertyConstraint::MaxCount(*n),
            PropertyConstraint::QualifiedValueShape { shape, qualified_min_count, qualified_max_count, qualified_value_shapes_disjoint } =>
                PropertyConstraint::QualifiedValueShape { shape: shape.clone(), qualified_min_count: *qualified_min_count,
                    qualified_max_count: *qualified_max_count, qualified_value_shapes_disjoint: *qualified_value_shapes_disjoint },
            PropertyConstraint::UniqueLang(b) => PropertyConstraint::UniqueLang(*b),
            PropertyConstraint::LanguageIn(v) => PropertyConstraint::LanguageIn(copy_strings(v)),
            PropertyConstraint::Equals(s) => PropertyConstraint::Equals(s.clone()),
            PropertyConstraint::Disjoint(s) => PropertyConstraint::Disjoint(s.clone()),
            PropertyConstraint::LessThan(s) => PropertyConstraint::LessThan(s.clone()),
            PropertyConstraint::LessThanOrEquals(s) => PropertyConstraint::LessThanOrEquals(s.clone()),
            PropertyConstraint::MinExclusive(s) => PropertyConstraint::MinExclusive(s.clone()),
            PropertyConstraint::MaxExclusive(s) => PropertyConstraint::MaxExclusive(s.clone()),
            PropertyConstraint::MinInclusive(s) => PropertyConstraint::MinInclusive(s.clone()),
            PropertyConstraint::MaxInclusive(s) => PropertyConstraint::MaxInclusive(s.clone()),
            PropertyConstraint::MinLength(n) => PropertyConstraint::MinLength(*n),
            PropertyConstraint::MaxLength(n) => PropertyConstraint::MaxLength(*n),
            PropertyConstraint::Pattern { pattern, flags } => PropertyConstraint::Pattern { pattern: pattern.clone(), flags: copy_opt(flags) },
            PropertyConstraint::In(v) => PropertyConstraint::In(copy_strings(v)),
            PropertyConstraint::HasValue(s) => PropertyConstraint::HasValue(s.clone()),
            PropertyConstraint::SparqlConstraint(s) => PropertyConstraint::SparqlConstraint(s.clone()),
            PropertyConstraint::Class(s) => PropertyConstraint::Class(s.clone()),
            PropertyConstraint::Datatype(s) => PropertyConstraint::Datatype(s.clone()),
        }
    }
}

/// A copy of a list of targets.
fn copy_targets(v: &Vec<Target>) -> (r: Vec<Target>)
    ensures
        r@.map_values(|t: Target| target_view(t)) == v@.map_values(|t: Target| target_view(t)),
{
    let mut out: Vec<Target> = Vec::new();
    let mut k: usize = 0;
    while k < v.len()
        invariant
            k <= v@.len(),
            out@.map_values(|t: Target| target_view(t)) == v@.take(k as int).map_values(|t: Target| target_view(t)),
        decreases v.len() - k,
    {
        let ghost before = out@;
        let c = v[k].copy();
        let ghost cg = c;
        let ghost prev = out@;
        out.push(c);
        proof {
            assert(out@ =~= prev.push(cg));
            assert(out@.map_values(|t: Target| target_view(t)) =~= prev.map_values(|t: Target| target_view(t)).push(target_view(cg)));
            assert(v@.take(k + 1).map_values(|t: Target| target_view(t)) =~= v@.take(k as int).map_values(|t: Target| target_view(t)).push(target_view(v@[k as int])));
            assert(out@.map_values(|t: Target| target_view(t)) =~= v@.take(k + 1).map_values(|t: Target| target_view(t)));
        }
        k += 1;
    }
    proof {
        assert(v@.take(v@.len() as int) =~= v@);
    }
    out
}

/// A copy of a list of node constraints.
fn copy_node_constraints(v: &Vec<NodeConstraint>) -> (r: Vec<NodeConstraint>)
    ensures
        r@.map_values(|c: NodeConstraint| node_constraint_view(c)) == v@.map_values(|c: NodeConstraint| node_constraint_view(c)),
{
    let mut out: Vec<NodeConstraint> = Vec::new();
    let mut k: usize = 0;
    while k < v.len()
        invariant
            k <= v@.len(),
            out@.map_values(|c: NodeConstraint| node_constraint_view(c)) == v@.take(k as int).map_values(|c: NodeConstraint| node_constraint_view(c)),
        decreases v.len() - k,
    {
        let c = v[k].copy();
        let ghost cg = c;
        let ghost prev = out@;
        out.push(c);
        proof {
            assert(out@ =~= prev.push(cg));
            assert(out@.map_values(|c: NodeConstraint| node_constraint_view(c)) =~= prev.map_values(|c: NodeConstraint| node_constraint_view(c)).push(node_constraint_view(cg)));
            assert(v@.take(k + 1).map_values(|c: NodeConstraint| node_constraint_view(c)) =~= v@.take(k as int).map_values(|c: NodeConstraint| node_constraint_view(c)).push(node_constraint_view(v@[k as int])));
            assert(out@.map_values(|c: NodeConstraint| node_constraint_view(c)) =~= v@.take(k + 1).map_values(|c: NodeConstraint| node_constraint_view(c)));
        }
        k += 1;
    }
    proof {
        assert(v@.take(v@.len() as int) =~= v@);
    }
    out
}

/// A copy of a list of property constraints.
fn copy_property_constraints(v: &Vec<PropertyConstraint>) -> (r: Vec<PropertyConstraint>)
    ensures
        r@.map_values(|c: PropertyConstraint| property_constraint_view(c)) == v@.map_values(|c: PropertyConstraint| property_constraint_view(c)),
{
    let mut out: Vec<PropertyConstraint> = Vec::new();
    let mut k: usize = 0;
    while k < v.len()
        invariant
            k <= v@.len(),
            out@.map_values(|c: PropertyConstraint| property_constraint_view(c)) == v@.take(k as int).map_values(|c: PropertyConstraint| property_constraint_view(c)),
        decreases v.len() - k,
    {
        let c = v[k].copy();
        let ghost cg = c;
        let ghost prev = out@;
        out.push(c);
        proof {
            assert(out@ =~= prev.push(cg));
            assert(out@.map_values(|c: PropertyConstraint| property_constraint_view(c)) =~= prev.map_values(|c: PropertyConstraint| property_constraint_view(c)).push(property_constraint_view(cg)));
            assert(v@.take(k + 1).map_values(|c: PropertyConstraint| property_constraint_view(c)) =~= v@.take(k as int).map_values(|c: PropertyConstraint| property_constraint_view(c)).push(property_constraint_view(v@[k as int])));
            assert(out@.map_values(|c: PropertyConstraint| property_constraint_view(c)) =~= v@.take(k + 1).map_values(|c: PropertyConstraint| property_constraint_view(c)));
        }
        k += 1;
    }
    proof {
        assert(v@.take(v@.len() as int) =~= v@);
    }
    out
}

impl Shape {
    /// A copy of the shape.
    pub fn copy(&self) -> (r: Shape)
        ensures
            shape_view(r) == shape_view(*self),
    {
        match self {
            Shape::Node(n) => Shape::Node(NodeShape {
                id: n.id.clone(),
                targets: copy_targets(&n.targets),
                constraints: copy_node_constraints(&n.constraints),
                property_shapes: copy_strings(&n.property_shapes),
            }),
            Shape::Property(p) => Shape::Property(PropertyShape {
                id: p.id.clone(),
                path: p.path.copy(),
                constraints: copy_property_constraints(&p.constraints),
            }),
        }
    }
}

impl ShapesGraph {
    /// A copy of the graph.
    pub fn copy(&self) -> (r: ShapesGraph)
        ensures
            r.shapes_view() == self.shapes_view(),
            r.prefixes@.len() == self.prefixes@.len(),
            forall|k: int| 0 <= k < self.prefixes@.len() ==> r.prefixes@[k].0@ == self.prefixes@[k].0@ && r.prefixes@[k].1@ == self.prefixes@[k].1@,
    {
        let mut shapes: Vec<(String, Shape)> = Vec::new();
        let mut k: usize = 0;
        while k < self.shapes.len()
            invariant
                k <= self.shapes@.len(),
                entries_view(shapes@) == entries_view(self.shapes@.take(k as int)),
            decreases self.shapes.len() - k,
        {
            let e = (self.shapes[k].0.clone(), self.shapes[k].1.copy());
            let ghost eg = e;
            let ghost prev = shapes@;
            shapes.push(e);
            proof {
                assert(shapes@ =~= prev.push(eg));
                assert(entries_view(shapes@) =~= entries_view(prev).push((eg.0@, shape_view(eg.1))));
                assert(entries_view(self.shapes@.take(k + 1)) =~= entries_view(self.shapes@.take(k as int)).push((self.shapes@[k as int].0@, shape_view(self.shapes@[k as int].1))));
                assert(entries_view(shapes@) =~= entries_view(self.shapes@.take(k + 1)));
            }
            k += 1;
        }
        let mut prefixes: Vec<(String, String)> = Vec::new();
        let mut q: usize = 0;
        while q < self.prefixes.len()
            invariant
                q <= self.prefixes@.len(),
                prefixes@.len() == q,
                forall|j: int| 0 <= j < q ==> prefixes@[j].0@ == self.prefixes@[j].0@ && prefixes@[j].1@ == self.prefixes@[j].1@,
            decreases self.prefixes.len() - q,
        {
            prefixes.push((self.prefixes[q].0.clone(), self.prefixes[q].1.clone()));
            q += 1;
        }
        proof {
            assert(self.shapes@.take(self.shapes@.len() as int) =~= self.shapes@);
        }
        ShapesGraph { shapes, prefixes }
    }
}

} // verus!
