//! The values stored in facts, the facts themselves, and the property-graph
//! node/edge records.
use vstd::prelude::*;
use crate::ids::{EntityId, uuid_new_v4, uuid_text, spec_uuid_text};
use crate::keyed::{distinct_keys, keyed_map, find_key, lemma_keyed_lookup, lemma_keyed_absent,
    lemma_keyed_update, lemma_keyed_push, lemma_keyed_len};

verus! {

/// A value stored in a fact.
///
/// A floating-point number is held as its decimal literal text: this library
/// stores, matches and prints floats but does no floating-point arithmetic.
#[derive(Debug, PartialEq)]
pub enum Value {
    String(String),
    Integer(i64),
    Float(String),
    Boolean(bool),
    Ref(EntityId),
    Keyword(String),
    Null,
}

/// The mathematical model of a [`Value`]: strings are character sequences.
pub enum ValueV {
    String(Seq<char>),
    Integer(i64),
    Float(Seq<char>),
    Boolean(bool),
    Ref(u128),
    Keyword(Seq<char>),
    Null,
}

impl View for Value {
    type V = ValueV;

    open spec fn view(&self) -> ValueV {
        match self {
            Value::String(s) => ValueV::String(s@),
            Value::Integer(i) => ValueV::Integer(*i),
            Value::Float(f) => ValueV::Float(f@),
            Value::Boolean(b) => ValueV::Boolean(*b),
            Value::Ref(r) => ValueV::Ref(*r),
            Value::Keyword(k) => ValueV::Keyword(k@),
            Value::Null => ValueV::Null,
        }
    }
}

impl Clone for Value {
    fn clone(&self) -> (r: Self)
        ensures
            r == *self,
    {
        match self {
            Value::String(s) => Value::String(s.clone()),
            Value::Integer(i) => Value::Integer(*i),
            Value::Float(f) => Value::Float(f.clone()),
            Value::Boolean(b) => Value::Boolean(*b),
            Value::Ref(r) => Value::Ref(*r),
            Value::Keyword(k) => Value::Keyword(k.clone()),
            Value::Null => Value::Null,
        }
    }
}

/// The models of a sequence of values.
pub open spec fn values_view(s: Seq<Value>) -> Seq<ValueV> {
    s.map_values(|v: Value| v@)
}

/// Whether two values are equal (strings compared by their characters).
pub fn value_eq(a: &Value, b: &Value) -> (r: bool)
    ensures
        r == (a@ == b@),
{
    match (a, b) {
        (Value::String(x), Value::String(y)) => *x == *y,
        (Value::Integer(x), Value::Integer(y)) => *x == *y,
        (Value::Float(x), Value::Float(y)) => *x == *y,
        (Value::Boolean(x), Value::Boolean(y)) => *x == *y,
        (Value::Ref(x), Value::Ref(y)) => *x == *y,
        (Value::Keyword(x), Value::Keyword(y)) => *x == *y,
        (Value::Null, Value::Null) => true,
        _ => false,
    }
}

/// Whether two rows of values are equal element by element.
pub fn values_eq(a: &Vec<Value>, b: &Vec<Value>) -> (r: bool)
    ensures
        r == (values_view(a@) == values_view(b@)),
{
    if a.len() != b.len() {
        assert(values_view(a@).len() != values_view(b@).len());
        return false;
    }
    let mut i: usize = 0;
    while i < a.len()
        invariant
            a.len() == b.len(),
            i <= a.len(),
            forall|j: int| 0 <= j < i ==> a@[j]@ == b@[j]@,
        decreases a.len() - i,
    {
        if !value_eq(&a[i], &b[i]) {
            assert(values_view(a@)[i as int] != values_view(b@)[i as int]);
            return false;
        }
        i = i + 1;
    }
    assert(values_view(a@) =~= values_view(b@));
    true
}

/// Copies a row of values.
pub fn clone_values(v: &Vec<Value>) -> (r: Vec<Value>)
    ensures
        r@ == v@,
{
    let mut out: Vec<Value> = Vec::new();
    let mut i: usize = 0;
    while i < v.len()
        invariant
            i <= v.len(),
            out@ == v@.subrange(0, i as int),
        decreases v.len() - i,
    {
        out.push(v[i].clone());
        i = i + 1;
        assert(out@ =~= v@.subrange(0, i as int));
    }
    assert(out@ =~= v@);
    out
}

/// Timestamp meaning "valid until further notice".
pub const VALID_TIME_FOREVER: i64 = 9223372036854775807i64;

/// A single stored fact: entity, attribute, value, with its transaction and
/// valid-time metadata. `asserted` is false for a retraction record.
#[derive(Debug, PartialEq)]
pub struct Fact {
    pub entity: EntityId,
    pub attribute: String,
    pub value: Value,
    pub tx_id: u64,
    pub tx_count: u64,
    pub valid_from: i64,
    pub valid_to: i64,
    pub asserted: bool,
}

impl Fact {
    /// An asserted fact with the given transaction id, valid from the
    /// beginning of time until further notice.
    pub fn new(entity: EntityId, attribute: String, value: Value, tx_id: u64) -> (r: Fact)
        ensures
            r.entity == entity,
            r.attribute == attribute,
            r.value == value,
            r.tx_id == tx_id,
            r.tx_count == 0,
            r.valid_from == i64::MIN,
            r.valid_to == VALID_TIME_FOREVER,
            r.asserted,
    {
        Fact {
            entity,
            attribute,
            value,
            tx_id,
            tx_count: 0,
            valid_from: i64::MIN,
            valid_to: VALID_TIME_FOREVER,
            asserted: true,
        }
    }
}

impl Clone for Fact {
    fn clone(&self) -> (r: Self)
        ensures
            r == *self,
    {
        Fact {
            entity: self.entity,
            attribute: self.attribute.clone(),
            value: self.value.clone(),
            tx_id: self.tx_id,
            tx_count: self.tx_count,
            valid_from: self.valid_from,
            valid_to: self.valid_to,
            asserted: self.asserted,
        }
    }
}

/// Copies a sequence of facts.
pub fn clone_facts(v: &Vec<Fact>) -> (r: Vec<Fact>)
    ensures
        r@ == v@,
{
    let mut out: Vec<Fact> = Vec::new();
    let mut i: usize = 0;
    while i < v.len()
        invariant
            i <= v.len(),
            out@ == v@.subrange(0, i as int),
        decreases v.len() - i,
    {
        out.push(v[i].clone());
        i = i + 1;
        assert(out@ =~= v@.subrange(0, i as int));
    }
    assert(out@ =~= v@);
    out
}


/// A property value of a graph node or edge.
///
/// A floating-point number is held as its literal text.
#[derive(Debug, PartialEq)]
pub enum PropertyValue {
    String(String),
    Integer(i64),
    Float(String),
    Boolean(bool),
    Null,
}

/// The mathematical model of a [`PropertyValue`].
pub enum PropertyValueV {
    String(Seq<char>),
    Integer(i64),
    Float(Seq<char>),
    Boolean(bool),
    Null,
}

impl View for PropertyValue {
    type V = PropertyValueV;

    open spec fn view(&self) -> PropertyValueV {
        match self {
            PropertyValue::String(s) => PropertyValueV::String(s@),
            PropertyValue::Integer(i) => PropertyValueV::Integer(*i),
            PropertyValue::Float(f) => PropertyValueV::Float(f@),
            PropertyValue::Boolean(b) => PropertyValueV::Boolean(*b),
            PropertyValue::Null => PropertyValueV::Null,
        }
    }
}

impl Clone for PropertyValue {
    fn clone(&self) -> (r: Self)
        ensures
            r == *self,
    {
        match self {
            PropertyValue::String(s) => PropertyValue::String(s.clone()),
            PropertyValue::Integer(i) => PropertyValue::Integer(*i),
            PropertyValue::Float(f) => PropertyValue::Float(f.clone()),
            PropertyValue::Boolean(b) => PropertyValue::Boolean(*b),
            PropertyValue::Null => PropertyValue::Null,
        }
    }
}

/// Whether two property values are equal (text compared by characters).
pub fn property_value_eq(a: &PropertyValue, b: &PropertyValue) -> (r: bool)
    ensures
        r == (a@ == b@),
{
    match (a, b) {
        (PropertyValue::String(x), PropertyValue::String(y)) => *x == *y,
        (PropertyValue::Integer(x), PropertyValue::Integer(y)) => *x == *y,
        (PropertyValue::Float(x), PropertyValue::Float(y)) => *x == *y,
        (PropertyValue::Boolean(x), PropertyValue::Boolean(y)) => *x == *y,
        (PropertyValue::Null, PropertyValue::Null) => true,
        _ => false,
    }
}

/// The properties of a node or edge: a map from property names to values.
/// Entries are kept in insertion order; each name occurs once.
#[derive(Debug, PartialEq)]
pub struct Property {
    entries: Vec<(String, PropertyValue)>,
}

impl Property {
    #[verifier::type_invariant]
    spec fn inv(self) -> bool {
        distinct_keys(self.entries@)
    }

    /// The property names and their values.
    pub closed spec fn view(&self) -> Map<Seq<char>, PropertyValueV> {
        keyed_map(self.entries@)
    }

    /// The entries (name and value) in insertion order.
    pub closed spec fn items(&self) -> Seq<(Seq<char>, PropertyValueV)> {
        self.entries@.map_values(|e: (String, PropertyValue)| (e.0@, e.1@))
    }

    /// No properties.
    pub fn new() -> (r: Self)
        ensures
            r@ == Map::<Seq<char>, PropertyValueV>::empty(),
            r.items().len() == 0,
    {
        let r = Property { entries: Vec::new() };
        assert(r@ =~= Map::<Seq<char>, PropertyValueV>::empty());
        r
    }

    /// The value of property `key`, if set.
    pub fn get(&self, key: &str) -> (r: Option<&PropertyValue>)
        ensures
            r is Some <==> self@.contains_key(key@),
            r matches Some(v) ==> self@[key@] == v@,
    {
        proof { use_type_invariant(self); }
        match find_key(&self.entries, key) {
            Some(i) => {
                proof { lemma_keyed_lookup(self.entries@, i as int); }
                Some(&self.entries[i].1)
            },
            None => {
                proof { lemma_keyed_absent(self.entries@, key@); }
                None
            },
        }
    }

    /// Sets property `key` to `value`, replacing an earlier value of `key`.
    pub fn insert(&mut self, key: String, value: PropertyValue)
        ensures
            final(self)@ == old(self)@.insert(key@, value@),
    {
        proof { use_type_invariant(&*self); }
        let pos = find_key(&self.entries, key.as_str());
        let mut fresh = clone_entries(&self.entries);
        match pos {
            Some(i) => {
                proof { lemma_keyed_update(fresh@, i as int, (key, value)); }
                fresh.set(i, (key, value));
            },
            None => {
                proof { lemma_keyed_push(fresh@, (key, value)); }
                fresh.push((key, value));
            },
        }
        *self = Property { entries: fresh };
    }

    /// The number of properties.
    pub fn len(&self) -> (r: usize)
        ensures
            r == self@.dom().len(),
            r == self.items().len(),
    {
        proof {
            use_type_invariant(self);
            lemma_keyed_len(self.entries@);
        }
        self.entries.len()
    }

    /// Whether there are no properties.
    pub fn is_empty(&self) -> (r: bool)
        ensures
            r == (self@.dom().len() == 0),
            r == (self.items().len() == 0),
    {
        proof {
            use_type_invariant(self);
            lemma_keyed_len(self.entries@);
        }
        self.entries.len() == 0
    }

    /// The name and value of entry `i` in insertion order.
    pub fn entry(&self, i: usize) -> (r: (&String, &PropertyValue))
        requires
            i < self.items().len(),
        ensures
            r.0@ == self.items()[i as int].0,
            r.1@ == self.items()[i as int].1,
    {
        (&self.entries[i].0, &self.entries[i].1)
    }
}

fn clone_entries(v: &Vec<(String, PropertyValue)>) -> (r: Vec<(String, PropertyValue)>)
    ensures
        r@ == v@,
{
    let mut out: Vec<(String, PropertyValue)> = Vec::new();
    let mut j: usize = 0;
    while j < v.len()
        invariant
            j <= v@.len(),
            out@ == v@.subrange(0, j as int),
        decreases v.len() - j,
    {
        out.push((v[j].0.clone(), v[j].1.clone()));
        j = j + 1;
        assert(out@ =~= v@.subrange(0, j as int));
    }
    assert(out@ =~= v@);
    out
}

impl Clone for Property {
    fn clone(&self) -> (r: Self)
        ensures
            r.items() == self.items(),
            r@ == self@,
    {
        proof { use_type_invariant(self); }
        Property { entries: clone_entries(&self.entries) }
    }
}

/// Copies a list of strings.
pub fn clone_strings(v: &Vec<String>) -> (r: Vec<String>)
    ensures
        r@ == v@,
{
    let mut out: Vec<String> = Vec::new();
    let mut j: usize = 0;
    while j < v.len()
        invariant
            j <= v@.len(),
            out@ == v@.subrange(0, j as int),
        decreases v.len() - j,
    {
        out.push(v[j].clone());
        j = j + 1;
        assert(out@ =~= v@.subrange(0, j as int));
    }
    assert(out@ =~= v@);
    out
}

/// A node of the property graph.
#[derive(Debug)]
pub struct Node {
    pub id: String,
    pub labels: Vec<String>,
    pub properties: Property,
}

/// The models of a list of strings.
pub open spec fn strings_view(s: Seq<String>) -> Seq<Seq<char>> {
    s.map_values(|x: String| x@)
}

/// The mathematical model of a [`Node`].
pub struct NodeV {
    pub id: Seq<char>,
    pub labels: Seq<Seq<char>>,
    pub properties: Map<Seq<char>, PropertyValueV>,
    pub items: Seq<(Seq<char>, PropertyValueV)>,
}

impl View for Node {
    type V = NodeV;

    open spec fn view(&self) -> NodeV {
        NodeV {
            id: self.id@,
            labels: strings_view(self.labels@),
            properties: self.properties@,
            items: self.properties.items(),
        }
    }
}

impl Node {
    /// A node with a fresh random identifier (a UUID in text form).
    pub fn new(labels: Vec<String>, properties: Property) -> (r: Node)
        ensures
            r.labels == labels,
            r.properties == properties,
            exists|u: u128| r.id@ == spec_uuid_text(u),
    {
        let u = uuid_new_v4();
        let id = uuid_text(u);
        Node { id, labels, properties }
    }
}

impl Clone for Node {
    fn clone(&self) -> (r: Self)
        ensures
            r@ == self@,
    {
        Node { id: self.id.clone(), labels: clone_strings(&self.labels), properties: self.properties.clone() }
    }
}

/// A directed, labelled edge of the property graph.
#[derive(Debug)]
pub struct Edge {
    pub id: String,
    pub source: String,
    pub target: String,
    pub label: String,
    pub properties: Property,
}

/// The mathematical model of an [`Edge`].
pub struct EdgeV {
    pub id: Seq<char>,
    pub source: Seq<char>,
    pub target: Seq<char>,
    pub label: Seq<char>,
    pub properties: Map<Seq<char>, PropertyValueV>,
    pub items: Seq<(Seq<char>, PropertyValueV)>,
}

impl View for Edge {
    type V = EdgeV;

    open spec fn view(&self) -> EdgeV {
        EdgeV {
            id: self.id@,
            source: self.source@,
            target: self.target@,
            label: self.label@,
            properties: self.properties@,
            items: self.properties.items(),
        }
    }
}

impl Edge {
    /// An edge with a fresh random identifier (a UUID in text form).
    pub fn new(source: String, target: String, label: String, properties: Property) -> (r: Edge)
        ensures
            r.source == source,
            r.target == target,
            r.label == label,
            r.properties == properties,
            exists|u: u128| r.id@ == spec_uuid_text(u),
    {
        let u = uuid_new_v4();
        let id = uuid_text(u);
        Edge { id, source, target, label, properties }
    }
}

impl Clone for Edge {
    fn clone(&self) -> (r: Self)
        ensures
            r@ == self@,
    {
        Edge {
            id: self.id.clone(),
            source: self.source.clone(),
            target: self.target.clone(),
            label: self.label.clone(),
            properties: self.properties.clone(),
        }
    }
}

} // verus!
