//! Resources, attribute values and the state of existing infrastructure.

use vstd::prelude::*;

use crate::text::{copy_string, push_char, push_str, str_eq, str_to_string};

verus! {

broadcast use vstd::std_specs::vec::axiom_vec_index_decreases;

/// Resource type path for typed references (e.g., aws.vpc, aws.security_group)
#[derive(Debug, Clone, PartialEq)]
pub struct ResourceTypePath {
    /// Provider name (e.g., "aws")
    pub provider: String,
    /// Resource type (e.g., "vpc", "security_group")
    pub resource_type: String,
}

impl View for ResourceTypePath {
    type V = (Seq<char>, Seq<char>);

    open spec fn view(&self) -> (Seq<char>, Seq<char>) {
        (self.provider@, self.resource_type@)
    }
}

impl ResourceTypePath {
    pub fn new(provider: &str, resource_type: &str) -> (r: Self)
        ensures
            r@ == (provider@, resource_type@),
    {
        ResourceTypePath { provider: str_to_string(provider), resource_type: str_to_string(resource_type) }
    }

    /// The dotted form `provider.resource_type`.
    pub open spec fn spec_display(&self) -> Seq<char> {
        path_text(self@)
    }

    /// The dotted form `provider.resource_type` (what `Display` prints).
    pub fn to_string(&self) -> (r: String)
        ensures
            r@ == path_text(self@),
    {
        let mut s = copy_string(&self.provider);
        push_char(&mut s, '.');
        push_str(&mut s, self.resource_type.as_str());
        s
    }
}

/// The dotted text of a resource type path.
pub open spec fn path_text(p: (Seq<char>, Seq<char>)) -> Seq<char> {
    p.0 + seq!['.'] + p.1
}

/// A copy of a resource type path.
pub fn copy_path(p: &ResourceTypePath) -> (r: ResourceTypePath)
    ensures
        r@ == p@,
{
    ResourceTypePath { provider: copy_string(&p.provider), resource_type: copy_string(&p.resource_type) }
}

/// Unique identifier for a resource
#[derive(Debug, Clone, PartialEq, Eq, Hash)]
pub struct ResourceId {
    /// Resource type (e.g., "s3_bucket", "ec2_instance")
    pub resource_type: String,
    /// Resource name (identifier specified in DSL)
    pub name: String,
}

impl View for ResourceId {
    type V = (Seq<char>, Seq<char>);

    open spec fn view(&self) -> (Seq<char>, Seq<char>) {
        (self.resource_type@, self.name@)
    }
}

impl ResourceId {
    pub fn new(resource_type: &str, name: &str) -> (r: Self)
        ensures
            r@ == (resource_type@, name@),
    {
        ResourceId { resource_type: str_to_string(resource_type), name: str_to_string(name) }
    }
}

/// A copy of a resource id.
pub fn copy_id(id: &ResourceId) -> (r: ResourceId)
    ensures
        r@ == id@,
{
    ResourceId { resource_type: copy_string(&id.resource_type), name: copy_string(&id.name) }
}

/// Attribute value of a resource
#[derive(Debug, PartialEq)]
pub enum Value {
    String(String),
    Int(i64),
    Bool(bool),
    List(Vec<Value>),
    /// Named values (a map from keys to values)
    Dict(ValueMap),
    /// Reference to another resource's attribute (binding_name, attribute_name)
    ResourceRef(String, String),
    /// Typed reference to another resource's attribute with optional type information
    TypedResourceRef {
        /// Binding name of the referenced resource (e.g., "vpc", "web_sg")
        binding_name: String,
        /// Attribute name being referenced (e.g., "id", "name")
        attribute_name: String,
        /// Optional resource type for type checking (e.g., aws.vpc)
        resource_type: Option<ResourceTypePath>,
    },
    /// Unresolved identifier that will be resolved during schema validation.
    /// `dedicated` is ("dedicated", None); `InstanceTenancy.dedicated` is
    /// ("InstanceTenancy", Some("dedicated")).
    UnresolvedIdent(String, Option<String>),
}

/// A map from attribute names to values. Each key occurs once; entries keep
/// the order in which their keys were first inserted.
#[derive(Debug, PartialEq)]
pub struct ValueMap {
    pub entries: Vec<(String, Value)>,
}

/// The mathematical content of a value.
pub enum ValueModel {
    Str(Seq<char>),
    Int(i64),
    Bool(bool),
    List(Seq<ValueModel>),
    Dict(Seq<(Seq<char>, ValueModel)>),
    ResourceRef(Seq<char>, Seq<char>),
    TypedResourceRef {
        binding_name: Seq<char>,
        attribute_name: Seq<char>,
        resource_type: Option<(Seq<char>, Seq<char>)>,
    },
    UnresolvedIdent(Seq<char>, Option<Seq<char>>),
}

pub open spec fn opt_path_view(p: Option<ResourceTypePath>) -> Option<(Seq<char>, Seq<char>)> {
    match p {
        Some(p) => Some(p@),
        None => None,
    }
}

pub open spec fn opt_str_view(s: Option<String>) -> Option<Seq<char>> {
    match s {
        Some(s) => Some(s@),
        None => None,
    }
}

/// The model of a value.
pub open spec fn value_view(v: Value) -> ValueModel
    decreases v,
{
    proof {
        broadcast use vstd::std_specs::vec::axiom_vec_index_decreases;
    }
    match v {
        Value::String(s) => ValueModel::Str(s@),
        Value::Int(n) => ValueModel::Int(n),
        Value::Bool(b) => ValueModel::Bool(b),
        Value::List(items) => ValueModel::List(
            Seq::new(
                items.len() as nat,
                |i: int|
                    if 0 <= i < items.len() {
                        value_view(items@[i])
                    } else {
                        ValueModel::Int(0)
                    },
            ),
        ),
        Value::Dict(m) => ValueModel::Dict(
            Seq::new(
                m.entries.len() as nat,
                |i: int|
                    if 0 <= i < m.entries.len() {
                        (m.entries@[i].0@, value_view(m.entries@[i].1))
                    } else {
                        (Seq::<char>::empty(), ValueModel::Int(0))
                    },
            ),
        ),
        Value::ResourceRef(b, a) => ValueModel::ResourceRef(b@, a@),
        Value::TypedResourceRef { binding_name, attribute_name, resource_type } =>
            ValueModel::TypedResourceRef {
                binding_name: binding_name@,
                attribute_name: attribute_name@,
                resource_type: opt_path_view(resource_type),
            },
        Value::UnresolvedIdent(a, b) => ValueModel::UnresolvedIdent(a@, opt_str_view(b)),
    }
}

/// The model of a list of values.
pub open spec fn values_view(items: Seq<Value>) -> Seq<ValueModel> {
    Seq::new(items.len(), |i: int| value_view(items[i]))
}

/// The model of a list of map entries.
pub open spec fn entries_view(entries: Seq<(String, Value)>) -> Seq<(Seq<char>, ValueModel)> {
    Seq::new(entries.len(), |i: int| (entries[i].0@, value_view(entries[i].1)))
}

impl View for Value {
    type V = ValueModel;

    open spec fn view(&self) -> ValueModel {
        value_view(*self)
    }
}

impl View for ValueMap {
    type V = Seq<(Seq<char>, ValueModel)>;

    open spec fn view(&self) -> Seq<(Seq<char>, ValueModel)> {
        entries_view(self.entries@)
    }
}

pub proof fn lemma_list_view(items: Vec<Value>)
    ensures
        value_view(Value::List(items)) == ValueModel::List(values_view(items@)),
{
    let v = value_view(Value::List(items));
    if let ValueModel::List(s1) = v {
        assert(s1.len() == items.len());
        assert forall|i: int| 0 <= i < s1.len() implies s1[i] == value_view(items@[i]) by {}
        assert(s1 =~= values_view(items@));
    }
}

pub proof fn lemma_dict_view(m: ValueMap)
    ensures
        value_view(Value::Dict(m)) == ValueModel::Dict(m@),
{
    let v = value_view(Value::Dict(m));
    if let ValueModel::Dict(s1) = v {
        assert(s1.len() == m.entries.len());
        assert forall|i: int| 0 <= i < s1.len() implies s1[i] == (
            m.entries@[i].0@,
            value_view(m.entries@[i].1),
        ) by {}
        assert(s1 =~= m@);
    }
}

/// The value of the first entry with the given key.
pub open spec fn lookup(entries: Seq<(Seq<char>, ValueModel)>, key: Seq<char>) -> Option<ValueModel>
    decreases entries.len(),
{
    if entries.len() == 0 {
        None
    } else if entries[0].0 == key {
        Some(entries[0].1)
    } else {
        lookup(entries.drop_first(), key)
    }
}

/// Whether an entry list holds the key.
pub open spec fn has_key(entries: Seq<(Seq<char>, ValueModel)>, key: Seq<char>) -> bool {
    exists|i: int| 0 <= i < entries.len() && entries[i].0 == key
}

/// Whether no key occurs twice in an entry list.
pub open spec fn distinct_keys(entries: Seq<(Seq<char>, ValueModel)>) -> bool {
    forall|i: int, j: int| 0 <= i < j < entries.len() ==> entries[i].0 != entries[j].0
}

/// The keys of an entry list, in order.
pub open spec fn keys_of(entries: Seq<(Seq<char>, ValueModel)>) -> Seq<Seq<char>> {
    Seq::new(entries.len(), |i: int| entries[i].0)
}

/// The entry list after inserting `key` with `value`: the first entry with
/// that key takes the new value in place; otherwise the entry is appended.
pub open spec fn insert_entry(
    entries: Seq<(Seq<char>, ValueModel)>,
    key: Seq<char>,
    value: ValueModel,
) -> Seq<(Seq<char>, ValueModel)>
    decreases entries.len(),
{
    if entries.len() == 0 {
        seq![(key, value)]
    } else if entries[0].0 == key {
        entries.update(0, (key, value))
    } else {
        seq![entries[0]] + insert_entry(entries.drop_first(), key, value)
    }
}

pub proof fn lemma_lookup_index(entries: Seq<(Seq<char>, ValueModel)>, key: Seq<char>, i: int)
    requires
        distinct_keys(entries),
        0 <= i < entries.len(),
        entries[i].0 == key,
    ensures
        lookup(entries, key) == Some(entries[i].1),
{
    assert forall|j: int| 0 <= j < i implies entries[j].0 != key by {}
    lemma_lookup_first(entries, key, i);
}

pub proof fn lemma_lookup_absent(entries: Seq<(Seq<char>, ValueModel)>, key: Seq<char>)
    requires
        !has_key(entries, key),
    ensures
        lookup(entries, key) == None::<ValueModel>,
    decreases entries.len(),
{
    if entries.len() > 0 {
        assert(entries[0].0 != key);
        assert forall|i: int| 0 <= i < entries.drop_first().len() implies entries.drop_first()[i].0
            != key by {
            assert(entries.drop_first()[i] == entries[i + 1]);
        }
        lemma_lookup_absent(entries.drop_first(), key);
    }
}

pub proof fn lemma_lookup_some(entries: Seq<(Seq<char>, ValueModel)>, key: Seq<char>)
    requires
        has_key(entries, key),
    ensures
        lookup(entries, key) is Some,
    decreases entries.len(),
{
    if entries[0].0 != key {
        let i = choose|i: int| 0 <= i < entries.len() && entries[i].0 == key;
        assert(entries.drop_first()[i - 1].0 == key);
        lemma_lookup_some(entries.drop_first(), key);
    }
}

pub proof fn lemma_lookup_first(entries: Seq<(Seq<char>, ValueModel)>, key: Seq<char>, i: int)
    requires
        0 <= i < entries.len(),
        entries[i].0 == key,
        forall|j: int| 0 <= j < i ==> entries[j].0 != key,
    ensures
        lookup(entries, key) == Some(entries[i].1),
    decreases entries.len(),
{
    if i > 0 {
        assert forall|j: int| 0 <= j < i - 1 implies entries.drop_first()[j].0 != key by {
            assert(entries.drop_first()[j] == entries[j + 1]);
        }
        lemma_lookup_first(entries.drop_first(), key, i - 1);
    }
}

/// Inserting at the first entry with the key is an update of that entry.
pub proof fn lemma_insert_at(
    entries: Seq<(Seq<char>, ValueModel)>,
    key: Seq<char>,
    value: ValueModel,
    i: int,
)
    requires
        0 <= i < entries.len(),
        entries[i].0 == key,
        forall|j: int| 0 <= j < i ==> entries[j].0 != key,
    ensures
        insert_entry(entries, key, value) == entries.update(i, (key, value)),
    decreases entries.len(),
{
    if i > 0 {
        let rest = entries.drop_first();
        assert forall|j: int| 0 <= j < i - 1 implies rest[j].0 != key by {
            assert(rest[j] == entries[j + 1]);
        }
        lemma_insert_at(rest, key, value, i - 1);
        assert(seq![entries[0]] + rest.update(i - 1, (key, value)) =~= entries.update(
            i,
            (key, value),
        ));
    }
}

/// Inserting a key that does not occur appends an entry.
pub proof fn lemma_insert_new(
    entries: Seq<(Seq<char>, ValueModel)>,
    key: Seq<char>,
    value: ValueModel,
)
    requires
        !has_key(entries, key),
    ensures
        insert_entry(entries, key, value) == entries.push((key, value)),
    decreases entries.len(),
{
    if entries.len() > 0 {
        let rest = entries.drop_first();
        assert forall|j: int| 0 <= j < rest.len() implies rest[j].0 != key by {
            assert(rest[j] == entries[j + 1]);
        }
        lemma_insert_new(rest, key, value);
        assert(seq![entries[0]] + rest.push((key, value)) =~= entries.push((key, value)));
    }
}

/// A deep copy of a value.
pub fn copy_value(v: &Value) -> (r: Value)
    ensures
        r@ == v@,
    decreases v,
{
    match v {
        Value::String(s) => Value::String(copy_string(s)),
        Value::Int(n) => Value::Int(*n),
        Value::Bool(b) => Value::Bool(*b),
        Value::List(items) => {
            let mut out: Vec<Value> = Vec::new();
            let mut i: usize = 0;
            while i < items.len()
                invariant
                    i <= items.len(),
                    out.len() == i,
                    forall|j: int| 0 <= j < i ==> (#[trigger] out@[j])@ == items@[j]@,
                    decreases_to!(*v => *items),
                decreases items.len() - i,
            {
                proof {
                    assert(decreases_to!(*items => items@[i as int]));
                }
                let c = copy_value(&items[i]);
                out.push(c);
                i += 1;
            }
            proof {
                lemma_list_view(out);
                lemma_list_view(*items);
                assert(values_view(out@) =~= values_view(items@));
            }
            Value::List(out)
        },
        Value::Dict(m) => {
            let c = copy_map_inner(m);
            proof {
                lemma_dict_view(c);
                lemma_dict_view(*m);
            }
            Value::Dict(c)
        },
        Value::ResourceRef(b, a) => Value::ResourceRef(copy_string(b), copy_string(a)),
        Value::TypedResourceRef { binding_name, attribute_name, resource_type } => {
            let rt = match resource_type {
                Some(p) => Some(copy_path(p)),
                None => None,
            };
            Value::TypedResourceRef {
                binding_name: copy_string(binding_name),
                attribute_name: copy_string(attribute_name),
                resource_type: rt,
            }
        },
        Value::UnresolvedIdent(a, b) => {
            let m = match b {
                Some(s) => Some(copy_string(s)),
                None => None,
            };
            Value::UnresolvedIdent(copy_string(a), m)
        },
    }
}

fn copy_map_inner(m: &ValueMap) -> (r: ValueMap)
    ensures
        r@ == m@,
    decreases m, 0nat,
{
    let mut out: Vec<(String, Value)> = Vec::new();
    let mut i: usize = 0;
    while i < m.entries.len()
        invariant
            i <= m.entries.len(),
            out.len() == i,
            forall|j: int|
                0 <= j < i ==> (#[trigger] out@[j]).0@ == m.entries@[j].0@ && out@[j].1@
                    == m.entries@[j].1@,
        decreases m.entries.len() - i,
    {
        proof {
            assert(decreases_to!(m.entries => m.entries@[i as int]));
        }
        let k = copy_string(&m.entries[i].0);
        let v = copy_value(&m.entries[i].1);
        out.push((k, v));
        i += 1;
    }
    let r = ValueMap { entries: out };
    proof {
        assert(r@ =~= m@);
    }
    r
}

/// A copy of a map.
pub fn copy_map(m: &ValueMap) -> (r: ValueMap)
    ensures
        r@ == m@,
{
    copy_map_inner(m)
}

impl Clone for Value {
    fn clone(&self) -> (r: Self)
        ensures
            r@ == self@,
    {
        copy_value(self)
    }
}

impl Clone for ValueMap {
    fn clone(&self) -> (r: Self)
        ensures
            r@ == self@,
    {
        copy_map_inner(self)
    }
}

impl ValueMap {
    /// An empty map.
    pub fn new() -> (r: Self)
        ensures
            r@ == Seq::<(Seq<char>, ValueModel)>::empty(),
    {
        let r = ValueMap { entries: Vec::new() };
        proof {
            assert(r@ =~= Seq::<(Seq<char>, ValueModel)>::empty());
        }
        r
    }

    /// Number of entries.
    pub fn len(&self) -> (r: usize)
        ensures
            r == self@.len(),
    {
        self.entries.len()
    }

    pub fn is_empty(&self) -> (r: bool)
        ensures
            r == (self@.len() == 0),
    {
        self.entries.len() == 0
    }

    /// Index of the first entry with the given key.
    pub fn find(&self, key: &str) -> (r: Option<usize>)
        ensures
            match r {
                Some(i) => i < self@.len() && self@[i as int].0 == key@ && forall|j: int|
                    0 <= j < i ==> self@[j].0 != key@,
                None => !has_key(self@, key@),
            },
    {
        let mut i: usize = 0;
        while i < self.entries.len()
            invariant
                i <= self.entries.len(),
                forall|j: int| 0 <= j < i ==> self@[j].0 != key@,
            decreases self.entries.len() - i,
        {
            if str_eq(self.entries[i].0.as_str(), key) {
                return Some(i);
            }
            i += 1;
        }
        None
    }

    /// The value stored under `key`, if any.
    pub fn get(&self, key: &str) -> (r: Option<&Value>)
        ensures
            match r {
                Some(v) => lookup(self@, key@) == Some(v@),
                None => lookup(self@, key@) == None::<ValueModel> && !has_key(self@, key@),
            },
    {
        match self.find(key) {
            Some(i) => {
                proof {
                    lemma_lookup_first(self@, key@, i as int);
                }
                Some(&self.entries[i].1)
            },
            None => {
                proof {
                    lemma_lookup_absent(self@, key@);
                }
                None
            },
        }
    }

    pub fn contains_key(&self, key: &str) -> (r: bool)
        ensures
            r == has_key(self@, key@),
    {
        self.find(key).is_some()
    }

    /// Stores `value` under `key`, replacing the value of an existing entry.
    pub fn insert(&mut self, key: String, value: Value)
        ensures
            final(self)@ == insert_entry(old(self)@, key@, value@),
    {
        match self.find(key.as_str()) {
            Some(i) => {
                let ghost old_view = self@;
                proof {
                    lemma_insert_at(old_view, key@, value@, i as int);
                }
                self.entries.set(i, (key, value));
                proof {
                    assert(self@ =~= old_view.update(i as int, (key@, value@)));
                }
            },
            None => {
                let ghost old_view = self@;
                proof {
                    lemma_insert_new(old_view, key@, value@);
                }
                self.entries.push((key, value));
                proof {
                    assert(self@ =~= old_view.push((key@, value@)));
                }
            },
        }
    }

    /// The keys, in entry order.
    pub fn keys(&self) -> (r: Vec<String>)
        ensures
            r.len() == self@.len(),
            forall|i: int| 0 <= i < r.len() ==> (#[trigger] r@[i])@ == self@[i].0,
    {
        let mut out: Vec<String> = Vec::new();
        let mut i: usize = 0;
        while i < self.entries.len()
            invariant
                i <= self.entries.len(),
                out.len() == i,
                forall|j: int| 0 <= j < i ==> (#[trigger] out@[j])@ == self@[j].0,
            decreases self.entries.len() - i,
        {
            out.push(copy_string(&self.entries[i].0));
            i += 1;
        }
        out
    }

    /// A map holding the given pairs; a later pair replaces an earlier one
    /// with the same key.
    pub fn from_pairs(pairs: Vec<(String, Value)>) -> (r: Self)
        ensures
            r@ == insert_all(Seq::<(Seq<char>, ValueModel)>::empty(), pairs_view(pairs@)),
    {
        let mut m = ValueMap::new();
        let ghost all = pairs_view(pairs@);
        let mut k: usize = 0;
        while k < pairs.len()
            invariant
                k <= pairs.len(),
                all == pairs_view(pairs@),
                m@ == insert_all(Seq::<(Seq<char>, ValueModel)>::empty(), all.take(k as int)),
            decreases pairs.len() - k,
        {
            let key = copy_string(&pairs[k].0);
            let value = copy_value(&pairs[k].1);
            m.insert(key, value);
            proof {
                assert(all.take(k + 1).drop_last() =~= all.take(k as int));
                assert(all.take(k + 1).last() == all[k as int]);
            }
            k += 1;
        }
        proof {
            assert(all.take(pairs.len() as int) =~= all);
        }
        m
    }
}

/// The models of key/value pairs.
pub open spec fn pairs_view(p: Seq<(String, Value)>) -> Seq<(Seq<char>, ValueModel)> {
    Seq::new(p.len(), |i: int| (p[i].0@, p[i].1@))
}

/// The entry list after inserting each pair in turn.
pub open spec fn insert_all(
    entries: Seq<(Seq<char>, ValueModel)>,
    pairs: Seq<(Seq<char>, ValueModel)>,
) -> Seq<(Seq<char>, ValueModel)>
    decreases pairs.len(),
{
    if pairs.len() == 0 {
        entries
    } else {
        insert_entry(insert_all(entries, pairs.drop_last()), pairs.last().0, pairs.last().1)
    }
}

/// Desired state declared in DSL
#[derive(Debug, Clone, PartialEq)]
pub struct Resource {
    pub id: ResourceId,
    pub attributes: ValueMap,
}

impl Resource {
    pub fn new(resource_type: &str, name: &str) -> (r: Self)
        ensures
            r.id@ == (resource_type@, name@),
            r.attributes@ == Seq::<(Seq<char>, ValueModel)>::empty(),
    {
        Resource { id: ResourceId::new(resource_type, name), attributes: ValueMap::new() }
    }

    /// The resource with `value` stored under `key`.
    pub fn with_attribute(self, key: &str, value: Value) -> (r: Self)
        ensures
            r.id == self.id,
            r.attributes@ == insert_entry(self.attributes@, key@, value@),
    {
        let mut r = self;
        r.attributes.insert(str_to_string(key), value);
        r
    }
}

/// A copy of a resource.
pub fn copy_resource(r: &Resource) -> (c: Resource)
    ensures
        c.id@ == r.id@,
        c.attributes@ == r.attributes@,
{
    Resource { id: copy_id(&r.id), attributes: copy_map(&r.attributes) }
}

/// Current state fetched from actual infrastructure
#[derive(Debug, Clone, PartialEq)]
pub struct State {
    pub id: ResourceId,
    pub attributes: ValueMap,
    /// Whether this state exists
    pub exists: bool,
}

impl State {
    pub fn not_found(id: ResourceId) -> (r: Self)
        ensures
            r.id == id,
            r.attributes@ == Seq::<(Seq<char>, ValueModel)>::empty(),
            !r.exists,
    {
        State { id, attributes: ValueMap::new(), exists: false }
    }

    pub fn existing(id: ResourceId, attributes: ValueMap) -> (r: Self)
        ensures
            r.id == id,
            r.attributes == attributes,
            r.exists,
    {
        State { id, attributes, exists: true }
    }
}

} // verus!
