//! Module Resolver - Resolve module imports and instantiations
//!
//! Resolving a module path, noticing a module that imports itself while it
//! loads, caching loaded modules, checking the inputs of a module call and
//! expanding a call into resources. Reading files is left to the caller: it
//! reads what `begin_load` asks for and hands the result to `finish_load`.

use vstd::prelude::*;

use crate::parser::grammar::ErrModel;
use crate::parser::{
    error_text, opt_value, res_view, InputParameter, ModuleCall, ParseError, ParsedFile, ParsedModel,
};
use crate::resource::{
    copy_map, copy_value, has_key, insert_all, insert_entry, lemma_dict_view, lemma_list_view,
    lookup, Resource, ResourceId, Value, ValueMap, ValueModel,
};
use crate::text::{
    chars_of, copy_string, push_str, str_eq, str_to_string, string_of,
};

verus! {

/// Module resolution error
#[derive(Debug)]
pub enum ModuleError {
    NotFound(String),
    CircularImport(String),
    MissingInput { module: String, input: String },
    InvalidInputType { module: String, input: String, expected: String },
    /// A file could not be read (the message of the I/O error).
    Io(String),
    Parse(ParseError),
    UnknownModule(String),
}

/// The mathematical content of a module error.
pub enum ModuleErrorModel {
    NotFound(Seq<char>),
    CircularImport(Seq<char>),
    MissingInput { module: Seq<char>, input: Seq<char> },
    InvalidInputType { module: Seq<char>, input: Seq<char>, expected: Seq<char> },
    Io(Seq<char>),
    Parse(ErrModel),
    UnknownModule(Seq<char>),
}

impl View for ModuleError {
    type V = ModuleErrorModel;

    open spec fn view(&self) -> ModuleErrorModel {
        match self {
            ModuleError::NotFound(s) => ModuleErrorModel::NotFound(s@),
            ModuleError::CircularImport(s) => ModuleErrorModel::CircularImport(s@),
            ModuleError::MissingInput { module, input } => ModuleErrorModel::MissingInput {
                module: module@,
                input: input@,
            },
            ModuleError::InvalidInputType { module, input, expected } => ModuleErrorModel::InvalidInputType {
                module: module@,
                input: input@,
                expected: expected@,
            },
            ModuleError::Io(s) => ModuleErrorModel::Io(s@),
            ModuleError::Parse(e) => ModuleErrorModel::Parse(e@),
            ModuleError::UnknownModule(s) => ModuleErrorModel::UnknownModule(s@),
        }
    }
}

/// The message of a module error.
pub open spec fn module_error_text(e: ModuleErrorModel) -> Seq<char> {
    match e {
        ModuleErrorModel::NotFound(s) => "Module not found: "@ + s,
        ModuleErrorModel::CircularImport(s) => "Circular import detected: "@ + s,
        ModuleErrorModel::MissingInput { module, input } => "Missing required input '"@ + input
            + "' for module '"@ + module + "'"@,
        ModuleErrorModel::InvalidInputType { module, input, expected } => "Invalid input type for '"@
            + input + "' in module '"@ + module + "': expected "@ + expected,
        ModuleErrorModel::Io(s) => "IO error: "@ + s,
        ModuleErrorModel::Parse(p) => "Parse error: "@ + error_text(p),
        ModuleErrorModel::UnknownModule(s) => "Unknown module: "@ + s,
    }
}

impl ModuleError {
    /// The error's message (what `Display` prints).
    pub fn message(&self) -> (r: String)
        ensures
            r@ == module_error_text(self@),
    {
        match self {
            ModuleError::NotFound(s) => {
                let mut m = str_to_string("Module not found: ");
                push_str(&mut m, s.as_str());
                m
            },
            ModuleError::CircularImport(s) => {
                let mut m = str_to_string("Circular import detected: ");
                push_str(&mut m, s.as_str());
                m
            },
            ModuleError::MissingInput { module, input } => {
                let mut m = str_to_string("Missing required input '");
                push_str(&mut m, input.as_str());
                push_str(&mut m, "' for module '");
                push_str(&mut m, module.as_str());
                push_str(&mut m, "'");
                m
            },
            ModuleError::InvalidInputType { module, input, expected } => {
                let mut m = str_to_string("Invalid input type for '");
                push_str(&mut m, input.as_str());
                push_str(&mut m, "' in module '");
                push_str(&mut m, module.as_str());
                push_str(&mut m, "': expected ");
                push_str(&mut m, expected.as_str());
                m
            },
            ModuleError::Io(s) => {
                let mut m = str_to_string("IO error: ");
                push_str(&mut m, s.as_str());
                m
            },
            ModuleError::Parse(e) => {
                let mut m = str_to_string("Parse error: ");
                let t = e.message();
                push_str(&mut m, t.as_str());
                m
            },
            ModuleError::UnknownModule(s) => {
                let mut m = str_to_string("Unknown module: ");
                push_str(&mut m, s.as_str());
                m
            },
        }
    }
}

// ---------------------------------------------------------------------------
// Substituting inputs
// ---------------------------------------------------------------------------

/// A value with its references to `input.name` replaced by the input's value
/// (a reference to an input that has no value stays as it is).
pub open spec fn subst(v: ValueModel, inputs: Seq<(Seq<char>, ValueModel)>) -> ValueModel
    decreases v,
{
    match v {
        ValueModel::ResourceRef(b, a) => if b == "input"@ {
            match lookup(inputs, a) {
                Some(x) => x,
                None => v,
            }
        } else {
            v
        },
        ValueModel::TypedResourceRef { binding_name, attribute_name, .. } => if binding_name
            == "input"@ {
            match lookup(inputs, attribute_name) {
                Some(x) => x,
                None => v,
            }
        } else {
            v
        },
        ValueModel::List(items) => ValueModel::List(
            Seq::new(
                items.len(),
                |i: int|
                    if 0 <= i < items.len() {
                        subst(items[i], inputs)
                    } else {
                        ValueModel::Int(0)
                    },
            ),
        ),
        ValueModel::Dict(es) => ValueModel::Dict(
            Seq::new(
                es.len(),
                |i: int|
                    if 0 <= i < es.len() {
                        (es[i].0, subst(es[i].1, inputs))
                    } else {
                        (Seq::<char>::empty(), ValueModel::Int(0))
                    },
            ),
        ),
        _ => v,
    }
}

/// Substitute input references with actual values
pub fn substitute_inputs(value: &Value, inputs: &ValueMap) -> (r: Value)
    ensures
        r@ == subst(value@, inputs@),
    decreases value,
{
    match value {
        Value::ResourceRef(binding, attr) => {
            assert(value@ == ValueModel::ResourceRef(binding@, attr@));
            if str_eq(binding.as_str(), "input") {
                match inputs.get(attr.as_str()) {
                    Some(x) => {
                        let r = copy_value(x);
                        assert(subst(value@, inputs@) === x@);
                        assert(r@ === x@);
                        assert(r@ === subst(value@, inputs@));
                        assert(r@ == subst(value@, inputs@));
                        r
                    },
                    None => {
                        assert(subst(value@, inputs@) == value@);
                        copy_value(value)
                    },
                }
            } else {
                assert(binding@ != "input"@);
                assert(subst(value@, inputs@) == value@);
                copy_value(value)
            }
        },
        Value::TypedResourceRef { binding_name, attribute_name, .. } => {
            if str_eq(binding_name.as_str(), "input") {
                match inputs.get(attribute_name.as_str()) {
                    Some(x) => {
                        let r = copy_value(x);
                        assert(subst(value@, inputs@) === x@);
                        assert(r@ === x@);
                        assert(r@ == subst(value@, inputs@));
                        r
                    },
                    None => copy_value(value),
                }
            } else {
                copy_value(value)
            }
        },
        Value::List(items) => {
            let mut out: Vec<Value> = Vec::new();
            let mut i: usize = 0;
            while i < items.len()
                invariant
                    i <= items.len(),
                    out.len() == i,
                    forall|j: int| 0 <= j < i ==> (#[trigger] out@[j])@ == subst(items@[j]@, inputs@),
                    decreases_to!(*value => *items),
                decreases items.len() - i,
            {
                proof {
                    assert(decreases_to!(*items => items@[i as int]));
                }
                let c = substitute_inputs(&items[i], inputs);
                out.push(c);
                i += 1;
            }
            proof {
                lemma_list_view(out);
                lemma_list_view(*items);
                let iv = crate::resource::values_view(items@);
                assert(value@ == ValueModel::List(iv));
                let e = subst(value@, inputs@);
                if let ValueModel::List(s) = e {
                    assert(s.len() == out.len());
                    assert forall|j: int| 0 <= j < s.len() implies s[j] == crate::resource::values_view(
                        out@,
                    )[j] by {}
                    assert(s =~= crate::resource::values_view(out@));
                }
            }
            Value::List(out)
        },
        Value::Dict(m) => {
            let mut out: Vec<(String, Value)> = Vec::new();
            let mut i: usize = 0;
            while i < m.entries.len()
                invariant
                    i <= m.entries.len(),
                    out.len() == i,
                    forall|j: int|
                        0 <= j < i ==> (#[trigger] out@[j]).0@ == m.entries@[j].0@ && out@[j].1@
                            == subst(m.entries@[j].1@, inputs@),
                    decreases_to!(*value => *m),
                decreases m.entries.len() - i,
            {
                proof {
                    assert(decreases_to!(*m => m.entries));
                    assert(decreases_to!(m.entries => m.entries@[i as int]));
                    assert(decreases_to!(m.entries@[i as int] => m.entries@[i as int].1));
                }
                let k = copy_string(&m.entries[i].0);
                let c = substitute_inputs(&m.entries[i].1, inputs);
                out.push((k, c));
                i += 1;
            }
            let r = ValueMap { entries: out };
            proof {
                lemma_dict_view(r);
                lemma_dict_view(*m);
                assert(value@ == ValueModel::Dict(m@));
                let e = subst(value@, inputs@);
                if let ValueModel::Dict(s) = e {
                    assert(s.len() == r@.len());
                    assert forall|j: int| 0 <= j < s.len() implies s[j] == r@[j] by {}
                    assert(s =~= r@);
                }
            }
            Value::Dict(r)
        },
        _ => copy_value(value),
    }
}

/// Whether a value holds, at any depth, a reference to the module input `k`.
pub open spec fn mentions_input(v: ValueModel, k: Seq<char>) -> bool
    decreases v,
{
    match v {
        ValueModel::ResourceRef(b, a) => b == "input"@ && a == k,
        ValueModel::TypedResourceRef { binding_name, attribute_name, .. } => binding_name == "input"@
            && attribute_name == k,
        ValueModel::List(xs) => exists|i: int| 0 <= i < xs.len() && mentions_input(#[trigger] xs[i], k),
        ValueModel::Dict(es) => exists|i: int|
            0 <= i < es.len() && mentions_input(#[trigger] es[i].1, k),
        _ => false,
    }
}

proof fn lemma_lookup_found(entries: Seq<(Seq<char>, ValueModel)>, key: Seq<char>)
    requires
        lookup(entries, key) is Some,
    ensures
        exists|j: int| 0 <= j < entries.len() && #[trigger] entries[j] == (key, lookup(entries, key)->Some_0),
    decreases entries.len(),
{
    if entries[0].0 == key {
        assert(entries[0] == (key, lookup(entries, key)->Some_0));
    } else {
        lemma_lookup_found(entries.drop_first(), key);
        let j = choose|j: int|
            0 <= j < entries.drop_first().len() && #[trigger] entries.drop_first()[j] == (
                key,
                lookup(entries.drop_first(), key)->Some_0,
            );
        assert(entries[j + 1] == entries.drop_first()[j]);
    }
}

/// After substitution no reference to a given input is left, at any depth
/// (in list items and map values too), provided the given values do not
/// themselves refer to inputs.
pub proof fn lemma_subst_replaces_inputs(v: ValueModel, inputs: Seq<(Seq<char>, ValueModel)>, k: Seq<char>)
    requires
        has_key(inputs, k),
        forall|j: int, k2: Seq<char>|
            0 <= j < inputs.len() && has_key(inputs, k2) ==> !#[trigger] mentions_input(inputs[j].1, k2),
    ensures
        !mentions_input(subst(v, inputs), k),
    decreases v,
{
    match v {
        ValueModel::ResourceRef(b, a) => {
            if b == "input"@ {
                if lookup(inputs, a) is Some {
                    lemma_lookup_found(inputs, a);
                    let j = choose|j: int|
                        0 <= j < inputs.len() && #[trigger] inputs[j] == (a, lookup(inputs, a)->Some_0);
                    assert(!mentions_input(inputs[j].1, k));
                } else if a == k {
                    crate::resource::lemma_lookup_some(inputs, a);
                }
            }
        },
        ValueModel::TypedResourceRef { binding_name, attribute_name, .. } => {
            if binding_name == "input"@ {
                if lookup(inputs, attribute_name) is Some {
                    lemma_lookup_found(inputs, attribute_name);
                    let j = choose|j: int|
                        0 <= j < inputs.len() && #[trigger] inputs[j] == (
                            attribute_name,
                            lookup(inputs, attribute_name)->Some_0,
                        );
                    assert(!mentions_input(inputs[j].1, k));
                } else if attribute_name == k {
                    crate::resource::lemma_lookup_some(inputs, attribute_name);
                }
            }
        },
        ValueModel::List(items) => {
            let r = subst(v, inputs);
            if let ValueModel::List(out) = r {
                assert forall|i: int| 0 <= i < out.len() implies !mentions_input(#[trigger] out[i], k) by {
                    lemma_subst_replaces_inputs(items[i], inputs, k);
                }
            }
        },
        ValueModel::Dict(es) => {
            let r = subst(v, inputs);
            if let ValueModel::Dict(out) = r {
                assert forall|i: int| 0 <= i < out.len() implies !mentions_input(#[trigger] out[i].1, k) by {
                    lemma_subst_replaces_inputs(es[i].1, inputs, k);
                }
            }
        },
        _ => {},
    }
}

/// A reference to a given input becomes that input's value.
pub proof fn lemma_subst_input_ref(inputs: Seq<(Seq<char>, ValueModel)>, j: int)
    requires
        crate::resource::distinct_keys(inputs),
        0 <= j < inputs.len(),
    ensures
        subst(ValueModel::ResourceRef("input"@, inputs[j].0), inputs) == inputs[j].1,
{
    crate::resource::lemma_lookup_index(inputs, inputs[j].0, j);
}

/// A value that refers to none of the given inputs is left as it is.
pub proof fn lemma_subst_plain(v: ValueModel, inputs: Seq<(Seq<char>, ValueModel)>)
    requires
        forall|k: Seq<char>| has_key(inputs, k) ==> !#[trigger] mentions_input(v, k),
    ensures
        subst(v, inputs) == v,
    decreases v,
{
    match v {
        ValueModel::ResourceRef(b, a) => {
            if b == "input"@ && has_key(inputs, a) {
                assert(mentions_input(v, a));
            }
            if b == "input"@ && !has_key(inputs, a) {
                crate::resource::lemma_lookup_absent(inputs, a);
            }
        },
        ValueModel::TypedResourceRef { binding_name, attribute_name, .. } => {
            if binding_name == "input"@ && has_key(inputs, attribute_name) {
                assert(mentions_input(v, attribute_name));
            }
            if binding_name == "input"@ && !has_key(inputs, attribute_name) {
                crate::resource::lemma_lookup_absent(inputs, attribute_name);
            }
        },
        ValueModel::List(items) => {
            if let ValueModel::List(out) = subst(v, inputs) {
                assert forall|i: int| 0 <= i < items.len() implies out[i] == items[i] by {
                    assert forall|k: Seq<char>| has_key(inputs, k) implies !#[trigger] mentions_input(items[i], k) by {
                        assert(!mentions_input(v, k));
                    }
                    lemma_subst_plain(items[i], inputs);
                }
                assert(out =~= items);
            }
        },
        ValueModel::Dict(es) => {
            if let ValueModel::Dict(out) = subst(v, inputs) {
                assert forall|i: int| 0 <= i < es.len() implies out[i] == es[i] by {
                    assert forall|k: Seq<char>| has_key(inputs, k) implies !#[trigger] mentions_input(es[i].1, k) by {
                        assert(!mentions_input(v, k));
                    }
                    lemma_subst_plain(es[i].1, inputs);
                }
                assert(out =~= es);
            }
        },
        _ => {},
    }
}

/// Substitution keeps a map's keys in order and substitutes in each value.
pub proof fn lemma_subst_dict(es: Seq<(Seq<char>, ValueModel)>, inputs: Seq<(Seq<char>, ValueModel)>)
    ensures
        subst(ValueModel::Dict(es), inputs) is Dict,
        subst(ValueModel::Dict(es), inputs)->Dict_0.len() == es.len(),
        forall|i: int|
            0 <= i < es.len() ==> (#[trigger] subst(ValueModel::Dict(es), inputs)->Dict_0[i]) == (
                es[i].0,
                subst(es[i].1, inputs),
            ),
{
}

// ---------------------------------------------------------------------------
// The resolver
// ---------------------------------------------------------------------------

/// Context for module resolution
pub struct ModuleResolver {
    /// Base directory for resolving relative imports
    pub base_dir: String,
    /// The modules loaded so far
    pub modules: Vec<ParsedFile>,
    /// Loaded modules by full path (an index into `modules`)
    pub module_cache: Vec<(String, usize)>,
    /// Full paths of the modules being loaded (for cycle detection)
    pub resolving: Vec<String>,
    /// Imported modules by alias (an index into `modules`)
    pub imported_modules: Vec<(String, usize)>,
}

/// The index stored under a key (the first entry with it).
pub open spec fn index_of(entries: Seq<(String, usize)>, key: Seq<char>) -> Option<usize>
    decreases entries.len(),
{
    if entries.len() == 0 {
        None
    } else if entries[0].0@ == key {
        Some(entries[0].1)
    } else {
        index_of(entries.drop_first(), key)
    }
}

/// The entries after storing an index under a key: it replaces the first
/// entry with the key, or is appended.
pub open spec fn put_index(entries: Seq<(Seq<char>, usize)>, key: Seq<char>, i: usize) -> Seq<
    (Seq<char>, usize),
>
    decreases entries.len(),
{
    if entries.len() == 0 {
        seq![(key, i)]
    } else if entries[0].0 == key {
        entries.update(0, (key, i))
    } else {
        seq![entries[0]] + put_index(entries.drop_first(), key, i)
    }
}

/// The keys and indices of a table, as text.
pub open spec fn table_model(entries: Seq<(String, usize)>) -> Seq<(Seq<char>, usize)> {
    Seq::new(entries.len(), |k: int| (entries[k].0@, entries[k].1))
}

/// The texts of a list of strings.
pub open spec fn texts(v: Seq<String>) -> Seq<Seq<char>> {
    Seq::new(v.len(), |k: int| v[k]@)
}

impl ModuleResolver {
    /// Every index of the tables points at a loaded module.
    pub open spec fn wf(&self) -> bool {
        &&& forall|k: int| 0 <= k < self.module_cache.len() ==> (#[trigger] self.module_cache@[k]).1
            < self.modules.len()
        &&& forall|k: int| 0 <= k < self.imported_modules.len() ==> (
        #[trigger] self.imported_modules@[k]).1 < self.modules.len()
    }

    /// The module imported under an alias.
    pub open spec fn imported(&self, alias: Seq<char>) -> Option<ParsedFile> {
        match index_of(self.imported_modules@, alias) {
            Some(i) => if i < self.modules.len() {
                Some(self.modules@[i as int])
            } else {
                None
            },
            None => None,
        }
    }
}

proof fn lemma_index_of_bound(entries: Seq<(String, usize)>, key: Seq<char>, n: usize)
    requires
        forall|k: int| 0 <= k < entries.len() ==> (#[trigger] entries[k]).1 < n,
    ensures
        index_of(entries, key) matches Some(i) ==> i < n,
    decreases entries.len(),
{
    if entries.len() > 0 {
        let rest = entries.drop_first();
        assert forall|k: int| 0 <= k < rest.len() implies (#[trigger] rest[k]).1 < n by {
            assert(rest[k] == entries[k + 1]);
        }
        lemma_index_of_bound(rest, key, n);
    }
}

/// The index stored under a key (exec).
fn find_index(entries: &Vec<(String, usize)>, key: &str) -> (r: Option<usize>)
    ensures
        r == index_of(entries@, key@),
{
    let mut k: usize = 0;
    proof {
        assert(entries@.skip(0) =~= entries@);
    }
    while k < entries.len()
        invariant
            k <= entries.len(),
            index_of(entries@, key@) == index_of(entries@.skip(k as int), key@),
        decreases entries.len() - k,
    {
        proof {
            assert(entries@.skip(k as int)[0] == entries@[k as int]);
            assert(entries@.skip(k as int).drop_first() =~= entries@.skip(k + 1));
        }
        if str_eq(entries[k].0.as_str(), key) {
            return Some(entries[k].1);
        }
        k += 1;
    }
    None
}

proof fn lemma_put_index_first(entries: Seq<(Seq<char>, usize)>, key: Seq<char>, i: usize, k: int)
    requires
        0 <= k < entries.len(),
        entries[k].0 == key,
        forall|j: int| 0 <= j < k ==> entries[j].0 != key,
    ensures
        put_index(entries, key, i) == entries.update(k, (key, i)),
    decreases k,
{
    if k > 0 {
        let rest = entries.drop_first();
        assert forall|j: int| 0 <= j < k - 1 implies rest[j].0 != key by {
            assert(rest[j] == entries[j + 1]);
        }
        lemma_put_index_first(rest, key, i, k - 1);
        assert(seq![entries[0]] + rest.update(k - 1, (key, i)) =~= entries.update(k, (key, i)));
    }
}

proof fn lemma_put_index_new(entries: Seq<(Seq<char>, usize)>, key: Seq<char>, i: usize)
    requires
        forall|j: int| 0 <= j < entries.len() ==> entries[j].0 != key,
    ensures
        put_index(entries, key, i) == entries.push((key, i)),
    decreases entries.len(),
{
    if entries.len() > 0 {
        let rest = entries.drop_first();
        assert forall|j: int| 0 <= j < rest.len() implies rest[j].0 != key by {
            assert(rest[j] == entries[j + 1]);
        }
        lemma_put_index_new(rest, key, i);
        assert(seq![entries[0]] + rest.push((key, i)) =~= entries.push((key, i)));
    }
}

/// Stores an index under a key (exec).
fn store_index(entries: &mut Vec<(String, usize)>, key: String, i: usize)
    ensures
        table_model(final(entries)@) == put_index(table_model(old(entries)@), key@, i),
{
    let ghost before = table_model(entries@);
    let mut k: usize = 0;
    while k < entries.len()
        invariant
            k <= entries.len(),
            entries@ == old(entries)@,
            before == table_model(entries@),
            forall|j: int| 0 <= j < k ==> (#[trigger] entries@[j]).0@ != key@,
        decreases entries.len() - k,
    {
        if str_eq(entries[k].0.as_str(), key.as_str()) {
            proof {
                lemma_put_index_first(before, key@, i, k as int);
            }
            entries.set(k, (key, i));
            assert(table_model(entries@) =~= before.update(k as int, (key@, i)));
            return;
        }
        k += 1;
    }
    proof {
        lemma_put_index_new(before, key@, i);
    }
    entries.push((key, i));
    assert(table_model(entries@) =~= before.push((key@, i)));
}

// ---------------------------------------------------------------------------
// Expanding module calls
// ---------------------------------------------------------------------------

/// The first input without a default that the call does not give.
pub open spec fn missing_input(inputs: Seq<InputParameter>, args: Seq<(Seq<char>, ValueModel)>) -> Option<
    Seq<char>,
>
    decreases inputs.len(),
{
    if inputs.len() == 0 {
        None
    } else if inputs[0].default is None && !has_key(args, inputs[0].name@) {
        Some(inputs[0].name@)
    } else {
        missing_input(inputs.drop_first(), args)
    }
}

/// The value an input takes in a call: the argument, else its default.
pub open spec fn input_value(p: InputParameter, args: Seq<(Seq<char>, ValueModel)>) -> ValueModel {
    match lookup(args, p.name@) {
        Some(v) => v,
        None => match opt_value(p.default) {
            Some(d) => d,
            None => ValueModel::Int(0),
        },
    }
}

/// The values of the inputs in a call, by name.
pub open spec fn input_values(inputs: Seq<InputParameter>, args: Seq<(Seq<char>, ValueModel)>) -> Seq<
    (Seq<char>, ValueModel),
>
    decreases inputs.len(),
{
    if inputs.len() == 0 {
        seq![]
    } else {
        insert_entry(
            input_values(inputs.drop_last(), args),
            inputs.last().name@,
            input_value(inputs.last(), args),
        )
    }
}

/// A module resource as one instance of a call creates it: renamed with the
/// instance prefix, tagged with the module and the instance, and its input
/// references replaced.
pub open spec fn expanded_resource(
    r: Resource,
    module_name: Seq<char>,
    prefix: Seq<char>,
    values: Seq<(Seq<char>, ValueModel)>,
) -> (
    (Seq<char>, Seq<char>),
    Seq<(Seq<char>, ValueModel)>,
) {
    let name = prefix + "_"@ + r.id.name@;
    let attrs = insert_entry(
        insert_entry(
            insert_entry(r.attributes@, "name"@, ValueModel::Str(name)),
            "_module"@,
            ValueModel::Str(module_name),
        ),
        "_module_instance"@,
        ValueModel::Str(prefix),
    );
    (
        (r.id.resource_type@, name),
        Seq::new(attrs.len(), |i: int| (attrs[i].0, subst(attrs[i].1, values))),
    )
}

/// The outcome of expanding a call of a module (`None` when no module is
/// imported under the call's name).
pub open spec fn expansion(
    module: Option<ParsedFile>,
    module_name: Seq<char>,
    args: Seq<(Seq<char>, ValueModel)>,
    prefix: Seq<char>,
) -> Result<Seq<((Seq<char>, Seq<char>), Seq<(Seq<char>, ValueModel)>)>, ModuleErrorModel> {
    match module {
        None => Err(ModuleErrorModel::UnknownModule(module_name)),
        Some(m) => match missing_input(m.inputs@, args) {
            Some(input) => Err(ModuleErrorModel::MissingInput { module: module_name, input }),
            None => {
                let values = input_values(m.inputs@, args);
                Ok(
                    Seq::new(
                        m.resources.len() as nat,
                        |i: int| expanded_resource(m.resources@[i], module_name, prefix, values),
                    ),
                )
            },
        },
    }
}

/// The error of an expansion: an unknown module first; otherwise the first
/// input, in declaration order, that has no default and no argument. An
/// expansion succeeds exactly when the module is known and every input has
/// a default or an argument.
pub proof fn lemma_expansion_error_order(
    module: Option<ParsedFile>,
    module_name: Seq<char>,
    args: Seq<(Seq<char>, ValueModel)>,
    prefix: Seq<char>,
)
    ensures
        module is None ==> expansion(module, module_name, args, prefix) == Err::<
            Seq<((Seq<char>, Seq<char>), Seq<(Seq<char>, ValueModel)>)>,
            ModuleErrorModel,
        >(ModuleErrorModel::UnknownModule(module_name)),
        module matches Some(m) ==> (expansion(module, module_name, args, prefix) matches Err(
            ModuleErrorModel::MissingInput { module: mn, input },
        ) ==> mn == module_name && exists|k: int|
            0 <= k < m.inputs@.len() && #[trigger] m.inputs@[k].name@ == input && m.inputs@[k].default is None
                && !has_key(args, input) && forall|j: int|
                0 <= j < k ==> (#[trigger] m.inputs@[j]).default is Some || has_key(args, m.inputs@[j].name@)),
        module matches Some(m) ==> (expansion(module, module_name, args, prefix) is Ok <==> forall|k: int|
            0 <= k < m.inputs@.len() ==> (#[trigger] m.inputs@[k]).default is Some || has_key(args, m.inputs@[k].name@)),
{
    if let Some(m) = module {
        lemma_missing_first(m.inputs@, args);
        if missing_input(m.inputs@, args) is None {
            assert forall|k: int| 0 <= k < m.inputs@.len() implies (#[trigger] m.inputs@[k]).default is Some
                || has_key(args, m.inputs@[k].name@) by {
                lemma_missing_none(m.inputs@, args, k);
            }
        }
    }
}

proof fn lemma_missing_first(inputs: Seq<InputParameter>, args: Seq<(Seq<char>, ValueModel)>)
    ensures
        missing_input(inputs, args) matches Some(input) ==> exists|k: int|
            0 <= k < inputs.len() && #[trigger] inputs[k].name@ == input && inputs[k].default is None && !has_key(
                args,
                input,
            ) && forall|j: int| 0 <= j < k ==> (#[trigger] inputs[j]).default is Some || has_key(args, inputs[j].name@),
        missing_input(inputs, args) is Some ==> exists|k: int|
            0 <= k < inputs.len() && (#[trigger] inputs[k]).default is None && !has_key(args, inputs[k].name@),
    decreases inputs.len(),
{
    if inputs.len() > 0 {
        if inputs[0].default is None && !has_key(args, inputs[0].name@) {
            assert(inputs[0].name@ == missing_input(inputs, args)->Some_0);
        } else {
            lemma_missing_first(inputs.drop_first(), args);
            if let Some(input) = missing_input(inputs, args) {
                let k = choose|k: int|
                    0 <= k < inputs.drop_first().len() && #[trigger] inputs.drop_first()[k].name@ == input
                        && inputs.drop_first()[k].default is None && !has_key(args, input) && forall|j: int|
                        0 <= j < k ==> (#[trigger] inputs.drop_first()[j]).default is Some || has_key(
                            args,
                            inputs.drop_first()[j].name@,
                        );
                assert(inputs[k + 1] == inputs.drop_first()[k]);
                assert forall|j: int| 0 <= j < k + 1 implies (#[trigger] inputs[j]).default is Some || has_key(
                    args,
                    inputs[j].name@,
                ) by {
                    if j > 0 {
                        assert(inputs[j] == inputs.drop_first()[j - 1]);
                    }
                }
                assert(inputs[k + 1].name@ == input);
            }
        }
    }
}

/// The models of a list of resources.
pub open spec fn resources_model(v: Seq<Resource>) -> Seq<((Seq<char>, Seq<char>), Seq<(Seq<char>, ValueModel)>)> {
    Seq::new(v.len(), |i: int| res_view(v[i]))
}

proof fn lemma_missing_none(inputs: Seq<InputParameter>, args: Seq<(Seq<char>, ValueModel)>, k: int)
    requires
        missing_input(inputs, args) is None,
        0 <= k < inputs.len(),
    ensures
        inputs[k].default is Some || has_key(args, inputs[k].name@),
    decreases k,
{
    if k > 0 {
        lemma_missing_none(inputs.drop_first(), args, k - 1);
        assert(inputs.drop_first()[k - 1] == inputs[k]);
    }
}

/// A text made of three texts.
fn join3(a: &str, b: &str, c: &str) -> (r: String)
    ensures
        r@ == a@ + b@ + c@,
{
    let mut s = str_to_string(a);
    push_str(&mut s, b);
    push_str(&mut s, c);
    s
}

impl ModuleResolver {
    /// Create a new resolver with the given base directory
    pub fn new(base_dir: &str) -> (r: Self)
        ensures
            r.base_dir@ == base_dir@,
            r.modules@.len() == 0,
            r.module_cache@.len() == 0,
            r.resolving@.len() == 0,
            r.imported_modules@.len() == 0,
            r.wf(),
            forall|a: Seq<char>| #[trigger] r.imported(a) is None,
    {
        let r = ModuleResolver {
            base_dir: str_to_string(base_dir),
            modules: Vec::new(),
            module_cache: Vec::new(),
            resolving: Vec::new(),
            imported_modules: Vec::new(),
        };
        assert forall|a: Seq<char>| #[trigger] r.imported(a) is None by {
            assert(index_of(r.imported_modules@, a) is None);
        }
        r
    }

    /// Get an imported module by alias
    pub fn get_module(&self, alias: &str) -> (r: Option<&ParsedFile>)
        requires
            self.wf(),
        ensures
            match self.imported(alias@) {
                Some(m) => r matches Some(x) && *x == m,
                None => r is None,
            },
    {
        proof {
            lemma_index_of_bound(self.imported_modules@, alias@, self.modules.len());
        }
        match find_index(&self.imported_modules, alias) {
            Some(i) => Some(&self.modules[i]),
            None => None,
        }
    }

    /// Records a loaded module under an alias (replacing a module recorded
    /// under it before).
    pub fn add_module(&mut self, alias: String, module: usize)
        requires
            old(self).wf(),
            module < old(self).modules.len(),
        ensures
            final(self).wf(),
            final(self).modules == old(self).modules,
            final(self).module_cache == old(self).module_cache,
            final(self).resolving == old(self).resolving,
            final(self).base_dir == old(self).base_dir,
            table_model(final(self).imported_modules@) == put_index(
                table_model(old(self).imported_modules@),
                alias@,
                module,
            ),
    {
        let ghost before = table_model(self.imported_modules@);
        store_index(&mut self.imported_modules, alias, module);
        proof {
            assert forall|k: int| 0 <= k < self.imported_modules.len() implies (
            #[trigger] self.imported_modules@[k]).1 < self.modules.len() by {
                lemma_put_index_bound(before, alias@, module, self.modules.len(), k);
                assert(table_model(self.imported_modules@)[k].1 == self.imported_modules@[k].1);
            }
        }
    }

    /// Expand a module call into resources
    pub fn expand_module_call(&self, call: &ModuleCall, instance_prefix: &str) -> (r: Result<
        Vec<Resource>,
        ModuleError,
    >)
        requires
            self.wf(),
        ensures
            match expansion(
                self.imported(call.module_name@),
                call.module_name@,
                call.arguments@,
                instance_prefix@,
            ) {
                Ok(rs) => r matches Ok(v) && resources_model(v@) == rs,
                Err(e) => r matches Err(x) && x@ == e,
            },
    {
        proof {
            lemma_index_of_bound(self.imported_modules@, call.module_name@, self.modules.len());
        }
        let idx = match find_index(&self.imported_modules, call.module_name.as_str()) {
            Some(i) => i,
            None => {
                return Err(ModuleError::UnknownModule(copy_string(&call.module_name)));
            },
        };
        let module = &self.modules[idx];
        assert(self.imported(call.module_name@) == Some(*module));
        let args = &call.arguments;
        let inputs = &module.inputs;
        let mut k: usize = 0;
        proof {
            assert(inputs@.skip(0) =~= inputs@);
        }
        while k < inputs.len()
            invariant
                k <= inputs.len(),
                self.imported(call.module_name@) == Some(*module),
                inputs@ == module.inputs@,
                args@ == call.arguments@,
                missing_input(inputs@, args@) == missing_input(inputs@.skip(k as int), args@),
            decreases inputs.len() - k,
        {
            proof {
                assert(inputs@.skip(k as int)[0] == inputs@[k as int]);
                assert(inputs@.skip(k as int).drop_first() =~= inputs@.skip(k + 1));
            }
            if inputs[k].default.is_none() && !args.contains_key(inputs[k].name.as_str()) {
                assert(missing_input(inputs@.skip(k as int), args@) == Some(inputs@[k as int].name@));
                return Err(
                    ModuleError::MissingInput {
                        module: copy_string(&call.module_name),
                        input: copy_string(&inputs[k].name),
                    },
                );
            }
            k += 1;
        }
        proof {
            assert(inputs@.skip(k as int).len() == 0);
        }
        let mut values = ValueMap::new();
        let mut j: usize = 0;
        proof {
            assert(inputs@.take(0) =~= Seq::<InputParameter>::empty());
        }
        while j < inputs.len()
            invariant
                j <= inputs.len(),
                missing_input(inputs@, args@) is None,
                values@ == input_values(inputs@.take(j as int), args@),
            decreases inputs.len() - j,
        {
            proof {
                lemma_missing_none(inputs@, args@, j as int);
                assert(inputs@.take(j + 1).drop_last() =~= inputs@.take(j as int));
                assert(inputs@.take(j + 1).last() == inputs@[j as int]);
            }
            let p = &inputs[j];
            let v = match args.get(p.name.as_str()) {
                Some(x) => copy_value(x),
                None => match &p.default {
                    Some(d) => copy_value(d),
                    None => {
                        assert(false);
                        Value::Int(0)
                    },
                },
            };
            values.insert(copy_string(&p.name), v);
            j += 1;
        }
        proof {
            assert(inputs@.take(j as int) =~= inputs@);
        }
        let ghost vals = values@;
        let rs = &module.resources;
        let mut out: Vec<Resource> = Vec::new();
        let mut i: usize = 0;
        while i < rs.len()
            invariant
                i <= rs.len(),
                values@ == vals,
                out.len() == i,
                forall|m: int|
                    0 <= m < i ==> res_view(#[trigger] out@[m]) == expanded_resource(
                        rs@[m],
                        call.module_name@,
                        instance_prefix@,
                        vals,
                    ),
            decreases rs.len() - i,
        {
            let res = &rs[i];
            let new_name = join3(instance_prefix, "_", res.id.name.as_str());
            let id = ResourceId::new(res.id.resource_type.as_str(), new_name.as_str());
            let mut attrs = copy_map(&res.attributes);
            attrs.insert(str_to_string("name"), Value::String(copy_string(&new_name)));
            attrs.insert(str_to_string("_module"), Value::String(copy_string(&call.module_name)));
            attrs.insert(str_to_string("_module_instance"), Value::String(str_to_string(instance_prefix)));
            let ghost tagged = attrs@;
            let mut entries: Vec<(String, Value)> = Vec::new();
            let mut e: usize = 0;
            while e < attrs.entries.len()
                invariant
                    e <= attrs.entries.len(),
                    attrs@ == tagged,
                    values@ == vals,
                    entries.len() == e,
                    forall|m: int|
                        0 <= m < e ==> (#[trigger] entries@[m]).0@ == tagged[m].0 && entries@[m].1@
                            == subst(tagged[m].1, vals),
                decreases attrs.entries.len() - e,
            {
                proof {
                    assert(tagged[e as int] == (attrs.entries@[e as int].0@, attrs.entries@[e as int].1@));
                }
                let key = copy_string(&attrs.entries[e].0);
                let value = substitute_inputs(&attrs.entries[e].1, &values);
                entries.push((key, value));
                e += 1;
            }
            let substituted = ValueMap { entries };
            let ghost expected = expanded_resource(*res, call.module_name@, instance_prefix@, vals);
            assert(substituted@ =~= expected.1);
            out.push(Resource { id, attributes: substituted });
            i += 1;
        }
        let ghost expected = expansion(
            self.imported(call.module_name@),
            call.module_name@,
            call.arguments@,
            instance_prefix@,
        );
        assert(resources_model(out@) =~= expected->Ok_0);
        Ok(out)
    }
}

proof fn lemma_put_index_bound(entries: Seq<(Seq<char>, usize)>, key: Seq<char>, i: usize, n: usize, k: int)
    requires
        forall|j: int| 0 <= j < entries.len() ==> (#[trigger] entries[j]).1 < n,
        i < n,
        0 <= k < put_index(entries, key, i).len(),
    ensures
        put_index(entries, key, i)[k].1 < n,
    decreases entries.len(),
{
    if entries.len() > 0 && entries[0].0 != key {
        let rest = entries.drop_first();
        assert forall|j: int| 0 <= j < rest.len() implies (#[trigger] rest[j]).1 < n by {
            assert(rest[j] == entries[j + 1]);
        }
        if k > 0 {
            lemma_put_index_bound(rest, key, i, n, k - 1);
        }
    }
}

// ---------------------------------------------------------------------------
// Loading modules
// ---------------------------------------------------------------------------

/// A path joined to a base directory (an absolute path stands alone).
pub open spec fn joined_path(base: Seq<char>, path: Seq<char>) -> Seq<char> {
    if path.len() > 0 && path[0] == '/' {
        path
    } else if base.len() == 0 {
        path
    } else if base.last() == '/' {
        base + path
    } else {
        base + "/"@ + path
    }
}

/// The texts of a list without a given text.
pub open spec fn without(v: Seq<Seq<char>>, x: Seq<char>) -> Seq<Seq<char>>
    decreases v.len(),
{
    if v.len() == 0 {
        seq![]
    } else if v.last() == x {
        without(v.drop_last(), x)
    } else {
        without(v.drop_last(), x).push(v.last())
    }
}

/// What loading a module needs next.
#[derive(Debug)]
pub enum LoadStep {
    /// The module was loaded before: its index.
    Cached(usize),
    /// The file or directory at this full path must be read and parsed, and
    /// the outcome handed to `finish_load`.
    Read(String),
}

impl ModuleResolver {
    /// Resolve a relative path against the base directory
    pub fn resolve_path(&self, path: &str) -> (r: String)
        ensures
            r@ == joined_path(self.base_dir@, path@),
    {
        let p = chars_of(path);
        if p.len() > 0 && p[0] == '/' {
            return str_to_string(path);
        }
        let b = chars_of(self.base_dir.as_str());
        if b.len() == 0 {
            str_to_string(path)
        } else if b[b.len() - 1] == '/' {
            let mut s = copy_string(&self.base_dir);
            push_str(&mut s, path);
            s
        } else {
            let mut s = copy_string(&self.base_dir);
            push_str(&mut s, "/");
            push_str(&mut s, path);
            s
        }
    }

    /// The first step of loading a module: a module that is still loading
    /// imports itself; a loaded module is taken from the cache; otherwise
    /// its full path is marked as loading and must be read.
    pub fn begin_load(&mut self, path: &str) -> (r: Result<LoadStep, ModuleError>)
        requires
            old(self).wf(),
        ensures
            final(self).wf(),
            final(self).modules == old(self).modules,
            final(self).module_cache == old(self).module_cache,
            final(self).imported_modules == old(self).imported_modules,
            final(self).base_dir == old(self).base_dir,
            ({
                let full = joined_path(old(self).base_dir@, path@);
                if texts(old(self).resolving@).contains(full) {
                    &&& r matches Err(e) && e@ == ModuleErrorModel::CircularImport(path@)
                    &&& final(self).resolving == old(self).resolving
                } else {
                    match index_of(old(self).module_cache@, full) {
                        Some(i) => r matches Ok(LoadStep::Cached(j)) && j == i && i < old(
                            self,
                        ).modules.len() && final(self).resolving == old(self).resolving,
                        None => r matches Ok(LoadStep::Read(f)) && f@ == full && texts(
                            final(self).resolving@,
                        ) == texts(old(self).resolving@).push(full),
                    }
                }
            }),
    {
        let full = self.resolve_path(path);
        let mut k: usize = 0;
        while k < self.resolving.len()
            invariant
                k <= self.resolving.len(),
                *self == *old(self),
                old(self).wf(),
                full@ == joined_path(old(self).base_dir@, path@),
                forall|m: int| 0 <= m < k ==> (#[trigger] self.resolving@[m])@ != full@,
            decreases self.resolving.len() - k,
        {
            if str_eq(self.resolving[k].as_str(), full.as_str()) {
                assert(texts(self.resolving@)[k as int] == full@);
                return Err(ModuleError::CircularImport(str_to_string(path)));
            }
            k += 1;
        }
        assert(!texts(self.resolving@).contains(full@)) by {
            if texts(self.resolving@).contains(full@) {
                let m = choose|m: int| 0 <= m < texts(self.resolving@).len() && texts(self.resolving@)[m] == full@;
                assert(self.resolving@[m]@ == full@);
            }
        }
        proof {
            lemma_index_of_bound(self.module_cache@, full@, self.modules.len());
        }
        match find_index(&self.module_cache, full.as_str()) {
            Some(i) => Ok(LoadStep::Cached(i)),
            None => {
                let ghost before = texts(self.resolving@);
                self.resolving.push(copy_string(&full));
                assert(texts(self.resolving@) =~= before.push(full@));
                Ok(LoadStep::Read(full))
            },
        }
    }

    /// The last step of loading a module: what reading and parsing `full_path`
    /// gave. A file that declares no inputs and no outputs is no module. A
    /// module is cached and its index returned; on an error the path stays
    /// marked as loading.
    pub fn finish_load(&mut self, path: &str, full_path: String, loaded: Result<ParsedFile, ModuleError>) -> (r:
        Result<usize, ModuleError>)
        requires
            old(self).wf(),
        ensures
            final(self).wf(),
            final(self).imported_modules == old(self).imported_modules,
            final(self).base_dir == old(self).base_dir,
            match loaded {
                Err(e) => r matches Err(x) && x == e && final(self).modules == old(self).modules
                    && final(self).module_cache == old(self).module_cache && final(self).resolving
                    == old(self).resolving,
                Ok(p) => if p.inputs.len() == 0 && p.outputs.len() == 0 {
                    &&& r matches Err(x) && x@ == ModuleErrorModel::NotFound(path@)
                    &&& final(self).modules == old(self).modules
                    &&& final(self).module_cache == old(self).module_cache
                    &&& final(self).resolving == old(self).resolving
                } else {
                    &&& r matches Ok(i) && i == old(self).modules.len()
                    &&& final(self).modules@ == old(self).modules@.push(p)
                    &&& table_model(final(self).module_cache@) == put_index(
                        table_model(old(self).module_cache@),
                        full_path@,
                        old(self).modules.len() as usize,
                    )
                    &&& texts(final(self).resolving@) == without(
                        texts(old(self).resolving@),
                        full_path@,
                    )
                },
            },
    {
        let parsed = match loaded {
            Err(e) => {
                return Err(e);
            },
            Ok(p) => p,
        };
        if parsed.inputs.len() == 0 && parsed.outputs.len() == 0 {
            return Err(ModuleError::NotFound(str_to_string(path)));
        }
        let mut kept: Vec<String> = Vec::new();
        let mut k: usize = 0;
        proof {
            assert(texts(self.resolving@).take(0) =~= Seq::<Seq<char>>::empty());
            assert(texts(kept@) =~= Seq::<Seq<char>>::empty());
        }
        while k < self.resolving.len()
            invariant
                k <= self.resolving.len(),
                texts(kept@) == without(texts(self.resolving@).take(k as int), full_path@),
            decreases self.resolving.len() - k,
        {
            proof {
                assert(texts(self.resolving@).take(k + 1).drop_last() =~= texts(self.resolving@).take(
                    k as int,
                ));
                assert(texts(self.resolving@).take(k + 1).last() == self.resolving@[k as int]@);
            }
            if !str_eq(self.resolving[k].as_str(), full_path.as_str()) {
                let ghost before = texts(kept@);
                kept.push(copy_string(&self.resolving[k]));
                assert(texts(kept@) =~= before.push(self.resolving@[k as int]@));
            }
            k += 1;
        }
        proof {
            assert(texts(self.resolving@).take(k as int) =~= texts(self.resolving@));
        }
        self.resolving = kept;
        let index = self.modules.len();
        self.modules.push(parsed);
        let ghost before_cache = table_model(self.module_cache@);
        let ghost fp = full_path@;
        store_index(&mut self.module_cache, full_path, index);
        proof {
            assert forall|j: int| 0 <= j < before_cache.len() implies (#[trigger] before_cache[j]).1
                < self.modules.len() by {
                assert(before_cache[j].1 == old(self).module_cache@[j].1);
            }
            assert forall|m: int| 0 <= m < self.module_cache.len() implies (
            #[trigger] self.module_cache@[m]).1 < self.modules.len() by {
                lemma_put_index_bound(before_cache, fp, index, self.modules.len(), m);
                assert(table_model(self.module_cache@)[m].1 == self.module_cache@[m].1);
            }
        }
        Ok(index)
    }
}

// ---------------------------------------------------------------------------
// Resolving a file's module calls
// ---------------------------------------------------------------------------

/// The instance prefix of a call: its binding name, else the module name.
pub open spec fn call_prefix(c: ModuleCall) -> Seq<char> {
    match c.binding_name {
        Some(b) => b@,
        None => c.module_name@,
    }
}

/// The resources after expanding the calls in turn, and the error that
/// stopped the expansion (if one did).
pub open spec fn expand_calls(
    res: ModuleResolver,
    calls: Seq<ModuleCall>,
    acc: Seq<((Seq<char>, Seq<char>), Seq<(Seq<char>, ValueModel)>)>,
) -> (Seq<((Seq<char>, Seq<char>), Seq<(Seq<char>, ValueModel)>)>, Option<ModuleErrorModel>)
    decreases calls.len(),
{
    if calls.len() == 0 {
        (acc, None)
    } else {
        let c = calls[0];
        match expansion(res.imported(c.module_name@), c.module_name@, c.arguments@, call_prefix(c)) {
            Err(e) => (acc, Some(e)),
            Ok(rs) => expand_calls(res, calls.drop_first(), acc + rs),
        }
    }
}

/// Expanding module calls only appends: the resources that were there come
/// first, unchanged, whether or not a call fails.
pub proof fn lemma_expand_calls_append(
    res: ModuleResolver,
    calls: Seq<ModuleCall>,
    acc: Seq<((Seq<char>, Seq<char>), Seq<(Seq<char>, ValueModel)>)>,
)
    ensures
        acc.len() <= expand_calls(res, calls, acc).0.len(),
        expand_calls(res, calls, acc).0.take(acc.len() as int) == acc,
    decreases calls.len(),
{
    if calls.len() > 0 {
        let c = calls[0];
        match expansion(res.imported(c.module_name@), c.module_name@, c.arguments@, call_prefix(c)) {
            Err(e) => {
                assert(acc.take(acc.len() as int) =~= acc);
            },
            Ok(rs) => {
                lemma_expand_calls_append(res, calls.drop_first(), acc + rs);
                let out = expand_calls(res, calls.drop_first(), acc + rs).0;
                assert(out.take(acc.len() as int) =~= (acc + rs).take((acc + rs).len() as int).take(acc.len() as int));
                assert((acc + rs).take(acc.len() as int) =~= acc);
            },
        }
    } else {
        assert(acc.take(acc.len() as int) =~= acc);
    }
}

/// Expand the module calls of a parsed file into resources, with the modules
/// the resolver has imported. The resources of each call are appended in
/// turn; the first call that fails stops the expansion.
pub fn resolve_modules(parsed: &mut ParsedFile, resolver: &ModuleResolver) -> (r: Result<(), ModuleError>)
    requires
        resolver.wf(),
    ensures
        ({
            let (rs, err) = expand_calls(
                *resolver,
                old(parsed).module_calls@,
                resources_model(old(parsed).resources@),
            );
            &&& resources_model(final(parsed).resources@) == rs
            &&& match err {
                Some(e) => r matches Err(x) && x@ == e,
                None => r is Ok,
            }
        }),
        final(parsed).providers == old(parsed).providers,
        final(parsed).variables == old(parsed).variables,
        final(parsed).imports == old(parsed).imports,
        final(parsed).module_calls == old(parsed).module_calls,
        final(parsed).inputs == old(parsed).inputs,
        final(parsed).outputs == old(parsed).outputs,
        final(parsed).backend == old(parsed).backend,
{
    let ghost calls = parsed.module_calls@;
    let ghost start = resources_model(parsed.resources@);
    let mut k: usize = 0;
    proof {
        assert(calls.skip(0) =~= calls);
    }
    while k < parsed.module_calls.len()
        invariant
            k <= parsed.module_calls.len(),
            resolver.wf(),
            parsed.module_calls@ == calls,
            parsed.module_calls == old(parsed).module_calls,
            parsed.providers == old(parsed).providers,
            parsed.variables == old(parsed).variables,
            parsed.imports == old(parsed).imports,
            parsed.inputs == old(parsed).inputs,
            parsed.outputs == old(parsed).outputs,
            parsed.backend == old(parsed).backend,
            calls == old(parsed).module_calls@,
            start == resources_model(old(parsed).resources@),
            expand_calls(*resolver, calls, start) == expand_calls(
                *resolver,
                calls.skip(k as int),
                resources_model(parsed.resources@),
            ),
        decreases parsed.module_calls.len() - k,
    {
        proof {
            assert(calls.skip(k as int)[0] == calls[k as int]);
            assert(calls.skip(k as int).drop_first() =~= calls.skip(k + 1));
        }
        let prefix = match &parsed.module_calls[k].binding_name {
            Some(b) => copy_string(b),
            None => copy_string(&parsed.module_calls[k].module_name),
        };
        let result = resolver.expand_module_call(&parsed.module_calls[k], prefix.as_str());
        match result {
            Err(e) => {
                return Err(e);
            },
            Ok(mut expanded) => {
                let ghost before = resources_model(parsed.resources@);
                let ghost added = resources_model(expanded@);
                parsed.resources.append(&mut expanded);
                assert(resources_model(parsed.resources@) =~= before + added);
            },
        }
        k += 1;
    }
    proof {
        assert(calls.skip(k as int).len() == 0);
    }
    Ok(())
}

// ---------------------------------------------------------------------------
// Directory modules
// ---------------------------------------------------------------------------

/// The extension of a file name: what follows its last dot, unless the name
/// starts with its only dot (or is `..`).
pub open spec fn file_extension(name: Seq<char>) -> Option<Seq<char>> {
    match last_dot(name, name.len() as int) {
        Some(k) => if k > 0 && name != ".."@ {
            Some(name.skip(k + 1))
        } else {
            None
        },
        None => None,
    }
}

/// The index of the last dot before position `n`.
pub open spec fn last_dot(name: Seq<char>, n: int) -> Option<int>
    decreases n,
{
    if n <= 0 || n > name.len() {
        None
    } else if name[n - 1] == '.' {
        Some(n - 1)
    } else {
        last_dot(name, n - 1)
    }
}

/// Whether a file name ends in `.crn`.
pub open spec fn is_crn_file(name: Seq<char>) -> bool {
    file_extension(name) == Some("crn"@)
}

/// The names that end in `.crn`, in order.
pub open spec fn crn_names(names: Seq<Seq<char>>) -> Seq<Seq<char>>
    decreases names.len(),
{
    if names.len() == 0 {
        seq![]
    } else if is_crn_file(names.last()) {
        crn_names(names.drop_last()).push(names.last())
    } else {
        crn_names(names.drop_last())
    }
}

/// Whether a file name ends in `.crn` (exec).
pub fn crn_file(name: &str) -> (r: bool)
    ensures
        r == is_crn_file(name@),
{
    let c = chars_of(name);
    let mut n = c.len();
    while n > 0 && c[n - 1] != '.'
        invariant
            n <= c.len(),
            c@ == name@,
            last_dot(name@, c.len() as int) == last_dot(name@, n as int),
        decreases n,
    {
        n -= 1;
    }
    if n == 0 {
        return false;
    }
    let k = n - 1;
    let ext = crate::text::slice_chars(c.as_slice(), k + 1, c.len());
    assert(ext@ =~= name@.skip(k + 1));
    let crn = chars_of("crn");
    let dots = chars_of("..");
    k > 0 && !crate::text::chars_eq(c.as_slice(), dots.as_slice()) && crate::text::chars_eq(
        ext.as_slice(),
        crn.as_slice(),
    )
}

/// The file names of a directory that make up a module: those ending in
/// `.crn`, sorted.
pub fn module_file_names(names: &Vec<String>) -> (r: Vec<String>)
    ensures
        crate::graph::names_model(r@) == crate::module::sort_names(crn_names(crate::graph::names_model(names@))),
{
    let ghost nm = crate::graph::names_model(names@);
    let mut kept: Vec<String> = Vec::new();
    let mut k: usize = 0;
    proof {
        assert(nm.take(0) =~= Seq::<Seq<char>>::empty());
        assert(crate::graph::names_model(kept@) =~= Seq::<Seq<char>>::empty());
    }
    while k < names.len()
        invariant
            k <= names.len(),
            nm == crate::graph::names_model(names@),
            crate::graph::names_model(kept@) == crn_names(nm.take(k as int)),
        decreases names.len() - k,
    {
        proof {
            assert(nm.take(k + 1).drop_last() =~= nm.take(k as int));
            assert(nm.take(k + 1).last() == names@[k as int]@);
        }
        if crn_file(names[k].as_str()) {
            let ghost before = crate::graph::names_model(kept@);
            kept.push(copy_string(&names[k]));
            assert(crate::graph::names_model(kept@) =~= before.push(names@[k as int]@));
        }
        k += 1;
    }
    proof {
        assert(nm.take(k as int) =~= nm);
    }
    crate::module::sort_strings(&kept)
}

/// The module made of a directory's files: their providers, resources,
/// imports, calls, inputs and outputs in file order, their variables
/// together (a later file's value replacing an earlier one's), no backend.
pub open spec fn merged(fs: Seq<ParsedModel>) -> ParsedModel
    decreases fs.len(),
{
    if fs.len() == 0 {
        ParsedModel {
            providers: seq![],
            resources: seq![],
            variables: seq![],
            imports: seq![],
            module_calls: seq![],
            inputs: seq![],
            outputs: seq![],
            backend: None,
        }
    } else {
        let m = merged(fs.drop_last());
        let f = fs.last();
        ParsedModel {
            providers: m.providers + f.providers,
            resources: m.resources + f.resources,
            variables: insert_all(m.variables, f.variables),
            imports: m.imports + f.imports,
            module_calls: m.module_calls + f.module_calls,
            inputs: m.inputs + f.inputs,
            outputs: m.outputs + f.outputs,
            backend: None,
        }
    }
}

/// The models of a list of parsed files.
pub open spec fn files_model(fs: Seq<ParsedFile>) -> Seq<ParsedModel> {
    Seq::new(fs.len(), |i: int| fs[i]@)
}

proof fn lemma_model_eq(a: ParsedModel, b: ParsedModel)
    requires
        a.providers =~= b.providers,
        a.resources =~= b.resources,
        a.variables =~= b.variables,
        a.imports =~= b.imports,
        a.module_calls =~= b.module_calls,
        a.inputs =~= b.inputs,
        a.outputs =~= b.outputs,
        a.backend == b.backend,
    ensures
        a == b,
{
}

/// Merge the parsed files of a directory module into one.
pub fn merge_module_files(files: Vec<ParsedFile>) -> (r: ParsedFile)
    ensures
        r@ == merged(files_model(files@)),
{
    let ghost all = files_model(files@);
    let mut files = files;
    let mut out = ParsedFile {
        providers: Vec::new(),
        resources: Vec::new(),
        variables: ValueMap::new(),
        imports: Vec::new(),
        module_calls: Vec::new(),
        inputs: Vec::new(),
        outputs: Vec::new(),
        backend: None,
    };
    let ghost n = files.len();
    proof {
        assert(all.take(0) =~= Seq::<ParsedModel>::empty());
        lemma_model_eq(out@, merged(all.take(0)));
    }
    let mut k: usize = 0;
    while files.len() > 0
        invariant
            k + files.len() == n,
            n == all.len(),
            files_model(files@) == all.skip(k as int),
            out@ == merged(all.take(k as int)),
        decreases files.len(),
    {
        proof {
            assert(files_model(files@)[0] == files@[0]@);
        }
        let ghost before_files = files_model(files@);
        let mut f = files.remove(0);
        proof {
            assert(files_model(files@) =~= before_files.drop_first());
            assert(before_files.drop_first() =~= all.skip(k + 1));
            assert(all[k as int] == f@);
            assert(all.take(k + 1).drop_last() =~= all.take(k as int));
        }
        let ghost m = out@;
        let ghost fv = f@;
        out.providers.append(&mut f.providers);
        assert(out@.providers =~= m.providers + fv.providers);
        out.resources.append(&mut f.resources);
        out.imports.append(&mut f.imports);
        out.module_calls.append(&mut f.module_calls);
        out.inputs.append(&mut f.inputs);
        out.outputs.append(&mut f.outputs);
        let entries = f.variables.entries;
        let ghost snap = out;
        let mut j: usize = 0;
        proof {
            assert(fv.variables.take(0) =~= Seq::<(Seq<char>, ValueModel)>::empty());
        }
        while j < entries.len()
            invariant
                j <= entries.len(),
                fv.variables == crate::resource::entries_view(entries@),
                out.variables@ == insert_all(m.variables, fv.variables.take(j as int)),
                out.providers == snap.providers,
                out.resources == snap.resources,
                out.imports == snap.imports,
                out.module_calls == snap.module_calls,
                out.inputs == snap.inputs,
                out.outputs == snap.outputs,
                out.backend == snap.backend,
            decreases entries.len() - j,
        {
            proof {
                assert(fv.variables.take(j + 1).drop_last() =~= fv.variables.take(j as int));
                assert(fv.variables.take(j + 1).last() == (entries@[j as int].0@, entries@[j as int].1@));
            }
            out.variables.insert(copy_string(&entries[j].0), copy_value(&entries[j].1));
            j += 1;
        }
        proof {
            assert(fv.variables.take(j as int) =~= fv.variables);
            let e = merged(all.take(k + 1));
            assert(e.providers =~= m.providers + fv.providers);
            lemma_model_eq(out@, e);
        }
        k += 1;
    }
    proof {
        assert(all.take(k as int) =~= all);
    }
    out
}

} // verus!
