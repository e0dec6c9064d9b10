//! Module - Module signatures and dependency analysis
//!
//! A signature says what a module requires, what it creates and what it
//! exposes, and how its resources depend on each other.

pub use crate::graph::{Dependency, DependencyGraph, TypedDependency, TypedDependencyGraph};

use vstd::prelude::*;

use crate::graph::{group_add, group_get, names_model, typed_deps_model, Groups, TypedDepModel};
use crate::parser::grammar::{path_parts, Entries, ParamModel, ResModel, TypeModel};
use crate::parser::{res_view, InputParameter, OutputParameter, ParsedFile, TypeExpr};
use crate::resource::{
    copy_path, keys_of, lemma_dict_view, lemma_list_view, lookup, opt_path_view, opt_str_view, values_view, Resource,
    ResourceTypePath, Value, ValueModel,
};
use crate::text::{
    byte_len, char_width, lemma_byte_len_mono, lemma_byte_len_take, utf8_width,
    chars_of, copy_string, i64_text, int_text, nat_digits, push_chars, push_str, str_eq,
    str_to_string, string_of, usize_text,
};

verus! {

// ---------------------------------------------------------------------------
// Showing values
// ---------------------------------------------------------------------------

/// The first `k` from `from` on at which the prefix of `s` takes at least
/// `n` bytes (or the end of `s`).
pub open spec fn cut_from(s: Seq<char>, n: nat, k: nat) -> nat
    decreases s.len() - k,
{
    if k >= s.len() || byte_len(s.take(k as int)) >= n {
        k
    } else {
        cut_from(s, n, k + 1)
    }
}

/// Whether a text can be cut after its first `n` bytes: a longer text is
/// cut there, which must fall between two characters.
pub open spec fn cuts_cleanly(s: Seq<char>, n: nat) -> bool {
    byte_len(s.take(cut_from(s, n, 0) as int)) == n
}

/// The shown form of a value in a signature.
pub open spec fn value_display(v: ValueModel) -> Seq<char>
    decreases v, 1nat,
{
    match v {
        ValueModel::Str(s) => if byte_len(s) > 50 {
            "\""@ + s.take(cut_from(s, 47, 0) as int) + "...\""@
        } else {
            "\""@ + s + "\""@
        },
        ValueModel::Int(n) => int_text(n as int),
        ValueModel::Bool(b) => if b {
            "true"@
        } else {
            "false"@
        },
        ValueModel::List(items) => if items.len() == 0 {
            "[]"@
        } else if items.len() <= 3 {
            "["@ + items_display(items) + "]"@
        } else {
            "["@ + nat_digits(items.len()) + " items]"@
        },
        ValueModel::Dict(e) => if e.len() == 0 {
            "{}"@
        } else {
            "{..."@ + nat_digits(e.len()) + " keys}"@
        },
        ValueModel::ResourceRef(b, a) => b + "."@ + a,
        ValueModel::TypedResourceRef { binding_name, attribute_name, .. } => binding_name + "."@
            + attribute_name,
        ValueModel::UnresolvedIdent(a, m) => match m {
            Some(m) => a + "."@ + m,
            None => a,
        },
    }
}

/// The shown forms of list items, separated by `, `.
pub open spec fn items_display(items: Seq<ValueModel>) -> Seq<char>
    decreases items, 0nat,
{
    if items.len() == 0 {
        Seq::empty()
    } else if items.len() == 1 {
        value_display(items[0])
    } else {
        items_display(items.subrange(0, items.len() - 1)) + ", "@ + value_display(
            items[items.len() - 1],
        )
    }
}

/// Whether a value can be shown: a long text must be cut between two
/// characters.
pub open spec fn value_showable(v: ValueModel) -> bool
    decreases v, 1nat,
{
    match v {
        ValueModel::Str(s) => byte_len(s) <= 50 || cuts_cleanly(s, 47),
        ValueModel::List(items) => items.len() > 3 || items_showable(items),
        _ => true,
    }
}

/// Whether each list item can be shown.
pub open spec fn items_showable(items: Seq<ValueModel>) -> bool
    decreases items, 0nat,
{
    if items.len() == 0 {
        true
    } else {
        items_showable(items.subrange(0, items.len() - 1)) && value_showable(items[items.len() - 1])
    }
}

/// Whether a text takes more than `n` bytes.
fn longer_than(s: &[char], n: usize) -> (r: bool)
    requires
        n < 1000,
    ensures
        r == (byte_len(s@) > n),
{
    let mut total: usize = 0;
    let mut k: usize = 0;
    while k < s.len()
        invariant
            k <= s.len(),
            n < 1000,
            total == byte_len(s@.take(k as int)),
            total <= n,
        decreases s.len() - k,
    {
        proof {
            lemma_byte_len_take(s@, k as int);
        }
        total = total + char_width(s[k]);
        k += 1;
        if total > n {
            proof {
                lemma_byte_len_mono(s@, k as int, s.len() as int);
                assert(s@.take(s.len() as int) =~= s@);
            }
            return true;
        }
    }
    proof {
        assert(s@.take(s.len() as int) =~= s@);
    }
    false
}

/// The prefix of a text that takes its first `n` bytes.
fn cut_bytes(s: &[char], n: usize) -> (r: Vec<char>)
    requires
        n < 1000,
        cuts_cleanly(s@, n as nat),
    ensures
        r@ == s@.take(cut_from(s@, n as nat, 0) as int),
{
    let mut total: usize = 0;
    let mut k: usize = 0;
    while k < s.len() && total < n
        invariant
            k <= s.len(),
            n < 1000,
            total == byte_len(s@.take(k as int)),
            total < n || k == 0 || byte_len(s@.take(k as int)) >= n,
            cut_from(s@, n as nat, 0) == cut_from(s@, n as nat, k as nat),
        decreases s.len() - k,
    {
        proof {
            lemma_byte_len_take(s@, k as int);
        }
        total = total + char_width(s[k]);
        k += 1;
    }
    let mut out: Vec<char> = Vec::new();
    let mut j: usize = 0;
    while j < k
        invariant
            j <= k <= s.len(),
            out@ == s@.take(j as int),
        decreases k - j,
    {
        out.push(s[j]);
        j += 1;
        proof {
            assert(s@.take(j as int) =~= s@.take(j - 1).push(s@[j - 1]));
        }
    }
    out
}

/// Format a Value for display
fn format_value(value: &Value) -> (r: String)
    requires
        value_showable(value@),
    ensures
        r@ == value_display(value@),
    decreases value,
{
    match value {
        Value::String(s) => {
            let c = chars_of(s.as_str());
            let mut out = str_to_string("\"");
            if longer_than(c.as_slice(), 50) {
                let cut = cut_bytes(c.as_slice(), 47);
                push_chars(&mut out, cut.as_slice());
                push_str(&mut out, "...\"");
            } else {
                push_str(&mut out, s.as_str());
                push_str(&mut out, "\"");
            }
            out
        },
        Value::Int(n) => string_of(i64_text(*n).as_slice()),
        Value::Bool(b) => if *b {
            str_to_string("true")
        } else {
            str_to_string("false")
        },
        Value::List(items) => {
            proof {
                lemma_list_view(*items);
            }
            let ghost iv = values_view(items@);
            if items.len() == 0 {
                str_to_string("[]")
            } else if items.len() <= 3 {
                let mut out = str_to_string("[");
                let ghost start = out@;
                let mut k: usize = 0;
                while k < items.len()
                    invariant
                        k <= items.len() <= 3,
                        iv == values_view(items@),
                        items_showable(iv),
                        out@ == start + items_display(iv.take(k as int)),
                        decreases_to!(*value => *items),
                    decreases items.len() - k,
                {
                    proof {
                        assert(decreases_to!(*items => items@[k as int]));
                    }
                    proof {
                        let t = iv.take(k + 1);
                        assert(t.subrange(0, t.len() - 1) =~= iv.take(k as int));
                        lemma_items_showable_at(iv, k as int);
                    }
                    if k > 0 {
                        push_str(&mut out, ", ");
                    }
                    let shown = format_value(&items[k]);
                    push_str(&mut out, shown.as_str());
                    k += 1;
                }
                proof {
                    assert(iv.take(items.len() as int) =~= iv);
                }
                push_str(&mut out, "]");
                out
            } else {
                let mut out = str_to_string("[");
                push_chars(&mut out, usize_text(items.len()).as_slice());
                push_str(&mut out, " items]");
                out
            }
        },
        Value::Dict(m) => {
            proof {
                lemma_dict_view(*m);
            }
            if m.len() == 0 {
                str_to_string("{}")
            } else {
                let mut out = str_to_string("{...");
                push_chars(&mut out, usize_text(m.len()).as_slice());
                push_str(&mut out, " keys}");
                out
            }
        },
        Value::ResourceRef(b, a) => {
            let mut out = copy_string(b);
            push_str(&mut out, ".");
            push_str(&mut out, a.as_str());
            out
        },
        Value::TypedResourceRef { binding_name, attribute_name, .. } => {
            let mut out = copy_string(binding_name);
            push_str(&mut out, ".");
            push_str(&mut out, attribute_name.as_str());
            out
        },
        Value::UnresolvedIdent(a, m) => {
            let mut out = copy_string(a);
            if let Some(m) = m {
                push_str(&mut out, ".");
                push_str(&mut out, m.as_str());
            }
            out
        },
    }
}

proof fn lemma_items_showable_at(items: Seq<ValueModel>, k: int)
    requires
        items_showable(items),
        0 <= k < items.len(),
    ensures
        value_showable(items[k]),
    decreases items.len(),
{
    if k < items.len() - 1 {
        lemma_items_showable_at(items.subrange(0, items.len() - 1), k);
    }
}


// ---------------------------------------------------------------------------
// Typed dependencies of resources
// ---------------------------------------------------------------------------

/// The binding name of a resource: its `_binding` attribute when that is a
/// string, its name otherwise.
pub open spec fn binding_of(r: ResModel) -> Seq<char> {
    match lookup(r.1, "_binding"@) {
        Some(ValueModel::Str(s)) => s,
        _ => r.0.1,
    }
}

/// The written resource type of a resource: its `_type` attribute when that
/// is a string, its id's type otherwise.
pub open spec fn type_str_of(r: ResModel) -> Seq<char> {
    match lookup(r.1, "_type"@) {
        Some(ValueModel::Str(s)) => s,
        _ => r.0.0,
    }
}

/// The resource type path of a resource; a type without a provider is
/// given the provider `unknown`.
pub open spec fn type_path_of(r: ResModel) -> (Seq<char>, Seq<char>) {
    match path_parts(type_str_of(r)) {
        Some(pq) => pq,
        None => ("unknown"@, type_str_of(r)),
    }
}

/// The type of the last resource bound to a name.
pub open spec fn binding_type(rs: Seq<ResModel>, name: Seq<char>) -> Option<(Seq<char>, Seq<char>)>
    decreases rs.len(),
{
    if rs.len() == 0 {
        None
    } else if binding_of(rs.last()) == name {
        Some(type_path_of(rs.last()))
    } else {
        binding_type(rs.drop_last(), name)
    }
}

/// The referenced resource type of the last input with a name, when its
/// type is a reference.
pub open spec fn input_ref_type(inputs: Seq<ParamModel>, name: Seq<char>) -> Option<(Seq<char>, Seq<char>)>
    decreases inputs.len(),
{
    if inputs.len() == 0 {
        None
    } else if inputs.last().0 == name {
        match inputs.last().1 {
            TypeModel::Ref(p, r) => Some((p, r)),
            _ => None,
        }
    } else {
        input_ref_type(inputs.drop_last(), name)
    }
}

/// Where the types of referenced bindings are looked up: the resources,
/// and, for a module, its inputs (referenced as `input.<name>`).
pub struct DepContext {
    pub resources: Seq<ResModel>,
    pub inputs: Seq<ParamModel>,
    pub with_inputs: bool,
}

/// The type of a referenced binding, if known.
pub open spec fn target_type(c: DepContext, target: Seq<char>, attribute: Seq<char>) -> Option<(Seq<char>, Seq<char>)> {
    if c.with_inputs && target == "input"@ {
        input_ref_type(c.inputs, attribute)
    } else {
        binding_type(c.resources, target)
    }
}

/// The typed dependencies a value declares when used under `key`.
pub open spec fn value_deps(key: Seq<char>, v: ValueModel, c: DepContext) -> Seq<TypedDepModel>
    decreases v, 1nat,
{
    match v {
        ValueModel::ResourceRef(t, a) => seq![(t, target_type(c, t, a), a, key)],
        ValueModel::TypedResourceRef { binding_name, attribute_name, resource_type } => seq![
            (
                binding_name,
                match resource_type {
                    Some(p) => Some(p),
                    None => target_type(c, binding_name, attribute_name),
                },
                attribute_name,
                key,
            ),
        ],
        ValueModel::List(items) => items_deps(key, items, c),
        ValueModel::Dict(e) => entries_deps(e, c),
        _ => Seq::empty(),
    }
}

/// The typed dependencies of list items, in order.
pub open spec fn items_deps(key: Seq<char>, items: Seq<ValueModel>, c: DepContext) -> Seq<TypedDepModel>
    decreases items, 0nat,
{
    if items.len() == 0 {
        Seq::empty()
    } else {
        items_deps(key, items.subrange(0, items.len() - 1), c) + value_deps(key, items[items.len() - 1], c)
    }
}

/// The typed dependencies of map entries, each used under its own key.
pub open spec fn entries_deps(e: Seq<(Seq<char>, ValueModel)>, c: DepContext) -> Seq<TypedDepModel>
    decreases e, 0nat,
{
    if e.len() == 0 {
        Seq::empty()
    } else {
        entries_deps(e.subrange(0, e.len() - 1), c) + value_deps(e[e.len() - 1].0, e[e.len() - 1].1, c)
    }
}

/// Whether an attribute is internal (its name starts with `_`).
pub open spec fn internal_key(k: Seq<char>) -> bool {
    k.len() > 0 && k[0] == '_'
}

/// The typed dependencies a resource's attributes declare; internal
/// attributes are skipped.
pub open spec fn resource_deps(attrs: Entries, c: DepContext) -> Seq<TypedDepModel>
    decreases attrs.len(),
{
    if attrs.len() == 0 {
        Seq::empty()
    } else {
        resource_deps(attrs.drop_last(), c) + if internal_key(attrs.last().0) {
            Seq::empty()
        } else {
            value_deps(attrs.last().0, attrs.last().1, c)
        }
    }
}

/// The groups after adding each item under one name.
pub open spec fn group_add_all(g: Groups<TypedDepModel>, k: Seq<char>, xs: Seq<TypedDepModel>) -> Groups<TypedDepModel>
    decreases xs.len(),
{
    if xs.len() == 0 {
        g
    } else {
        group_add(group_add_all(g, k, xs.drop_last()), k, xs.last())
    }
}

/// The typed dependency graph of a list of resources: each resource's
/// dependencies, under its binding name.
pub open spec fn deps_graph(rs: Seq<ResModel>, c: DepContext) -> Groups<TypedDepModel>
    decreases rs.len(),
{
    if rs.len() == 0 {
        Seq::empty()
    } else {
        group_add_all(deps_graph(rs.drop_last(), c), binding_of(rs.last()), resource_deps(rs.last().1, c))
    }
}

/// The dependencies recorded for a binding name.
pub open spec fn deps_under(g: Groups<TypedDepModel>, name: Seq<char>) -> Seq<TypedDepModel> {
    match group_get(g, name) {
        Some(d) => d,
        None => Seq::empty(),
    }
}

/// The binding name of a resource
fn binding_name_of(r: &Resource) -> (s: String)
    ensures
        s@ == binding_of(res_view(*r)),
{
    match r.attributes.get("_binding") {
        Some(Value::String(s)) => copy_string(s),
        _ => copy_string(&r.id.name),
    }
}

/// The resource type path of a resource
fn type_path_of_resource(r: &Resource) -> (p: ResourceTypePath)
    ensures
        p@ == type_path_of(res_view(*r)),
{
    let type_str = match r.attributes.get("_type") {
        Some(Value::String(s)) => copy_string(s),
        _ => copy_string(&r.id.resource_type),
    };
    match ResourceTypePath::parse(type_str.as_str()) {
        Some(p) => p,
        None => ResourceTypePath { provider: str_to_string("unknown"), resource_type: type_str },
    }
}

/// The models of a list of resources.
pub open spec fn resources_model(rs: Seq<Resource>) -> Seq<ResModel> {
    Seq::new(rs.len(), |i: int| res_view(rs[i]))
}

/// The models of a list of input parameters.
pub open spec fn inputs_model(ps: Seq<InputParameter>) -> Seq<ParamModel> {
    Seq::new(ps.len(), |i: int| ps[i]@)
}

/// The type of the last resource bound to a name.
fn find_binding_type(resources: &Vec<Resource>, name: &str) -> (r: Option<ResourceTypePath>)
    ensures
        opt_path_view(r) == binding_type(resources_model(resources@), name@),
{
    let ghost rm = resources_model(resources@);
    let mut k: usize = resources.len();
    proof {
        assert(rm.take(k as int) =~= rm);
    }
    while k > 0
        invariant
            k <= resources.len(),
            rm == resources_model(resources@),
            binding_type(rm, name@) == binding_type(rm.take(k as int), name@),
        decreases k,
    {
        proof {
            assert(rm.take(k as int).drop_last() =~= rm.take(k - 1));
            assert(rm.take(k as int).last() == res_view(resources@[k - 1]));
        }
        let b = binding_name_of(&resources[k - 1]);
        if str_eq(b.as_str(), name) {
            return Some(type_path_of_resource(&resources[k - 1]));
        }
        k -= 1;
    }
    None
}

/// The referenced type of the last input with a name, when it is a reference.
fn find_input_type(inputs: &Vec<InputParameter>, name: &str) -> (r: Option<ResourceTypePath>)
    ensures
        opt_path_view(r) == input_ref_type(inputs_model(inputs@), name@),
{
    let ghost im = inputs_model(inputs@);
    let mut k: usize = inputs.len();
    proof {
        assert(im.take(k as int) =~= im);
    }
    while k > 0
        invariant
            k <= inputs.len(),
            im == inputs_model(inputs@),
            input_ref_type(im, name@) == input_ref_type(im.take(k as int), name@),
        decreases k,
    {
        proof {
            assert(im.take(k as int).drop_last() =~= im.take(k - 1));
            assert(im.take(k as int).last() == inputs@[k - 1]@);
        }
        if str_eq(inputs[k - 1].name.as_str(), name) {
            return match &inputs[k - 1].type_expr {
                TypeExpr::Ref(p) => Some(copy_path(p)),
                _ => None,
            };
        }
        k -= 1;
    }
    None
}

/// The context a dependency search runs in.
pub open spec fn dep_context(resources: Seq<Resource>, inputs: Seq<InputParameter>, with_inputs: bool) -> DepContext {
    DepContext { resources: resources_model(resources), inputs: inputs_model(inputs), with_inputs }
}

/// The type of a referenced binding, if known.
fn find_target_type(
    resources: &Vec<Resource>,
    inputs: &Vec<InputParameter>,
    with_inputs: bool,
    target: &str,
    attribute: &str,
) -> (r: Option<ResourceTypePath>)
    ensures
        opt_path_view(r) == target_type(dep_context(resources@, inputs@, with_inputs), target@, attribute@),
{
    proof {
        reveal_strlit("input");
    }
    if with_inputs && str_eq(target, "input") {
        find_input_type(inputs, attribute)
    } else {
        find_binding_type(resources, target)
    }
}

/// Collect the typed dependencies a value declares under `key`.
fn collect_typed_dependencies(
    key: &str,
    value: &Value,
    resources: &Vec<Resource>,
    inputs: &Vec<InputParameter>,
    with_inputs: bool,
    out: &mut Vec<TypedDependency>,
)
    ensures
        typed_deps_model(final(out)@) == typed_deps_model(old(out)@) + value_deps(
            key@,
            value@,
            dep_context(resources@, inputs@, with_inputs),
        ),
    decreases value,
{
    let ghost c = dep_context(resources@, inputs@, with_inputs);
    let ghost start = typed_deps_model(out@);
    match value {
        Value::ResourceRef(target, attribute) => {
            let target_type = find_target_type(resources, inputs, with_inputs, target.as_str(), attribute.as_str());
            out.push(TypedDependency {
                target: copy_string(target),
                target_type,
                attribute: copy_string(attribute),
                used_in: str_to_string(key),
            });
            proof {
                assert(typed_deps_model(out@) =~= start + value_deps(key@, value@, c));
            }
        },
        Value::TypedResourceRef { binding_name, attribute_name, resource_type } => {
            let target_type = match resource_type {
                Some(p) => Some(copy_path(p)),
                None => find_target_type(resources, inputs, with_inputs, binding_name.as_str(), attribute_name.as_str()),
            };
            out.push(TypedDependency {
                target: copy_string(binding_name),
                target_type,
                attribute: copy_string(attribute_name),
                used_in: str_to_string(key),
            });
            proof {
                assert(typed_deps_model(out@) =~= start + value_deps(key@, value@, c));
            }
        },
        Value::List(items) => {
            proof {
                lemma_list_view(*items);
            }
            let ghost iv = values_view(items@);
            let mut k: usize = 0;
            while k < items.len()
                invariant
                    k <= items.len(),
                    iv == values_view(items@),
                    c == dep_context(resources@, inputs@, with_inputs),
                    typed_deps_model(out@) == start + items_deps(key@, iv.take(k as int), c),
                    decreases_to!(*value => *items),
                decreases items.len() - k,
            {
                proof {
                    assert(decreases_to!(*items => items@[k as int]));
                    let t = iv.take(k + 1);
                    assert(t.subrange(0, t.len() - 1) =~= iv.take(k as int));
                }
                collect_typed_dependencies(key, &items[k], resources, inputs, with_inputs, out);
                k += 1;
            }
            proof {
                assert(iv.take(items.len() as int) =~= iv);
            }
        },
        Value::Dict(m) => {
            proof {
                lemma_dict_view(*m);
            }
            let ghost ev = m@;
            let mut k: usize = 0;
            while k < m.entries.len()
                invariant
                    k <= m.entries.len(),
                    ev == m@,
                    c == dep_context(resources@, inputs@, with_inputs),
                    typed_deps_model(out@) == start + entries_deps(ev.take(k as int), c),
                    decreases_to!(*value => *m),
                decreases m.entries.len() - k,
            {
                proof {
                    assert(decreases_to!(*m => m.entries));
                    assert(decreases_to!(m.entries => m.entries@[k as int]));
                    assert(decreases_to!(m.entries@[k as int] => m.entries@[k as int].1));
                    let t = ev.take(k + 1);
                    assert(t.subrange(0, t.len() - 1) =~= ev.take(k as int));
                }
                collect_typed_dependencies(
                    m.entries[k].0.as_str(),
                    &m.entries[k].1,
                    resources,
                    inputs,
                    with_inputs,
                    out,
                );
                k += 1;
            }
            proof {
                assert(ev.take(m.entries.len() as int) =~= ev);
            }
        },
        _ => {
            proof {
                assert(typed_deps_model(out@) =~= start + value_deps(key@, value@, c));
            }
        },
    }
}

/// A copy of a typed dependency.
fn copy_typed_dep(d: &TypedDependency) -> (r: TypedDependency)
    ensures
        r@ == d@,
{
    TypedDependency {
        target: copy_string(&d.target),
        target_type: match &d.target_type {
            Some(p) => Some(copy_path(p)),
            None => None,
        },
        attribute: copy_string(&d.attribute),
        used_in: copy_string(&d.used_in),
    }
}

/// Build the typed dependency graph of a list of resources.
fn build_typed_graph(resources: &Vec<Resource>, inputs: &Vec<InputParameter>, with_inputs: bool) -> (g: TypedDependencyGraph)
    ensures
        g.wf(),
        g.edges_model() == deps_graph(resources_model(resources@), dep_context(resources@, inputs@, with_inputs)),
{
    let ghost c = dep_context(resources@, inputs@, with_inputs);
    let ghost rm = resources_model(resources@);
    let mut graph = TypedDependencyGraph::new();
    let mut i: usize = 0;
    while i < resources.len()
        invariant
            i <= resources.len(),
            c == dep_context(resources@, inputs@, with_inputs),
            rm == resources_model(resources@),
            graph.wf(),
            graph.edges_model() == deps_graph(rm.take(i as int), c),
        decreases resources.len() - i,
    {
        let resource = &resources[i];
        let binding_name = binding_name_of(resource);
        let mut deps: Vec<TypedDependency> = Vec::new();
        let ghost attrs = resource.attributes@;
        let mut k: usize = 0;
        while k < resource.attributes.entries.len()
            invariant
                k <= resource.attributes.entries.len(),
                attrs == resource.attributes@,
                c == dep_context(resources@, inputs@, with_inputs),
                typed_deps_model(deps@) == resource_deps(attrs.take(k as int), c),
            decreases resource.attributes.entries.len() - k,
        {
            proof {
                assert(attrs.take(k + 1).drop_last() =~= attrs.take(k as int));
                assert(attrs.take(k + 1).last() == attrs[k as int]);
            }
            let key = &resource.attributes.entries[k].0;
            let kc = chars_of(key.as_str());
            let internal = kc.len() > 0 && kc[0] == '_';
            if !internal {
                collect_typed_dependencies(key.as_str(), &resource.attributes.entries[k].1, resources, inputs, with_inputs, &mut deps);
            } else {
                proof {
                    assert(Seq::<TypedDepModel>::empty() + resource_deps(attrs.take(k as int), c) =~= resource_deps(attrs.take(k as int), c));
                }
            }
            k += 1;
        }
        proof {
            assert(attrs.take(resource.attributes.entries.len() as int) =~= attrs);
        }
        let ghost g0 = graph.edges_model();
        let ghost dm = typed_deps_model(deps@);
        let mut j: usize = 0;
        while j < deps.len()
            invariant
                j <= deps.len(),
                dm == typed_deps_model(deps@),
                graph.wf(),
                graph.edges_model() == group_add_all(g0, binding_name@, dm.take(j as int)),
            decreases deps.len() - j,
        {
            proof {
                assert(dm.take(j + 1).drop_last() =~= dm.take(j as int));
            }
            let d = copy_typed_dep(&deps[j]);
            graph.add_edge(copy_string(&binding_name), d);
            j += 1;
        }
        proof {
            assert(dm.take(deps.len() as int) =~= dm);
            assert(rm.take(i + 1).drop_last() =~= rm.take(i as int));
            assert(rm.take(i + 1).last() == res_view(resources@[i as int]));
        }
        i += 1;
    }
    proof {
        assert(rm.take(resources.len() as int) =~= rm);
    }
    graph
}


// ---------------------------------------------------------------------------
// Signatures
// ---------------------------------------------------------------------------

/// Typed input parameter for module signature
#[derive(Debug, Clone)]
pub struct TypedInput {
    /// Input parameter name
    pub name: String,
    /// Type expression (including ref types)
    pub type_expr: TypeExpr,
    /// Whether this input is required (no default)
    pub required: bool,
    /// Default value as a display string
    pub default: Option<String>,
}

impl View for TypedInput {
    type V = (Seq<char>, TypeModel, bool, Option<Seq<char>>);

    open spec fn view(&self) -> (Seq<char>, TypeModel, bool, Option<Seq<char>>) {
        (self.name@, self.type_expr@, self.required, opt_str_view(self.default))
    }
}

/// Resource creation entry in module signature
#[derive(Debug, Clone)]
pub struct ResourceCreation {
    /// Binding name for this resource
    pub binding_name: String,
    /// Full resource type path (e.g., aws.security_group)
    pub resource_type: ResourceTypePath,
    /// Dependencies on other resources or inputs
    pub dependencies: Vec<TypedDependency>,
}

impl View for ResourceCreation {
    type V = (Seq<char>, (Seq<char>, Seq<char>), Seq<TypedDepModel>);

    open spec fn view(&self) -> (Seq<char>, (Seq<char>, Seq<char>), Seq<TypedDepModel>) {
        (self.binding_name@, self.resource_type@, typed_deps_model(self.dependencies@))
    }
}

/// Typed output parameter for module signature
#[derive(Debug, Clone)]
pub struct TypedOutput {
    /// Output parameter name
    pub name: String,
    /// Type expression (including ref types)
    pub type_expr: TypeExpr,
    /// Source binding name (if the output comes from a resource)
    pub source_binding: Option<String>,
}

impl View for TypedOutput {
    type V = (Seq<char>, TypeModel, Option<Seq<char>>);

    open spec fn view(&self) -> (Seq<char>, TypeModel, Option<Seq<char>>) {
        (self.name@, self.type_expr@, opt_str_view(self.source_binding))
    }
}

/// Information about an imported module
#[derive(Debug, Clone)]
pub struct ImportInfo {
    pub path: String,
    pub alias: String,
}

/// Information about a module instantiation
#[derive(Debug, Clone)]
pub struct ModuleCallInfo {
    pub module_name: String,
    pub binding_name: Option<String>,
    pub arguments: Vec<String>,
}

/// Signature for a root configuration file (not a module definition)
#[derive(Debug, Clone)]
pub struct RootConfigSignature {
    /// File name
    pub name: String,
    /// Imported modules
    pub imports: Vec<ImportInfo>,
    /// Resources created directly
    pub resources: Vec<ResourceCreation>,
    /// Module instantiations
    pub module_calls: Vec<ModuleCallInfo>,
    /// Typed dependency graph
    pub dependency_graph: TypedDependencyGraph,
}

/// Module signature containing typed information about inputs, outputs, and resources
#[derive(Debug, Clone)]
pub struct ModuleSignature {
    /// Module name
    pub name: String,
    /// Inputs with types (what the module requires)
    pub inputs: Vec<TypedInput>,
    /// Resources created by this module
    pub creates: Vec<ResourceCreation>,
    /// Exposed outputs with types
    pub exposes: Vec<TypedOutput>,
    /// Typed dependency graph
    pub dependency_graph: TypedDependencyGraph,
}

/// Enum to represent either a module or a root configuration file signature
#[derive(Debug, Clone)]
pub enum FileSignature {
    Module(ModuleSignature),
    RootConfig(RootConfigSignature),
}

/// The signature entry of an input: required when it has no default; the
/// default is shown as text.
pub open spec fn input_entry(p: ParamModel) -> (Seq<char>, TypeModel, bool, Option<Seq<char>>) {
    (
        p.0,
        p.1,
        p.2 is None,
        match p.2 {
            Some(v) => Some(value_display(v)),
            None => None,
        },
    )
}

/// The binding an output's value comes from, when it is a reference.
pub open spec fn output_source(v: Option<ValueModel>) -> Option<Seq<char>> {
    match v {
        Some(ValueModel::ResourceRef(b, _)) => Some(b),
        Some(ValueModel::TypedResourceRef { binding_name, .. }) => Some(binding_name),
        _ => None,
    }
}

/// The signature entry of an output.
pub open spec fn output_entry(p: ParamModel) -> (Seq<char>, TypeModel, Option<Seq<char>>) {
    (p.0, p.1, output_source(p.2))
}

/// The creation entry of a resource, with the dependencies the graph
/// records for its binding.
pub open spec fn creation_entry(r: ResModel, g: Groups<TypedDepModel>) -> (Seq<char>, (Seq<char>, Seq<char>), Seq<TypedDepModel>) {
    (binding_of(r), type_path_of(r), deps_under(g, binding_of(r)))
}

/// The context in which a file's dependencies are typed.
pub open spec fn file_context(p: crate::parser::ParsedModel, with_inputs: bool) -> DepContext {
    DepContext { resources: p.resources, inputs: p.inputs, with_inputs }
}

/// Whether the creation entries are those of the resources over a graph.
pub open spec fn creations_match(c: Seq<ResourceCreation>, rs: Seq<ResModel>, g: Groups<TypedDepModel>) -> bool {
    c.len() == rs.len() && forall|i: int| 0 <= i < c.len() ==> (#[trigger] c[i])@ == creation_entry(rs[i], g)
}

/// Whether a module signature is the one of a parsed file under a name.
pub open spec fn module_signature_of(m: ModuleSignature, p: crate::parser::ParsedModel, name: Seq<char>) -> bool {
    &&& m.name@ == name
    &&& m.inputs.len() == p.inputs.len()
    &&& forall|i: int| 0 <= i < p.inputs.len() ==> (#[trigger] m.inputs@[i])@ == input_entry(p.inputs[i])
    &&& m.dependency_graph.wf()
    &&& m.dependency_graph.edges_model() == deps_graph(p.resources, file_context(p, true))
    &&& creations_match(m.creates@, p.resources, m.dependency_graph.edges_model())
    &&& m.exposes.len() == p.outputs.len()
    &&& forall|i: int| 0 <= i < p.outputs.len() ==> (#[trigger] m.exposes@[i])@ == output_entry(p.outputs[i])
}

/// Whether a root configuration signature is the one of a parsed file under
/// a name.
pub open spec fn root_signature_of(s: RootConfigSignature, p: crate::parser::ParsedModel, name: Seq<char>) -> bool {
    &&& s.name@ == name
    &&& s.imports.len() == p.imports.len()
    &&& forall|i: int| 0 <= i < p.imports.len() ==> ((#[trigger] s.imports@[i]).path@, s.imports@[i].alias@) == p.imports[i]
    &&& s.dependency_graph.wf()
    &&& s.dependency_graph.edges_model() == deps_graph(p.resources, file_context(p, false))
    &&& creations_match(s.resources@, p.resources, s.dependency_graph.edges_model())
    &&& s.module_calls.len() == p.module_calls.len()
    &&& forall|i: int| 0 <= i < p.module_calls.len() ==> {
        let c = #[trigger] s.module_calls@[i];
        &&& c.module_name@ == p.module_calls[i].0
        &&& opt_str_view(c.binding_name) == p.module_calls[i].1
        &&& names_model(c.arguments@) == keys_of(p.module_calls[i].2)
    }
}

/// Whether every input default of a file can be shown.
pub open spec fn defaults_showable(p: crate::parser::ParsedModel) -> bool {
    forall|i: int| 0 <= i < p.inputs.len() ==> ((#[trigger] p.inputs[i]).2 matches Some(v) ==> value_showable(v))
}

/// Whether a file is a module definition (it has top-level inputs or outputs).
pub open spec fn is_module_file(p: crate::parser::ParsedModel) -> bool {
    p.inputs.len() > 0 || p.outputs.len() > 0
}

/// The creation entries of the resources.
fn build_creations(resources: &Vec<Resource>, graph: &TypedDependencyGraph) -> (r: Vec<ResourceCreation>)
    ensures
        creations_match(r@, resources_model(resources@), graph.edges_model()),
{
    let ghost rm = resources_model(resources@);
    let mut creates: Vec<ResourceCreation> = Vec::new();
    let mut i: usize = 0;
    while i < resources.len()
        invariant
            i <= resources.len(),
            rm == resources_model(resources@),
            creates.len() == i,
            forall|j: int| 0 <= j < i ==> (#[trigger] creates@[j])@ == creation_entry(rm[j], graph.edges_model()),
        decreases resources.len() - i,
    {
        let binding_name = binding_name_of(&resources[i]);
        let resource_type = type_path_of_resource(&resources[i]);
        let found = graph.dependencies_of(binding_name.as_str());
        let mut dependencies: Vec<TypedDependency> = Vec::new();
        let mut k: usize = 0;
        while k < found.len()
            invariant
                k <= found.len(),
                typed_deps_model(dependencies@) == typed_deps_model(found@).take(k as int),
            decreases found.len() - k,
        {
            let ghost before = typed_deps_model(dependencies@);
            dependencies.push(copy_typed_dep(&found[k]));
            proof {
                assert(typed_deps_model(dependencies@) =~= before.push(found@[k as int]@));
                assert(typed_deps_model(found@).take(k + 1) =~= typed_deps_model(found@).take(k as int).push(found@[k as int]@));
            }
            k += 1;
        }
        proof {
            assert(typed_deps_model(found@).take(found.len() as int) =~= typed_deps_model(found@));
        }
        creates.push(ResourceCreation { binding_name, resource_type, dependencies });
        i += 1;
    }
    creates
}

proof fn lemma_file_models(parsed: &ParsedFile)
    ensures
        resources_model(parsed.resources@) == parsed@.resources,
        inputs_model(parsed.inputs@) == parsed@.inputs,
{
    assert(resources_model(parsed.resources@) =~= parsed@.resources);
    assert(inputs_model(parsed.inputs@) =~= parsed@.inputs);
}

impl ModuleSignature {
    /// Build a module signature from a directory-based module (ParsedFile with top-level inputs/outputs)
    pub fn from_directory_module(parsed: &ParsedFile, module_name: &str) -> (r: Self)
        requires
            defaults_showable(parsed@),
        ensures
            module_signature_of(r, parsed@, module_name@),
    {
        proof {
            lemma_file_models(parsed);
        }
        // Build requires (typed inputs)
        let mut inputs: Vec<TypedInput> = Vec::new();
        let mut i: usize = 0;
        while i < parsed.inputs.len()
            invariant
                i <= parsed.inputs.len(),
                defaults_showable(parsed@),
                inputs.len() == i,
                forall|j: int| 0 <= j < i ==> (#[trigger] inputs@[j])@ == input_entry(parsed@.inputs[j]),
            decreases parsed.inputs.len() - i,
        {
            let input = &parsed.inputs[i];
            proof {
                assert(parsed@.inputs[i as int] == input@);
            }
            let default = match &input.default {
                Some(v) => Some(format_value(v)),
                None => None,
            };
            inputs.push(TypedInput {
                name: copy_string(&input.name),
                type_expr: input.type_expr.copy(),
                required: input.default.is_none(),
                default,
            });
            i += 1;
        }

        // Build typed dependency graph from resource attributes
        let typed_graph = build_typed_graph(&parsed.resources, &parsed.inputs, true);
        let creates = build_creations(&parsed.resources, &typed_graph);

        // Build exposes (typed outputs)
        let mut exposes: Vec<TypedOutput> = Vec::new();
        let mut i: usize = 0;
        while i < parsed.outputs.len()
            invariant
                i <= parsed.outputs.len(),
                exposes.len() == i,
                forall|j: int| 0 <= j < i ==> (#[trigger] exposes@[j])@ == output_entry(parsed@.outputs[j]),
            decreases parsed.outputs.len() - i,
        {
            let output = &parsed.outputs[i];
            proof {
                assert(parsed@.outputs[i as int] == output@);
            }
            let source_binding = match &output.value {
                Some(Value::ResourceRef(binding, _)) => Some(copy_string(binding)),
                Some(Value::TypedResourceRef { binding_name, .. }) => Some(copy_string(binding_name)),
                _ => None,
            };
            exposes.push(TypedOutput {
                name: copy_string(&output.name),
                type_expr: output.type_expr.copy(),
                source_binding,
            });
            i += 1;
        }

        ModuleSignature {
            name: str_to_string(module_name),
            inputs,
            creates,
            exposes,
            dependency_graph: typed_graph,
        }
    }
}

impl RootConfigSignature {
    /// Build a root config signature from a parsed file
    pub fn from_parsed_file(parsed: &ParsedFile, file_name: &str) -> (r: Self)
        ensures
            root_signature_of(r, parsed@, file_name@),
    {
        proof {
            lemma_file_models(parsed);
        }
        // Build imports
        let mut imports: Vec<ImportInfo> = Vec::new();
        let mut i: usize = 0;
        while i < parsed.imports.len()
            invariant
                i <= parsed.imports.len(),
                imports.len() == i,
                forall|j: int| 0 <= j < i ==> ((#[trigger] imports@[j]).path@, imports@[j].alias@) == parsed@.imports[j],
            decreases parsed.imports.len() - i,
        {
            imports.push(ImportInfo {
                path: copy_string(&parsed.imports[i].path),
                alias: copy_string(&parsed.imports[i].alias),
            });
            i += 1;
        }

        // Build module calls info
        let mut module_calls: Vec<ModuleCallInfo> = Vec::new();
        let mut i: usize = 0;
        while i < parsed.module_calls.len()
            invariant
                i <= parsed.module_calls.len(),
                module_calls.len() == i,
                forall|j: int| 0 <= j < i ==> {
                    let c = #[trigger] module_calls@[j];
                    &&& c.module_name@ == parsed@.module_calls[j].0
                    &&& opt_str_view(c.binding_name) == parsed@.module_calls[j].1
                    &&& names_model(c.arguments@) == keys_of(parsed@.module_calls[j].2)
                },
            decreases parsed.module_calls.len() - i,
        {
            let call = &parsed.module_calls[i];
            let arguments = call.arguments.keys();
            proof {
                assert(names_model(arguments@) =~= keys_of(call.arguments@));
            }
            module_calls.push(ModuleCallInfo {
                module_name: copy_string(&call.module_name),
                binding_name: match &call.binding_name {
                    Some(b) => Some(copy_string(b)),
                    None => None,
                },
                arguments,
            });
            i += 1;
        }

        // Build typed dependency graph
        let typed_graph = build_typed_graph(&parsed.resources, &parsed.inputs, false);
        let creates = build_creations(&parsed.resources, &typed_graph);

        RootConfigSignature {
            name: str_to_string(file_name),
            imports,
            resources: creates,
            module_calls,
            dependency_graph: typed_graph,
        }
    }
}

impl FileSignature {
    /// Create from a parsed file
    /// For directory-based modules (files with top-level input/output blocks),
    /// the module name is derived from the directory name or file name.
    pub fn from_parsed_file(parsed: &ParsedFile, file_name: &str) -> (r: Self)
        requires
            defaults_showable(parsed@),
        ensures
            match r {
                FileSignature::Module(m) => is_module_file(parsed@) && module_signature_of(m, parsed@, file_name@),
                FileSignature::RootConfig(c) => !is_module_file(parsed@) && root_signature_of(c, parsed@, file_name@),
            },
    {
        // Check for directory-based module (has top-level inputs or outputs)
        if parsed.inputs.len() > 0 || parsed.outputs.len() > 0 {
            return FileSignature::Module(ModuleSignature::from_directory_module(parsed, file_name));
        }
        // Otherwise, treat as a root configuration file
        FileSignature::RootConfig(RootConfigSignature::from_parsed_file(parsed, file_name))
    }

    /// Create from a parsed file with a specific module name
    /// Use this when you know the module name (e.g., from directory structure)
    pub fn from_parsed_file_with_name(parsed: &ParsedFile, module_name: &str) -> (r: Self)
        requires
            defaults_showable(parsed@),
        ensures
            match r {
                FileSignature::Module(m) => is_module_file(parsed@) && module_signature_of(m, parsed@, module_name@),
                FileSignature::RootConfig(c) => !is_module_file(parsed@) && root_signature_of(c, parsed@, module_name@),
            },
    {
        Self::from_parsed_file(parsed, module_name)
    }
}

// ---------------------------------------------------------------------------
// Showing signatures
// ---------------------------------------------------------------------------

/// The terminal color codes a display uses (all empty without color).
pub struct Palette {
    pub bold: Seq<char>,
    pub reset: Seq<char>,
    pub dim: Seq<char>,
    pub green: Seq<char>,
    pub yellow: Seq<char>,
    pub blue: Seq<char>,
    pub cyan: Seq<char>,
    pub white: Seq<char>,
}

/// The ANSI codes, or nothing at all.
pub open spec fn palette(use_color: bool) -> Palette {
    if use_color {
        Palette {
            bold: "\x1b[1m"@,
            reset: "\x1b[0m"@,
            dim: "\x1b[2m"@,
            green: "\x1b[32m"@,
            yellow: "\x1b[33m"@,
            blue: "\x1b[34m"@,
            cyan: "\x1b[36m"@,
            white: "\x1b[97m"@,
        }
    } else {
        Palette {
            bold: Seq::empty(),
            reset: Seq::empty(),
            dim: Seq::empty(),
            green: Seq::empty(),
            yellow: Seq::empty(),
            blue: Seq::empty(),
            cyan: Seq::empty(),
            white: Seq::empty(),
        }
    }
}

/// ANSI color codes for terminal output
struct Colors {
    bold: &'static str,
    reset: &'static str,
    dim: &'static str,
    green: &'static str,
    yellow: &'static str,
    blue: &'static str,
    cyan: &'static str,
    white: &'static str,
}

impl View for Colors {
    type V = Palette;

    closed spec fn view(&self) -> Palette {
        Palette {
            bold: self.bold@,
            reset: self.reset@,
            dim: self.dim@,
            green: self.green@,
            yellow: self.yellow@,
            blue: self.blue@,
            cyan: self.cyan@,
            white: self.white@,
        }
    }
}

impl Colors {
    fn new(use_color: bool) -> (r: Self)
        ensures
            r@ == palette(use_color),
    {
        if use_color {
            Colors {
                bold: "\x1b[1m",
                reset: "\x1b[0m",
                dim: "\x1b[2m",
                green: "\x1b[32m",
                yellow: "\x1b[33m",
                blue: "\x1b[34m",
                cyan: "\x1b[36m",
                white: "\x1b[97m",
            }
        } else {
            proof {
                reveal_strlit("");
                assert(""@ =~= Seq::<char>::empty());
            }
            Colors { bold: "", reset: "", dim: "", green: "", yellow: "", blue: "", cyan: "", white: "" }
        }
    }
}

/// What a tree of creations is drawn from.
pub struct TreeSource {
    /// The dependency graph
    pub g: Groups<TypedDepModel>,
    /// The binding name and type of each creation
    pub creations: Seq<(Seq<char>, (Seq<char>, Seq<char>))>,
    /// For a module, how its `input` node is shown
    pub input_label: Option<Seq<char>>,
    pub c: Palette,
}

/// The type of the first creation bound to a name.
pub open spec fn find_creation(cr: Seq<(Seq<char>, (Seq<char>, Seq<char>))>, name: Seq<char>) -> Option<(Seq<char>, Seq<char>)>
    decreases cr.len(),
{
    if cr.len() == 0 {
        None
    } else if cr[0].0 == name {
        Some(cr[0].1)
    } else {
        find_creation(cr.drop_first(), name)
    }
}

/// A binding with its type, in color.
pub open spec fn typed_name(c: Palette, name: Seq<char>, ty: (Seq<char>, Seq<char>)) -> Seq<char> {
    c.white + name + c.reset + ": "@ + c.yellow + crate::resource::path_text(ty) + c.reset
}

/// How a node of the tree is shown.
pub open spec fn node_label(t: TreeSource, node: Seq<char>) -> Seq<char> {
    if t.input_label is Some && node == "input"@ {
        t.input_label.unwrap()
    } else {
        match find_creation(t.creations, node) {
            Some(ty) => typed_name(t.c, node, ty),
            None => node,
        }
    }
}

/// Whether some dependency targets a name.
pub open spec fn has_target(deps: Seq<TypedDepModel>, node: Seq<char>) -> bool {
    exists|j: int| 0 <= j < deps.len() && deps[j].0 == node
}

/// The resources that depend directly on a node, in graph order.
pub open spec fn dependents(g: Groups<TypedDepModel>, node: Seq<char>) -> Seq<Seq<char>>
    decreases g.len(),
{
    if g.len() == 0 {
        Seq::empty()
    } else {
        dependents(g.drop_last(), node) + if has_target(g.last().1, node) {
            seq![g.last().0]
        } else {
            Seq::empty()
        }
    }
}

/// Whether a dependent of `node` reaches it through another dependent of it.
pub open spec fn through_other(g: Groups<TypedDepModel>, node: Seq<char>, child: Seq<char>, all: Seq<Seq<char>>) -> bool {
    exists|j: int|
        0 <= j < deps_under(g, child).len() && deps_under(g, child)[j].0 != node && all.contains(
            deps_under(g, child)[j].0,
        )
}

/// The dependents that do not reach `node` through another dependent.
pub open spec fn direct_only(g: Groups<TypedDepModel>, node: Seq<char>, ds: Seq<Seq<char>>, all: Seq<Seq<char>>) -> Seq<Seq<char>>
    decreases ds.len(),
{
    if ds.len() == 0 {
        Seq::empty()
    } else {
        direct_only(g, node, ds.drop_last(), all) + if through_other(g, node, ds.last(), all) {
            Seq::empty()
        } else {
            seq![ds.last()]
        }
    }
}

/// A name inserted before the first name it comes before.
pub open spec fn insert_sorted(s: Seq<Seq<char>>, x: Seq<char>) -> Seq<Seq<char>>
    decreases s.len(),
{
    if s.len() == 0 {
        seq![x]
    } else if crate::text::lex_lt(x, s[0]) {
        seq![x] + s
    } else {
        seq![s[0]] + insert_sorted(s.drop_first(), x)
    }
}

/// The names in lexicographic order (insertion sort).
pub open spec fn sort_names(s: Seq<Seq<char>>) -> Seq<Seq<char>>
    decreases s.len(),
{
    if s.len() == 0 {
        Seq::empty()
    } else {
        insert_sorted(sort_names(s.drop_last()), s.last())
    }
}

/// The children drawn under a node: its direct dependents, sorted.
pub open spec fn tree_children(g: Groups<TypedDepModel>, node: Seq<char>) -> Seq<Seq<char>> {
    sort_names(direct_only(g, node, dependents(g, node), dependents(g, node)))
}

/// The connector drawn before a node.
pub open spec fn connector(c: Palette, is_last: bool, is_root: bool) -> Seq<char> {
    if is_root {
        Seq::empty()
    } else if is_last {
        c.dim + "└── "@ + c.reset
    } else {
        c.dim + "├── "@ + c.reset
    }
}

/// The prefix of the lines below a node.
pub open spec fn child_prefix(c: Palette, prefix: Seq<char>, is_last: bool, is_root: bool) -> Seq<char> {
    if is_root {
        prefix + "  "@
    } else if is_last {
        prefix + " "@ + "  "@
    } else {
        prefix + c.dim + "│"@ + c.reset + "  "@
    }
}

/// The lines drawn for a node and everything below it not visited yet,
/// with the names visited afterwards; `fuel` bounds the depth.
pub open spec fn tree_lines(
    t: TreeSource,
    fuel: nat,
    node: Seq<char>,
    prefix: Seq<char>,
    is_last: bool,
    visited: Seq<Seq<char>>,
    is_root: bool,
) -> (Seq<char>, Seq<Seq<char>>)
    decreases fuel, 0nat, 0nat,
{
    if fuel == 0 || visited.contains(node) {
        (Seq::empty(), visited)
    } else {
        let line = prefix + connector(t.c, is_last, is_root) + node_label(t, node) + "\n"@;
        let kids = tree_children(t.g, node);
        let rest = forest_lines(
            t,
            (fuel - 1) as nat,
            kids,
            kids.len(),
            child_prefix(t.c, prefix, is_last, is_root),
            visited.push(node),
            false,
        );
        (line + rest.0, rest.1)
    }
}

/// The trees of the first `n` nodes, drawn one after the other; as roots,
/// each is drawn as a last root, otherwise the final node is the last child.
pub open spec fn forest_lines(
    t: TreeSource,
    fuel: nat,
    nodes: Seq<Seq<char>>,
    n: nat,
    prefix: Seq<char>,
    visited: Seq<Seq<char>>,
    as_roots: bool,
) -> (Seq<char>, Seq<Seq<char>>)
    decreases fuel, 1nat, n,
{
    if n == 0 || n > nodes.len() {
        (Seq::empty(), visited)
    } else {
        let before = forest_lines(t, fuel, nodes, (n - 1) as nat, prefix, visited, as_roots);
        let last = as_roots || n == nodes.len();
        let this = tree_lines(t, fuel, nodes[n - 1], prefix, last, before.1, as_roots);
        (before.0 + this.0, this.1)
    }
}

/// Enough depth for any tree of a graph: a branch passes each resource at
/// most once.
pub open spec fn tree_fuel(g: Groups<TypedDepModel>) -> nat {
    if g.len() < usize::MAX {
        g.len() + 1
    } else {
        usize::MAX as nat
    }
}

/// What a tree is drawn from, for a list of creations.
pub open spec fn tree_source(
    g: Groups<TypedDepModel>,
    creations: Seq<ResourceCreation>,
    input_label: Option<Seq<char>>,
    c: Palette,
) -> TreeSource {
    TreeSource {
        g,
        creations: Seq::new(creations.len(), |i: int| (creations[i].binding_name@, creations[i].resource_type@)),
        input_label,
        c,
    }
}

/// The resources that depend directly on a node.
fn direct_dependents(g: &TypedDependencyGraph, node: &str) -> (r: Vec<String>)
    ensures
        names_model(r@) == dependents(g.edges_model(), node@),
{
    let ghost gm = g.edges_model();
    let mut out: Vec<String> = Vec::new();
    let mut i: usize = 0;
    while i < g.edges.len()
        invariant
            i <= g.edges.len(),
            gm == g.edges_model(),
            names_model(out@) == dependents(gm.take(i as int), node@),
        decreases g.edges.len() - i,
    {
        proof {
            assert(gm.take(i + 1).drop_last() =~= gm.take(i as int));
            assert(gm.take(i + 1).last() == gm[i as int]);
        }
        let deps = &g.edges[i].1;
        let ghost dm = typed_deps_model(deps@);
        let mut found = false;
        let mut k: usize = 0;
        while k < deps.len()
            invariant
                k <= deps.len(),
                dm == typed_deps_model(deps@),
                found == exists|j: int| 0 <= j < k && dm[j].0 == node@,
            decreases deps.len() - k,
        {
            proof {
                assert(dm[k as int] == deps@[k as int]@);
            }
            if str_eq(deps[k].target.as_str(), node) {
                found = true;
            }
            k += 1;
        }
        proof {
            assert(gm[i as int].1 == dm);
        }
        if found {
            let ghost before = names_model(out@);
            out.push(copy_string(&g.edges[i].0));
            proof {
                assert(names_model(out@) =~= before + seq![gm[i as int].0]);
            }
        } else {
            proof {
                assert(dependents(gm.take(i + 1), node@) =~= dependents(gm.take(i as int), node@));
            }
        }
        i += 1;
    }
    proof {
        assert(gm.take(g.edges.len() as int) =~= gm);
    }
    out
}

/// The dependents of `node` that do not reach it through another one.
fn keep_direct(g: &TypedDependencyGraph, node: &str, ds: &Vec<String>) -> (r: Vec<String>)
    ensures
        names_model(r@) == direct_only(g.edges_model(), node@, names_model(ds@), names_model(ds@)),
{
    let ghost gm = g.edges_model();
    let ghost all = names_model(ds@);
    let mut out: Vec<String> = Vec::new();
    let mut i: usize = 0;
    while i < ds.len()
        invariant
            i <= ds.len(),
            gm == g.edges_model(),
            all == names_model(ds@),
            names_model(out@) == direct_only(gm, node@, all.take(i as int), all),
        decreases ds.len() - i,
    {
        proof {
            assert(all.take(i + 1).drop_last() =~= all.take(i as int));
            assert(all.take(i + 1).last() == ds@[i as int]@);
        }
        let child_deps = g.dependencies_of(ds[i].as_str());
        let ghost cd = typed_deps_model(child_deps@);
        let mut through = false;
        let mut k: usize = 0;
        while k < child_deps.len()
            invariant
                k <= child_deps.len(),
                cd == typed_deps_model(child_deps@),
                all == names_model(ds@),
                through == exists|j: int| 0 <= j < k && cd[j].0 != node@ && all.contains(cd[j].0),
            decreases child_deps.len() - k,
        {
            proof {
                assert(cd[k as int] == child_deps@[k as int]@);
            }
            let t = child_deps[k].target.as_str();
            if !str_eq(t, node) && crate::graph::names_contain(ds, t) {
                through = true;
            }
            k += 1;
        }
        proof {
            assert(cd == deps_under(gm, ds@[i as int]@));
        }
        if !through {
            let ghost before = names_model(out@);
            out.push(copy_string(&ds[i]));
            proof {
                assert(names_model(out@) =~= before + seq![ds@[i as int]@]);
            }
        } else {
            proof {
                assert(direct_only(gm, node@, all.take(i + 1), all) =~= direct_only(gm, node@, all.take(i as int), all));
            }
        }
        i += 1;
    }
    proof {
        assert(all.take(ds.len() as int) =~= all);
    }
    out
}

proof fn lemma_insert_sorted_at(s: Seq<Seq<char>>, x: Seq<char>, p: int)
    requires
        0 <= p <= s.len(),
        forall|j: int| 0 <= j < p ==> !crate::text::lex_lt(x, #[trigger] s[j]),
        p < s.len() ==> crate::text::lex_lt(x, s[p]),
    ensures
        insert_sorted(s, x) == s.insert(p, x),
    decreases s.len(),
{
    if s.len() == 0 {
        assert(s.insert(p, x) =~= seq![x]);
    } else if p == 0 {
        assert(s.insert(0, x) =~= seq![x] + s);
    } else {
        let r = s.drop_first();
        assert forall|j: int| 0 <= j < p - 1 implies !crate::text::lex_lt(x, #[trigger] r[j]) by {
            assert(r[j] == s[j + 1]);
        }
        lemma_insert_sorted_at(r, x, p - 1);
        assert(seq![s[0]] + r.insert(p - 1, x) =~= s.insert(p, x));
    }
}

/// The names in lexicographic order.
pub fn sort_strings(v: &Vec<String>) -> (r: Vec<String>)
    ensures
        names_model(r@) == sort_names(names_model(v@)),
{
    let ghost vm = names_model(v@);
    let mut out: Vec<String> = Vec::new();
    let mut i: usize = 0;
    while i < v.len()
        invariant
            i <= v.len(),
            vm == names_model(v@),
            names_model(out@) == sort_names(vm.take(i as int)),
        decreases v.len() - i,
    {
        proof {
            assert(vm.take(i + 1).drop_last() =~= vm.take(i as int));
            assert(vm.take(i + 1).last() == v@[i as int]@);
        }
        let x = v[i].as_str();
        let ghost om = names_model(out@);
        let mut p: usize = 0;
        let mut done = false;
        while p < out.len() && !done
            invariant
                p <= out.len(),
                om == names_model(out@),
                forall|j: int| 0 <= j < p ==> !crate::text::lex_lt(x@, #[trigger] om[j]),
                done ==> p < out.len() && crate::text::lex_lt(x@, om[p as int]),
            decreases out.len() - p + if done { 0int } else { 1int },
        {
            if crate::text::str_lt(x, out[p].as_str()) {
                done = true;
            } else {
                p += 1;
            }
        }
        proof {
            lemma_insert_sorted_at(om, x@, p as int);
        }
        out.insert(p, copy_string(&v[i]));
        proof {
            assert(names_model(out@) =~= om.insert(p as int, x@));
        }
        i += 1;
    }
    proof {
        assert(vm.take(v.len() as int) =~= vm);
    }
    out
}

/// The children drawn under a node.
fn children_of(g: &TypedDependencyGraph, node: &str) -> (r: Vec<String>)
    ensures
        names_model(r@) == tree_children(g.edges_model(), node@),
{
    let direct = direct_dependents(g, node);
    let kept = keep_direct(g, node, &direct);
    sort_strings(&kept)
}

proof fn lemma_find_creation_at(cr: Seq<(Seq<char>, (Seq<char>, Seq<char>))>, name: Seq<char>, k: int)
    requires
        0 <= k <= cr.len(),
        forall|j: int| 0 <= j < k ==> (#[trigger] cr[j]).0 != name,
    ensures
        k < cr.len() && cr[k].0 == name ==> find_creation(cr, name) == Some(cr[k].1),
        k == cr.len() ==> find_creation(cr, name) is None,
    decreases k,
{
    if k > 0 {
        let r = cr.drop_first();
        assert forall|j: int| 0 <= j < k - 1 implies (#[trigger] r[j]).0 != name by {
            assert(r[j] == cr[j + 1]);
        }
        lemma_find_creation_at(r, name, k - 1);
    }
}

/// How a node of the tree is shown.
fn node_label_text(
    creations: &Vec<ResourceCreation>,
    input_label: &Option<String>,
    c: &Colors,
    node: &str,
    Ghost(g): Ghost<Groups<TypedDepModel>>,
) -> (r: String)
    ensures
        r@ == node_label(tree_source(g, creations@, opt_str_view(*input_label), c@), node@),
{
    let ghost t = tree_source(g, creations@, opt_str_view(*input_label), c@);
    proof {
        reveal_strlit("input");
    }
    if let Some(label) = input_label {
        if str_eq(node, "input") {
            return copy_string(label);
        }
    }
    let mut k: usize = 0;
    while k < creations.len()
        invariant
            k <= creations.len(),
            t == tree_source(g, creations@, opt_str_view(*input_label), c@),
            input_label.is_some() ==> node@ != "input"@,
            forall|j: int| 0 <= j < k ==> (#[trigger] t.creations[j]).0 != node@,
        decreases creations.len() - k,
    {
        if str_eq(creations[k].binding_name.as_str(), node) {
            proof {
                lemma_find_creation_at(t.creations, node@, k as int);
            }
            let mut out = str_to_string(c.white);
            push_str(&mut out, node);
            push_str(&mut out, c.reset);
            push_str(&mut out, ": ");
            push_str(&mut out, c.yellow);
            let ty = creations[k].resource_type.to_string();
            push_str(&mut out, ty.as_str());
            push_str(&mut out, c.reset);
            proof {
                assert(t.creations[k as int] == (creations@[k as int].binding_name@, creations@[k as int].resource_type@));
                assert(t.c == c@);
                assert(out@ =~= typed_name(t.c, node@, t.creations[k as int].1));
                assert(find_creation(t.creations, node@) == Some(t.creations[k as int].1));
                if input_label.is_some() {
                    assert(node@ != "input"@);
                }
            }
            return out;
        }
        k += 1;
    }
    proof {
        lemma_find_creation_at(t.creations, node@, k as int);
    }
    str_to_string(node)
}

/// Draw a node and, below it, the nodes depending on it not drawn yet.
fn show_tree(
    out: &mut String,
    g: &TypedDependencyGraph,
    creations: &Vec<ResourceCreation>,
    input_label: &Option<String>,
    c: &Colors,
    node: &str,
    prefix: &str,
    is_last: bool,
    visited: &mut Vec<String>,
    is_root: bool,
    fuel: usize,
)
    ensures
        ({
            let t = tree_lines(
                tree_source(g.edges_model(), creations@, opt_str_view(*input_label), c@),
                fuel as nat,
                node@,
                prefix@,
                is_last,
                names_model(old(visited)@),
                is_root,
            );
            final(out)@ == old(out)@ + t.0 && names_model(final(visited)@) == t.1
        }),
    decreases fuel,
{
    let ghost t = tree_source(g.edges_model(), creations@, opt_str_view(*input_label), c@);
    let ghost v0 = names_model(visited@);
    let ghost start = out@;
    if fuel == 0 || crate::graph::names_contain(visited, node) {
        proof {
            assert(out@ =~= start + Seq::<char>::empty());
        }
        return;
    }
    visited.push(str_to_string(node));
    proof {
        assert(names_model(visited@) =~= v0.push(node@));
    }
    push_str(out, prefix);
    if !is_root {
        push_str(out, c.dim);
        if is_last {
            push_str(out, "└── ");
        } else {
            push_str(out, "├── ");
        }
        push_str(out, c.reset);
    }
    let label = node_label_text(creations, input_label, c, node, Ghost(g.edges_model()));
    push_str(out, label.as_str());
    push_str(out, "\n");
    proof {
        assert(out@ =~= start + (prefix@ + connector(t.c, is_last, is_root) + node_label(t, node@) + "\n"@));
    }
    let ghost line_end = out@;
    let kids = children_of(g, node);
    let ghost km = names_model(kids@);
    let mut new_prefix = str_to_string(prefix);
    if is_root {
        push_str(&mut new_prefix, "  ");
    } else if is_last {
        push_str(&mut new_prefix, " ");
        push_str(&mut new_prefix, "  ");
    } else {
        push_str(&mut new_prefix, c.dim);
        push_str(&mut new_prefix, "│");
        push_str(&mut new_prefix, c.reset);
        push_str(&mut new_prefix, "  ");
    }
    proof {
        assert(new_prefix@ == child_prefix(t.c, prefix@, is_last, is_root));
    }
    let mut k: usize = 0;
    while k < kids.len()
        invariant
            k <= kids.len(),
            fuel > 0,
            km == names_model(kids@),
            km == tree_children(t.g, node@),
            t == tree_source(g.edges_model(), creations@, opt_str_view(*input_label), c@),
            new_prefix@ == child_prefix(t.c, prefix@, is_last, is_root),
            ({
                let f = forest_lines(t, (fuel - 1) as nat, km, k as nat, new_prefix@, v0.push(node@), false);
                out@ == line_end + f.0 && names_model(visited@) == f.1
            }),
        decreases kids.len() - k,
    {
        let last = k + 1 == kids.len();
        show_tree(out, g, creations, input_label, c, kids[k].as_str(), new_prefix.as_str(), last, visited, false, fuel - 1);
        k += 1;
    }
}

/// Draw the trees of the roots, one after the other.
fn show_roots(
    out: &mut String,
    g: &TypedDependencyGraph,
    creations: &Vec<ResourceCreation>,
    input_label: &Option<String>,
    c: &Colors,
    roots: &Vec<String>,
    fuel: usize,
)
    ensures
        final(out)@ == old(out)@ + forest_lines(
            tree_source(g.edges_model(), creations@, opt_str_view(*input_label), c@),
            fuel as nat,
            names_model(roots@),
            roots.len() as nat,
            "  "@,
            Seq::empty(),
            true,
        ).0,
{
    let ghost t = tree_source(g.edges_model(), creations@, opt_str_view(*input_label), c@);
    let ghost rm = names_model(roots@);
    let ghost start = out@;
    let mut visited: Vec<String> = Vec::new();
    proof {
        assert(names_model(visited@) =~= Seq::<Seq<char>>::empty());
        reveal_strlit("  ");
    }
    let mut k: usize = 0;
    while k < roots.len()
        invariant
            k <= roots.len(),
            rm == names_model(roots@),
            t == tree_source(g.edges_model(), creations@, opt_str_view(*input_label), c@),
            ({
                let f = forest_lines(t, fuel as nat, rm, k as nat, "  "@, Seq::empty(), true);
                out@ == start + f.0 && names_model(visited@) == f.1
            }),
        decreases roots.len() - k,
    {
        show_tree(out, g, creations, input_label, c, roots[k].as_str(), "  ", true, &mut visited, true, fuel);
        k += 1;
    }
}

/// Every dependency target of a graph, in order (with repeats).
pub open spec fn all_targets(g: Groups<TypedDepModel>) -> Seq<Seq<char>>
    decreases g.len(),
{
    if g.len() == 0 {
        Seq::empty()
    } else {
        all_targets(g.drop_last()) + Seq::new(g.last().1.len(), |j: int| g.last().1[j].0)
    }
}

/// The names without repeats, each where it first occurs.
pub open spec fn dedup(s: Seq<Seq<char>>) -> Seq<Seq<char>>
    decreases s.len(),
{
    if s.len() == 0 {
        Seq::empty()
    } else {
        let d = dedup(s.drop_last());
        if d.contains(s.last()) {
            d
        } else {
            d.push(s.last())
        }
    }
}

/// The names that are not among `keys`.
pub open spec fn not_among(s: Seq<Seq<char>>, keys: Seq<Seq<char>>) -> Seq<Seq<char>>
    decreases s.len(),
{
    if s.len() == 0 {
        Seq::empty()
    } else if keys.contains(s.last()) {
        not_among(s.drop_last(), keys)
    } else {
        not_among(s.drop_last(), keys).push(s.last())
    }
}

/// The roots of the creation tree: the targets that depend on nothing,
/// sorted; for a module, `input` is a root whenever something refers to it.
pub open spec fn root_names(g: Groups<TypedDepModel>, with_input: bool) -> Seq<Seq<char>> {
    let t = all_targets(g);
    let r = not_among(dedup(t), crate::graph::group_keys(g));
    sort_names(
        if with_input && t.contains("input"@) && !r.contains("input"@) {
            r.push("input"@)
        } else {
            r
        },
    )
}

/// The roots of the creation tree.
fn find_root_nodes(g: &TypedDependencyGraph, with_input: bool) -> (r: Vec<String>)
    ensures
        names_model(r@) == root_names(g.edges_model(), with_input),
{
    let ghost gm = g.edges_model();
    // every target, in order
    let mut flat: Vec<String> = Vec::new();
    let mut i: usize = 0;
    while i < g.edges.len()
        invariant
            i <= g.edges.len(),
            gm == g.edges_model(),
            names_model(flat@) == all_targets(gm.take(i as int)),
        decreases g.edges.len() - i,
    {
        proof {
            assert(gm.take(i + 1).drop_last() =~= gm.take(i as int));
            assert(gm.take(i + 1).last() == gm[i as int]);
        }
        let deps = &g.edges[i].1;
        let ghost base = names_model(flat@);
        let ghost dm = typed_deps_model(deps@);
        let mut k: usize = 0;
        while k < deps.len()
            invariant
                k <= deps.len(),
                dm == typed_deps_model(deps@),
                names_model(flat@) == base + Seq::new(k as nat, |j: int| dm[j].0),
            decreases deps.len() - k,
        {
            let ghost before = names_model(flat@);
            proof {
                assert(dm[k as int] == deps@[k as int]@);
            }
            flat.push(copy_string(&deps[k].target));
            proof {
                assert(names_model(flat@) =~= before.push(dm[k as int].0));
            }
            k += 1;
            proof {
                assert(names_model(flat@) =~= base + Seq::new(k as nat, |j: int| dm[j].0));
            }
        }
        proof {
            assert(gm[i as int].1 == dm);
            assert(Seq::new(deps.len() as nat, |j: int| dm[j].0) =~= Seq::new(gm[i as int].1.len(), |j: int| gm[i as int].1[j].0));
        }
        i += 1;
    }
    proof {
        assert(gm.take(g.edges.len() as int) =~= gm);
    }
    let ghost fm = names_model(flat@);
    // without repeats
    let mut uniq: Vec<String> = Vec::new();
    let mut i: usize = 0;
    while i < flat.len()
        invariant
            i <= flat.len(),
            fm == names_model(flat@),
            names_model(uniq@) == dedup(fm.take(i as int)),
        decreases flat.len() - i,
    {
        proof {
            assert(fm.take(i + 1).drop_last() =~= fm.take(i as int));
            assert(fm.take(i + 1).last() == flat@[i as int]@);
        }
        if !crate::graph::names_contain(&uniq, flat[i].as_str()) {
            let ghost before = names_model(uniq@);
            uniq.push(copy_string(&flat[i]));
            proof {
                assert(names_model(uniq@) =~= before.push(flat@[i as int]@));
            }
        }
        i += 1;
    }
    proof {
        assert(fm.take(flat.len() as int) =~= fm);
    }
    // not themselves depending on anything
    let ghost um = names_model(uniq@);
    let ghost keys = crate::graph::group_keys(gm);
    let mut roots: Vec<String> = Vec::new();
    let mut i: usize = 0;
    while i < uniq.len()
        invariant
            i <= uniq.len(),
            um == names_model(uniq@),
            gm == g.edges_model(),
            keys == crate::graph::group_keys(gm),
            names_model(roots@) == not_among(um.take(i as int), keys),
        decreases uniq.len() - i,
    {
        proof {
            assert(um.take(i + 1).drop_last() =~= um.take(i as int));
            assert(um.take(i + 1).last() == uniq@[i as int]@);
        }
        let is_source = match crate::graph::group_index(&g.edges, uniq[i].as_str()) {
            Some(_) => true,
            None => false,
        };
        proof {
            if is_source {
                let j = choose|j: int| 0 <= j < g.edges.len() && g.edges@[j].0@ == uniq@[i as int]@;
                assert(keys[j] == uniq@[i as int]@);
            } else {
                assert forall|j: int| 0 <= j < keys.len() implies keys[j] != uniq@[i as int]@ by {
                    assert(keys[j] == g.edges@[j].0@);
                }
            }
        }
        if !is_source {
            let ghost before = names_model(roots@);
            roots.push(copy_string(&uniq[i]));
            proof {
                assert(names_model(roots@) =~= before.push(uniq@[i as int]@));
            }
        }
        i += 1;
    }
    proof {
        assert(um.take(uniq.len() as int) =~= um);
        reveal_strlit("input");
    }
    if with_input && crate::graph::names_contain(&flat, "input") && !crate::graph::names_contain(&roots, "input") {
        let ghost before = names_model(roots@);
        roots.push(str_to_string("input"));
        proof {
            assert(names_model(roots@) =~= before.push("input"@));
        }
    }
    sort_strings(&roots)
}

// --- text of the sections ---

/// A section heading.
pub open spec fn heading(c: Palette, title: Seq<char>) -> Seq<char> {
    c.bold + title + c.reset + "\n\n"@
}

/// The line of an empty section.
pub open spec fn none_line(c: Palette) -> Seq<char> {
    "  "@ + c.dim + "(none)"@ + c.reset + "\n"@
}

/// A type expression, in color.
pub open spec fn colored_type(t: TypeModel, c: Palette) -> Seq<char>
    decreases t,
{
    match t {
        TypeModel::Ref(p, r) => c.green + "ref("@ + c.yellow + p + "."@ + r + c.green + ")"@ + c.reset,
        TypeModel::List(inner) => c.green + "list("@ + colored_type(*inner, c) + c.reset + ")"@,
        TypeModel::Dict(inner) => c.green + "map("@ + colored_type(*inner, c) + c.reset + ")"@,
        _ => c.green + crate::parser::type_text(t) + c.reset,
    }
}

/// The line of an input.
pub open spec fn input_line(e: (Seq<char>, TypeModel, bool, Option<Seq<char>>), c: Palette) -> Seq<char> {
    let default_str = match e.3 {
        Some(d) => " "@ + c.dim + "="@ + c.reset + " "@ + c.green + d + c.reset,
        None => Seq::empty(),
    };
    let required_str = if e.2 {
        c.yellow + "(required)"@ + c.reset
    } else {
        Seq::empty()
    };
    "  "@ + c.white + e.0 + c.reset + ": "@ + colored_type(e.1, c) + default_str + "  "@ + required_str + "\n"@
}

/// The line of a creation listed without a tree.
pub open spec fn creation_line(name: Seq<char>, ty: (Seq<char>, Seq<char>), c: Palette) -> Seq<char> {
    "  "@ + typed_name(c, name, ty) + "\n"@
}

/// The lines of an exposed output.
pub open spec fn expose_lines(e: (Seq<char>, TypeModel, Option<Seq<char>>), c: Palette) -> Seq<char> {
    "  "@ + c.white + e.0 + c.reset + ": "@ + colored_type(e.1, c) + "\n"@ + match e.2 {
        Some(src) => "    "@ + c.dim + "<- from:"@ + c.reset + " "@ + c.cyan + src + c.reset + "\n"@,
        None => Seq::empty(),
    }
}

/// How an input with a reference type is shown in the `input` node.
pub open spec fn ref_input_item(e: (Seq<char>, TypeModel, bool, Option<Seq<char>>), c: Palette) -> Option<Seq<char>> {
    match e.1 {
        TypeModel::Ref(p, r) => Some(
            c.white + e.0 + c.reset + ": "@ + c.green + "ref("@ + c.yellow + p + "."@ + r + c.green + ")"@
                + c.reset,
        ),
        _ => None,
    }
}

/// The shown inputs with reference types, in order.
pub open spec fn ref_input_items(es: Seq<(Seq<char>, TypeModel, bool, Option<Seq<char>>)>, c: Palette) -> Seq<Seq<char>>
    decreases es.len(),
{
    if es.len() == 0 {
        Seq::empty()
    } else {
        match ref_input_item(es.last(), c) {
            Some(x) => ref_input_items(es.drop_last(), c).push(x),
            None => ref_input_items(es.drop_last(), c),
        }
    }
}

/// How the `input` node of a module's tree is shown.
pub open spec fn input_node_label(es: Seq<(Seq<char>, TypeModel, bool, Option<Seq<char>>)>, c: Palette) -> Seq<char> {
    let items = ref_input_items(es, c);
    if items.len() == 0 {
        c.blue + "input"@ + c.reset
    } else {
        c.blue + "input"@ + c.reset + " "@ + c.dim + "{ "@ + crate::text::join(items, ", "@) + " }"@ + c.reset
    }
}

/// The models of a module's inputs.
pub open spec fn input_entries(m: ModuleSignature) -> Seq<(Seq<char>, TypeModel, bool, Option<Seq<char>>)> {
    Seq::new(m.inputs.len() as nat, |i: int| m.inputs@[i]@)
}

/// The body of the CREATES section: a tree from the roots, or a plain list
/// when nothing depends on anything.
pub open spec fn creates_body(
    g: Groups<TypedDepModel>,
    creations: Seq<ResourceCreation>,
    input_label: Option<Seq<char>>,
    c: Palette,
) -> Seq<char> {
    let roots = root_names(g, input_label is Some);
    if roots.len() == 0 {
        crate::aws::case_convert::concat(
            Seq::new(creations.len(), |i: int| creation_line(creations[i].binding_name@, creations[i].resource_type@, c)),
        )
    } else {
        forest_lines(tree_source(g, creations, input_label, c), tree_fuel(g), roots, roots.len(), "  "@, Seq::empty(), true).0
    }
}

/// The text of a module signature.
pub open spec fn module_text(m: ModuleSignature, c: Palette) -> Seq<char> {
    let inputs = input_entries(m);
    c.bold + "Module:"@ + c.reset + " "@ + c.cyan + m.name@ + c.reset + "\n\n"@
        + heading(c, "=== REQUIRES ==="@)
        + (if inputs.len() == 0 {
            none_line(c)
        } else {
            crate::aws::case_convert::concat(Seq::new(inputs.len(), |i: int| input_line(inputs[i], c)))
        })
        + "\n"@
        + heading(c, "=== CREATES ==="@)
        + (if m.creates.len() == 0 {
            none_line(c)
        } else {
            creates_body(m.dependency_graph.edges_model(), m.creates@, Some(input_node_label(inputs, c)), c)
        })
        + "\n"@
        + heading(c, "=== EXPOSES ==="@)
        + (if m.exposes.len() == 0 {
            none_line(c)
        } else {
            crate::aws::case_convert::concat(Seq::new(m.exposes.len() as nat, |i: int| expose_lines(m.exposes@[i]@, c)))
        })
}

/// Without colors, a module's text is its name and the REQUIRES, CREATES
/// and EXPOSES sections in that order, each under its heading; an empty
/// section shows `  (none)`. A required input without a default shows as
/// `  NAME: TYPE  (required)`.
pub proof fn lemma_module_text_plain(m: ModuleSignature)
    ensures
        ({
            let c = palette(false);
            let inputs = input_entries(m);
            module_text(m, c) == "Module: "@ + m.name@ + "\n\n=== REQUIRES ===\n\n"@ + (if inputs.len() == 0 {
                "  (none)\n"@
            } else {
                crate::aws::case_convert::concat(Seq::new(inputs.len(), |i: int| input_line(inputs[i], c)))
            }) + "\n=== CREATES ===\n\n"@ + (if m.creates.len() == 0 {
                "  (none)\n"@
            } else {
                creates_body(m.dependency_graph.edges_model(), m.creates@, Some(input_node_label(inputs, c)), c)
            }) + "\n=== EXPOSES ===\n\n"@ + (if m.exposes.len() == 0 {
                "  (none)\n"@
            } else {
                crate::aws::case_convert::concat(Seq::new(m.exposes.len() as nat, |i: int| expose_lines(m.exposes@[i]@, c)))
            })
        }),
        forall|e: (Seq<char>, TypeModel, bool, Option<Seq<char>>)|
            e.2 && e.3 is None ==> #[trigger] input_line(e, palette(false)) == "  "@ + e.0 + ": "@ + colored_type(
                e.1,
                palette(false),
            ) + "  (required)\n"@,
{
    reveal_strlit("Module:");
    reveal_strlit("Module: ");
    reveal_strlit(" ");
    reveal_strlit("\n\n");
    reveal_strlit("\n");
    reveal_strlit("  ");
    reveal_strlit(": ");
    reveal_strlit("(none)");
    reveal_strlit("  (none)\n");
    reveal_strlit("(required)");
    reveal_strlit("  (required)\n");
    reveal_strlit("=== REQUIRES ===");
    reveal_strlit("=== CREATES ===");
    reveal_strlit("=== EXPOSES ===");
    reveal_strlit("\n\n=== REQUIRES ===\n\n");
    reveal_strlit("\n=== CREATES ===\n\n");
    reveal_strlit("\n=== EXPOSES ===\n\n");
    reveal_strlit("=== REQUIRES ===\n\n");
    reveal_strlit("=== CREATES ===\n\n");
    reveal_strlit("=== EXPOSES ===\n\n");
    let c = palette(false);
    assert(none_line(c) =~= "  (none)\n"@);
    assert(heading(c, "=== REQUIRES ==="@) =~= "=== REQUIRES ===\n\n"@);
    assert(heading(c, "=== CREATES ==="@) =~= "=== CREATES ===\n\n"@);
    assert(heading(c, "=== EXPOSES ==="@) =~= "=== EXPOSES ===\n\n"@);
    let inputs = input_entries(m);
    let r = if inputs.len() == 0 {
        none_line(c)
    } else {
        crate::aws::case_convert::concat(Seq::new(inputs.len(), |i: int| input_line(inputs[i], c)))
    };
    let cr = if m.creates.len() == 0 {
        none_line(c)
    } else {
        creates_body(m.dependency_graph.edges_model(), m.creates@, Some(input_node_label(inputs, c)), c)
    };
    let ex = if m.exposes.len() == 0 {
        none_line(c)
    } else {
        crate::aws::case_convert::concat(Seq::new(m.exposes.len() as nat, |i: int| expose_lines(m.exposes@[i]@, c)))
    };
    assert(module_text(m, c) =~= "Module: "@ + m.name@ + "\n\n=== REQUIRES ===\n\n"@ + r + "\n=== CREATES ===\n\n"@ + cr
        + "\n=== EXPOSES ===\n\n"@ + ex);
    assert forall|e: (Seq<char>, TypeModel, bool, Option<Seq<char>>)|
        e.2 && e.3 is None implies #[trigger] input_line(e, c) == "  "@ + e.0 + ": "@ + colored_type(e.1, c)
        + "  (required)\n"@ by {
        assert(input_line(e, c) =~= "  "@ + e.0 + ": "@ + colored_type(e.1, c) + "  (required)\n"@);
    }
}

/// The line of a module instantiation.
pub open spec fn call_line(call: ModuleCallInfo, c: Palette) -> Seq<char> {
    let binding = match opt_str_view(call.binding_name) {
        Some(b) => b + " = "@,
        None => Seq::empty(),
    };
    "    "@ + c.white + binding + c.blue + call.module_name@ + c.reset + "\n"@
}

/// The IMPORTS section's body.
pub open spec fn imports_body(s: RootConfigSignature, c: Palette) -> Seq<char> {
    if s.imports.len() == 0 {
        none_line(c)
    } else {
        crate::aws::case_convert::concat(Seq::new(s.imports.len() as nat, |i: int| import_line(s.imports@[i], c)))
    }
}

/// The CREATES section's body of a root configuration.
pub open spec fn root_creates_body(s: RootConfigSignature, c: Palette) -> Seq<char> {
    if s.resources.len() == 0 && s.module_calls.len() == 0 {
        none_line(c)
    } else {
        creates_body(s.dependency_graph.edges_model(), s.resources@, None, c) + if s.module_calls.len() == 0 {
            Seq::empty()
        } else {
            "\n"@ + "  "@ + c.dim + "Module instantiations:"@ + c.reset + "\n"@ + crate::aws::case_convert::concat(
                Seq::new(s.module_calls.len() as nat, |i: int| call_line(s.module_calls@[i], c)),
            )
        }
    }
}

/// The text of a root configuration signature.
pub open spec fn root_text(s: RootConfigSignature, c: Palette) -> Seq<char> {
    c.bold + "File:"@ + c.reset + " "@ + c.cyan + s.name@ + c.reset + "\n\n"@ + heading(c, "=== IMPORTS ==="@)
        + imports_body(s, c) + "\n"@ + heading(c, "=== CREATES ==="@) + root_creates_body(s, c)
}

/// Without colors, a root configuration's text is its name, the IMPORTS
/// section and the CREATES section, each section with its heading; an empty
/// section shows `  (none)`.
pub proof fn lemma_root_text_plain(s: RootConfigSignature)
    ensures
        root_text(s, palette(false)) == "File: "@ + s.name@ + "\n\n=== IMPORTS ===\n\n"@ + imports_body(s, palette(false))
            + "\n=== CREATES ===\n\n"@ + root_creates_body(s, palette(false)),
        s.imports.len() == 0 ==> imports_body(s, palette(false)) == "  (none)\n"@,
        s.resources.len() == 0 && s.module_calls.len() == 0 ==> root_creates_body(s, palette(false)) == "  (none)\n"@,
{
    reveal_strlit("File:");
    reveal_strlit(" ");
    reveal_strlit("File: ");
    reveal_strlit("\n\n");
    reveal_strlit("\n");
    reveal_strlit("=== IMPORTS ===");
    reveal_strlit("=== CREATES ===");
    reveal_strlit("\n\n=== IMPORTS ===\n\n");
    reveal_strlit("=== IMPORTS ===\n\n");
    reveal_strlit("=== CREATES ===\n\n");
    reveal_strlit("\n=== CREATES ===\n\n");
    reveal_strlit("  ");
    reveal_strlit("(none)");
    reveal_strlit("  (none)\n");
    let c = palette(false);
    assert(none_line(c) =~= "  (none)\n"@);
    assert(heading(c, "=== IMPORTS ==="@) =~= "=== IMPORTS ===\n\n"@);
    assert(heading(c, "=== CREATES ==="@) =~= "=== CREATES ===\n\n"@);
    assert(root_text(s, c) =~= "File: "@ + s.name@ + "\n\n=== IMPORTS ===\n\n"@ + imports_body(s, c)
        + "\n=== CREATES ===\n\n"@ + root_creates_body(s, c));
}

/// The line of an import.
pub open spec fn import_line(i: ImportInfo, c: Palette) -> Seq<char> {
    "  "@ + c.dim + "\""@ + i.path@ + "\" as "@ + c.cyan + i.alias@ + c.reset + "\n"@
}

/// A type expression, in color.
fn format_type_expr(t: &TypeExpr, c: &Colors) -> (r: String)
    ensures
        r@ == colored_type(t@, c@),
    decreases t,
{
    match t {
        TypeExpr::Ref(path) => {
            let mut out = str_to_string(c.green);
            push_str(&mut out, "ref(");
            push_str(&mut out, c.yellow);
            push_str(&mut out, path.provider.as_str());
            push_str(&mut out, ".");
            push_str(&mut out, path.resource_type.as_str());
            push_str(&mut out, c.green);
            push_str(&mut out, ")");
            push_str(&mut out, c.reset);
            out
        },
        TypeExpr::List(inner) => {
            let mut out = str_to_string(c.green);
            push_str(&mut out, "list(");
            let i = format_type_expr(inner, c);
            push_str(&mut out, i.as_str());
            push_str(&mut out, c.reset);
            push_str(&mut out, ")");
            out
        },
        TypeExpr::Dict(inner) => {
            let mut out = str_to_string(c.green);
            push_str(&mut out, "map(");
            let i = format_type_expr(inner, c);
            push_str(&mut out, i.as_str());
            push_str(&mut out, c.reset);
            push_str(&mut out, ")");
            out
        },
        _ => {
            let mut out = str_to_string(c.green);
            let text = t.to_text();
            push_str(&mut out, text.as_str());
            push_str(&mut out, c.reset);
            out
        },
    }
}

/// How the `input` node of a module's tree is shown.
fn input_label_text(inputs: &Vec<TypedInput>, c: &Colors) -> (r: String)
    ensures
        r@ == input_node_label(Seq::new(inputs.len() as nat, |i: int| inputs@[i]@), c@),
{
    let ghost es = Seq::new(inputs.len() as nat, |i: int| inputs@[i]@);
    let mut items: Vec<Vec<char>> = Vec::new();
    let mut i: usize = 0;
    while i < inputs.len()
        invariant
            i <= inputs.len(),
            es == Seq::new(inputs.len() as nat, |i: int| inputs@[i]@),
            crate::text::views(items@) == ref_input_items(es.take(i as int), c@),
        decreases inputs.len() - i,
    {
        proof {
            assert(es.take(i + 1).drop_last() =~= es.take(i as int));
            assert(es.take(i + 1).last() == inputs@[i as int]@);
        }
        if let TypeExpr::Ref(path) = &inputs[i].type_expr {
            let mut item = str_to_string(c.white);
            push_str(&mut item, inputs[i].name.as_str());
            push_str(&mut item, c.reset);
            push_str(&mut item, ": ");
            push_str(&mut item, c.green);
            push_str(&mut item, "ref(");
            push_str(&mut item, c.yellow);
            push_str(&mut item, path.provider.as_str());
            push_str(&mut item, ".");
            push_str(&mut item, path.resource_type.as_str());
            push_str(&mut item, c.green);
            push_str(&mut item, ")");
            push_str(&mut item, c.reset);
            let ghost before = crate::text::views(items@);
            items.push(chars_of(item.as_str()));
            proof {
                assert(crate::text::views(items@) =~= before.push(item@));
            }
        }
        i += 1;
    }
    proof {
        assert(es.take(inputs.len() as int) =~= es);
    }
    let mut out = str_to_string(c.blue);
    push_str(&mut out, "input");
    push_str(&mut out, c.reset);
    if items.len() > 0 {
        push_str(&mut out, " ");
        push_str(&mut out, c.dim);
        push_str(&mut out, "{ ");
        let sep: Vec<char> = vec![',', ' '];
        proof {
            reveal_strlit(", ");
            assert(sep@ =~= ", "@);
        }
        let joined = crate::text::join_chars(items.as_slice(), sep.as_slice());
        push_chars(&mut out, joined.as_slice());
        push_str(&mut out, " }");
        push_str(&mut out, c.reset);
    }
    out
}

/// The body of the CREATES section.
fn push_creates_body(
    out: &mut String,
    g: &TypedDependencyGraph,
    creations: &Vec<ResourceCreation>,
    input_label: &Option<String>,
    c: &Colors,
)
    ensures
        final(out)@ == old(out)@ + creates_body(g.edges_model(), creations@, opt_str_view(*input_label), c@),
{
    let ghost start = out@;
    let roots = find_root_nodes(g, input_label.is_some());
    if roots.len() == 0 {
        let ghost pieces = Seq::new(
            creations@.len(),
            |i: int| creation_line(creations@[i].binding_name@, creations@[i].resource_type@, c@),
        );
        let mut k: usize = 0;
        while k < creations.len()
            invariant
                k <= creations.len(),
                pieces == Seq::new(
                    creations@.len(),
                    |i: int| creation_line(creations@[i].binding_name@, creations@[i].resource_type@, c@),
                ),
                out@ == start + crate::aws::case_convert::concat(pieces.take(k as int)),
            decreases creations.len() - k,
        {
            proof {
                assert(pieces.take(k + 1).drop_last() =~= pieces.take(k as int));
            }
            let ghost mid = out@;
            push_str(out, "  ");
            push_str(out, c.white);
            push_str(out, creations[k].binding_name.as_str());
            push_str(out, c.reset);
            push_str(out, ": ");
            push_str(out, c.yellow);
            let ty = creations[k].resource_type.to_string();
            push_str(out, ty.as_str());
            push_str(out, c.reset);
            push_str(out, "\n");
            proof {
                assert(out@ =~= mid + pieces[k as int]);
            }
            k += 1;
        }
        proof {
            assert(pieces.take(creations.len() as int) =~= pieces);
        }
    } else {
        let fuel: usize = if g.edges.len() < usize::MAX {
            g.edges.len() + 1
        } else {
            usize::MAX
        };
        show_roots(out, g, creations, input_label, c, &roots, fuel);
    }
}

/// Push a section heading.
fn push_heading(out: &mut String, c: &Colors, title: &str)
    ensures
        final(out)@ == old(out)@ + heading(c@, title@),
{
    let ghost start = out@;
    push_str(out, c.bold);
    push_str(out, title);
    push_str(out, c.reset);
    push_str(out, "\n\n");
    proof {
        assert(out@ =~= start + heading(c@, title@));
    }
}

/// Push the line of an empty section.
fn push_none(out: &mut String, c: &Colors)
    ensures
        final(out)@ == old(out)@ + none_line(c@),
{
    let ghost start = out@;
    push_str(out, "  ");
    push_str(out, c.dim);
    push_str(out, "(none)");
    push_str(out, c.reset);
    push_str(out, "\n");
    proof {
        assert(out@ =~= start + none_line(c@));
    }
}

/// How an input's default is shown after its type.
pub open spec fn default_suffix(d: Option<Seq<char>>, c: Palette) -> Seq<char> {
    match d {
        Some(d) => " "@ + c.dim + "="@ + c.reset + " "@ + c.green + d + c.reset,
        None => Seq::empty(),
    }
}

fn default_text(d: &Option<String>, c: &Colors) -> (r: String)
    ensures
        r@ == default_suffix(opt_str_view(*d), c@),
{
    let mut out = String::new();
    if let Some(d) = d {
        push_str(&mut out, " ");
        push_str(&mut out, c.dim);
        push_str(&mut out, "=");
        push_str(&mut out, c.reset);
        push_str(&mut out, " ");
        push_str(&mut out, c.green);
        push_str(&mut out, d.as_str());
        push_str(&mut out, c.reset);
        proof {
            assert(out@ =~= default_suffix(opt_str_view(Some(*d)), c@));
        }
    } else {
        proof {
            assert(out@ =~= Seq::<char>::empty());
        }
    }
    out
}

/// Push the line of an input.
fn push_input_line(out: &mut String, input: &TypedInput, c: &Colors)
    ensures
        final(out)@ == old(out)@ + input_line(input@, c@),
{
    let ghost start = out@;
    let type_str = format_type_expr(&input.type_expr, c);
    let default_str = default_text(&input.default, c);
    let mut required_str = String::new();
    if input.required {
        push_str(&mut required_str, c.yellow);
        push_str(&mut required_str, "(required)");
        push_str(&mut required_str, c.reset);
    }
    proof {
        if input.required {
            assert(required_str@ =~= c@.yellow + "(required)"@ + c@.reset);
        } else {
            assert(required_str@ =~= Seq::<char>::empty());
        }
    }
    push_str(out, "  ");
    push_str(out, c.white);
    push_str(out, input.name.as_str());
    push_str(out, c.reset);
    push_str(out, ": ");
    push_str(out, type_str.as_str());
    push_str(out, default_str.as_str());
    push_str(out, "  ");
    push_str(out, required_str.as_str());
    push_str(out, "\n");
    proof {
        assert(default_suffix(opt_str_view(input.default), c@) == match input@.3 {
            Some(d) => " "@ + c@.dim + "="@ + c@.reset + " "@ + c@.green + d + c@.reset,
            None => Seq::<char>::empty(),
        });
        assert(out@ =~= start + input_line(input@, c@));
    }
}

/// Push the lines of an exposed output.
fn push_expose_lines(out: &mut String, e: &TypedOutput, c: &Colors)
    ensures
        final(out)@ == old(out)@ + expose_lines(e@, c@),
{
    let ghost start = out@;
    let type_str = format_type_expr(&e.type_expr, c);
    push_str(out, "  ");
    push_str(out, c.white);
    push_str(out, e.name.as_str());
    push_str(out, c.reset);
    push_str(out, ": ");
    push_str(out, type_str.as_str());
    push_str(out, "\n");
    let ghost mid = out@;
    if let Some(source) = &e.source_binding {
        push_str(out, "    ");
        push_str(out, c.dim);
        push_str(out, "<- from:");
        push_str(out, c.reset);
        push_str(out, " ");
        push_str(out, c.cyan);
        push_str(out, source.as_str());
        push_str(out, c.reset);
        push_str(out, "\n");
    }
    proof {
        assert(out@ =~= start + expose_lines(e@, c@));
    }
}

impl ModuleSignature {
    /// Display the module signature as a formatted string
    pub fn display(&self) -> (r: String)
        ensures
            r@ == module_text(*self, palette(true)),
    {
        self.display_with_color(true)
    }

    /// Display the module signature with optional color support
    pub fn display_with_color(&self, use_color: bool) -> (r: String)
        ensures
            r@ == module_text(*self, palette(use_color)),
    {
        let c = Colors::new(use_color);
        let ghost cm = c@;
        let mut output = String::new();
        push_str(&mut output, c.bold);
        push_str(&mut output, "Module:");
        push_str(&mut output, c.reset);
        push_str(&mut output, " ");
        push_str(&mut output, c.cyan);
        push_str(&mut output, self.name.as_str());
        push_str(&mut output, c.reset);
        push_str(&mut output, "\n\n");
        let ghost part1 = output@;

        // REQUIRES section
        push_heading(&mut output, &c, "=== REQUIRES ===");
        let ghost part2 = output@;
        let ghost inputs = input_entries(*self);
        if self.inputs.len() == 0 {
            push_none(&mut output, &c);
        } else {
            let ghost pieces = Seq::new(inputs.len(), |i: int| input_line(inputs[i], cm));
            let mut k: usize = 0;
            while k < self.inputs.len()
                invariant
                    k <= self.inputs.len(),
                    inputs == input_entries(*self),
                    cm == c@,
                    pieces == Seq::new(inputs.len(), |i: int| input_line(inputs[i], cm)),
                    output@ == part2 + crate::aws::case_convert::concat(pieces.take(k as int)),
                decreases self.inputs.len() - k,
            {
                proof {
                    assert(pieces.take(k + 1).drop_last() =~= pieces.take(k as int));
                    assert(inputs[k as int] == self.inputs@[k as int]@);
                }
                push_input_line(&mut output, &self.inputs[k], &c);
                k += 1;
            }
            proof {
                assert(pieces.take(self.inputs.len() as int) =~= pieces);
            }
        }
        let ghost part3 = output@;
        push_str(&mut output, "\n");

        // CREATES section (with dependency tree)
        push_heading(&mut output, &c, "=== CREATES ===");
        let ghost part4 = output@;
        if self.creates.len() == 0 {
            push_none(&mut output, &c);
        } else {
            let label = Some(input_label_text(&self.inputs, &c));
            proof {
                assert(Seq::new(self.inputs.len() as nat, |i: int| self.inputs@[i]@) =~= inputs);
            }
            push_creates_body(&mut output, &self.dependency_graph, &self.creates, &label, &c);
        }
        let ghost part5 = output@;
        push_str(&mut output, "\n");

        // EXPOSES section
        push_heading(&mut output, &c, "=== EXPOSES ===");
        let ghost part6 = output@;
        if self.exposes.len() == 0 {
            push_none(&mut output, &c);
        } else {
            let ghost pieces = Seq::new(self.exposes.len() as nat, |i: int| expose_lines(self.exposes@[i]@, cm));
            let mut k: usize = 0;
            while k < self.exposes.len()
                invariant
                    k <= self.exposes.len(),
                    cm == c@,
                    pieces == Seq::new(self.exposes.len() as nat, |i: int| expose_lines(self.exposes@[i]@, cm)),
                    output@ == part6 + crate::aws::case_convert::concat(pieces.take(k as int)),
                decreases self.exposes.len() - k,
            {
                proof {
                    assert(pieces.take(k + 1).drop_last() =~= pieces.take(k as int));
                }
                push_expose_lines(&mut output, &self.exposes[k], &c);
                k += 1;
            }
            proof {
                assert(pieces.take(self.exposes.len() as int) =~= pieces);
            }
        }
        proof {
            assert(output@ =~= module_text(*self, palette(use_color)));
        }
        output
    }
}


fn push_import_line(out: &mut String, i: &ImportInfo, c: &Colors)
    ensures
        final(out)@ == old(out)@ + import_line(*i, c@),
{
    let ghost start = out@;
    push_str(out, "  ");
    push_str(out, c.dim);
    push_str(out, "\"");
    push_str(out, i.path.as_str());
    push_str(out, "\" as ");
    push_str(out, c.cyan);
    push_str(out, i.alias.as_str());
    push_str(out, c.reset);
    push_str(out, "\n");
    proof {
        assert(out@ =~= start + import_line(*i, c@));
    }
}

fn push_call_line(out: &mut String, call: &ModuleCallInfo, c: &Colors)
    ensures
        final(out)@ == old(out)@ + call_line(*call, c@),
{
    let ghost start = out@;
    push_str(out, "    ");
    push_str(out, c.white);
    let ghost mid = out@;
    if let Some(b) = &call.binding_name {
        push_str(out, b.as_str());
        push_str(out, " = ");
    }
    let ghost after = out@;
    push_str(out, c.blue);
    push_str(out, call.module_name.as_str());
    push_str(out, c.reset);
    push_str(out, "\n");
    proof {
        let binding = match opt_str_view(call.binding_name) {
            Some(b) => b + " = "@,
            None => Seq::<char>::empty(),
        };
        assert(after =~= mid + binding);
        assert(out@ =~= start + call_line(*call, c@));
    }
}

fn push_imports_body(out: &mut String, sig: &RootConfigSignature, c: &Colors)
    ensures
        final(out)@ == old(out)@ + imports_body(*sig, c@),
{
    let ghost cm = c@;
    let ghost start = out@;
    if sig.imports.len() == 0 {
        push_none(out, c);
    } else {
        let ghost pieces = Seq::new(sig.imports.len() as nat, |i: int| import_line(sig.imports@[i], cm));
        let mut k: usize = 0;
        while k < sig.imports.len()
            invariant
                k <= sig.imports.len(),
                cm == c@,
                pieces == Seq::new(sig.imports.len() as nat, |i: int| import_line(sig.imports@[i], cm)),
                out@ == start + crate::aws::case_convert::concat(pieces.take(k as int)),
            decreases sig.imports.len() - k,
        {
            proof {
                assert(pieces.take(k + 1).drop_last() =~= pieces.take(k as int));
            }
            push_import_line(out, &sig.imports[k], c);
            k += 1;
        }
        proof {
            assert(pieces.take(sig.imports.len() as int) =~= pieces);
        }
    }
}

fn push_root_creates_body(out: &mut String, sig: &RootConfigSignature, c: &Colors)
    ensures
        final(out)@ == old(out)@ + root_creates_body(*sig, c@),
{
    let ghost cm = c@;
    let ghost start = out@;
    if sig.resources.len() == 0 && sig.module_calls.len() == 0 {
        push_none(out, c);
    } else {
        let none: Option<String> = None;
        push_creates_body(out, &sig.dependency_graph, &sig.resources, &none, c);
        let ghost part5 = out@;
        if sig.module_calls.len() > 0 {
            push_str(out, "\n");
            push_str(out, "  ");
            push_str(out, c.dim);
            push_str(out, "Module instantiations:");
            push_str(out, c.reset);
            push_str(out, "\n");
            let ghost part6 = out@;
            let ghost pieces = Seq::new(sig.module_calls.len() as nat, |i: int| call_line(sig.module_calls@[i], cm));
            let mut k: usize = 0;
            while k < sig.module_calls.len()
                invariant
                    k <= sig.module_calls.len(),
                    cm == c@,
                    pieces == Seq::new(sig.module_calls.len() as nat, |i: int| call_line(sig.module_calls@[i], cm)),
                    out@ == part6 + crate::aws::case_convert::concat(pieces.take(k as int)),
                decreases sig.module_calls.len() - k,
            {
                proof {
                    assert(pieces.take(k + 1).drop_last() =~= pieces.take(k as int));
                }
                push_call_line(out, &sig.module_calls[k], c);
                k += 1;
            }
            proof {
                assert(pieces.take(sig.module_calls.len() as int) =~= pieces);
            }
        }
        proof {
            assert(out@ =~= start + root_creates_body(*sig, c@));
        }
    }
}

impl RootConfigSignature {
    /// Display the root config signature as a formatted string
    pub fn display(&self) -> (r: String)
        ensures
            r@ == root_text(*self, palette(true)),
    {
        self.display_with_color(true)
    }

    /// Display with optional color support
    pub fn display_with_color(&self, use_color: bool) -> (r: String)
        ensures
            r@ == root_text(*self, palette(use_color)),
    {
        let c = Colors::new(use_color);
        let mut output = String::new();
        push_str(&mut output, c.bold);
        push_str(&mut output, "File:");
        push_str(&mut output, c.reset);
        push_str(&mut output, " ");
        push_str(&mut output, c.cyan);
        push_str(&mut output, self.name.as_str());
        push_str(&mut output, c.reset);
        push_str(&mut output, "\n\n");
        // IMPORTS section
        push_heading(&mut output, &c, "=== IMPORTS ===");
        push_imports_body(&mut output, self, &c);
        push_str(&mut output, "\n");
        // CREATES section
        push_heading(&mut output, &c, "=== CREATES ===");
        push_root_creates_body(&mut output, self, &c);
        proof {
            assert(output@ =~= root_text(*self, palette(use_color)));
        }
        output
    }
}

impl FileSignature {
    /// Display the signature
    pub fn display(&self) -> (r: String)
        ensures
            r@ == match self {
                FileSignature::Module(sig) => module_text(*sig, palette(true)),
                FileSignature::RootConfig(sig) => root_text(*sig, palette(true)),
            },
    {
        match self {
            FileSignature::Module(sig) => sig.display(),
            FileSignature::RootConfig(sig) => sig.display(),
        }
    }
}
} // verus!
