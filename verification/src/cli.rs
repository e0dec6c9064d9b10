//! The decisions of the command-line tool: how plans and effects are
//! shown, in which order resources are handled, how references are resolved
//! against known state, and what an apply or destroy run does next.

use vstd::prelude::*;

use crate::effect::Effect;
use crate::parser::grammar::TypeModel;
use crate::parser::TypeExpr;
use crate::schema::{error_message, resolve_for_custom, schema_check, spec_validate_cidr, validator_check, ResourceSchema, TypeErrorModel, Validator};
use crate::parser::resolve::{binding_get, binding_insert, binding_lookup, bindings_model, Bindings};
use crate::resource::{distinct_keys, has_key, ResourceId, State, ValueMap};
use crate::module::dedup;
use crate::resource::{lemma_dict_view, lemma_list_view, lookup, values_view, Resource, Value, ValueModel};
use crate::text::{
    char_is_lowercase, char_is_uppercase, chars_of, join_chars, copy_string, i64_text, int_text, is_ascii_digit,
    push_chars, push_str, split, split_chars, str_to_string, string_of, lower_char, upper_char,
    views,
};

verus! {

// ---------------------------------------------------------------------------
// Showing effects and values
// ---------------------------------------------------------------------------

/// The verb and target of an effect, as reported while applying.
pub open spec fn effect_text(e: Effect) -> Seq<char> {
    match e {
        Effect::Create(r) => "Create "@ + r.id.resource_type@ + "."@ + r.id.name@,
        Effect::Update { id, .. } => "Update "@ + id.resource_type@ + "."@ + id.name@,
        Effect::Delete(id) => "Delete "@ + id.resource_type@ + "."@ + id.name@,
        Effect::Read { resource } => "Read "@ + resource.id.resource_type@ + "."@ + resource.id.name@,
    }
}

/// The verb and target of an effect (e.g. `Create vpc.main`).
pub fn format_effect(effect: &Effect) -> (r: String)
    ensures
        r@ == effect_text(*effect),
{
    let (verb, id) = match effect {
        Effect::Create(r) => ("Create ", &r.id),
        Effect::Update { id, .. } => ("Update ", id),
        Effect::Delete(id) => ("Delete ", id),
        Effect::Read { resource } => ("Read ", &resource.id),
    };
    let mut s = str_to_string(verb);
    push_str(&mut s, id.resource_type.as_str());
    push_str(&mut s, ".");
    push_str(&mut s, id.name.as_str());
    s
}

/// Whether every character is lower-case.
pub open spec fn all_lower(s: Seq<char>) -> bool {
    forall|i: int| 0 <= i < s.len() ==> lower_char(#[trigger] s[i])
}

/// Whether every character is lower-case, an ASCII digit or `_`.
pub open spec fn all_lower_digit_underscore(s: Seq<char>) -> bool {
    forall|i: int| 0 <= i < s.len() ==> lower_char(#[trigger] s[i]) || is_ascii_digit(s[i]) || s[i] == '_'
}

/// Whether a text starts with an upper-case character.
pub open spec fn starts_upper(s: Seq<char>) -> bool {
    s.len() > 0 && upper_char(s[0])
}

/// Whether a text is a DSL enum value: `TypeName.value`,
/// `provider.TypeName.value` or `provider.resource.TypeName.value`.
pub open spec fn dsl_enum(s: Seq<char>) -> bool {
    let p = split(s, '.');
    if p.len() == 2 {
        starts_upper(p[0])
    } else if p.len() == 3 {
        all_lower(p[0]) && starts_upper(p[1])
    } else if p.len() == 4 {
        all_lower(p[0]) && all_lower_digit_underscore(p[1]) && starts_upper(p[2])
    } else {
        false
    }
}

fn is_all_lower(s: &[char], digits_and_underscore: bool) -> (r: bool)
    ensures
        !digits_and_underscore ==> r == all_lower(s@),
        digits_and_underscore ==> r == all_lower_digit_underscore(s@),
{
    let mut i: usize = 0;
    while i < s.len()
        invariant
            i <= s.len(),
            !digits_and_underscore ==> forall|j: int| 0 <= j < i ==> lower_char(#[trigger] s@[j]),
            digits_and_underscore ==> forall|j: int|
                0 <= j < i ==> lower_char(#[trigger] s@[j]) || is_ascii_digit(s@[j]) || s@[j] == '_',
        decreases s.len() - i,
    {
        let c = s[i];
        let ok = char_is_lowercase(c) || (digits_and_underscore && (crate::text::ascii_digit(c) || c == '_'));
        if !ok {
            return false;
        }
        i += 1;
    }
    true
}

fn starts_with_upper(s: &[char]) -> (r: bool)
    ensures
        r == starts_upper(s@),
{
    s.len() > 0 && char_is_uppercase(s[0])
}

/// Check if a string is in DSL enum format
/// Patterns:
/// - provider.TypeName.value (e.g., aws.Region.ap_northeast_1)
/// - TypeName.value (e.g., Region.ap_northeast_1)
/// - provider.resource.TypeName.value (e.g., aws.s3.VersioningStatus.Enabled)
pub fn is_dsl_enum_format(s: &str) -> (r: bool)
    ensures
        r == dsl_enum(s@),
{
    let c = chars_of(s);
    let parts = split_chars(c.as_slice(), '.');
    proof {
        assert(views(parts@).len() == parts.len());
        assert(forall|i: int| 0 <= i < parts.len() ==> views(parts@)[i] == parts@[i]@);
    }
    if parts.len() == 2 {
        starts_with_upper(parts[0].as_slice())
    } else if parts.len() == 3 {
        is_all_lower(parts[0].as_slice(), false) && starts_with_upper(parts[1].as_slice())
    } else if parts.len() == 4 {
        is_all_lower(parts[0].as_slice(), false) && is_all_lower(parts[1].as_slice(), true)
            && starts_with_upper(parts[2].as_slice())
    } else {
        false
    }
}

/// How a value is shown in a plan.
pub open spec fn plan_value_text(v: ValueModel) -> Seq<char>
    decreases v, 1nat,
{
    match v {
        ValueModel::Str(s) => if dsl_enum(s) {
            s
        } else {
            "\""@ + s + "\""@
        },
        ValueModel::Int(n) => int_text(n as int),
        ValueModel::Bool(b) => if b {
            "true"@
        } else {
            "false"@
        },
        ValueModel::List(items) => "["@ + plan_items_text(items) + "]"@,
        ValueModel::Dict(e) => "{"@ + plan_entries_text(e) + "}"@,
        ValueModel::ResourceRef(b, a) => b + "."@ + a,
        ValueModel::TypedResourceRef { binding_name, attribute_name, .. } => binding_name + "."@ + attribute_name,
        ValueModel::UnresolvedIdent(n, m) => match m {
            Some(m) => n + "."@ + m,
            None => n,
        },
    }
}

/// List items shown and separated by `, `.
pub open spec fn plan_items_text(items: Seq<ValueModel>) -> Seq<char>
    decreases items, 0nat,
{
    if items.len() == 0 {
        Seq::empty()
    } else if items.len() == 1 {
        plan_value_text(items[0])
    } else {
        plan_items_text(items.subrange(0, items.len() - 1)) + ", "@ + plan_value_text(items[items.len() - 1])
    }
}

/// Map entries shown as `key: value` and separated by `, `.
pub open spec fn plan_entries_text(e: Seq<(Seq<char>, ValueModel)>) -> Seq<char>
    decreases e, 0nat,
{
    if e.len() == 0 {
        Seq::empty()
    } else if e.len() == 1 {
        e[0].0 + ": "@ + plan_value_text(e[0].1)
    } else {
        plan_entries_text(e.subrange(0, e.len() - 1)) + ", "@ + e[e.len() - 1].0 + ": "@ + plan_value_text(
            e[e.len() - 1].1,
        )
    }
}

/// Format a value for display in a plan
pub fn format_value(value: &Value) -> (r: String)
    ensures
        r@ == plan_value_text(value@),
    decreases value,
{
    match value {
        Value::String(s) => {
            if is_dsl_enum_format(s.as_str()) {
                copy_string(s)
            } else {
                let mut out = str_to_string("\"");
                push_str(&mut out, s.as_str());
                push_str(&mut out, "\"");
                out
            }
        },
        Value::Int(n) => string_of(i64_text(*n).as_slice()),
        Value::Bool(b) => if *b {
            str_to_string("true")
        } else {
            str_to_string("false")
        },
        Value::List(items) => {
            proof {
                lemma_list_view(*items);
            }
            let ghost iv = values_view(items@);
            let mut out = str_to_string("[");
            let ghost start = out@;
            let mut k: usize = 0;
            while k < items.len()
                invariant
                    k <= items.len(),
                    iv == values_view(items@),
                    out@ == start + plan_items_text(iv.take(k as int)),
                    decreases_to!(*value => *items),
                decreases items.len() - k,
            {
                proof {
                    assert(decreases_to!(*items => items@[k as int]));
                    let t = iv.take(k + 1);
                    assert(t.subrange(0, t.len() - 1) =~= iv.take(k as int));
                }
                if k > 0 {
                    push_str(&mut out, ", ");
                }
                let shown = format_value(&items[k]);
                push_str(&mut out, shown.as_str());
                k += 1;
            }
            proof {
                assert(iv.take(items.len() as int) =~= iv);
            }
            push_str(&mut out, "]");
            out
        },
        Value::Dict(m) => {
            proof {
                lemma_dict_view(*m);
            }
            let ghost ev = m@;
            let mut out = str_to_string("{");
            let ghost start = out@;
            let mut k: usize = 0;
            while k < m.entries.len()
                invariant
                    k <= m.entries.len(),
                    ev == m@,
                    out@ == start + plan_entries_text(ev.take(k as int)),
                    decreases_to!(*value => *m),
                decreases m.entries.len() - k,
            {
                proof {
                    assert(decreases_to!(*m => m.entries));
                    assert(decreases_to!(m.entries => m.entries@[k as int]));
                    assert(decreases_to!(m.entries@[k as int] => m.entries@[k as int].1));
                    let t = ev.take(k + 1);
                    assert(t.subrange(0, t.len() - 1) =~= ev.take(k as int));
                }
                if k > 0 {
                    push_str(&mut out, ", ");
                }
                push_str(&mut out, m.entries[k].0.as_str());
                push_str(&mut out, ": ");
                let shown = format_value(&m.entries[k].1);
                push_str(&mut out, shown.as_str());
                k += 1;
            }
            proof {
                assert(ev.take(m.entries.len() as int) =~= ev);
            }
            push_str(&mut out, "}");
            out
        },
        Value::ResourceRef(b, a) => {
            let mut out = copy_string(b);
            push_str(&mut out, ".");
            push_str(&mut out, a.as_str());
            out
        },
        Value::TypedResourceRef { binding_name, attribute_name, .. } => {
            let mut out = copy_string(binding_name);
            push_str(&mut out, ".");
            push_str(&mut out, attribute_name.as_str());
            out
        },
        Value::UnresolvedIdent(n, m) => {
            let mut out = copy_string(n);
            if let Some(m) = m {
                push_str(&mut out, ".");
                push_str(&mut out, m.as_str());
            }
            out
        },
    }
}

/// Format a value for display next to an attribute name (the name does not
/// change how the value is shown).
pub fn format_value_with_key(value: &Value, key: Option<&str>) -> (r: String)
    ensures
        r@ == plan_value_text(value@),
{
    format_value(value)
}


// ---------------------------------------------------------------------------
// Dependencies and equality of values
// ---------------------------------------------------------------------------

/// The binding names a value refers to, in order (with repeats).
pub open spec fn refs_of(v: ValueModel) -> Seq<Seq<char>>
    decreases v, 1nat,
{
    match v {
        ValueModel::ResourceRef(b, _) => seq![b],
        ValueModel::TypedResourceRef { binding_name, .. } => seq![binding_name],
        ValueModel::List(items) => refs_of_items(items),
        ValueModel::Dict(e) => refs_of_entries(e),
        _ => Seq::empty(),
    }
}

/// The binding names list items refer to.
pub open spec fn refs_of_items(items: Seq<ValueModel>) -> Seq<Seq<char>>
    decreases items, 0nat,
{
    if items.len() == 0 {
        Seq::empty()
    } else {
        refs_of_items(items.subrange(0, items.len() - 1)) + refs_of(items[items.len() - 1])
    }
}

/// The binding names the values of map entries refer to.
pub open spec fn refs_of_entries(e: Seq<(Seq<char>, ValueModel)>) -> Seq<Seq<char>>
    decreases e, 0nat,
{
    if e.len() == 0 {
        Seq::empty()
    } else {
        refs_of_entries(e.subrange(0, e.len() - 1)) + refs_of(e[e.len() - 1].1)
    }
}

/// The binding names a resource depends on, each once, in the order they
/// first occur among its attributes.
pub open spec fn resource_dependencies(attrs: Seq<(Seq<char>, ValueModel)>) -> Seq<Seq<char>> {
    dedup(refs_of_entries(attrs))
}

fn collect_dependencies(value: &Value, deps: &mut Vec<String>)
    ensures
        crate::graph::names_model(final(deps)@) == crate::graph::names_model(old(deps)@) + refs_of(value@),
    decreases value,
{
    let ghost start = crate::graph::names_model(deps@);
    match value {
        Value::ResourceRef(b, _) => {
            deps.push(copy_string(b));
            proof {
                assert(crate::graph::names_model(deps@) =~= start + refs_of(value@));
            }
        },
        Value::TypedResourceRef { binding_name, .. } => {
            deps.push(copy_string(binding_name));
            proof {
                assert(crate::graph::names_model(deps@) =~= start + refs_of(value@));
            }
        },
        Value::List(items) => {
            proof {
                lemma_list_view(*items);
            }
            let ghost iv = values_view(items@);
            let mut k: usize = 0;
            while k < items.len()
                invariant
                    k <= items.len(),
                    iv == values_view(items@),
                    crate::graph::names_model(deps@) == start + refs_of_items(iv.take(k as int)),
                    decreases_to!(*value => *items),
                decreases items.len() - k,
            {
                proof {
                    assert(decreases_to!(*items => items@[k as int]));
                    let t = iv.take(k + 1);
                    assert(t.subrange(0, t.len() - 1) =~= iv.take(k as int));
                }
                collect_dependencies(&items[k], deps);
                k += 1;
            }
            proof {
                assert(iv.take(items.len() as int) =~= iv);
            }
        },
        Value::Dict(m) => {
            proof {
                lemma_dict_view(*m);
            }
            let ghost ev = m@;
            let mut k: usize = 0;
            while k < m.entries.len()
                invariant
                    k <= m.entries.len(),
                    ev == m@,
                    crate::graph::names_model(deps@) == start + refs_of_entries(ev.take(k as int)),
                    decreases_to!(*value => *m),
                decreases m.entries.len() - k,
            {
                proof {
                    assert(decreases_to!(*m => m.entries));
                    assert(decreases_to!(m.entries => m.entries@[k as int]));
                    assert(decreases_to!(m.entries@[k as int] => m.entries@[k as int].1));
                    let t = ev.take(k + 1);
                    assert(t.subrange(0, t.len() - 1) =~= ev.take(k as int));
                }
                collect_dependencies(&m.entries[k].1, deps);
                k += 1;
            }
            proof {
                assert(ev.take(m.entries.len() as int) =~= ev);
            }
        },
        _ => {
            proof {
                assert(crate::graph::names_model(deps@) =~= start + refs_of(value@));
            }
        },
    }
}

/// The names without repeats, each where it first occurs.
pub fn dedup_names(v: &Vec<String>) -> (r: Vec<String>)
    ensures
        crate::graph::names_model(r@) == dedup(crate::graph::names_model(v@)),
{
    let ghost vm = crate::graph::names_model(v@);
    let mut out: Vec<String> = Vec::new();
    let mut i: usize = 0;
    while i < v.len()
        invariant
            i <= v.len(),
            vm == crate::graph::names_model(v@),
            crate::graph::names_model(out@) == dedup(vm.take(i as int)),
        decreases v.len() - i,
    {
        proof {
            assert(vm.take(i + 1).drop_last() =~= vm.take(i as int));
            assert(vm.take(i + 1).last() == v@[i as int]@);
        }
        if !crate::graph::names_contain(&out, v[i].as_str()) {
            let ghost before = crate::graph::names_model(out@);
            out.push(copy_string(&v[i]));
            proof {
                assert(crate::graph::names_model(out@) =~= before.push(v@[i as int]@));
            }
        }
        i += 1;
    }
    proof {
        assert(vm.take(v.len() as int) =~= vm);
    }
    out
}

/// Extract binding names that a resource depends on
pub fn get_resource_dependencies(resource: &Resource) -> (r: Vec<String>)
    ensures
        crate::graph::names_model(r@) == resource_dependencies(resource.attributes@),
{
    let ghost ev = resource.attributes@;
    let mut all: Vec<String> = Vec::new();
    proof {
        assert(crate::graph::names_model(all@) =~= Seq::<Seq<char>>::empty());
    }
    let mut k: usize = 0;
    while k < resource.attributes.entries.len()
        invariant
            k <= resource.attributes.entries.len(),
            ev == resource.attributes@,
            crate::graph::names_model(all@) == refs_of_entries(ev.take(k as int)),
        decreases resource.attributes.entries.len() - k,
    {
        proof {
            let t = ev.take(k + 1);
            assert(t.subrange(0, t.len() - 1) =~= ev.take(k as int));
        }
        collect_dependencies(&resource.attributes.entries[k].1, &mut all);
        k += 1;
    }
    proof {
        assert(ev.take(resource.attributes.entries.len() as int) =~= ev);
    }
    dedup_names(&all)
}

/// Whether two values are equal, maps compared as maps (the same number of
/// entries, each key of one holding an equal value in the other).
pub open spec fn same_value(a: ValueModel, b: ValueModel) -> bool
    decreases a, 1nat,
{
    match (a, b) {
        (ValueModel::List(x), ValueModel::List(y)) => same_items(x, y),
        (ValueModel::Dict(x), ValueModel::Dict(y)) => x.len() == y.len() && entries_within(x, y),
        (ValueModel::List(_), _) => false,
        (ValueModel::Dict(_), _) => false,
        _ => a == b,
    }
}

/// Whether two lists hold equal values at each position.
pub open spec fn same_items(x: Seq<ValueModel>, y: Seq<ValueModel>) -> bool
    decreases x, 0nat,
{
    if x.len() != y.len() {
        false
    } else if x.len() == 0 {
        true
    } else {
        same_items(x.subrange(0, x.len() - 1), y.subrange(0, y.len() - 1)) && same_value(
            x[x.len() - 1],
            y[y.len() - 1],
        )
    }
}

/// Whether each entry of `x` has an equal value under its key in `y`.
pub open spec fn entries_within(x: Seq<(Seq<char>, ValueModel)>, y: Seq<(Seq<char>, ValueModel)>) -> bool
    decreases x, 0nat,
{
    if x.len() == 0 {
        true
    } else {
        entries_within(x.subrange(0, x.len() - 1), y) && match lookup(y, x[x.len() - 1].0) {
            Some(w) => same_value(x[x.len() - 1].1, w),
            None => false,
        }
    }
}

/// Whether two values are equal.
pub fn values_equal(a: &Value, b: &Value) -> (r: bool)
    ensures
        r == same_value(a@, b@),
    decreases a,
{
    match (a, b) {
        (Value::List(x), Value::List(y)) => {
            proof {
                lemma_list_view(*x);
                lemma_list_view(*y);
            }
            let ghost xv = values_view(x@);
            let ghost yv = values_view(y@);
            if x.len() != y.len() {
                return false;
            }
            let mut k: usize = 0;
            while k < x.len()
                invariant
                    k <= x.len() == y.len(),
                    xv == values_view(x@),
                    yv == values_view(y@),
                    same_items(xv.take(k as int), yv.take(k as int)),
                    a@ == ValueModel::List(xv),
                    b@ == ValueModel::List(yv),
                    decreases_to!(*a => *x),
                decreases x.len() - k,
            {
                proof {
                    assert(decreases_to!(*x => x@[k as int]));
                    let t = xv.take(k + 1);
                    let u = yv.take(k + 1);
                    assert(t.subrange(0, t.len() - 1) =~= xv.take(k as int));
                    assert(u.subrange(0, u.len() - 1) =~= yv.take(k as int));
                }
                if !values_equal(&x[k], &y[k]) {
                    proof {
                        let t = xv.take(k + 1);
                        let u = yv.take(k + 1);
                        assert(t[t.len() - 1] == x@[k as int]@);
                        assert(u[u.len() - 1] == y@[k as int]@);
                        assert(!same_items(t, u));
                        lemma_same_items_prefix(xv, yv, (k + 1) as int);
                        assert(a@ == ValueModel::List(xv));
                        assert(b@ == ValueModel::List(yv));
                    }
                    return false;
                }
                k += 1;
            }
            proof {
                assert(xv.take(x.len() as int) =~= xv);
                assert(yv.take(y.len() as int) =~= yv);
            }
            true
        },
        (Value::Dict(x), Value::Dict(y)) => {
            proof {
                lemma_dict_view(*x);
                lemma_dict_view(*y);
            }
            let ghost xv = x@;
            if x.entries.len() != y.entries.len() {
                return false;
            }
            let mut k: usize = 0;
            while k < x.entries.len()
                invariant
                    k <= x.entries.len(),
                    xv == x@,
                    entries_within(xv.take(k as int), y@),
                    a@ == ValueModel::Dict(xv),
                    b@ == ValueModel::Dict(y@),
                    decreases_to!(*a => *x),
                decreases x.entries.len() - k,
            {
                proof {
                    assert(decreases_to!(*x => x.entries));
                    assert(decreases_to!(x.entries => x.entries@[k as int]));
                    assert(decreases_to!(x.entries@[k as int] => x.entries@[k as int].1));
                    let t = xv.take(k + 1);
                    assert(t.subrange(0, t.len() - 1) =~= xv.take(k as int));
                }
                let ok = match y.get(x.entries[k].0.as_str()) {
                    Some(w) => values_equal(&x.entries[k].1, w),
                    None => false,
                };
                if !ok {
                    proof {
                        let t = xv.take(k + 1);
                        assert(t[t.len() - 1] == (x.entries@[k as int].0@, x.entries@[k as int].1@));
                        assert(!entries_within(t, y@));
                        lemma_entries_within_prefix(xv, y@, (k + 1) as int);
                        assert(a@ == ValueModel::Dict(xv));
                        assert(b@ == ValueModel::Dict(y@));
                    }
                    return false;
                }
                k += 1;
            }
            proof {
                assert(xv.take(x.entries.len() as int) =~= xv);
            }
            true
        },
        (Value::List(_), _) => false,
        (Value::Dict(_), _) => false,
        (Value::String(x), Value::String(y)) => crate::text::str_eq(x.as_str(), y.as_str()),
        (Value::Int(x), Value::Int(y)) => *x == *y,
        (Value::Bool(x), Value::Bool(y)) => *x == *y,
        (Value::ResourceRef(b1, a1), Value::ResourceRef(b2, a2)) => crate::text::str_eq(b1.as_str(), b2.as_str())
            && crate::text::str_eq(a1.as_str(), a2.as_str()),
        (
            Value::TypedResourceRef { binding_name: b1, attribute_name: a1, resource_type: t1 },
            Value::TypedResourceRef { binding_name: b2, attribute_name: a2, resource_type: t2 },
        ) => {
            let same_type = match (t1, t2) {
                (Some(p1), Some(p2)) => crate::text::str_eq(p1.provider.as_str(), p2.provider.as_str())
                    && crate::text::str_eq(p1.resource_type.as_str(), p2.resource_type.as_str()),
                (None, None) => true,
                _ => false,
            };
            crate::text::str_eq(b1.as_str(), b2.as_str()) && crate::text::str_eq(a1.as_str(), a2.as_str())
                && same_type
        },
        (Value::UnresolvedIdent(n1, m1), Value::UnresolvedIdent(n2, m2)) => {
            let same_member = match (m1, m2) {
                (Some(x), Some(y)) => crate::text::str_eq(x.as_str(), y.as_str()),
                (None, None) => true,
                _ => false,
            };
            crate::text::str_eq(n1.as_str(), n2.as_str()) && same_member
        },
        _ => false,
    }
}

proof fn lemma_same_items_prefix(x: Seq<ValueModel>, y: Seq<ValueModel>, k: int)
    requires
        0 <= k <= x.len(),
        x.len() == y.len(),
        !same_items(x.take(k), y.take(k)),
    ensures
        !same_items(x, y),
    decreases x.len() - k,
{
    if k < x.len() {
        let t = x.take(k + 1);
        let u = y.take(k + 1);
        assert(t.subrange(0, t.len() - 1) =~= x.take(k));
        assert(u.subrange(0, u.len() - 1) =~= y.take(k));
        lemma_same_items_prefix(x, y, k + 1);
    } else {
        assert(x.take(k) =~= x);
        assert(y.take(k) =~= y);
    }
}

proof fn lemma_entries_within_prefix(x: Seq<(Seq<char>, ValueModel)>, y: Seq<(Seq<char>, ValueModel)>, k: int)
    requires
        0 <= k <= x.len(),
        !entries_within(x.take(k), y),
    ensures
        !entries_within(x, y),
    decreases x.len() - k,
{
    if k < x.len() {
        let t = x.take(k + 1);
        assert(t.subrange(0, t.len() - 1) =~= x.take(k));
        lemma_entries_within_prefix(x, y, k + 1);
    } else {
        assert(x.take(k) =~= x);
    }
}

/// Whether no map inside a value, at any depth, holds a key twice.
pub open spec fn keys_unique(v: ValueModel) -> bool
    decreases v,
{
    match v {
        ValueModel::List(xs) => forall|i: int| 0 <= i < xs.len() ==> keys_unique(#[trigger] xs[i]),
        ValueModel::Dict(es) => distinct_keys(es) && forall|i: int|
            0 <= i < es.len() ==> keys_unique(#[trigger] es[i].1),
        _ => true,
    }
}

/// Whether the key of an entry is found in `y` with a value equal to the entry's.
pub open spec fn entry_found(y: Seq<(Seq<char>, ValueModel)>, e: (Seq<char>, ValueModel)) -> bool {
    match lookup(y, e.0) {
        Some(w) => same_value(e.1, w),
        None => false,
    }
}

proof fn lemma_same_items_all(x: Seq<ValueModel>, y: Seq<ValueModel>)
    ensures
        same_items(x, y) <==> x.len() == y.len() && forall|i: int|
            0 <= i < x.len() ==> same_value(#[trigger] x[i], y[i]),
    decreases x.len(),
{
    if x.len() == y.len() && x.len() > 0 {
        let xs = x.subrange(0, x.len() - 1);
        let ys = y.subrange(0, y.len() - 1);
        lemma_same_items_all(xs, ys);
        if forall|i: int| 0 <= i < x.len() ==> same_value(#[trigger] x[i], y[i]) {
            assert forall|i: int| 0 <= i < xs.len() implies same_value(#[trigger] xs[i], ys[i]) by {
                assert(same_value(x[i], y[i]));
            }
        }
        if same_items(x, y) {
            assert forall|i: int| 0 <= i < x.len() implies same_value(#[trigger] x[i], y[i]) by {
                if i < x.len() - 1 {
                    assert(same_value(xs[i], ys[i]));
                }
            }
        }
    }
}

proof fn lemma_entries_within_all(x: Seq<(Seq<char>, ValueModel)>, y: Seq<(Seq<char>, ValueModel)>)
    ensures
        entries_within(x, y) <==> forall|i: int| 0 <= i < x.len() ==> #[trigger] entry_found(y, x[i]),
    decreases x.len(),
{
    if x.len() > 0 {
        let xs = x.subrange(0, x.len() - 1);
        lemma_entries_within_all(xs, y);
        if forall|i: int| 0 <= i < x.len() ==> #[trigger] entry_found(y, x[i]) {
            assert forall|i: int| 0 <= i < xs.len() implies #[trigger] entry_found(y, xs[i]) by {
                assert(entry_found(y, x[i]));
            }
            assert(entry_found(y, x[x.len() - 1]));
        }
        if entries_within(x, y) {
            assert forall|i: int| 0 <= i < x.len() implies #[trigger] entry_found(y, x[i]) by {
                if i < x.len() - 1 {
                    assert(entry_found(y, xs[i]));
                }
            }
        }
    }
}

/// Two entry lists of one length, without repeated keys, where every key of
/// the first occurs in the second: then every key of the second occurs in
/// the first.
proof fn lemma_keys_cover(x: Seq<(Seq<char>, ValueModel)>, y: Seq<(Seq<char>, ValueModel)>)
    requires
        distinct_keys(x),
        distinct_keys(y),
        x.len() == y.len(),
        forall|i: int| 0 <= i < x.len() ==> has_key(y, #[trigger] x[i].0),
    ensures
        forall|j: int| 0 <= j < y.len() ==> has_key(x, #[trigger] y[j].0),
{
    let kx = crate::resource::keys_of(x);
    let ky = crate::resource::keys_of(y);
    assert(kx.no_duplicates());
    assert(ky.no_duplicates());
    kx.unique_seq_to_set();
    ky.unique_seq_to_set();
    assert(kx.to_set().subset_of(ky.to_set())) by {
        assert forall|k: Seq<char>| kx.to_set().contains(k) implies ky.to_set().contains(k) by {
            let i = choose|i: int| 0 <= i < kx.len() && kx[i] == k;
            assert(has_key(y, x[i].0));
            let j = choose|j: int| 0 <= j < y.len() && y[j].0 == x[i].0;
            assert(ky[j] == k);
        }
    }
    vstd::set_lib::lemma_subset_equality(kx.to_set(), ky.to_set());
    assert forall|j: int| 0 <= j < y.len() implies has_key(x, #[trigger] y[j].0) by {
        assert(ky[j] == y[j].0);
        assert(ky.to_set().contains(y[j].0));
        assert(kx.to_set().contains(y[j].0));
        let i = choose|i: int| 0 <= i < kx.len() && kx[i] == y[j].0;
        assert(x[i].0 == y[j].0);
    }
}

/// Value equality is symmetric: comparing `a` with `b` gives what comparing
/// `b` with `a` gives.
pub proof fn lemma_same_value_symmetric(a: ValueModel, b: ValueModel)
    requires
        keys_unique(a),
        keys_unique(b),
    ensures
        same_value(a, b) == same_value(b, a),
    decreases a,
{
    match (a, b) {
        (ValueModel::List(x), ValueModel::List(y)) => {
            lemma_same_items_all(x, y);
            lemma_same_items_all(y, x);
            if x.len() == y.len() {
                assert forall|i: int| 0 <= i < x.len() implies same_value(#[trigger] x[i], y[i])
                    == same_value(y[i], x[i]) by {
                    assert(keys_unique(x[i]));
                    assert(keys_unique(y[i]));
                    lemma_same_value_symmetric(x[i], y[i]);
                }
            }
        },
        (ValueModel::Dict(x), ValueModel::Dict(y)) => {
            if x.len() == y.len() {
                lemma_entries_within_all(x, y);
                lemma_entries_within_all(y, x);
                if entries_within(x, y) {
                    assert forall|i: int| 0 <= i < x.len() implies has_key(y, #[trigger] x[i].0) by {
                        assert(entry_found(y, x[i]));
                        if !has_key(y, x[i].0) {
                            crate::resource::lemma_lookup_absent(y, x[i].0);
                        }
                    }
                    lemma_keys_cover(x, y);
                    assert forall|j: int| 0 <= j < y.len() implies #[trigger] entry_found(x, y[j]) by {
                        assert(has_key(x, y[j].0));
                        let i = choose|i: int| 0 <= i < x.len() && x[i].0 == y[j].0;
                        crate::resource::lemma_lookup_index(x, y[j].0, i);
                        crate::resource::lemma_lookup_index(y, y[j].0, j);
                        assert(entry_found(y, x[i]));
                        assert(keys_unique(x[i].1));
                        assert(keys_unique(y[j].1));
                        lemma_same_value_symmetric(x[i].1, y[j].1);
                    }
                }
                if entries_within(y, x) {
                    assert forall|j: int| 0 <= j < y.len() implies has_key(x, #[trigger] y[j].0) by {
                        assert(entry_found(x, y[j]));
                        if !has_key(x, y[j].0) {
                            crate::resource::lemma_lookup_absent(x, y[j].0);
                        }
                    }
                    lemma_keys_cover(y, x);
                    assert forall|i: int| 0 <= i < x.len() implies #[trigger] entry_found(y, x[i]) by {
                        assert(has_key(y, x[i].0));
                        let j = choose|j: int| 0 <= j < y.len() && y[j].0 == x[i].0;
                        crate::resource::lemma_lookup_index(x, x[i].0, i);
                        crate::resource::lemma_lookup_index(y, x[i].0, j);
                        assert(entry_found(x, y[j]));
                        assert(keys_unique(x[i].1));
                        assert(keys_unique(y[j].1));
                        lemma_same_value_symmetric(x[i].1, y[j].1);
                    }
                }
            }
        },
        _ => {},
    }
}

/// Two maps that compare equal hold the same keys.
pub proof fn lemma_same_dict_keys(x: Seq<(Seq<char>, ValueModel)>, y: Seq<(Seq<char>, ValueModel)>)
    requires
        keys_unique(ValueModel::Dict(x)),
        keys_unique(ValueModel::Dict(y)),
        same_value(ValueModel::Dict(x), ValueModel::Dict(y)),
    ensures
        forall|k: Seq<char>| has_key(x, k) <==> has_key(y, k),
{
    lemma_entries_within_all(x, y);
    assert forall|i: int| 0 <= i < x.len() implies has_key(y, #[trigger] x[i].0) by {
        assert(entry_found(y, x[i]));
        if !has_key(y, x[i].0) {
            crate::resource::lemma_lookup_absent(y, x[i].0);
        }
    }
    lemma_keys_cover(x, y);
    assert forall|k: Seq<char>| has_key(x, k) <==> has_key(y, k) by {
        if has_key(x, k) {
            let i = choose|i: int| 0 <= i < x.len() && x[i].0 == k;
            assert(has_key(y, x[i].0));
        }
        if has_key(y, k) {
            let j = choose|j: int| 0 <= j < y.len() && y[j].0 == k;
            assert(has_key(x, y[j].0));
        }
    }
}

/// Every value equals itself.
pub proof fn lemma_same_value_reflexive(a: ValueModel)
    requires
        keys_unique(a),
    ensures
        same_value(a, a),
    decreases a,
{
    match a {
        ValueModel::List(x) => {
            lemma_same_items_all(x, x);
            assert forall|i: int| 0 <= i < x.len() implies same_value(#[trigger] x[i], x[i]) by {
                lemma_same_value_reflexive(x[i]);
            }
        },
        ValueModel::Dict(x) => {
            lemma_entries_within_all(x, x);
            assert forall|i: int| 0 <= i < x.len() implies #[trigger] entry_found(x, x[i]) by {
                crate::resource::lemma_lookup_index(x, x[i].0, i);
                lemma_same_value_reflexive(x[i].1);
            }
        },
        _ => {},
    }
}

/// Two maps are equal exactly when they hold the same keys and, under each
/// key, equal values.
pub proof fn lemma_same_dict(x: Seq<(Seq<char>, ValueModel)>, y: Seq<(Seq<char>, ValueModel)>)
    requires
        keys_unique(ValueModel::Dict(x)),
        keys_unique(ValueModel::Dict(y)),
    ensures
        same_value(ValueModel::Dict(x), ValueModel::Dict(y)) <==> (forall|k: Seq<char>| has_key(x, k) <==> has_key(y, k))
            && forall|i: int|
            0 <= i < x.len() ==> (#[trigger] lookup(y, x[i].0) matches Some(w) && same_value(x[i].1, w)),
{
    lemma_entries_within_all(x, y);
    if same_value(ValueModel::Dict(x), ValueModel::Dict(y)) {
        lemma_same_dict_keys(x, y);
        assert forall|i: int| 0 <= i < x.len() implies (#[trigger] lookup(y, x[i].0) matches Some(w) && same_value(x[i].1, w)) by {
            assert(entry_found(y, x[i]));
        }
    }
    if (forall|k: Seq<char>| has_key(x, k) <==> has_key(y, k)) && forall|i: int|
        0 <= i < x.len() ==> (#[trigger] lookup(y, x[i].0) matches Some(w) && same_value(x[i].1, w)) {
        assert forall|i: int| 0 <= i < x.len() implies #[trigger] entry_found(y, x[i]) by {
            assert(lookup(y, x[i].0) matches Some(w) && same_value(x[i].1, w));
        }
        let kx = crate::resource::keys_of(x);
        let ky = crate::resource::keys_of(y);
        kx.unique_seq_to_set();
        ky.unique_seq_to_set();
        assert(kx.to_set() =~= ky.to_set()) by {
            assert forall|k: Seq<char>| kx.to_set().contains(k) <==> ky.to_set().contains(k) by {
                if kx.to_set().contains(k) {
                    let i = choose|i: int| 0 <= i < kx.len() && kx[i] == k;
                    assert(has_key(x, x[i].0));
                    assert(has_key(y, k));
                    let j = choose|j: int| 0 <= j < y.len() && y[j].0 == k;
                    assert(ky[j] == k);
                }
                if ky.to_set().contains(k) {
                    let j = choose|j: int| 0 <= j < ky.len() && ky[j] == k;
                    assert(has_key(y, y[j].0));
                    assert(has_key(x, k));
                    let i = choose|i: int| 0 <= i < x.len() && x[i].0 == k;
                    assert(kx[i] == k);
                }
            }
        }
    }
}

// ---------------------------------------------------------------------------
// The execution plan, as shown before applying
// ---------------------------------------------------------------------------

/// How a piece of output is styled on a terminal.
#[derive(Debug, Clone, Copy, PartialEq, Eq, Structural)]
pub enum Style {
    Plain,
    Bold,
    Dimmed,
    Green,
    GreenBold,
    Yellow,
    YellowBold,
    Red,
    RedBold,
    Cyan,
    CyanBold,
    WhiteBold,
}

/// A piece of output text with its style.
#[derive(Debug, Clone)]
pub struct Styled {
    pub text: String,
    pub style: Style,
}

/// The models of styled pieces.
pub open spec fn styled_view(v: Seq<Styled>) -> Seq<(Seq<char>, Style)> {
    Seq::new(v.len(), |i: int| (v[i].text@, v[i].style))
}

/// One piece.
pub open spec fn piece(t: Seq<char>, s: Style) -> Seq<(Seq<char>, Style)> {
    seq![(t, s)]
}

/// The end of a line.
pub open spec fn nl() -> Seq<(Seq<char>, Style)> {
    piece("\n"@, Style::Plain)
}

/// The resource an effect shows (none for a delete).
pub open spec fn effect_resource(e: Effect) -> Option<Resource> {
    match e {
        Effect::Create(r) => Some(r),
        Effect::Update { to, .. } => Some(to),
        Effect::Read { resource } => Some(resource),
        Effect::Delete(_) => None,
    }
}

/// The binding of an effect's resource: its `_binding` name, or
/// `type.name`.
pub open spec fn effect_binding(e: Effect) -> Option<Seq<char>> {
    match effect_resource(e) {
        Some(r) => Some(
            match lookup(r.attributes@, "_binding"@) {
                Some(ValueModel::Str(b)) => b,
                _ => r.id.resource_type@ + "."@ + r.id.name@,
            },
        ),
        None => None,
    }
}

/// The binding names an effect's resource depends on.
pub open spec fn effect_deps(e: Effect) -> Seq<Seq<char>> {
    match effect_resource(e) {
        Some(r) => resource_dependencies(r.attributes@),
        None => Seq::empty(),
    }
}

/// The last effect among the first `n` with a binding.
pub open spec fn binding_index_upto(es: Seq<Effect>, name: Seq<char>, n: int) -> Option<int>
    decreases n,
{
    if n <= 0 {
        None
    } else if effect_binding(es[n - 1]) == Some(name) {
        Some(n - 1)
    } else {
        binding_index_upto(es, name, n - 1)
    }
}

/// The last effect with a binding.
pub open spec fn binding_index(es: Seq<Effect>, name: Seq<char>) -> Option<int> {
    binding_index_upto(es, name, es.len() as int)
}

/// Whether effect `i` depends on effect `j`.
pub open spec fn effect_depends_on(es: Seq<Effect>, i: int, j: int) -> bool {
    exists|k: int| 0 <= k < effect_deps(es[i]).len() && binding_index(es, effect_deps(es[i])[k]) == Some(j)
}

/// Whether effect `i` depends on no effect of the plan.
pub open spec fn effect_is_root(es: Seq<Effect>, i: int) -> bool {
    forall|k: int| 0 <= k < effect_deps(es[i]).len() ==> binding_index(es, #[trigger] effect_deps(es[i])[k]) is None
}

/// The effects among the first `n` that depend on effect `j`, in order.
pub open spec fn dependents_upto(es: Seq<Effect>, j: int, n: int) -> Seq<usize>
    decreases n,
{
    if n <= 0 {
        Seq::empty()
    } else if effect_depends_on(es, n - 1, j) {
        dependents_upto(es, j, n - 1).push((n - 1) as usize)
    } else {
        dependents_upto(es, j, n - 1)
    }
}

/// The effects that depend on effect `j`, in order.
pub open spec fn effect_dependents(es: Seq<Effect>, j: int) -> Seq<usize> {
    dependents_upto(es, j, es.len() as int)
}

/// The effects among the first `n` that depend on no other, in order.
pub open spec fn roots_upto(es: Seq<Effect>, n: int) -> Seq<usize>
    decreases n,
{
    if n <= 0 {
        Seq::empty()
    } else if effect_is_root(es, n - 1) {
        roots_upto(es, n - 1).push((n - 1) as usize)
    } else {
        roots_upto(es, n - 1)
    }
}

/// The indices not among `printed`, in order.
pub open spec fn not_printed(s: Seq<usize>, printed: Seq<usize>) -> Seq<usize>
    decreases s.len(),
{
    if s.len() == 0 {
        Seq::empty()
    } else if printed.contains(s.last()) {
        not_printed(s.drop_last(), printed)
    } else {
        not_printed(s.drop_last(), printed).push(s.last())
    }
}

/// The first `n` indices.
pub open spec fn indices(n: nat) -> Seq<usize> {
    Seq::new(n, |i: int| i as usize)
}

/// The prefix that continues a branch below a node.
pub open spec fn continuation(prefix: Seq<char>, is_last: bool) -> Seq<char> {
    if is_last {
        prefix + "   "@
    } else {
        prefix + "│  "@
    }
}

/// The indentation of the attribute lines of a node.
pub open spec fn attr_prefix(top: bool, is_last: bool, prefix: Seq<char>) -> Seq<char> {
    if top {
        "  "@ + "    "@
    } else {
        "  "@ + continuation(prefix, is_last) + "   "@
    }
}

/// The prefix of a node's children.
pub open spec fn kids_prefix(top: bool, is_last: bool, prefix: Seq<char>) -> Seq<char> {
    if top {
        "    "@ + "  "@
    } else {
        continuation(prefix, is_last) + "   "@
    }
}

/// The branch drawn before a node.
pub open spec fn branch(top: bool, is_last: bool, prefix: Seq<char>) -> Seq<char> {
    if top {
        Seq::empty()
    } else if is_last {
        prefix + "└─ "@
    } else {
        prefix + "├─ "@
    }
}

/// The attribute names that are not internal, in order.
pub open spec fn visible_keys(attrs: Seq<(Seq<char>, ValueModel)>) -> Seq<Seq<char>>
    decreases attrs.len(),
{
    if attrs.len() == 0 {
        Seq::empty()
    } else if crate::module::internal_key(attrs.last().0) {
        visible_keys(attrs.drop_last())
    } else {
        visible_keys(attrs.drop_last()).push(attrs.last().0)
    }
}

/// The attribute names shown for a resource: `name` first, then the other
/// visible names in lexicographic order.
pub open spec fn shown_keys(attrs: Seq<(Seq<char>, ValueModel)>) -> Seq<Seq<char>> {
    let keys = visible_keys(attrs);
    if keys.contains("name"@) {
        seq!["name"@] + crate::module::sort_names(crate::module::not_among(keys, seq!["name"@]))
    } else {
        crate::module::sort_names(keys)
    }
}

/// The line of an attribute of a resource to create.
pub open spec fn create_attr_line(ap: Seq<char>, key: Seq<char>, v: ValueModel) -> Seq<(Seq<char>, Style)> {
    let is_name = key == "name"@;
    piece(ap, Style::Plain) + piece(key, if is_name { Style::Bold } else { Style::Plain }) + piece(": "@, Style::Plain)
        + piece(plan_value_text(v), if is_name { Style::WhiteBold } else { Style::Green }) + nl()
}

/// The line of a changed attribute of a resource to update.
pub open spec fn update_attr_line(
    ap: Seq<char>,
    key: Seq<char>,
    old: Option<ValueModel>,
    new: ValueModel,
) -> Seq<(Seq<char>, Style)> {
    let is_name = key == "name"@;
    let old_str = match old {
        Some(o) => plan_value_text(o),
        None => "(none)"@,
    };
    piece(ap, Style::Plain) + piece(key, if is_name { Style::Bold } else { Style::Plain }) + piece(": "@, Style::Plain)
        + piece(old_str, Style::Red) + piece(" → "@, Style::Plain) + piece(
        plan_value_text(new),
        if is_name { Style::WhiteBold } else { Style::Green },
    ) + nl()
}

/// The attribute lines of a resource to create.
pub open spec fn create_attr_lines(ap: Seq<char>, attrs: Seq<(Seq<char>, ValueModel)>, keys: Seq<Seq<char>>) -> Seq<(Seq<char>, Style)>
    decreases keys.len(),
{
    if keys.len() == 0 {
        Seq::empty()
    } else {
        create_attr_lines(ap, attrs, keys.drop_last()) + match lookup(attrs, keys.last()) {
            Some(v) => create_attr_line(ap, keys.last(), v),
            None => Seq::empty(),
        }
    }
}

/// The lines of the changed attributes of a resource to update.
pub open spec fn update_attr_lines(
    ap: Seq<char>,
    from: Seq<(Seq<char>, ValueModel)>,
    to: Seq<(Seq<char>, ValueModel)>,
    keys: Seq<Seq<char>>,
) -> Seq<(Seq<char>, Style)>
    decreases keys.len(),
{
    if keys.len() == 0 {
        Seq::empty()
    } else {
        update_attr_lines(ap, from, to, keys.drop_last()) + match lookup(to, keys.last()) {
            Some(v) => match lookup(from, keys.last()) {
                Some(o) => if same_value(o, v) {
                    Seq::empty()
                } else {
                    update_attr_line(ap, keys.last(), Some(o), v)
                },
                None => update_attr_line(ap, keys.last(), None, v),
            },
            None => Seq::empty(),
        }
    }
}

/// The lines of one effect.
pub open spec fn effect_lines_at(e: Effect, top: bool, is_last: bool, prefix: Seq<char>) -> Seq<(Seq<char>, Style)> {
    let head = piece("  "@ + branch(top, is_last, prefix), Style::Plain);
    let ap = attr_prefix(top, is_last, prefix);
    match e {
        Effect::Create(r) => head + piece("+"@, Style::GreenBold) + piece(" "@, Style::Plain) + piece(
            r.id.resource_type@,
            Style::CyanBold,
        ) + nl() + create_attr_lines(ap, r.attributes@, shown_keys(r.attributes@)),
        Effect::Update { id, from, to } => head + piece("~"@, Style::YellowBold) + piece(" "@, Style::Plain)
            + piece(id.resource_type@, Style::CyanBold) + nl() + update_attr_lines(
            ap,
            from.attributes@,
            to.attributes@,
            shown_keys(to.attributes@),
        ),
        Effect::Delete(id) => head + piece("-"@, Style::RedBold) + piece(" "@, Style::Plain) + piece(
            id.resource_type@,
            Style::CyanBold,
        ) + nl() + piece(ap, Style::Plain) + piece("name"@, Style::Bold) + piece(": "@, Style::Plain) + piece(
            id.name@,
            Style::RedBold,
        ) + nl(),
        Effect::Read { resource } => head + piece("<="@, Style::CyanBold) + piece(" "@, Style::Plain) + piece(
            resource.id.resource_type@,
            Style::CyanBold,
        ) + piece(" "@, Style::Plain) + piece("(data source)"@, Style::Dimmed) + nl() + piece(ap, Style::Plain)
            + piece("name"@, Style::Bold) + piece(": "@, Style::Plain) + piece(resource.id.name@, Style::CyanBold)
            + nl(),
    }
}

/// The lines of an effect and of the effects depending on it not shown
/// yet, with the effects shown afterwards; `fuel` bounds the depth.
pub open spec fn effect_tree(
    es: Seq<Effect>,
    fuel: nat,
    idx: usize,
    top: bool,
    is_last: bool,
    prefix: Seq<char>,
    printed: Seq<usize>,
) -> (Seq<(Seq<char>, Style)>, Seq<usize>)
    decreases fuel, 0nat, 0nat,
{
    if fuel == 0 || printed.contains(idx) || idx >= es.len() {
        (Seq::empty(), printed)
    } else {
        let p1 = printed.push(idx);
        let kids = not_printed(effect_dependents(es, idx as int), p1);
        let rest = effect_forest(es, (fuel - 1) as nat, kids, kids.len(), kids_prefix(top, is_last, prefix), p1, false, false);
        (effect_lines_at(es[idx as int], top, is_last, prefix) + rest.0, rest.1)
    }
}

/// The trees of the first `n` nodes, one after the other: as top-level
/// nodes or as children; with `all_last`, each is drawn as a last node.
pub open spec fn effect_forest(
    es: Seq<Effect>,
    fuel: nat,
    nodes: Seq<usize>,
    n: nat,
    prefix: Seq<char>,
    printed: Seq<usize>,
    top: bool,
    all_last: bool,
) -> (Seq<(Seq<char>, Style)>, Seq<usize>)
    decreases fuel, 1nat, n,
{
    if n == 0 || n > nodes.len() {
        (Seq::empty(), printed)
    } else {
        let before = effect_forest(es, fuel, nodes, (n - 1) as nat, prefix, printed, top, all_last);
        let this = effect_tree(es, fuel, nodes[n - 1], top, all_last || n == nodes.len(), prefix, before.1);
        (before.0 + this.0, this.1)
    }
}

/// Enough depth for any tree of a plan: a branch shows each effect at most once.
pub open spec fn plan_fuel(n: nat) -> nat {
    if n < usize::MAX {
        n + 1
    } else {
        usize::MAX as nat
    }
}

/// The summary line under a plan.
pub open spec fn plan_summary_line(es: Seq<Effect>) -> Seq<(Seq<char>, Style)> {
    let read = crate::plan::count_where(es, crate::effect::EffectClass::Read);
    let create = crate::plan::count_where(es, crate::effect::EffectClass::Create);
    let update = crate::plan::count_where(es, crate::effect::EffectClass::Update);
    let delete = crate::plan::count_where(es, crate::effect::EffectClass::Delete);
    (if read > 0 {
        piece("Plan: "@, Style::Plain) + piece(crate::text::nat_digits(read), Style::Cyan) + piece(" to read, "@, Style::Plain)
    } else {
        piece("Plan: "@, Style::Plain)
    }) + piece(crate::text::nat_digits(create), Style::Green) + piece(" to add, "@, Style::Plain) + piece(
        crate::text::nat_digits(update),
        Style::Yellow,
    ) + piece(" to change, "@, Style::Plain) + piece(crate::text::nat_digits(delete), Style::Red) + piece(
        " to destroy."@,
        Style::Plain,
    ) + nl()
}

/// The whole shown plan: each root effect with the effects depending on
/// it, then any effect not reached from a root, then the summary.
pub open spec fn plan_view_text(es: Seq<Effect>) -> Seq<(Seq<char>, Style)> {
    if es.len() == 0 {
        piece("No changes. Infrastructure is up-to-date."@, Style::Green) + nl()
    } else {
        let fuel = plan_fuel(es.len());
        let roots = roots_upto(es, es.len() as int);
        let shown = effect_forest(es, fuel, roots, roots.len(), Seq::empty(), Seq::empty(), true, false);
        let remaining = not_printed(indices(es.len()), shown.1);
        let rest = effect_forest(es, fuel, remaining, remaining.len(), Seq::empty(), shown.1, true, true);
        piece("Execution Plan:"@, Style::CyanBold) + nl() + nl() + shown.0 + rest.0 + nl() + plan_summary_line(es)
    }
}

fn push_piece(out: &mut Vec<Styled>, text: &str, style: Style)
    ensures
        styled_view(final(out)@) == styled_view(old(out)@) + piece(text@, style),
{
    let ghost before = styled_view(out@);
    out.push(Styled { text: str_to_string(text), style });
    proof {
        assert(styled_view(out@) =~= before + piece(text@, style));
    }
}

/// The attribute names shown for a resource.
fn shown_keys_of(attrs: &crate::resource::ValueMap) -> (r: Vec<String>)
    ensures
        crate::graph::names_model(r@) == shown_keys(attrs@),
{
    let ghost av = attrs@;
    let mut keys: Vec<String> = Vec::new();
    let mut i: usize = 0;
    while i < attrs.entries.len()
        invariant
            i <= attrs.entries.len(),
            av == attrs@,
            crate::graph::names_model(keys@) == visible_keys(av.take(i as int)),
        decreases attrs.entries.len() - i,
    {
        proof {
            assert(av.take(i + 1).drop_last() =~= av.take(i as int));
            assert(av.take(i + 1).last() == av[i as int]);
        }
        let kc = chars_of(attrs.entries[i].0.as_str());
        if !(kc.len() > 0 && kc[0] == '_') {
            let ghost before = crate::graph::names_model(keys@);
            keys.push(copy_string(&attrs.entries[i].0));
            proof {
                assert(crate::graph::names_model(keys@) =~= before.push(av[i as int].0));
            }
        }
        i += 1;
    }
    proof {
        assert(av.take(attrs.entries.len() as int) =~= av);
        reveal_strlit("name");
    }
    if crate::graph::names_contain(&keys, "name") {
        let mut others: Vec<String> = Vec::new();
        let ghost km = crate::graph::names_model(keys@);
        let mut i: usize = 0;
        while i < keys.len()
            invariant
                i <= keys.len(),
                km == crate::graph::names_model(keys@),
                crate::graph::names_model(others@) == crate::module::not_among(km.take(i as int), seq!["name"@]),
            decreases keys.len() - i,
        {
            proof {
                assert(km.take(i + 1).drop_last() =~= km.take(i as int));
                assert(km.take(i + 1).last() == keys@[i as int]@);
                assert(seq!["name"@].contains(keys@[i as int]@) == (keys@[i as int]@ == "name"@)) by {
                    if keys@[i as int]@ == "name"@ {
                        assert(seq!["name"@][0] == keys@[i as int]@);
                    }
                }
            }
            if !crate::text::str_eq(keys[i].as_str(), "name") {
                let ghost before = crate::graph::names_model(others@);
                others.push(copy_string(&keys[i]));
                proof {
                    assert(crate::graph::names_model(others@) =~= before.push(keys@[i as int]@));
                }
            }
            i += 1;
        }
        proof {
            assert(km.take(keys.len() as int) =~= km);
        }
        let sorted = crate::module::sort_strings(&others);
        let mut out: Vec<String> = Vec::new();
        out.push(str_to_string("name"));
        let mut i: usize = 0;
        while i < sorted.len()
            invariant
                i <= sorted.len(),
                crate::graph::names_model(out@) == seq!["name"@] + crate::graph::names_model(sorted@).take(i as int),
            decreases sorted.len() - i,
        {
            let ghost before = crate::graph::names_model(out@);
            out.push(copy_string(&sorted[i]));
            proof {
                assert(crate::graph::names_model(out@) =~= before.push(sorted@[i as int]@));
                assert(crate::graph::names_model(sorted@).take(i + 1) =~= crate::graph::names_model(sorted@).take(i as int).push(sorted@[i as int]@));
            }
            i += 1;
        }
        proof {
            assert(crate::graph::names_model(sorted@).take(sorted.len() as int) =~= crate::graph::names_model(sorted@));
        }
        out
    } else {
        crate::module::sort_strings(&keys)
    }
}

/// The attribute lines of a resource to create.
fn push_create_attrs(out: &mut Vec<Styled>, ap: &str, attrs: &crate::resource::ValueMap)
    ensures
        styled_view(final(out)@) == styled_view(old(out)@) + create_attr_lines(ap@, attrs@, shown_keys(attrs@)),
{
    let keys = shown_keys_of(attrs);
    let ghost km = crate::graph::names_model(keys@);
    let ghost start = styled_view(out@);
    let mut i: usize = 0;
    while i < keys.len()
        invariant
            i <= keys.len(),
            km == crate::graph::names_model(keys@),
            styled_view(out@) == start + create_attr_lines(ap@, attrs@, km.take(i as int)),
        decreases keys.len() - i,
    {
        proof {
            assert(km.take(i + 1).drop_last() =~= km.take(i as int));
            assert(km.take(i + 1).last() == keys@[i as int]@);
            reveal_strlit("name");
        }
        let key = keys[i].as_str();
        match attrs.get(key) {
            Some(v) => {
                let is_name = crate::text::str_eq(key, "name");
                push_piece(out, ap, Style::Plain);
                push_piece(out, key, if is_name { Style::Bold } else { Style::Plain });
                push_piece(out, ": ", Style::Plain);
                let shown = format_value(v);
                push_piece(out, shown.as_str(), if is_name { Style::WhiteBold } else { Style::Green });
                push_piece(out, "\n", Style::Plain);
            },
            None => {},
        }
        i += 1;
    }
    proof {
        assert(km.take(keys.len() as int) =~= km);
    }
}

/// The lines of the changed attributes of a resource to update.
fn push_update_attrs(out: &mut Vec<Styled>, ap: &str, from: &crate::resource::ValueMap, to: &crate::resource::ValueMap)
    ensures
        styled_view(final(out)@) == styled_view(old(out)@) + update_attr_lines(ap@, from@, to@, shown_keys(to@)),
{
    let keys = shown_keys_of(to);
    let ghost km = crate::graph::names_model(keys@);
    let ghost start = styled_view(out@);
    let mut i: usize = 0;
    while i < keys.len()
        invariant
            i <= keys.len(),
            km == crate::graph::names_model(keys@),
            styled_view(out@) == start + update_attr_lines(ap@, from@, to@, km.take(i as int)),
        decreases keys.len() - i,
    {
        proof {
            assert(km.take(i + 1).drop_last() =~= km.take(i as int));
            assert(km.take(i + 1).last() == keys@[i as int]@);
            reveal_strlit("name");
            reveal_strlit("(none)");
        }
        let key = keys[i].as_str();
        match to.get(key) {
            Some(v) => {
                let (changed, old_str) = match from.get(key) {
                    Some(o) => (!values_equal(o, v), format_value(o)),
                    None => (true, str_to_string("(none)")),
                };
                if changed {
                    let is_name = crate::text::str_eq(key, "name");
                    push_piece(out, ap, Style::Plain);
                    push_piece(out, key, if is_name { Style::Bold } else { Style::Plain });
                    push_piece(out, ": ", Style::Plain);
                    push_piece(out, old_str.as_str(), Style::Red);
                    push_piece(out, " → ", Style::Plain);
                    let shown = format_value(v);
                    push_piece(out, shown.as_str(), if is_name { Style::WhiteBold } else { Style::Green });
                    push_piece(out, "\n", Style::Plain);
                }
            },
            None => {},
        }
        i += 1;
    }
    proof {
        assert(km.take(keys.len() as int) =~= km);
    }
}

/// The lines of one effect.
fn push_effect_lines(out: &mut Vec<Styled>, e: &Effect, top: bool, is_last: bool, prefix: &str)
    ensures
        styled_view(final(out)@) == styled_view(old(out)@) + effect_lines_at(*e, top, is_last, prefix@),
{
    let ghost start = styled_view(out@);
    let mut head = str_to_string("  ");
    if !top {
        push_str(&mut head, prefix);
        if is_last {
            push_str(&mut head, "└─ ");
        } else {
            push_str(&mut head, "├─ ");
        }
    }
    proof {
        assert(head@ =~= "  "@ + branch(top, is_last, prefix@));
    }
    let mut ap = str_to_string("  ");
    if top {
        push_str(&mut ap, "    ");
    } else {
        push_str(&mut ap, prefix);
        if is_last {
            push_str(&mut ap, "   ");
        } else {
            push_str(&mut ap, "│  ");
        }
        push_str(&mut ap, "   ");
    }
    proof {
        assert(ap@ =~= attr_prefix(top, is_last, prefix@));
    }
    push_piece(out, head.as_str(), Style::Plain);
    match e {
        Effect::Create(r) => {
            push_piece(out, "+", Style::GreenBold);
            push_piece(out, " ", Style::Plain);
            push_piece(out, r.id.resource_type.as_str(), Style::CyanBold);
            push_piece(out, "\n", Style::Plain);
            push_create_attrs(out, ap.as_str(), &r.attributes);
        },
        Effect::Update { id, from, to } => {
            push_piece(out, "~", Style::YellowBold);
            push_piece(out, " ", Style::Plain);
            push_piece(out, id.resource_type.as_str(), Style::CyanBold);
            push_piece(out, "\n", Style::Plain);
            push_update_attrs(out, ap.as_str(), &from.attributes, &to.attributes);
        },
        Effect::Delete(id) => {
            push_piece(out, "-", Style::RedBold);
            push_piece(out, " ", Style::Plain);
            push_piece(out, id.resource_type.as_str(), Style::CyanBold);
            push_piece(out, "\n", Style::Plain);
            push_piece(out, ap.as_str(), Style::Plain);
            push_piece(out, "name", Style::Bold);
            push_piece(out, ": ", Style::Plain);
            push_piece(out, id.name.as_str(), Style::RedBold);
            push_piece(out, "\n", Style::Plain);
        },
        Effect::Read { resource } => {
            push_piece(out, "<=", Style::CyanBold);
            push_piece(out, " ", Style::Plain);
            push_piece(out, resource.id.resource_type.as_str(), Style::CyanBold);
            push_piece(out, " ", Style::Plain);
            push_piece(out, "(data source)", Style::Dimmed);
            push_piece(out, "\n", Style::Plain);
            push_piece(out, ap.as_str(), Style::Plain);
            push_piece(out, "name", Style::Bold);
            push_piece(out, ": ", Style::Plain);
            push_piece(out, resource.id.name.as_str(), Style::CyanBold);
            push_piece(out, "\n", Style::Plain);
        },
    }
    proof {
        assert(styled_view(out@) =~= start + effect_lines_at(*e, top, is_last, prefix@));
    }
}

/// The binding of an effect's resource.
fn effect_binding_of(e: &Effect) -> (r: Option<String>)
    ensures
        crate::resource::opt_str_view(r) == effect_binding(*e),
{
    let r = match e {
        Effect::Create(r) => r,
        Effect::Update { to, .. } => to,
        Effect::Read { resource } => resource,
        Effect::Delete(_) => {
            return None;
        },
    };
    match r.attributes.get("_binding") {
        Some(Value::String(b)) => Some(copy_string(b)),
        _ => {
            let mut s = copy_string(&r.id.resource_type);
            push_str(&mut s, ".");
            push_str(&mut s, r.id.name.as_str());
            Some(s)
        },
    }
}

/// The binding names an effect's resource depends on.
fn effect_deps_of(e: &Effect) -> (r: Vec<String>)
    ensures
        crate::graph::names_model(r@) == effect_deps(*e),
{
    match e {
        Effect::Create(r) => get_resource_dependencies(r),
        Effect::Update { to, .. } => get_resource_dependencies(to),
        Effect::Read { resource } => get_resource_dependencies(resource),
        Effect::Delete(_) => {
            let v: Vec<String> = Vec::new();
            proof {
                assert(crate::graph::names_model(v@) =~= Seq::<Seq<char>>::empty());
            }
            v
        },
    }
}

/// The bindings of all effects.
pub open spec fn bindings_match(b: Seq<Option<String>>, es: Seq<Effect>) -> bool {
    b.len() == es.len() && forall|i: int| 0 <= i < es.len() ==> crate::resource::opt_str_view(#[trigger] b[i]) == effect_binding(es[i])
}

/// The last effect with a binding.
fn find_binding_index(bindings: &Vec<Option<String>>, name: &str, Ghost(es): Ghost<Seq<Effect>>) -> (r: Option<usize>)
    requires
        bindings_match(bindings@, es),
    ensures
        match r {
            Some(i) => binding_index(es, name@) == Some(i as int),
            None => binding_index(es, name@) is None,
        },
{
    let mut k: usize = bindings.len();
    while k > 0
        invariant
            k <= bindings.len(),
            bindings_match(bindings@, es),
            binding_index(es, name@) == binding_index_upto(es, name@, k as int),
        decreases k,
    {
        let hit = match &bindings[k - 1] {
            Some(b) => crate::text::str_eq(b.as_str(), name),
            None => false,
        };
        proof {
            assert(crate::resource::opt_str_view(bindings@[k - 1]) == effect_binding(es[k - 1]));
        }
        if hit {
            return Some(k - 1);
        }
        k -= 1;
    }
    None
}

/// Which effect (if any) each dependency of each effect refers to.
fn dependency_targets(es: &[Effect], bindings: &Vec<Option<String>>) -> (r: Vec<Vec<Option<usize>>>)
    requires
        bindings_match(bindings@, es@),
    ensures
        r.len() == es.len(),
        forall|i: int| 0 <= i < es.len() ==> (#[trigger] r@[i]).len() == effect_deps(es@[i]).len(),
        forall|i: int, k: int| 0 <= i < es.len() && 0 <= k < r@[i].len() ==> match #[trigger] r@[i]@[k] {
            Some(j) => binding_index(es@, effect_deps(es@[i])[k]) == Some(j as int),
            None => binding_index(es@, effect_deps(es@[i])[k]) is None,
        },
{
    let mut out: Vec<Vec<Option<usize>>> = Vec::new();
    let mut i: usize = 0;
    while i < es.len()
        invariant
            i <= es.len(),
            bindings_match(bindings@, es@),
            out.len() == i,
            forall|a: int| 0 <= a < i ==> (#[trigger] out@[a]).len() == effect_deps(es@[a]).len(),
            forall|a: int, k: int| 0 <= a < i && 0 <= k < out@[a].len() ==> match #[trigger] out@[a]@[k] {
                Some(j) => binding_index(es@, effect_deps(es@[a])[k]) == Some(j as int),
                None => binding_index(es@, effect_deps(es@[a])[k]) is None,
            },
        decreases es.len() - i,
    {
        let deps = effect_deps_of(&es[i]);
        let mut row: Vec<Option<usize>> = Vec::new();
        let mut k: usize = 0;
        while k < deps.len()
            invariant
                k <= deps.len(),
                i < es.len(),
                bindings_match(bindings@, es@),
                crate::graph::names_model(deps@) == effect_deps(es@[i as int]),
                row.len() == k,
                forall|m: int| 0 <= m < k ==> match #[trigger] row@[m] {
                    Some(j) => binding_index(es@, effect_deps(es@[i as int])[m]) == Some(j as int),
                    None => binding_index(es@, effect_deps(es@[i as int])[m]) is None,
                },
            decreases deps.len() - k,
        {
            proof {
                assert(crate::graph::names_model(deps@)[k as int] == deps@[k as int]@);
            }
            row.push(find_binding_index(bindings, deps[k].as_str(), Ghost(es@)));
            k += 1;
        }
        out.push(row);
        i += 1;
    }
    out
}

/// Whether an index is in a list.
fn contains_index(v: &Vec<usize>, x: usize) -> (r: bool)
    ensures
        r == v@.contains(x),
{
    let mut i: usize = 0;
    while i < v.len()
        invariant
            i <= v.len(),
            forall|j: int| 0 <= j < i ==> v@[j] != x,
        decreases v.len() - i,
    {
        if v[i] == x {
            return true;
        }
        i += 1;
    }
    false
}

/// The indices of a list not among `printed`.
fn unprinted(list: &Vec<usize>, printed: &Vec<usize>) -> (r: Vec<usize>)
    ensures
        r@ == not_printed(list@, printed@),
{
    let mut out: Vec<usize> = Vec::new();
    let mut i: usize = 0;
    while i < list.len()
        invariant
            i <= list.len(),
            out@ == not_printed(list@.take(i as int), printed@),
        decreases list.len() - i,
    {
        proof {
            assert(list@.take(i + 1).drop_last() =~= list@.take(i as int));
            assert(list@.take(i + 1).last() == list@[i as int]);
        }
        if !contains_index(printed, list[i]) {
            out.push(list[i]);
        }
        i += 1;
    }
    proof {
        assert(list@.take(list.len() as int) =~= list@);
    }
    out
}

/// Whether the target lists are those of the effects.
pub open spec fn targets_match(t: Seq<Vec<Option<usize>>>, es: Seq<Effect>) -> bool {
    &&& t.len() == es.len()
    &&& forall|i: int| 0 <= i < es.len() ==> (#[trigger] t[i]).len() == effect_deps(es[i]).len()
    &&& forall|i: int, k: int| 0 <= i < es.len() && 0 <= k < t[i].len() ==> match #[trigger] t[i]@[k] {
        Some(j) => binding_index(es, effect_deps(es[i])[k]) == Some(j as int),
        None => binding_index(es, effect_deps(es[i])[k]) is None,
    }
}

/// The effects depending on each effect.
fn dependents_lists(es: &[Effect], targets: &Vec<Vec<Option<usize>>>) -> (r: Vec<Vec<usize>>)
    requires
        targets_match(targets@, es@),
    ensures
        r.len() == es.len(),
        forall|j: int| 0 <= j < es.len() ==> (#[trigger] r@[j])@ == effect_dependents(es@, j),
{
    let mut out: Vec<Vec<usize>> = Vec::new();
    let mut j: usize = 0;
    while j < es.len()
        invariant
            j <= es.len(),
            targets_match(targets@, es@),
            out.len() == j,
            forall|a: int| 0 <= a < j ==> (#[trigger] out@[a])@ == effect_dependents(es@, a),
        decreases es.len() - j,
    {
        let mut list: Vec<usize> = Vec::new();
        let mut i: usize = 0;
        while i < es.len()
            invariant
                i <= es.len(),
                j < es.len(),
                targets_match(targets@, es@),
                list@ == dependents_upto(es@, j as int, i as int),
            decreases es.len() - i,
        {
            let row = &targets[i];
            let mut hit = false;
            let mut k: usize = 0;
            while k < row.len()
                invariant
                    k <= row.len(),
                    i < es.len(),
                    targets_match(targets@, es@),
                    row@ == targets@[i as int]@,
                    hit == exists|m: int| 0 <= m < k && row@[m] == Some(j),
                decreases row.len() - k,
            {
                if row[k] == Some(j) {
                    hit = true;
                }
                k += 1;
            }
            proof {
                if hit {
                    let m = choose|m: int| 0 <= m < row.len() && row@[m] == Some(j);
                    assert(targets@[i as int]@[m] == Some(j));
                    assert(binding_index(es@, effect_deps(es@[i as int])[m]) == Some(j as int));
                } else {
                    assert forall|m: int| 0 <= m < effect_deps(es@[i as int]).len() implies binding_index(es@, effect_deps(es@[i as int])[m]) != Some(j as int) by {
                        assert(targets@[i as int]@[m] != Some(j));
                        match targets@[i as int]@[m] {
                            Some(x) => {},
                            None => {},
                        }
                    }
                }
            }
            if hit {
                list.push(i);
            }
            i += 1;
        }
        out.push(list);
        j += 1;
    }
    out
}

/// The effects that depend on no other, in order.
fn root_effects(es: &[Effect], targets: &Vec<Vec<Option<usize>>>) -> (r: Vec<usize>)
    requires
        targets_match(targets@, es@),
    ensures
        r@ == roots_upto(es@, es.len() as int),
{
    let mut out: Vec<usize> = Vec::new();
    let mut i: usize = 0;
    while i < es.len()
        invariant
            i <= es.len(),
            targets_match(targets@, es@),
            out@ == roots_upto(es@, i as int),
        decreases es.len() - i,
    {
        let row = &targets[i];
        let mut all_none = true;
        let mut k: usize = 0;
        while k < row.len()
            invariant
                k <= row.len(),
                i < es.len(),
                row@ == targets@[i as int]@,
                all_none == forall|m: int| 0 <= m < k ==> row@[m] is None,
            decreases row.len() - k,
        {
            if row[k].is_some() {
                all_none = false;
            }
            k += 1;
        }
        proof {
            if all_none {
                assert forall|m: int| 0 <= m < effect_deps(es@[i as int]).len() implies binding_index(es@, #[trigger] effect_deps(es@[i as int])[m]) is None by {
                    assert(targets@[i as int]@[m] is None);
                }
            } else {
                let m = choose|m: int| 0 <= m < row.len() && !(row@[m] is None);
                assert(targets@[i as int]@[m] is Some);
                assert(binding_index(es@, effect_deps(es@[i as int])[m]) is Some);
            }
        }
        if all_none {
            out.push(i);
        }
        i += 1;
    }
    out
}

/// Whether the dependents lists are those of the effects.
pub open spec fn kids_match(kids: Seq<Vec<usize>>, es: Seq<Effect>) -> bool {
    kids.len() == es.len() && forall|j: int| 0 <= j < es.len() ==> (#[trigger] kids[j])@ == effect_dependents(es, j)
}

/// Show an effect and, below it, the effects depending on it not shown yet.
fn show_effect_tree(
    out: &mut Vec<Styled>,
    es: &[Effect],
    kids: &Vec<Vec<usize>>,
    fuel: usize,
    idx: usize,
    top: bool,
    is_last: bool,
    prefix: &str,
    printed: &mut Vec<usize>,
)
    requires
        kids_match(kids@, es@),
    ensures
        ({
            let t = effect_tree(es@, fuel as nat, idx, top, is_last, prefix@, old(printed)@);
            styled_view(final(out)@) == styled_view(old(out)@) + t.0 && final(printed)@ == t.1
        }),
    decreases fuel,
{
    let ghost start = styled_view(out@);
    let ghost p0 = printed@;
    if fuel == 0 || contains_index(printed, idx) || idx >= es.len() {
        proof {
            assert(styled_view(out@) =~= start + Seq::<(Seq<char>, Style)>::empty());
        }
        return;
    }
    printed.push(idx);
    push_effect_lines(out, &es[idx], top, is_last, prefix);
    let ghost lines_end = styled_view(out@);
    let children = unprinted(&kids[idx], printed);
    let mut new_prefix = String::new();
    if top {
        push_str(&mut new_prefix, "    ");
        push_str(&mut new_prefix, "  ");
    } else {
        push_str(&mut new_prefix, prefix);
        if is_last {
            push_str(&mut new_prefix, "   ");
        } else {
            push_str(&mut new_prefix, "│  ");
        }
        push_str(&mut new_prefix, "   ");
    }
    proof {
        assert(new_prefix@ =~= kids_prefix(top, is_last, prefix@));
    }
    let ghost p1 = p0.push(idx);
    let mut k: usize = 0;
    while k < children.len()
        invariant
            k <= children.len(),
            fuel > 0,
            kids_match(kids@, es@),
            children@ == not_printed(effect_dependents(es@, idx as int), p1),
            new_prefix@ == kids_prefix(top, is_last, prefix@),
            ({
                let f = effect_forest(es@, (fuel - 1) as nat, children@, k as nat, new_prefix@, p1, false, false);
                styled_view(out@) == lines_end + f.0 && printed@ == f.1
            }),
        decreases children.len() - k,
    {
        let last = k + 1 == children.len();
        show_effect_tree(out, es, kids, fuel - 1, children[k], false, last, new_prefix.as_str(), printed);
        k += 1;
    }
}

/// Show the trees of a list of top-level effects, one after the other.
fn show_effect_forest(
    out: &mut Vec<Styled>,
    es: &[Effect],
    kids: &Vec<Vec<usize>>,
    fuel: usize,
    nodes: &Vec<usize>,
    all_last: bool,
    printed: &mut Vec<usize>,
)
    requires
        kids_match(kids@, es@),
    ensures
        ({
            let f = effect_forest(es@, fuel as nat, nodes@, nodes.len() as nat, Seq::empty(), old(printed)@, true, all_last);
            styled_view(final(out)@) == styled_view(old(out)@) + f.0 && final(printed)@ == f.1
        }),
{
    let ghost start = styled_view(out@);
    let ghost p0 = printed@;
    proof {
        reveal_strlit("");
        assert(""@ =~= Seq::<char>::empty());
    }
    let mut k: usize = 0;
    while k < nodes.len()
        invariant
            k <= nodes.len(),
            kids_match(kids@, es@),
            ""@ == Seq::<char>::empty(),
            ({
                let f = effect_forest(es@, fuel as nat, nodes@, k as nat, Seq::empty(), p0, true, all_last);
                styled_view(out@) == start + f.0 && printed@ == f.1
            }),
        decreases nodes.len() - k,
    {
        let last = all_last || k + 1 == nodes.len();
        show_effect_tree(out, es, kids, fuel, nodes[k], true, last, "", printed);
        k += 1;
    }
}

/// The bindings of all effects.
fn effect_bindings(es: &[Effect]) -> (r: Vec<Option<String>>)
    ensures
        bindings_match(r@, es@),
{
    let mut out: Vec<Option<String>> = Vec::new();
    let mut i: usize = 0;
    while i < es.len()
        invariant
            i <= es.len(),
            out.len() == i,
            forall|a: int| 0 <= a < i ==> crate::resource::opt_str_view(#[trigger] out@[a]) == effect_binding(es@[a]),
        decreases es.len() - i,
    {
        out.push(effect_binding_of(&es[i]));
        i += 1;
    }
    out
}

/// The plan as shown before it is applied: each effect depending on no
/// other, with the effects depending on it drawn below it as a tree, then
/// the effects not reached that way, then the counts.
pub fn plan_display(plan: &crate::plan::Plan) -> (r: Vec<Styled>)
    ensures
        styled_view(r@) == plan_view_text(plan@),
{
    let es = plan.effects();
    let mut out: Vec<Styled> = Vec::new();
    proof {
        assert(styled_view(out@) =~= Seq::<(Seq<char>, Style)>::empty());
    }
    if es.len() == 0 {
        push_piece(&mut out, "No changes. Infrastructure is up-to-date.", Style::Green);
        push_piece(&mut out, "\n", Style::Plain);
        return out;
    }
    let bindings = effect_bindings(es);
    let targets = dependency_targets(es, &bindings);
    let kids = dependents_lists(es, &targets);
    let roots = root_effects(es, &targets);
    let fuel: usize = if es.len() < usize::MAX {
        es.len() + 1
    } else {
        usize::MAX
    };
    push_piece(&mut out, "Execution Plan:", Style::CyanBold);
    push_piece(&mut out, "\n", Style::Plain);
    push_piece(&mut out, "\n", Style::Plain);
    let mut printed: Vec<usize> = Vec::new();
    show_effect_forest(&mut out, es, &kids, fuel, &roots, false, &mut printed);
    let mut all: Vec<usize> = Vec::new();
    let mut i: usize = 0;
    while i < es.len()
        invariant
            i <= es.len(),
            all@ == indices(i as nat),
        decreases es.len() - i,
    {
        all.push(i);
        i += 1;
        proof {
            assert(all@ =~= indices(i as nat));
        }
    }
    let remaining = unprinted(&all, &printed);
    show_effect_forest(&mut out, es, &kids, fuel, &remaining, true, &mut printed);
    push_piece(&mut out, "\n", Style::Plain);
    let summary = plan.summary();
    push_piece(&mut out, "Plan: ", Style::Plain);
    if summary.read > 0 {
        push_piece(&mut out, string_of(crate::text::usize_text(summary.read).as_slice()).as_str(), Style::Cyan);
        push_piece(&mut out, " to read, ", Style::Plain);
    }
    push_piece(&mut out, string_of(crate::text::usize_text(summary.create).as_slice()).as_str(), Style::Green);
    push_piece(&mut out, " to add, ", Style::Plain);
    push_piece(&mut out, string_of(crate::text::usize_text(summary.update).as_slice()).as_str(), Style::Yellow);
    push_piece(&mut out, " to change, ", Style::Plain);
    push_piece(&mut out, string_of(crate::text::usize_text(summary.delete).as_slice()).as_str(), Style::Red);
    push_piece(&mut out, " to destroy.", Style::Plain);
    push_piece(&mut out, "\n", Style::Plain);
    proof {
        assert(styled_view(out@) =~= plan_view_text(plan@));
    }
    out
}

// ---------------------------------------------------------------------------
// Resolving references against known state
// ---------------------------------------------------------------------------

/// A value with its references replaced by what they refer to, followed
/// through; a reference to an unknown binding or attribute is kept. `None`
/// when more than `fuel` references had to be followed one through another.
pub open spec fn follow(v: ValueModel, bm: Bindings, fuel: nat) -> Option<ValueModel>
    decreases fuel, v, 1nat,
{
    match v {
        ValueModel::ResourceRef(b, a) => follow_ref(v, b, a, bm, fuel),
        ValueModel::TypedResourceRef { binding_name, attribute_name, .. } => follow_ref(
            v,
            binding_name,
            attribute_name,
            bm,
            fuel,
        ),
        ValueModel::List(items) => match follow_items(items, bm, fuel) {
            Some(xs) => Some(ValueModel::List(xs)),
            None => None,
        },
        ValueModel::Dict(e) => match follow_entries(e, bm, fuel) {
            Some(xs) => Some(ValueModel::Dict(xs)),
            None => None,
        },
        _ => Some(v),
    }
}

/// A reference followed.
pub open spec fn follow_ref(v: ValueModel, b: Seq<char>, a: Seq<char>, bm: Bindings, fuel: nat) -> Option<ValueModel>
    decreases fuel, v, 0nat,
{
    match binding_lookup(bm, b) {
        Some(attrs) => match lookup(attrs, a) {
            Some(x) => if fuel == 0 {
                None
            } else {
                follow(x, bm, (fuel - 1) as nat)
            },
            None => Some(v),
        },
        None => Some(v),
    }
}

/// List items with their references followed.
pub open spec fn follow_items(items: Seq<ValueModel>, bm: Bindings, fuel: nat) -> Option<Seq<ValueModel>>
    decreases fuel, items, 0nat,
{
    if items.len() == 0 {
        Some(Seq::empty())
    } else {
        match follow_items(items.subrange(0, items.len() - 1), bm, fuel) {
            Some(xs) => match follow(items[items.len() - 1], bm, fuel) {
                Some(x) => Some(xs.push(x)),
                None => None,
            },
            None => None,
        }
    }
}

/// Map entries with the references in their values followed.
pub open spec fn follow_entries(e: Seq<(Seq<char>, ValueModel)>, bm: Bindings, fuel: nat) -> Option<Seq<(Seq<char>, ValueModel)>>
    decreases fuel, e, 0nat,
{
    if e.len() == 0 {
        Some(Seq::empty())
    } else {
        match follow_entries(e.subrange(0, e.len() - 1), bm, fuel) {
            Some(xs) => match follow(e[e.len() - 1].1, bm, fuel) {
                Some(x) => Some(xs.push((e[e.len() - 1].0, x))),
                None => None,
            },
            None => None,
        }
    }
}

/// How many attributes are bound in all.
pub open spec fn bound_entries(bm: Bindings) -> nat
    decreases bm.len(),
{
    if bm.len() == 0 {
        0
    } else {
        bound_entries(bm.drop_last()) + bm.last().1.len()
    }
}

/// As many references as a chain can follow without repeating an
/// attribute: a longer chain runs in a cycle and never ends.
pub open spec fn follow_fuel(bm: Bindings) -> nat {
    if bound_entries(bm) < usize::MAX {
        bound_entries(bm) + 1
    } else {
        usize::MAX as nat
    }
}

fn follow_value(v: &Value, bm: &Vec<(String, ValueMap)>, fuel: usize) -> (r: Option<Value>)
    ensures
        match follow(v@, bindings_model(bm@), fuel as nat) {
            Some(x) => r matches Some(y) && y@ == x,
            None => r is None,
        },
    decreases fuel, v, 1nat,
{
    let ghost bmm = bindings_model(bm@);
    match v {
        Value::ResourceRef(b, a) => follow_one(v, b.as_str(), a.as_str(), bm, fuel),
        Value::TypedResourceRef { binding_name, attribute_name, .. } => follow_one(
            v,
            binding_name.as_str(),
            attribute_name.as_str(),
            bm,
            fuel,
        ),
        Value::List(items) => {
            proof {
                lemma_list_view(*items);
            }
            let ghost iv = values_view(items@);
            let mut out: Vec<Value> = Vec::new();
            let mut k: usize = 0;
            while k < items.len()
                invariant
                    k <= items.len(),
                    iv == values_view(items@),
                    bmm == bindings_model(bm@),
                    follow_items(iv.take(k as int), bmm, fuel as nat) == Some(values_view(out@)),
                    v@ == ValueModel::List(iv),
                    decreases_to!(*v => *items),
                decreases items.len() - k,
            {
                proof {
                    assert(decreases_to!(*items => items@[k as int]));
                    let t = iv.take(k + 1);
                    assert(t.subrange(0, t.len() - 1) =~= iv.take(k as int));
                }
                match follow_value(&items[k], bm, fuel) {
                    Some(x) => {
                        let ghost before = values_view(out@);
                        out.push(x);
                        proof {
                            assert(values_view(out@) =~= before.push(x@));
                        }
                    },
                    None => {
                        proof {
                            lemma_follow_items_stuck(iv, bmm, fuel as nat, (k + 1) as int);
                        }
                        return None;
                    },
                }
                k += 1;
            }
            proof {
                assert(iv.take(items.len() as int) =~= iv);
                lemma_list_view(out);
            }
            Some(Value::List(out))
        },
        Value::Dict(m) => {
            proof {
                lemma_dict_view(*m);
            }
            let ghost ev = m@;
            let mut out: Vec<(String, Value)> = Vec::new();
            let mut k: usize = 0;
            while k < m.entries.len()
                invariant
                    k <= m.entries.len(),
                    ev == m@,
                    bmm == bindings_model(bm@),
                    follow_entries(ev.take(k as int), bmm, fuel as nat) == Some(crate::resource::entries_view(out@)),
                    v@ == ValueModel::Dict(ev),
                    decreases_to!(*v => *m),
                decreases m.entries.len() - k,
            {
                proof {
                    assert(decreases_to!(*m => m.entries));
                    assert(decreases_to!(m.entries => m.entries@[k as int]));
                    assert(decreases_to!(m.entries@[k as int] => m.entries@[k as int].1));
                    let t = ev.take(k + 1);
                    assert(t.subrange(0, t.len() - 1) =~= ev.take(k as int));
                }
                match follow_value(&m.entries[k].1, bm, fuel) {
                    Some(x) => {
                        let ghost before = crate::resource::entries_view(out@);
                        out.push((copy_string(&m.entries[k].0), x));
                        proof {
                            assert(crate::resource::entries_view(out@) =~= before.push((ev[k as int].0, x@)));
                        }
                    },
                    None => {
                        proof {
                            lemma_follow_entries_stuck(ev, bmm, fuel as nat, (k + 1) as int);
                        }
                        return None;
                    },
                }
                k += 1;
            }
            proof {
                assert(ev.take(m.entries.len() as int) =~= ev);
            }
            let r = ValueMap { entries: out };
            proof {
                lemma_dict_view(r);
            }
            Some(Value::Dict(r))
        },
        _ => Some(crate::resource::copy_value(v)),
    }
}

fn follow_one(v: &Value, b: &str, a: &str, bm: &Vec<(String, ValueMap)>, fuel: usize) -> (r: Option<Value>)
    ensures
        match follow_ref(v@, b@, a@, bindings_model(bm@), fuel as nat) {
            Some(x) => r matches Some(y) && y@ == x,
            None => r is None,
        },
    decreases fuel, v, 0nat,
{
    match binding_get(bm, b) {
        Some(attrs) => match attrs.get(a) {
            Some(x) => {
                if fuel == 0 {
                    None
                } else {
                    follow_value(x, bm, fuel - 1)
                }
            },
            None => Some(crate::resource::copy_value(v)),
        },
        None => Some(crate::resource::copy_value(v)),
    }
}

proof fn lemma_follow_items_stuck(items: Seq<ValueModel>, bm: Bindings, fuel: nat, k: int)
    requires
        0 < k <= items.len(),
        follow(items[k - 1], bm, fuel) is None || follow_items(items.take(k - 1), bm, fuel) is None,
    ensures
        follow_items(items, bm, fuel) is None,
    decreases items.len() - k,
{
    let t = items.take(k);
    assert(t.subrange(0, t.len() - 1) =~= items.take(k - 1));
    assert(t[t.len() - 1] == items[k - 1]);
    if k < items.len() {
        lemma_follow_items_stuck(items, bm, fuel, k + 1);
    } else {
        assert(t =~= items);
    }
}

proof fn lemma_follow_entries_stuck(e: Seq<(Seq<char>, ValueModel)>, bm: Bindings, fuel: nat, k: int)
    requires
        0 < k <= e.len(),
        follow(e[k - 1].1, bm, fuel) is None || follow_entries(e.take(k - 1), bm, fuel) is None,
    ensures
        follow_entries(e, bm, fuel) is None,
    decreases e.len() - k,
{
    let t = e.take(k);
    assert(t.subrange(0, t.len() - 1) =~= e.take(k - 1));
    assert(t[t.len() - 1] == e[k - 1]);
    if k < e.len() {
        lemma_follow_entries_stuck(e, bm, fuel, k + 1);
    } else {
        assert(t =~= e);
    }
}

/// How many attributes are bound in all (at most `usize::MAX`).
fn count_bound(bm: &Vec<(String, ValueMap)>) -> (r: usize)
    ensures
        r == if bound_entries(bindings_model(bm@)) < usize::MAX {
            bound_entries(bindings_model(bm@))
        } else {
            usize::MAX as nat
        },
{
    let ghost bmm = bindings_model(bm@);
    let mut total: usize = 0;
    let mut saturated = false;
    let mut k: usize = 0;
    while k < bm.len()
        invariant
            k <= bm.len(),
            bmm == bindings_model(bm@),
            !saturated ==> total == bound_entries(bmm.take(k as int)) && total < usize::MAX,
            saturated ==> total == usize::MAX && bound_entries(bmm.take(k as int)) >= usize::MAX,
        decreases bm.len() - k,
    {
        proof {
            assert(bmm.take(k + 1).drop_last() =~= bmm.take(k as int));
            assert(bmm.take(k + 1).last() == bmm[k as int]);
        }
        let n = bm[k].1.entries.len();
        if !saturated {
            if n < usize::MAX - total {
                total = total + n;
            } else {
                total = usize::MAX;
                saturated = true;
            }
        }
        k += 1;
    }
    proof {
        assert(bmm.take(bm.len() as int) =~= bmm);
    }
    total
}

/// Resolve a value's references against a binding map, following each
/// reference to what it refers to. `None` when the references run in a
/// cycle (a chain longer than the number of bound attributes).
pub fn resolve_ref_value(value: &Value, binding_map: &Vec<(String, ValueMap)>) -> (r: Option<Value>)
    ensures
        match follow(value@, bindings_model(binding_map@), follow_fuel(bindings_model(binding_map@))) {
            Some(x) => r matches Some(y) && y@ == x,
            None => r is None,
        },
{
    let n = count_bound(binding_map);
    let fuel: usize = if n < usize::MAX {
        n + 1
    } else {
        usize::MAX
    };
    follow_value(value, binding_map, fuel)
}


/// The state known for a resource: the last one read for its id.
pub open spec fn state_of(states: Seq<State>, id: (Seq<char>, Seq<char>)) -> Option<State>
    decreases states.len(),
{
    if states.len() == 0 {
        None
    } else if states.last().id@ == id {
        Some(states.last())
    } else {
        state_of(states.drop_last(), id)
    }
}

/// Attributes with those of `extra` that they lack added at the end.
pub open spec fn merge_absent(attrs: Seq<(Seq<char>, ValueModel)>, extra: Seq<(Seq<char>, ValueModel)>) -> Seq<(Seq<char>, ValueModel)>
    decreases extra.len(),
{
    if extra.len() == 0 {
        attrs
    } else {
        let m = merge_absent(attrs, extra.drop_last());
        if has_key(m, extra.last().0) {
            m
        } else {
            m.push(extra.last())
        }
    }
}

/// The attributes a binding gets: the resource's own, and those that the
/// existing state of the resource adds.
pub open spec fn known_attrs(r: Resource, states: Seq<State>) -> Seq<(Seq<char>, ValueModel)> {
    match state_of(states, r.id@) {
        Some(st) => if st.exists {
            merge_absent(r.attributes@, st.attributes@)
        } else {
            r.attributes@
        },
        None => r.attributes@,
    }
}

/// The binding map of resources with known state: each binding name with
/// the known attributes of the last resource bound to it.
pub open spec fn state_bindings(rs: Seq<Resource>, states: Seq<State>) -> Bindings
    decreases rs.len(),
{
    if rs.len() == 0 {
        Seq::empty()
    } else {
        let bm = state_bindings(rs.drop_last(), states);
        match lookup(rs.last().attributes@, "_binding"@) {
            Some(ValueModel::Str(b)) => binding_insert(bm, b, known_attrs(rs.last(), states)),
            _ => bm,
        }
    }
}

/// The state known for a resource.
fn find_state<'a>(states: &'a Vec<State>, id: &ResourceId) -> (r: Option<&'a State>)
    ensures
        match state_of(states@, id@) {
            Some(st) => r matches Some(x) && *x == st,
            None => r is None,
        },
{
    let mut k: usize = states.len();
    proof {
        assert(states@.take(k as int) =~= states@);
    }
    while k > 0
        invariant
            k <= states.len(),
            state_of(states@, id@) == state_of(states@.take(k as int), id@),
        decreases k,
    {
        proof {
            assert(states@.take(k as int).drop_last() =~= states@.take(k - 1));
        }
        if crate::text::str_eq(states[k - 1].id.resource_type.as_str(), id.resource_type.as_str())
            && crate::text::str_eq(states[k - 1].id.name.as_str(), id.name.as_str()) {
            return Some(&states[k - 1]);
        }
        k -= 1;
    }
    None
}

/// Attributes with those of `extra` that they lack added.
fn merge_missing(attrs: &mut ValueMap, extra: &ValueMap)
    ensures
        final(attrs)@ == merge_absent(old(attrs)@, extra@),
{
    let ghost a0 = attrs@;
    let ghost ev = extra@;
    let mut k: usize = 0;
    while k < extra.entries.len()
        invariant
            k <= extra.entries.len(),
            ev == extra@,
            attrs@ == merge_absent(a0, ev.take(k as int)),
        decreases extra.entries.len() - k,
    {
        proof {
            assert(ev.take(k + 1).drop_last() =~= ev.take(k as int));
            assert(ev.take(k + 1).last() == ev[k as int]);
        }
        if !attrs.contains_key(extra.entries[k].0.as_str()) {
            let ghost before = attrs@;
            attrs.entries.push((copy_string(&extra.entries[k].0), crate::resource::copy_value(&extra.entries[k].1)));
            proof {
                assert(attrs@ =~= before.push(ev[k as int]));
            }
        }
        k += 1;
    }
    proof {
        assert(ev.take(extra.entries.len() as int) =~= ev);
    }
}

/// The binding map of resources with known state.
pub fn binding_map_with_states(resources: &Vec<Resource>, current_states: &Vec<State>) -> (r: Vec<(String, ValueMap)>)
    ensures
        bindings_model(r@) == state_bindings(resources@, current_states@),
{
    let mut bm: Vec<(String, ValueMap)> = Vec::new();
    proof {
        assert(bindings_model(bm@) =~= Seq::<(Seq<char>, Seq<(Seq<char>, ValueModel)>)>::empty());
        reveal_strlit("_binding");
    }
    let mut i: usize = 0;
    while i < resources.len()
        invariant
            i <= resources.len(),
            bindings_model(bm@) == state_bindings(resources@.take(i as int), current_states@),
        decreases resources.len() - i,
    {
        proof {
            assert(resources@.take(i + 1).drop_last() =~= resources@.take(i as int));
            assert(resources@.take(i + 1).last() == resources@[i as int]);
        }
        let resource = &resources[i];
        match resource.attributes.get("_binding") {
            Some(Value::String(b)) => {
                let mut attrs = crate::resource::copy_map(&resource.attributes);
                match find_state(current_states, &resource.id) {
                    Some(st) => {
                        if st.exists {
                            merge_missing(&mut attrs, &st.attributes);
                        }
                    },
                    None => {},
                }
                let ghost before = bindings_model(bm@);
                match crate::parser::resolve::binding_index(&bm, b.as_str()) {
                    Some(k) => {
                        proof {
                            crate::parser::resolve::lemma_binding_insert_at(before, b@, attrs@, k as int);
                        }
                        bm.set(k, (copy_string(b), attrs));
                        proof {
                            assert(bindings_model(bm@) =~= binding_insert(before, b@, known_attrs(*resource, current_states@)));
                        }
                    },
                    None => {
                        proof {
                            crate::parser::resolve::lemma_binding_insert_new(before, b@, attrs@);
                        }
                        bm.push((copy_string(b), attrs));
                        proof {
                            assert(bindings_model(bm@) =~= binding_insert(before, b@, known_attrs(*resource, current_states@)));
                        }
                    },
                }
            },
            _ => {},
        }
        i += 1;
    }
    proof {
        assert(resources@.take(resources.len() as int) =~= resources@);
    }
    bm
}

/// The attributes of the resources with their references followed, or
/// `None` when some attribute's references run in a cycle.
pub open spec fn resolve_all(rs: Seq<Resource>, bm: Bindings) -> Option<Seq<Seq<(Seq<char>, ValueModel)>>>
    decreases rs.len(),
{
    if rs.len() == 0 {
        Some(Seq::empty())
    } else {
        match resolve_all(rs.drop_last(), bm) {
            Some(done) => match follow_entries(rs.last().attributes@, bm, follow_fuel(bm)) {
                Some(e) => Some(done.push(e)),
                None => None,
            },
            None => None,
        }
    }
}

proof fn lemma_resolve_all_len(rs: Seq<Resource>, bm: Bindings)
    ensures
        resolve_all(rs, bm) matches Some(a) ==> a.len() == rs.len(),
    decreases rs.len(),
{
    if rs.len() > 0 {
        lemma_resolve_all_len(rs.drop_last(), bm);
    }
}

proof fn lemma_resolve_all_stuck(rs: Seq<Resource>, bm: Bindings, k: int)
    requires
        0 <= k <= rs.len(),
        resolve_all(rs.take(k), bm) is None,
    ensures
        resolve_all(rs, bm) is None,
    decreases rs.len() - k,
{
    if k < rs.len() {
        assert(rs.take(k + 1).drop_last() =~= rs.take(k));
        lemma_resolve_all_stuck(rs, bm, k + 1);
    } else {
        assert(rs.take(k) =~= rs);
    }
}

/// Resolve references in resources against a binding map built from the
/// resources and their known states: each resource keeps its id and gets
/// its attributes with references followed; `None` when some references
/// run in a cycle.
pub fn resolve_refs_with_state(resources: &Vec<Resource>, current_states: &Vec<State>) -> (r: Option<Vec<Resource>>)
    ensures
        match resolve_all(resources@, state_bindings(resources@, current_states@)) {
            Some(all) => r matches Some(out) && out.len() == resources.len() && forall|i: int|
                0 <= i < out.len() ==> (#[trigger] out@[i]).id@ == resources@[i].id@ && out@[i].attributes@ == all[i],
            None => r is None,
        },
{
    let bm = binding_map_with_states(resources, current_states);
    let ghost bmm = bindings_model(bm@);
    let mut out: Vec<Resource> = Vec::new();
    let mut i: usize = 0;
    while i < resources.len()
        invariant
            i <= resources.len(),
            bmm == bindings_model(bm@),
            bmm == state_bindings(resources@, current_states@),
            resolve_all(resources@.take(i as int), bmm) matches Some(all) && out.len() == i && forall|j: int|
                0 <= j < i ==> (#[trigger] out@[j]).id@ == resources@[j].id@ && out@[j].attributes@ == all[j],
        decreases resources.len() - i,
    {
        proof {
            assert(resources@.take(i + 1).drop_last() =~= resources@.take(i as int));
            assert(resources@.take(i + 1).last() == resources@[i as int]);
        }
        let ghost prev = resolve_all(resources@.take(i as int), bmm).unwrap();
        proof {
            lemma_resolve_all_len(resources@.take(i as int), bmm);
        }
        let cm = crate::resource::copy_map(&resources[i].attributes);
        proof {
            lemma_dict_view(cm);
        }
        let v = Value::Dict(cm);
        match resolve_ref_value(&v, &bm) {
            Some(Value::Dict(m)) => {
                proof {
                    lemma_dict_view(m);
                    assert(resolve_all(resources@.take(i + 1), bmm) == Some(prev.push(m@)));
                }
                out.push(Resource { id: crate::resource::copy_id(&resources[i].id), attributes: m });
            },
            _ => {
                proof {
                    assert(resolve_all(resources@.take(i + 1), bmm) is None);
                    lemma_resolve_all_stuck(resources@, bmm, i + 1);
                }
                return None;
            },
        }
        i += 1;
    }
    proof {
        assert(resources@.take(resources.len() as int) =~= resources@);
    }
    Some(out)
}

// ---------------------------------------------------------------------------
// Ordering resources by their dependencies
// ---------------------------------------------------------------------------

/// The name a resource is tracked by while ordering: its binding name, or
/// `type:name`.
pub open spec fn visit_key(r: Resource) -> Seq<char> {
    match lookup(r.attributes@, "_binding"@) {
        Some(ValueModel::Str(b)) => b,
        _ => r.id.resource_type@ + ":"@ + r.id.name@,
    }
}

/// The last resource among the first `n` bound to a name.
pub open spec fn bound_upto(rs: Seq<Resource>, name: Seq<char>, n: int) -> Option<int>
    decreases n,
{
    if n <= 0 {
        None
    } else if lookup(rs[n - 1].attributes@, "_binding"@) == Some(ValueModel::Str(name)) {
        Some(n - 1)
    } else {
        bound_upto(rs, name, n - 1)
    }
}

/// The last resource bound to a name.
pub open spec fn bound_resource(rs: Seq<Resource>, name: Seq<char>) -> Option<int> {
    bound_upto(rs, name, rs.len() as int)
}

/// Visit a resource: first the resources it depends on, then itself (a
/// resource being visited or visited already is skipped, which also breaks
/// cycles); the names visited and the order so far afterwards.
pub open spec fn topo_visit(
    rs: Seq<Resource>,
    fuel: nat,
    i: int,
    visited: Seq<Seq<char>>,
    visiting: Seq<Seq<char>>,
    sorted: Seq<usize>,
) -> (Seq<Seq<char>>, Seq<usize>)
    decreases fuel, 0nat, 0nat,
{
    if fuel == 0 || !(0 <= i < rs.len()) || visited.contains(visit_key(rs[i])) || visiting.contains(visit_key(rs[i])) {
        (visited, sorted)
    } else {
        let k = visit_key(rs[i]);
        let deps = resource_dependencies(rs[i].attributes@);
        let after = topo_deps(rs, (fuel - 1) as nat, deps, deps.len(), visited, visiting.push(k), sorted);
        (after.0.push(k), after.1.push(i as usize))
    }
}

/// Visit the resources bound to the first `n` dependency names.
pub open spec fn topo_deps(
    rs: Seq<Resource>,
    fuel: nat,
    deps: Seq<Seq<char>>,
    n: nat,
    visited: Seq<Seq<char>>,
    visiting: Seq<Seq<char>>,
    sorted: Seq<usize>,
) -> (Seq<Seq<char>>, Seq<usize>)
    decreases fuel, 1nat, n,
{
    if n == 0 || n > deps.len() {
        (visited, sorted)
    } else {
        let before = topo_deps(rs, fuel, deps, (n - 1) as nat, visited, visiting, sorted);
        match bound_resource(rs, deps[n - 1]) {
            Some(j) => topo_visit(rs, fuel, j, before.0, visiting, before.1),
            None => before,
        }
    }
}

/// Visit the first `n` resources in turn.
pub open spec fn topo_all(rs: Seq<Resource>, fuel: nat, n: nat) -> (Seq<Seq<char>>, Seq<usize>)
    decreases n,
{
    if n == 0 {
        (Seq::empty(), Seq::empty())
    } else {
        let before = topo_all(rs, fuel, (n - 1) as nat);
        topo_visit(rs, fuel, n - 1, before.0, Seq::empty(), before.1)
    }
}

/// The order in which resources are handled: each after the resources it
/// depends on (as far as no cycle prevents it).
pub open spec fn dependency_order(rs: Seq<Resource>) -> Seq<usize> {
    topo_all(rs, plan_fuel(rs.len()), rs.len()).1
}

/// The facts about the resources an ordering reads.
pub open spec fn order_facts(
    rs: Seq<Resource>,
    keys: Seq<String>,
    deps: Seq<Vec<String>>,
    bindings: Seq<Option<String>>,
) -> bool {
    &&& keys.len() == rs.len() && deps.len() == rs.len() && bindings.len() == rs.len()
    &&& forall|i: int| 0 <= i < rs.len() ==> (#[trigger] keys[i])@ == visit_key(rs[i])
    &&& forall|i: int| 0 <= i < rs.len() ==> crate::graph::names_model((#[trigger] deps[i])@) == resource_dependencies(rs[i].attributes@)
    &&& forall|i: int| 0 <= i < rs.len() ==> match #[trigger] bindings[i] {
        Some(b) => lookup(rs[i].attributes@, "_binding"@) == Some(ValueModel::Str(b@)),
        None => !(lookup(rs[i].attributes@, "_binding"@) matches Some(ValueModel::Str(_))),
    }
}

/// The last resource bound to a name.
fn find_bound(bindings: &Vec<Option<String>>, name: &str, Ghost(rs): Ghost<Seq<Resource>>, Ghost(keys): Ghost<Seq<String>>, Ghost(deps): Ghost<Seq<Vec<String>>>) -> (r: Option<usize>)
    requires
        order_facts(rs, keys, deps, bindings@),
    ensures
        match r {
            Some(i) => bound_resource(rs, name@) == Some(i as int),
            None => bound_resource(rs, name@) is None,
        },
{
    let mut k: usize = bindings.len();
    while k > 0
        invariant
            k <= bindings.len(),
            order_facts(rs, keys, deps, bindings@),
            bound_resource(rs, name@) == bound_upto(rs, name@, k as int),
        decreases k,
    {
        let hit = match &bindings[k - 1] {
            Some(b) => crate::text::str_eq(b.as_str(), name),
            None => false,
        };
        proof {
            let _ = bindings@[k - 1];
        }
        if hit {
            return Some(k - 1);
        }
        k -= 1;
    }
    None
}

fn topo_visit_exec(
    rs: &Vec<Resource>,
    keys: &Vec<String>,
    deps: &Vec<Vec<String>>,
    bindings: &Vec<Option<String>>,
    fuel: usize,
    i: usize,
    visited: &mut Vec<String>,
    visiting: &mut Vec<String>,
    sorted: &mut Vec<usize>,
)
    requires
        order_facts(rs@, keys@, deps@, bindings@),
    ensures
        ({
            let t = topo_visit(rs@, fuel as nat, i as int, crate::graph::names_model(old(visited)@), crate::graph::names_model(old(visiting)@), old(sorted)@);
            crate::graph::names_model(final(visited)@) == t.0 && final(sorted)@ == t.1
        }),
        final(visiting)@ == old(visiting)@,
    decreases fuel, 0nat,
{
    if fuel == 0 || i >= rs.len() {
        return;
    }
    let key = keys[i].as_str();
    if crate::graph::names_contain(visited, key) || crate::graph::names_contain(visiting, key) {
        return;
    }
    let ghost v0 = crate::graph::names_model(visited@);
    let ghost w0 = visiting@;
    let ghost s0 = sorted@;
    visiting.push(copy_string(&keys[i]));
    proof {
        assert(crate::graph::names_model(visiting@) =~= crate::graph::names_model(w0).push(keys@[i as int]@));
    }
    topo_deps_exec(rs, keys, deps, bindings, fuel - 1, i, visited, visiting, sorted);
    visiting.pop();
    proof {
        assert(visiting@ =~= w0);
    }
    let ghost v1 = crate::graph::names_model(visited@);
    visited.push(copy_string(&keys[i]));
    proof {
        assert(crate::graph::names_model(visited@) =~= v1.push(keys@[i as int]@));
    }
    sorted.push(i);
}

fn topo_deps_exec(
    rs: &Vec<Resource>,
    keys: &Vec<String>,
    deps: &Vec<Vec<String>>,
    bindings: &Vec<Option<String>>,
    fuel: usize,
    i: usize,
    visited: &mut Vec<String>,
    visiting: &mut Vec<String>,
    sorted: &mut Vec<usize>,
)
    requires
        order_facts(rs@, keys@, deps@, bindings@),
        i < rs.len(),
    ensures
        ({
            let d = resource_dependencies(rs@[i as int].attributes@);
            let t = topo_deps(rs@, fuel as nat, d, d.len(), crate::graph::names_model(old(visited)@), crate::graph::names_model(old(visiting)@), old(sorted)@);
            crate::graph::names_model(final(visited)@) == t.0 && final(sorted)@ == t.1
        }),
        final(visiting)@ == old(visiting)@,
    decreases fuel, 1nat,
{
    let ghost d = resource_dependencies(rs@[i as int].attributes@);
    let ghost v0 = crate::graph::names_model(visited@);
    let ghost w0 = visiting@;
    let ghost s0 = sorted@;
    let row = &deps[i];
    let mut k: usize = 0;
    while k < row.len()
        invariant
            k <= row.len(),
            i < rs.len(),
            order_facts(rs@, keys@, deps@, bindings@),
            row@ == deps@[i as int]@,
            d == resource_dependencies(rs@[i as int].attributes@),
            crate::graph::names_model(row@) == d,
            visiting@ == w0,
            ({
                let t = topo_deps(rs@, fuel as nat, d, k as nat, v0, crate::graph::names_model(w0), s0);
                crate::graph::names_model(visited@) == t.0 && sorted@ == t.1
            }),
        decreases row.len() - k,
    {
        proof {
            assert(d[k as int] == row@[k as int]@);
        }
        match find_bound(bindings, row[k].as_str(), Ghost(rs@), Ghost(keys@), Ghost(deps@)) {
            Some(j) => {
                topo_visit_exec(rs, keys, deps, bindings, fuel, j, visited, visiting, sorted);
            },
            None => {},
        }
        k += 1;
    }
}

/// Sort resources topologically based on dependencies
pub fn sort_resources_by_dependencies(resources: &Vec<Resource>) -> (r: Vec<Resource>)
    ensures
        copies_in_order(r@, resources@, dependency_order(resources@)),
{
    proof {
        reveal_strlit("_binding");
    }
    let mut keys: Vec<String> = Vec::new();
    let mut deps: Vec<Vec<String>> = Vec::new();
    let mut bindings: Vec<Option<String>> = Vec::new();
    let mut i: usize = 0;
    while i < resources.len()
        invariant
            i <= resources.len(),
            keys.len() == i && deps.len() == i && bindings.len() == i,
            forall|a: int| 0 <= a < i ==> (#[trigger] keys@[a])@ == visit_key(resources@[a]),
            forall|a: int| 0 <= a < i ==> crate::graph::names_model((#[trigger] deps@[a])@) == resource_dependencies(resources@[a].attributes@),
            forall|a: int| 0 <= a < i ==> match #[trigger] bindings@[a] {
                Some(b) => lookup(resources@[a].attributes@, "_binding"@) == Some(ValueModel::Str(b@)),
                None => !(lookup(resources@[a].attributes@, "_binding"@) matches Some(ValueModel::Str(_))),
            },
        decreases resources.len() - i,
    {
        let r = &resources[i];
        match r.attributes.get("_binding") {
            Some(Value::String(b)) => {
                keys.push(copy_string(b));
                bindings.push(Some(copy_string(b)));
            },
            _ => {
                let mut k = copy_string(&r.id.resource_type);
                push_str(&mut k, ":");
                push_str(&mut k, r.id.name.as_str());
                keys.push(k);
                bindings.push(None);
            },
        }
        deps.push(get_resource_dependencies(r));
        i += 1;
    }
    let fuel: usize = if resources.len() < usize::MAX {
        resources.len() + 1
    } else {
        usize::MAX
    };
    let mut visited: Vec<String> = Vec::new();
    let mut sorted: Vec<usize> = Vec::new();
    let mut visiting: Vec<String> = Vec::new();
    proof {
        assert(crate::graph::names_model(visited@) =~= Seq::<Seq<char>>::empty());
    }
    let mut i: usize = 0;
    while i < resources.len()
        invariant
            i <= resources.len(),
            order_facts(resources@, keys@, deps@, bindings@),
            fuel as nat == plan_fuel(resources.len() as nat),
            visiting@ == Seq::<String>::empty(),
            ({
                let t = topo_all(resources@, fuel as nat, i as nat);
                crate::graph::names_model(visited@) == t.0 && sorted@ == t.1
            }),
        decreases resources.len() - i,
    {
        proof {
            assert(crate::graph::names_model(visiting@) =~= Seq::<Seq<char>>::empty());
        }
        topo_visit_exec(resources, &keys, &deps, &bindings, fuel, i, &mut visited, &mut visiting, &mut sorted);
        i += 1;
    }
    proof {
        lemma_topo_all_in_range(resources@, fuel as nat, resources.len() as nat);
    }
    let mut out: Vec<Resource> = Vec::new();
    let mut k: usize = 0;
    while k < sorted.len()
        invariant
            k <= sorted.len(),
            sorted@ == dependency_order(resources@),
            forall|m: int| 0 <= m < sorted.len() ==> (#[trigger] sorted@[m]) < resources.len(),
            copies_in_order(out@, resources@, sorted@.take(k as int)),
        decreases sorted.len() - k,
    {
        let c = crate::resource::copy_resource(&resources[sorted[k]]);
        out.push(c);
        k += 1;
        proof {
            assert(sorted@.take(k as int) =~= sorted@.take(k - 1).push(sorted@[k - 1]));
        }
    }
    proof {
        assert(sorted@.take(sorted.len() as int) =~= sorted@);
    }
    out
}

/// Whether `out` holds copies of the resources at the given indices, in order.
pub open spec fn copies_in_order(out: Seq<Resource>, rs: Seq<Resource>, order: Seq<usize>) -> bool {
    &&& out.len() == order.len()
    &&& forall|k: int| 0 <= k < order.len() ==> (#[trigger] order[k]) < rs.len()
    &&& forall|k: int| 0 <= k < out.len() ==> (#[trigger] out[k]).id@ == rs[order[k] as int].id@
        && out[k].attributes@ == rs[order[k] as int].attributes@
}

/// A sequence in reverse order.
pub open spec fn reversed(s: Seq<usize>) -> Seq<usize> {
    Seq::new(s.len(), |k: int| s[s.len() - 1 - k])
}

proof fn lemma_topo_visit_in_range(rs: Seq<Resource>, fuel: nat, i: int, visited: Seq<Seq<char>>, visiting: Seq<Seq<char>>, sorted: Seq<usize>)
    requires
        forall|m: int| 0 <= m < sorted.len() ==> (#[trigger] sorted[m]) < rs.len(),
    ensures
        forall|m: int| 0 <= m < topo_visit(rs, fuel, i, visited, visiting, sorted).1.len() ==> (#[trigger] topo_visit(rs, fuel, i, visited, visiting, sorted).1[m]) < rs.len(),
    decreases fuel, 0nat, 0nat,
{
    if !(fuel == 0 || !(0 <= i < rs.len()) || visited.contains(visit_key(rs[i])) || visiting.contains(visit_key(rs[i]))) {
        let k = visit_key(rs[i]);
        let deps = resource_dependencies(rs[i].attributes@);
        lemma_topo_deps_in_range(rs, (fuel - 1) as nat, deps, deps.len(), visited, visiting.push(k), sorted);
        let after = topo_deps(rs, (fuel - 1) as nat, deps, deps.len(), visited, visiting.push(k), sorted);
        let res = topo_visit(rs, fuel, i, visited, visiting, sorted);
        assert(res.1 == after.1.push(i as usize));
        assert forall|m: int| 0 <= m < res.1.len() implies (#[trigger] res.1[m]) < rs.len() by {
            if m < after.1.len() {
                assert(res.1[m] == after.1[m]);
            }
        }
    }
}

proof fn lemma_topo_deps_in_range(rs: Seq<Resource>, fuel: nat, deps: Seq<Seq<char>>, n: nat, visited: Seq<Seq<char>>, visiting: Seq<Seq<char>>, sorted: Seq<usize>)
    requires
        forall|m: int| 0 <= m < sorted.len() ==> (#[trigger] sorted[m]) < rs.len(),
    ensures
        forall|m: int| 0 <= m < topo_deps(rs, fuel, deps, n, visited, visiting, sorted).1.len() ==> (#[trigger] topo_deps(rs, fuel, deps, n, visited, visiting, sorted).1[m]) < rs.len(),
    decreases fuel, 1nat, n,
{
    if !(n == 0 || n > deps.len()) {
        lemma_topo_deps_in_range(rs, fuel, deps, (n - 1) as nat, visited, visiting, sorted);
        let before = topo_deps(rs, fuel, deps, (n - 1) as nat, visited, visiting, sorted);
        let res = topo_deps(rs, fuel, deps, n, visited, visiting, sorted);
        match bound_resource(rs, deps[n - 1]) {
            Some(j) => {
                lemma_topo_visit_in_range(rs, fuel, j, before.0, visiting, before.1);
                assert(res == topo_visit(rs, fuel, j, before.0, visiting, before.1));
            },
            None => {
                assert(res == before);
            },
        }
    }
}

proof fn lemma_topo_all_in_range(rs: Seq<Resource>, fuel: nat, n: nat)
    ensures
        forall|m: int| 0 <= m < topo_all(rs, fuel, n).1.len() ==> (#[trigger] topo_all(rs, fuel, n).1[m]) < rs.len(),
    decreases n,
{
    if n > 0 {
        lemma_topo_all_in_range(rs, fuel, (n - 1) as nat);
        let before = topo_all(rs, fuel, (n - 1) as nat);
        lemma_topo_visit_in_range(rs, fuel, n - 1, before.0, Seq::empty(), before.1);
    }
}

/// Whether resource `a` depends on resource `j`: one of the names it refers
/// to is bound to `j`.
pub open spec fn depends_on(rs: Seq<Resource>, a: int, j: int) -> bool {
    exists|m: int|
        0 <= m < resource_dependencies(rs[a].attributes@).len() && #[trigger] bound_resource(
            rs,
            resource_dependencies(rs[a].attributes@)[m],
        ) == Some(j)
}

/// Whether no two resources are tracked by one name while ordering.
pub open spec fn keys_distinct(rs: Seq<Resource>) -> bool {
    forall|a: int, b: int|
        0 <= a < rs.len() && 0 <= b < rs.len() && #[trigger] visit_key(rs[a]) == #[trigger] visit_key(rs[b])
            ==> a == b
}

/// Whether `rank` drops along every dependency (so that no resource depends
/// on itself, directly or through others).
pub open spec fn ranked(rs: Seq<Resource>, rank: spec_fn(int) -> nat) -> bool {
    forall|a: int, j: int| 0 <= a < rs.len() && #[trigger] depends_on(rs, a, j) ==> rank(j) < rank(a)
}

/// Whether every resource in an order comes after the resources it depends on.
pub open spec fn deps_first(rs: Seq<Resource>, order: Seq<usize>) -> bool {
    forall|p: int, j: int|
        0 <= p < order.len() && #[trigger] depends_on(rs, order[p] as int, j) ==> exists|q: int|
            0 <= q < p && #[trigger] order[q] == j
}

/// The names visited so far are those of the resources placed so far, each once.
spec fn keyed(rs: Seq<Resource>, visited: Seq<Seq<char>>, sorted: Seq<usize>) -> bool {
    &&& visited.len() == sorted.len()
    &&& forall|m: int| 0 <= m < sorted.len() ==> (#[trigger] sorted[m]) < rs.len() && visited[m] == visit_key(rs[sorted[m] as int])
    &&& visited.no_duplicates()
}

spec fn extends<A>(a: Seq<A>, b: Seq<A>) -> bool {
    a.len() <= b.len() && forall|m: int| 0 <= m < a.len() ==> #[trigger] b[m] == a[m]
}

spec fn is_key(rs: Seq<Resource>, x: Seq<char>) -> bool {
    exists|a: int| 0 <= a < rs.len() && #[trigger] visit_key(rs[a]) == x
}

/// The resources whose names are being visited rank at least `r`.
spec fn visiting_above(rs: Seq<Resource>, rank: spec_fn(int) -> nat, visiting: Seq<Seq<char>>, r: nat) -> bool {
    forall|a: int| 0 <= a < rs.len() && visiting.contains(#[trigger] visit_key(rs[a])) ==> rank(a) >= r
}

proof fn lemma_bound_upto_range(rs: Seq<Resource>, name: Seq<char>, n: int)
    ensures
        bound_upto(rs, name, n) matches Some(j) ==> 0 <= j < n,
    decreases n,
{
    if n > 0 {
        lemma_bound_upto_range(rs, name, n - 1);
    }
}

proof fn lemma_extends_contains(a: Seq<Seq<char>>, b: Seq<Seq<char>>, x: Seq<char>)
    requires
        extends(a, b),
        a.contains(x),
    ensures
        b.contains(x),
{
    let t = choose|t: int| 0 <= t < a.len() && a[t] == x;
    assert(b[t] == x);
}

/// The names being visited are distinct names of resources, so there are
/// no more of them than resources.
proof fn lemma_visiting_bound(rs: Seq<Resource>, visiting: Seq<Seq<char>>)
    requires
        visiting.no_duplicates(),
        forall|t: int| 0 <= t < visiting.len() ==> is_key(rs, #[trigger] visiting[t]),
    ensures
        visiting.len() <= rs.len(),
{
    let all = Seq::new(rs.len(), |a: int| visit_key(rs[a]));
    all.lemma_cardinality_of_set();
    visiting.unique_seq_to_set();
    assert(visiting.to_set().subset_of(all.to_set())) by {
        assert forall|x: Seq<char>| visiting.to_set().contains(x) implies all.to_set().contains(x) by {
            let t = choose|t: int| 0 <= t < visiting.len() && visiting[t] == x;
            assert(is_key(rs, visiting[t]));
            let a = choose|a: int| 0 <= a < rs.len() && #[trigger] visit_key(rs[a]) == visiting[t];
            assert(all[a] == x);
        }
    }
    vstd::set_lib::lemma_len_subset(visiting.to_set(), all.to_set());
}

/// The place of a resource in an order, found by its name.
proof fn lemma_keyed_place(rs: Seq<Resource>, visited: Seq<Seq<char>>, sorted: Seq<usize>, j: int)
    requires
        keys_distinct(rs),
        keyed(rs, visited, sorted),
        0 <= j < rs.len(),
        visited.contains(visit_key(rs[j])),
    ensures
        exists|q: int| 0 <= q < sorted.len() && #[trigger] sorted[q] == j,
{
    let t = choose|t: int| 0 <= t < visited.len() && visited[t] == visit_key(rs[j]);
    assert(sorted[t] < rs.len());
    assert(visit_key(rs[sorted[t] as int]) == visit_key(rs[j]));
    assert(sorted[t] == j);
}

proof fn lemma_visit_order(
    rs: Seq<Resource>,
    rank: spec_fn(int) -> nat,
    fuel: nat,
    i: int,
    visited: Seq<Seq<char>>,
    visiting: Seq<Seq<char>>,
    sorted: Seq<usize>,
)
    requires
        rs.len() < usize::MAX,
        keys_distinct(rs),
        ranked(rs, rank),
        0 <= i < rs.len(),
        keyed(rs, visited, sorted),
        deps_first(rs, sorted),
        visiting.no_duplicates(),
        forall|t: int| 0 <= t < visiting.len() ==> is_key(rs, #[trigger] visiting[t]),
        visiting_above(rs, rank, visiting, rank(i) + 1),
        fuel + visiting.len() == rs.len() + 1,
    ensures
        keyed(rs, topo_visit(rs, fuel, i, visited, visiting, sorted).0, topo_visit(rs, fuel, i, visited, visiting, sorted).1),
        deps_first(rs, topo_visit(rs, fuel, i, visited, visiting, sorted).1),
        extends(visited, topo_visit(rs, fuel, i, visited, visiting, sorted).0),
        extends(sorted, topo_visit(rs, fuel, i, visited, visiting, sorted).1),
        forall|x: Seq<char>|
            visiting.contains(x) && !visited.contains(x) ==> !(#[trigger] topo_visit(rs, fuel, i, visited, visiting, sorted).0.contains(x)),
        topo_visit(rs, fuel, i, visited, visiting, sorted).0.contains(visit_key(rs[i])),
    decreases fuel, 0nat, 0nat,
{
    let k = visit_key(rs[i]);
    if fuel == 0 {
        lemma_visiting_bound(rs, visiting);
    }
    assert(!visiting.contains(k));
    if !visited.contains(k) {
        let deps = resource_dependencies(rs[i].attributes@);
        let vis2 = visiting.push(k);
        assert(vis2.no_duplicates()) by {
            assert forall|s: int, t: int| 0 <= s < t < vis2.len() implies vis2[s] != vis2[t] by {
                if t == vis2.len() - 1 {
                    assert(visiting[s] == vis2[s]);
                }
            }
        }
        assert forall|t: int| 0 <= t < vis2.len() implies is_key(rs, #[trigger] vis2[t]) by {
            if t < visiting.len() {
                assert(vis2[t] == visiting[t]);
            } else {
                assert(visit_key(rs[i]) == vis2[t]);
            }
        }
        assert(visiting_above(rs, rank, vis2, rank(i))) by {
            assert forall|a: int| 0 <= a < rs.len() && vis2.contains(#[trigger] visit_key(rs[a])) implies rank(a) >= rank(i) by {
                let t = choose|t: int| 0 <= t < vis2.len() && vis2[t] == visit_key(rs[a]);
                if t < visiting.len() {
                    assert(visiting[t] == vis2[t]);
                    assert(visiting.contains(visit_key(rs[a])));
                } else {
                    assert(visit_key(rs[a]) == visit_key(rs[i]));
                }
            }
        }
        assert forall|m: int| 0 <= m < deps.len() implies (#[trigger] bound_resource(rs, deps[m]) matches Some(j)
            ==> rank(j) < rank(i)) by {
            if let Some(j) = bound_resource(rs, deps[m]) {
                assert(depends_on(rs, i, j));
            }
        }
        lemma_deps_order(rs, rank, (fuel - 1) as nat, deps, deps.len(), visited, vis2, sorted, rank(i));
        let after = topo_deps(rs, (fuel - 1) as nat, deps, deps.len(), visited, vis2, sorted);
        let res = topo_visit(rs, fuel, i, visited, visiting, sorted);
        assert(res == (after.0.push(k), after.1.push(i as usize)));
        assert(vis2.contains(k)) by {
            assert(vis2[visiting.len() as int] == k);
        }
        assert(!after.0.contains(k));
        assert(res.0.no_duplicates()) by {
            assert forall|s: int, t: int| 0 <= s < t < res.0.len() implies res.0[s] != res.0[t] by {
                if t == res.0.len() - 1 {
                    assert(after.0[s] == res.0[s]);
                } else {
                    assert(after.0[s] == res.0[s]);
                    assert(after.0[t] == res.0[t]);
                }
            }
        }
        assert forall|m: int| 0 <= m < res.1.len() implies (#[trigger] res.1[m]) < rs.len() && res.0[m]
            == visit_key(rs[res.1[m] as int]) by {
            if m < after.1.len() {
                assert(res.1[m] == after.1[m]);
                assert(res.0[m] == after.0[m]);
            }
        }
        assert forall|p: int, j: int|
            0 <= p < res.1.len() && #[trigger] depends_on(rs, res.1[p] as int, j) implies exists|q: int|
                0 <= q < p && #[trigger] res.1[q] == j by {
            if p < after.1.len() {
                assert(res.1[p] == after.1[p]);
                assert(depends_on(rs, after.1[p] as int, j));
                let q = choose|q: int| 0 <= q < p && #[trigger] after.1[q] == j;
                assert(res.1[q] == j);
            } else {
                assert(res.1[p] as int == i);
                let m = choose|m: int|
                    0 <= m < deps.len() && #[trigger] bound_resource(rs, deps[m]) == Some(j);
                lemma_bound_upto_range(rs, deps[m], rs.len() as int);
                assert(after.0.contains(visit_key(rs[j])));
                lemma_keyed_place(rs, after.0, after.1, j);
                let q = choose|q: int| 0 <= q < after.1.len() && #[trigger] after.1[q] == j;
                assert(res.1[q] == j);
            }
        }
        assert(res.0.contains(k)) by {
            assert(res.0[after.0.len() as int] == k);
        }
        assert forall|x: Seq<char>| visiting.contains(x) && !visited.contains(x) implies !(#[trigger] res.0.contains(x)) by {
            assert(vis2.contains(x)) by {
                let t = choose|t: int| 0 <= t < visiting.len() && visiting[t] == x;
                assert(vis2[t] == x);
            }
            assert(!after.0.contains(x));
            if res.0.contains(x) {
                let t = choose|t: int| 0 <= t < res.0.len() && res.0[t] == x;
                if t < after.0.len() {
                    assert(after.0[t] == x);
                }
            }
        }
    }
}

proof fn lemma_deps_order(
    rs: Seq<Resource>,
    rank: spec_fn(int) -> nat,
    fuel: nat,
    deps: Seq<Seq<char>>,
    n: nat,
    visited: Seq<Seq<char>>,
    visiting: Seq<Seq<char>>,
    sorted: Seq<usize>,
    r: nat,
)
    requires
        rs.len() < usize::MAX,
        keys_distinct(rs),
        ranked(rs, rank),
        n <= deps.len(),
        forall|m: int| 0 <= m < deps.len() ==> (#[trigger] bound_resource(rs, deps[m]) matches Some(j) ==> rank(j) < r),
        keyed(rs, visited, sorted),
        deps_first(rs, sorted),
        visiting.no_duplicates(),
        forall|t: int| 0 <= t < visiting.len() ==> is_key(rs, #[trigger] visiting[t]),
        visiting_above(rs, rank, visiting, r),
        fuel + visiting.len() == rs.len() + 1,
    ensures
        keyed(rs, topo_deps(rs, fuel, deps, n, visited, visiting, sorted).0, topo_deps(rs, fuel, deps, n, visited, visiting, sorted).1),
        deps_first(rs, topo_deps(rs, fuel, deps, n, visited, visiting, sorted).1),
        extends(visited, topo_deps(rs, fuel, deps, n, visited, visiting, sorted).0),
        extends(sorted, topo_deps(rs, fuel, deps, n, visited, visiting, sorted).1),
        forall|x: Seq<char>|
            visiting.contains(x) && !visited.contains(x) ==> !(#[trigger] topo_deps(rs, fuel, deps, n, visited, visiting, sorted).0.contains(x)),
        forall|m: int| 0 <= m < n ==> (#[trigger] bound_resource(rs, deps[m]) matches Some(j)
            ==> topo_deps(rs, fuel, deps, n, visited, visiting, sorted).0.contains(visit_key(rs[j]))),
    decreases fuel, 1nat, n,
{
    if n > 0 {
        lemma_deps_order(rs, rank, fuel, deps, (n - 1) as nat, visited, visiting, sorted, r);
        let before = topo_deps(rs, fuel, deps, (n - 1) as nat, visited, visiting, sorted);
        let res = topo_deps(rs, fuel, deps, n, visited, visiting, sorted);
        match bound_resource(rs, deps[n - 1]) {
            Some(j) => {
                lemma_bound_upto_range(rs, deps[n - 1], rs.len() as int);
                assert(rank(j) < r);
                lemma_visit_order(rs, rank, fuel, j, before.0, visiting, before.1);
                assert(res == topo_visit(rs, fuel, j, before.0, visiting, before.1));
                assert forall|m: int| 0 <= m < n implies (#[trigger] bound_resource(rs, deps[m]) matches Some(j2)
                    ==> res.0.contains(visit_key(rs[j2]))) by {
                    if m < n - 1 {
                        if let Some(j2) = bound_resource(rs, deps[m]) {
                            lemma_extends_contains(before.0, res.0, visit_key(rs[j2]));
                        }
                    }
                }
                assert forall|x: Seq<char>| visiting.contains(x) && !visited.contains(x) implies !(#[trigger] res.0.contains(x)) by {
                    assert(!before.0.contains(x));
                }
            },
            None => {
                assert(res == before);
            },
        }
    }
}

/// Ordering by dependencies, where no two resources are tracked by one name
/// and no resource depends on itself, directly or through others (a rank
/// drops along every dependency): each resource comes exactly once, and
/// after every resource bound to a name it refers to.
pub proof fn lemma_dependency_order(rs: Seq<Resource>, rank: spec_fn(int) -> nat)
    requires
        rs.len() < usize::MAX,
        keys_distinct(rs),
        ranked(rs, rank),
    ensures
        forall|a: usize| a < rs.len() ==> #[trigger] dependency_order(rs).contains(a),
        dependency_order(rs).no_duplicates(),
        forall|m: int| 0 <= m < dependency_order(rs).len() ==> (#[trigger] dependency_order(rs)[m]) < rs.len(),
        deps_first(rs, dependency_order(rs)),
{
    lemma_all_order(rs, rank, rs.len());
    let res = topo_all(rs, plan_fuel(rs.len()), rs.len());
    assert forall|a: usize| a < rs.len() implies #[trigger] dependency_order(rs).contains(a) by {
        assert(res.0.contains(visit_key(rs[a as int])));
        lemma_keyed_place(rs, res.0, res.1, a as int);
        let q = choose|q: int| 0 <= q < res.1.len() && #[trigger] res.1[q] == a as int;
        assert(res.1[q] == a);
    }
    assert forall|s: int, t: int| 0 <= s < t < res.1.len() implies res.1[s] != res.1[t] by {
        assert(res.0[s] != res.0[t]);
    }
}

proof fn lemma_all_order(rs: Seq<Resource>, rank: spec_fn(int) -> nat, n: nat)
    requires
        rs.len() < usize::MAX,
        keys_distinct(rs),
        ranked(rs, rank),
        n <= rs.len(),
    ensures
        keyed(rs, topo_all(rs, plan_fuel(rs.len()), n).0, topo_all(rs, plan_fuel(rs.len()), n).1),
        deps_first(rs, topo_all(rs, plan_fuel(rs.len()), n).1),
        forall|a: int| 0 <= a < n ==> topo_all(rs, plan_fuel(rs.len()), n).0.contains(#[trigger] visit_key(rs[a])),
    decreases n,
{
    let fuel = plan_fuel(rs.len());
    if n > 0 {
        lemma_all_order(rs, rank, (n - 1) as nat);
        let before = topo_all(rs, fuel, (n - 1) as nat);
        let none = Seq::<Seq<char>>::empty();
        assert(none.no_duplicates());
        assert(visiting_above(rs, rank, none, rank(n - 1) + 1));
        lemma_visit_order(rs, rank, fuel, n - 1, before.0, none, before.1);
        let res = topo_all(rs, fuel, n);
        assert forall|a: int| 0 <= a < n implies res.0.contains(#[trigger] visit_key(rs[a])) by {
            if a < n - 1 {
                lemma_extends_contains(before.0, res.0, visit_key(rs[a]));
            }
        }
    } else {
        let res = topo_all(rs, fuel, n);
        assert(res.0.no_duplicates());
    }
}

// ---------------------------------------------------------------------------
// Applying a plan: what the tool asks the provider next
// ---------------------------------------------------------------------------

/// A provider call the apply loop makes.
#[derive(Debug)]
pub enum ApplyAction {
    /// Create the resource (its references resolved)
    Create { resource: Resource },
    /// Update a resource from its current state to the desired one (its
    /// references resolved)
    Update { id: ResourceId, from: State, to: Resource },
    /// Delete a resource
    Delete { id: ResourceId },
}

/// What the apply loop does for the next effect.
#[derive(Debug)]
pub enum ApplyStep {
    /// Make a provider call and report its outcome
    Call(ApplyAction),
    /// Nothing to do for this effect (a read)
    Skip,
    /// The effect's references run in a cycle
    Cyclic,
    /// Every effect has been handled
    Done,
}

/// A count increased by one (a count stops at `usize::MAX`).
pub open spec fn bump(n: usize) -> usize {
    if n < usize::MAX {
        (n + 1) as usize
    } else {
        n
    }
}

/// The progress of an apply run.
#[derive(Debug)]
pub struct ApplySession {
    /// Binding name -> known attributes, for resolving references
    pub binding_map: Vec<(String, ValueMap)>,
    pub success_count: usize,
    pub failure_count: usize,
    /// The states the provider returned for the resources changed so far
    pub applied_states: Vec<State>,
    /// The index of the next effect
    pub next: usize,
}

/// A resource with its references resolved against a binding map (`None`
/// when they run in a cycle).
pub open spec fn resolved_resource(r: Resource, bm: Bindings) -> Option<Seq<(Seq<char>, ValueModel)>> {
    follow_entries(r.attributes@, bm, follow_fuel(bm))
}

/// The bindings after a changed resource's new state is known: the binding
/// gets the resolved attributes with the state's attributes stored over them.
pub open spec fn rebind(bm: Bindings, r: Resource, resolved: Seq<(Seq<char>, ValueModel)>, st: State) -> Bindings {
    match lookup(r.attributes@, "_binding"@) {
        Some(ValueModel::Str(b)) => binding_insert(bm, b, crate::resource::insert_all(resolved, st.attributes@)),
        _ => bm,
    }
}

/// A resource with resolved attributes.
fn resolve_resource(r: &Resource, bm: &Vec<(String, ValueMap)>) -> (out: Option<Resource>)
    ensures
        match resolved_resource(*r, bindings_model(bm@)) {
            Some(e) => out matches Some(x) && x.id@ == r.id@ && x.attributes@ == e,
            None => out is None,
        },
{
    let cm = crate::resource::copy_map(&r.attributes);
    proof {
        lemma_dict_view(cm);
    }
    let v = Value::Dict(cm);
    match resolve_ref_value(&v, bm) {
        Some(Value::Dict(m)) => {
            proof {
                lemma_dict_view(m);
            }
            Some(Resource { id: crate::resource::copy_id(&r.id), attributes: m })
        },
        _ => None,
    }
}

/// Store `st`'s attributes over `attrs`.
fn store_over(attrs: &mut ValueMap, st: &ValueMap)
    ensures
        final(attrs)@ == crate::resource::insert_all(old(attrs)@, st@),
{
    let ghost a0 = attrs@;
    let ghost sv = st@;
    let mut k: usize = 0;
    while k < st.entries.len()
        invariant
            k <= st.entries.len(),
            sv == st@,
            attrs@ == crate::resource::insert_all(a0, sv.take(k as int)),
        decreases st.entries.len() - k,
    {
        proof {
            assert(sv.take(k + 1).drop_last() =~= sv.take(k as int));
            assert(sv.take(k + 1).last() == sv[k as int]);
        }
        attrs.insert(copy_string(&st.entries[k].0), crate::resource::copy_value(&st.entries[k].1));
        k += 1;
    }
    proof {
        assert(sv.take(st.entries.len() as int) =~= sv);
    }
}

impl ApplySession {
    /// A run that starts with the given binding map.
    pub fn new(binding_map: Vec<(String, ValueMap)>) -> (r: Self)
        ensures
            r.binding_map@ == binding_map@,
            r.success_count == 0,
            r.failure_count == 0,
            r.applied_states@ == Seq::<State>::empty(),
            r.next == 0,
    {
        ApplySession { binding_map, success_count: 0, failure_count: 0, applied_states: Vec::new(), next: 0 }
    }

    /// What to do for the next effect: create or update the resource with its
    /// references resolved, delete, or skip a read.
    pub fn next_step(&self, plan: &crate::plan::Plan) -> (r: ApplyStep)
        ensures
            self.next >= plan@.len() ==> r is Done,
            self.next < plan@.len() ==> {
                let bm = bindings_model(self.binding_map@);
                match plan@[self.next as int] {
                    Effect::Create(res) => match resolved_resource(res, bm) {
                        Some(e) => r matches ApplyStep::Call(ApplyAction::Create { resource }) && resource.id@ == res.id@
                            && resource.attributes@ == e,
                        None => r is Cyclic,
                    },
                    Effect::Update { id, from, to } => match resolved_resource(to, bm) {
                        Some(e) => r matches ApplyStep::Call(ApplyAction::Update { id: i, from: f, to: t }) && i@ == id@
                            && f.id@ == from.id@ && f.attributes@ == from.attributes@ && f.exists == from.exists
                            && t.id@ == to.id@ && t.attributes@ == e,
                        None => r is Cyclic,
                    },
                    Effect::Delete(id) => r matches ApplyStep::Call(ApplyAction::Delete { id: i }) && i@ == id@,
                    Effect::Read { .. } => r is Skip,
                }
            },
    {
        let es = plan.effects();
        if self.next >= es.len() {
            return ApplyStep::Done;
        }
        match &es[self.next] {
            Effect::Create(res) => match resolve_resource(res, &self.binding_map) {
                Some(resource) => ApplyStep::Call(ApplyAction::Create { resource }),
                None => ApplyStep::Cyclic,
            },
            Effect::Update { id, from, to } => match resolve_resource(to, &self.binding_map) {
                Some(t) => ApplyStep::Call(
                    ApplyAction::Update {
                        id: crate::resource::copy_id(id),
                        from: State {
                            id: crate::resource::copy_id(&from.id),
                            attributes: crate::resource::copy_map(&from.attributes),
                            exists: from.exists,
                        },
                        to: t,
                    },
                ),
                None => ApplyStep::Cyclic,
            },
            Effect::Delete(id) => ApplyStep::Call(ApplyAction::Delete { id: crate::resource::copy_id(id) }),
            Effect::Read { .. } => ApplyStep::Skip,
        }
    }

    /// Record the outcome of the step taken for the next effect. A success
    /// counts, keeps the returned state, and rebinds the changed resource's
    /// binding to its resolved attributes with the state's over them; a
    /// failure counts. Counts stop at `usize::MAX`.
    pub fn record(&mut self, plan: &crate::plan::Plan, action: &ApplyAction, outcome: Result<State, String>)
        requires
            old(self).next < plan@.len(),
        ensures
            final(self).next == old(self).next + 1,
            outcome is Err ==> final(self).failure_count == bump(old(self).failure_count)
                && final(self).success_count == old(self).success_count
                && final(self).binding_map@ == old(self).binding_map@
                && final(self).applied_states@ == old(self).applied_states@,
            outcome matches Ok(st) ==> {
                &&& final(self).success_count == bump(old(self).success_count)
                &&& final(self).failure_count == old(self).failure_count
                &&& match action {
                    ApplyAction::Create { resource } => final(self).applied_states@ == old(self).applied_states@.push(st)
                        && match plan@[old(self).next as int] {
                            Effect::Create(r) => bindings_model(final(self).binding_map@) == rebind(
                                bindings_model(old(self).binding_map@),
                                r,
                                resource.attributes@,
                                st,
                            ),
                            _ => final(self).binding_map@ == old(self).binding_map@,
                        },
                    ApplyAction::Update { to, .. } => final(self).applied_states@ == old(self).applied_states@.push(st)
                        && match plan@[old(self).next as int] {
                            Effect::Update { to: r, .. } => bindings_model(final(self).binding_map@) == rebind(
                                bindings_model(old(self).binding_map@),
                                r,
                                to.attributes@,
                                st,
                            ),
                            _ => final(self).binding_map@ == old(self).binding_map@,
                        },
                    ApplyAction::Delete { .. } => final(self).applied_states@ == old(self).applied_states@
                        && final(self).binding_map@ == old(self).binding_map@,
                }
            },
    {
        proof {
            reveal_strlit("_binding");
        }
        let total = plan.effects().len();
        match outcome {
            Err(_) => {
                self.failure_count = if self.failure_count < usize::MAX { self.failure_count + 1 } else { usize::MAX };
            },
            Ok(st) => {
                self.success_count = if self.success_count < usize::MAX { self.success_count + 1 } else { usize::MAX };
                let es = plan.effects();
                match action {
                    ApplyAction::Delete { .. } => {},
                    ApplyAction::Create { resource: resolved } | ApplyAction::Update { to: resolved, .. } => {
                        let original = match &es[self.next] {
                            Effect::Create(r) => Some(r),
                            Effect::Update { to, .. } => Some(to),
                            _ => None,
                        };
                        let is_create = match action {
                            ApplyAction::Create { .. } => true,
                            _ => false,
                        };
                        let matching = match &es[self.next] {
                            Effect::Create(_) => is_create,
                            Effect::Update { .. } => !is_create,
                            _ => false,
                        };
                        if matching {
                            if let Some(r) = original {
                                if let Some(Value::String(b)) = r.attributes.get("_binding") {
                                    let mut attrs = crate::resource::copy_map(&resolved.attributes);
                                    store_over(&mut attrs, &st.attributes);
                                    let ghost before = bindings_model(self.binding_map@);
                                    match crate::parser::resolve::binding_index(&self.binding_map, b.as_str()) {
                                        Some(k) => {
                                            proof {
                                                crate::parser::resolve::lemma_binding_insert_at(before, b@, attrs@, k as int);
                                            }
                                            self.binding_map.set(k, (copy_string(b), attrs));
                                            proof {
                                                assert(bindings_model(self.binding_map@) =~= binding_insert(before, b@, attrs@));
                                            }
                                        },
                                        None => {
                                            proof {
                                                crate::parser::resolve::lemma_binding_insert_new(before, b@, attrs@);
                                            }
                                            self.binding_map.push((copy_string(b), attrs));
                                            proof {
                                                assert(bindings_model(self.binding_map@) =~= binding_insert(before, b@, attrs@));
                                            }
                                        },
                                    }
                                }
                            }
                        }
                        self.applied_states.push(st);
                    },
                }
            },
        }
        self.next = self.next + 1;
    }

    /// The closing message of the run.
    pub fn summary(&self) -> (r: String)
        ensures
            r@ == if self.failure_count == 0 {
                "Apply complete! "@ + crate::text::nat_digits(self.success_count as nat) + " changes applied."@
            } else {
                "Apply failed. "@ + crate::text::nat_digits(self.success_count as nat) + " succeeded, "@
                    + crate::text::nat_digits(self.failure_count as nat) + " failed."@
            },
    {
        if self.failure_count == 0 {
            let mut s = str_to_string("Apply complete! ");
            push_chars(&mut s, crate::text::usize_text(self.success_count).as_slice());
            push_str(&mut s, " changes applied.");
            s
        } else {
            let mut s = str_to_string("Apply failed. ");
            push_chars(&mut s, crate::text::usize_text(self.success_count).as_slice());
            push_str(&mut s, " succeeded, ");
            push_chars(&mut s, crate::text::usize_text(self.failure_count).as_slice());
            push_str(&mut s, " failed.");
            s
        }
    }
}

// ---------------------------------------------------------------------------
// Destroying resources
// ---------------------------------------------------------------------------

/// The order in which resources are destroyed: dependents first (the
/// dependency order reversed).
pub fn destroy_order(resources: &Vec<Resource>) -> (r: Vec<Resource>)
    ensures
        copies_in_order(r@, resources@, reversed(dependency_order(resources@))),
{
    let sorted = sort_resources_by_dependencies(resources);
    let ghost ord = dependency_order(resources@);
    let mut out: Vec<Resource> = Vec::new();
    let mut k: usize = sorted.len();
    while k > 0
        invariant
            k <= sorted.len(),
            ord == dependency_order(resources@),
            copies_in_order(sorted@, resources@, ord),
            copies_in_order(out@, resources@, reversed(ord).take(sorted.len() - k)),
        decreases k,
    {
        out.push(crate::resource::copy_resource(&sorted[k - 1]));
        k -= 1;
        proof {
            assert(reversed(ord).take(sorted.len() - k) =~= reversed(ord).take(sorted.len() - k - 1).push(ord[k as int]));
        }
    }
    proof {
        assert(reversed(ord).take(sorted.len() as int) =~= reversed(ord));
    }
    out
}

/// Whether a resource is the backend's state bucket, which destroy keeps.
pub open spec fn is_state_bucket(r: Resource, bucket: Option<Seq<char>>) -> bool {
    &&& r.id.resource_type@ == "s3.bucket"@
    &&& bucket is Some
    &&& lookup(r.attributes@, "name"@) == Some(ValueModel::Str(bucket.unwrap()))
}

/// Whether a resource exists according to its known state.
pub open spec fn known_to_exist(states: Seq<State>, r: Resource) -> bool {
    match state_of(states, r.id@) {
        Some(st) => st.exists,
        None => false,
    }
}

/// The existing resources among the first `n`, split into those to destroy
/// and the protected state bucket.
pub open spec fn destroy_split(rs: Seq<Resource>, states: Seq<State>, bucket: Option<Seq<char>>, n: int) -> (Seq<usize>, Seq<usize>)
    decreases n,
{
    if n <= 0 {
        (Seq::empty(), Seq::empty())
    } else {
        let before = destroy_split(rs, states, bucket, n - 1);
        if !known_to_exist(states, rs[n - 1]) {
            before
        } else if is_state_bucket(rs[n - 1], bucket) {
            (before.0, before.1.push((n - 1) as usize))
        } else {
            (before.0.push((n - 1) as usize), before.1)
        }
    }
}

/// Which resources (in destroy order) to destroy, and which are protected:
/// only existing resources, and never the backend's state bucket.
pub fn destroy_targets(order: &Vec<Resource>, current_states: &Vec<State>, protected_bucket: &Option<String>) -> (r: (Vec<usize>, Vec<usize>))
    ensures
        (r.0@, r.1@) == destroy_split(order@, current_states@, crate::resource::opt_str_view(*protected_bucket), order.len() as int),
{
    proof {
        reveal_strlit("s3.bucket");
        reveal_strlit("name");
    }
    let mut destroy: Vec<usize> = Vec::new();
    let mut protected: Vec<usize> = Vec::new();
    let mut i: usize = 0;
    while i < order.len()
        invariant
            i <= order.len(),
            (destroy@, protected@) == destroy_split(order@, current_states@, crate::resource::opt_str_view(*protected_bucket), i as int),
        decreases order.len() - i,
    {
        let r = &order[i];
        let exists = match find_state(current_states, &r.id) {
            Some(st) => st.exists,
            None => false,
        };
        if exists {
            let is_bucket = crate::text::str_eq(r.id.resource_type.as_str(), "s3.bucket") && match protected_bucket {
                Some(b) => match r.attributes.get("name") {
                    Some(Value::String(name)) => crate::text::str_eq(name.as_str(), b.as_str()),
                    _ => false,
                },
                None => false,
            };
            if is_bucket {
                protected.push(i);
            } else {
                destroy.push(i);
            }
        }
        i += 1;
    }
    (destroy, protected)
}

/// The line of a resource in the destroy plan.
pub open spec fn destroy_line(r: Resource, protected: bool) -> Seq<(Seq<char>, Style)> {
    if protected {
        piece("  "@, Style::Plain) + piece("⚠"@, Style::YellowBold) + piece(
            " "@ + r.id.resource_type@ + "."@ + r.id.name@ + " "@,
            Style::Plain,
        ) + piece("(protected - will be skipped)"@, Style::Yellow) + nl()
    } else {
        piece("  "@, Style::Plain) + piece("-"@, Style::RedBold) + piece(
            " "@ + r.id.resource_type@ + "."@ + r.id.name@,
            Style::Plain,
        ) + nl()
    }
}

/// The lines of the chosen resources.
pub open spec fn destroy_lines(rs: Seq<Resource>, idx: Seq<usize>, protected: bool) -> Seq<(Seq<char>, Style)>
    decreases idx.len(),
{
    if idx.len() == 0 {
        Seq::empty()
    } else {
        destroy_lines(rs, idx.drop_last(), protected) + if idx.last() < rs.len() {
            destroy_line(rs[idx.last() as int], protected)
        } else {
            Seq::empty()
        }
    }
}

/// The destroy plan as shown before asking for confirmation.
pub open spec fn destroy_plan_text(rs: Seq<Resource>, destroy: Seq<usize>, protected: Seq<usize>) -> Seq<(Seq<char>, Style)> {
    piece("Destroy Plan:"@, Style::RedBold) + nl() + nl() + destroy_lines(rs, destroy, false) + destroy_lines(
        rs,
        protected,
        true,
    ) + nl() + (if protected.len() > 0 {
        piece("Plan: "@, Style::Plain) + piece(crate::text::nat_digits(destroy.len()), Style::Red) + piece(
            " to destroy, "@,
            Style::Plain,
        ) + piece(crate::text::nat_digits(protected.len()), Style::Yellow) + piece(" protected."@, Style::Plain)
    } else {
        piece("Plan: "@, Style::Plain) + piece(crate::text::nat_digits(destroy.len() + protected.len()), Style::Red)
            + piece(" to destroy."@, Style::Plain)
    }) + nl() + nl()
}

fn push_destroy_lines(out: &mut Vec<Styled>, rs: &Vec<Resource>, idx: &Vec<usize>, protected: bool)
    ensures
        styled_view(final(out)@) == styled_view(old(out)@) + destroy_lines(rs@, idx@, protected),
{
    let ghost start = styled_view(out@);
    let mut k: usize = 0;
    while k < idx.len()
        invariant
            k <= idx.len(),
            styled_view(out@) == start + destroy_lines(rs@, idx@.take(k as int), protected),
        decreases idx.len() - k,
    {
        proof {
            assert(idx@.take(k + 1).drop_last() =~= idx@.take(k as int));
            assert(idx@.take(k + 1).last() == idx@[k as int]);
        }
        let i = idx[k];
        if i < rs.len() {
            let r = &rs[i];
            let ghost mid = styled_view(out@);
            let mut text = str_to_string(" ");
            push_str(&mut text, r.id.resource_type.as_str());
            push_str(&mut text, ".");
            push_str(&mut text, r.id.name.as_str());
            push_piece(out, "  ", Style::Plain);
            if protected {
                push_str(&mut text, " ");
                push_piece(out, "⚠", Style::YellowBold);
                push_piece(out, text.as_str(), Style::Plain);
                push_piece(out, "(protected - will be skipped)", Style::Yellow);
            } else {
                push_piece(out, "-", Style::RedBold);
                push_piece(out, text.as_str(), Style::Plain);
            }
            push_piece(out, "\n", Style::Plain);
            proof {
                assert(styled_view(out@) =~= mid + destroy_line(rs@[i as int], protected));
            }
        }
        k += 1;
    }
    proof {
        assert(idx@.take(idx.len() as int) =~= idx@);
    }
}

/// The destroy plan as shown before asking for confirmation.
pub fn destroy_plan_display(order: &Vec<Resource>, destroy: &Vec<usize>, protected: &Vec<usize>) -> (r: Vec<Styled>)
    ensures
        styled_view(r@) == destroy_plan_text(order@, destroy@, protected@),
{
    let mut out: Vec<Styled> = Vec::new();
    proof {
        assert(styled_view(out@) =~= Seq::<(Seq<char>, Style)>::empty());
    }
    push_piece(&mut out, "Destroy Plan:", Style::RedBold);
    push_piece(&mut out, "\n", Style::Plain);
    push_piece(&mut out, "\n", Style::Plain);
    push_destroy_lines(&mut out, order, destroy, false);
    push_destroy_lines(&mut out, order, protected, true);
    push_piece(&mut out, "\n", Style::Plain);
    push_piece(&mut out, "Plan: ", Style::Plain);
    if protected.len() > 0 {
        push_piece(&mut out, string_of(crate::text::usize_text(destroy.len()).as_slice()).as_str(), Style::Red);
        push_piece(&mut out, " to destroy, ", Style::Plain);
        push_piece(&mut out, string_of(crate::text::usize_text(protected.len()).as_slice()).as_str(), Style::Yellow);
        push_piece(&mut out, " protected.", Style::Plain);
    } else {
        // no protected resources: the total is the number to destroy
        push_piece(&mut out, string_of(crate::text::usize_text(destroy.len()).as_slice()).as_str(), Style::Red);
        push_piece(&mut out, " to destroy.", Style::Plain);
    }
    push_piece(&mut out, "\n", Style::Plain);
    push_piece(&mut out, "\n", Style::Plain);
    proof {
        assert(styled_view(out@) =~= destroy_plan_text(order@, destroy@, protected@));
    }
    out
}

/// The closing message of a destroy run.
pub fn destroy_summary(success_count: usize, failure_count: usize) -> (r: String)
    ensures
        r@ == if failure_count == 0 {
            "Destroy complete! "@ + crate::text::nat_digits(success_count as nat) + " resources destroyed."@
        } else {
            "Destroy failed. "@ + crate::text::nat_digits(success_count as nat) + " succeeded, "@
                + crate::text::nat_digits(failure_count as nat) + " failed."@
        },
{
    if failure_count == 0 {
        let mut s = str_to_string("Destroy complete! ");
        push_chars(&mut s, crate::text::usize_text(success_count).as_slice());
        push_str(&mut s, " resources destroyed.");
        s
    } else {
        let mut s = str_to_string("Destroy failed. ");
        push_chars(&mut s, crate::text::usize_text(success_count).as_slice());
        push_str(&mut s, " succeeded, ");
        push_chars(&mut s, crate::text::usize_text(failure_count).as_slice());
        push_str(&mut s, " failed.");
        s
    }
}

// ---------------------------------------------------------------------------
// Regions, backends and validation
// ---------------------------------------------------------------------------

/// A region in AWS form: `aws.Region.ap_northeast_1` becomes
/// `ap-northeast-1`; any other text is kept.
pub open spec fn aws_region_form(v: Seq<char>) -> Seq<char> {
    if crate::text::is_prefix("aws.Region."@, v) {
        crate::text::replace_char(v.skip(11), '_', '-')
    } else {
        v
    }
}

/// Convert region value from DSL format to AWS format
pub fn convert_region_value(value: &str) -> (r: String)
    ensures
        r@ == aws_region_form(value@),
{
    let c = chars_of(value);
    let prefix = chars_of("aws.Region.");
    proof {
        reveal_strlit("aws.Region.");
    }
    if crate::text::starts_with(c.as_slice(), prefix.as_slice()) {
        let mut rest: Vec<char> = Vec::new();
        let mut i: usize = 11;
        while i < c.len()
            invariant
                11 <= i <= c.len(),
                rest@ == c@.subrange(11, i as int),
            decreases c.len() - i,
        {
            rest.push(c[i]);
            i += 1;
            proof {
                assert(rest@ =~= c@.subrange(11, i as int));
            }
        }
        proof {
            assert(c@.skip(11) =~= c@.subrange(11, c.len() as int));
        }
        string_of(crate::text::replace_char_chars(rest.as_slice(), '_', '-').as_slice())
    } else {
        str_to_string(value)
    }
}

/// The region of the first `aws` provider that sets one as text.
pub open spec fn dsl_region(providers: Seq<crate::parser::ProviderConfig>, name: Seq<char>) -> Option<Seq<char>>
    decreases providers.len(),
{
    if providers.len() == 0 {
        None
    } else {
        match dsl_region(providers.drop_last(), name) {
            Some(r) => Some(r),
            None => if providers.last().name@ == name {
                match lookup(providers.last().attributes@, "region"@) {
                    Some(ValueModel::Str(r)) => Some(r),
                    _ => None,
                }
            } else {
                None
            },
        }
    }
}

fn find_provider_region(providers: &Vec<crate::parser::ProviderConfig>, name: &str) -> (r: Option<String>)
    ensures
        crate::resource::opt_str_view(r) == dsl_region(providers@, name@),
{
    proof {
        reveal_strlit("region");
    }
    let mut i: usize = 0;
    while i < providers.len()
        invariant
            i <= providers.len(),
            dsl_region(providers@.take(i as int), name@) is None,
        decreases providers.len() - i,
    {
        proof {
            assert(providers@.take(i + 1).drop_last() =~= providers@.take(i as int));
        }
        if crate::text::str_eq(providers[i].name.as_str(), name) {
            if let Some(Value::String(region)) = providers[i].attributes.get("region") {
                proof {
                    lemma_dsl_region_found(providers@, name@, (i + 1) as int);
                }
                return Some(copy_string(region));
            }
        }
        i += 1;
    }
    proof {
        assert(providers@.take(providers.len() as int) =~= providers@);
    }
    None
}

proof fn lemma_dsl_region_found(ps: Seq<crate::parser::ProviderConfig>, name: Seq<char>, k: int)
    requires
        0 < k <= ps.len(),
        dsl_region(ps.take(k), name) is Some,
    ensures
        dsl_region(ps, name) == dsl_region(ps.take(k), name),
    decreases ps.len() - k,
{
    if k < ps.len() {
        assert(ps.take(k + 1).drop_last() =~= ps.take(k));
        lemma_dsl_region_found(ps, name, k + 1);
    } else {
        assert(ps.take(k) =~= ps);
    }
}

/// The region the first `aws` provider sets, as written in the DSL.
pub fn get_aws_region_dsl(parsed: &crate::parser::ParsedFile) -> (r: Option<String>)
    ensures
        crate::resource::opt_str_view(r) == dsl_region(parsed.providers@, "aws"@),
{
    find_provider_region(&parsed.providers, "aws")
}

/// Get region from provider configuration (AWS format: ap-northeast-1),
/// `ap-northeast-1` when no `aws` provider sets one.
pub fn get_aws_region(parsed: &crate::parser::ParsedFile) -> (r: String)
    ensures
        r@ == match dsl_region(parsed.providers@, "aws"@) {
            Some(v) => aws_region_form(v),
            None => "ap-northeast-1"@,
        },
{
    match get_aws_region_dsl(parsed) {
        Some(region) => convert_region_value(region.as_str()),
        None => str_to_string("ap-northeast-1"),
    }
}

/// Get region from the `awscc` provider configuration (AWS format),
/// `ap-northeast-1` when none sets one.
pub fn get_awscc_region(parsed: &crate::parser::ParsedFile) -> (r: String)
    ensures
        r@ == match dsl_region(parsed.providers@, "awscc"@) {
            Some(v) => aws_region_form(v),
            None => "ap-northeast-1"@,
        },
{
    match find_provider_region(&parsed.providers, "awscc") {
        Some(region) => convert_region_value(region.as_str()),
        None => str_to_string("ap-northeast-1"),
    }
}

/// Apply default region from provider to resources that don't have a region specified
pub fn apply_default_region(parsed: &mut crate::parser::ParsedFile)
    ensures
        final(parsed).resources.len() == old(parsed).resources.len(),
        forall|i: int| 0 <= i < final(parsed).resources.len() ==> {
            let before = old(parsed).resources@[i];
            &&& (#[trigger] final(parsed).resources@[i]).id == before.id
            &&& final(parsed).resources@[i].attributes@ == match dsl_region(old(parsed).providers@, "aws"@) {
                Some(region) => if has_key(before.attributes@, "region"@) {
                    before.attributes@
                } else {
                    crate::resource::insert_entry(before.attributes@, "region"@, ValueModel::Str(region))
                },
                None => before.attributes@,
            }
        },
        final(parsed).providers@ == old(parsed).providers@,
{
    proof {
        reveal_strlit("region");
    }
    let default_region = get_aws_region_dsl(parsed);
    let ghost before = parsed.resources@;
    let ghost region = dsl_region(parsed.providers@, "aws"@);
    if let Some(region) = default_region {
        let mut i: usize = 0;
        while i < parsed.resources.len()
            invariant
                i <= parsed.resources.len(),
                parsed.resources.len() == before.len(),
                parsed.providers@ == old(parsed).providers@,
                before == old(parsed).resources@,
                dsl_region(old(parsed).providers@, "aws"@) == Some(region@),
                forall|j: int| i <= j < parsed.resources.len() ==> #[trigger] parsed.resources@[j] == before[j],
                forall|j: int| 0 <= j < i ==> {
                    &&& (#[trigger] parsed.resources@[j]).id == before[j].id
                    &&& parsed.resources@[j].attributes@ == if has_key(before[j].attributes@, "region"@) {
                        before[j].attributes@
                    } else {
                        crate::resource::insert_entry(before[j].attributes@, "region"@, ValueModel::Str(region@))
                    }
                },
            decreases parsed.resources.len() - i,
        {
            let mut r = parsed.resources.remove(i);
            if !r.attributes.contains_key("region") {
                r.attributes.insert(str_to_string("region"), Value::String(copy_string(&region)));
            }
            parsed.resources.insert(i, r);
            i += 1;
        }
    }
}

/// The bucket named by a backend configuration.
pub fn backend_bucket(config: &crate::parser::BackendConfig) -> (r: Option<String>)
    ensures
        crate::resource::opt_str_view(r) == match lookup(config.attributes@, "bucket"@) {
            Some(ValueModel::Str(b)) => Some(b),
            _ => None,
        },
{
    match config.attributes.get("bucket") {
        Some(Value::String(s)) => Some(copy_string(s)),
        _ => None,
    }
}

/// Whether a backend may create its missing state bucket (`auto_create`,
/// on unless set to `false`).
pub fn backend_auto_create(config: &crate::parser::BackendConfig) -> (r: bool)
    ensures
        r == match lookup(config.attributes@, "auto_create"@) {
            Some(ValueModel::Bool(b)) => b,
            _ => true,
        },
{
    match config.attributes.get("auto_create") {
        Some(Value::Bool(b)) => *b,
        _ => true,
    }
}

/// The region of a backend in AWS form, `ap-northeast-1` when unset.
pub fn backend_region(config: &crate::parser::BackendConfig) -> (r: String)
    ensures
        r@ == match lookup(config.attributes@, "region"@) {
            Some(ValueModel::Str(s)) => aws_region_form(s),
            _ => "ap-northeast-1"@,
        },
{
    match config.attributes.get("region") {
        Some(Value::String(s)) => convert_region_value(s.as_str()),
        _ => str_to_string("ap-northeast-1"),
    }
}

/// The resource definition appended for an automatically created state bucket.
pub fn state_bucket_definition(bucket_name: &str) -> (r: String)
    ensures
        r@ == "\n# Auto-generated by carina (state bucket)\naws.s3.bucket {\n    name       = \""@ + bucket_name@
            + "\"\n    versioning = \"Enabled\"\n}\n"@,
{
    let mut s = str_to_string("\n# Auto-generated by carina (state bucket)\naws.s3.bucket {\n    name       = \"");
    push_str(&mut s, bucket_name);
    push_str(&mut s, "\"\n    versioning = \"Enabled\"\n}\n");
    s
}

/// Whether a resource is an S3 bucket with the given name.
pub open spec fn is_bucket_named(r: Resource, name: Seq<char>) -> bool {
    r.id.resource_type@ == "s3.bucket"@ && lookup(r.attributes@, "name"@) == Some(ValueModel::Str(name))
}

/// Find the state bucket resource in the parsed file
pub fn find_state_bucket_resource(parsed: &crate::parser::ParsedFile, bucket_name: &str) -> (r: Option<usize>)
    ensures
        match r {
            Some(i) => i < parsed.resources.len() && is_bucket_named(parsed.resources@[i as int], bucket_name@)
                && forall|j: int| 0 <= j < i ==> !is_bucket_named(#[trigger] parsed.resources@[j], bucket_name@),
            None => forall|j: int| 0 <= j < parsed.resources.len() ==> !is_bucket_named(#[trigger] parsed.resources@[j], bucket_name@),
        },
{
    proof {
        reveal_strlit("s3.bucket");
        reveal_strlit("name");
    }
    let mut i: usize = 0;
    while i < parsed.resources.len()
        invariant
            i <= parsed.resources.len(),
            forall|j: int| 0 <= j < i ==> !is_bucket_named(#[trigger] parsed.resources@[j], bucket_name@),
        decreases parsed.resources.len() - i,
    {
        let r = &parsed.resources[i];
        let hit = crate::text::str_eq(r.id.resource_type.as_str(), "s3.bucket") && match r.attributes.get("name") {
            Some(Value::String(n)) => crate::text::str_eq(n.as_str(), bucket_name),
            _ => false,
        };
        if hit {
            return Some(i);
        }
        i += 1;
    }
    None
}

/// The outcome of checking a value as an AWS region.
pub open spec fn region_check(v: ValueModel) -> Result<(), TypeErrorModel> {
    match validator_check(Validator::AwsRegion, resolve_for_custom("Region"@, Some("aws"@), v)) {
        Ok(()) => Ok(()),
        Err(m) => Err(TypeErrorModel::ValidationFailed { message: m }),
    }
}

/// The error of an `aws` or `awscc` provider whose region is not valid.
pub open spec fn provider_region_error(p: crate::parser::ProviderConfig) -> Option<Seq<char>> {
    if p.name@ == "aws"@ || p.name@ == "awscc"@ {
        match lookup(p.attributes@, "region"@) {
            Some(v) => match region_check(v) {
                Err(e) => Some("provider "@ + p.name@ + ": "@ + error_message(e)),
                Ok(_) => None,
            },
            None => None,
        }
    } else {
        None
    }
}

/// The error of the first provider with an invalid region.
pub open spec fn first_region_error(ps: Seq<crate::parser::ProviderConfig>) -> Option<Seq<char>>
    decreases ps.len(),
{
    if ps.len() == 0 {
        None
    } else {
        match first_region_error(ps.drop_last()) {
            Some(e) => Some(e),
            None => provider_region_error(ps.last()),
        }
    }
}

/// Validate provider region attribute
pub fn validate_provider_region(parsed: &crate::parser::ParsedFile) -> (r: Result<(), String>)
    ensures
        match first_region_error(parsed.providers@) {
            Some(e) => r matches Err(m) && m@ == e,
            None => r is Ok,
        },
{
    let region_type = crate::aws::types::aws_region();
    proof {
        reveal_strlit("aws");
        reveal_strlit("awscc");
        reveal_strlit("region");
    }
    let mut i: usize = 0;
    while i < parsed.providers.len()
        invariant
            i <= parsed.providers.len(),
            crate::aws::types::is_region_type(region_type),
            first_region_error(parsed.providers@.take(i as int)) is None,
        decreases parsed.providers.len() - i,
    {
        proof {
            assert(parsed.providers@.take(i + 1).drop_last() =~= parsed.providers@.take(i as int));
            assert(parsed.providers@.take(i + 1).last() == parsed.providers@[i as int]);
        }
        let p = &parsed.providers[i];
        if crate::text::str_eq(p.name.as_str(), "aws") || crate::text::str_eq(p.name.as_str(), "awscc") {
            if let Some(v) = p.attributes.get("region") {
                if let Err(e) = region_type.validate(v) {
                    proof {
                        lemma_region_error_stays(parsed.providers@, (i + 1) as int);
                    }
                    let mut m = str_to_string("provider ");
                    push_str(&mut m, p.name.as_str());
                    push_str(&mut m, ": ");
                    let em = e.message();
                    push_str(&mut m, em.as_str());
                    return Err(m);
                }
            }
        }
        i += 1;
    }
    proof {
        assert(parsed.providers@.take(parsed.providers.len() as int) =~= parsed.providers@);
    }
    Ok(())
}

proof fn lemma_region_error_stays(ps: Seq<crate::parser::ProviderConfig>, k: int)
    requires
        0 < k <= ps.len(),
        first_region_error(ps.take(k)) is Some,
    ensures
        first_region_error(ps) == first_region_error(ps.take(k)),
    decreases ps.len() - k,
{
    if k < ps.len() {
        assert(ps.take(k + 1).drop_last() =~= ps.take(k));
        lemma_region_error_stays(ps, k + 1);
    } else {
        assert(ps.take(k) =~= ps);
    }
}

/// The error of a CIDR list element, if any: the first element that is not
/// a string or not a CIDR block.
pub open spec fn cidr_list_error(items: Seq<ValueModel>, n: int) -> Option<Seq<char>>
    decreases n,
{
    if n <= 0 {
        None
    } else {
        match cidr_list_error(items, n - 1) {
            Some(e) => Some(e),
            None => match items[n - 1] {
                ValueModel::Str(s) => match spec_validate_cidr(s) {
                    Err(e) => Some("element "@ + crate::text::nat_digits((n - 1) as nat) + ": "@ + e),
                    Ok(_) => None,
                },
                _ => Some("element "@ + crate::text::nat_digits((n - 1) as nat) + ": expected string"@),
            },
        }
    }
}

/// The error of a module argument against the type of the input it sets.
pub open spec fn module_arg_error(t: TypeModel, v: ValueModel) -> Option<Seq<char>> {
    match (t, v) {
        (TypeModel::Cidr, ValueModel::Str(s)) => match spec_validate_cidr(s) {
            Err(e) => Some(e),
            Ok(_) => None,
        },
        (TypeModel::List(inner), ValueModel::List(items)) => if *inner == TypeModel::Cidr {
            cidr_list_error(items, items.len() as int)
        } else {
            None
        },
        (TypeModel::Bool, ValueModel::Str(s)) => Some("expected bool, got string \""@ + s + "\". Use true or false."@),
        (TypeModel::Int, ValueModel::Str(s)) => Some("expected int, got string \""@ + s + "\"."@),
        _ => None,
    }
}

/// Validate a module argument value against its expected type
pub fn validate_module_arg_type(type_expr: &TypeExpr, value: &Value) -> (r: Option<String>)
    ensures
        crate::resource::opt_str_view(r) == module_arg_error(type_expr@, value@),
{
    match (type_expr, value) {
        (TypeExpr::Cidr, Value::String(s)) => match crate::schema::validate_cidr(s.as_str()) {
            Err(e) => Some(e),
            Ok(_) => None,
        },
        (TypeExpr::List(inner), Value::List(items)) => {
            proof {
                lemma_list_view(*items);
            }
            let ghost iv = values_view(items@);
            if let TypeExpr::Cidr = &**inner {
                proof {
                    assert((**inner)@ == TypeModel::Cidr);
                    assert(type_expr@ == TypeModel::List(Box::new((**inner)@)));
                }
                let mut i: usize = 0;
                while i < items.len()
                    invariant
                        i <= items.len(),
                        iv == values_view(items@),
                        cidr_list_error(iv, i as int) is None,
                        value@ == ValueModel::List(iv),
                        type_expr@ == TypeModel::List(Box::new(TypeModel::Cidr)),
                    decreases items.len() - i,
                {
                    proof {
                        assert(iv[i as int] == items@[i as int]@);
                    }
                    let err = match &items[i] {
                        Value::String(s) => match crate::schema::validate_cidr(s.as_str()) {
                            Err(e) => {
                                let mut m = str_to_string("element ");
                                push_chars(&mut m, crate::text::usize_text(i).as_slice());
                                push_str(&mut m, ": ");
                                push_str(&mut m, e.as_str());
                                Some(m)
                            },
                            Ok(_) => None,
                        },
                        other => {
                            proof {
                                match other {
                                    Value::List(x) => lemma_list_view(*x),
                                    Value::Dict(x) => lemma_dict_view(*x),
                                    _ => {},
                                }
                            }
                            let mut m = str_to_string("element ");
                            push_chars(&mut m, crate::text::usize_text(i).as_slice());
                            push_str(&mut m, ": expected string");
                            Some(m)
                        },
                    };
                    if err.is_some() {
                        proof {
                            assert(cidr_list_error(iv, (i + 1) as int) == crate::resource::opt_str_view(err));
                            lemma_cidr_list_error_stays(iv, (i + 1) as int);
                            assert(value@ == ValueModel::List(iv));
                        }
                        return err;
                    }
                    i += 1;
                }
                proof {
                    assert(value@ == ValueModel::List(iv));
                }
                None
            } else {
                proof {
                    assert(type_expr@ == TypeModel::List(Box::new((**inner)@)));
                    assert((**inner)@ != TypeModel::Cidr);
                    assert(value@ == ValueModel::List(iv));
                }
                None
            }
        },
        (TypeExpr::Bool, Value::String(s)) => {
            let mut m = str_to_string("expected bool, got string \"");
            push_str(&mut m, s.as_str());
            push_str(&mut m, "\". Use true or false.");
            Some(m)
        },
        (TypeExpr::Int, Value::String(s)) => {
            let mut m = str_to_string("expected int, got string \"");
            push_str(&mut m, s.as_str());
            push_str(&mut m, "\".");
            Some(m)
        },
        (_, Value::List(x)) => {
            proof {
                lemma_list_view(*x);
            }
            None
        },
        (_, Value::Dict(x)) => {
            proof {
                lemma_dict_view(*x);
            }
            None
        },
        _ => None,
    }
}

proof fn lemma_cidr_list_error_stays(items: Seq<ValueModel>, k: int)
    requires
        0 < k <= items.len(),
        cidr_list_error(items, k) is Some,
    ensures
        cidr_list_error(items, items.len() as int) == cidr_list_error(items, k),
    decreases items.len() - k,
{
    if k < items.len() {
        lemma_cidr_list_error_stays(items, k + 1);
    }
}

/// The schema registered under a resource type (the last one given).
pub open spec fn schema_for(schemas: Seq<ResourceSchema>, key: Seq<char>) -> Option<ResourceSchema>
    decreases schemas.len(),
{
    if schemas.len() == 0 {
        None
    } else if schemas.last().resource_type@ == key {
        Some(schemas.last())
    } else {
        schema_for(schemas.drop_last(), key)
    }
}

/// The schema key of a resource: its type, prefixed with its provider when
/// that is not `aws`.
pub open spec fn schema_key(r: Resource) -> Seq<char> {
    match lookup(r.attributes@, "_provider"@) {
        Some(ValueModel::Str(p)) => if p != "aws"@ {
            p + "."@ + r.id.resource_type@
        } else {
            r.id.resource_type@
        },
        _ => r.id.resource_type@,
    }
}

/// The messages of a resource's validation errors.
pub open spec fn prefixed_errors(r: Resource, es: Seq<TypeErrorModel>) -> Seq<Seq<char>> {
    Seq::new(es.len(), |i: int| r.id.resource_type@ + "."@ + r.id.name@ + ": "@ + error_message(es[i]))
}

/// The errors of one resource against the schemas.
pub open spec fn resource_errors(r: Resource, schemas: Seq<ResourceSchema>) -> Seq<Seq<char>> {
    match schema_for(schemas, schema_key(r)) {
        Some(s) => match schema_check(s.attributes@, r.attributes@) {
            Ok(()) => Seq::empty(),
            Err(es) => prefixed_errors(r, es),
        },
        None => seq!["Unknown resource type: "@ + schema_key(r)],
    }
}

/// The errors of the first `n` resources, in order.
pub open spec fn all_resource_errors(rs: Seq<Resource>, schemas: Seq<ResourceSchema>, n: int) -> Seq<Seq<char>>
    decreases n,
{
    if n <= 0 {
        Seq::empty()
    } else {
        all_resource_errors(rs, schemas, n - 1) + resource_errors(rs[n - 1], schemas)
    }
}

/// The schemas the tool validates resources against.
pub fn get_schemas() -> (r: Vec<ResourceSchema>)
    ensures
        r.len() == 9,
        crate::aws::s3::is_bucket_schema(r@[0]),
        crate::aws::vpc::are_vpc_schemas(r@.subrange(1, 9)),
{
    crate::aws::all_schemas()
}

pub(crate) fn find_schema_for<'a>(schemas: &'a Vec<ResourceSchema>, key: &str) -> (r: Option<&'a ResourceSchema>)
    ensures
        match schema_for(schemas@, key@) {
            Some(s) => r matches Some(x) && *x == s,
            None => r is None,
        },
{
    let mut k: usize = schemas.len();
    proof {
        assert(schemas@.take(k as int) =~= schemas@);
    }
    while k > 0
        invariant
            k <= schemas.len(),
            schema_for(schemas@, key@) == schema_for(schemas@.take(k as int), key@),
        decreases k,
    {
        proof {
            assert(schemas@.take(k as int).drop_last() =~= schemas@.take(k - 1));
        }
        if crate::text::str_eq(schemas[k - 1].resource_type.as_str(), key) {
            return Some(&schemas[k - 1]);
        }
        k -= 1;
    }
    None
}

/// Validate resources against their schemas: every error of every
/// resource, one per line, or `Ok` when there is none.
pub fn validate_resources(resources: &Vec<Resource>, schemas: &Vec<ResourceSchema>) -> (r: Result<(), String>)
    ensures
        ({
            let errs = all_resource_errors(resources@, schemas@, resources.len() as int);
            if errs.len() == 0 {
                r is Ok
            } else {
                r matches Err(m) && m@ == crate::text::join(errs, "\n"@)
            }
        }),
{
    proof {
        reveal_strlit("_provider");
        reveal_strlit("aws");
    }
    let mut all_errors: Vec<Vec<char>> = Vec::new();
    let mut i: usize = 0;
    while i < resources.len()
        invariant
            i <= resources.len(),
            views(all_errors@) == all_resource_errors(resources@, schemas@, i as int),
        decreases resources.len() - i,
    {
        let r = &resources[i];
        let key = match r.attributes.get("_provider") {
            Some(Value::String(p)) => if !crate::text::str_eq(p.as_str(), "aws") {
                let mut k = copy_string(p);
                push_str(&mut k, ".");
                push_str(&mut k, r.id.resource_type.as_str());
                k
            } else {
                copy_string(&r.id.resource_type)
            },
            _ => copy_string(&r.id.resource_type),
        };
        let ghost before = views(all_errors@);
        match find_schema_for(schemas, key.as_str()) {
            Some(schema) => {
                match schema.validate(&r.attributes) {
                    Err(errors) => {
                        let mut j: usize = 0;
                        while j < errors.len()
                            invariant
                                j <= errors.len(),
                                views(all_errors@) == before + prefixed_errors(*r, crate::schema::errors_view(errors@)).take(j as int),
                            decreases errors.len() - j,
                        {
                            let mut m = copy_string(&r.id.resource_type);
                            push_str(&mut m, ".");
                            push_str(&mut m, r.id.name.as_str());
                            push_str(&mut m, ": ");
                            let em = errors[j].message();
                            push_str(&mut m, em.as_str());
                            let ghost mid = views(all_errors@);
                            all_errors.push(chars_of(m.as_str()));
                            proof {
                                assert(views(all_errors@) =~= mid.push(m@));
                                assert(prefixed_errors(*r, crate::schema::errors_view(errors@)).take(j + 1) =~= prefixed_errors(*r, crate::schema::errors_view(errors@)).take(j as int).push(m@));
                            }
                            j += 1;
                        }
                        proof {
                            assert(prefixed_errors(*r, crate::schema::errors_view(errors@)).take(errors.len() as int) =~= prefixed_errors(*r, crate::schema::errors_view(errors@)));
                        }
                    },
                    Ok(()) => {
                        proof {
                            assert(views(all_errors@) =~= before + Seq::<Seq<char>>::empty());
                        }
                    },
                }
            },
            None => {
                let mut m = str_to_string("Unknown resource type: ");
                push_str(&mut m, key.as_str());
                all_errors.push(chars_of(m.as_str()));
                proof {
                    assert(views(all_errors@) =~= before + seq![m@]);
                }
            },
        }
        i += 1;
    }
    if all_errors.len() == 0 {
        Ok(())
    } else {
        let sep: Vec<char> = vec!['\n'];
        proof {
            reveal_strlit("\n");
            assert(sep@ =~= "\n"@);
        }
        let joined = crate::text::join_chars(all_errors.as_slice(), sep.as_slice());
        Err(string_of(joined.as_slice()))
    }
}

// ---------------------------------------------------------------------------
// Configurations spread over several files, and module names
// ---------------------------------------------------------------------------

/// Merge the contents of one parsed file into another: lists are appended,
/// variables are stored over the existing ones. With `take_backend`, a
/// backend is taken over when none is set yet; the result says whether a
/// second backend was refused.
pub fn merge_parsed(into: &mut crate::parser::ParsedFile, from: crate::parser::ParsedFile, take_backend: bool) -> (conflict: bool)
    ensures
        final(into).providers@ == old(into).providers@ + from.providers@,
        final(into).resources@ == old(into).resources@ + from.resources@,
        final(into).imports@ == old(into).imports@ + from.imports@,
        final(into).module_calls@ == old(into).module_calls@ + from.module_calls@,
        final(into).inputs@ == old(into).inputs@ + from.inputs@,
        final(into).outputs@ == old(into).outputs@ + from.outputs@,
        final(into).variables@ == crate::resource::insert_all(old(into).variables@, from.variables@),
        conflict == (take_backend && from.backend is Some && old(into).backend is Some),
        final(into).backend == if take_backend && from.backend is Some && old(into).backend is None {
            from.backend
        } else {
            old(into).backend
        },
{
    let mut from = from;
    into.providers.append(&mut from.providers);
    into.resources.append(&mut from.resources);
    into.imports.append(&mut from.imports);
    into.module_calls.append(&mut from.module_calls);
    into.inputs.append(&mut from.inputs);
    into.outputs.append(&mut from.outputs);
    store_over(&mut into.variables, &from.variables);
    let mut conflict = false;
    if take_backend {
        if from.backend.is_some() {
            if into.backend.is_some() {
                conflict = true;
            } else {
                into.backend = from.backend;
            }
        }
    }
    conflict
}

/// The name of a module, from its path: a directory gives its own name; a
/// file named `main` gives the name of its directory; any other file gives
/// its stem; `unknown` where a name is missing.
pub fn module_name_from_path(
    is_dir: bool,
    file_name: Option<&str>,
    file_stem: Option<&str>,
    parent_name: Option<&str>,
) -> (r: String)
    ensures
        r@ == if is_dir {
            match file_name {
                Some(n) => n@,
                None => "unknown"@,
            }
        } else {
            let stem = match file_stem {
                Some(s) => s@,
                None => "unknown"@,
            };
            if stem == "main"@ && parent_name is Some {
                parent_name.unwrap()@
            } else {
                stem
            }
        },
{
    if is_dir {
        return match file_name {
            Some(n) => str_to_string(n),
            None => str_to_string("unknown"),
        };
    }
    let stem = match file_stem {
        Some(s) => s,
        None => "unknown",
    };
    if crate::text::str_eq(stem, "main") {
        if let Some(parent) = parent_name {
            return str_to_string(parent);
        }
    }
    str_to_string(stem)
}

// ---------------------------------------------------------------------------
// Module call arguments
// ---------------------------------------------------------------------------

/// The inputs of the module imported under an alias: the last import of
/// that alias wins.
pub open spec fn inputs_for(
    imported: Seq<(String, Vec<crate::parser::InputParameter>)>,
    alias: Seq<char>,
) -> Option<Seq<crate::parser::InputParameter>>
    decreases imported.len(),
{
    if imported.len() == 0 {
        None
    } else if imported.last().0@ == alias {
        Some(imported.last().1@)
    } else {
        inputs_for(imported.drop_last(), alias)
    }
}

/// The first input with a name.
pub open spec fn input_named(inputs: Seq<crate::parser::InputParameter>, name: Seq<char>) -> Option<
    crate::parser::InputParameter,
>
    decreases inputs.len(),
{
    if inputs.len() == 0 {
        None
    } else if inputs[0].name@ == name {
        Some(inputs[0])
    } else {
        input_named(inputs.drop_first(), name)
    }
}

/// The errors of a call's arguments, in argument order.
pub open spec fn argument_errors(
    module: Seq<char>,
    inputs: Seq<crate::parser::InputParameter>,
    args: Seq<(Seq<char>, ValueModel)>,
) -> Seq<Seq<char>>
    decreases args.len(),
{
    if args.len() == 0 {
        Seq::empty()
    } else {
        let rest = argument_errors(module, inputs, args.drop_last());
        let (k, v) = args.last();
        match input_named(inputs, k) {
            Some(i) => match module_arg_error(i.type_expr@, v) {
                Some(e) => rest.push("module "@ + module + " argument '"@ + k + "': "@ + e),
                None => rest,
            },
            None => rest,
        }
    }
}

/// The errors of module calls whose module is imported, call after call.
pub open spec fn call_errors(
    calls: Seq<crate::parser::ModuleCall>,
    imported: Seq<(String, Vec<crate::parser::InputParameter>)>,
) -> Seq<Seq<char>>
    decreases calls.len(),
{
    if calls.len() == 0 {
        Seq::empty()
    } else {
        let c = calls.last();
        call_errors(calls.drop_last(), imported) + match inputs_for(imported, c.module_name@) {
            Some(ins) => argument_errors(c.module_name@, ins, c.arguments@),
            None => Seq::empty(),
        }
    }
}

fn find_inputs<'a>(imported: &'a Vec<(String, Vec<crate::parser::InputParameter>)>, alias: &str) -> (r: Option<
    &'a Vec<crate::parser::InputParameter>,
>)
    ensures
        match inputs_for(imported@, alias@) {
            Some(ins) => r matches Some(v) && v@ == ins,
            None => r is None,
        },
{
    let mut k = imported.len();
    proof {
        assert(imported@.take(k as int) =~= imported@);
    }
    while k > 0
        invariant
            k <= imported.len(),
            inputs_for(imported@, alias@) == inputs_for(imported@.take(k as int), alias@),
        decreases k,
    {
        proof {
            assert(imported@.take(k as int).drop_last() =~= imported@.take(k - 1));
        }
        if crate::text::str_eq(imported[k - 1].0.as_str(), alias) {
            return Some(&imported[k - 1].1);
        }
        k -= 1;
    }
    None
}

fn find_input<'a>(inputs: &'a Vec<crate::parser::InputParameter>, name: &str) -> (r: Option<&'a crate::parser::InputParameter>)
    ensures
        match input_named(inputs@, name@) {
            Some(i) => r matches Some(x) && *x == i,
            None => r is None,
        },
{
    let mut k: usize = 0;
    proof {
        assert(inputs@.skip(0) =~= inputs@);
    }
    while k < inputs.len()
        invariant
            k <= inputs.len(),
            input_named(inputs@, name@) == input_named(inputs@.skip(k as int), name@),
        decreases inputs.len() - k,
    {
        proof {
            assert(inputs@.skip(k as int).drop_first() =~= inputs@.skip(k + 1));
        }
        if crate::text::str_eq(inputs[k].name.as_str(), name) {
            return Some(&inputs[k]);
        }
        k += 1;
    }
    None
}

/// The errors of the arguments of module calls, against the inputs of the
/// modules imported under the calls' names.
pub fn module_call_errors(
    calls: &Vec<crate::parser::ModuleCall>,
    imported: &Vec<(String, Vec<crate::parser::InputParameter>)>,
) -> (r: Vec<String>)
    ensures
        crate::schema::strings_view(r@) == call_errors(calls@, imported@),
{
    let mut errors: Vec<String> = Vec::new();
    let mut c: usize = 0;
    proof {
        assert(crate::schema::strings_view(errors@) =~= Seq::<Seq<char>>::empty());
    }
    while c < calls.len()
        invariant
            c <= calls.len(),
            crate::schema::strings_view(errors@) == call_errors(calls@.take(c as int), imported@),
        decreases calls.len() - c,
    {
        let call = &calls[c];
        let ghost before = crate::schema::strings_view(errors@);
        match find_inputs(imported, call.module_name.as_str()) {
            Some(inputs) => {
                let args = &call.arguments.entries;
                let ghost av = call.arguments@;
                let mut a: usize = 0;
                while a < args.len()
                    invariant
                        a <= args.len(),
                        av == call.arguments@,
                        args == &call.arguments.entries,
                        inputs@ == inputs_for(imported@, call.module_name@).unwrap(),
                        crate::schema::strings_view(errors@) == before + argument_errors(
                            call.module_name@,
                            inputs@,
                            av.take(a as int),
                        ),
                    decreases args.len() - a,
                {
                    proof {
                        assert(av.take(a + 1).drop_last() =~= av.take(a as int));
                        assert(av[a as int] == (args@[a as int].0@, args@[a as int].1@));
                    }
                    match find_input(inputs, args[a].0.as_str()) {
                        Some(input) => {
                            match validate_module_arg_type(&input.type_expr, &args[a].1) {
                                Some(e) => {
                                    let mut m = str_to_string("module ");
                                    push_str(&mut m, call.module_name.as_str());
                                    push_str(&mut m, " argument '");
                                    push_str(&mut m, args[a].0.as_str());
                                    push_str(&mut m, "': ");
                                    push_str(&mut m, e.as_str());
                                    let ghost b2 = crate::schema::strings_view(errors@);
                                    errors.push(m);
                                    proof {
                                        assert(crate::schema::strings_view(errors@) =~= b2.push(m@));
                                    }
                                },
                                None => {},
                            }
                        },
                        None => {},
                    }
                    a += 1;
                }
                proof {
                    assert(av.take(args.len() as int) =~= av);
                }
            },
            None => {},
        }
        proof {
            assert(calls@.take(c + 1).drop_last() =~= calls@.take(c as int));
            assert(calls@.take(c + 1).last() == calls@[c as int]);
            assert(crate::schema::strings_view(errors@) =~= call_errors(calls@.take(c + 1), imported@));
        }
        c += 1;
    }
    proof {
        assert(calls@.take(calls.len() as int) =~= calls@);
    }
    errors
}

/// Validate the arguments of a file's module calls against the inputs of
/// the imported modules: the errors, one per line, or nothing.
pub fn validate_module_calls(
    parsed: &crate::parser::ParsedFile,
    imported: &Vec<(String, Vec<crate::parser::InputParameter>)>,
) -> (r: Result<(), String>)
    ensures
        ({
            let errs = call_errors(parsed.module_calls@, imported@);
            if errs.len() == 0 {
                r is Ok
            } else {
                r matches Err(e) && e@ == crate::text::join(errs, "\n"@)
            }
        }),
{
    let errors = module_call_errors(&parsed.module_calls, imported);
    if errors.len() == 0 {
        Ok(())
    } else {
        let mut parts: Vec<Vec<char>> = Vec::new();
        let mut i: usize = 0;
        while i < errors.len()
            invariant
                i <= errors.len(),
                views(parts@) == crate::schema::strings_view(errors@).take(i as int),
            decreases errors.len() - i,
        {
            let ghost before = views(parts@);
            parts.push(chars_of(errors[i].as_str()));
            proof {
                assert(views(parts@) =~= before.push(errors@[i as int]@));
                assert(crate::schema::strings_view(errors@).take(i + 1) =~= crate::schema::strings_view(errors@).take(
                    i as int,
                ).push(errors@[i as int]@));
            }
            i += 1;
        }
        proof {
            assert(crate::schema::strings_view(errors@).take(errors.len() as int) =~= crate::schema::strings_view(
                errors@,
            ));
        }
        let sep = chars_of("\n");
        let joined = join_chars(parts.as_slice(), sep.as_slice());
        Err(string_of(joined.as_slice()))
    }
}

} // verus!
