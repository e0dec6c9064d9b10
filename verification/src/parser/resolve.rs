//! Resolution of references between resources: an attribute that refers
//! to `binding.attribute` takes the value of that attribute.

use vstd::prelude::*;

use crate::parser::grammar::{Entries, ErrModel, ResModel, parse_text};
use crate::parser::statements::{parse, parsed_of};
use crate::parser::{res_view, Environment, ParseError, ParsedFile, ParsedModel};
use crate::resource::{insert_entry, lemma_dict_view, lemma_list_view, lookup, values_view, Resource, Value, ValueMap, ValueModel};
use crate::text::{copy_string, push_str, str_eq, str_to_string};

verus! {

broadcast use vstd::std_specs::vec::axiom_vec_index_decreases;

/// Binding names and the attributes of the resources bound to them.
pub type Bindings = Seq<(Seq<char>, Entries)>;

/// The attributes bound to a name.
pub open spec fn binding_lookup(bm: Bindings, name: Seq<char>) -> Option<Entries>
    decreases bm.len(),
{
    if bm.len() == 0 {
        None
    } else if bm[0].0 == name {
        Some(bm[0].1)
    } else {
        binding_lookup(bm.drop_first(), name)
    }
}

/// The bindings with `name` bound to `attrs`, replacing an earlier binding.
pub open spec fn binding_insert(bm: Bindings, name: Seq<char>, attrs: Entries) -> Bindings
    decreases bm.len(),
{
    if bm.len() == 0 {
        seq![(name, attrs)]
    } else if bm[0].0 == name {
        bm.update(0, (name, attrs))
    } else {
        seq![bm[0]] + binding_insert(bm.drop_first(), name, attrs)
    }
}

/// The bindings of the resources that carry a `_binding` name, a later
/// resource replacing an earlier one of the same name.
pub open spec fn bindings_of(rs: Seq<ResModel>) -> Bindings
    decreases rs.len(),
{
    if rs.len() == 0 {
        seq![]
    } else {
        let bm = bindings_of(rs.drop_last());
        match lookup(rs.last().1, "_binding"@) {
            Some(ValueModel::Str(b)) => binding_insert(bm, b, rs.last().1),
            _ => bm,
        }
    }
}

/// The error for a reference to an unknown binding.
pub open spec fn undefined_ref(b: Seq<char>, a: Seq<char>) -> ErrModel {
    ErrModel::UndefinedVariable(b + "."@ + a)
}

/// A value with its references resolved; `None` when more than `fuel`
/// references had to be followed one through another.
pub open spec fn resolve(v: ValueModel, bm: Bindings, fuel: nat) -> Option<Result<ValueModel, ErrModel>>
    decreases fuel, v, 1nat,
{
    match v {
        ValueModel::ResourceRef(b, a) => resolve_ref(v, b, a, bm, fuel),
        ValueModel::TypedResourceRef { binding_name, attribute_name, .. } => resolve_ref(
            v,
            binding_name,
            attribute_name,
            bm,
            fuel,
        ),
        ValueModel::List(items) => match resolve_items(items, 0, bm, fuel) {
            Some(Ok(rs)) => Some(Ok(ValueModel::List(rs))),
            Some(Err(e)) => Some(Err(e)),
            None => None,
        },
        ValueModel::Dict(m) => match resolve_entries(m, 0, bm, fuel, seq![]) {
            Some(Ok(rs)) => Some(Ok(ValueModel::Dict(rs))),
            Some(Err(e)) => Some(Err(e)),
            None => None,
        },
        _ => Some(Ok(v)),
    }
}

/// A reference resolved: the referenced attribute's value, resolved in
/// turn; the reference itself when the attribute is not set.
pub open spec fn resolve_ref(v: ValueModel, b: Seq<char>, a: Seq<char>, bm: Bindings, fuel: nat) -> Option<Result<ValueModel, ErrModel>>
    decreases fuel, v, 0nat,
{
    match binding_lookup(bm, b) {
        Some(attrs) => match lookup(attrs, a) {
            Some(x) => if fuel == 0 {
                None
            } else {
                resolve(x, bm, (fuel - 1) as nat)
            },
            None => Some(Ok(v)),
        },
        None => Some(Err(undefined_ref(b, a))),
    }
}

/// A reference to a binding that no resource has is an undefined variable,
/// named `binding.attribute`, however many references may be followed.
pub proof fn lemma_undefined_reference(b: Seq<char>, a: Seq<char>, bm: Bindings, fuel: nat)
    requires
        binding_lookup(bm, b) is None,
    ensures
        resolve(ValueModel::ResourceRef(b, a), bm, fuel) == Some(Err::<ValueModel, ErrModel>(undefined_ref(b, a))),
{
}

/// Items from `i` on, resolved; the first error stops.
pub open spec fn resolve_items(items: Seq<ValueModel>, i: nat, bm: Bindings, fuel: nat) -> Option<Result<Seq<ValueModel>, ErrModel>>
    decreases fuel, items, items.len() - i,
{
    if i >= items.len() {
        Some(Ok(seq![]))
    } else {
        match resolve(items[i as int], bm, fuel) {
            Some(Ok(x)) => match resolve_items(items, i + 1, bm, fuel) {
                Some(Ok(rest)) => Some(Ok(seq![x] + rest)),
                other => other,
            },
            Some(Err(e)) => Some(Err(e)),
            None => None,
        }
    }
}

/// Entries from `i` on, resolved and inserted into `acc`; the first error stops.
pub open spec fn resolve_entries(e: Entries, i: nat, bm: Bindings, fuel: nat, acc: Entries) -> Option<Result<Entries, ErrModel>>
    decreases fuel, e, e.len() - i,
{
    if i >= e.len() {
        Some(Ok(acc))
    } else {
        match resolve(e[i as int].1, bm, fuel) {
            Some(Ok(x)) => resolve_entries(e, i + 1, bm, fuel, insert_entry(acc, e[i as int].0, x)),
            Some(Err(err)) => Some(Err(err)),
            None => None,
        }
    }
}

/// The resources from `i` on with their attributes resolved, one resource
/// after another; at the first error the resources are as far as they got.
pub open spec fn resolve_from(rs: Seq<ResModel>, i: nat, bm: Bindings, fuel: nat) -> Option<(Seq<ResModel>, Option<ErrModel>)>
    decreases rs.len() - i,
{
    if i >= rs.len() {
        Some((rs, None))
    } else {
        match resolve_entries(rs[i as int].1, 0, bm, fuel, seq![]) {
            Some(Ok(a)) => resolve_from(rs.update(i as int, (rs[i as int].0, a)), i + 1, bm, fuel),
            Some(Err(e)) => Some((rs, Some(e))),
            None => None,
        }
    }
}

/// How many attributes the resources have in all.
pub open spec fn total_entries(rs: Seq<ResModel>) -> nat
    decreases rs.len(),
{
    if rs.len() == 0 {
        0
    } else {
        total_entries(rs.drop_last()) + rs.last().1.len()
    }
}

/// The outcome of resolving the references of a set of resources, following
/// at most one reference per attribute in all before giving up (`None`):
/// a chain longer than that runs in a cycle and never ends.
pub open spec fn resolution(rs: Seq<ResModel>) -> Option<(Seq<ResModel>, Option<ErrModel>)> {
    resolve_from(rs, 0, bindings_of(rs), total_entries(rs) + 1)
}


/// The model of a binding map.
pub open spec fn bindings_model(bm: Seq<(String, ValueMap)>) -> Bindings {
    Seq::new(bm.len(), |i: int| (bm[i].0@, bm[i].1@))
}

/// The models of a list of resources.
pub open spec fn resources_model(rs: Seq<Resource>) -> Seq<ResModel> {
    Seq::new(rs.len(), |i: int| res_view(rs[i]))
}

pub proof fn lemma_binding_insert_at(bm: Bindings, name: Seq<char>, attrs: Entries, k: int)
    requires
        0 <= k < bm.len(),
        bm[k].0 == name,
        forall|j: int| 0 <= j < k ==> bm[j].0 != name,
    ensures
        binding_insert(bm, name, attrs) == bm.update(k, (name, attrs)),
    decreases k,
{
    if k > 0 {
        let r = bm.drop_first();
        assert forall|j: int| 0 <= j < k - 1 implies r[j].0 != name by {
            assert(r[j] == bm[j + 1]);
        }
        lemma_binding_insert_at(r, name, attrs, k - 1);
        assert(seq![bm[0]] + r.update(k - 1, (name, attrs)) =~= bm.update(k, (name, attrs)));
    }
}

pub proof fn lemma_binding_insert_new(bm: Bindings, name: Seq<char>, attrs: Entries)
    requires
        forall|j: int| 0 <= j < bm.len() ==> bm[j].0 != name,
    ensures
        binding_insert(bm, name, attrs) == bm.push((name, attrs)),
    decreases bm.len(),
{
    if bm.len() > 0 {
        let r = bm.drop_first();
        assert forall|j: int| 0 <= j < r.len() implies r[j].0 != name by {
            assert(r[j] == bm[j + 1]);
        }
        lemma_binding_insert_new(r, name, attrs);
        assert(seq![bm[0]] + r.push((name, attrs)) =~= bm.push((name, attrs)));
    }
}

pub proof fn lemma_binding_lookup_at(bm: Bindings, name: Seq<char>, k: int)
    requires
        0 <= k < bm.len(),
        bm[k].0 == name,
        forall|j: int| 0 <= j < k ==> bm[j].0 != name,
    ensures
        binding_lookup(bm, name) == Some(bm[k].1),
    decreases k,
{
    if k > 0 {
        let r = bm.drop_first();
        assert forall|j: int| 0 <= j < k - 1 implies r[j].0 != name by {
            assert(r[j] == bm[j + 1]);
        }
        lemma_binding_lookup_at(r, name, k - 1);
    }
}

pub proof fn lemma_binding_lookup_none(bm: Bindings, name: Seq<char>)
    requires
        forall|j: int| 0 <= j < bm.len() ==> bm[j].0 != name,
    ensures
        binding_lookup(bm, name) is None,
    decreases bm.len(),
{
    if bm.len() > 0 {
        let r = bm.drop_first();
        assert forall|j: int| 0 <= j < r.len() implies r[j].0 != name by {
            assert(r[j] == bm[j + 1]);
        }
        lemma_binding_lookup_none(r, name);
    }
}

/// Where a name is bound, if it is.
pub fn binding_index(bm: &Vec<(String, ValueMap)>, name: &str) -> (r: Option<usize>)
    ensures
        match r {
            Some(k) => k < bm.len() && bm@[k as int].0@ == name@ && forall|j: int| 0 <= j < k ==> bm@[j].0@ != name@,
            None => forall|j: int| 0 <= j < bm.len() ==> bm@[j].0@ != name@,
        },
{
    let mut k: usize = 0;
    while k < bm.len()
        invariant
            k <= bm.len(),
            forall|j: int| 0 <= j < k ==> bm@[j].0@ != name@,
        decreases bm.len() - k,
    {
        if str_eq(bm[k].0.as_str(), name) {
            return Some(k);
        }
        k += 1;
    }
    None
}

/// The binding map of a list of resources.
fn build_bindings(rs: &Vec<Resource>) -> (r: Vec<(String, ValueMap)>)
    ensures
        bindings_model(r@) == bindings_of(resources_model(rs@)),
{
    let ghost all = resources_model(rs@);
    let mut bm: Vec<(String, ValueMap)> = Vec::new();
    let mut i: usize = 0;
    proof {
        assert(all.take(0) =~= Seq::<ResModel>::empty());
        assert(bindings_model(bm@) =~= seq![]);
    }
    while i < rs.len()
        invariant
            i <= rs.len(),
            all == resources_model(rs@),
            bindings_model(bm@) == bindings_of(all.take(i as int)),
        decreases rs.len() - i,
    {
        proof {
            assert(all.take(i + 1).drop_last() =~= all.take(i as int));
            assert(all.take(i + 1).last() == res_view(rs@[i as int]));
            reveal_strlit("_binding");
        }
        match rs[i].attributes.get("_binding") {
            Some(Value::String(b)) => {
                let ghost before = bindings_model(bm@);
                let attrs = crate::resource::copy_map(&rs[i].attributes);
                match binding_index(&bm, b.as_str()) {
                    Some(k) => {
                        proof {
                            assert forall|j: int| 0 <= j < k implies before[j].0 != b@ by {}
                            lemma_binding_insert_at(before, b@, attrs@, k as int);
                        }
                        bm.set(k, (copy_string(b), attrs));
                        proof {
                            assert(bindings_model(bm@) =~= before.update(k as int, (b@, rs@[i as int].attributes@)));
                        }
                    },
                    None => {
                        proof {
                            assert forall|j: int| 0 <= j < before.len() implies before[j].0 != b@ by {}
                            lemma_binding_insert_new(before, b@, attrs@);
                        }
                        bm.push((copy_string(b), attrs));
                        proof {
                            assert(bindings_model(bm@) =~= before.push((b@, rs@[i as int].attributes@)));
                        }
                    },
                }
            },
            _ => {},
        }
        i += 1;
    }
    proof {
        assert(all.take(rs.len() as int) =~= all);
    }
    bm
}

/// The attributes bound to a name.
pub fn binding_get<'a>(bm: &'a Vec<(String, ValueMap)>, name: &str) -> (r: Option<&'a ValueMap>)
    ensures
        match binding_lookup(bindings_model(bm@), name@) {
            Some(a) => r matches Some(m) && m@ == a,
            None => r is None,
        },
{
    match binding_index(bm, name) {
        Some(k) => {
            proof {
                lemma_binding_lookup_at(bindings_model(bm@), name@, k as int);
            }
            Some(&bm[k].1)
        },
        None => {
            proof {
                lemma_binding_lookup_none(bindings_model(bm@), name@);
            }
            None
        },
    }
}

/// Whether a spec result holds an exec result.
pub open spec fn resolved_as(r: Result<Value, ParseError>, s: Result<ValueModel, ErrModel>) -> bool {
    match s {
        Ok(x) => r matches Ok(y) && y@ == x,
        Err(e) => r matches Err(y) && y@ == e,
    }
}

/// A reference resolved.
fn resolve_ref_value(v: &Value, b: &String, a: &String, bm: &Vec<(String, ValueMap)>, Ghost(fuel): Ghost<nat>) -> (r: Result<Value, ParseError>)
    requires
        resolve_ref(v@, b@, a@, bindings_model(bm@), fuel) is Some,
    ensures
        resolved_as(r, resolve_ref(v@, b@, a@, bindings_model(bm@), fuel).unwrap()),
    decreases fuel, 0nat, v,
{
    match binding_get(bm, b.as_str()) {
        Some(attrs) => match attrs.get(a.as_str()) {
            Some(x) => {
                proof {
                    assert(fuel > 0);
                }
                resolve_value(x, bm, Ghost((fuel - 1) as nat))
            },
            None => Ok(crate::resource::copy_value(v)),
        },
        None => {
            let mut m = copy_string(b);
            push_str(&mut m, ".");
            push_str(&mut m, a.as_str());
            Err(ParseError::UndefinedVariable(m))
        },
    }
}

/// A value with its references resolved.
fn resolve_value(v: &Value, bm: &Vec<(String, ValueMap)>, Ghost(fuel): Ghost<nat>) -> (r: Result<Value, ParseError>)
    requires
        resolve(v@, bindings_model(bm@), fuel) is Some,
    ensures
        resolved_as(r, resolve(v@, bindings_model(bm@), fuel).unwrap()),
    decreases fuel, 1nat, v,
{
    let ghost bmm = bindings_model(bm@);
    match v {
        Value::ResourceRef(b, a) => resolve_ref_value(v, b, a, bm, Ghost(fuel)),
        Value::TypedResourceRef { binding_name, attribute_name, .. } => resolve_ref_value(
            v,
            binding_name,
            attribute_name,
            bm,
            Ghost(fuel),
        ),
        Value::List(items) => {
            proof {
                lemma_list_view(*items);
            }
            let ghost iv = values_view(items@);
            let mut out: Vec<Value> = Vec::new();
            let mut i: usize = 0;
            while i < items.len()
                invariant
                    i <= items.len(),
                    iv == values_view(items@),
                    v@ == ValueModel::List(iv),
                    bmm == bindings_model(bm@),
                    resolve_items(iv, 0, bmm, fuel) is Some,
                    resolve_items(iv, 0, bmm, fuel) == (match resolve_items(iv, i as nat, bmm, fuel) {
                        Some(Ok(rest)) => Some(Ok(values_view(out@) + rest)),
                        other => other,
                    }),
                    decreases_to!(*v => *items),
                decreases items.len() - i,
            {
                proof {
                    assert(decreases_to!(*items => items@[i as int]));
                    assert(iv[i as int] == items@[i as int]@);
                }
                match resolve_value(&items[i], bm, Ghost(fuel)) {
                    Ok(x) => {
                        let ghost before = values_view(out@);
                        let ghost xm = x@;
                        out.push(x);
                        proof {
                            assert(values_view(out@) =~= before.push(xm));
                            match resolve_items(iv, (i + 1) as nat, bmm, fuel) {
                                Some(Ok(rest)) => {
                                    assert(before + (seq![xm] + rest) =~= before.push(xm) + rest);
                                },
                                _ => {},
                            }
                        }
                    },
                    Err(e) => {
                        proof {
                            assert(resolve_items(iv, i as nat, bmm, fuel) == Some(Err::<Seq<ValueModel>, ErrModel>(e@)));
                        }
                        return Err(e);
                    },
                }
                i += 1;
            }
            proof {
                lemma_list_view(out);
                assert(values_view(out@) + Seq::<ValueModel>::empty() =~= values_view(out@));
            }
            Ok(Value::List(out))
        },
        Value::Dict(m) => {
            proof {
                lemma_dict_view(*m);
            }
            let ghost e = m@;
            let mut acc = ValueMap::new();
            let mut i: usize = 0;
            while i < m.entries.len()
                invariant
                    i <= m.entries.len(),
                    e == m@,
                    v@ == ValueModel::Dict(e),
                    e.len() == m.entries.len(),
                    bmm == bindings_model(bm@),
                    resolve_entries(e, 0, bmm, fuel, seq![]) == resolve_entries(e, i as nat, bmm, fuel, acc@),
                    resolve_entries(e, 0, bmm, fuel, seq![]) is Some,
                    decreases_to!(*v => *m),
                decreases m.entries.len() - i,
            {
                proof {
                    assert(decreases_to!(*m => m.entries));
                    assert(decreases_to!(m.entries => m.entries@[i as int]));
                    assert(e[i as int] == (m.entries@[i as int].0@, m.entries@[i as int].1@));
                }
                match resolve_value(&m.entries[i].1, bm, Ghost(fuel)) {
                    Ok(x) => {
                        acc.insert(copy_string(&m.entries[i].0), x);
                    },
                    Err(err) => {
                        proof {
                            assert(resolve_entries(e, i as nat, bmm, fuel, acc@) == Some(Err::<Entries, ErrModel>(err@)));
                        }
                        return Err(err);
                    },
                }
                i += 1;
            }
            proof {
                lemma_dict_view(acc);
            }
            Ok(Value::Dict(acc))
        },
        _ => Ok(crate::resource::copy_value(v)),
    }
}


/// The attributes of a resource with their references resolved.
fn resolve_attributes(attrs: &ValueMap, bm: &Vec<(String, ValueMap)>, Ghost(fuel): Ghost<nat>) -> (r: Result<ValueMap, ParseError>)
    requires
        resolve_entries(attrs@, 0, bindings_model(bm@), fuel, seq![]) is Some,
    ensures
        match resolve_entries(attrs@, 0, bindings_model(bm@), fuel, seq![]).unwrap() {
            Ok(x) => r matches Ok(y) && y@ == x,
            Err(e) => r matches Err(y) && y@ == e,
        },
{
    let ghost e = attrs@;
    let ghost bmm = bindings_model(bm@);
    let mut acc = ValueMap::new();
    let mut i: usize = 0;
    while i < attrs.entries.len()
        invariant
            i <= attrs.entries.len(),
            e == attrs@,
            e.len() == attrs.entries.len(),
            bmm == bindings_model(bm@),
            resolve_entries(e, 0, bmm, fuel, seq![]) == resolve_entries(e, i as nat, bmm, fuel, acc@),
            resolve_entries(e, 0, bmm, fuel, seq![]) is Some,
        decreases attrs.entries.len() - i,
    {
        proof {
            assert(e[i as int] == (attrs.entries@[i as int].0@, attrs.entries@[i as int].1@));
        }
        match resolve_value(&attrs.entries[i].1, bm, Ghost(fuel)) {
            Ok(x) => {
                acc.insert(copy_string(&attrs.entries[i].0), x);
            },
            Err(err) => {
                proof {
                    assert(resolve_entries(e, i as nat, bmm, fuel, acc@) == Some(Err::<Entries, ErrModel>(err@)));
                }
                return Err(err);
            },
        }
        i += 1;
    }
    Ok(acc)
}

/// Resolve resource references in a ParsedFile
/// This replaces ResourceRef values with the actual attribute values from referenced resources
pub fn resolve_resource_refs(parsed: &mut ParsedFile) -> (r: Result<(), ParseError>)
    requires
        resolution(old(parsed)@.resources) is Some,
    ensures
        match resolution(old(parsed)@.resources).unwrap() {
            (rs, None) => r is Ok && final(parsed)@ == (ParsedModel { resources: rs, ..old(parsed)@ }),
            (rs, Some(e)) => r matches Err(x) && x@ == e && final(parsed)@ == (ParsedModel { resources: rs, ..old(parsed)@ }),
        },
{
    let ghost rs0 = old(parsed)@.resources;
    let ghost p0 = parsed@;
    proof {
        assert(resources_model(parsed.resources@) =~= rs0);
    }
    // Build a map of binding_name -> attributes for quick lookup
    let bm = build_bindings(&parsed.resources);
    let ghost bmm = bindings_model(bm@);
    let ghost fuel = total_entries(rs0) + 1;
    let mut k: usize = 0;
    while k < parsed.resources.len()
        invariant
            k <= parsed.resources.len(),
            bmm == bindings_model(bm@),
            bmm == bindings_of(rs0),
            fuel == total_entries(rs0) + 1,
            resolution(rs0) is Some,
            resolution(rs0) == resolve_from(resources_model(parsed.resources@), k as nat, bmm, fuel),
            parsed@ == (ParsedModel { resources: resources_model(parsed.resources@), ..p0 }),
            p0 == old(parsed)@,
            rs0 == old(parsed)@.resources,
        decreases parsed.resources.len() - k,
    {
        let ghost cur = resources_model(parsed.resources@);
        proof {
            assert(cur[k as int] == res_view(parsed.resources@[k as int]));
        }
        match resolve_attributes(&parsed.resources[k].attributes, &bm, Ghost(fuel)) {
            Ok(resolved) => {
                let id = crate::resource::copy_id(&parsed.resources[k].id);
                let ghost am = resolved@;
                parsed.resources.set(k, Resource { id, attributes: resolved });
                proof {
                    assert(resources_model(parsed.resources@) =~= cur.update(k as int, (cur[k as int].0, am)));
                    assert(parsed@ =~= (ParsedModel { resources: resources_model(parsed.resources@), ..p0 }));
                }
            },
            Err(e) => {
                proof {
                    assert(resolve_from(cur, k as nat, bmm, fuel) == Some((cur, Some(e@))));
                }
                return Err(e);
            },
        }
        k += 1;
    }
    Ok(())
}

/// Whether resolving the references of a parse outcome ends.
pub open spec fn resolution_ends(s: Seq<char>, env: Seq<(Seq<char>, Seq<char>)>) -> bool {
    match parse_text(s, env) {
        Ok(f) => resolution(f.resources) is Some,
        Err(_) => true,
    }
}

/// Parse a .crn file and resolve resource references
pub fn parse_and_resolve(input: &str, env: &Environment) -> (r: Result<ParsedFile, ParseError>)
    requires
        crate::parser::grammar::text_numbers_fit(input@),
        input@.len() < usize::MAX,
        resolution_ends(input@, env@),
    ensures
        match parse_text(input@, env@) {
            Ok(f) => match resolution(f.resources).unwrap() {
                (rs, None) => r matches Ok(p) && p@ == (ParsedModel { resources: rs, ..parsed_of(f) }),
                (_, Some(e)) => r matches Err(x) && x@ == e,
            },
            Err(e) => r matches Err(x) && x@ == e,
        },
{
    let mut parsed = match parse(input, env) {
        Ok(p) => p,
        Err(e) => {
            return Err(e);
        },
    };
    match resolve_resource_refs(&mut parsed) {
        Ok(()) => Ok(parsed),
        Err(e) => Err(e),
    }
}

} // verus!
