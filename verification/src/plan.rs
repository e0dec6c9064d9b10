//! Plan - Collection of Effects
//!
//! A Plan is an ordered list of Effects to be executed.
//! No side effects occur until the Plan is applied.

use vstd::prelude::*;

use crate::effect::{in_class, Effect, EffectClass};
use crate::graph::DependencyGraph;
use crate::resource::{lookup, Value, ValueMap, ValueModel};
use crate::text::{copy_string, lemma_lex_total, lemma_lex_transitive, lex_lt, nat_digits, push_chars, push_str, str_eq, str_lt, str_to_string, usize_text};

verus! {

/// Plan containing Effects to be executed
#[derive(Debug, Clone)]
pub struct Plan {
    effects: Vec<Effect>,
}

impl View for Plan {
    type V = Seq<Effect>;

    closed spec fn view(&self) -> Seq<Effect> {
        self.effects@
    }
}

/// How many effects of a sequence belong to a class.
pub open spec fn count_where(s: Seq<Effect>, p: EffectClass) -> nat
    decreases s.len(),
{
    if s.len() == 0 {
        0
    } else {
        count_where(s.drop_last(), p) + if in_class(s.last(), p) {
            1nat
        } else {
            0nat
        }
    }
}

proof fn lemma_count_step(s: Seq<Effect>, p: EffectClass, i: int)
    requires
        0 <= i < s.len(),
    ensures
        count_where(s.take(i + 1), p) == count_where(s.take(i), p) + if in_class(s[i], p) {
            1nat
        } else {
            0nat
        },
        count_where(s.take(i), p) <= i,
    decreases i,
{
    assert(s.take(i + 1).drop_last() =~= s.take(i));
    if i > 0 {
        lemma_count_step(s, p, i - 1);
    }
}

impl Plan {
    pub fn new() -> (r: Self)
        ensures
            r@ == Seq::<Effect>::empty(),
    {
        Plan { effects: Vec::new() }
    }

    pub fn add(&mut self, effect: Effect)
        ensures
            final(self)@ == old(self)@.push(effect),
    {
        self.effects.push(effect);
    }

    pub fn effects(&self) -> (r: &[Effect])
        ensures
            r@ == self@,
    {
        self.effects.as_slice()
    }

    pub fn is_empty(&self) -> (r: bool)
        ensures
            r == (self@.len() == 0),
    {
        self.effects.len() == 0
    }

    /// Number of mutating Effects
    pub fn mutation_count(&self) -> (r: usize)
        ensures
            r == count_where(self@, EffectClass::Mutating),
    {
        let mut n: usize = 0;
        let mut i: usize = 0;
        while i < self.effects.len()
            invariant
                i <= self.effects.len(),
                n == count_where(self@.take(i as int), EffectClass::Mutating),
            decreases self.effects.len() - i,
        {
            proof {
                lemma_count_step(self@, EffectClass::Mutating, i as int);
            }
            if self.effects[i].is_mutating() {
                n += 1;
            }
            i += 1;
        }
        proof {
            assert(self@.take(self.effects.len() as int) =~= self@);
        }
        n
    }

    /// Generate a summary of the Plan for display
    pub fn summary(&self) -> (r: PlanSummary)
        ensures
            r.read == count_where(self@, EffectClass::Read),
            r.create == count_where(self@, EffectClass::Create),
            r.update == count_where(self@, EffectClass::Update),
            r.delete == count_where(self@, EffectClass::Delete),
    {
        let mut summary = PlanSummary { read: 0, create: 0, update: 0, delete: 0 };
        let mut i: usize = 0;
        while i < self.effects.len()
            invariant
                i <= self.effects.len(),
                summary.read == count_where(self@.take(i as int), EffectClass::Read),
                summary.create == count_where(self@.take(i as int), EffectClass::Create),
                summary.update == count_where(self@.take(i as int), EffectClass::Update),
                summary.delete == count_where(self@.take(i as int), EffectClass::Delete),
            decreases self.effects.len() - i,
        {
            proof {
                lemma_count_step(self@, EffectClass::Read, i as int);
                lemma_count_step(self@, EffectClass::Create, i as int);
                lemma_count_step(self@, EffectClass::Update, i as int);
                lemma_count_step(self@, EffectClass::Delete, i as int);
            }
            match &self.effects[i] {
                Effect::Read { .. } => summary.read += 1,
                Effect::Create(_) => summary.create += 1,
                Effect::Update { .. } => summary.update += 1,
                Effect::Delete(_) => summary.delete += 1,
            }
            i += 1;
        }
        proof {
            assert(self@.take(self.effects.len() as int) =~= self@);
        }
        summary
    }
}

#[derive(Debug, Clone, Copy)]
pub struct PlanSummary {
    pub read: usize,
    pub create: usize,
    pub update: usize,
    pub delete: usize,
}

/// The line that summarizes a plan's changes.
pub open spec fn summary_text(create: nat, update: nat, delete: nat) -> Seq<char> {
    "Plan: "@ + nat_digits(create) + " to create, "@ + nat_digits(update) + " to update, "@
        + nat_digits(delete) + " to delete"@
}

impl PlanSummary {
    /// `Plan: N to create, N to update, N to delete`
    pub fn text(&self) -> (r: String)
        ensures
            r@ == summary_text(self.create as nat, self.update as nat, self.delete as nat),
    {
        let mut s = str_to_string("Plan: ");
        push_chars(&mut s, usize_text(self.create).as_slice());
        push_str(&mut s, " to create, ");
        push_chars(&mut s, usize_text(self.update).as_slice());
        push_str(&mut s, " to update, ");
        push_chars(&mut s, usize_text(self.delete).as_slice());
        push_str(&mut s, " to delete");
        s
    }
}

/// Source of a resource (root or from a module)
#[derive(Debug, Clone, PartialEq, Eq, Hash)]
pub enum ModuleSource {
    /// Resource defined at the root level
    Root,
    /// Resource from a module instantiation
    Module {
        /// Module name (e.g., "web_tier")
        name: String,
        /// Instance binding name (e.g., "web")
        instance: String,
    },
}

impl View for ModuleSource {
    /// `None` for the root; the module and instance names otherwise.
    type V = Option<(Seq<char>, Seq<char>)>;

    open spec fn view(&self) -> Option<(Seq<char>, Seq<char>)> {
        match self {
            ModuleSource::Root => None,
            ModuleSource::Module { name, instance } => Some((name@, instance@)),
        }
    }
}

impl ModuleSource {
    /// Create a Root source
    pub fn root() -> (r: Self)
        ensures
            r@ is None,
    {
        ModuleSource::Root
    }

    /// Create a Module source
    pub fn module(name: &str, instance: &str) -> (r: Self)
        ensures
            r@ == Some((name@, instance@)),
    {
        ModuleSource::Module { name: str_to_string(name), instance: str_to_string(instance) }
    }

    /// Check if this is the root source
    pub fn is_root(&self) -> (r: bool)
        ensures
            r == (self@ is None),
    {
        match self {
            ModuleSource::Root => true,
            _ => false,
        }
    }

    /// Whether two sources name the same module instance (or are both the root).
    pub fn same(&self, other: &ModuleSource) -> (r: bool)
        ensures
            r == (self@ == other@),
    {
        match (self, other) {
            (ModuleSource::Root, ModuleSource::Root) => true,
            (
                ModuleSource::Module { name: n1, instance: i1 },
                ModuleSource::Module { name: n2, instance: i2 },
            ) => crate::text::str_eq(n1.as_str(), n2.as_str()) && crate::text::str_eq(
                i1.as_str(),
                i2.as_str(),
            ),
            _ => false,
        }
    }

    /// A copy of the source.
    pub fn copy(&self) -> (r: Self)
        ensures
            r@ == self@,
    {
        match self {
            ModuleSource::Root => ModuleSource::Root,
            ModuleSource::Module { name, instance } => ModuleSource::Module {
                name: copy_string(name),
                instance: copy_string(instance),
            },
        }
    }
}


/// The module source of a resource: where its attributes name both a module
/// (`_module`) and an instance (`_module_instance`) as strings, that module
/// instance; the root otherwise.
pub open spec fn source_from_attributes(attrs: Seq<(Seq<char>, ValueModel)>) -> Option<(Seq<char>, Seq<char>)> {
    match (lookup(attrs, "_module"@), lookup(attrs, "_module_instance"@)) {
        (Some(ValueModel::Str(name)), Some(ValueModel::Str(instance))) => Some((name, instance)),
        _ => None,
    }
}

/// The module source of an effect: taken from the desired resource of a
/// create or an update; reads and deletes belong to the root.
pub open spec fn effect_source(e: Effect) -> Option<(Seq<char>, Seq<char>)> {
    match e {
        Effect::Create(r) => source_from_attributes(r.attributes@),
        Effect::Update { to, .. } => source_from_attributes(to.attributes@),
        _ => None,
    }
}

/// The indices, in increasing order, at which a sequence of sources holds `key`.
pub open spec fn indices_with(s: Seq<Option<(Seq<char>, Seq<char>)>>, key: Option<(Seq<char>, Seq<char>)>) -> Seq<usize>
    decreases s.len(),
{
    if s.len() == 0 {
        Seq::empty()
    } else if s.last() == key {
        indices_with(s.drop_last(), key).push((s.len() - 1) as usize)
    } else {
        indices_with(s.drop_last(), key)
    }
}

proof fn lemma_indices_absent(s: Seq<Option<(Seq<char>, Seq<char>)>>, key: Option<(Seq<char>, Seq<char>)>)
    requires
        forall|i: int| 0 <= i < s.len() ==> s[i] != key,
    ensures
        indices_with(s, key) == Seq::<usize>::empty(),
    decreases s.len(),
{
    if s.len() > 0 {
        lemma_indices_absent(s.drop_last(), key);
    }
}

/// An index is among the indices with a source exactly when the effect at
/// that index has that source.
pub proof fn lemma_indices_with_contains(
    s: Seq<Option<(Seq<char>, Seq<char>)>>,
    key: Option<(Seq<char>, Seq<char>)>,
    i: int,
)
    requires
        s.len() <= usize::MAX,
        0 <= i < s.len(),
    ensures
        indices_with(s, key).contains(i as usize) <==> s[i] == key,
    decreases s.len(),
{
    let r = indices_with(s.drop_last(), key);
    if i < s.len() - 1 {
        lemma_indices_with_contains(s.drop_last(), key, i);
        assert(s.drop_last()[i] == s[i]);
        if s.last() == key {
            let r2 = r.push((s.len() - 1) as usize);
            if r2.contains(i as usize) {
                let j = choose|j: int| 0 <= j < r2.len() && r2[j] == i as usize;
                if j < r.len() {
                    assert(r[j] == r2[j]);
                }
            }
            if r.contains(i as usize) {
                let j = choose|j: int| 0 <= j < r.len() && r[j] == i as usize;
                assert(r2[j] == r[j]);
            }
        }
    } else {
        lemma_indices_bound(s.drop_last(), key);
        if s.last() == key {
            assert(indices_with(s, key).last() == i as usize);
        } else if r.contains(i as usize) {
            let j = choose|j: int| 0 <= j < r.len() && r[j] == i as usize;
            assert(r[j] < s.len() - 1);
        }
    }
}

proof fn lemma_indices_bound(s: Seq<Option<(Seq<char>, Seq<char>)>>, key: Option<(Seq<char>, Seq<char>)>)
    requires
        s.len() <= usize::MAX,
    ensures
        forall|j: int| 0 <= j < indices_with(s, key).len() ==> #[trigger] indices_with(s, key)[j] < s.len(),
    decreases s.len(),
{
    if s.len() > 0 {
        lemma_indices_bound(s.drop_last(), key);
        let r = indices_with(s.drop_last(), key);
        let w = indices_with(s, key);
        assert forall|j: int| 0 <= j < w.len() implies #[trigger] w[j] < s.len() by {
            if j < r.len() {
                assert(w[j] == r[j]);
            }
        }
    }
}

/// Grouping effects by module source partitions the effect indices: each
/// index lies in exactly one group, the group of its effect's source.
pub proof fn lemma_group_partition(
    g: Seq<(Option<(Seq<char>, Seq<char>)>, Seq<usize>)>,
    sources: Seq<Option<(Seq<char>, Seq<char>)>>,
    i: int,
)
    requires
        sources.len() <= usize::MAX,
        groups_wf(g, sources),
        forall|m: int| 0 <= m < sources.len() ==> has_group(g, #[trigger] sources[m]),
        0 <= i < sources.len(),
    ensures
        exists|k: int| 0 <= k < g.len() && g[k].0 == sources[i] && (#[trigger] g[k]).1.contains(i as usize),
        forall|k: int| 0 <= k < g.len() && (#[trigger] g[k]).1.contains(i as usize) ==> g[k].0 == sources[i],
{
    assert(has_group(g, sources[i]));
    let k = choose|k: int| 0 <= k < g.len() && g[k].0 == sources[i];
    assert(g[k].1 == indices_with(sources, g[k].0));
    lemma_indices_with_contains(sources, sources[i], i);
    assert forall|k2: int| 0 <= k2 < g.len() && (#[trigger] g[k2]).1.contains(i as usize) implies g[k2].0 == sources[i] by {
        assert(g[k2].1 == indices_with(sources, g[k2].0));
        lemma_indices_with_contains(sources, g[k2].0, i);
    }
}

/// A Plan with module source information
#[derive(Debug, Clone)]
pub struct ModularPlan {
    /// The underlying plan
    pub plan: Plan,
    /// The module source of each effect, at the effect's index
    pub effect_sources: Vec<ModuleSource>,
    /// Module name -> dependency graph
    pub module_graphs: Vec<(String, DependencyGraph)>,
}

/// The models of a list of groups of effect indices.
pub open spec fn groups_view(g: Seq<(ModuleSource, Vec<usize>)>) -> Seq<(Option<(Seq<char>, Seq<char>)>, Seq<usize>)> {
    Seq::new(g.len(), |k: int| (g[k].0@, g[k].1@))
}

/// Whether a group holds the given source.
pub open spec fn has_group(g: Seq<(Option<(Seq<char>, Seq<char>)>, Seq<usize>)>, key: Option<(Seq<char>, Seq<char>)>) -> bool {
    exists|k: int| 0 <= k < g.len() && g[k].0 == key
}

/// No source heads two groups, and each group holds, in increasing order,
/// the indices at which its source occurs.
pub open spec fn groups_wf(g: Seq<(Option<(Seq<char>, Seq<char>)>, Seq<usize>)>, sources: Seq<Option<(Seq<char>, Seq<char>)>>) -> bool {
    &&& forall|a: int, b: int| 0 <= a < b < g.len() ==> g[a].0 != g[b].0
    &&& forall|k: int| 0 <= k < g.len() ==> (#[trigger] g[k]).1 == indices_with(sources, g[k].0)
    &&& forall|k: int| 0 <= k < g.len() ==> (#[trigger] g[k]).1.len() > 0
}

impl ModularPlan {
    /// The source of each recorded effect index.
    pub open spec fn sources(&self) -> Seq<Option<(Seq<char>, Seq<char>)>> {
        Seq::new(self.effect_sources.len() as nat, |i: int| self.effect_sources@[i]@)
    }

    /// Create a new empty modular plan
    pub fn new() -> (r: Self)
        ensures
            r.plan@ == Seq::<Effect>::empty(),
            r.sources() == Seq::<Option<(Seq<char>, Seq<char>)>>::empty(),
            r.module_graphs@ == Seq::<(String, DependencyGraph)>::empty(),
    {
        let r = ModularPlan { plan: Plan::new(), effect_sources: Vec::new(), module_graphs: Vec::new() };
        proof {
            assert(r.sources() =~= Seq::<Option<(Seq<char>, Seq<char>)>>::empty());
        }
        r
    }

    /// Create a modular plan from a regular plan with source extraction
    pub fn from_plan(plan: Plan) -> (r: Self)
        ensures
            r.plan@ == plan@,
            r.sources() == Seq::new(plan@.len(), |i: int| effect_source(plan@[i])),
            r.module_graphs@ == Seq::<(String, DependencyGraph)>::empty(),
    {
        let mut sources: Vec<ModuleSource> = Vec::new();
        let mut i: usize = 0;
        while i < plan.effects.len()
            invariant
                i <= plan.effects.len(),
                sources.len() == i,
                forall|j: int| 0 <= j < i ==> (#[trigger] sources@[j])@ == effect_source(plan@[j]),
            decreases plan.effects.len() - i,
        {
            let source = match &plan.effects[i] {
                Effect::Create(r) => Self::extract_source(&r.attributes),
                Effect::Update { to, .. } => Self::extract_source(&to.attributes),
                _ => ModuleSource::Root,
            };
            sources.push(source);
            i += 1;
        }
        let r = ModularPlan { plan, effect_sources: sources, module_graphs: Vec::new() };
        proof {
            assert(r.sources() =~= Seq::new(r.plan@.len(), |i: int| effect_source(r.plan@[i])));
        }
        r
    }

    fn extract_source(attrs: &ValueMap) -> (r: ModuleSource)
        ensures
            r@ == source_from_attributes(attrs@),
    {
        let module_name = match attrs.get("_module") {
            Some(Value::String(s)) => Some(copy_string(s)),
            _ => None,
        };
        let instance_name = match attrs.get("_module_instance") {
            Some(Value::String(s)) => Some(copy_string(s)),
            _ => None,
        };
        match (module_name, instance_name) {
            (Some(name), Some(instance)) => ModuleSource::Module { name, instance },
            _ => ModuleSource::Root,
        }
    }

    /// Get the source for an effect by index
    pub fn source_of(&self, effect_idx: usize) -> (r: ModuleSource)
        ensures
            r@ == if effect_idx < self.sources().len() {
                self.sources()[effect_idx as int]
            } else {
                None
            },
    {
        if effect_idx < self.effect_sources.len() {
            self.effect_sources[effect_idx].copy()
        } else {
            ModuleSource::Root
        }
    }

    /// Group effects by module source: one group for each source that occurs,
    /// holding the indices with that source in increasing order.
    pub fn group_by_module(&self) -> (r: Vec<(ModuleSource, Vec<usize>)>)
        ensures
            groups_wf(groups_view(r@), self.sources()),
            forall|i: int| 0 <= i < self.sources().len() ==> has_group(groups_view(r@), #[trigger] self.sources()[i]),
    {
        let ghost src = self.sources();
        let mut groups: Vec<(ModuleSource, Vec<usize>)> = Vec::new();
        let mut i: usize = 0;
        proof {
            assert(groups_view(groups@) =~= Seq::<(Option<(Seq<char>, Seq<char>)>, Seq<usize>)>::empty());
        }
        while i < self.effect_sources.len()
            invariant
                i <= self.effect_sources.len(),
                src == self.sources(),
                groups_wf(groups_view(groups@), src.take(i as int)),
                forall|j: int| 0 <= j < i ==> has_group(groups_view(groups@), #[trigger] src[j]),
            decreases self.effect_sources.len() - i,
        {
            let ghost before = groups_view(groups@);
            let ghost key = src[i as int];
            proof {
                assert(src.take(i + 1).drop_last() =~= src.take(i as int));
                assert(src.take(i + 1).last() == key);
            }
            let mut found: Option<usize> = None;
            let mut k: usize = 0;
            while k < groups.len()
                invariant
                    k <= groups.len(),
                    i < self.effect_sources.len(),
                    groups_view(groups@) == before,
                    key == self.effect_sources@[i as int]@,
                    match found {
                        Some(f) => f < groups.len() && before[f as int].0 == key,
                        None => forall|j: int| 0 <= j < k ==> before[j].0 != key,
                    },
                decreases groups.len() - k,
            {
                if found.is_none() && groups[k].0.same(&self.effect_sources[i]) {
                    found = Some(k);
                }
                k += 1;
            }
            match found {
                Some(f) => {
                    let (s, mut idx) = groups.remove(f);
                    idx.push(i);
                    groups.insert(f, (s, idx));
                    proof {
                        let after = groups_view(groups@);
                        assert(after =~= before.update(f as int, (key, before[f as int].1.push(i))));
                        assert forall|j: int| 0 <= j < i + 1 implies has_group(after, #[trigger] src[j]) by {
                            if j == i {
                                assert(after[f as int].0 == src[j]);
                            } else {
                                assert(has_group(before, src[j]));
                                let k2 = choose|k2: int| 0 <= k2 < before.len() && before[k2].0 == src[j];
                                assert(after[k2].0 == src[j]);
                            }
                        }
                    }
                },
                None => {
                    proof {
                        assert forall|j: int| 0 <= j < src.take(i as int).len() implies src.take(i as int)[j] != key by {
                            if src.take(i as int)[j] == key {
                                assert(has_group(before, src[j]));
                            }
                        }
                        lemma_indices_absent(src.take(i as int), key);
                    }
                    let mut idx: Vec<usize> = Vec::new();
                    idx.push(i);
                    groups.push((self.effect_sources[i].copy(), idx));
                    proof {
                        let after = groups_view(groups@);
                        assert(after =~= before.push((key, Seq::<usize>::empty().push(i as usize))));
                        assert forall|j: int| 0 <= j < i + 1 implies has_group(after, #[trigger] src[j]) by {
                            if j == i {
                                assert(after[before.len() as int].0 == src[j]);
                            } else {
                                assert(has_group(before, src[j]));
                                let k2 = choose|k2: int| 0 <= k2 < before.len() && before[k2].0 == src[j];
                                assert(after[k2].0 == src[j]);
                            }
                        }
                    }
                },
            }
            i += 1;
        }
        proof {
            assert(src.take(self.effect_sources.len() as int) =~= src);
        }
        groups
    }
}


/// Whether one module instance comes before another: by module name, then
/// by instance name.
pub open spec fn source_lt(a: (Seq<char>, Seq<char>), b: (Seq<char>, Seq<char>)) -> bool {
    lex_lt(a.0, b.0) || (a.0 == b.0 && lex_lt(a.1, b.1))
}

proof fn lemma_source_total(a: (Seq<char>, Seq<char>), b: (Seq<char>, Seq<char>))
    requires
        a != b,
    ensures
        source_lt(a, b) || source_lt(b, a),
{
    assert(a.0.take(0) =~= b.0.take(0));
    assert(a.1.take(0) =~= b.1.take(0));
    if a.0 != b.0 {
        lemma_lex_total(a.0, b.0, 0);
    } else {
        lemma_lex_total(a.1, b.1, 0);
    }
}

proof fn lemma_source_transitive(a: (Seq<char>, Seq<char>), b: (Seq<char>, Seq<char>), c: (Seq<char>, Seq<char>))
    requires
        source_lt(a, b),
        source_lt(b, c),
    ensures
        source_lt(a, c),
{
    if lex_lt(a.0, b.0) && lex_lt(b.0, c.0) {
        lemma_lex_transitive(a.0, b.0, c.0, 0);
    } else if !lex_lt(a.0, b.0) && !lex_lt(b.0, c.0) {
        lemma_lex_transitive(a.1, b.1, c.1, 0);
    }
}

/// The line that shows an effect briefly.
pub open spec fn brief_text(e: Effect) -> Seq<char> {
    match e {
        Effect::Create(r) => "+ "@ + r.id.resource_type@ + "."@ + r.id.name@,
        Effect::Update { id, .. } => "~ "@ + id.resource_type@ + "."@ + id.name@,
        Effect::Delete(id) => "- "@ + id.resource_type@ + "."@ + id.name@,
        Effect::Read { resource } => "? "@ + resource.id.resource_type@ + "."@ + resource.id.name@,
    }
}

/// The indented lines of the effects at the given indices (indices past the
/// end of the plan show nothing).
pub open spec fn effect_lines(effects: Seq<Effect>, idx: Seq<usize>) -> Seq<char>
    decreases idx.len(),
{
    if idx.len() == 0 {
        Seq::empty()
    } else {
        effect_lines(effects, idx.drop_last()) + if idx.last() < effects.len() {
            "  "@ + brief_text(effects[idx.last() as int]) + "\n"@
        } else {
            Seq::empty()
        }
    }
}

/// The section of root effects, when there are any.
pub open spec fn root_section(effects: Seq<Effect>, sources: Seq<Option<(Seq<char>, Seq<char>)>>) -> Seq<char> {
    let idx = indices_with(sources, None);
    if idx.len() > 0 {
        "Root:\n"@ + effect_lines(effects, idx) + "\n"@
    } else {
        Seq::empty()
    }
}

/// The section of one module instance.
pub open spec fn module_section(
    effects: Seq<Effect>,
    sources: Seq<Option<(Seq<char>, Seq<char>)>>,
    key: (Seq<char>, Seq<char>),
) -> Seq<char> {
    "Module: "@ + key.0 + " (instance: "@ + key.1 + ")\n"@ + effect_lines(effects, indices_with(sources, Some(key)))
        + "\n"@
}

/// The sections of the given module instances, in order.
pub open spec fn module_sections(
    effects: Seq<Effect>,
    sources: Seq<Option<(Seq<char>, Seq<char>)>>,
    keys: Seq<(Seq<char>, Seq<char>)>,
) -> Seq<char>
    decreases keys.len(),
{
    if keys.len() == 0 {
        Seq::empty()
    } else {
        module_sections(effects, sources, keys.drop_last()) + module_section(effects, sources, keys.last())
    }
}

/// Whether some effect comes from the given module instance.
pub open spec fn occurs(sources: Seq<Option<(Seq<char>, Seq<char>)>>, key: (Seq<char>, Seq<char>)) -> bool {
    exists|j: int| 0 <= j < sources.len() && sources[j] == Some(key)
}

/// Whether `keys` lists each module instance that occurs exactly once, in
/// increasing order.
pub open spec fn module_order(keys: Seq<(Seq<char>, Seq<char>)>, sources: Seq<Option<(Seq<char>, Seq<char>)>>) -> bool {
    &&& forall|a: int, b: int| 0 <= a < b < keys.len() ==> source_lt(keys[a], keys[b])
    &&& forall|x: (Seq<char>, Seq<char>)| #![trigger keys.contains(x)] #![trigger occurs(sources, x)]
        keys.contains(x) <==> occurs(sources, x)
}

/// The closing summary line of the grouped display.
pub open spec fn summary_line(effects: Seq<Effect>) -> Seq<char> {
    "Summary: "@ + nat_digits(count_where(effects, EffectClass::Create)) + " to create, "@ + nat_digits(
        count_where(effects, EffectClass::Update),
    ) + " to update, "@ + nat_digits(count_where(effects, EffectClass::Delete)) + " to delete\n"@
}

/// The grouped display: root effects, then each module instance in order,
/// then the summary.
pub open spec fn display_text(
    effects: Seq<Effect>,
    sources: Seq<Option<(Seq<char>, Seq<char>)>>,
    keys: Seq<(Seq<char>, Seq<char>)>,
) -> Seq<char> {
    root_section(effects, sources) + module_sections(effects, sources, keys) + summary_line(effects)
}

/// Whether module `n1`/`i1` comes before module `n2`/`i2`.
fn module_before(n1: &str, i1: &str, n2: &str, i2: &str) -> (r: bool)
    ensures
        r == source_lt((n1@, i1@), (n2@, i2@)),
{
    str_lt(n1, n2) || (str_eq(n1, n2) && str_lt(i1, i2))
}

/// Format an effect briefly for display
fn format_effect_brief(effect: &Effect) -> (r: String)
    ensures
        r@ == brief_text(*effect),
{
    let (mark, id) = match effect {
        Effect::Create(r) => ("+ ", &r.id),
        Effect::Update { id, .. } => ("~ ", id),
        Effect::Delete(id) => ("- ", id),
        Effect::Read { resource } => ("? ", &resource.id),
    };
    let mut s = str_to_string(mark);
    push_str(&mut s, id.resource_type.as_str());
    push_str(&mut s, ".");
    push_str(&mut s, id.name.as_str());
    s
}

fn push_effect_lines(out: &mut String, effects: &[Effect], idx: &Vec<usize>)
    ensures
        final(out)@ == old(out)@ + effect_lines(effects@, idx@),
{
    let ghost start = out@;
    let mut m: usize = 0;
    while m < idx.len()
        invariant
            m <= idx.len(),
            out@ == start + effect_lines(effects@, idx@.take(m as int)),
        decreases idx.len() - m,
    {
        proof {
            assert(idx@.take(m + 1).drop_last() =~= idx@.take(m as int));
        }
        let e = idx[m];
        if e < effects.len() {
            push_str(out, "  ");
            let line = format_effect_brief(&effects[e]);
            push_str(out, line.as_str());
            push_str(out, "\n");
        }
        m += 1;
    }
    proof {
        assert(idx@.take(idx.len() as int) =~= idx@);
    }
}

/// The module instances named by groups, in the given order of groups.
pub open spec fn order_keys(order: Seq<usize>, g: Seq<(Option<(Seq<char>, Seq<char>)>, Seq<usize>)>) -> Seq<(Seq<char>, Seq<char>)> {
    Seq::new(order.len(), |m: int| g[order[m] as int].0.unwrap())
}

proof fn lemma_indices_present(s: Seq<Option<(Seq<char>, Seq<char>)>>, key: Option<(Seq<char>, Seq<char>)>)
    requires
        indices_with(s, key).len() > 0,
    ensures
        exists|j: int| 0 <= j < s.len() && s[j] == key,
{
    if forall|j: int| 0 <= j < s.len() ==> s[j] != key {
        lemma_indices_absent(s, key);
    }
}

impl ModularPlan {
    /// Display effects grouped by module: the root's effects first, then
    /// each module instance by module name and instance name, then a summary.
    pub fn display_by_module(&self) -> (r: String)
        ensures
            exists|keys: Seq<(Seq<char>, Seq<char>)>|
                module_order(keys, self.sources()) && r@ == display_text(self.plan@, self.sources(), keys),
    {
        let groups = self.group_by_module();
        let ghost gv = groups_view(groups@);
        let ghost src = self.sources();
        let effects = self.plan.effects();
        let mut output = String::new();

        // Display root effects first
        let mut root: Option<usize> = None;
        let mut k: usize = 0;
        while k < groups.len()
            invariant
                k <= groups.len(),
                gv == groups_view(groups@),
                match root {
                    Some(f) => f < groups.len() && gv[f as int].0 is None,
                    None => forall|j: int| 0 <= j < k ==> gv[j].0 is Some,
                },
            decreases groups.len() - k,
        {
            if root.is_none() && groups[k].0.is_root() {
                root = Some(k);
            }
            k += 1;
        }
        match root {
            Some(f) => {
                push_str(&mut output, "Root:\n");
                push_effect_lines(&mut output, effects, &groups[f].1);
                push_str(&mut output, "\n");
                proof {
                    assert(gv[f as int].1 == indices_with(src, None));
                    assert(gv[f as int].1.len() > 0);
                }
            },
            None => {
                proof {
                    assert forall|j: int| 0 <= j < src.len() implies src[j] != None::<(Seq<char>, Seq<char>)> by {
                        if src[j] is None {
                            assert(has_group(gv, src[j]));
                        }
                    }
                    lemma_indices_absent(src, None);
                }
            },
        }
        assert(output@ == root_section(self.plan@, src));

        // Order the module instances
        let mut order: Vec<usize> = Vec::new();
        let mut k: usize = 0;
        while k < groups.len()
            invariant
                k <= groups.len(),
                gv == groups_view(groups@),
                groups_wf(gv, src),
                forall|m: int| 0 <= m < order.len() ==> order@[m] < k && (gv[#[trigger] order@[m] as int].0 is Some),
                forall|a: int, b: int| 0 <= a < b < order.len() ==> source_lt(order_keys(order@, gv)[a], order_keys(order@, gv)[b]),
                forall|j: int| 0 <= j < k && (gv[j].0 is Some) ==> (#[trigger] order@.contains(j as usize)),
            decreases groups.len() - k,
        {
            match &groups[k].0 {
                ModuleSource::Root => {},
                ModuleSource::Module { name, instance } => {
                    let ghost key = gv[k as int].0.unwrap();
                    let ghost keys = order_keys(order@, gv);
                    let mut p: usize = 0;
                    let mut done = false;
                    while p < order.len() && !done
                        invariant
                            p <= order.len(),
                            k < groups.len(),
                            gv == groups_view(groups@),
                            keys == order_keys(order@, gv),
                            key == (name@, instance@),
                            forall|m: int| 0 <= m < order.len() ==> (gv[#[trigger] order@[m] as int].0 is Some) && order@[m] < groups.len(),
                            forall|m: int| 0 <= m < p ==> !source_lt(key, keys[m]),
                            done ==> p < order.len() && source_lt(key, keys[p as int]),
                        decreases order.len() - p + if done { 0int } else { 1int },
                    {
                        let g = order[p];
                        let before = match &groups[g].0 {
                            ModuleSource::Module { name: n2, instance: i2 } => module_before(
                                name.as_str(),
                                instance.as_str(),
                                n2.as_str(),
                                i2.as_str(),
                            ),
                            ModuleSource::Root => false,
                        };
                        if before {
                            done = true;
                        } else {
                            p += 1;
                        }
                    }
                    let ghost old_order = order@;
                    order.insert(p, k);
                    proof {
                        let nk = order_keys(order@, gv);
                        assert(nk =~= keys.insert(p as int, key));
                        assert forall|m: int| 0 <= m < keys.len() implies keys[m] != key by {
                            assert(gv[old_order[m] as int].0 != gv[k as int].0);
                        }
                        assert forall|a: int, b: int| 0 <= a < b < nk.len() implies source_lt(nk[a], nk[b]) by {
                            if b == p {
                                lemma_source_total(keys[a], key);
                            } else if a == p {
                                assert(source_lt(key, keys[p as int]));
                                if b - 1 > p {
                                    lemma_source_transitive(key, keys[p as int], keys[b - 1]);
                                }
                            } else if a < p && b > p {
                                lemma_source_total(keys[a], key);
                                assert(source_lt(keys[a], keys[b - 1]));
                            }
                        }
                        assert forall|j: int| 0 <= j < k + 1 && (gv[j].0 is Some) implies (#[trigger] order@.contains(j as usize)) by {
                            if j == k {
                                assert(order@[p as int] == k);
                            } else {
                                assert(old_order.contains(j as usize));
                                let m = choose|m: int| 0 <= m < old_order.len() && old_order[m] == j as usize;
                                if m < p {
                                    assert(order@[m] == j as usize);
                                } else {
                                    assert(order@[m + 1] == j as usize);
                                }
                            }
                        }
                    }
                },
            }
            k += 1;
        }

        // Display module effects
        let ghost keys = order_keys(order@, gv);
        let ghost base = output@;
        let mut m: usize = 0;
        while m < order.len()
            invariant
                m <= order.len(),
                gv == groups_view(groups@),
                groups_wf(gv, src),
                keys == order_keys(order@, gv),
                effects@ == self.plan@,
                forall|i: int| 0 <= i < order.len() ==> order@[i] < groups.len() && (gv[#[trigger] order@[i] as int].0 is Some),
                output@ == base + module_sections(self.plan@, src, keys.take(m as int)),
            decreases order.len() - m,
        {
            proof {
                assert(keys.take(m + 1).drop_last() =~= keys.take(m as int));
            }
            let g = order[m];
            match &groups[g].0 {
                ModuleSource::Module { name, instance } => {
                    push_str(&mut output, "Module: ");
                    push_str(&mut output, name.as_str());
                    push_str(&mut output, " (instance: ");
                    push_str(&mut output, instance.as_str());
                    push_str(&mut output, ")\n");
                    push_effect_lines(&mut output, effects, &groups[g].1);
                    push_str(&mut output, "\n");
                    proof {
                        assert(gv[g as int].1 == indices_with(src, gv[g as int].0));
                    }
                },
                ModuleSource::Root => {},
            }
            m += 1;
        }
        proof {
            assert(keys.take(order.len() as int) =~= keys);
        }

        // Add summary
        let summary = self.plan.summary();
        push_str(&mut output, "Summary: ");
        push_chars(&mut output, usize_text(summary.create).as_slice());
        push_str(&mut output, " to create, ");
        push_chars(&mut output, usize_text(summary.update).as_slice());
        push_str(&mut output, " to update, ");
        push_chars(&mut output, usize_text(summary.delete).as_slice());
        push_str(&mut output, " to delete\n");
        proof {
            assert forall|x: (Seq<char>, Seq<char>)| #![trigger keys.contains(x)] #![trigger occurs(src, x)]
                keys.contains(x) <==> occurs(src, x) by {
                if keys.contains(x) {
                    let m = choose|m: int| 0 <= m < keys.len() && keys[m] == x;
                    let g = order@[m] as int;
                    assert(gv[g].0 == Some(x));
                    assert(gv[g].1.len() > 0);
                    lemma_indices_present(src, Some(x));
                }
                if occurs(src, x) {
                    let j = choose|j: int| 0 <= j < src.len() && src[j] == Some(x);
                    assert(has_group(gv, src[j]));
                    let g = choose|g: int| 0 <= g < gv.len() && gv[g].0 == src[j];
                    assert(order@.contains(g as usize));
                    let m = choose|m: int| 0 <= m < order@.len() && order@[m] == g as usize;
                    assert(keys[m] == x);
                }
            }
            assert(module_order(keys, src));
        }
        output
    }
}
} // verus!
