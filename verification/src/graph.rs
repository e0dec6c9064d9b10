//! Dependency graphs between resources, and cycle detection.

use vstd::prelude::*;
use vstd::multiset::Multiset;

use crate::resource::{opt_path_view, ResourceTypePath};
use crate::text::{copy_string, str_eq};

verus! {

/// Dependency between resources
#[derive(Debug, Clone)]
pub struct Dependency {
    /// Target resource binding name
    pub target: String,
    /// Referenced attribute (e.g., "id")
    pub attribute: String,
    /// Where this reference is used (e.g., "security_group_id")
    pub used_in: String,
}

/// The mathematical content of a dependency: target, attribute, use.
pub type DepModel = (Seq<char>, Seq<char>, Seq<char>);

impl View for Dependency {
    type V = DepModel;

    open spec fn view(&self) -> DepModel {
        (self.target@, self.attribute@, self.used_in@)
    }
}

/// Items grouped under names, in the order the names first appeared.
pub type Groups<T> = Seq<(Seq<char>, Seq<T>)>;

/// The items grouped under a name, if any.
pub open spec fn group_get<T>(g: Groups<T>, k: Seq<char>) -> Option<Seq<T>>
    decreases g.len(),
{
    if g.len() == 0 {
        None
    } else if g[0].0 == k {
        Some(g[0].1)
    } else {
        group_get(g.drop_first(), k)
    }
}

/// The groups with one more item under a name.
pub open spec fn group_add<T>(g: Groups<T>, k: Seq<char>, x: T) -> Groups<T>
    decreases g.len(),
{
    if g.len() == 0 {
        seq![(k, seq![x])]
    } else if g[0].0 == k {
        g.update(0, (k, g[0].1.push(x)))
    } else {
        seq![g[0]] + group_add(g.drop_first(), k, x)
    }
}

/// The names of the groups.
pub open spec fn group_keys<T>(g: Groups<T>) -> Seq<Seq<char>> {
    Seq::new(g.len(), |i: int| g[i].0)
}

/// Whether no name names two groups.
pub open spec fn distinct_keys<T>(g: Groups<T>) -> bool {
    forall|i: int, j: int| 0 <= i < j < g.len() ==> g[i].0 != g[j].0
}

pub proof fn lemma_group_get_at<T>(g: Groups<T>, k: Seq<char>, i: int)
    requires
        0 <= i < g.len(),
        g[i].0 == k,
        forall|j: int| 0 <= j < i ==> g[j].0 != k,
    ensures
        group_get(g, k) == Some(g[i].1),
    decreases i,
{
    if i > 0 {
        let r = g.drop_first();
        assert forall|j: int| 0 <= j < i - 1 implies r[j].0 != k by {
            assert(r[j] == g[j + 1]);
        }
        lemma_group_get_at(r, k, i - 1);
    }
}

pub proof fn lemma_group_get_none<T>(g: Groups<T>, k: Seq<char>)
    requires
        forall|j: int| 0 <= j < g.len() ==> g[j].0 != k,
    ensures
        group_get(g, k) is None,
    decreases g.len(),
{
    if g.len() > 0 {
        let r = g.drop_first();
        assert forall|j: int| 0 <= j < r.len() implies r[j].0 != k by {
            assert(r[j] == g[j + 1]);
        }
        lemma_group_get_none(r, k);
    }
}

/// Where `group_get` finds something, a group of that name exists.
pub proof fn lemma_group_get_some<T>(g: Groups<T>, k: Seq<char>)
    requires
        group_get(g, k) is Some,
    ensures
        exists|i: int| 0 <= i < g.len() && g[i].0 == k && g[i].1 == group_get(g, k).unwrap(),
    decreases g.len(),
{
    if g[0].0 != k {
        lemma_group_get_some(g.drop_first(), k);
        let i = choose|i: int| 0 <= i < g.drop_first().len() && g.drop_first()[i].0 == k && g.drop_first()[i].1 == group_get(g.drop_first(), k).unwrap();
        assert(g[i + 1] == g.drop_first()[i]);
    } else {
        assert(g[0].0 == k);
    }
}

pub proof fn lemma_group_add_at<T>(g: Groups<T>, k: Seq<char>, x: T, i: int)
    requires
        0 <= i < g.len(),
        g[i].0 == k,
        forall|j: int| 0 <= j < i ==> g[j].0 != k,
    ensures
        group_add(g, k, x) == g.update(i, (k, g[i].1.push(x))),
    decreases i,
{
    if i > 0 {
        let r = g.drop_first();
        assert forall|j: int| 0 <= j < i - 1 implies r[j].0 != k by {
            assert(r[j] == g[j + 1]);
        }
        lemma_group_add_at(r, k, x, i - 1);
        assert(seq![g[0]] + r.update(i - 1, (k, r[i - 1].1.push(x))) =~= g.update(i, (k, g[i].1.push(x))));
    }
}

pub proof fn lemma_group_add_new<T>(g: Groups<T>, k: Seq<char>, x: T)
    requires
        forall|j: int| 0 <= j < g.len() ==> g[j].0 != k,
    ensures
        group_add(g, k, x) == g.push((k, seq![x])),
    decreases g.len(),
{
    if g.len() > 0 {
        let r = g.drop_first();
        assert forall|j: int| 0 <= j < r.len() implies r[j].0 != k by {
            assert(r[j] == g[j + 1]);
        }
        lemma_group_add_new(r, k, x);
        assert(seq![g[0]] + r.push((k, seq![x])) =~= g.push((k, seq![x])));
    }
}

/// Where a group of the given name stands.
pub fn group_index<T>(g: &Vec<(String, Vec<T>)>, k: &str) -> (r: Option<usize>)
    ensures
        match r {
            Some(i) => i < g.len() && g@[i as int].0@ == k@ && forall|j: int| 0 <= j < i ==> g@[j].0@ != k@,
            None => forall|j: int| 0 <= j < g.len() ==> g@[j].0@ != k@,
        },
{
    let mut i: usize = 0;
    while i < g.len()
        invariant
            i <= g.len(),
            forall|j: int| 0 <= j < i ==> g@[j].0@ != k@,
        decreases g.len() - i,
    {
        if str_eq(g[i].0.as_str(), k) {
            return Some(i);
        }
        i += 1;
    }
    None
}


/// Dependency graph for resources within a module
#[derive(Debug, Clone)]
pub struct DependencyGraph {
    /// Resource binding name -> list of dependencies
    pub edges: Vec<(String, Vec<Dependency>)>,
    /// Reverse edges: target -> list of resources that depend on it
    pub reverse_edges: Vec<(String, Vec<String>)>,
}

/// The models of a list of dependencies.
pub open spec fn deps_model(d: Seq<Dependency>) -> Seq<DepModel> {
    Seq::new(d.len(), |j: int| d[j]@)
}

/// The models of a list of names.
pub open spec fn names_model(d: Seq<String>) -> Seq<Seq<char>> {
    Seq::new(d.len(), |j: int| d[j]@)
}

impl DependencyGraph {
    /// Each resource with its dependencies.
    pub open spec fn edges_model(&self) -> Groups<DepModel> {
        Seq::new(self.edges.len() as nat, |i: int| (self.edges@[i].0@, deps_model(self.edges@[i].1@)))
    }

    /// Each target with the resources that depend on it.
    pub open spec fn reverse_model(&self) -> Groups<Seq<char>> {
        Seq::new(
            self.reverse_edges.len() as nat,
            |i: int| (self.reverse_edges@[i].0@, names_model(self.reverse_edges@[i].1@)),
        )
    }

    /// No resource or target is listed twice.
    pub open spec fn wf(&self) -> bool {
        distinct_keys(self.edges_model()) && distinct_keys(self.reverse_model())
    }

    /// Create a new empty dependency graph
    pub fn new() -> (r: Self)
        ensures
            r.edges_model() == Seq::<(Seq<char>, Seq<DepModel>)>::empty(),
            r.reverse_model() == Seq::<(Seq<char>, Seq<Seq<char>>)>::empty(),
            r.wf(),
    {
        let r = DependencyGraph { edges: Vec::new(), reverse_edges: Vec::new() };
        proof {
            assert(r.edges_model() =~= Seq::<(Seq<char>, Seq<DepModel>)>::empty());
            assert(r.reverse_model() =~= Seq::<(Seq<char>, Seq<Seq<char>>)>::empty());
        }
        r
    }

    /// Add a dependency edge
    pub fn add_edge(&mut self, from: String, dependency: Dependency)
        requires
            old(self).wf(),
        ensures
            final(self).wf(),
            final(self).edges_model() == group_add(old(self).edges_model(), from@, dependency@),
            final(self).reverse_model() == group_add(old(self).reverse_model(), dependency.target@, from@),
    {
        let target = copy_string(&dependency.target);
        let from2 = copy_string(&from);
        add_dependency(&mut self.edges, from, dependency);
        add_name(&mut self.reverse_edges, target, from2);
    }

    /// The dependencies of a resource (none when it has no entry).
    pub open spec fn deps_of(&self, resource: Seq<char>) -> Seq<DepModel> {
        match group_get(self.edges_model(), resource) {
            Some(d) => d,
            None => seq![],
        }
    }

    /// The resources that depend on a target (none when it has no entry).
    pub open spec fn dependents_spec(&self, resource: Seq<char>) -> Seq<Seq<char>> {
        match group_get(self.reverse_model(), resource) {
            Some(d) => d,
            None => seq![],
        }
    }

    /// Get direct dependencies of a resource
    pub fn dependencies_of(&self, resource: &str) -> (r: &[Dependency])
        ensures
            deps_model(r@) == self.deps_of(resource@),
    {
        match group_index(&self.edges, resource) {
            Some(i) => {
                proof {
                    lemma_group_get_at(self.edges_model(), resource@, i as int);
                }
                self.edges[i].1.as_slice()
            },
            None => {
                proof {
                    lemma_group_get_none(self.edges_model(), resource@);
                }
                let e: &[Dependency] = &[];
                proof {
                    assert(deps_model(e@) =~= seq![]);
                }
                e
            },
        }
    }

    /// Get resources that depend on this resource
    pub fn dependents_of(&self, resource: &str) -> (r: &[String])
        ensures
            names_model(r@) == self.dependents_spec(resource@),
    {
        match group_index(&self.reverse_edges, resource) {
            Some(i) => {
                proof {
                    lemma_group_get_at(self.reverse_model(), resource@, i as int);
                }
                self.reverse_edges[i].1.as_slice()
            },
            None => {
                proof {
                    lemma_group_get_none(self.reverse_model(), resource@);
                }
                let e: &[String] = &[];
                proof {
                    assert(names_model(e@) =~= seq![]);
                }
                e
            },
        }
    }

    /// Get resources that have no dependencies (root resources): those that
    /// something depends on but that depend on nothing themselves, in the
    /// order of `reverse_edges`.
    pub fn root_resources(&self) -> (r: Vec<String>)
        ensures
            names_model(r@) == minus(group_keys(self.reverse_model()), group_keys(self.edges_model())),
    {
        let a = keys_of_deps(&self.edges);
        let b = keys_of_names(&self.reverse_edges);
        proof {
            assert(group_keys(self.edges_model()) =~= names_model(a@));
            assert(group_keys(self.reverse_model()) =~= names_model(b@));
        }
        keys_minus(&b, &a)
    }

    /// Get resources that nothing depends on (leaf resources): those that
    /// depend on others but that no resource depends on, in the order of
    /// `edges`.
    pub fn leaf_resources(&self) -> (r: Vec<String>)
        ensures
            names_model(r@) == minus(group_keys(self.edges_model()), group_keys(self.reverse_model())),
    {
        let a = keys_of_deps(&self.edges);
        let b = keys_of_names(&self.reverse_edges);
        proof {
            assert(group_keys(self.edges_model()) =~= names_model(a@));
            assert(group_keys(self.reverse_model()) =~= names_model(b@));
        }
        keys_minus(&a, &b)
    }
}

/// The items grouped under a name (none when it has no group).
pub open spec fn group_items<T>(g: Groups<T>, k: Seq<char>) -> Seq<T> {
    match group_get(g, k) {
        Some(v) => v,
        None => seq![],
    }
}

/// Adding an item under a name appends it to that name's items and leaves
/// every other name's items as they were.
pub proof fn lemma_group_add_items<T>(g: Groups<T>, k: Seq<char>, x: T, q: Seq<char>)
    ensures
        group_items(group_add(g, k, x), q) == if q == k {
            group_items(g, k).push(x)
        } else {
            group_items(g, q)
        },
    decreases g.len(),
{
    let g2 = group_add(g, k, x);
    if g.len() == 0 {
        assert(g2.len() == 1 && g2[0] == (k, seq![x]));
        assert(g2.drop_first() =~= Seq::<(Seq<char>, Seq<T>)>::empty());
        assert(group_get(g2.drop_first(), q) is None);
        assert(seq![x] =~= Seq::<T>::empty().push(x));
        if q == k {
            assert(group_get(g2, q) == Some(seq![x]));
        } else {
            assert(group_get(g2, q) is None);
        }
    } else if g[0].0 == k {
        assert(g2[0] == (k, g[0].1.push(x)));
        assert(g2.drop_first() =~= g.drop_first());
        if q == k {
            assert(group_get(g2, q) == Some(g[0].1.push(x)));
        } else {
            assert(group_get(g2, q) == group_get(g2.drop_first(), q));
            assert(group_get(g, q) == group_get(g.drop_first(), q));
        }
    } else {
        assert(g2[0] == g[0]);
        assert(g2.drop_first() =~= group_add(g.drop_first(), k, x));
        lemma_group_add_items(g.drop_first(), k, x, q);
        if g[0].0 == q {
            assert(group_get(g2, q) == Some(g[0].1));
        } else {
            assert(group_get(g2, q) == group_get(g2.drop_first(), q));
            assert(group_get(g, q) == group_get(g.drop_first(), q));
        }
    }
}

/// The (source, target) pairs of one group of dependencies.
pub open spec fn dep_pairs(f: Seq<char>, ds: Seq<DepModel>) -> Multiset<(Seq<char>, Seq<char>)>
    decreases ds.len(),
{
    if ds.len() == 0 {
        Multiset::empty()
    } else {
        dep_pairs(f, ds.drop_last()).insert((f, ds.last().0))
    }
}

/// The (source, target) pairs of one group of dependents.
pub open spec fn dependent_pairs(t: Seq<char>, fs: Seq<Seq<char>>) -> Multiset<(Seq<char>, Seq<char>)>
    decreases fs.len(),
{
    if fs.len() == 0 {
        Multiset::empty()
    } else {
        dependent_pairs(t, fs.drop_last()).insert((fs.last(), t))
    }
}

/// All (source, target) pairs of the forward groups.
pub open spec fn forward_pairs(g: Groups<DepModel>) -> Multiset<(Seq<char>, Seq<char>)>
    decreases g.len(),
{
    if g.len() == 0 {
        Multiset::empty()
    } else {
        dep_pairs(g[0].0, g[0].1).add(forward_pairs(g.drop_first()))
    }
}

/// All (source, target) pairs of the reverse groups.
pub open spec fn reverse_pairs(g: Groups<Seq<char>>) -> Multiset<(Seq<char>, Seq<char>)>
    decreases g.len(),
{
    if g.len() == 0 {
        Multiset::empty()
    } else {
        dependent_pairs(g[0].0, g[0].1).add(reverse_pairs(g.drop_first()))
    }
}

proof fn lemma_forward_pairs_add(g: Groups<DepModel>, k: Seq<char>, x: DepModel)
    ensures
        forward_pairs(group_add(g, k, x)) =~= forward_pairs(g).insert((k, x.0)),
    decreases g.len(),
{
    broadcast use vstd::multiset::group_multiset_axioms;

    let g2 = group_add(g, k, x);
    if g.len() == 0 {
        assert(g2.drop_first() =~= Seq::<(Seq<char>, Seq<DepModel>)>::empty());
        assert(seq![x].drop_last() =~= Seq::<DepModel>::empty());
        assert(seq![x].last() == x);
        assert(dep_pairs(k, Seq::<DepModel>::empty()) == Multiset::<(Seq<char>, Seq<char>)>::empty());
        assert(dep_pairs(k, seq![x]) == dep_pairs(k, seq![x].drop_last()).insert((k, x.0)));
        assert(forward_pairs(g2.drop_first()) == Multiset::<(Seq<char>, Seq<char>)>::empty());
        assert(forward_pairs(g) == Multiset::<(Seq<char>, Seq<char>)>::empty());
    } else if g[0].0 == k {
        assert(g2.drop_first() =~= g.drop_first());
        assert(g[0].1.push(x).drop_last() =~= g[0].1);
        assert(dep_pairs(k, g[0].1.push(x)) =~= dep_pairs(k, g[0].1).insert((k, x.0)));
    } else {
        assert(g2[0] == g[0]);
        assert(g2.drop_first() =~= group_add(g.drop_first(), k, x));
        lemma_forward_pairs_add(g.drop_first(), k, x);
    }
}

proof fn lemma_reverse_pairs_add(g: Groups<Seq<char>>, t: Seq<char>, f: Seq<char>)
    ensures
        reverse_pairs(group_add(g, t, f)) =~= reverse_pairs(g).insert((f, t)),
    decreases g.len(),
{
    broadcast use vstd::multiset::group_multiset_axioms;

    let g2 = group_add(g, t, f);
    if g.len() == 0 {
        assert(g2.drop_first() =~= Seq::<(Seq<char>, Seq<Seq<char>>)>::empty());
        assert(seq![f].drop_last() =~= Seq::<Seq<char>>::empty());
        assert(seq![f].last() == f);
        assert(dependent_pairs(t, Seq::<Seq<char>>::empty()) == Multiset::<(Seq<char>, Seq<char>)>::empty());
        assert(dependent_pairs(t, seq![f]) == dependent_pairs(t, seq![f].drop_last()).insert((f, t)));
        assert(reverse_pairs(g2.drop_first()) == Multiset::<(Seq<char>, Seq<char>)>::empty());
        assert(reverse_pairs(g) == Multiset::<(Seq<char>, Seq<char>)>::empty());
    } else if g[0].0 == t {
        assert(g2.drop_first() =~= g.drop_first());
        assert(g[0].1.push(f).drop_last() =~= g[0].1);
        assert(dependent_pairs(t, g[0].1.push(f)) =~= dependent_pairs(t, g[0].1).insert((f, t)));
    } else {
        assert(g2[0] == g[0]);
        assert(g2.drop_first() =~= group_add(g.drop_first(), t, f));
        lemma_reverse_pairs_add(g.drop_first(), t, f);
    }
}

/// The reverse groups mirror the forward groups: as multisets, the
/// (source, target) pairs read from `edges` are those read from
/// `reverse_edges`.
pub open spec fn mirrored(g: DependencyGraph) -> bool {
    forward_pairs(g.edges_model()) == reverse_pairs(g.reverse_model())
}

/// A new graph is mirrored, and `add_edge` keeps a graph mirrored.
pub proof fn lemma_add_edge_mirrored(before: DependencyGraph, after: DependencyGraph, from: Seq<char>, d: DepModel)
    requires
        mirrored(before),
        after.edges_model() == group_add(before.edges_model(), from, d),
        after.reverse_model() == group_add(before.reverse_model(), d.0, from),
    ensures
        mirrored(after),
{
    lemma_forward_pairs_add(before.edges_model(), from, d);
    lemma_reverse_pairs_add(before.reverse_model(), d.0, from);
}

/// A graph with no groups is mirrored.
pub proof fn lemma_empty_mirrored(g: DependencyGraph)
    requires
        g.edges_model() == Seq::<(Seq<char>, Seq<DepModel>)>::empty(),
        g.reverse_model() == Seq::<(Seq<char>, Seq<Seq<char>>)>::empty(),
    ensures
        mirrored(g),
{
    assert(forward_pairs(g.edges_model()) =~= reverse_pairs(g.reverse_model()));
}

/// The forward and reverse groups of a graph made by `new` and then
/// `add_edge` with each pair of `es` in turn.
pub open spec fn edges_fold(es: Seq<(Seq<char>, DepModel)>) -> (Groups<DepModel>, Groups<Seq<char>>)
    decreases es.len(),
{
    if es.len() == 0 {
        (seq![], seq![])
    } else {
        let (f, r) = edges_fold(es.drop_last());
        let (from, d) = es.last();
        (group_add(f, from, d), group_add(r, d.0, from))
    }
}

/// The dependencies added for `x`, in call order.
pub open spec fn deps_added(es: Seq<(Seq<char>, DepModel)>, x: Seq<char>) -> Seq<DepModel>
    decreases es.len(),
{
    if es.len() == 0 {
        seq![]
    } else if es.last().0 == x {
        deps_added(es.drop_last(), x).push(es.last().1)
    } else {
        deps_added(es.drop_last(), x)
    }
}

/// The sources of the edges added with target `x`, in call order, repeats kept.
pub open spec fn dependents_added(es: Seq<(Seq<char>, DepModel)>, x: Seq<char>) -> Seq<Seq<char>>
    decreases es.len(),
{
    if es.len() == 0 {
        seq![]
    } else if es.last().1.0 == x {
        dependents_added(es.drop_last(), x).push(es.last().0)
    } else {
        dependents_added(es.drop_last(), x)
    }
}

/// After `new` and a sequence of `add_edge` calls, the dependencies of a
/// resource are the dependencies added for it, and its dependents are the
/// sources of the edges that target it, both in call order.
pub proof fn lemma_edges_queries(g: DependencyGraph, es: Seq<(Seq<char>, DepModel)>, x: Seq<char>)
    requires
        g.edges_model() == edges_fold(es).0,
        g.reverse_model() == edges_fold(es).1,
    ensures
        g.deps_of(x) == deps_added(es, x),
        g.dependents_spec(x) == dependents_added(es, x),
{
    lemma_fold_items(es, x);
}

proof fn lemma_fold_items(es: Seq<(Seq<char>, DepModel)>, x: Seq<char>)
    ensures
        group_items(edges_fold(es).0, x) == deps_added(es, x),
        group_items(edges_fold(es).1, x) == dependents_added(es, x),
    decreases es.len(),
{
    if es.len() > 0 {
        lemma_fold_items(es.drop_last(), x);
        let (f, r) = edges_fold(es.drop_last());
        let (from, d) = es.last();
        lemma_group_add_items(f, from, d, x);
        lemma_group_add_items(r, d.0, from, x);
    }
}

/// A new graph is the fold of no edges, and `add_edge` extends the fold by
/// its pair.
pub proof fn lemma_add_edge_fold(
    before: DependencyGraph,
    after: DependencyGraph,
    es: Seq<(Seq<char>, DepModel)>,
    from: Seq<char>,
    d: DepModel,
)
    requires
        before.edges_model() == edges_fold(es).0,
        before.reverse_model() == edges_fold(es).1,
        after.edges_model() == group_add(before.edges_model(), from, d),
        after.reverse_model() == group_add(before.reverse_model(), d.0, from),
    ensures
        after.edges_model() == edges_fold(es.push((from, d))).0,
        after.reverse_model() == edges_fold(es.push((from, d))).1,
{
    assert(es.push((from, d)).drop_last() =~= es);
}

/// The names of `a` that are not in `b`, in order.
pub open spec fn minus(a: Seq<Seq<char>>, b: Seq<Seq<char>>) -> Seq<Seq<char>>
    decreases a.len(),
{
    if a.len() == 0 {
        a
    } else if b.contains(a.last()) {
        minus(a.drop_last(), b)
    } else {
        minus(a.drop_last(), b).push(a.last())
    }
}

fn keys_of_deps(g: &Vec<(String, Vec<Dependency>)>) -> (r: Vec<String>)
    ensures
        names_model(r@) == Seq::new(g.len() as nat, |i: int| g@[i].0@),
{
    let mut out: Vec<String> = Vec::new();
    let mut i: usize = 0;
    while i < g.len()
        invariant
            i <= g.len(),
            out.len() == i,
            forall|j: int| 0 <= j < i ==> (#[trigger] out@[j])@ == g@[j].0@,
        decreases g.len() - i,
    {
        out.push(copy_string(&g[i].0));
        i += 1;
    }
    proof {
        assert(names_model(out@) =~= Seq::new(g.len() as nat, |i: int| g@[i].0@));
    }
    out
}

fn keys_of_names(g: &Vec<(String, Vec<String>)>) -> (r: Vec<String>)
    ensures
        names_model(r@) == Seq::new(g.len() as nat, |i: int| g@[i].0@),
{
    let mut out: Vec<String> = Vec::new();
    let mut i: usize = 0;
    while i < g.len()
        invariant
            i <= g.len(),
            out.len() == i,
            forall|j: int| 0 <= j < i ==> (#[trigger] out@[j])@ == g@[j].0@,
        decreases g.len() - i,
    {
        out.push(copy_string(&g[i].0));
        i += 1;
    }
    proof {
        assert(names_model(out@) =~= Seq::new(g.len() as nat, |i: int| g@[i].0@));
    }
    out
}

/// Whether a name is in a list of names.
pub fn names_contain(v: &Vec<String>, k: &str) -> (r: bool)
    ensures
        r == names_model(v@).contains(k@),
{
    let mut i: usize = 0;
    while i < v.len()
        invariant
            i <= v.len(),
            forall|j: int| 0 <= j < i ==> v@[j]@ != k@,
        decreases v.len() - i,
    {
        if str_eq(v[i].as_str(), k) {
            proof {
                assert(names_model(v@)[i as int] == k@);
            }
            return true;
        }
        i += 1;
    }
    proof {
        if names_model(v@).contains(k@) {
            let j = choose|j: int| 0 <= j < names_model(v@).len() && names_model(v@)[j] == k@;
            assert(v@[j]@ == k@);
        }
    }
    false
}

fn keys_minus(a: &Vec<String>, b: &Vec<String>) -> (r: Vec<String>)
    ensures
        names_model(r@) == minus(names_model(a@), names_model(b@)),
{
    let ghost am = names_model(a@);
    let ghost bm = names_model(b@);
    let mut out: Vec<String> = Vec::new();
    let mut i: usize = 0;
    proof {
        assert(am.take(0) =~= Seq::<Seq<char>>::empty());
        assert(names_model(out@) =~= Seq::<Seq<char>>::empty());
    }
    while i < a.len()
        invariant
            i <= a.len(),
            am == names_model(a@),
            bm == names_model(b@),
            names_model(out@) == minus(am.take(i as int), bm),
        decreases a.len() - i,
    {
        proof {
            assert(am.take(i + 1).drop_last() =~= am.take(i as int));
            assert(am.take(i + 1).last() == a@[i as int]@);
        }
        if !names_contain(b, a[i].as_str()) {
            let ghost before = names_model(out@);
            out.push(copy_string(&a[i]));
            proof {
                assert(names_model(out@) =~= before.push(a@[i as int]@));
            }
        }
        i += 1;
    }
    proof {
        assert(am.take(a.len() as int) =~= am);
    }
    out
}

fn add_dependency(g: &mut Vec<(String, Vec<Dependency>)>, k: String, x: Dependency)
    requires
        distinct_keys(Seq::new(old(g).len() as nat, |i: int| (old(g)@[i].0@, deps_model(old(g)@[i].1@)))),
    ensures
        Seq::new(final(g).len() as nat, |i: int| (final(g)@[i].0@, deps_model(final(g)@[i].1@)))
            == group_add(Seq::new(old(g).len() as nat, |i: int| (old(g)@[i].0@, deps_model(old(g)@[i].1@))), k@, x@),
        distinct_keys(Seq::new(final(g).len() as nat, |i: int| (final(g)@[i].0@, deps_model(final(g)@[i].1@)))),
{
    let ghost g0 = Seq::new(g.len() as nat, |i: int| (g@[i].0@, deps_model(g@[i].1@)));
    let ghost xm = x@;
    match group_index(g, k.as_str()) {
        Some(i) => {
            let (n, mut items) = g.remove(i);
            let ghost old_items = deps_model(items@);
            items.push(x);
            proof {
                assert(deps_model(items@) =~= old_items.push(xm));
            }
            g.insert(i, (n, items));
            proof {
                assert forall|j: int| 0 <= j < i implies g0[j].0 != k@ by {}
                lemma_group_add_at(g0, k@, xm, i as int);
                assert(Seq::new(g.len() as nat, |j: int| (g@[j].0@, deps_model(g@[j].1@))) =~= g0.update(i as int, (k@, g0[i as int].1.push(xm))));
            }
        },
        None => {
            let mut items = Vec::new();
            items.push(x);
            g.push((k, items));
            proof {
                assert forall|j: int| 0 <= j < g0.len() implies g0[j].0 != k@ by {}
                lemma_group_add_new(g0, k@, xm);
                assert(deps_model(g@[g@.len() - 1].1@) =~= seq![xm]);
                assert(Seq::new(g.len() as nat, |j: int| (g@[j].0@, deps_model(g@[j].1@))) =~= g0.push((k@, seq![xm])));
            }
        },
    }
}

fn add_name(g: &mut Vec<(String, Vec<String>)>, k: String, x: String)
    requires
        distinct_keys(Seq::new(old(g).len() as nat, |i: int| (old(g)@[i].0@, names_model(old(g)@[i].1@)))),
    ensures
        Seq::new(final(g).len() as nat, |i: int| (final(g)@[i].0@, names_model(final(g)@[i].1@)))
            == group_add(Seq::new(old(g).len() as nat, |i: int| (old(g)@[i].0@, names_model(old(g)@[i].1@))), k@, x@),
        distinct_keys(Seq::new(final(g).len() as nat, |i: int| (final(g)@[i].0@, names_model(final(g)@[i].1@)))),
{
    let ghost g0 = Seq::new(g.len() as nat, |i: int| (g@[i].0@, names_model(g@[i].1@)));
    let ghost xm = x@;
    match group_index(g, k.as_str()) {
        Some(i) => {
            let (n, mut items) = g.remove(i);
            let ghost old_items = names_model(items@);
            items.push(x);
            proof {
                assert(names_model(items@) =~= old_items.push(xm));
            }
            g.insert(i, (n, items));
            proof {
                assert forall|j: int| 0 <= j < i implies g0[j].0 != k@ by {}
                lemma_group_add_at(g0, k@, xm, i as int);
                assert(Seq::new(g.len() as nat, |j: int| (g@[j].0@, names_model(g@[j].1@))) =~= g0.update(i as int, (k@, g0[i as int].1.push(xm))));
            }
        },
        None => {
            let mut items = Vec::new();
            items.push(x);
            g.push((k, items));
            proof {
                assert forall|j: int| 0 <= j < g0.len() implies g0[j].0 != k@ by {}
                lemma_group_add_new(g0, k@, xm);
                assert(names_model(g@[g@.len() - 1].1@) =~= seq![xm]);
                assert(Seq::new(g.len() as nat, |j: int| (g@[j].0@, names_model(g@[j].1@))) =~= g0.push((k@, seq![xm])));
            }
        },
    }
}


// ---------------------------------------------------------------------------
// Cycles
// ---------------------------------------------------------------------------

/// The resources a resource depends on directly.
pub open spec fn successors(g: Groups<DepModel>, a: Seq<char>) -> Seq<Seq<char>> {
    match group_get(g, a) {
        Some(ds) => Seq::new(ds.len(), |j: int| ds[j].0),
        None => seq![],
    }
}

/// Whether `a` depends directly on `b`.
pub open spec fn edge(g: Groups<DepModel>, a: Seq<char>, b: Seq<char>) -> bool {
    successors(g, a).contains(b)
}

/// Whether each name of `p` depends directly on the next.
pub open spec fn is_walk(g: Groups<DepModel>, p: Seq<Seq<char>>) -> bool {
    forall|i: int| 0 <= i < p.len() - 1 ==> #[trigger] edge(g, p[i], p[i + 1])
}

/// Whether some resource depends, through one or more dependencies, on itself.
pub open spec fn cyclic(g: Groups<DepModel>) -> bool {
    exists|p: Seq<Seq<char>>| p.len() >= 2 && p[0] == p.last() && is_walk(g, p)
}

/// How many entries of a sequence are false.
pub open spec fn num_false(s: Seq<bool>) -> nat
    decreases s.len(),
{
    if s.len() == 0 {
        0
    } else {
        num_false(s.drop_last()) + if s.last() {
            0nat
        } else {
            1nat
        }
    }
}

proof fn lemma_num_false_update(s: Seq<bool>, k: int)
    requires
        0 <= k < s.len(),
        !s[k],
    ensures
        num_false(s.update(k, true)) + 1 == num_false(s),
    decreases s.len(),
{
    let t = s.update(k, true);
    if k == s.len() - 1 {
        assert(t.drop_last() =~= s.drop_last());
    } else {
        assert(t.drop_last() =~= s.drop_last().update(k, true));
        lemma_num_false_update(s.drop_last(), k);
    }
}

/// The ranking left by the removal of resources whose dependencies were
/// all removed before them: each removed resource ranks above every
/// resource of the graph it depends on.
pub open spec fn ranked(g: Groups<DepModel>, removed: Seq<bool>, rank: Seq<int>) -> bool {
    &&& removed.len() == g.len()
    &&& rank.len() == g.len()
    &&& forall|i: int, j: int|
        0 <= i < g.len() && 0 <= j < g.len() && removed[i] && #[trigger] edge(g, g[i].0, g[j].0)
            ==> removed[j] && rank[j] < rank[i]
}

/// Whether a resource has an entry.
pub open spec fn listed(g: Groups<DepModel>, v: Seq<char>) -> bool {
    exists|i: int| 0 <= i < g.len() && g[i].0 == v
}

/// The position of a resource's entry.
pub open spec fn entry_of(g: Groups<DepModel>, v: Seq<char>) -> int {
    choose|i: int| 0 <= i < g.len() && g[i].0 == v
}

proof fn lemma_edge_source_listed(g: Groups<DepModel>, a: Seq<char>, b: Seq<char>)
    requires
        edge(g, a, b),
    ensures
        listed(g, a),
{
    lemma_group_get_some(g, a);
}

/// Along a walk through resources that are all listed and removed, ranks fall.
proof fn lemma_rank_falls(g: Groups<DepModel>, removed: Seq<bool>, rank: Seq<int>, p: Seq<Seq<char>>, j: int)
    requires
        distinct_keys(g),
        ranked(g, removed, rank),
        forall|i: int| 0 <= i < g.len() ==> removed[i],
        is_walk(g, p),
        forall|t: int| 0 <= t < p.len() ==> #[trigger] listed(g, p[t]),
        1 <= j < p.len(),
    ensures
        rank[entry_of(g, p[j])] < rank[entry_of(g, p[0])],
    decreases j,
{
    let a = entry_of(g, p[j - 1]);
    let b = entry_of(g, p[j]);
    assert(listed(g, p[j - 1]));
    assert(listed(g, p[j]));
    assert(edge(g, p[j - 1], p[(j - 1) + 1]));
    assert(edge(g, g[a].0, g[b].0));
    if j > 1 {
        lemma_rank_falls(g, removed, rank, p, j - 1);
    }
}

/// A graph whose resources were all removed in rank order has no cycle.
proof fn lemma_acyclic(g: Groups<DepModel>, removed: Seq<bool>, rank: Seq<int>)
    requires
        distinct_keys(g),
        ranked(g, removed, rank),
        forall|i: int| 0 <= i < g.len() ==> removed[i],
    ensures
        !cyclic(g),
{
    if cyclic(g) {
        let p = choose|p: Seq<Seq<char>>| p.len() >= 2 && p[0] == p.last() && is_walk(g, p);
        assert forall|t: int| 0 <= t < p.len() implies #[trigger] listed(g, p[t]) by {
            if t < p.len() - 1 {
                assert(edge(g, p[t], p[t + 1]));
                lemma_edge_source_listed(g, p[t], p[t + 1]);
            } else {
                assert(edge(g, p[0], p[0int + 1]));
                lemma_edge_source_listed(g, p[0], p[0int + 1]);
            }
        }
        lemma_rank_falls(g, removed, rank, p, p.len() - 1);
        assert(p[p.len() - 1] == p[0]);
    }
}

/// The next resource of a walk through resources that were not removed.
pub open spec fn next_kept(g: Groups<DepModel>, removed: Seq<bool>, i: int) -> int {
    choose|j: int| 0 <= j < g.len() && !removed[j] && edge(g, g[i].0, g[j].0)
}

/// A walk of `m` steps from entry `i` through resources that were not removed.
pub open spec fn kept_walk(g: Groups<DepModel>, removed: Seq<bool>, i: int, m: nat) -> Seq<int>
    decreases m,
{
    if m == 0 {
        seq![i]
    } else {
        let w = kept_walk(g, removed, i, (m - 1) as nat);
        w.push(next_kept(g, removed, w.last()))
    }
}

/// Where every resource that was not removed depends on one that was not,
/// the walk stays among them.
proof fn lemma_kept_walk(g: Groups<DepModel>, removed: Seq<bool>, i: int, m: nat)
    requires
        removed.len() == g.len(),
        0 <= i < g.len(),
        !removed[i],
        forall|a: int| 0 <= a < g.len() && !removed[a] ==> exists|b: int| 0 <= b < g.len() && !removed[b] && #[trigger] edge(g, g[a].0, g[b].0),
    ensures
        kept_walk(g, removed, i, m).len() == m + 1,
        forall|t: int| 0 <= t <= m ==> 0 <= #[trigger] kept_walk(g, removed, i, m)[t] < g.len() && !removed[kept_walk(g, removed, i, m)[t]],
        forall|t: int| 0 <= t < m ==> #[trigger] edge(g, g[kept_walk(g, removed, i, m)[t]].0, g[kept_walk(g, removed, i, m)[t + 1]].0),
    decreases m,
{
    if m > 0 {
        lemma_kept_walk(g, removed, i, (m - 1) as nat);
        let w = kept_walk(g, removed, i, (m - 1) as nat);
        let a = w.last();
        assert(0 <= a < g.len() && !removed[a]);
        let b = next_kept(g, removed, a);
        assert(exists|b: int| 0 <= b < g.len() && !removed[b] && #[trigger] edge(g, g[a].0, g[b].0));
        let w2 = kept_walk(g, removed, i, m);
        assert(w2 == w.push(b));
        assert forall|t: int| 0 <= t < m implies #[trigger] edge(g, g[w2[t]].0, g[w2[t + 1]].0) by {
            if t < m - 1 {
                assert(w2[t] == w[t] && w2[t + 1] == w[t + 1]);
            } else {
                assert(w2[t] == a && w2[t + 1] == b);
            }
        }
    }
}

/// More names than there are distinct names to draw from repeat one.
proof fn lemma_pigeonhole(names: Seq<Seq<char>>, keys: Seq<Seq<char>>) -> (r: (int, int))
    requires
        names.len() > keys.len(),
        forall|t: int| 0 <= t < names.len() ==> keys.contains(#[trigger] names[t]),
    ensures
        0 <= r.0 < names.len() && 0 <= r.1 < names.len() && r.0 != r.1 && names[r.0] == names[r.1],
{
    if names.no_duplicates() {
        names.unique_seq_to_set();
        keys.lemma_cardinality_of_set();
        vstd::seq_lib::seq_to_set_is_finite(keys);
        assert forall|x: Seq<char>| names.to_set().contains(x) implies keys.to_set().contains(x) by {
            let t = choose|t: int| 0 <= t < names.len() && names[t] == x;
            assert(keys.contains(names[t]));
        }
        vstd::set_lib::lemma_len_subset(names.to_set(), keys.to_set());
        assert(false);
    }
    choose|a: int, b: int| 0 <= a < names.len() && 0 <= b < names.len() && a != b && names[a] == names[b]
}

/// A walk that comes back to a name it passed is a cycle.
proof fn lemma_cycle_from_repeat(g: Groups<DepModel>, names: Seq<Seq<char>>, a: int, b: int)
    requires
        0 <= a < b < names.len(),
        names[a] == names[b],
        forall|t: int| 0 <= t < names.len() - 1 ==> #[trigger] edge(g, names[t], names[t + 1]),
    ensures
        cyclic(g),
{
    let p = names.subrange(a, b + 1);
    assert forall|t: int| 0 <= t < p.len() - 1 implies #[trigger] edge(g, p[t], p[t + 1]) by {
        assert(p[t] == names[a + t]);
        assert(p[t + 1] == names[(a + t) + 1]);
        assert(edge(g, names[a + t], names[(a + t) + 1]));
    }
    assert(p[0] == p.last());
}

/// The names along a walk through entries.
proof fn lemma_walk_names(g: Groups<DepModel>, removed: Seq<bool>, i: int) -> (names: Seq<Seq<char>>)
    requires
        removed.len() == g.len(),
        0 <= i < g.len(),
        !removed[i],
        forall|a: int| 0 <= a < g.len() && !removed[a] ==> exists|b: int| 0 <= b < g.len() && !removed[b] && #[trigger] edge(g, g[a].0, g[b].0),
    ensures
        names.len() == g.len() + 1,
        forall|t: int| 0 <= t < names.len() ==> group_keys(g).contains(#[trigger] names[t]),
        forall|t: int| 0 <= t < names.len() - 1 ==> #[trigger] edge(g, names[t], names[t + 1]),
{
    let n = g.len();
    lemma_kept_walk(g, removed, i, n);
    let w = kept_walk(g, removed, i, n);
    let names = Seq::new(w.len(), |t: int| g[w[t]].0);
    let keys = group_keys(g);
    assert forall|t: int| 0 <= t < names.len() implies keys.contains(#[trigger] names[t]) by {
        assert(keys[w[t]] == names[t]);
    }
    assert forall|t: int| 0 <= t < names.len() - 1 implies #[trigger] edge(g, names[t], names[t + 1]) by {
        assert(edge(g, g[w[t]].0, g[w[t + 1]].0));
    }
    names
}

/// Where resources remain and each depends on another that remains, there is a cycle.
proof fn lemma_cyclic(g: Groups<DepModel>, removed: Seq<bool>, i: int)
    requires
        distinct_keys(g),
        removed.len() == g.len(),
        0 <= i < g.len(),
        !removed[i],
        forall|a: int| 0 <= a < g.len() && !removed[a] ==> exists|b: int| 0 <= b < g.len() && !removed[b] && #[trigger] edge(g, g[a].0, g[b].0),
    ensures
        cyclic(g),
{
    let names = lemma_walk_names(g, removed, i);
    let (a, b) = lemma_pigeonhole(names, group_keys(g));
    if a < b {
        lemma_cycle_from_repeat(g, names, a, b);
    } else {
        lemma_cycle_from_repeat(g, names, b, a);
    }
}

impl DependencyGraph {
    /// Whether a resource's dependencies that have entries were all removed.
    fn removable(&self, k: usize, removed: &Vec<bool>) -> (r: bool)
        requires
            k < self.edges.len(),
            removed.len() == self.edges.len(),
            distinct_keys(self.edges_model()),
        ensures
            r == forall|j: int| 0 <= j < self.edges.len() && #[trigger] edge(self.edges_model(), self.edges_model()[k as int].0, self.edges_model()[j].0) ==> removed@[j],
    {
        let ghost g = self.edges_model();
        let ghost me = g[k as int].0;
        proof {
            lemma_group_get_at(g, me, k as int);
        }
        let deps = &self.edges[k].1;
        let mut d: usize = 0;
        while d < deps.len()
            invariant
                d <= deps.len(),
                g == self.edges_model(),
                me == g[k as int].0,
                deps == self.edges@[k as int].1,
                group_get(g, me) == Some(deps_model(deps@)),
                removed.len() == self.edges.len(),
                distinct_keys(g),
                forall|j: int| 0 <= j < self.edges.len() && (exists|e: int| 0 <= e < d && #[trigger] deps@[e].target@ == g[j].0) ==> removed@[j],
            decreases deps.len() - d,
        {
            match group_index(&self.edges, deps[d].target.as_str()) {
                Some(j) => {
                    if !removed[j] {
                        proof {
                            assert(successors(g, me)[d as int] == g[j as int].0);
                            assert(edge(g, me, g[j as int].0));
                        }
                        return false;
                    }
                    proof {
                        assert forall|j2: int| 0 <= j2 < self.edges.len() && (exists|e: int| 0 <= e < d + 1 && #[trigger] deps@[e].target@ == g[j2].0) implies removed@[j2] by {
                            let e = choose|e: int| 0 <= e < d + 1 && deps@[e].target@ == g[j2].0;
                            if e == d {
                                assert(g[j2].0 == g[j as int].0);
                                assert(j2 == j);
                            }
                        }
                    }
                },
                None => {
                    proof {
                        assert forall|j2: int| 0 <= j2 < self.edges.len() && (exists|e: int| 0 <= e < d + 1 && #[trigger] deps@[e].target@ == g[j2].0) implies removed@[j2] by {
                            let e = choose|e: int| 0 <= e < d + 1 && deps@[e].target@ == g[j2].0;
                            if e == d {
                                assert(self.edges@[j2].0@ == g[j2].0);
                            }
                        }
                    }
                },
            }
            d += 1;
        }
        proof {
            assert forall|j: int| 0 <= j < self.edges.len() && #[trigger] edge(g, me, g[j].0) implies removed@[j] by {
                let e = choose|e: int| 0 <= e < successors(g, me).len() && successors(g, me)[e] == g[j].0;
                assert(deps@[e].target@ == g[j].0);
            }
        }
        true
    }

    /// Check if the graph has any cycles
    pub fn has_cycle(&self) -> (r: bool)
        requires
            self.wf(),
        ensures
            r == cyclic(self.edges_model()),
    {
        let ghost g = self.edges_model();
        let n = self.edges.len();
        let mut removed: Vec<bool> = Vec::new();
        let mut i: usize = 0;
        while i < n
            invariant
                i <= n,
                removed.len() == i,
                forall|t: int| 0 <= t < i ==> !removed@[t],
            decreases n - i,
        {
            removed.push(false);
            i += 1;
        }
        let ghost mut rank: Seq<int> = Seq::new(n as nat, |t: int| 0);
        let ghost mut step: int = 0;
        loop
            invariant
                n == self.edges.len(),
                g == self.edges_model(),
                self.wf(),
                removed.len() == n,
                ranked(g, removed@, rank),
                forall|t: int| 0 <= t < n && removed@[t] ==> rank[t] < step,
            decreases num_false(removed@),
        {
            let mut k: usize = 0;
            let mut found: bool = false;
            while k < n && !found
                invariant
                    k <= n,
                    n == self.edges.len(),
                    g == self.edges_model(),
                    self.wf(),
                    removed.len() == n,
                    found ==> k < n && !removed@[k as int],
                    forall|t: int| 0 <= t < k ==> removed@[t] || exists|j: int| 0 <= j < n && !removed@[j] && #[trigger] edge(g, g[t].0, g[j].0),
                    found ==> forall|j: int| 0 <= j < n && #[trigger] edge(g, g[k as int].0, g[j].0) ==> removed@[j],
                decreases n - k, if found { 0int } else { 1int },
            {
                if !removed[k] && self.removable(k, &removed) {
                    found = true;
                } else {
                    proof {
                        if !removed@[k as int] {
                            assert(exists|j: int| 0 <= j < n && !removed@[j] && #[trigger] edge(g, g[k as int].0, g[j].0));
                        }
                    }
                    k += 1;
                }
            }
            if !found {
                // No resource can go: the remaining ones, if any, form cycles.
                let mut t: usize = 0;
                while t < n
                    invariant
                        t <= n,
                        n == self.edges.len(),
                        g == self.edges_model(),
                        self.wf(),
                        removed.len() == n,
                        ranked(g, removed@, rank),
                        forall|u: int| 0 <= u < t ==> removed@[u],
                        forall|u: int| 0 <= u < n ==> removed@[u] || exists|j: int| 0 <= j < n && !removed@[j] && #[trigger] edge(g, g[u].0, g[j].0),
                    decreases n - t,
                {
                    if !removed[t] {
                        proof {
                            lemma_cyclic(g, removed@, t as int);
                        }
                        return true;
                    }
                    t += 1;
                }
                proof {
                    lemma_acyclic(g, removed@, rank);
                }
                return false;
            }
            let ghost before = removed@;
            proof {
                lemma_num_false_update(before, k as int);
            }
            removed.set(k, true);
            proof {
                rank = rank.update(k as int, step);
                step = step + 1;
                assert forall|a: int, b: int|
                    0 <= a < g.len() && 0 <= b < g.len() && removed@[a] && #[trigger] edge(g, g[a].0, g[b].0)
                        implies removed@[b] && rank[b] < rank[a] by {
                    if a == k {
                        assert(before[b]);
                    }
                }
            }
        }
    }
}


// ---------------------------------------------------------------------------
// Typed dependencies
// ---------------------------------------------------------------------------

/// Typed dependency representing a reference from one resource to another
#[derive(Debug, Clone)]
pub struct TypedDependency {
    /// Target binding name (e.g., "vpc", "input")
    pub target: String,
    /// Target resource type (if known)
    pub target_type: Option<ResourceTypePath>,
    /// Attribute being referenced (e.g., "id")
    pub attribute: String,
    /// Where this reference is used (e.g., "vpc_id")
    pub used_in: String,
}

/// The mathematical content of a typed dependency.
pub type TypedDepModel = (Seq<char>, Option<(Seq<char>, Seq<char>)>, Seq<char>, Seq<char>);

impl View for TypedDependency {
    type V = TypedDepModel;

    open spec fn view(&self) -> TypedDepModel {
        (self.target@, opt_path_view(self.target_type), self.attribute@, self.used_in@)
    }
}

/// The models of a list of typed dependencies.
pub open spec fn typed_deps_model(d: Seq<TypedDependency>) -> Seq<TypedDepModel> {
    Seq::new(d.len(), |j: int| d[j]@)
}

/// Typed dependency graph with resource type information
#[derive(Debug, Clone)]
pub struct TypedDependencyGraph {
    /// Resource binding name -> list of typed dependencies
    pub edges: Vec<(String, Vec<TypedDependency>)>,
}

impl TypedDependencyGraph {
    /// Each resource with its typed dependencies.
    pub open spec fn edges_model(&self) -> Groups<TypedDepModel> {
        Seq::new(self.edges.len() as nat, |i: int| (self.edges@[i].0@, typed_deps_model(self.edges@[i].1@)))
    }

    /// No resource is listed twice.
    pub open spec fn wf(&self) -> bool {
        distinct_keys(self.edges_model())
    }

    /// Create a new empty typed dependency graph
    pub fn new() -> (r: Self)
        ensures
            r.edges_model() == Seq::<(Seq<char>, Seq<TypedDepModel>)>::empty(),
            r.wf(),
    {
        let r = TypedDependencyGraph { edges: Vec::new() };
        proof {
            assert(r.edges_model() =~= Seq::<(Seq<char>, Seq<TypedDepModel>)>::empty());
        }
        r
    }

    /// Add a typed dependency edge
    pub fn add_edge(&mut self, from: String, dependency: TypedDependency)
        requires
            old(self).wf(),
        ensures
            final(self).wf(),
            final(self).edges_model() == group_add(old(self).edges_model(), from@, dependency@),
    {
        let ghost g0 = self.edges_model();
        let ghost xm = dependency@;
        match group_index(&self.edges, from.as_str()) {
            Some(i) => {
                let (n, mut items) = self.edges.remove(i);
                let ghost old_items = typed_deps_model(items@);
                items.push(dependency);
                proof {
                    assert(typed_deps_model(items@) =~= old_items.push(xm));
                }
                self.edges.insert(i, (n, items));
                proof {
                    assert forall|j: int| 0 <= j < i implies g0[j].0 != from@ by {}
                    lemma_group_add_at(g0, from@, xm, i as int);
                    assert(self.edges_model() =~= g0.update(i as int, (from@, g0[i as int].1.push(xm))));
                }
            },
            None => {
                let mut items = Vec::new();
                items.push(dependency);
                self.edges.push((from, items));
                proof {
                    assert forall|j: int| 0 <= j < g0.len() implies g0[j].0 != from@ by {}
                    lemma_group_add_new(g0, from@, xm);
                    assert(typed_deps_model(self.edges@[self.edges@.len() - 1].1@) =~= seq![xm]);
                    assert(self.edges_model() =~= g0.push((from@, seq![xm])));
                }
            },
        }
    }

    /// Get dependencies for a resource
    pub fn dependencies_of(&self, resource: &str) -> (r: &[TypedDependency])
        ensures
            typed_deps_model(r@) == (match group_get(self.edges_model(), resource@) {
                Some(d) => d,
                None => seq![],
            }),
    {
        match group_index(&self.edges, resource) {
            Some(i) => {
                proof {
                    lemma_group_get_at(self.edges_model(), resource@, i as int);
                }
                self.edges[i].1.as_slice()
            },
            None => {
                proof {
                    lemma_group_get_none(self.edges_model(), resource@);
                }
                let e: &[TypedDependency] = &[];
                proof {
                    assert(typed_deps_model(e@) =~= seq![]);
                }
                e
            },
        }
    }
}

} // verus!
