//! The in-memory graph of units and its serialization into a document with
//! a canonical order of units.
use crate::order::{clone_opt_string, clone_strings, opt_text};
use crate::serialized::{
    indices_valid, SerializedUnit, SerializedUnitDep, SerializedUnitDepView, SerializedUnitGraph,
    SerializedUnitGraphView, SerializedUnitView, VERSION,
};
use crate::unit::{cmp_units, lemma_unit_order, same_unit, unit_lt, Unit, UnitDep, UnitDepView, UnitView};
use core::cmp::Ordering;
use vstd::prelude::*;

verus! {

/// A unit with its outgoing edges, as plain values.
pub type EntryView = (UnitView, Seq<UnitDepView>);

/// Each unit with its ordered list of outgoing edges.
#[derive(Debug, Clone, PartialEq, Eq)]
pub struct UnitGraph {
    pub entries: Vec<(Unit, Vec<UnitDep>)>,
}

pub open spec fn entry_view(e: (Unit, Vec<UnitDep>)) -> EntryView {
    (e.0@, e.1@.map_values(|d: UnitDep| d@))
}

impl View for UnitGraph {
    type V = Seq<EntryView>;

    open spec fn view(&self) -> Seq<EntryView> {
        self.entries@.map_values(|e: (Unit, Vec<UnitDep>)| entry_view(e))
    }
}

pub open spec fn has_unit(g: Seq<EntryView>, u: UnitView) -> bool {
    exists|j: int| 0 <= j < g.len() && #[trigger] g[j].0 == u
}

/// No unit stands twice, and every edge leads to a unit of the graph.
pub open spec fn graph_wf(g: Seq<EntryView>) -> bool {
    &&& forall|i: int, j: int| 0 <= i < j < g.len() ==> g[i].0 != g[j].0
    &&& forall|i: int, k: int|
        0 <= i < g.len() && 0 <= k < g[i].1.len() ==> has_unit(g, #[trigger] g[i].1[k].unit)
}

/// What the serializer needs to know beyond the graph.
#[derive(Debug, Clone, PartialEq, Eq)]
pub struct EmitContext {
    /// Whether the opt-in fields `public` and `noprelude` are written.
    pub nightly_features_allowed: bool,
    /// Extra compiler arguments of some units.
    pub extra_compiler_args: Vec<(Unit, Vec<String>)>,
}

pub struct EmitContextView {
    pub nightly_features_allowed: bool,
    pub extra_compiler_args: Seq<(UnitView, Seq<Seq<char>>)>,
}

impl View for EmitContext {
    type V = EmitContextView;

    open spec fn view(&self) -> EmitContextView {
        EmitContextView {
            nightly_features_allowed: self.nightly_features_allowed,
            extra_compiler_args: self.extra_compiler_args@.map_values(
                |e: (Unit, Vec<String>)| (e.0@, e.1.deep_view()),
            ),
        }
    }
}

/// The extra arguments of the first entry for `u`, none where there is none.
pub open spec fn extra_args_for(extra: Seq<(UnitView, Seq<Seq<char>>)>, u: UnitView) -> Seq<Seq<char>>
    decreases extra.len(),
{
    if extra.len() == 0 {
        Seq::empty()
    } else if extra[0].0 == u {
        extra[0].1
    } else {
        extra_args_for(extra.drop_first(), u)
    }
}

pub open spec fn sorted_by_unit(s: Seq<EntryView>) -> bool {
    forall|i: int, j: int| 0 <= i < j < s.len() ==> unit_lt(s[i].0, s[j].0)
}

/// `s` holds exactly the entries of the set, in increasing order of units.
pub open spec fn is_canonical(s: Seq<EntryView>, entries: Set<EntryView>) -> bool {
    sorted_by_unit(s) && s.to_set() == entries
}

/// The entries of a graph in the order of their units.
pub open spec fn canonical_order(entries: Set<EntryView>) -> Seq<EntryView> {
    choose|s: Seq<EntryView>| is_canonical(s, entries)
}

/// Where `u` stands in `order`.
pub open spec fn position(order: Seq<EntryView>, u: UnitView) -> usize {
    choose|i: usize| i < order.len() && order[i as int].0 == u
}

pub open spec fn serialize_dep(order: Seq<EntryView>, nightly: bool, d: UnitDepView) -> SerializedUnitDepView {
    SerializedUnitDepView {
        index: position(order, d.unit),
        extern_crate_name: d.extern_crate_name,
        public: if nightly {
            Some(d.public)
        } else {
            None
        },
        noprelude: if nightly {
            Some(d.noprelude)
        } else {
            None
        },
        dep_name: d.dep_name,
        unit_for: d.unit_for,
    }
}

pub open spec fn serialize_entry(order: Seq<EntryView>, ctx: EmitContextView, e: EntryView) -> SerializedUnitView {
    SerializedUnitView {
        attrs: e.0,
        extra_compiler_args: extra_args_for(ctx.extra_compiler_args, e.0),
        dependencies: e.1.map_values(
            |d: UnitDepView| serialize_dep(order, ctx.nightly_features_allowed, d),
        ),
    }
}

/// The document written for a graph with the given entries and roots.
pub open spec fn emitted(
    roots: Seq<UnitView>,
    entries: Set<EntryView>,
    ctx: EmitContextView,
) -> SerializedUnitGraphView {
    let order = canonical_order(entries);
    SerializedUnitGraphView {
        version: VERSION,
        units: order.map_values(|e: EntryView| serialize_entry(order, ctx, e)),
        roots: roots.map_values(|u: UnitView| position(order, u)),
    }
}

/// Either every edge carries `public` and `noprelude`, or none does.
pub open spec fn opt_in_fields_uniform(d: SerializedUnitGraphView, on: bool) -> bool {
    forall|i: int, m: int|
        0 <= i < d.units.len() && 0 <= m < d.units[i].dependencies.len() ==> {
            &&& (#[trigger] d.units[i].dependencies[m]).public is Some <==> on
            &&& d.units[i].dependencies[m].noprelude is Some <==> on
        }
}

/// Two sequences in increasing order of units that hold the same entries are
/// the same sequence.
pub proof fn lemma_sorted_unique(s1: Seq<EntryView>, s2: Seq<EntryView>)
    requires
        sorted_by_unit(s1),
        sorted_by_unit(s2),
        forall|x: EntryView| s1.contains(x) <==> s2.contains(x),
    ensures
        s1 == s2,
    decreases s1.len(),
{
    if s1.len() == 0 {
        if s2.len() > 0 {
            assert(s2.contains(s2[0]));
        }
        assert(s1 =~= s2);
    } else {
        assert(s1.contains(s1[0]));
        let j = choose|j: int| 0 <= j < s2.len() && s2[j] == s1[0];
        assert(s2.contains(s2[0]));
        let i = choose|i: int| 0 <= i < s1.len() && s1[i] == s2[0];
        lemma_unit_order(s1[0].0, s1[0].0, s1[0].0);
        if j > 0 {
            lemma_unit_order(s2[0].0, s1[0].0, s2[0].0);
            assert(unit_lt(s2[0].0, s2[j].0));
            if i > 0 {
                assert(unit_lt(s1[0].0, s1[i].0));
            }
        }
        assert(s1[0] == s2[0]);
        let t1 = s1.drop_first();
        let t2 = s2.drop_first();
        assert forall|x: EntryView| t1.contains(x) <==> t2.contains(x) by {
            if t1.contains(x) {
                let a = choose|a: int| 0 <= a < t1.len() && t1[a] == x;
                assert(s1[a + 1] == x);
                assert(s1.contains(x));
                assert(unit_lt(s1[0].0, s1[a + 1].0));
                let b = choose|b: int| 0 <= b < s2.len() && s2[b] == x;
                if b == 0 {
                    lemma_unit_order(x.0, x.0, x.0);
                }
                assert(t2[b - 1] == x);
            }
            if t2.contains(x) {
                let a = choose|a: int| 0 <= a < t2.len() && t2[a] == x;
                assert(s2[a + 1] == x);
                assert(s2.contains(x));
                assert(unit_lt(s2[0].0, s2[a + 1].0));
                let b = choose|b: int| 0 <= b < s1.len() && s1[b] == x;
                if b == 0 {
                    lemma_unit_order(x.0, x.0, x.0);
                }
                assert(t1[b - 1] == x);
            }
        }
        lemma_sorted_unique(t1, t2);
        assert(s1 =~= seq![s1[0]] + t1);
        assert(s2 =~= seq![s2[0]] + t2);
    }
}

/// In a sequence in increasing order of units, a unit stands at one place only.
pub proof fn lemma_position(order: Seq<EntryView>, k: int)
    requires
        sorted_by_unit(order),
        0 <= k < order.len(),
        order.len() <= usize::MAX,
    ensures
        position(order, order[k].0) == k,
{
    let u = order[k].0;
    assert(k as usize as int == k);
    let p = position(order, u);
    assert(p < order.len() && order[p as int].0 == u);
    lemma_unit_order(u, u, u);
    if (p as int) < k {
        assert(unit_lt(order[p as int].0, order[k].0));
    } else if (p as int) > k {
        assert(unit_lt(order[k].0, order[p as int].0));
    }
}

/// Before `p` every unit of `s` is below `u`, from `p` on every one is above.
pub open spec fn is_insert_point(s: Seq<EntryView>, u: UnitView, p: int) -> bool {
    &&& 0 <= p <= s.len()
    &&& forall|q: int| 0 <= q < p ==> unit_lt(#[trigger] s[q].0, u)
    &&& forall|q: int| p <= q < s.len() ==> unit_lt(u, #[trigger] s[q].0)
}

/// In a sorted sequence of other units there is a place for `u`.
proof fn lemma_insert_point(s: Seq<EntryView>, u: UnitView)
    requires
        sorted_by_unit(s),
        forall|k: int| 0 <= k < s.len() ==> (#[trigger] s[k]).0 != u,
    ensures
        exists|p: int| #[trigger] is_insert_point(s, u, p),
    decreases s.len(),
{
    if s.len() == 0 {
        assert(is_insert_point(s, u, 0));
    } else {
        let t = s.drop_last();
        assert forall|k: int| 0 <= k < t.len() implies (#[trigger] t[k]).0 != u by {
            assert(t[k] == s[k]);
        }
        lemma_insert_point(t, u);
        let prev = choose|p: int| #[trigger] is_insert_point(t, u, p);
        let last = s[s.len() - 1].0;
        lemma_unit_order(last, u, last);
        lemma_unit_order(u, last, u);
        if unit_lt(last, u) {
            if prev < t.len() {
                assert(unit_lt(u, t[prev].0));
                assert(unit_lt(s[prev].0, last));
                lemma_unit_order(u, s[prev].0, last);
            }
            assert forall|q: int| 0 <= q < s.len() implies unit_lt(#[trigger] s[q].0, u) by {
                if q < t.len() {
                    assert(t[q] == s[q]);
                }
            }
            assert(is_insert_point(s, u, s.len() as int));
        } else {
            assert(unit_lt(u, last));
            assert forall|q: int| 0 <= q < prev implies unit_lt(#[trigger] s[q].0, u) by {
                assert(t[q] == s[q]);
            }
            assert forall|q: int| prev <= q < s.len() implies unit_lt(u, #[trigger] s[q].0) by {
                if q < t.len() {
                    assert(t[q] == s[q]);
                }
            }
            assert(is_insert_point(s, u, prev));
        }
    }
}

/// Every graph whose units are distinct has a canonical order.
pub proof fn lemma_canonical_exists(g: Seq<EntryView>)
    requires
        forall|i: int, j: int| 0 <= i < j < g.len() ==> g[i].0 != g[j].0,
    ensures
        is_canonical(canonical_order(g.to_set()), g.to_set()),
    decreases g.len(),
{
    if g.len() == 0 {
        let s = Seq::<EntryView>::empty();
        assert(s.to_set() =~= g.to_set());
        assert(is_canonical(s, g.to_set()));
    } else {
        let t = g.drop_last();
        let e = g[g.len() - 1];
        assert forall|i: int, j: int| 0 <= i < j < t.len() implies t[i].0 != t[j].0 by {
            assert(t[i] == g[i] && t[j] == g[j]);
        }
        lemma_canonical_exists(t);
        let s0 = canonical_order(t.to_set());
        assert forall|k: int| 0 <= k < s0.len() implies (#[trigger] s0[k]).0 != e.0 by {
            assert(s0.to_set().contains(s0[k]));
            assert(t.to_set().contains(s0[k]));
            let j = choose|j: int| 0 <= j < t.len() && t[j] == s0[k];
            assert(g[j] == t[j]);
        }
        lemma_insert_point(s0, e.0);
        let p = choose|p: int| #[trigger] is_insert_point(s0, e.0, p);
        lemma_insert_sorted(s0, p, e);
        let s = s0.insert(p, e);
        assert forall|x: EntryView| s.contains(x) <==> g.contains(x) by {
            if s.contains(x) {
                let k = choose|k: int| 0 <= k < s.len() && s[k] == x;
                if k < p {
                    assert(s0[k] == x);
                    assert(s0.to_set().contains(x));
                } else if k > p {
                    assert(s0[k - 1] == x);
                    assert(s0.to_set().contains(x));
                } else {
                    assert(g[g.len() - 1] == x);
                }
                if x != e {
                    assert(t.to_set().contains(x));
                    let j = choose|j: int| 0 <= j < t.len() && t[j] == x;
                    assert(g[j] == x);
                }
            }
            if g.contains(x) {
                let j = choose|j: int| 0 <= j < g.len() && g[j] == x;
                if j == g.len() - 1 {
                    assert(s[p] == x);
                } else {
                    assert(t[j] == x);
                    assert(t.to_set().contains(x));
                    assert(s0.to_set().contains(x));
                    let k = choose|k: int| 0 <= k < s0.len() && s0[k] == x;
                    if k < p {
                        assert(s[k] == x);
                    } else {
                        assert(s[k + 1] == x);
                    }
                }
            }
        }
        assert(s.to_set() =~= g.to_set());
        assert(is_canonical(s, g.to_set()));
    }
}

/// The entries of `g` in the order that `order` gives by their indices.
pub open spec fn arranged(g: Seq<EntryView>, order: Seq<usize>) -> Seq<EntryView> {
    order.map_values(|i: usize| g[i as int])
}

pub open spec fn order_ok(g: Seq<EntryView>, order: Seq<usize>) -> bool {
    &&& forall|k: int| 0 <= k < order.len() ==> order[k] < g.len()
    &&& sorted_by_unit(arranged(g, order))
}

proof fn lemma_insert_sorted(a0: Seq<EntryView>, p: int, e: EntryView)
    requires
        sorted_by_unit(a0),
        0 <= p <= a0.len(),
        forall|q: int| 0 <= q < p ==> unit_lt(#[trigger] a0[q].0, e.0),
        forall|q: int| p <= q < a0.len() ==> unit_lt(e.0, #[trigger] a0[q].0),
    ensures
        sorted_by_unit(a0.insert(p, e)),
{
    let a = a0.insert(p, e);
    assert forall|q: int, r: int| 0 <= q < r < a.len() implies unit_lt(a[q].0, a[r].0) by {
        if q < p && r > p {
            lemma_unit_order(a[q].0, e.0, a[r].0);
        }
    }
}

/// Where the entry `i` goes among the sorted entries of `order`.
fn insertion_point(graph: &UnitGraph, order: &Vec<usize>, i: usize) -> (p: usize)
    requires
        graph_wf(graph@),
        i < graph@.len(),
        order_ok(graph@, order@),
        forall|k: int| 0 <= k < order@.len() ==> order@[k] < i,
    ensures
        p <= order@.len(),
        forall|q: int| 0 <= q < p ==> unit_lt(#[trigger] arranged(graph@, order@)[q].0, graph@[i as int].0),
        forall|q: int| p <= q < order@.len() ==> unit_lt(graph@[i as int].0, #[trigger] arranged(graph@, order@)[q].0),
{
    let ghost g = graph@;
    let ghost a = arranged(g, order@);
    let ghost x = g[i as int].0;
    let mut p: usize = 0;
    while p < order.len()
        invariant
            g == graph@,
            a == arranged(g, order@),
            x == g[i as int].0,
            i < g.len(),
            order_ok(g, order@),
            graph_wf(g),
            forall|k: int| 0 <= k < order@.len() ==> order@[k] < i,
            p <= order@.len(),
            forall|q: int| 0 <= q < p ==> unit_lt(#[trigger] a[q].0, x),
        decreases order@.len() - p,
    {
        assert(graph.entries@[order@[p as int] as int].0@ == a[p as int].0);
        assert(graph.entries@[i as int].0@ == x);
        let o = cmp_units(&graph.entries[order[p]].0, &graph.entries[i].0);
        if let Ordering::Less = o {
            p = p + 1;
        } else {
            proof {
                let y = a[p as int].0;
                lemma_unit_order(y, x, x);
                lemma_unit_order(x, y, x);
                assert(order@[p as int] < i);
                assert(g[order@[p as int] as int].0 != g[i as int].0);
                assert forall|q: int| p <= q < order@.len() implies unit_lt(x, #[trigger] a[q].0) by {
                    if q > p {
                        lemma_unit_order(x, y, a[q].0);
                    }
                }
            }
            return p;
        }
    }
    p
}

/// Sorts the indices of the graph's entries by the order of their units.
fn sort_entries(graph: &UnitGraph) -> (order: Vec<usize>)
    requires
        graph_wf(graph@),
    ensures
        order_ok(graph@, order@),
        order@.len() == graph@.len(),
        forall|j: usize| j < graph@.len() ==> order@.contains(j),
{
    let ghost g = graph@;
    let mut order: Vec<usize> = Vec::new();
    let mut i: usize = 0;
    while i < graph.entries.len()
        invariant
            g == graph@,
            graph_wf(g),
            i <= g.len(),
            g.len() == graph.entries@.len(),
            order_ok(g, order@),
            order@.len() == i,
            forall|k: int| 0 <= k < order@.len() ==> order@[k] < i,
            forall|j: usize| j < i ==> order@.contains(j),
        decreases graph.entries.len() - i,
    {
        let p = insertion_point(graph, &order, i);
        let ghost old_order = order@;
        order.insert(p, i);
        proof {
            let a0 = arranged(g, old_order);
            lemma_insert_sorted(a0, p as int, g[i as int]);
            assert(arranged(g, order@) =~= a0.insert(p as int, g[i as int]));
            assert forall|j: usize| j <= i implies order@.contains(j) by {
                if j == i {
                    assert(order@[p as int] == j);
                } else {
                    assert(old_order.contains(j));
                    let k = choose|k: int| 0 <= k < old_order.len() && old_order[k] == j;
                    if k < p {
                        assert(order@[k] == j);
                    } else {
                        assert(order@[k + 1] == j);
                    }
                }
            }
        }
        i = i + 1;
    }
    order
}

/// Where the entry of `u` stands among the sorted entries.
fn find_position(graph: &UnitGraph, order: &Vec<usize>, u: &Unit) -> (r: usize)
    requires
        order_ok(graph@, order@),
        forall|j: usize| j < graph@.len() ==> order@.contains(j),
        has_unit(graph@, u@),
    ensures
        r < order@.len(),
        arranged(graph@, order@)[r as int].0 == u@,
{
    let ghost g = graph@;
    let ghost a = arranged(g, order@);
    let n = graph.entries.len();
    let mut k: usize = 0;
    while k < order.len()
        invariant
            g == graph@,
            a == arranged(g, order@),
            order_ok(g, order@),
            forall|j: usize| j < g.len() ==> order@.contains(j),
            has_unit(g, u@),
            k <= order@.len(),
            forall|q: int| 0 <= q < k ==> (#[trigger] a[q]).0 != u@,
        decreases order@.len() - k,
    {
        assert(graph.entries@[order@[k as int] as int].0@ == a[k as int].0);
        if same_unit(&graph.entries[order[k]].0, u) {
            return k;
        }
        k = k + 1;
    }
    proof {
        let j = choose|j: int| 0 <= j < g.len() && #[trigger] g[j].0 == u@;
        assert(g.len() == n);
        assert(order@.contains(j as usize));
        let q = choose|q: int| 0 <= q < order@.len() && order@[q] == j as usize;
        assert(a[q] == g[order@[q] as int]);
        assert(a[q].0 == u@);
    }
    0
}

/// The extra compiler arguments that the context holds for `u`.
fn extra_args(ctx: &EmitContext, u: &Unit) -> (r: Vec<String>)
    ensures
        r.deep_view() == extra_args_for(ctx@.extra_compiler_args, u@),
{
    let ghost e = ctx@.extra_compiler_args;
    let mut i: usize = 0;
    assert(e.skip(0) =~= e);
    while i < ctx.extra_compiler_args.len()
        invariant
            e == ctx@.extra_compiler_args,
            i <= e.len(),
            e.len() == ctx.extra_compiler_args@.len(),
            extra_args_for(e, u@) == extra_args_for(e.skip(i as int), u@),
        decreases e.len() - i,
    {
        assert(e.skip(i as int).drop_first() =~= e.skip(i + 1));
        assert(e.skip(i as int)[0] == e[i as int]);
        if same_unit(&ctx.extra_compiler_args[i].0, u) {
            return clone_strings(&ctx.extra_compiler_args[i].1);
        }
        i = i + 1;
    }
    Vec::new()
}

/// The document entry of the `k`-th unit in sorted order.
fn serialize_unit(graph: &UnitGraph, order: &Vec<usize>, k: usize, ctx: &EmitContext) -> (r: SerializedUnit)
    requires
        graph_wf(graph@),
        order_ok(graph@, order@),
        forall|j: usize| j < graph@.len() ==> order@.contains(j),
        k < order@.len(),
        order@.len() == graph@.len(),
    ensures
        r@ == serialize_entry(arranged(graph@, order@), ctx@, arranged(graph@, order@)[k as int]),
{
    let ghost g = graph@;
    let ghost a = arranged(g, order@);
    let entry = &graph.entries[order[k]];
    assert(entry_view(*entry) == a[k as int]);
    let unit = &entry.0;
    let deps = &entry.1;
    let ghost dv = a[k as int].1;
    let n = graph.entries.len();
    proof {
        assert(a[k as int] == g[order@[k as int] as int]);
        assert forall|q: int| 0 <= q < dv.len() implies has_unit(g, #[trigger] dv[q].unit) by {
            assert(dv[q] == g[order@[k as int] as int].1[q]);
        }
    }
    let mut dependencies: Vec<SerializedUnitDep> = Vec::new();
    let mut m: usize = 0;
    while m < deps.len()
        invariant
            g == graph@,
            a == arranged(g, order@),
            graph_wf(g),
            order_ok(g, order@),
            forall|j: usize| j < g.len() ==> order@.contains(j),
            order@.len() == g.len(),
            g.len() == n,
            dv == deps@.map_values(|d: UnitDep| d@),
            forall|q: int| 0 <= q < dv.len() ==> has_unit(g, #[trigger] dv[q].unit),
            m <= deps@.len(),
            dependencies@.map_values(|d: SerializedUnitDep| d@) =~= dv.take(m as int).map_values(
                |d: UnitDepView| serialize_dep(a, ctx.nightly_features_allowed, d),
            ),
        decreases deps@.len() - m,
    {
        let dep = &deps[m];
        assert(dv[m as int] == dep@);
        let index = find_position(graph, order, &dep.unit);
        proof {
            lemma_position(a, index as int);
        }
        let (public, noprelude) = if ctx.nightly_features_allowed {
            (Some(dep.public), Some(dep.noprelude))
        } else {
            (None, None)
        };
        let sd = SerializedUnitDep {
            index,
            extern_crate_name: dep.extern_crate_name.clone(),
            public,
            noprelude,
            dep_name: clone_opt_string(&dep.dep_name),
            unit_for: dep.unit_for.clone(),
        };
        assert(sd@ == serialize_dep(a, ctx.nightly_features_allowed, dv[m as int]));
        let ghost before = dependencies@;
        dependencies.push(sd);
        assert(dependencies@ == before.push(sd));
        assert(dependencies@.map_values(|d: SerializedUnitDep| d@) =~= before.map_values(
            |d: SerializedUnitDep| d@,
        ).push(sd@));
        assert(dv.take(m + 1) =~= dv.take(m as int).push(dv[m as int]));
        m = m + 1;
    }
    assert(dv.take(deps@.len() as int) =~= dv);
    let extra_compiler_args = extra_args(ctx, unit);
    SerializedUnit {
        pkg_id: unit.pkg_id.clone(),
        target: unit.target.clone(),
        profile: unit.profile.clone(),
        platform: unit.platform.clone(),
        mode: unit.mode.clone(),
        features: clone_strings(&unit.features),
        rustflags: clone_strings(&unit.rustflags),
        rustdocflags: clone_strings(&unit.rustdocflags),
        is_std: unit.is_std,
        dep_hash: unit.dep_hash,
        artifact: unit.artifact,
        artifact_target_for_features: clone_opt_string(&unit.artifact_target_for_features),
        extra_compiler_args,
        skip_freshness_check: unit.skip_freshness_check,
        dependencies,
    }
}

pub open spec fn units_view(s: Seq<Unit>) -> Seq<UnitView> {
    s.map_values(|u: Unit| u@)
}

/// The sorted entries are the canonical order of the graph's entries.
proof fn lemma_arranged_canonical(g: Seq<EntryView>, order: Seq<usize>)
    requires
        order_ok(g, order),
        forall|j: usize| j < g.len() ==> order.contains(j),
        g.len() <= usize::MAX,
    ensures
        canonical_order(g.to_set()) == arranged(g, order),
{
    let a = arranged(g, order);
    assert forall|x: EntryView| a.contains(x) <==> g.contains(x) by {
        if a.contains(x) {
            let q = choose|q: int| 0 <= q < a.len() && a[q] == x;
            assert(g[order[q] as int] == x);
        }
        if g.contains(x) {
            let j = choose|j: int| 0 <= j < g.len() && g[j] == x;
            assert(order.contains(j as usize));
            let q = choose|q: int| 0 <= q < order.len() && order[q] == j as usize;
            assert(a[q] == x);
        }
    }
    assert(a.to_set() =~= g.to_set());
    assert(is_canonical(a, g.to_set()));
    let c = canonical_order(g.to_set());
    assert(is_canonical(c, g.to_set()));
    assert forall|x: EntryView| c.contains(x) <==> a.contains(x) by {
        assert(c.to_set().contains(x) == a.to_set().contains(x));
    }
    lemma_sorted_unique(c, a);
}

/// Builds the document of a graph: its units in increasing order, each edge
/// and each root given by the position of its unit, the opt-in fields of the
/// edges written only where the context asks for them.
pub fn emit_serialized_unit_graph(
    root_units: &Vec<Unit>,
    unit_graph: &UnitGraph,
    ctx: &EmitContext,
) -> (r: SerializedUnitGraph)
    requires
        graph_wf(unit_graph@),
        forall|i: int| 0 <= i < root_units@.len() ==> has_unit(unit_graph@, #[trigger] root_units@[i]@),
    ensures
        r@ == emitted(units_view(root_units@), unit_graph@.to_set(), ctx@),
        r@.units.len() == unit_graph@.len(),
        indices_valid(r@),
        opt_in_fields_uniform(r@, ctx.nightly_features_allowed),
{
    let ghost g = unit_graph@;
    let order = sort_entries(unit_graph);
    let ghost a = arranged(g, order@);
    let n = unit_graph.entries.len();
    proof {
        lemma_arranged_canonical(g, order@);
    }
    let mut units: Vec<SerializedUnit> = Vec::new();
    let mut k: usize = 0;
    while k < order.len()
        invariant
            g == unit_graph@,
            a == arranged(g, order@),
            graph_wf(g),
            order_ok(g, order@),
            forall|j: usize| j < g.len() ==> order@.contains(j),
            order@.len() == g.len(),
            k <= order@.len(),
            units@.map_values(|u: SerializedUnit| u@) =~= a.take(k as int).map_values(
                |e: EntryView| serialize_entry(a, ctx@, e),
            ),
        decreases order@.len() - k,
    {
        let su = serialize_unit(unit_graph, &order, k, ctx);
        let ghost before = units@;
        units.push(su);
        assert(units@.map_values(|u: SerializedUnit| u@) =~= before.map_values(
            |u: SerializedUnit| u@,
        ).push(su@));
        assert(a.take(k + 1) =~= a.take(k as int).push(a[k as int]));
        k = k + 1;
    }
    assert(a.take(order@.len() as int) =~= a);
    let ghost rv = units_view(root_units@);
    let mut roots: Vec<usize> = Vec::new();
    let mut i: usize = 0;
    while i < root_units.len()
        invariant
            g == unit_graph@,
            a == arranged(g, order@),
            order_ok(g, order@),
            forall|j: usize| j < g.len() ==> order@.contains(j),
            order@.len() == g.len(),
            g.len() == n,
            rv == units_view(root_units@),
            forall|q: int| 0 <= q < root_units@.len() ==> has_unit(g, #[trigger] root_units@[q]@),
            i <= root_units@.len(),
            roots@ =~= rv.take(i as int).map_values(|u: UnitView| position(a, u)),
        decreases root_units@.len() - i,
    {
        let p = find_position(unit_graph, &order, &root_units[i]);
        proof {
            lemma_position(a, p as int);
        }
        roots.push(p);
        assert(rv.take(i + 1) =~= rv.take(i as int).push(rv[i as int]));
        i = i + 1;
    }
    assert(rv.take(root_units@.len() as int) =~= rv);
    let r = SerializedUnitGraph { version: VERSION, units, roots };
    proof {
        let uv = r@.units;
        assert(uv =~= a.map_values(|e: EntryView| serialize_entry(a, ctx@, e)));
        assert forall|i: int, m: int|
            0 <= i < uv.len() && 0 <= m < uv[i].dependencies.len() implies (#[trigger] uv[i].dependencies[m]).index
            < uv.len() by {
            assert(a[i] == g[order@[i] as int]);
            let u = a[i].1[m].unit;
            assert(uv[i].dependencies[m] == serialize_dep(a, ctx.nightly_features_allowed, a[i].1[m]));
            assert(has_unit(g, g[order@[i] as int].1[m].unit));
            let j = choose|j: int| 0 <= j < g.len() && #[trigger] g[j].0 == u;
            assert(order@.contains(j as usize));
            let q = choose|q: int| 0 <= q < order@.len() && order@[q] == j as usize;
            assert(a[q] == g[j]);
            lemma_position(a, q);
        }
        assert forall|k: int| 0 <= k < r@.roots.len() implies #[trigger] r@.roots[k] < uv.len() by {
            let u = root_units@[k]@;
            assert(has_unit(g, root_units@[k]@));
            let j = choose|j: int| 0 <= j < g.len() && #[trigger] g[j].0 == u;
            assert(order@.contains(j as usize));
            let q = choose|q: int| 0 <= q < order@.len() && order@[q] == j as usize;
            assert(a[q] == g[j]);
            lemma_position(a, q);
        }
    }
    r
}

} // verus!
