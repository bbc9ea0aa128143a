//! Properties that relate the serializer and the validator.
use crate::graph::{
    canonical_order, emitted, extra_args_for, graph_wf, has_unit, is_canonical, lemma_canonical_exists,
    lemma_position, position, serialize_entry, EmitContextView, EntryView,
};
use crate::serialized::{
    all_reachable, dep_edge, indices_valid, is_path, kept, lemma_kept_bounds, lemma_kept_order,
    lemma_valid_no_dangling, new_index, pruned, relabel_dep,
    reachable, relabel, SerializedUnitGraphView,
};
use crate::unit::{lemma_unit_order, unit_lt, UnitView};
use vstd::prelude::*;

verus! {

/// The document depends on the graph's entries and not on the order in which
/// they are listed: two graphs with the same entries, the same roots and the
/// same context give the same document.
pub proof fn lemma_emit_deterministic(
    roots: Seq<UnitView>,
    g1: Seq<EntryView>,
    g2: Seq<EntryView>,
    ctx: EmitContextView,
)
    requires
        g1.to_set() == g2.to_set(),
    ensures
        emitted(roots, g1.to_set(), ctx) == emitted(roots, g2.to_set(), ctx),
{
}

/// A dependency that points one past the last unit makes the document fail
/// validation, whether or not its unit is reachable from the roots.
pub proof fn lemma_dangling_rejected(d: SerializedUnitGraphView, u: int, m: int)
    requires
        0 <= u < d.units.len(),
        0 <= m < d.units[u].dependencies.len(),
        d.units[u].dependencies[m].index == d.units.len(),
    ensures
        !indices_valid(d),
{
    assert(d.units[u].dependencies[m].index >= d.units.len());
}

proof fn lemma_nothing_kept(d: SerializedUnitGraphView, m: int)
    requires
        d.roots.len() == 0,
    ensures
        kept(d, m).len() == 0,
    decreases m,
{
    if m > 0 {
        lemma_nothing_kept(d, m - 1);
        let i = (m - 1) as usize;
        if reachable(d, i) {
            let p = choose|p: Seq<usize>| is_path(d, p) && p.last() == i;
            assert(d.roots.contains(p[0]));
        }
    }
}

/// Without roots nothing is reachable: validation removes every unit.
pub proof fn lemma_empty_roots(d: SerializedUnitGraphView)
    requires
        d.roots.len() == 0,
    ensures
        d.units.len() > 0 ==> !all_reachable(d),
        pruned(d).units.len() == 0,
        pruned(d).roots.len() == 0,
{
    assert forall|i: usize| !reachable(d, i) by {
        if reachable(d, i) {
            let p = choose|p: Seq<usize>| is_path(d, p) && p.last() == i;
            assert(d.roots.contains(p[0]));
        }
    }
    if d.units.len() > 0 {
        assert(!reachable(d, 0));
    }
    lemma_nothing_kept(d, d.units.len() as int);
}

/// Unit `b` is a dependency of unit `a` in the graph.
pub open spec fn unit_edge(g: Seq<EntryView>, a: UnitView, b: UnitView) -> bool {
    exists|j: int, m: int|
        0 <= j < g.len() && 0 <= m < g[j].1.len() && g[j].0 == a && (#[trigger] g[j].1[m]).unit == b
}

/// A walk in the graph from a root along dependencies.
pub open spec fn unit_path(g: Seq<EntryView>, roots: Seq<UnitView>, p: Seq<UnitView>) -> bool {
    &&& p.len() > 0
    &&& roots.contains(p[0])
    &&& forall|k: int| 0 <= k < p.len() - 1 ==> unit_edge(g, #[trigger] p[k], p[k + 1])
}

/// Unit `u` is a root or a dependency of a unit reachable in the graph.
pub open spec fn unit_reachable(g: Seq<EntryView>, roots: Seq<UnitView>, u: UnitView) -> bool {
    exists|p: Seq<UnitView>| unit_path(g, roots, p) && p.last() == u
}

pub open spec fn emit_ready(roots: Seq<UnitView>, g: Seq<EntryView>) -> bool {
    &&& graph_wf(g)
    &&& forall|r: int| 0 <= r < roots.len() ==> has_unit(g, #[trigger] roots[r])
    &&& g.len() <= usize::MAX
}

/// The canonical order of a graph lists each of its entries once, and every
/// unit of the graph has its place in it.
proof fn lemma_order_facts(g: Seq<EntryView>)
    requires
        graph_wf(g),
        g.len() <= usize::MAX,
    ensures
        is_canonical(canonical_order(g.to_set()), g.to_set()),
        canonical_order(g.to_set()).len() == g.len(),
        forall|u: UnitView| has_unit(g, u) ==> {
            let c = canonical_order(g.to_set());
            &&& position(c, u) < c.len()
            &&& c[position(c, u) as int].0 == u
        },
        forall|j: int| 0 <= j < g.len() ==> canonical_order(g.to_set())[position(canonical_order(g.to_set()), #[trigger] g[j].0) as int] == g[j],
{
    lemma_canonical_exists(g);
    let c = canonical_order(g.to_set());
    assert(c.no_duplicates()) by {
        assert forall|a: int, b: int| 0 <= a < c.len() && 0 <= b < c.len() && a != b implies c[a] != c[b] by {
            lemma_unit_order(c[a].0, c[a].0, c[a].0);
        }
    }
    assert(g.no_duplicates());
    c.unique_seq_to_set();
    g.unique_seq_to_set();
    assert(c.to_set() == g.to_set());
    assert forall|j: int| 0 <= j < g.len() implies #[trigger] c[position(c, g[j].0) as int] == g[j] && position(c, g[j].0) < c.len() by {
        assert(g.to_set().contains(g[j]));
        assert(c.contains(g[j]));
        let k = choose|k: int| 0 <= k < c.len() && c[k] == g[j];
        lemma_position(c, k);
    }
    assert forall|u: UnitView| has_unit(g, u) implies position(c, u) < c.len() && c[position(c, u) as int].0 == u by {
        let j = choose|j: int| 0 <= j < g.len() && #[trigger] g[j].0 == u;
        assert(c[position(c, g[j].0) as int] == g[j]);
    }
}

proof fn lemma_path_forward(roots: Seq<UnitView>, g: Seq<EntryView>, ctx: EmitContextView, p: Seq<usize>, k: int)
    requires
        emit_ready(roots, g),
        is_path(emitted(roots, g.to_set(), ctx), p),
        0 <= k < p.len(),
    ensures
        (p[k] as int) < g.len(),
        unit_reachable(g, roots, canonical_order(g.to_set())[p[k] as int].0),
    decreases k,
{
    lemma_order_facts(g);
    let c = canonical_order(g.to_set());
    let d = emitted(roots, g.to_set(), ctx);
    if k == 0 {
        let r = choose|r: int| 0 <= r < d.roots.len() && d.roots[r] == p[0];
        assert(has_unit(g, roots[r]));
        let q = seq![roots[r]];
        assert(roots.contains(q[0]));
        assert(unit_path(g, roots, q) && q.last() == c[p[0] as int].0);
    } else {
        lemma_path_forward(roots, g, ctx, p, k - 1);
        let a = p[k - 1];
        let b = p[k];
        assert(dep_edge(d.units, a, b));
        let m = choose|m: int| 0 <= m < d.units[a as int].dependencies.len() && #[trigger] d.units[a as int].dependencies[m].index == b;
        assert(d.units[a as int] == serialize_entry(c, ctx, c[a as int]));
        let du = c[a as int].1[m].unit;
        assert(b == position(c, du));
        assert(g.to_set().contains(c[a as int]));
        let j = choose|j: int| 0 <= j < g.len() && g[j] == c[a as int];
        assert(has_unit(g, g[j].1[m].unit));
        assert(c[b as int].0 == du);
        assert(unit_edge(g, c[a as int].0, c[b as int].0));
        let q0 = choose|q: Seq<UnitView>| unit_path(g, roots, q) && q.last() == c[a as int].0;
        let q = q0.push(c[b as int].0);
        assert forall|t: int| 0 <= t < q.len() - 1 implies unit_edge(g, #[trigger] q[t], q[t + 1]) by {
            if t < q0.len() - 1 {
                assert(q[t] == q0[t] && q[t + 1] == q0[t + 1]);
            }
        }
        assert(unit_path(g, roots, q) && q.last() == c[b as int].0);
    }
}

proof fn lemma_path_backward(roots: Seq<UnitView>, g: Seq<EntryView>, ctx: EmitContextView, q: Seq<UnitView>, k: int)
    requires
        emit_ready(roots, g),
        unit_path(g, roots, q),
        0 <= k < q.len(),
    ensures
        has_unit(g, q[k]),
        reachable(emitted(roots, g.to_set(), ctx), position(canonical_order(g.to_set()), q[k])),
    decreases k,
{
    lemma_order_facts(g);
    let c = canonical_order(g.to_set());
    let d = emitted(roots, g.to_set(), ctx);
    if k == 0 {
        let r = choose|r: int| 0 <= r < roots.len() && roots[r] == q[0];
        assert(has_unit(g, roots[r]));
        let p = seq![position(c, q[0])];
        assert(d.roots[r] == p[0]);
        assert(d.roots.contains(p[0]));
        assert(is_path(d, p) && p.last() == position(c, q[0]));
    } else {
        lemma_path_backward(roots, g, ctx, q, k - 1);
        assert(unit_edge(g, q[k - 1], q[k]));
        let (j, m) = choose|j: int, m: int|
            0 <= j < g.len() && 0 <= m < g[j].1.len() && g[j].0 == q[k - 1] && (#[trigger] g[j].1[m]).unit == q[k];
        assert(has_unit(g, g[j].1[m].unit));
        let a = position(c, g[j].0);
        assert(c[a as int] == g[j]);
        assert(d.units[a as int] == serialize_entry(c, ctx, c[a as int]));
        assert(d.units[a as int].dependencies[m].index == position(c, q[k]));
        assert(dep_edge(d.units, a, position(c, q[k])));
        let prev = choose|p: Seq<usize>| is_path(d, p) && p.last() == a;
        let p = prev.push(position(c, q[k]));
        assert forall|t: int| 0 <= t < p.len() - 1 implies dep_edge(d.units, #[trigger] p[t], p[t + 1]) by {
            if t < prev.len() - 1 {
                assert(p[t] == prev[t] && p[t + 1] == prev[t + 1]);
            }
        }
        assert(is_path(d, p) && p.last() == position(c, q[k]));
    }
}

/// Serializing a graph and validating the document: validation succeeds, the
/// units that survive are exactly the units reachable from the roots in the
/// graph, each once, and each keeps its attributes and extra arguments. When
/// every unit of the graph is reachable, validation returns the document as
/// it was written.
pub proof fn lemma_round_trip(roots: Seq<UnitView>, g: Seq<EntryView>, ctx: EmitContextView)
    requires
        graph_wf(g),
        forall|r: int| 0 <= r < roots.len() ==> has_unit(g, #[trigger] roots[r]),
        g.len() <= usize::MAX,
    ensures
        indices_valid(emitted(roots, g.to_set(), ctx)),
        (forall|u: UnitView| has_unit(g, u) ==> unit_reachable(g, roots, u)) ==> all_reachable(
            emitted(roots, g.to_set(), ctx),
        ),
        forall|k: int| 0 <= k < pruned(emitted(roots, g.to_set(), ctx)).units.len() ==> {
            let u = #[trigger] pruned(emitted(roots, g.to_set(), ctx)).units[k];
            &&& has_unit(g, u.attrs)
            &&& unit_reachable(g, roots, u.attrs)
            &&& u.extra_compiler_args == extra_args_for(ctx.extra_compiler_args, u.attrs)
        },
        forall|u: UnitView| has_unit(g, u) && unit_reachable(g, roots, u) ==> exists|k: int|
            0 <= k < pruned(emitted(roots, g.to_set(), ctx)).units.len()
                && (#[trigger] pruned(emitted(roots, g.to_set(), ctx)).units[k]).attrs == u,
        forall|k1: int, k2: int|
            0 <= k1 < k2 < pruned(emitted(roots, g.to_set(), ctx)).units.len() ==> (#[trigger] pruned(
                emitted(roots, g.to_set(), ctx),
            ).units[k1]).attrs != (#[trigger] pruned(emitted(roots, g.to_set(), ctx)).units[k2]).attrs,
{
    assert(emit_ready(roots, g));
    lemma_order_facts(g);
    let c = canonical_order(g.to_set());
    let d = emitted(roots, g.to_set(), ctx);
    let n = d.units.len() as int;
    let ks = kept(d, n);
    let pr = pruned(d);
    assert forall|i: int, m: int|
        0 <= i < d.units.len() && 0 <= m < d.units[i].dependencies.len()
            implies (#[trigger] d.units[i].dependencies[m]).index < d.units.len() by {
        assert(d.units[i] == serialize_entry(c, ctx, c[i]));
        assert(g.to_set().contains(c[i]));
        let j = choose|j: int| 0 <= j < g.len() && g[j] == c[i];
        assert(has_unit(g, g[j].1[m].unit));
    }
    assert forall|k: int| 0 <= k < d.roots.len() implies #[trigger] d.roots[k] < d.units.len() by {
        assert(has_unit(g, roots[k]));
    }
    if forall|u: UnitView| has_unit(g, u) ==> unit_reachable(g, roots, u) {
        assert forall|i: usize| i < d.units.len() implies reachable(d, i) by {
            assert(g.to_set().contains(c[i as int]));
            let j = choose|j: int| 0 <= j < g.len() && g[j] == c[i as int];
            assert(has_unit(g, g[j].0));
            let q = choose|q: Seq<UnitView>| unit_path(g, roots, q) && q.last() == c[i as int].0;
            lemma_path_backward(roots, g, ctx, q, q.len() - 1);
            lemma_position(c, i as int);
        }
    }
    assert forall|i: usize| reachable(d, i) implies (i as int) < n && unit_reachable(g, roots, c[i as int].0) by {
        let p = choose|p: Seq<usize>| is_path(d, p) && p.last() == i;
        lemma_path_forward(roots, g, ctx, p, p.len() - 1);
    }
    lemma_kept_bounds(d, n);
    lemma_kept_order(d, n);
    assert forall|k: int| 0 <= k < pr.units.len() implies {
        let u = #[trigger] pr.units[k];
        &&& has_unit(g, u.attrs)
        &&& unit_reachable(g, roots, u.attrs)
        &&& u.extra_compiler_args == extra_args_for(ctx.extra_compiler_args, u.attrs)
    } by {
        let i = ks[k];
        assert(pr.units[k] == relabel(d, d.units[i as int]));
        assert(d.units[i as int] == serialize_entry(c, ctx, c[i as int]));
        assert(g.to_set().contains(c[i as int]));
        let j = choose|j: int| 0 <= j < g.len() && g[j] == c[i as int];
        assert(has_unit(g, g[j].0));
    }
    assert forall|u: UnitView| has_unit(g, u) && unit_reachable(g, roots, u) implies exists|k: int|
        0 <= k < pr.units.len() && (#[trigger] pr.units[k]).attrs == u by {
        let q = choose|q: Seq<UnitView>| unit_path(g, roots, q) && q.last() == u;
        lemma_path_backward(roots, g, ctx, q, q.len() - 1);
        let i = position(c, u);
        assert(ks.contains(i));
        let k = choose|k: int| 0 <= k < ks.len() && ks[k] == i;
        assert(pr.units[k] == relabel(d, d.units[i as int]));
        assert(d.units[i as int] == serialize_entry(c, ctx, c[i as int]));
    }
    assert forall|k1: int, k2: int| 0 <= k1 < k2 < pr.units.len() implies (#[trigger] pr.units[k1]).attrs
        != (#[trigger] pr.units[k2]).attrs by {
        assert(ks[k1] < ks[k2]);
        assert(pr.units[k1] == relabel(d, d.units[ks[k1] as int]));
        assert(pr.units[k2] == relabel(d, d.units[ks[k2] as int]));
        assert(d.units[ks[k1] as int] == serialize_entry(c, ctx, c[ks[k1] as int]));
        assert(d.units[ks[k2] as int] == serialize_entry(c, ctx, c[ks[k2] as int]));
        assert(unit_lt(c[ks[k1] as int].0, c[ks[k2] as int].0));
        lemma_unit_order(c[ks[k1] as int].0, c[ks[k1] as int].0, c[ks[k1] as int].0);
    }
}

/// A reachable index `x` below `m` stands among the kept indices at the
/// place `new_index` gives it, and every kept index stands at its own place.
proof fn lemma_kept_index(d: SerializedUnitGraphView, m: int, x: usize)
    requires
        0 <= m <= usize::MAX,
        (x as int) < m,
        reachable(d, x),
    ensures
        (new_index(d, x) as int) < kept(d, m).len(),
        kept(d, m)[new_index(d, x) as int] == x,
    decreases m,
{
    lemma_kept_bounds(d, x as int);
    if (x as int) < m - 1 {
        lemma_kept_index(d, m - 1, x);
    }
}

proof fn lemma_kept_place(d: SerializedUnitGraphView, m: int, k: int)
    requires
        0 <= m <= usize::MAX,
        0 <= k < kept(d, m).len(),
    ensures
        new_index(d, kept(d, m)[k]) == k,
        reachable(d, kept(d, m)[k]),
        kept(d, m)[k] < m,
{
    lemma_kept_bounds(d, m);
    lemma_kept_order(d, m);
    let x = kept(d, m)[k];
    lemma_kept_index(d, m, x);
    let k2 = new_index(d, x) as int;
    if k2 < k {
        assert(kept(d, m)[k2] < kept(d, m)[k]);
    } else if k2 > k {
        assert(kept(d, m)[k] < kept(d, m)[k2]);
    }
}

/// A path of the document maps through `new_index` to a path of the pruned
/// document.
proof fn lemma_pruned_path(d: SerializedUnitGraphView, p: Seq<usize>, k: int)
    requires
        indices_valid(d),
        d.units.len() <= usize::MAX,
        is_path(d, p),
        0 <= k < p.len(),
    ensures
        (p[k] as int) < d.units.len(),
        reachable(d, p[k]),
        reachable(pruned(d), new_index(d, p[k])),
    decreases k,
{
    lemma_valid_no_dangling(d);
    let n = d.units.len() as int;
    let pr = pruned(d);
    let q0 = p.take(k + 1);
    assert(is_path(d, q0) && q0.last() == p[k]) by {
        assert forall|t: int| 0 <= t < q0.len() - 1 implies dep_edge(d.units, #[trigger] q0[t], q0[t + 1]) by {
            assert(q0[t] == p[t] && q0[t + 1] == p[t + 1]);
        }
    }
    assert(reachable(d, p[k]));
    if k == 0 {
        let r = choose|r: int| 0 <= r < d.roots.len() && d.roots[r] == p[0];
        assert(pr.roots[r] == new_index(d, p[0]));
        let q = seq![new_index(d, p[0])];
        assert(pr.roots.contains(q[0]));
        assert(is_path(pr, q) && q.last() == new_index(d, p[0]));
    } else {
        lemma_pruned_path(d, p, k - 1);
        let a = p[k - 1];
        let b = p[k];
        assert(dep_edge(d.units, a, b));
        let m = choose|mm: int| 0 <= mm < d.units[a as int].dependencies.len() && #[trigger] d.units[a as int].dependencies[mm].index == b;
        assert(d.units[a as int].dependencies[m].index < n);
        lemma_kept_index(d, n, a);
        let ka = new_index(d, a);
        assert(pr.units[ka as int] == relabel(d, d.units[a as int]));
        assert(pr.units[ka as int].dependencies[m] == relabel_dep(d, d.units[a as int].dependencies[m]));
        assert(pr.units.len() == kept(d, n).len());
        assert((ka as int) < pr.units.len());
        assert(pr.units[ka as int].dependencies.len() == d.units[a as int].dependencies.len());
        assert(pr.units[ka as int].dependencies[m].index == new_index(d, b));
        assert(dep_edge(pr.units, ka, new_index(d, b)));
        let q0 = choose|q: Seq<usize>| is_path(pr, q) && q.last() == ka;
        let q = q0.push(new_index(d, b));
        assert forall|t: int| 0 <= t < q.len() - 1 implies dep_edge(pr.units, #[trigger] q[t], q[t + 1]) by {
            if t < q0.len() - 1 {
                assert(q[t] == q0[t] && q[t + 1] == q0[t + 1]);
            }
        }
        assert(is_path(pr, q) && q.last() == new_index(d, b));
    }
}

/// Validating twice is validating once: what a successful validation returns
/// has every index in range and every unit reachable, so a second validation
/// accepts it and changes nothing.
pub proof fn lemma_validate_idempotent(d: SerializedUnitGraphView)
    requires
        indices_valid(d),
        d.units.len() <= usize::MAX,
    ensures
        ({
            let r = if all_reachable(d) {
                d
            } else {
                pruned(d)
            };
            indices_valid(r) && all_reachable(r)
        }),
{
    if !all_reachable(d) {
        lemma_valid_no_dangling(d);
        let n = d.units.len() as int;
        let pr = pruned(d);
        let ks = kept(d, n);
        assert forall|i: int, m: int|
            0 <= i < pr.units.len() && 0 <= m < pr.units[i].dependencies.len()
                implies (#[trigger] pr.units[i].dependencies[m]).index < pr.units.len() by {
            lemma_kept_place(d, n, i);
            let a = ks[i];
            assert(pr.units[i] == relabel(d, d.units[a as int]));
            let b = d.units[a as int].dependencies[m].index;
            assert(pr.units[i].dependencies[m] == relabel_dep(d, d.units[a as int].dependencies[m]));
            assert(b < n);
            let p = choose|p: Seq<usize>| is_path(d, p) && p.last() == a;
            assert(dep_edge(d.units, p.last(), b));
            let q = p.push(b);
            assert forall|t: int| 0 <= t < q.len() - 1 implies dep_edge(d.units, #[trigger] q[t], q[t + 1]) by {
                if t < p.len() - 1 {
                    assert(q[t] == p[t] && q[t + 1] == p[t + 1]);
                }
            }
            assert(is_path(d, q) && q.last() == b);
            lemma_kept_index(d, n, b);
        }
        assert forall|k: int| 0 <= k < pr.roots.len() implies #[trigger] pr.roots[k] < pr.units.len() by {
            let r = d.roots[k];
            let p = seq![r];
            assert(d.roots.contains(p[0]));
            assert(is_path(d, p) && p.last() == r);
            lemma_kept_index(d, n, r);
        }
        assert forall|k: usize| k < pr.units.len() implies reachable(pr, k) by {
            lemma_kept_place(d, n, k as int);
            let x = ks[k as int];
            let p = choose|p: Seq<usize>| is_path(d, p) && p.last() == x;
            lemma_pruned_path(d, p, p.len() - 1);
        }
    }
}

} // verus!
