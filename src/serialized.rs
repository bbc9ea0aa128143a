//! The portable document: units in a list, edges and roots as indices into it.
use crate::order::{clone_opt_string, opt_text};
use crate::unit::UnitView;
use vstd::prelude::*;
use vstd::set_lib::set_int_range;

verus! {

/// The version of the document that this library writes and reads.
pub const VERSION: u32 = 1;

#[derive(Debug, Clone, PartialEq, Eq)]
pub struct SerializedUnitGraph {
    pub version: u32,
    pub units: Vec<SerializedUnit>,
    pub roots: Vec<usize>,
}

#[derive(Debug, Clone, PartialEq, Eq)]
pub struct SerializedUnit {
    pub pkg_id: String,
    pub target: String,
    pub profile: String,
    pub platform: String,
    pub mode: String,
    pub features: Vec<String>,
    pub rustflags: Vec<String>,
    pub rustdocflags: Vec<String>,
    pub is_std: bool,
    pub dep_hash: u64,
    pub artifact: bool,
    pub artifact_target_for_features: Option<String>,
    pub extra_compiler_args: Vec<String>,
    pub skip_freshness_check: bool,
    pub dependencies: Vec<SerializedUnitDep>,
}

#[derive(Debug, Clone, PartialEq, Eq)]
pub struct SerializedUnitDep {
    /// The position of the dependency in the document's `units`.
    pub index: usize,
    pub extern_crate_name: String,
    /// Present only where the opt-in fields were asked for.
    pub public: Option<bool>,
    /// Present only where the opt-in fields were asked for.
    pub noprelude: Option<bool>,
    pub dep_name: Option<String>,
    pub unit_for: String,
}

pub struct SerializedUnitDepView {
    pub index: usize,
    pub extern_crate_name: Seq<char>,
    pub public: Option<bool>,
    pub noprelude: Option<bool>,
    pub dep_name: Option<Seq<char>>,
    pub unit_for: Seq<char>,
}

pub struct SerializedUnitView {
    /// The attributes of the unit that the entry stands for.
    pub attrs: UnitView,
    pub extra_compiler_args: Seq<Seq<char>>,
    pub dependencies: Seq<SerializedUnitDepView>,
}

pub struct SerializedUnitGraphView {
    pub version: u32,
    pub units: Seq<SerializedUnitView>,
    pub roots: Seq<usize>,
}

impl View for SerializedUnitDep {
    type V = SerializedUnitDepView;

    open spec fn view(&self) -> SerializedUnitDepView {
        SerializedUnitDepView {
            index: self.index,
            extern_crate_name: self.extern_crate_name@,
            public: self.public,
            noprelude: self.noprelude,
            dep_name: opt_text(&self.dep_name),
            unit_for: self.unit_for@,
        }
    }
}

impl View for SerializedUnit {
    type V = SerializedUnitView;

    open spec fn view(&self) -> SerializedUnitView {
        SerializedUnitView {
            attrs: UnitView {
                pkg_id: self.pkg_id@,
                target: self.target@,
                profile: self.profile@,
                platform: self.platform@,
                mode: self.mode@,
                features: self.features.deep_view(),
                rustflags: self.rustflags.deep_view(),
                rustdocflags: self.rustdocflags.deep_view(),
                is_std: self.is_std,
                dep_hash: self.dep_hash,
                artifact: self.artifact,
                artifact_target_for_features: opt_text(&self.artifact_target_for_features),
                skip_freshness_check: self.skip_freshness_check,
            },
            extra_compiler_args: self.extra_compiler_args.deep_view(),
            dependencies: self.dependencies@.map_values(|d: SerializedUnitDep| d@),
        }
    }
}

impl View for SerializedUnitGraph {
    type V = SerializedUnitGraphView;

    open spec fn view(&self) -> SerializedUnitGraphView {
        SerializedUnitGraphView {
            version: self.version,
            units: self.units@.map_values(|u: SerializedUnit| u@),
            roots: self.roots@,
        }
    }
}

/// Every edge and every root of the document names one of its units.
pub open spec fn indices_valid(d: SerializedUnitGraphView) -> bool {
    &&& forall|i: int, m: int|
        0 <= i < d.units.len() && 0 <= m < d.units[i].dependencies.len()
            ==> (#[trigger] d.units[i].dependencies[m]).index < d.units.len()
    &&& forall|k: int| 0 <= k < d.roots.len() ==> #[trigger] d.roots[k] < d.units.len()
}

/// `x` stands in the document as a root or as the index of a dependency.
pub open spec fn index_named(d: SerializedUnitGraphView, x: usize) -> bool {
    ||| d.roots.contains(x)
    ||| exists|i: int, m: int|
        0 <= i < d.units.len() && 0 <= m < d.units[i].dependencies.len()
            && (#[trigger] d.units[i].dependencies[m]).index == x
}

/// Unit `b` is a dependency of unit `a`.
pub open spec fn dep_edge(units: Seq<SerializedUnitView>, a: usize, b: usize) -> bool {
    &&& (a as int) < units.len()
    &&& exists|m: int|
        0 <= m < units[a as int].dependencies.len() && #[trigger] units[a as int].dependencies[m].index
            == b
}

/// A walk from a root along dependencies; every index but the last names a unit.
pub open spec fn is_path(d: SerializedUnitGraphView, p: Seq<usize>) -> bool {
    &&& p.len() > 0
    &&& d.roots.contains(p[0])
    &&& forall|k: int| 0 <= k < p.len() - 1 ==> dep_edge(d.units, #[trigger] p[k], p[k + 1])
}

/// Index `i` is a root or a dependency of a unit that is reachable.
pub open spec fn reachable(d: SerializedUnitGraphView, i: usize) -> bool {
    exists|p: Seq<usize>| is_path(d, p) && p.last() == i
}

/// Some reachable index names no unit.
pub open spec fn has_dangling(d: SerializedUnitGraphView) -> bool {
    exists|i: usize| reachable(d, i) && i >= d.units.len()
}

pub open spec fn all_reachable(d: SerializedUnitGraphView) -> bool {
    forall|i: usize| i < d.units.len() ==> reachable(d, i)
}

proof fn lemma_path_extend(d: SerializedUnitGraphView, p: Seq<usize>, w: usize)
    requires
        is_path(d, p),
        dep_edge(d.units, p.last(), w),
    ensures
        is_path(d, p.push(w)),
        p.push(w).last() == w,
{
    let q = p.push(w);
    assert forall|k: int| 0 <= k < q.len() - 1 implies dep_edge(d.units, #[trigger] q[k], q[k + 1]) by {
        if k < p.len() - 1 {
            assert(q[k] == p[k] && q[k + 1] == p[k + 1]);
        }
    }
}

/// A set of indices that holds the roots and is closed under dependencies
/// holds every index on a path.
proof fn lemma_closed_holds_path(d: SerializedUnitGraphView, vis: Set<int>, p: Seq<usize>, k: int)
    requires
        is_path(d, p),
        0 <= k < p.len(),
        forall|r: int| 0 <= r < d.roots.len() ==> vis.contains(#[trigger] d.roots[r] as int),
        forall|v: int, m: int|
            vis.contains(v) && 0 <= v < d.units.len() && 0 <= m < d.units[v].dependencies.len()
                ==> vis.contains(#[trigger] d.units[v].dependencies[m].index as int),
    ensures
        vis.contains(p[k] as int),
    decreases k,
{
    if k == 0 {
        let r = choose|r: int| 0 <= r < d.roots.len() && d.roots[r] == p[0];
        assert(vis.contains(d.roots[r] as int));
    } else {
        lemma_closed_holds_path(d, vis, p, k - 1);
        assert(dep_edge(d.units, p[k - 1], p[k]));
        let v = p[k - 1] as int;
        let m = choose|m: int|
            0 <= m < d.units[v].dependencies.len() && #[trigger] d.units[v].dependencies[m].index
                == p[k];
        assert(vis.contains(d.units[v].dependencies[m].index as int));
    }
}

/// Marks the units reachable from the roots, or finds a reachable index
/// that names no unit.
fn mark_reachable(g: &SerializedUnitGraph) -> (r: Result<Vec<bool>, usize>)
    ensures
        match r {
            Ok(vis) => {
                &&& !has_dangling(g@)
                &&& vis@.len() == g@.units.len()
                &&& forall|i: usize| i < g@.units.len() ==> (vis@[i as int] <==> reachable(g@, i))
            },
            Err(index) => index >= g@.units.len() && reachable(g@, index),
        },
{
    let ghost d = g@;
    let n = g.units.len();
    let mut visited: Vec<bool> = Vec::new();
    while visited.len() < n
        invariant
            visited@.len() <= n,
            forall|i: int| 0 <= i < visited@.len() ==> !visited@[i],
        decreases n - visited@.len(),
    {
        visited.push(false);
    }
    let mut to_visit: Vec<usize> = Vec::new();
    let mut i: usize = 0;
    while i < g.roots.len()
        invariant
            d == g@,
            i <= g.roots@.len(),
            to_visit@ == g.roots@.take(i as int),
        decreases g.roots@.len() - i,
    {
        to_visit.push(g.roots[i]);
        assert(g.roots@.take(i + 1) =~= g.roots@.take(i as int).push(g.roots@[i as int]));
        i = i + 1;
    }
    assert(g.roots@.take(g.roots@.len() as int) =~= g.roots@);
    proof {
        assert forall|j: int| 0 <= j < to_visit@.len() implies reachable(d, #[trigger] to_visit@[j]) by {
            let p = seq![to_visit@[j]];
            assert(d.roots[j] == p[0]);
            assert(d.roots.contains(p[0]));
            assert(is_path(d, p) && p.last() == to_visit@[j]);
        }
    }
    let ghost mut vset: Set<int> = Set::empty();
    let mut count: usize = 0;
    proof {
        vstd::set_lib::lemma_int_range(0, n as int);
    }
    while to_visit.len() > 0
        invariant
            d == g@,
            n == d.units.len(),
            visited@.len() == n,
            set_int_range(0, n as int).finite(),
            set_int_range(0, n as int).len() == n,
            vset.subset_of(set_int_range(0, n as int)),
            vset.finite(),
            vset.len() == count,
            forall|i: int| 0 <= i < n ==> (visited@[i] <==> vset.contains(i)),
            forall|v: int| vset.contains(v) ==> reachable(d, v as usize),
            forall|j: int| 0 <= j < to_visit@.len() ==> reachable(d, #[trigger] to_visit@[j]),
            forall|r: int|
                0 <= r < d.roots.len() ==> vset.contains(#[trigger] d.roots[r] as int)
                    || to_visit@.contains(d.roots[r]),
            forall|v: int, m: int|
                vset.contains(v) && 0 <= v < n && 0 <= m < d.units[v].dependencies.len() ==> vset.contains(
                    #[trigger] d.units[v].dependencies[m].index as int,
                ) || to_visit@.contains(d.units[v].dependencies[m].index),
        decreases n - count, to_visit@.len(),
    {
        let ghost before = to_visit@;
        let index = to_visit.pop().unwrap();
        assert(before =~= to_visit@.push(index));
        assert(reachable(d, index)) by {
            assert(before[before.len() - 1] == index);
        }
        if index >= n {
            return Err(index);
        }
        if !visited[index] {
            proof {
                vstd::set_lib::lemma_len_subset(vset.insert(index as int), set_int_range(0, n as int));
            }
            visited.set(index, true);
            proof {
                vset = vset.insert(index as int);
            }
            count = count + 1;
            let deps = &g.units[index].dependencies;
            let ghost dv = d.units[index as int].dependencies;
            assert(dv == deps@.map_values(|x: SerializedUnitDep| x@));
            let ghost p = choose|p: Seq<usize>| is_path(d, p) && p.last() == index;
            let ghost base = to_visit@;
            let mut m: usize = 0;
            while m < deps.len()
                invariant
                    d == g@,
                    (index as int) < d.units.len(),
                    dv == d.units[index as int].dependencies,
                    dv == deps@.map_values(|x: SerializedUnitDep| x@),
                    is_path(d, p),
                    p.last() == index,
                    m <= deps@.len(),
                    to_visit@ == base + dv.take(m as int).map_values(|x: SerializedUnitDepView| x.index),
                    forall|j: int| 0 <= j < to_visit@.len() ==> reachable(d, #[trigger] to_visit@[j]),
                decreases deps@.len() - m,
            {
                let w = deps[m].index;
                proof {
                    assert(dv[m as int].index == w);
                    assert(dep_edge(d.units, p.last(), w));
                    lemma_path_extend(d, p, w);
                }
                to_visit.push(w);
                assert(dv.take(m + 1) =~= dv.take(m as int).push(dv[m as int]));
                m = m + 1;
            }
            proof {
                assert(dv.take(deps@.len() as int) =~= dv);
                assert forall|mm: int| 0 <= mm < dv.len() implies to_visit@.contains(
                    #[trigger] dv[mm].index,
                ) by {
                    assert(to_visit@[base.len() + mm] == dv[mm].index);
                }
                assert forall|x: usize| #[trigger] before.contains(x) implies x == index
                    || to_visit@.contains(x) by {
                    if x != index {
                        let j = choose|j: int| 0 <= j < before.len() && before[j] == x;
                        assert(to_visit@[j] == x);
                    }
                }
            }
        } else {
            proof {
                assert forall|x: usize| #[trigger] before.contains(x) implies x == index
                    || to_visit@.contains(x) by {
                    if x != index {
                        let j = choose|j: int| 0 <= j < before.len() && before[j] == x;
                        assert(to_visit@[j] == x);
                    }
                }
            }
        }
    }
    proof {
        assert forall|r: int| 0 <= r < d.roots.len() implies vset.contains(#[trigger] d.roots[r] as int) by {
            assert(!to_visit@.contains(d.roots[r]));
        }
        assert forall|v: int, m: int|
            vset.contains(v) && 0 <= v < d.units.len() && 0 <= m < d.units[v].dependencies.len()
                implies vset.contains(#[trigger] d.units[v].dependencies[m].index as int) by {
            assert(!to_visit@.contains(d.units[v].dependencies[m].index));
        }
        assert forall|i: usize| reachable(d, i) implies vset.contains(i as int) && i < n by {
            let p = choose|p: Seq<usize>| is_path(d, p) && p.last() == i;
            lemma_closed_holds_path(d, vset, p, p.len() - 1);
            assert(set_int_range(0, n as int).contains(i as int));
        }
        assert forall|i: usize| i < n implies (visited@[i as int] <==> reachable(d, i)) by {
            if visited@[i as int] {
                assert(vset.contains(i as int));
                assert(i as int as usize == i);
            }
        }
    }
    Ok(visited)
}

/// In a document whose indices are all in range, no reachable index dangles.
pub proof fn lemma_valid_no_dangling(d: SerializedUnitGraphView)
    requires
        indices_valid(d),
    ensures
        !has_dangling(d),
{
    assert forall|i: usize| reachable(d, i) implies i < d.units.len() by {
        let p = choose|p: Seq<usize>| is_path(d, p) && p.last() == i;
        if p.len() == 1 {
            let r = choose|r: int| 0 <= r < d.roots.len() && d.roots[r] == p[0];
            assert(d.roots[r] < d.units.len());
        } else {
            let a = p[p.len() - 2];
            assert(dep_edge(d.units, a, p[p.len() - 1]));
            let m = choose|m: int|
                0 <= m < d.units[a as int].dependencies.len() && #[trigger] d.units[a as int].dependencies[m].index
                    == p[p.len() - 1];
            assert(d.units[a as int].dependencies[m].index < d.units.len());
        }
    }
}

/// An index of the document, a root or a dependency of any unit, that names
/// no unit; `None` where every index is in range.
fn find_out_of_range(g: &SerializedUnitGraph) -> (r: Option<usize>)
    ensures
        r is None <==> indices_valid(g@),
        r matches Some(x) ==> x >= g@.units.len() && index_named(g@, x),
{
    let ghost d = g@;
    let n = g.units.len();
    let mut k: usize = 0;
    while k < g.roots.len()
        invariant
            d == g@,
            n == d.units.len(),
            k <= d.roots.len(),
            forall|q: int| 0 <= q < k ==> #[trigger] d.roots[q] < n,
        decreases d.roots.len() - k,
    {
        if g.roots[k] >= n {
            assert(d.roots.contains(d.roots[k as int]));
            return Some(g.roots[k]);
        }
        k = k + 1;
    }
    let mut i: usize = 0;
    while i < n
        invariant
            d == g@,
            n == d.units.len(),
            forall|q: int| 0 <= q < d.roots.len() ==> #[trigger] d.roots[q] < n,
            i <= n,
            forall|a: int, m: int|
                0 <= a < i && 0 <= m < d.units[a].dependencies.len() ==> (#[trigger] d.units[a].dependencies[m]).index < n,
        decreases n - i,
    {
        let deps = &g.units[i].dependencies;
        assert(d.units[i as int].dependencies == deps@.map_values(|x: SerializedUnitDep| x@));
        let mut m: usize = 0;
        while m < deps.len()
            invariant
                d == g@,
                n == d.units.len(),
                i < n,
                d.units[i as int].dependencies == deps@.map_values(|x: SerializedUnitDep| x@),
                m <= deps@.len(),
                forall|q: int| 0 <= q < m ==> (#[trigger] d.units[i as int].dependencies[q]).index < n,
            decreases deps@.len() - m,
        {
            assert(d.units[i as int].dependencies[m as int].index == deps@[m as int].index);
            if deps[m].index >= n {
                assert(index_named(d, deps@[m as int].index)) by {
                    assert(d.units[i as int].dependencies[m as int].index == deps@[m as int].index);
                }
                return Some(deps[m].index);
            }
            m = m + 1;
        }
        assert forall|a: int, q: int|
            0 <= a < i + 1 && 0 <= q < d.units[a].dependencies.len() implies (#[trigger] d.units[a].dependencies[q]).index < n by {
            if a == i {
                assert(d.units[i as int].dependencies[q].index < n);
            }
        }
        i = i + 1;
    }
    None
}

/// Why a document was refused.
#[derive(Debug, Clone, PartialEq, Eq)]
pub enum UnitGraphError {
    /// A root or a dependency of some unit names no unit.
    DanglingIndex { index: usize, units: usize },
    /// The document was written in a version that this library does not read.
    UnsupportedVersion { version: u32 },
}

/// The reachable indices below `m`, in increasing order.
pub open spec fn kept(d: SerializedUnitGraphView, m: int) -> Seq<usize>
    decreases m,
{
    if m <= 0 {
        Seq::empty()
    } else if reachable(d, (m - 1) as usize) {
        kept(d, m - 1).push((m - 1) as usize)
    } else {
        kept(d, m - 1)
    }
}

/// The unreachable indices below `m`, in increasing order.
pub open spec fn dropped(d: SerializedUnitGraphView, m: int) -> Seq<usize>
    decreases m,
{
    if m <= 0 {
        Seq::empty()
    } else if !reachable(d, (m - 1) as usize) {
        dropped(d, m - 1).push((m - 1) as usize)
    } else {
        dropped(d, m - 1)
    }
}

/// The index that a kept unit gets: the number of kept units before it.
pub open spec fn new_index(d: SerializedUnitGraphView, i: usize) -> usize {
    kept(d, i as int).len() as usize
}

pub open spec fn relabel_dep(d: SerializedUnitGraphView, x: SerializedUnitDepView) -> SerializedUnitDepView {
    SerializedUnitDepView {
        index: new_index(d, x.index),
        extern_crate_name: x.extern_crate_name,
        public: x.public,
        noprelude: x.noprelude,
        dep_name: x.dep_name,
        unit_for: x.unit_for,
    }
}

pub open spec fn relabel(d: SerializedUnitGraphView, u: SerializedUnitView) -> SerializedUnitView {
    SerializedUnitView {
        attrs: u.attrs,
        extra_compiler_args: u.extra_compiler_args,
        dependencies: u.dependencies.map_values(|x: SerializedUnitDepView| relabel_dep(d, x)),
    }
}

/// The document with its unreachable units removed and the indices renumbered.
pub open spec fn pruned(d: SerializedUnitGraphView) -> SerializedUnitGraphView {
    SerializedUnitGraphView {
        version: d.version,
        units: kept(d, d.units.len() as int).map_values(|i: usize| relabel(d, d.units[i as int])),
        roots: d.roots.map_values(|r: usize| new_index(d, r)),
    }
}

/// The warnings of a pruning: the index and the package of each unit removed.
pub open spec fn warnings_match(d: SerializedUnitGraphView, w: Seq<(usize, String)>) -> bool {
    let gone = dropped(d, d.units.len() as int);
    &&& w.len() == gone.len()
    &&& forall|j: int|
        0 <= j < w.len() ==> (#[trigger] w[j]).0 == gone[j] && w[j].1@ == d.units[gone[j] as int].attrs.pkg_id
}

pub proof fn lemma_kept_bounds(d: SerializedUnitGraphView, m: int)
    requires
        m >= 0,
    ensures
        kept(d, m).len() <= m,
        forall|j: int| 0 <= j < kept(d, m).len() ==> kept(d, m)[j] < m && reachable(d, #[trigger] kept(d, m)[j]),
    decreases m,
{
    if m > 0 {
        lemma_kept_bounds(d, m - 1);
    }
}

/// The kept indices rise strictly and hold every reachable index below `m`.
pub proof fn lemma_kept_order(d: SerializedUnitGraphView, m: int)
    requires
        0 <= m <= usize::MAX,
    ensures
        forall|a: int, b: int| 0 <= a < b < kept(d, m).len() ==> kept(d, m)[a] < kept(d, m)[b],
        forall|i: usize| (i as int) < m && reachable(d, i) ==> kept(d, m).contains(i),
    decreases m,
{
    if m > 0 {
        lemma_kept_order(d, m - 1);
        lemma_kept_bounds(d, m - 1);
        let k0 = kept(d, m - 1);
        assert forall|a: int, b: int| 0 <= a < b < kept(d, m).len() implies kept(d, m)[a] < kept(d, m)[b] by {
            if b < k0.len() {
                assert(kept(d, m)[a] == k0[a] && kept(d, m)[b] == k0[b]);
            } else {
                assert(reachable(d, (m - 1) as usize));
                assert(kept(d, m) == k0.push((m - 1) as usize));
                assert(kept(d, m)[a] == k0[a]);
                assert(kept(d, m)[b] == (m - 1) as usize);
                assert(reachable(d, k0[a]));
                assert(k0[a] < m - 1);
            }
        }
        assert forall|i: usize| (i as int) < m && reachable(d, i) implies kept(d, m).contains(i) by {
            if (i as int) < m - 1 {
                let a = choose|a: int| 0 <= a < k0.len() && k0[a] == i;
                assert(kept(d, m)[a] == i);
            } else {
                assert(kept(d, m)[k0.len() as int] == i);
            }
        }
    }
}

/// A dependency of a reachable unit is reachable.
proof fn lemma_dep_reachable(d: SerializedUnitGraphView, i: usize, m: int)
    requires
        reachable(d, i),
        (i as int) < d.units.len(),
        0 <= m < d.units[i as int].dependencies.len(),
    ensures
        reachable(d, d.units[i as int].dependencies[m].index),
{
    let p = choose|p: Seq<usize>| is_path(d, p) && p.last() == i;
    let w = d.units[i as int].dependencies[m].index;
    assert(dep_edge(d.units, p.last(), w));
    lemma_path_extend(d, p, w);
}

/// The dependencies of a kept unit with their indices renumbered.
fn relabel_deps(deps: &Vec<SerializedUnitDep>, index_map: &Vec<usize>, Ghost(d): Ghost<SerializedUnitGraphView>) -> (r: Vec<SerializedUnitDep>)
    requires
        forall|m: int| 0 <= m < deps@.len() ==> (#[trigger] deps@[m]).index < index_map@.len(),
        forall|i: int| 0 <= i < index_map@.len() ==> #[trigger] index_map@[i] == new_index(d, i as usize),
    ensures
        r@.map_values(|x: SerializedUnitDep| x@) == deps@.map_values(|x: SerializedUnitDep| x@).map_values(
            |x: SerializedUnitDepView| relabel_dep(d, x),
        ),
{
    let mut r: Vec<SerializedUnitDep> = Vec::new();
    let mut m: usize = 0;
    while m < deps.len()
        invariant
            m <= deps@.len(),
            forall|m: int| 0 <= m < deps@.len() ==> (#[trigger] deps@[m]).index < index_map@.len(),
            forall|i: int| 0 <= i < index_map@.len() ==> #[trigger] index_map@[i] == new_index(d, i as usize),
            r@.len() == m,
            forall|j: int| 0 <= j < m ==> (#[trigger] r@[j])@ == relabel_dep(d, deps@[j]@),
        decreases deps@.len() - m,
    {
        let x = &deps[m];
        r.push(
            SerializedUnitDep {
                index: index_map[x.index],
                extern_crate_name: x.extern_crate_name.clone(),
                public: x.public,
                noprelude: x.noprelude,
                dep_name: clone_opt_string(&x.dep_name),
                unit_for: x.unit_for.clone(),
            },
        );
        m = m + 1;
    }
    assert(r@.map_values(|x: SerializedUnitDep| x@) =~= deps@.map_values(|x: SerializedUnitDep| x@).map_values(
        |x: SerializedUnitDepView| relabel_dep(d, x),
    ));
    r
}

fn blank_unit() -> SerializedUnit {
    SerializedUnit {
        pkg_id: String::new(),
        target: String::new(),
        profile: String::new(),
        platform: String::new(),
        mode: String::new(),
        features: Vec::new(),
        rustflags: Vec::new(),
        rustdocflags: Vec::new(),
        is_std: false,
        dep_hash: 0,
        artifact: false,
        artifact_target_for_features: None,
        extra_compiler_args: Vec::new(),
        skip_freshness_check: false,
        dependencies: Vec::new(),
    }
}

impl SerializedUnitGraph {
    /// Checks that every root and every dependency of every unit names a
    /// unit, then removes the units that are not reachable and renumbers the rest in
    /// their relative order. Returns the index and package of each unit
    /// removed.
    pub fn validate(&mut self) -> (r: Result<Vec<(usize, String)>, UnitGraphError>)
        ensures
            r is Ok <==> indices_valid(old(self)@),
            match r {
                Err(e) => final(self)@ == old(self)@ && match e {
                    UnitGraphError::DanglingIndex { index, units } => {
                        &&& units == old(self)@.units.len()
                        &&& index >= units
                        &&& index_named(old(self)@, index)
                    },
                    UnitGraphError::UnsupportedVersion { .. } => false,
                },
                Ok(w) => if all_reachable(old(self)@) {
                    final(self)@ == old(self)@ && w@.len() == 0
                } else {
                    final(self)@ == pruned(old(self)@) && warnings_match(old(self)@, w@)
                },
            },
    {
        let ghost d = self@;
        let n = self.units.len();
        if let Some(index) = find_out_of_range(self) {
            return Err(UnitGraphError::DanglingIndex { index, units: n });
        }
        proof {
            lemma_valid_no_dangling(d);
        }
        let vis = match mark_reachable(self) {
            Ok(vis) => vis,
            // every index is in range by now, so no reachable one dangles
            Err(index) => {
                assert(reachable(d, index) && index >= d.units.len());
                return Err(UnitGraphError::DanglingIndex { index, units: n });
            },
        };
        let mut all = true;
        let mut i: usize = 0;
        while i < n
            invariant
                i <= n,
                n == d.units.len(),
                vis@.len() == n,
                forall|j: usize| j < n ==> (vis@[j as int] <==> reachable(d, j)),
                all <==> forall|j: usize| j < i ==> reachable(d, j),
            decreases n - i,
        {
            assert(vis@[i as int] <==> reachable(d, i));
            if !vis[i] {
                all = false;
            }
            i = i + 1;
        }
        if all {
            return Ok(Vec::new());
        }
        // index_map[j]: the new index of unit `j`
        let mut index_map: Vec<usize> = Vec::new();
        let mut next: usize = 0;
        while index_map.len() < n
            invariant
                index_map@.len() <= n,
                n == d.units.len(),
                vis@.len() == n,
                forall|j: usize| j < n ==> (vis@[j as int] <==> reachable(d, j)),
                next == kept(d, index_map@.len() as int).len(),
                forall|j: int| 0 <= j < index_map@.len() ==> #[trigger] index_map@[j] == new_index(d, j as usize),
            decreases n - index_map@.len(),
        {
            proof {
                lemma_kept_bounds(d, index_map@.len() as int);
            }
            let j = index_map.len();
            index_map.push(next);
            if vis[j] {
                next = next + 1;
            }
        }
        let mut old_units: Vec<SerializedUnit> = Vec::new();
        std::mem::swap(&mut self.units, &mut old_units);
        let mut warnings: Vec<(usize, String)> = Vec::new();
        let mut i: usize = 0;
        while i < n
            invariant
                i <= n,
                n == d.units.len(),
                vis@.len() == n,
                !has_dangling(d),
                forall|j: usize| j < n ==> (vis@[j as int] <==> reachable(d, j)),
                index_map@.len() == n,
                forall|j: int| 0 <= j < n ==> #[trigger] index_map@[j] == new_index(d, j as usize),
                old_units@.len() == n,
                forall|j: int| i <= j < n ==> (#[trigger] old_units@[j])@ == d.units[j],
                self.version == d.version,
                self.roots@ == d.roots,
                self@.units == kept(d, i as int).map_values(|k: usize| relabel(d, d.units[k as int])),
                warnings@.len() == dropped(d, i as int).len(),
                forall|j: int|
                    0 <= j < warnings@.len() ==> (#[trigger] warnings@[j]).0 == dropped(d, i as int)[j]
                        && warnings@[j].1@ == d.units[dropped(d, i as int)[j] as int].attrs.pkg_id,
            decreases n - i,
        {
            let mut unit = blank_unit();
            old_units.set_and_swap(i, &mut unit);
            assert(unit@ == d.units[i as int]);
            if vis[i] {
                proof {
                    assert forall|m: int| 0 <= m < unit.dependencies@.len() implies (#[trigger] unit.dependencies@[m]).index < index_map@.len() by {
                        assert(unit@.dependencies[m] == unit.dependencies@[m]@);
                        lemma_dep_reachable(d, i, m);
                    }
                }
                let deps = relabel_deps(&unit.dependencies, &index_map, Ghost(d));
                unit.dependencies = deps;
                assert(unit@ == relabel(d, d.units[i as int]));
                let ghost before = self@.units;
                self.units.push(unit);
                assert(self@.units =~= before.push(relabel(d, d.units[i as int])));
                assert(kept(d, i + 1) == kept(d, i as int).push(i));
                assert(kept(d, i + 1).map_values(|k: usize| relabel(d, d.units[k as int])) =~= kept(d, i as int).map_values(|k: usize| relabel(d, d.units[k as int])).push(relabel(d, d.units[i as int])));
            } else {
                warnings.push((i, unit.pkg_id));
                assert(dropped(d, i + 1) == dropped(d, i as int).push(i));
            }
            i = i + 1;
        }
        let mut j: usize = 0;
        while j < self.roots.len()
            invariant
                n == d.units.len(),
                vis@.len() == n,
                !has_dangling(d),
                index_map@.len() == n,
                forall|k: int| 0 <= k < n ==> #[trigger] index_map@[k] == new_index(d, k as usize),
                self.version == d.version,
                self@.units == kept(d, n as int).map_values(|k: usize| relabel(d, d.units[k as int])),
                self.roots@.len() == d.roots.len(),
                j <= d.roots.len(),
                forall|k: int| 0 <= k < j ==> self.roots@[k] == new_index(d, d.roots[k]),
                forall|k: int| j <= k < d.roots.len() ==> self.roots@[k] == d.roots[k],
            decreases d.roots.len() - j,
        {
            let root = self.roots[j];
            proof {
                let p = seq![root];
                assert(d.roots[j as int] == root);
                assert(d.roots.contains(root));
                assert(is_path(d, p) && p.last() == root);
                assert(reachable(d, root));
                assert(root < n);
            }
            self.roots.set(j, index_map[root]);
            j = j + 1;
        }
        assert(self.roots@ =~= d.roots.map_values(|r: usize| new_index(d, r)));
        assert(self@ =~= pruned(d));
        Ok(warnings)
    }
}

/// Reads a parsed document: refuses a version other than `VERSION`, then
/// validates it. Returns the document and the warnings of the units removed.
pub fn load_serialized_unit_graph(unit_graph: SerializedUnitGraph) -> (r: Result<
    (SerializedUnitGraph, Vec<(usize, String)>),
    UnitGraphError,
>)
    ensures
        unit_graph@.version != VERSION ==> (r matches Err(
            UnitGraphError::UnsupportedVersion { version },
        ) && version == unit_graph@.version),
        unit_graph@.version == VERSION ==> (r is Ok <==> indices_valid(unit_graph@)),
        unit_graph@.version == VERSION && !indices_valid(unit_graph@) ==> (r matches Err(
            UnitGraphError::DanglingIndex { index, units },
        ) && units == unit_graph@.units.len() && index >= units && index_named(unit_graph@, index)),
        r matches Ok((g, w)) ==> (if all_reachable(unit_graph@) {
            g@ == unit_graph@ && w@.len() == 0
        } else {
            g@ == pruned(unit_graph@) && warnings_match(unit_graph@, w@)
        }),
{
    if unit_graph.version != VERSION {
        return Err(UnitGraphError::UnsupportedVersion { version: unit_graph.version });
    }
    let mut g = unit_graph;
    match g.validate() {
        Ok(w) => Ok((g, w)),
        Err(e) => Err(e),
    }
}

} // verus!
