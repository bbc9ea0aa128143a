//! Units, the nodes of the graph, and the edges between them.
use crate::order::{
    cmp_bool, cmp_flag, cmp_int, cmp_opt_string, cmp_opt_text, cmp_string, cmp_strings, cmp_text,
    cmp_texts, cmp_u64, lemma_cmp_opt_text, lemma_cmp_text, lemma_cmp_texts, opt_text, then,
    total_at,
};
use core::cmp::Ordering;
use vstd::prelude::*;

verus! {

/// One build action: a target of a package, built with a profile for a
/// platform in a mode. Two units with the same attributes are the same node.
#[derive(Debug, Clone, PartialEq, Eq)]
pub struct Unit {
    pub pkg_id: String,
    pub target: String,
    pub profile: String,
    pub platform: String,
    pub mode: String,
    pub features: Vec<String>,
    pub rustflags: Vec<String>,
    pub rustdocflags: Vec<String>,
    pub is_std: bool,
    pub dep_hash: u64,
    pub artifact: bool,
    pub artifact_target_for_features: Option<String>,
    pub skip_freshness_check: bool,
}

/// The attributes of a unit as plain values.
pub struct UnitView {
    pub pkg_id: Seq<char>,
    pub target: Seq<char>,
    pub profile: Seq<char>,
    pub platform: Seq<char>,
    pub mode: Seq<char>,
    pub features: Seq<Seq<char>>,
    pub rustflags: Seq<Seq<char>>,
    pub rustdocflags: Seq<Seq<char>>,
    pub is_std: bool,
    pub dep_hash: u64,
    pub artifact: bool,
    pub artifact_target_for_features: Option<Seq<char>>,
    pub skip_freshness_check: bool,
}

impl View for Unit {
    type V = UnitView;

    open spec fn view(&self) -> UnitView {
        UnitView {
            pkg_id: self.pkg_id@,
            target: self.target@,
            profile: self.profile@,
            platform: self.platform@,
            mode: self.mode@,
            features: self.features.deep_view(),
            rustflags: self.rustflags.deep_view(),
            rustdocflags: self.rustdocflags.deep_view(),
            is_std: self.is_std,
            dep_hash: self.dep_hash,
            artifact: self.artifact,
            artifact_target_for_features: opt_text(&self.artifact_target_for_features),
            skip_freshness_check: self.skip_freshness_check,
        }
    }
}

/// The order of units: their attributes compared one after another, in the
/// order in which they are declared.
#[verifier::opaque]
pub open spec fn unit_cmp(a: UnitView, b: UnitView) -> Ordering {
    then(
        cmp_text(a.pkg_id, b.pkg_id),
        then(
            cmp_text(a.target, b.target),
            then(
                cmp_text(a.profile, b.profile),
                then(
                    cmp_text(a.platform, b.platform),
                    then(
                        cmp_text(a.mode, b.mode),
                        then(
                            cmp_texts(a.features, b.features),
                            then(
                                cmp_texts(a.rustflags, b.rustflags),
                                then(
                                    cmp_texts(a.rustdocflags, b.rustdocflags),
                                    then(
                                        cmp_bool(a.is_std, b.is_std),
                                        then(
                                            cmp_int(a.dep_hash as int, b.dep_hash as int),
                                            then(
                                                cmp_bool(a.artifact, b.artifact),
                                                then(
                                                    cmp_opt_text(
                                                        a.artifact_target_for_features,
                                                        b.artifact_target_for_features,
                                                    ),
                                                    cmp_bool(
                                                        a.skip_freshness_check,
                                                        b.skip_freshness_check,
                                                    ),
                                                ),
                                            ),
                                        ),
                                    ),
                                ),
                            ),
                        ),
                    ),
                ),
            ),
        ),
    )
}

pub open spec fn unit_lt(a: UnitView, b: UnitView) -> bool {
    unit_cmp(a, b) == Ordering::Less
}

proof fn lemma_unit_fields(a: UnitView, b: UnitView, c: UnitView)
    ensures
        total_at(cmp_text(a.pkg_id, b.pkg_id), cmp_text(b.pkg_id, a.pkg_id), cmp_text(b.pkg_id, c.pkg_id), cmp_text(a.pkg_id, c.pkg_id), a.pkg_id, b.pkg_id),
        total_at(cmp_text(a.target, b.target), cmp_text(b.target, a.target), cmp_text(b.target, c.target), cmp_text(a.target, c.target), a.target, b.target),
        total_at(cmp_text(a.profile, b.profile), cmp_text(b.profile, a.profile), cmp_text(b.profile, c.profile), cmp_text(a.profile, c.profile), a.profile, b.profile),
        total_at(cmp_text(a.platform, b.platform), cmp_text(b.platform, a.platform), cmp_text(b.platform, c.platform), cmp_text(a.platform, c.platform), a.platform, b.platform),
        total_at(cmp_text(a.mode, b.mode), cmp_text(b.mode, a.mode), cmp_text(b.mode, c.mode), cmp_text(a.mode, c.mode), a.mode, b.mode),
        total_at(cmp_texts(a.features, b.features), cmp_texts(b.features, a.features), cmp_texts(b.features, c.features), cmp_texts(a.features, c.features), a.features, b.features),
        total_at(cmp_texts(a.rustflags, b.rustflags), cmp_texts(b.rustflags, a.rustflags), cmp_texts(b.rustflags, c.rustflags), cmp_texts(a.rustflags, c.rustflags), a.rustflags, b.rustflags),
        total_at(cmp_texts(a.rustdocflags, b.rustdocflags), cmp_texts(b.rustdocflags, a.rustdocflags), cmp_texts(b.rustdocflags, c.rustdocflags), cmp_texts(a.rustdocflags, c.rustdocflags), a.rustdocflags, b.rustdocflags),
        total_at(cmp_opt_text(a.artifact_target_for_features, b.artifact_target_for_features), cmp_opt_text(b.artifact_target_for_features, a.artifact_target_for_features), cmp_opt_text(b.artifact_target_for_features, c.artifact_target_for_features), cmp_opt_text(a.artifact_target_for_features, c.artifact_target_for_features), a.artifact_target_for_features, b.artifact_target_for_features),
{
    lemma_cmp_text(a.pkg_id, b.pkg_id, c.pkg_id);
    lemma_cmp_text(a.target, b.target, c.target);
    lemma_cmp_text(a.profile, b.profile, c.profile);
    lemma_cmp_text(a.platform, b.platform, c.platform);
    lemma_cmp_text(a.mode, b.mode, c.mode);
    lemma_cmp_texts(a.features, b.features, c.features);
    lemma_cmp_texts(a.rustflags, b.rustflags, c.rustflags);
    lemma_cmp_texts(a.rustdocflags, b.rustdocflags, c.rustdocflags);
    lemma_cmp_opt_text(a.artifact_target_for_features, b.artifact_target_for_features, c.artifact_target_for_features);
}

/// The order of units is a strict total order: equal exactly on equal
/// attributes, reversed when the arguments are swapped, and transitive.
pub proof fn lemma_unit_order(a: UnitView, b: UnitView, c: UnitView)
    ensures
        unit_cmp(a, b) == Ordering::Equal <==> a == b,
        unit_lt(a, b) <==> unit_cmp(b, a) == Ordering::Greater,
        unit_lt(a, b) && unit_lt(b, c) ==> unit_lt(a, c),
{
    reveal(unit_cmp);
    lemma_unit_fields(a, b, c);
    lemma_unit_fields(b, a, c);
    lemma_unit_fields(b, c, a);
}

/// Compares two units in the order of `unit_cmp`.
pub fn cmp_units(a: &Unit, b: &Unit) -> (r: Ordering)
    ensures
        r == unit_cmp(a@, b@),
{
    reveal(unit_cmp);
    let o = cmp_string(&a.pkg_id, &b.pkg_id);
    if let Ordering::Equal = o {} else { return o; }
    let o = cmp_string(&a.target, &b.target);
    if let Ordering::Equal = o {} else { return o; }
    let o = cmp_string(&a.profile, &b.profile);
    if let Ordering::Equal = o {} else { return o; }
    let o = cmp_string(&a.platform, &b.platform);
    if let Ordering::Equal = o {} else { return o; }
    let o = cmp_string(&a.mode, &b.mode);
    if let Ordering::Equal = o {} else { return o; }
    let o = cmp_strings(&a.features, &b.features);
    if let Ordering::Equal = o {} else { return o; }
    let o = cmp_strings(&a.rustflags, &b.rustflags);
    if let Ordering::Equal = o {} else { return o; }
    let o = cmp_strings(&a.rustdocflags, &b.rustdocflags);
    if let Ordering::Equal = o {} else { return o; }
    let o = cmp_flag(a.is_std, b.is_std);
    if let Ordering::Equal = o {} else { return o; }
    let o = cmp_u64(a.dep_hash, b.dep_hash);
    if let Ordering::Equal = o {} else { return o; }
    let o = cmp_flag(a.artifact, b.artifact);
    if let Ordering::Equal = o {} else { return o; }
    let o = cmp_opt_string(&a.artifact_target_for_features, &b.artifact_target_for_features);
    if let Ordering::Equal = o {} else { return o; }
    cmp_flag(a.skip_freshness_check, b.skip_freshness_check)
}

/// Whether two units are the same node of the graph.
pub fn same_unit(a: &Unit, b: &Unit) -> (r: bool)
    ensures
        r == (a@ == b@),
{
    let o = cmp_units(a, b);
    proof {
        lemma_unit_order(a@, b@, b@);
    }
    if let Ordering::Equal = o {
        true
    } else {
        false
    }
}

/// An edge from a unit to one of its dependencies.
#[derive(Debug, Clone, PartialEq, Eq)]
pub struct UnitDep {
    /// The dependency unit.
    pub unit: Unit,
    /// Why the edge exists (a normal dependency, one of a test, of a build
    /// script, ...); carried along and never inspected.
    pub unit_for: String,
    /// The name the dependent uses to refer to the dependency.
    pub extern_crate_name: String,
    /// The name of the dependency where it was renamed.
    pub dep_name: Option<String>,
    /// Whether the dependency is exposed to the dependent's own dependents.
    pub public: bool,
    /// Whether the dependency stays out of the prelude.
    pub noprelude: bool,
}

pub struct UnitDepView {
    pub unit: UnitView,
    pub unit_for: Seq<char>,
    pub extern_crate_name: Seq<char>,
    pub dep_name: Option<Seq<char>>,
    pub public: bool,
    pub noprelude: bool,
}

impl View for UnitDep {
    type V = UnitDepView;

    open spec fn view(&self) -> UnitDepView {
        UnitDepView {
            unit: self.unit@,
            unit_for: self.unit_for@,
            extern_crate_name: self.extern_crate_name@,
            dep_name: opt_text(&self.dep_name),
            public: self.public,
            noprelude: self.noprelude,
        }
    }
}

} // verus!
