use unit_graph::{
    cli, emit_serialized_unit_graph, load_serialized_unit_graph, EmitContext, SerializedUnit,
    SerializedUnitDep, SerializedUnitGraph, Unit, UnitDep, UnitGraph, UnitGraphError, VERSION,
};

fn unit(pkg: &str) -> Unit {
    Unit {
        pkg_id: pkg.to_string(),
        target: "lib".to_string(),
        profile: "dev".to_string(),
        platform: "host".to_string(),
        mode: "build".to_string(),
        features: vec!["default".to_string()],
        rustflags: vec![],
        rustdocflags: vec![],
        is_std: false,
        dep_hash: 7,
        artifact: false,
        artifact_target_for_features: None,
        skip_freshness_check: false,
    }
}

fn dep(u: &Unit, name: &str, public: bool) -> UnitDep {
    UnitDep {
        unit: u.clone(),
        unit_for: "normal".to_string(),
        extern_crate_name: name.to_string(),
        dep_name: None,
        public,
        noprelude: false,
    }
}

fn ctx(nightly: bool) -> EmitContext {
    EmitContext { nightly_features_allowed: nightly, extra_compiler_args: vec![] }
}

fn doc_unit(pkg: &str, deps: &[usize]) -> SerializedUnit {
    SerializedUnit {
        pkg_id: pkg.to_string(),
        target: "lib".to_string(),
        profile: "dev".to_string(),
        platform: "host".to_string(),
        mode: "build".to_string(),
        features: vec![],
        rustflags: vec![],
        rustdocflags: vec![],
        is_std: false,
        dep_hash: 0,
        artifact: false,
        artifact_target_for_features: None,
        extra_compiler_args: vec![],
        skip_freshness_check: false,
        dependencies: deps
            .iter()
            .map(|&index| SerializedUnitDep {
                index,
                extern_crate_name: format!("d{}", index),
                public: None,
                noprelude: None,
                dep_name: None,
                unit_for: "normal".to_string(),
            })
            .collect(),
    }
}

fn doc(units: Vec<SerializedUnit>, roots: Vec<usize>) -> SerializedUnitGraph {
    SerializedUnitGraph { version: VERSION, units, roots }
}

fn pkgs(g: &SerializedUnitGraph) -> Vec<String> {
    g.units.iter().map(|u| u.pkg_id.clone()).collect()
}

/// app -> lib, app -> util, lib -> util; listed in an arbitrary order.
fn sample(order: &[usize]) -> (Vec<Unit>, UnitGraph) {
    let app = unit("app 0.1.0");
    let lib = unit("lib 0.1.0");
    let util = unit("util 0.1.0");
    let all = vec![
        (app.clone(), vec![dep(&lib, "lib", true), dep(&util, "util", false)]),
        (lib.clone(), vec![dep(&util, "util", false)]),
        (util.clone(), vec![]),
    ];
    let entries = order.iter().map(|&i| all[i].clone()).collect();
    (vec![app], UnitGraph { entries })
}

#[test]
fn emit_orders_units_and_points_edges_by_index() {
    let (roots, graph) = sample(&[0, 1, 2]);
    let d = emit_serialized_unit_graph(&roots, &graph, &ctx(false));
    assert_eq!(d.version, 1);
    assert_eq!(pkgs(&d), vec!["app 0.1.0", "lib 0.1.0", "util 0.1.0"]);
    assert_eq!(d.roots, vec![0]);
    let idx: Vec<usize> = d.units[0].dependencies.iter().map(|x| x.index).collect();
    assert_eq!(idx, vec![1, 2]);
    assert_eq!(d.units[1].dependencies[0].index, 2);
    assert_eq!(d.units[1].dependencies[0].extern_crate_name, "util");
    assert!(d.units[2].dependencies.is_empty());
}

#[test]
fn emit_sorts_by_later_attributes_when_packages_tie() {
    let mut a = unit("same 1.0.0");
    a.mode = "test".to_string();
    let b = unit("same 1.0.0");
    let graph = UnitGraph { entries: vec![(a.clone(), vec![]), (b.clone(), vec![])] };
    let d = emit_serialized_unit_graph(&vec![a], &graph, &ctx(false));
    assert_eq!(d.units[0].mode, "build");
    assert_eq!(d.units[1].mode, "test");
    assert_eq!(d.roots, vec![1]);
}

#[test]
fn emit_is_deterministic_whatever_the_listing_order() {
    let (roots, g1) = sample(&[0, 1, 2]);
    let (_, g2) = sample(&[2, 0, 1]);
    let (_, g3) = sample(&[1, 2, 0]);
    let d1 = emit_serialized_unit_graph(&roots, &g1, &ctx(true));
    let d2 = emit_serialized_unit_graph(&roots, &g2, &ctx(true));
    let d3 = emit_serialized_unit_graph(&roots, &g3, &ctx(true));
    assert_eq!(d1, d2);
    assert_eq!(d1, d3);
    assert_eq!(d1, emit_serialized_unit_graph(&roots, &g1, &ctx(true)));
}

#[test]
fn emitted_indices_are_in_range() {
    let (roots, graph) = sample(&[2, 1, 0]);
    let d = emit_serialized_unit_graph(&roots, &graph, &ctx(false));
    for u in &d.units {
        for x in &u.dependencies {
            assert!(x.index < d.units.len());
        }
    }
    for r in &d.roots {
        assert!(*r < d.units.len());
    }
}

#[test]
fn opt_in_fields_absent_when_off() {
    let (roots, graph) = sample(&[0, 1, 2]);
    let d = emit_serialized_unit_graph(&roots, &graph, &ctx(false));
    for u in &d.units {
        for x in &u.dependencies {
            assert_eq!(x.public, None);
            assert_eq!(x.noprelude, None);
        }
    }
}

#[test]
fn opt_in_fields_present_when_on() {
    let (roots, graph) = sample(&[0, 1, 2]);
    let d = emit_serialized_unit_graph(&roots, &graph, &ctx(true));
    assert_eq!(d.units[0].dependencies[0].public, Some(true));
    assert_eq!(d.units[0].dependencies[1].public, Some(false));
    for u in &d.units {
        for x in &u.dependencies {
            assert_eq!(x.noprelude, Some(false));
        }
    }
}

#[test]
fn emit_attaches_extra_compiler_args() {
    let (roots, graph) = sample(&[0, 1, 2]);
    let c = EmitContext {
        nightly_features_allowed: false,
        extra_compiler_args: vec![(unit("lib 0.1.0"), vec!["--cfg".to_string(), "x".to_string()])],
    };
    let d = emit_serialized_unit_graph(&roots, &graph, &c);
    assert_eq!(d.units[1].extra_compiler_args, vec!["--cfg", "x"]);
    assert!(d.units[0].extra_compiler_args.is_empty());
    assert!(d.units[2].extra_compiler_args.is_empty());
}

#[test]
fn emit_copies_unit_attributes() {
    let mut u = unit("x 2.0.0");
    u.is_std = true;
    u.dep_hash = 99;
    u.artifact = true;
    u.artifact_target_for_features = Some("wasm32-unknown-unknown".to_string());
    u.skip_freshness_check = true;
    u.rustflags = vec!["-Copt-level=3".to_string()];
    let graph = UnitGraph { entries: vec![(u.clone(), vec![])] };
    let d = emit_serialized_unit_graph(&vec![u.clone()], &graph, &ctx(false));
    let s = &d.units[0];
    assert_eq!(s.pkg_id, "x 2.0.0");
    assert!(s.is_std && s.artifact && s.skip_freshness_check);
    assert_eq!(s.dep_hash, 99);
    assert_eq!(s.artifact_target_for_features.as_deref(), Some("wasm32-unknown-unknown"));
    assert_eq!(s.rustflags, vec!["-Copt-level=3"]);
    assert_eq!(s.features, vec!["default"]);
}

#[test]
fn validate_prunes_unreachable_unit() {
    let mut g = doc(vec![doc_unit("A", &[1]), doc_unit("B", &[]), doc_unit("C", &[])], vec![0]);
    let warnings = g.validate().unwrap();
    assert_eq!(pkgs(&g), vec!["A", "B"]);
    assert_eq!(g.roots, vec![0]);
    assert_eq!(g.units[0].dependencies[0].index, 1);
    assert_eq!(warnings, vec![(2, "C".to_string())]);
}

#[test]
fn validate_renumbers_after_a_gap() {
    let mut g = doc(
        vec![doc_unit("X", &[]), doc_unit("A", &[3, 2]), doc_unit("B", &[]), doc_unit("C", &[2])],
        vec![1],
    );
    let warnings = g.validate().unwrap();
    assert_eq!(pkgs(&g), vec!["A", "B", "C"]);
    assert_eq!(g.roots, vec![0]);
    let idx: Vec<usize> = g.units[0].dependencies.iter().map(|x| x.index).collect();
    assert_eq!(idx, vec![2, 1]);
    assert_eq!(g.units[2].dependencies[0].index, 1);
    assert_eq!(g.units[0].dependencies[0].extern_crate_name, "d3");
    assert_eq!(warnings, vec![(0, "X".to_string())]);
}

#[test]
fn validate_empty_roots_removes_everything() {
    let mut g = doc(vec![doc_unit("A", &[1]), doc_unit("B", &[])], vec![]);
    let warnings = g.validate().unwrap();
    assert!(g.units.is_empty());
    assert!(g.roots.is_empty());
    assert_eq!(warnings.len(), 2);
}

#[test]
fn validate_rejects_dependency_one_past_the_end() {
    let mut g = doc(vec![doc_unit("A", &[1]), doc_unit("B", &[2])], vec![0]);
    let before = g.clone();
    let e = g.validate().unwrap_err();
    assert_eq!(e, UnitGraphError::DanglingIndex { index: 2, units: 2 });
    assert_eq!(g, before);
}

#[test]
fn validate_rejects_dangling_root() {
    let mut g = doc(vec![doc_unit("A", &[])], vec![5]);
    assert_eq!(g.validate(), Err(UnitGraphError::DanglingIndex { index: 5, units: 1 }));
}

#[test]
fn validate_keeps_dense_document_unchanged() {
    let mut g = doc(vec![doc_unit("A", &[1, 2]), doc_unit("B", &[2]), doc_unit("C", &[])], vec![0]);
    let before = g.clone();
    let warnings = g.validate().unwrap();
    assert!(warnings.is_empty());
    assert_eq!(g, before);
}

#[test]
fn validate_accepts_cycles() {
    let mut g = doc(vec![doc_unit("A", &[1]), doc_unit("B", &[0])], vec![0]);
    let before = g.clone();
    assert!(g.validate().unwrap().is_empty());
    assert_eq!(g, before);
}

#[test]
fn load_rejects_unknown_version() {
    let mut g = doc(vec![doc_unit("A", &[])], vec![0]);
    g.version = 2;
    assert_eq!(
        load_serialized_unit_graph(g),
        Err(UnitGraphError::UnsupportedVersion { version: 2 })
    );
}

#[test]
fn load_validates() {
    let g = doc(vec![doc_unit("A", &[]), doc_unit("B", &[])], vec![1]);
    let (g, w) = load_serialized_unit_graph(g).unwrap();
    assert_eq!(pkgs(&g), vec!["B"]);
    assert_eq!(g.roots, vec![0]);
    assert_eq!(w, vec![(0, "A".to_string())]);
}

#[test]
fn round_trip_keeps_reachable_units() {
    // `extra` is in the graph but no root reaches it
    let extra = unit("zeta 0.1.0");
    let (roots, mut graph) = sample(&[0, 1, 2]);
    graph.entries.push((extra, vec![]));
    let d = emit_serialized_unit_graph(&roots, &graph, &ctx(true));
    assert_eq!(d.units.len(), 4);
    let (v, w) = load_serialized_unit_graph(d.clone()).unwrap();
    assert_eq!(v.units.len(), 3);
    assert_eq!(w, vec![(3, "zeta 0.1.0".to_string())]);
    for (i, u) in v.units.iter().enumerate() {
        assert_eq!(u.pkg_id, d.units[i].pkg_id);
        assert_eq!(u.features, d.units[i].features);
        assert_eq!(u.dependencies, d.units[i].dependencies);
    }
}

#[test]
fn round_trip_of_fully_reachable_graph_is_identity() {
    let (roots, graph) = sample(&[1, 0, 2]);
    let d = emit_serialized_unit_graph(&roots, &graph, &ctx(false));
    let (v, w) = load_serialized_unit_graph(d.clone()).unwrap();
    assert!(w.is_empty());
    assert_eq!(v, d);
}

#[test]
fn cli_describes_subcommand() {
    let c = cli();
    assert_eq!(c.name, "build-unit-graph");
    assert_eq!(c.about, "Build a unit graph");
    assert_eq!(c.args[0].name, "path");
    assert!(c.args[0].required && c.args[0].positional);
    assert_eq!(c.args[0].value_name.as_deref(), Some("PATH"));
    let names: Vec<&str> = c.args[1..].iter().map(|a| a.name.as_str()).collect();
    assert_eq!(
        names,
        vec!["future-incompat-report", "message-format", "quiet", "jobs", "keep-going", "target-dir", "timings"]
    );
}

#[test]
fn validate_rejects_dangling_index_on_unreachable_unit() {
    let mut g = doc(vec![doc_unit("A", &[]), doc_unit("B", &[2])], vec![0]);
    let before = g.clone();
    assert_eq!(g.validate(), Err(UnitGraphError::DanglingIndex { index: 2, units: 2 }));
    assert_eq!(g, before);
}

#[test]
fn validate_twice_changes_nothing_more() {
    let mut g = doc(
        vec![doc_unit("X", &[]), doc_unit("A", &[3, 2]), doc_unit("B", &[]), doc_unit("C", &[2])],
        vec![1],
    );
    assert_eq!(g.validate().unwrap().len(), 1);
    let once = g.clone();
    assert!(g.validate().unwrap().is_empty());
    assert_eq!(g, once);
}
