use cargo2nix::expr::BoolExpr;
use cargo2nix::graph::{
    needs_prefetch, select_checksum, ChecksumError, DeclaredDependency, DependencyKind,
    DependencyTarget, ResolvedPackage,
};
use cargo2nix::names::RootFeature;
use cargo2nix::optionality::{all_eq, display_root_feature, Optionality};
use cargo2nix::order::compare_names;
use cargo2nix::simplify::{simplify_optionality, simplify_package};
use cargo2nix::tracker::{
    activate, activation_request, mark_required, root_features, ReachedPackage, Resolution,
};

fn s(x: &str) -> String {
    x.to_string()
}

fn names(xs: &[&str]) -> Vec<String> {
    xs.iter().map(|x| x.to_string()).collect()
}

fn decl(kind: DependencyKind, platform: Option<&str>) -> DeclaredDependency {
    DeclaredDependency { kind, platform: platform.map(|p| p.to_string()) }
}

fn target(t: usize, name: &str, decls: Vec<DeclaredDependency>) -> DependencyTarget {
    DependencyTarget { target: t, extern_name: Some(s(name)), declarations: decls }
}

fn reached(package: usize, features: &[&str], deps: &[usize]) -> ReachedPackage {
    ReachedPackage { package, features: names(features), dependencies: deps.to_vec() }
}

fn rf(p: &str, f: &str) -> RootFeature {
    RootFeature { package: s(p), feature: s(f) }
}

fn atom(key: &str) -> BoolExpr {
    BoolExpr::Single(format!("root_features ? {:?}", key))
}

fn edge_expr(g: &Vec<ResolvedPackage>, p: usize, t: usize) -> BoolExpr {
    let d = g[p].deps.iter().find(|d| d.target == t).unwrap();
    d.optionality.to_expr("root_features")
}

fn feature_expr(g: &Vec<ResolvedPackage>, p: usize, f: &str) -> BoolExpr {
    let x = g[p].features.iter().find(|x| x.name == f).unwrap();
    x.optionality.to_expr("root_features")
}

fn is_required(o: &Optionality) -> bool {
    matches!(o, Optionality::Required)
}

// Packages: 0 = app, 1 = tool, 2 = serde, 3 = rand.
fn app_tool_graph() -> Vec<ResolvedPackage> {
    let app = ResolvedPackage::new(
        &vec![
            target(2, "serde", vec![decl(DependencyKind::Normal, None)]),
            target(3, "rand", vec![decl(DependencyKind::Normal, None)]),
        ],
        &names(&["extra"]),
        None,
    );
    let tool = ResolvedPackage::new(
        &vec![target(2, "serde", vec![decl(DependencyKind::Normal, None)])],
        &vec![],
        None,
    );
    let serde = ResolvedPackage::new(&vec![], &names(&["std"]), Some(s("abc")));
    let rand = ResolvedPackage::new(&vec![], &vec![], Some(s("def")));
    vec![app, tool, serde, rand]
}

fn run_app_tool(g: &mut Vec<ResolvedPackage>) {
    mark_required(&s("app"), &Resolution { reached: vec![reached(0, &[], &[2]), reached(2, &["std"], &[])] }, g);
    activate(
        &rf("app", "extra"),
        &Resolution { reached: vec![reached(0, &["extra"], &[2, 3]), reached(2, &["std"], &[]), reached(3, &[], &[])] },
        g,
    );
    activate(&rf("app", "default"), &Resolution { reached: vec![reached(0, &[], &[2]), reached(2, &["std"], &[])] }, g);
    mark_required(&s("tool"), &Resolution { reached: vec![reached(1, &[], &[2]), reached(2, &["std"], &[])] }, g);
    activate(&rf("tool", "default"), &Resolution { reached: vec![reached(1, &[], &[2]), reached(2, &["std"], &[])] }, g);
}

#[test]
fn end_to_end_app_tool() {
    let mut g = app_tool_graph();
    run_app_tool(&mut g);
    simplify_optionality(&mut g, 2);
    assert_eq!(feature_expr(&g, 2, "std"), BoolExpr::True);
    assert_eq!(edge_expr(&g, 0, 3), BoolExpr::Or(vec![atom("app/extra")]));
    assert_eq!(edge_expr(&g, 0, 3), BoolExpr::Or(vec![BoolExpr::Single(s("root_features ? \"app/extra\""))]));
    assert_eq!(edge_expr(&g, 0, 2), BoolExpr::Or(vec![atom("app")]));
}

#[test]
fn universal_requirement_promotion() {
    // A and B both reach the edge from the shared package C to D.
    let c = ResolvedPackage::new(&vec![target(3, "d", vec![decl(DependencyKind::Normal, None)])], &names(&["x", "y"]), None);
    let a = ResolvedPackage::new(&vec![target(2, "c", vec![decl(DependencyKind::Normal, None)])], &vec![], None);
    let b = ResolvedPackage::new(&vec![target(2, "c", vec![decl(DependencyKind::Normal, None)])], &vec![], None);
    let d = ResolvedPackage::new(&vec![], &vec![], None);
    let mut g = vec![a, b, c, d];
    mark_required(&s("A"), &Resolution { reached: vec![reached(0, &[], &[2]), reached(2, &["x"], &[3])] }, &mut g);
    mark_required(&s("B"), &Resolution { reached: vec![reached(1, &[], &[2]), reached(2, &["y"], &[3])] }, &mut g);
    assert_eq!(edge_expr(&g, 2, 3), BoolExpr::Or(vec![atom("A"), atom("B")]));
    simplify_optionality(&mut g, 2);
    assert!(is_required(&g[2].deps[0].optionality));
    assert_eq!(feature_expr(&g, 2, "x"), BoolExpr::Or(vec![atom("A")]));
}

#[test]
fn feature_gating_single_atom() {
    let a = ResolvedPackage::new(
        &vec![
            target(1, "r", vec![decl(DependencyKind::Normal, None)]),
            target(2, "other", vec![decl(DependencyKind::Normal, None)]),
        ],
        &names(&["extra"]),
        None,
    );
    let r = ResolvedPackage::new(&vec![], &vec![], None);
    let other = ResolvedPackage::new(&vec![], &vec![], None);
    let mut g = vec![a, r, other];
    mark_required(&s("A"), &Resolution { reached: vec![reached(0, &[], &[2])] }, &mut g);
    activate(&rf("A", "extra"), &Resolution { reached: vec![reached(0, &["extra"], &[1, 2])] }, &mut g);
    activate(&rf("A", "default"), &Resolution { reached: vec![reached(0, &[], &[2])] }, &mut g);
    simplify_optionality(&mut g, 1);
    assert_eq!(edge_expr(&g, 0, 1), BoolExpr::Or(vec![atom("A/extra")]));
    assert_eq!(edge_expr(&g, 0, 2), BoolExpr::True);
}

#[test]
fn development_edge_forced_required() {
    let a = ResolvedPackage::new(
        &vec![
            target(1, "t", vec![decl(DependencyKind::Development, None)]),
            target(2, "u", vec![decl(DependencyKind::Normal, None)]),
        ],
        &names(&["f"]),
        None,
    );
    let t = ResolvedPackage::new(&vec![], &vec![], None);
    let u = ResolvedPackage::new(&vec![], &vec![], None);
    let mut g = vec![a, t, u];
    activate(&rf("A", "f"), &Resolution { reached: vec![reached(0, &["f"], &[2])] }, &mut g);
    simplify_optionality(&mut g, 3);
    assert!(is_required(&g[0].deps[0].optionality));
    assert_eq!(g[0].deps[0].kind, DependencyKind::Development);
    assert_eq!(edge_expr(&g, 0, 1), BoolExpr::True);
}

#[test]
fn homogeneous_collapse_keeps_inbound_edge() {
    let a = ResolvedPackage::new(
        &vec![
            target(1, "h", vec![decl(DependencyKind::Normal, None)]),
            target(2, "k", vec![decl(DependencyKind::Normal, None)]),
        ],
        &names(&["extra"]),
        None,
    );
    let h = ResolvedPackage::new(&vec![], &names(&["p", "q"]), None);
    let k = ResolvedPackage::new(&vec![], &vec![], None);
    let mut g = vec![a, h, k];
    mark_required(&s("A"), &Resolution { reached: vec![reached(0, &[], &[2])] }, &mut g);
    activate(
        &rf("A", "extra"),
        &Resolution { reached: vec![reached(0, &["extra"], &[1, 2]), reached(1, &["p", "q"], &[])] },
        &mut g,
    );
    mark_required(&s("B"), &Resolution { reached: vec![] }, &mut g);
    simplify_optionality(&mut g, 2);
    assert_eq!(feature_expr(&g, 1, "p"), BoolExpr::True);
    assert_eq!(feature_expr(&g, 1, "q"), BoolExpr::True);
    assert_eq!(edge_expr(&g, 0, 1), BoolExpr::Or(vec![atom("A/extra")]));
}

#[test]
fn pass_order_does_not_matter() {
    let mut g1 = app_tool_graph();
    run_app_tool(&mut g1);
    let mut g2 = app_tool_graph();
    mark_required(&s("tool"), &Resolution { reached: vec![reached(1, &[], &[2]), reached(2, &["std"], &[])] }, &mut g2);
    activate(&rf("tool", "default"), &Resolution { reached: vec![reached(1, &[], &[2]), reached(2, &["std"], &[])] }, &mut g2);
    mark_required(&s("app"), &Resolution { reached: vec![reached(2, &["std"], &[]), reached(0, &[], &[2])] }, &mut g2);
    activate(&rf("app", "default"), &Resolution { reached: vec![reached(0, &[], &[2]), reached(2, &["std"], &[])] }, &mut g2);
    activate(
        &rf("app", "extra"),
        &Resolution { reached: vec![reached(3, &[], &[]), reached(2, &["std"], &[]), reached(0, &["extra"], &[3, 2])] },
        &mut g2,
    );
    for p in 0..4 {
        for (d1, d2) in g1[p].deps.iter().zip(g2[p].deps.iter()) {
            assert_eq!(d1.optionality.to_expr("v"), d2.optionality.to_expr("v"));
        }
        for (f1, f2) in g1[p].features.iter().zip(g2[p].features.iter()) {
            assert_eq!(f1.optionality.to_expr("v"), f2.optionality.to_expr("v"));
        }
    }
    assert_eq!(feature_expr(&g1, 2, "std"), BoolExpr::Or(vec![atom("app"), atom("tool")]));
}

#[test]
fn simplify_twice_is_simplify_once() {
    let mut g = app_tool_graph();
    run_app_tool(&mut g);
    simplify_optionality(&mut g, 2);
    let once: Vec<Vec<BoolExpr>> = g.iter().map(|p| p.deps.iter().map(|d| d.optionality.to_expr("v")).collect()).collect();
    simplify_optionality(&mut g, 2);
    let twice: Vec<Vec<BoolExpr>> = g.iter().map(|p| p.deps.iter().map(|d| d.optionality.to_expr("v")).collect()).collect();
    assert_eq!(once, twice);
}

#[test]
fn single_item_package_collapses() {
    let mut p = ResolvedPackage::new(&vec![], &names(&["only"]), None);
    let mut g = vec![ResolvedPackage::new(&vec![], &vec![], None)];
    std::mem::swap(&mut g[0], &mut p);
    activate(&rf("A", "only"), &Resolution { reached: vec![reached(0, &["only"], &[])] }, &mut g);
    let mut pkg = g.remove(0);
    simplify_package(&mut pkg, 5);
    assert!(is_required(&pkg.features[0].optionality));
}

#[test]
fn activation_skipped_when_already_required() {
    let mut o = Optionality::default();
    o.required_by(&s("app"));
    o.activated_by(&rf("app", "extra"));
    o.activated_by(&rf("tool", "x"));
    assert_eq!(o.to_expr("v"), BoolExpr::Or(vec![BoolExpr::Single(s("v ? \"tool/x\"")), BoolExpr::Single(s("v ? \"app\""))]));
}

#[test]
fn sets_are_sorted_and_deduplicated() {
    let mut o = Optionality::default();
    o.required_by(&s("zeta"));
    o.required_by(&s("alpha"));
    o.required_by(&s("zeta"));
    o.activated_by(&rf("m", "b"));
    o.activated_by(&rf("m", "a"));
    o.activated_by(&rf("c", "z"));
    o.activated_by(&rf("m", "a"));
    assert_eq!(
        o.to_expr("v"),
        BoolExpr::Or(vec![atom_v("c/z"), atom_v("m/a"), atom_v("m/b"), atom_v("alpha"), atom_v("zeta")])
    );
}

fn atom_v(key: &str) -> BoolExpr {
    BoolExpr::Single(format!("v ? {:?}", key))
}

#[test]
fn required_stays_required() {
    let mut o = Optionality::Required;
    o.required_by(&s("a"));
    o.activated_by(&rf("a", "b"));
    assert_eq!(o.to_expr("v"), BoolExpr::True);
}

#[test]
fn empty_optionality_is_empty_disjunction() {
    assert_eq!(Optionality::default().to_expr("v"), BoolExpr::Or(vec![]));
}

#[test]
fn atoms_escape_their_keys() {
    let mut o = Optionality::default();
    o.required_by(&s("we\"ird"));
    assert_eq!(o.to_expr("sel"), BoolExpr::Or(vec![BoolExpr::Single(s("sel ? \"we\\\"ird\""))]));
}

#[test]
fn root_feature_display() {
    assert_eq!(display_root_feature(&rf("app", "extra")), "app/extra");
}

#[test]
fn name_order_is_bytewise() {
    assert!(compare_names("a", "b") < 0);
    assert!(compare_names("b", "a") > 0);
    assert_eq!(compare_names("abc", "abc"), 0);
    assert!(compare_names("ab", "abc") < 0);
    assert!(compare_names("Z", "a") < 0);
    assert!(compare_names("", "a") < 0);
}

#[test]
fn all_eq_cases() {
    let a = Optionality::default();
    let b = Optionality::default();
    let mut c = Optionality::default();
    c.required_by(&s("x"));
    let r = Optionality::Required;
    assert!(all_eq(&vec![]));
    assert!(all_eq(&vec![&a]));
    assert!(all_eq(&vec![&a, &b]));
    assert!(!all_eq(&vec![&a, &b, &c]));
    assert!(!all_eq(&vec![&r, &a]));
    assert!(all_eq(&vec![&r, &Optionality::Required]));
    assert!(a.equals(&b));
    assert!(!a.equals(&c));
}

#[test]
fn root_features_add_default_when_undeclared() {
    assert_eq!(root_features(&names(&["extra"]), &names(&["rand"])), names(&["extra", "rand", "default"]));
    assert_eq!(root_features(&names(&["default", "x"]), &vec![]), names(&["default", "x"]));
    assert_eq!(root_features(&vec![], &vec![]), names(&["default"]));
}

#[test]
fn activation_request_shapes() {
    let d = activation_request(&s("default"));
    assert!(d.features.is_empty());
    assert!(d.uses_default_features);
    let e = activation_request(&s("extra"));
    assert_eq!(e.features, names(&["extra"]));
    assert!(!e.uses_default_features);
}

#[test]
fn checksum_selection() {
    assert_eq!(select_checksum(Some(s("abc")), true, None), Ok(Some(s("abc"))));
    assert_eq!(select_checksum(None, false, None), Ok(None));
    assert_eq!(select_checksum(None, true, Some(s("h"))), Ok(Some(s("h"))));
    assert_eq!(select_checksum(None, true, None), Err(ChecksumError::Unavailable));
    assert!(needs_prefetch(&None, true));
    assert!(!needs_prefetch(&Some(s("x")), true));
    assert!(!needs_prefetch(&None, false));
}

#[test]
fn builder_merges_declarations() {
    let p = ResolvedPackage::new(
        &vec![
            target(5, "five", vec![decl(DependencyKind::Build, Some("unix")), decl(DependencyKind::Normal, Some("unix")), decl(DependencyKind::Normal, Some("windows"))]),
            DependencyTarget { target: 1, extern_name: None, declarations: vec![decl(DependencyKind::Normal, None)] },
            target(2, "two", vec![decl(DependencyKind::Normal, Some("unix")), decl(DependencyKind::Normal, None), decl(DependencyKind::Development, None)]),
        ],
        &names(&["b", "a", "b"]),
        Some(s("sum")),
    );
    let keys: Vec<(usize, DependencyKind)> = p.deps.iter().map(|d| (d.target, d.kind)).collect();
    assert_eq!(
        keys,
        vec![(2, DependencyKind::Normal), (2, DependencyKind::Development), (5, DependencyKind::Normal), (5, DependencyKind::Build)]
    );
    assert_eq!(p.deps[0].platforms, None);
    assert_eq!(p.deps[0].extern_name, "two");
    assert_eq!(p.deps[2].platforms, Some(names(&["unix", "windows"])));
    assert_eq!(p.deps[3].platforms, Some(names(&["unix"])));
    let fs: Vec<String> = p.features.iter().map(|f| f.name.clone()).collect();
    assert_eq!(fs, names(&["a", "b"]));
    assert_eq!(p.checksum, Some(s("sum")));
    assert_eq!(p.deps[1].optionality.to_expr("v"), BoolExpr::Or(vec![]));
}
