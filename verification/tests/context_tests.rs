use embassy_devtool::types::{
    build_catalog, check_publish_dependencies, default_publish, position_of, BuildConfig, Context, ContextError,
    Crate, CycleError, DepKind, Metadata, MetadataEmbassy,
};

fn strings(items: &[&str]) -> Vec<String> {
    items.iter().map(|s| s.to_string()).collect()
}

fn krate(name: &str, version: &str, deps: &[&str], publish: bool) -> Crate {
    Crate {
        name: name.to_string(),
        version: version.to_string(),
        path: format!("/repo/{}", name),
        dependencies: strings(deps),
        build_dependencies: Vec::new(),
        dev_dependencies: Vec::new(),
        configs: vec![BuildConfig::default()],
        publish,
    }
}

fn with_kinds(name: &str, deps: &[&str], build: &[&str], dev: &[&str]) -> Crate {
    let mut c = krate(name, "1.0.0", deps, true);
    c.build_dependencies = strings(build);
    c.dev_dependencies = strings(dev);
    c
}

fn names(ctx: &Context) -> Vec<String> {
    ctx.crates().iter().map(|c| c.name.clone()).collect()
}

fn sorted(mut v: Vec<String>) -> Vec<String> {
    v.sort();
    v
}

fn chain() -> Context {
    // a depends on b, b depends on c; d stands alone
    Context::new(
        "/repo".to_string(),
        vec![
            krate("a", "1.0.0", &["b"], true),
            krate("b", "1.0.0", &["c"], true),
            krate("c", "1.0.0", &[], true),
            krate("d", "1.0.0", &[], true),
        ],
    )
    .unwrap()
}

#[test]
fn defaults_are_empty() {
    let c = BuildConfig::default();
    assert!(c.group.is_none() && c.target.is_none() && c.artifact_dir.is_none());
    assert!(c.features.is_empty() && c.env.is_empty() && c.build_std.is_empty());
    let m = MetadataEmbassy::default();
    assert!(!m.skip && m.build.is_empty());
    let m = Metadata::default();
    assert!(!m.embassy.skip && m.embassy.build.is_empty());
    assert!(default_publish());
}

#[test]
fn all_dependencies_chains_the_three_tables() {
    let c = with_kinds("x", &["r1", "r2"], &["b1"], &["d1", "r1"]);
    assert_eq!(c.all_dependencies(), strings(&["r1", "r2", "b1", "d1", "r1"]));
    assert!(c.depends_on(DepKind::Runtime, "r2"));
    assert!(!c.depends_on(DepKind::Runtime, "b1"));
    assert!(c.depends_on(DepKind::Build, "b1"));
    assert!(c.depends_on(DepKind::Dev, "d1"));
    assert!(c.depends_on(DepKind::Any, "b1"));
    assert!(!c.depends_on(DepKind::Any, "zz"));
}

#[test]
fn catalog_is_sorted_by_name() {
    let catalog = build_catalog(vec![
        krate("net", "1.0.0", &[], true),
        krate("core", "1.0.0", &[], true),
        krate("app", "1.0.0", &[], true),
    ]);
    let got: Vec<&str> = catalog.iter().map(|c| c.name.as_str()).collect();
    assert_eq!(got, vec!["app", "core", "net"]);
    assert_eq!(position_of(&catalog, "core"), Some(1));
    assert_eq!(position_of(&catalog, "zzz"), None);
}

#[test]
fn catalog_keeps_the_last_package_of_a_name() {
    let catalog = build_catalog(vec![
        krate("core", "1.0.0", &[], true),
        krate("net", "1.0.0", &[], true),
        krate("core", "2.0.0", &[], true),
    ]);
    assert_eq!(catalog.len(), 2);
    assert_eq!(catalog[0].name, "core");
    assert_eq!(catalog[0].version, "2.0.0");
    assert_eq!(catalog[1].name, "net");
}

#[test]
fn context_new_builds_the_catalog() {
    let ctx = chain();
    assert_eq!(ctx.len(), 4);
    assert_eq!(names(&ctx), strings(&["a", "b", "c", "d"]));
    assert_eq!(ctx.root(), "/repo");
    assert_eq!(ctx.find("c"), Some(2));
    assert_eq!(ctx.find("zz"), None);
    assert_eq!(ctx.get("b").unwrap().version, "1.0.0");
    assert!(ctx.get("zz").is_none());
    assert_eq!(Context::empty().len(), 0);
}

#[test]
fn context_new_rejects_publishable_on_non_publishable() {
    let r = Context::new(
        "/repo".to_string(),
        vec![
            krate("lib", "1.0.0", &["internal"], true),
            krate("internal", "1.0.0", &[], false),
        ],
    );
    match r {
        Err(ContextError::PublishConflict { krate, dependency }) => {
            assert_eq!(krate, "lib");
            assert_eq!(dependency, "internal");
        }
        Ok(_) => panic!("the conflict was not found"),
    }
}

#[test]
fn publish_rule_allows_the_other_directions() {
    // A package that is not publishable may depend on anything, a dev
    // dependency on a package that is not publishable is no conflict, and a
    // dependency outside the catalog is not looked at.
    let mut lib = krate("lib", "1.0.0", &["outside"], true);
    lib.dev_dependencies = strings(&["tool"]);
    let crates = vec![lib, krate("tool", "1.0.0", &["lib"], false)];
    assert!(check_publish_dependencies(&crates).is_ok());
    assert!(Context::new("/".to_string(), crates).is_ok());
}

#[test]
fn publish_rule_reports_the_first_conflict() {
    let crates = vec![
        krate("a", "1.0.0", &["x", "p", "q"], true),
        krate("b", "1.0.0", &["q"], true),
        krate("p", "1.0.0", &[], false),
        krate("q", "1.0.0", &[], false),
    ];
    match check_publish_dependencies(&crates) {
        Err(ContextError::PublishConflict { krate, dependency }) => {
            assert_eq!((krate.as_str(), dependency.as_str()), ("a", "p"));
        }
        Ok(_) => panic!("the conflict was not found"),
    }
}

#[test]
fn ancestors_are_the_transitive_dependencies() {
    let ctx = chain();
    assert_eq!(ctx.ancestors(DepKind::Runtime, "a"), strings(&["a", "b", "c"]));
    assert_eq!(ctx.ancestors(DepKind::Runtime, "b"), strings(&["b", "c"]));
    assert_eq!(ctx.ancestors(DepKind::Runtime, "c"), strings(&["c"]));
    assert_eq!(ctx.ancestors(DepKind::Runtime, "d"), strings(&["d"]));
    assert_eq!(ctx.ancestors(DepKind::Runtime, "zz"), Vec::<String>::new());
    assert_eq!(ctx.ancestors(DepKind::Dev, "a"), strings(&["a"]));
}

#[test]
fn descendants_are_the_transitive_dependents() {
    let ctx = chain();
    assert_eq!(sorted(ctx.descendants(DepKind::Runtime, "c")), strings(&["a", "b", "c"]));
    assert_eq!(sorted(ctx.descendants(DepKind::Runtime, "b")), strings(&["a", "b"]));
    assert_eq!(ctx.descendants(DepKind::Runtime, "a"), strings(&["a"]));
    assert_eq!(ctx.descendants(DepKind::Runtime, "zz"), Vec::<String>::new());
}

#[test]
fn ancestors_and_descendants_are_inverse_relations() {
    let ctx = Context::new(
        "/".to_string(),
        vec![
            with_kinds("a", &["b"], &["e"], &[]),
            with_kinds("b", &["c"], &[], &["a"]),
            with_kinds("c", &[], &[], &[]),
            with_kinds("d", &["c", "missing"], &[], &[]),
            with_kinds("e", &[], &[], &["d"]),
        ],
    )
    .unwrap();
    let all = names(&ctx);
    for kind in [DepKind::Runtime, DepKind::Build, DepKind::Dev, DepKind::Any] {
        for a in &all {
            let up = ctx.ancestors(kind, a);
            for b in &all {
                let down = ctx.descendants(kind, b);
                assert_eq!(up.contains(b), down.contains(a), "{:?} {} {}", kind, a, b);
            }
        }
    }
}

#[test]
fn closures_follow_one_kind_of_dependency_only() {
    let ctx = Context::new(
        "/".to_string(),
        vec![
            with_kinds("a", &["b"], &[], &[]),
            with_kinds("b", &[], &["c"], &[]),
            with_kinds("c", &[], &[], &["d"]),
            with_kinds("d", &[], &[], &[]),
        ],
    )
    .unwrap();
    assert_eq!(ctx.ancestors(DepKind::Runtime, "a"), strings(&["a", "b"]));
    assert_eq!(ctx.ancestors(DepKind::Build, "b"), strings(&["b", "c"]));
    assert_eq!(ctx.ancestors(DepKind::Dev, "c"), strings(&["c", "d"]));
    assert_eq!(ctx.ancestors(DepKind::Any, "a"), strings(&["a", "b", "c", "d"]));
    assert_eq!(sorted(ctx.descendants(DepKind::Any, "d")), strings(&["a", "b", "c", "d"]));
    assert_eq!(ctx.descendants(DepKind::Runtime, "d"), strings(&["d"]));
}

#[test]
fn recursive_dependencies_take_several_roots() {
    let ctx = chain();
    assert_eq!(ctx.recursive_dependencies(&strings(&["b", "d"])), strings(&["b", "c", "d"]));
    // A name that no package has is returned as it was given, once, behind
    // the packages.
    assert_eq!(ctx.recursive_dependencies(&strings(&["d", "zz", "b", "b"])), strings(&["d", "b", "c", "zz"]));
    assert_eq!(ctx.recursive_dependencies(&strings(&["zz", "yy", "zz"])), strings(&["zz", "yy"]));
    assert_eq!(sorted(ctx.recursive_dependents(&strings(&["zz", "b", "zz"]))), strings(&["a", "b", "zz"]));
    for seeds in [strings(&[]), strings(&["a"]), strings(&["zz", "c", "a", "c"]), strings(&["q", "q"])] {
        let down = ctx.recursive_dependencies(&seeds);
        let up = ctx.recursive_dependents(&seeds);
        for seed in &seeds {
            assert!(down.contains(seed) && up.contains(seed));
        }
        let once = |v: &Vec<String>| v.iter().all(|x| v.iter().filter(|y| *y == x).count() == 1);
        assert!(once(&down) && once(&up));
    }
    assert_eq!(ctx.recursive_dependencies(&strings(&[])), Vec::<String>::new());
    assert_eq!(sorted(ctx.recursive_dependents(&strings(&["c", "d"]))), strings(&["a", "b", "c", "d"]));
    assert_eq!(sorted(ctx.recursive_dependents(&strings(&["b"]))), strings(&["a", "b"]));
    assert_eq!(ctx.dependencies_closure(DepKind::Runtime, &strings(&["b"])), strings(&["b", "c"]));
    assert_eq!(sorted(ctx.dependents_closure(DepKind::Runtime, &strings(&["b"]))), strings(&["a", "b"]));
}

#[test]
fn dependents_are_the_direct_ones_of_any_kind() {
    let ctx = Context::new(
        "/".to_string(),
        vec![
            with_kinds("a", &["x"], &[], &[]),
            with_kinds("b", &[], &["x"], &[]),
            with_kinds("c", &[], &[], &["x"]),
            with_kinds("d", &["a"], &[], &[]),
            with_kinds("x", &[], &[], &[]),
        ],
    )
    .unwrap();
    assert_eq!(ctx.dependents("x"), strings(&["a", "b", "c"]));
    assert_eq!(ctx.dependents("a"), strings(&["d"]));
    assert_eq!(ctx.dependents("d"), Vec::<String>::new());
    // A name outside the catalog can still be depended on.
    assert_eq!(ctx.dependents("zz"), Vec::<String>::new());
}

#[test]
fn topological_sort_lists_dependencies_first() {
    let ctx = Context::new(
        "/".to_string(),
        vec![
            with_kinds("app", &["net", "core"], &[], &[]),
            with_kinds("net", &["core"], &["gen"], &[]),
            with_kinds("core", &[], &[], &[]),
            with_kinds("gen", &[], &[], &["core"]),
        ],
    )
    .unwrap();
    let order = ctx.topological_sort().unwrap();
    assert_eq!(sorted(order.clone()), strings(&["app", "core", "gen", "net"]));
    let at = |name: &str| order.iter().position(|n| n == name).unwrap();
    for c in ctx.crates() {
        for dep in c.all_dependencies() {
            assert!(at(&dep) < at(&c.name), "{} needs {}", c.name, dep);
        }
    }
    // Depth first in dictionary order of the names, as the catalog stands.
    assert_eq!(order, strings(&["core", "gen", "net", "app"]));
}

#[test]
fn topological_sort_rejects_a_cycle() {
    let ctx = Context::new(
        "/".to_string(),
        vec![krate("a", "1.0.0", &["b"], true), krate("b", "1.0.0", &["a"], true)],
    )
    .unwrap();
    assert_eq!(ctx.topological_sort(), Err(CycleError));
    assert_eq!(ctx.topological_order(DepKind::Runtime), Err(CycleError));
    // The other kinds of dependency have no cycle.
    assert_eq!(ctx.topological_order(DepKind::Dev), Ok(strings(&["a", "b"])));
}

#[test]
fn topological_order_looks_at_one_kind_only() {
    // A cycle through a dev dependency is no cycle of the runtime graph.
    let ctx = Context::new(
        "/".to_string(),
        vec![with_kinds("lib", &[], &[], &["tests"]), with_kinds("tests", &["lib"], &[], &[])],
    )
    .unwrap();
    assert_eq!(ctx.topological_order(DepKind::Runtime), Ok(strings(&["lib", "tests"])));
    assert_eq!(ctx.topological_order(DepKind::Dev), Ok(strings(&["tests", "lib"])));
    assert_eq!(ctx.topological_sort(), Err(CycleError));
}

#[test]
fn dependencies_outside_the_catalog_are_no_edges() {
    let ctx = Context::new(
        "/".to_string(),
        vec![krate("a", "1.0.0", &["serde", "b"], true), krate("b", "1.0.0", &["tokio"], true)],
    )
    .unwrap();
    assert_eq!(ctx.ancestors(DepKind::Runtime, "a"), strings(&["a", "b"]));
    assert_eq!(ctx.topological_sort(), Ok(strings(&["b", "a"])));
    assert_eq!(ctx.closure_of(DepKind::Runtime, &vec![0]), vec![0, 1]);
    assert_eq!(ctx.dependents_closure_of(DepKind::Runtime, &vec![1]), vec![1, 0]);
    assert_eq!(ctx.positions(&strings(&["b", "zz", "a"])), vec![1, 0]);
    assert_eq!(ctx.graph_of(DepKind::Runtime).len(), 2);
}

#[test]
fn set_version_changes_one_version_only() {
    let mut ctx = chain();
    assert!(ctx.set_version("b", "1.1.0"));
    assert_eq!(ctx.get("b").unwrap().version, "1.1.0");
    assert_eq!(ctx.get("a").unwrap().version, "1.0.0");
    assert_eq!(ctx.get("b").unwrap().dependencies, strings(&["c"]));
    assert_eq!(ctx.get("b").unwrap().path, "/repo/b");
    assert_eq!(names(&ctx), strings(&["a", "b", "c", "d"]));
    assert_eq!(ctx.root(), "/repo");
    assert_eq!(ctx.ancestors(DepKind::Runtime, "a"), strings(&["a", "b", "c"]));
    assert!(!ctx.set_version("zz", "9.9.9"));
    assert_eq!(ctx.len(), 4);
}
