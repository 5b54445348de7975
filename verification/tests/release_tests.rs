use embassy_devtool::release::{
    check_seeds, propagate, release_candidates, Bump, BumpPlan, Candidate, Classification, ReleaseError,
};
use embassy_devtool::types::{BuildConfig, Context, Crate};
use embassy_devtool::version::{BumpKind, Version};

fn strings(items: &[&str]) -> Vec<String> {
    items.iter().map(|s| s.to_string()).collect()
}

fn krate(name: &str, version: &str, deps: &[&str], publish: bool) -> Crate {
    Crate {
        name: name.to_string(),
        version: version.to_string(),
        path: format!("/repo/{}", name),
        dependencies: strings(deps),
        build_dependencies: Vec::new(),
        dev_dependencies: Vec::new(),
        configs: vec![BuildConfig::default()],
        publish,
    }
}

fn with_kinds(name: &str, version: &str, deps: &[&str], build: &[&str], dev: &[&str]) -> Crate {
    let mut c = krate(name, version, deps, true);
    c.build_dependencies = strings(build);
    c.dev_dependencies = strings(dev);
    c
}

/// Runs the whole engine with a classifier given as a table, counting how
/// often the classifier is asked.
fn plan_with(
    ctx: &Context,
    seeds: &[&str],
    table: &[(&str, Classification)],
    calls: &mut usize,
) -> Result<BumpPlan, ReleaseError> {
    let candidates = release_candidates(ctx, &strings(seeds))?;
    let mut verdicts = Vec::new();
    for c in &candidates {
        *calls += 1;
        let verdict = table.iter().find(|(name, _)| *name == c.name).map(|(_, v)| *v);
        verdicts.push(verdict.unwrap_or(Classification::NoChange));
    }
    propagate(ctx, &candidates, &verdicts)
}

fn lines(plan: &BumpPlan) -> Vec<(String, BumpKind, String)> {
    let mut all: Vec<(String, BumpKind, String)> =
        plan.entries.iter().map(|e| (e.name.clone(), e.kind, e.version.to_text())).collect();
    all.sort_by(|a, b| a.0.cmp(&b.0));
    all
}

fn line(name: &str, kind: BumpKind, version: &str) -> (String, BumpKind, String) {
    (name.to_string(), kind, version.to_string())
}

fn core_net_app() -> Context {
    Context::new(
        "/repo".to_string(),
        vec![
            krate("core", "1.0.0", &[], true),
            krate("net", "2.1.0", &["core"], true),
            krate("app", "0.3.0", &["net"], false),
        ],
    )
    .unwrap()
}

#[test]
fn classification_maps_to_bump_kind() {
    assert_eq!(Classification::NoChange.to_bump_kind(), BumpKind::Patch);
    assert_eq!(Classification::PatchCompatible.to_bump_kind(), BumpKind::Patch);
    assert_eq!(Classification::MinorCompatible.to_bump_kind(), BumpKind::Minor);
    assert_eq!(Classification::MajorBreaking.to_bump_kind(), BumpKind::Minor);
}

#[test]
fn scenario_core_net_app_released_from_net() {
    // The release of `net` touches `net` and what it depends on, `core`.
    // `core` breaks its interface, so `net` is forced from its own patch
    // step (2.1.1) to a minor step (2.2.0). `app` is never touched.
    let ctx = core_net_app();
    let table = [("core", Classification::MajorBreaking), ("net", Classification::NoChange)];
    let mut calls = 0;
    let plan = plan_with(&ctx, &["net"], &table, &mut calls).unwrap();
    assert_eq!(
        lines(&plan),
        vec![line("core", BumpKind::Minor, "1.1.0"), line("net", BumpKind::Minor, "2.2.0")]
    );
    assert_eq!(calls, 2);
}

#[test]
fn scenario_core_net_app_released_from_core() {
    // The release of `core` alone touches what `core` depends on, which is
    // nothing but itself: packages that depend on `core` are not added.
    let ctx = core_net_app();
    let table = [("core", Classification::MajorBreaking), ("net", Classification::NoChange)];
    let mut calls = 0;
    let plan = plan_with(&ctx, &["core"], &table, &mut calls).unwrap();
    assert_eq!(lines(&plan), vec![line("core", BumpKind::Minor, "1.1.0")]);
    assert_eq!(calls, 1);
}

#[test]
fn scenario_core_net_app_released_from_both() {
    let ctx = core_net_app();
    let table = [("core", Classification::MajorBreaking), ("net", Classification::NoChange)];
    let mut calls = 0;
    let plan = plan_with(&ctx, &["core", "net"], &table, &mut calls).unwrap();
    assert_eq!(
        lines(&plan),
        vec![line("core", BumpKind::Minor, "1.1.0"), line("net", BumpKind::Minor, "2.2.0")]
    );
    // Each package is classified once, though two seeds reach `core`.
    assert_eq!(calls, 2);
    let names: Vec<&str> = plan.entries.iter().map(|e| e.name.as_str()).collect();
    assert_eq!(names, vec!["core", "net"]);
}

#[test]
fn scenario_non_publishable_seed_fails_before_any_classification() {
    let ctx = core_net_app();
    let mut calls = 0;
    let r = plan_with(&ctx, &["app"], &[], &mut calls);
    match r {
        Err(ReleaseError::NonPublishable(name)) => assert_eq!(name, "app"),
        other => panic!("unexpected: {:?}", other),
    }
    assert_eq!(calls, 0);
    // Also where a good seed comes first.
    let r = plan_with(&ctx, &["core", "app"], &[], &mut calls);
    assert!(matches!(r, Err(ReleaseError::NonPublishable(name)) if name == "app"));
    assert_eq!(calls, 0);
}

#[test]
fn unknown_seed_is_reported() {
    let ctx = core_net_app();
    match release_candidates(&ctx, &strings(&["core", "nope", "app"])) {
        Err(ReleaseError::UnknownCrate(name)) => assert_eq!(name, "nope"),
        other => panic!("unexpected: {:?}", other),
    }
    match check_seeds(&ctx, &strings(&["app", "nope"])) {
        Err(ReleaseError::NonPublishable(name)) => assert_eq!(name, "app"),
        other => panic!("unexpected: {:?}", other),
    }
    // "app", "core", "net" in dictionary order.
    assert_eq!(check_seeds(&ctx, &strings(&["net", "core"])).unwrap(), vec![2, 1]);
}

#[test]
fn two_hop_forced_propagation_along_a_chain() {
    // a depends on b, b depends on c. Only c changes its interface.
    let ctx = Context::new(
        "/".to_string(),
        vec![
            krate("a", "0.1.0", &["b"], true),
            krate("b", "0.2.5", &["c"], true),
            krate("c", "3.4.5", &[], true),
        ],
    )
    .unwrap();
    let table = [
        ("a", Classification::NoChange),
        ("b", Classification::NoChange),
        ("c", Classification::MajorBreaking),
    ];
    let mut calls = 0;
    let plan = plan_with(&ctx, &["a"], &table, &mut calls).unwrap();
    assert_eq!(
        lines(&plan),
        vec![
            line("a", BumpKind::Minor, "0.2.0"),
            line("b", BumpKind::Minor, "0.3.0"),
            line("c", BumpKind::Minor, "3.5.0"),
        ]
    );
}

#[test]
fn without_a_minor_change_every_package_takes_a_patch_step() {
    let ctx = Context::new(
        "/".to_string(),
        vec![
            krate("a", "0.1.0", &["b"], true),
            krate("b", "0.2.5", &["c"], true),
            krate("c", "3.4.5", &[], true),
        ],
    )
    .unwrap();
    let table = [("b", Classification::PatchCompatible)];
    let mut calls = 0;
    let plan = plan_with(&ctx, &["a"], &table, &mut calls).unwrap();
    assert_eq!(
        lines(&plan),
        vec![
            line("a", BumpKind::Patch, "0.1.1"),
            line("b", BumpKind::Patch, "0.2.6"),
            line("c", BumpKind::Patch, "3.4.6"),
        ]
    );
}

#[test]
fn a_minor_step_does_not_force_what_the_package_depends_on() {
    // a depends on b. a changes its interface, b does not: b stays at patch.
    let ctx = Context::new(
        "/".to_string(),
        vec![krate("a", "1.0.0", &["b"], true), krate("b", "1.0.0", &[], true)],
    )
    .unwrap();
    let table = [("a", Classification::MinorCompatible)];
    let mut calls = 0;
    let plan = plan_with(&ctx, &["a"], &table, &mut calls).unwrap();
    assert_eq!(
        lines(&plan),
        vec![line("a", BumpKind::Minor, "1.1.0"), line("b", BumpKind::Patch, "1.0.1")]
    );
}

#[test]
fn a_minor_step_is_never_taken_back() {
    let ctx = Context::new(
        "/".to_string(),
        vec![
            krate("a", "1.0.0", &["b"], true),
            krate("b", "1.0.0", &["c"], true),
            krate("c", "1.0.0", &[], true),
        ],
    )
    .unwrap();
    let all = [
        Classification::NoChange,
        Classification::PatchCompatible,
        Classification::MinorCompatible,
        Classification::MajorBreaking,
    ];
    for va in all {
        for vb in all {
            for vc in all {
                let table = [("a", va), ("b", vb), ("c", vc)];
                let mut calls = 0;
                let plan = plan_with(&ctx, &["a"], &table, &mut calls).unwrap();
                for entry in &plan.entries {
                    let own = table.iter().find(|(n, _)| *n == entry.name).unwrap().1.to_bump_kind();
                    if own == BumpKind::Minor {
                        assert_eq!(entry.kind, BumpKind::Minor);
                    }
                }
                // The plan is closed: who depends on a minor step takes one.
                let kind = |n: &str| plan.entries.iter().find(|e| e.name == n).unwrap().kind;
                if kind("c") == BumpKind::Minor {
                    assert_eq!(kind("b"), BumpKind::Minor);
                }
                if kind("b") == BumpKind::Minor {
                    assert_eq!(kind("a"), BumpKind::Minor);
                }
                // And a minor step has a cause.
                if kind("a") == BumpKind::Minor {
                    assert!(
                        va.to_bump_kind() == BumpKind::Minor
                            || vb.to_bump_kind() == BumpKind::Minor
                            || vc.to_bump_kind() == BumpKind::Minor
                    );
                }
            }
        }
    }
}

#[test]
fn build_and_dev_dependents_are_forced_too() {
    // top depends on mid at run time (so the release of top touches both),
    // and on gen as a build and on util as a dev dependency.
    let ctx = Context::new(
        "/".to_string(),
        vec![
            with_kinds("gen", "1.0.0", &[], &[], &[]),
            with_kinds("mid", "1.0.0", &["gen", "util"], &[], &[]),
            with_kinds("top", "1.0.0", &["mid"], &[], &[]),
            with_kinds("util", "1.0.0", &[], &["gen"], &[]),
            with_kinds("side", "1.0.0", &["gen"], &[], &["util"]),
        ],
    )
    .unwrap();
    // Only gen changes. util needs gen to build; mid needs gen at run time.
    let table = [("gen", Classification::MinorCompatible)];
    let mut calls = 0;
    let plan = plan_with(&ctx, &["top"], &table, &mut calls).unwrap();
    assert_eq!(
        lines(&plan),
        vec![
            line("gen", BumpKind::Minor, "1.1.0"),
            line("mid", BumpKind::Minor, "1.1.0"),
            line("top", BumpKind::Minor, "1.1.0"),
            line("util", BumpKind::Minor, "1.1.0"),
        ]
    );
}

#[test]
fn forcing_through_a_package_outside_the_plan_stays_within_one_kind() {
    // x needs y at run time; y needs z for its tests only. The release of x
    // and z touches x, y (through x) and z. z changes: y is forced through
    // its dev dependency, and then x through its runtime dependency on y.
    let ctx = Context::new(
        "/".to_string(),
        vec![
            with_kinds("x", "1.0.0", &["y"], &[], &[]),
            with_kinds("y", "1.0.0", &[], &[], &["z"]),
            with_kinds("z", "1.0.0", &[], &[], &[]),
        ],
    )
    .unwrap();
    let table = [("z", Classification::MajorBreaking)];
    let mut calls = 0;
    let plan = plan_with(&ctx, &["x", "z"], &table, &mut calls).unwrap();
    assert_eq!(
        lines(&plan),
        vec![
            line("x", BumpKind::Minor, "1.1.0"),
            line("y", BumpKind::Minor, "1.1.0"),
            line("z", BumpKind::Minor, "1.1.0"),
        ]
    );
    // Where y is not publishable it is no part of the plan, and a chain that
    // changes the kind of dependency at y forces nothing.
    let mut y = with_kinds("y", "1.0.0", &[], &[], &["z"]);
    y.publish = false;
    let ctx = Context::new(
        "/".to_string(),
        vec![
            {
                let mut x = with_kinds("x", "1.0.0", &[], &[], &["y"]);
                x.build_dependencies = Vec::new();
                x
            },
            y,
            with_kinds("z", "1.0.0", &[], &[], &[]),
        ],
    )
    .unwrap();
    let candidates = vec![
        Candidate { name: "x".to_string(), version: Version::new(1, 0, 0) },
        Candidate { name: "z".to_string(), version: Version::new(1, 0, 0) },
    ];
    let plan = propagate(&ctx, &candidates, &vec![Classification::NoChange, Classification::MajorBreaking]).unwrap();
    // x reaches z by dev dependencies alone (x -> y -> z), so it is forced.
    assert_eq!(
        lines(&plan),
        vec![line("x", BumpKind::Minor, "1.1.0"), line("z", BumpKind::Minor, "1.1.0")]
    );
}

#[test]
fn a_chain_of_mixed_kinds_through_a_package_outside_the_plan_forces_nothing() {
    // x needs y at run time, y needs z for its tests; y is not in the plan.
    let ctx = Context::new(
        "/".to_string(),
        vec![
            with_kinds("x", "1.0.0", &["y"], &[], &[]),
            with_kinds("y", "1.0.0", &[], &[], &["z"]),
            with_kinds("z", "1.0.0", &[], &[], &[]),
        ],
    )
    .unwrap();
    let candidates = vec![
        Candidate { name: "x".to_string(), version: Version::new(1, 0, 0) },
        Candidate { name: "z".to_string(), version: Version::new(1, 0, 0) },
    ];
    let plan = propagate(&ctx, &candidates, &vec![Classification::NoChange, Classification::MajorBreaking]).unwrap();
    assert_eq!(
        lines(&plan),
        vec![line("x", BumpKind::Patch, "1.0.1"), line("z", BumpKind::Minor, "1.1.0")]
    );
}

#[test]
fn release_candidates_are_the_publishable_packages_of_the_closure() {
    let ctx = Context::new(
        "/".to_string(),
        vec![
            krate("a", "1.0.0", &["b", "tool"], false),
            krate("b", "2.0.0", &["c"], true),
            krate("c", "3.0.0", &[], true),
            krate("tool", "0.1.0", &["c"], false),
            krate("z", "9.0.0", &["b"], true),
        ],
    )
    .unwrap();
    let list = release_candidates(&ctx, &strings(&["z"])).unwrap();
    let got: Vec<(String, Version)> = list.into_iter().map(|c| (c.name, c.version)).collect();
    assert_eq!(
        got,
        vec![
            ("z".to_string(), Version::new(9, 0, 0)),
            ("b".to_string(), Version::new(2, 0, 0)),
            ("c".to_string(), Version::new(3, 0, 0)),
        ]
    );
    assert!(release_candidates(&ctx, &strings(&[])).unwrap().is_empty());
}

#[test]
fn malformed_version_of_a_candidate_is_reported() {
    let ctx = Context::new(
        "/".to_string(),
        vec![krate("a", "1.0.0", &["b"], true), krate("b", "1.0", &[], true), krate("c", "bad", &[], true)],
    )
    .unwrap();
    match release_candidates(&ctx, &strings(&["a"])) {
        Err(ReleaseError::MalformedVersion(name)) => assert_eq!(name, "b"),
        other => panic!("unexpected: {:?}", other),
    }
    // A malformed version of a package that the release does not touch is
    // no obstacle.
    assert!(release_candidates(&ctx, &strings(&["b"])).is_err());
    let ok = Context::new("/".to_string(), vec![krate("a", "1.0.0", &[], true), krate("c", "bad", &[], true)]).unwrap();
    assert_eq!(release_candidates(&ok, &strings(&["a"])).unwrap().len(), 1);
}

#[test]
fn propagate_rejects_input_that_does_not_line_up() {
    let ctx = core_net_app();
    let one = |name: &str| Candidate { name: name.to_string(), version: Version::new(1, 0, 0) };
    let r = propagate(&ctx, &vec![one("core")], &vec![]);
    assert!(matches!(r, Err(ReleaseError::Mismatch)));
    let r = propagate(&ctx, &vec![one("nope")], &vec![Classification::NoChange]);
    assert!(matches!(r, Err(ReleaseError::Mismatch)));
    let r = propagate(
        &ctx,
        &vec![one("core"), one("core")],
        &vec![Classification::NoChange, Classification::NoChange],
    );
    assert!(matches!(r, Err(ReleaseError::Mismatch)));
    let plan = propagate(&ctx, &vec![], &vec![]).unwrap();
    assert!(plan.entries.is_empty());
}

#[test]
fn propagate_reports_a_version_that_cannot_take_its_step() {
    let ctx = core_net_app();
    let candidates = vec![
        Candidate { name: "core".to_string(), version: Version::new(1, 0, 0) },
        Candidate { name: "net".to_string(), version: Version::new(2, u64::MAX, 0) },
    ];
    // net by itself takes a patch step, which is possible ...
    let plan = propagate(&ctx, &candidates, &vec![Classification::NoChange, Classification::NoChange]).unwrap();
    assert_eq!(plan.entries[1].version, Version::new(2, u64::MAX, 1));
    // ... but forced to a minor step it cannot.
    let r = propagate(&ctx, &candidates, &vec![Classification::MajorBreaking, Classification::NoChange]);
    match r {
        Err(ReleaseError::VersionOverflow(name)) => assert_eq!(name, "net"),
        other => panic!("unexpected: {:?}", other),
    }
}

#[test]
fn plan_lines_follow_the_candidates() {
    let ctx = core_net_app();
    let candidates = vec![
        Candidate { name: "net".to_string(), version: Version::new(2, 1, 0) },
        Candidate { name: "core".to_string(), version: Version::new(1, 0, 0) },
    ];
    let plan = propagate(&ctx, &candidates, &vec![Classification::NoChange, Classification::MinorCompatible]).unwrap();
    assert_eq!(plan.get("core").unwrap().version, Version::new(1, 1, 0));
    assert_eq!(plan.get("net").unwrap().kind, BumpKind::Minor);
    assert!(plan.get("app").is_none());
    let got: Vec<(&str, BumpKind, Version)> =
        plan.entries.iter().map(|e: &Bump| (e.name.as_str(), e.kind, e.version)).collect();
    assert_eq!(
        got,
        vec![("net", BumpKind::Minor, Version::new(2, 2, 0)), ("core", BumpKind::Minor, Version::new(1, 1, 0))]
    );
}
