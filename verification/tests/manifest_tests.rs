use embassy_devtool::bump::{bump, push_dependent_edits, Action};
use embassy_devtool::cmd;
use embassy_devtool::manifest::{update_deps, update_section, DepEntry, ManifestDeps, TableValue};
use embassy_devtool::types::{BuildConfig, Context, Crate, DepKind};

fn strings(items: &[&str]) -> Vec<String> {
    items.iter().map(|s| s.to_string()).collect()
}

fn krate(name: &str, deps: &[&str], build: &[&str], dev: &[&str]) -> Crate {
    Crate {
        name: name.to_string(),
        version: "1.0.0".to_string(),
        path: format!("/repo/{}", name),
        dependencies: strings(deps),
        build_dependencies: strings(build),
        dev_dependencies: strings(dev),
        configs: vec![BuildConfig::default()],
        publish: true,
    }
}

fn show_value(v: &TableValue) -> String {
    match v {
        TableValue::Text(s) => format!("{:?}", s),
        TableValue::Flag(b) => format!("{}", b),
        TableValue::Raw(s) => s.clone(),
    }
}

fn show(entry: &DepEntry) -> String {
    match entry {
        DepEntry::Version(v) => format!("{:?}", v),
        DepEntry::Table(pairs) => {
            let inner: Vec<String> = pairs.iter().map(|(k, v)| format!("{} = {}", k, show_value(v))).collect();
            format!("{{ {} }}", inner.join(", "))
        }
        DepEntry::Other => "other".to_string(),
    }
}

fn show_section(entries: &Vec<(String, DepEntry)>) -> Vec<String> {
    entries.iter().map(|(name, e)| format!("{} = {}", name, show(e))).collect()
}

fn show_action(a: &Action) -> String {
    match a {
        Action::SetPackageVersion { manifest_dir, version } => format!("package {} {}", manifest_dir, version),
        Action::SetDependencyVersion { manifest_dir, dependency, version } => {
            format!("dependency {} {} {}", manifest_dir, dependency, version)
        }
        Action::UpdateChangelog { manifest_dir } => format!("changelog {}", manifest_dir),
    }
}

fn table(pairs: &[(&str, TableValue)]) -> DepEntry {
    DepEntry::Table(pairs.iter().map(|(k, v)| (k.to_string(), clone_value(v))).collect())
}

fn clone_value(v: &TableValue) -> TableValue {
    match v {
        TableValue::Text(s) => TableValue::Text(s.clone()),
        TableValue::Flag(b) => TableValue::Flag(*b),
        TableValue::Raw(s) => TableValue::Raw(s.clone()),
    }
}

fn text(s: &str) -> TableValue {
    TableValue::Text(s.to_string())
}

#[test]
fn set_version_replaces_a_bare_version() {
    let mut e = DepEntry::Version("0.1.0".to_string());
    assert!(e.set_version("0.2.0"));
    assert_eq!(show(&e), "\"0.2.0\"");
}

#[test]
fn set_version_in_a_table_keeps_the_other_keys() {
    let mut e = table(&[
        ("version", text("0.1.0")),
        ("path", text("../embassy-sync")),
        ("features", TableValue::Raw("[\"std\"]".to_string())),
        ("optional", TableValue::Flag(true)),
    ]);
    assert!(e.set_version("0.2.0"));
    assert_eq!(
        show(&e),
        "{ version = \"0.2.0\", path = \"../embassy-sync\", features = [\"std\"], optional = true }"
    );
}

#[test]
fn set_version_leaves_a_table_without_version_alone() {
    let mut e = table(&[("path", text("../embassy-sync")), ("versions", text("x"))]);
    assert!(!e.set_version("0.2.0"));
    assert_eq!(show(&e), "{ path = \"../embassy-sync\", versions = \"x\" }");
    let mut other = DepEntry::Other;
    assert!(!other.set_version("0.2.0"));
    assert_eq!(show(&other), "other");
}

#[test]
fn set_version_overwrites_a_version_that_is_no_string() {
    let mut e = table(&[("version", TableValue::Raw("1".to_string()))]);
    assert!(e.set_version("0.2.0"));
    assert_eq!(show(&e), "{ version = \"0.2.0\" }");
}

#[test]
fn set_version_twice_is_set_version_once() {
    let samples = || {
        vec![
            DepEntry::Version("0.1.0".to_string()),
            table(&[("version", text("0.1.0")), ("path", text("x"))]),
            table(&[("path", text("x"))]),
            table(&[]),
            DepEntry::Other,
        ]
    };
    for (mut once, mut twice) in samples().into_iter().zip(samples()) {
        let first = once.set_version("3.0.0");
        assert_eq!(twice.set_version("3.0.0"), first);
        assert_eq!(twice.set_version("3.0.0"), first);
        assert_eq!(show(&once), show(&twice));
    }
}

#[test]
fn update_section_touches_the_named_dependency_only() {
    let mut section = vec![
        ("embassy-sync".to_string(), DepEntry::Version("0.1.0".to_string())),
        ("embassy-time".to_string(), table(&[("version", text("0.3.0")), ("path", text("../embassy-time"))])),
        ("heapless".to_string(), DepEntry::Version("0.8".to_string())),
    ];
    assert!(update_section(&mut section, "embassy-time", "0.4.0"));
    assert_eq!(
        show_section(&section),
        vec![
            "embassy-sync = \"0.1.0\"",
            "embassy-time = { version = \"0.4.0\", path = \"../embassy-time\" }",
            "heapless = \"0.8\"",
        ]
    );
    assert!(!update_section(&mut section, "embassy-net", "1.0.0"));
    assert_eq!(section.len(), 3);
}

#[test]
fn update_deps_goes_through_all_three_tables() {
    let mut manifest = ManifestDeps {
        dependencies: Some(vec![("embassy-sync".to_string(), DepEntry::Version("0.1.0".to_string()))]),
        dev_dependencies: Some(vec![(
            "embassy-sync".to_string(),
            table(&[("version", text("0.1.0")), ("features", TableValue::Raw("[\"std\"]".to_string()))]),
        )]),
        build_dependencies: None,
    };
    assert!(update_deps(&mut manifest, "embassy-sync", "0.2.0"));
    assert_eq!(show_section(manifest.dependencies.as_ref().unwrap()), vec!["embassy-sync = \"0.2.0\""]);
    assert_eq!(
        show_section(manifest.dev_dependencies.as_ref().unwrap()),
        vec!["embassy-sync = { version = \"0.2.0\", features = [\"std\"] }"]
    );
    assert!(manifest.build_dependencies.is_none());
    // The same edit again writes the same content.
    assert!(update_deps(&mut manifest, "embassy-sync", "0.2.0"));
    assert_eq!(show_section(manifest.dependencies.as_ref().unwrap()), vec!["embassy-sync = \"0.2.0\""]);
    // Nothing to write for a dependency that the manifest does not have.
    assert!(!update_deps(&mut manifest, "embassy-net", "0.2.0"));
}

#[test]
fn update_deps_reports_no_change_for_entries_without_a_place() {
    let mut manifest = ManifestDeps {
        dependencies: Some(vec![("embassy-sync".to_string(), table(&[("path", text("../embassy-sync"))]))]),
        dev_dependencies: Some(vec![("embassy-sync".to_string(), DepEntry::Other)]),
        build_dependencies: Some(Vec::new()),
    };
    assert!(!update_deps(&mut manifest, "embassy-sync", "0.2.0"));
    assert_eq!(
        show_section(manifest.dependencies.as_ref().unwrap()),
        vec!["embassy-sync = { path = \"../embassy-sync\" }"]
    );
}

fn repo() -> Context {
    Context::new(
        "/repo".to_string(),
        vec![
            krate("a", &["x"], &[], &[]),
            krate("b", &[], &["x"], &[]),
            krate("c", &[], &[], &["x"]),
            krate("d", &["a", "x"], &["x"], &[]),
            krate("x", &[], &[], &[]),
        ],
    )
    .unwrap()
}

#[test]
fn bump_sets_the_version_and_lists_the_work() {
    let mut ctx = repo();
    let actions = bump(&mut ctx, "x", "2.0.0").unwrap();
    let got: Vec<String> = actions.iter().map(show_action).collect();
    assert_eq!(
        got,
        vec![
            "package /repo/x 2.0.0",
            "dependency /repo/a x 2.0.0",
            "dependency /repo/b x 2.0.0",
            "dependency /repo/c x 2.0.0",
            "dependency /repo/d x 2.0.0",
            "changelog /repo/x",
        ]
    );
    assert_eq!(ctx.get("x").unwrap().version, "2.0.0");
    assert_eq!(ctx.get("a").unwrap().version, "1.0.0");
}

#[test]
fn bump_of_a_package_without_dependents() {
    let mut ctx = repo();
    let actions = bump(&mut ctx, "d", "1.5.0").unwrap();
    let got: Vec<String> = actions.iter().map(show_action).collect();
    assert_eq!(got, vec!["package /repo/d 1.5.0", "changelog /repo/d"]);
    assert_eq!(ctx.get("d").unwrap().version, "1.5.0");
}

#[test]
fn bump_of_an_unknown_package_changes_nothing() {
    let mut ctx = repo();
    assert!(bump(&mut ctx, "nope", "2.0.0").is_none());
    for c in ctx.crates() {
        assert_eq!(c.version, "1.0.0");
    }
}

#[test]
fn cmd_bump_runs_bump() {
    let mut ctx = repo();
    let args = cmd::bump::Args { crate_name: "a".to_string(), crate_version: "1.0.1".to_string() };
    let actions = cmd::bump::run(&mut ctx, args).unwrap();
    let got: Vec<String> = actions.iter().map(show_action).collect();
    assert_eq!(got, vec!["package /repo/a 1.0.1", "dependency /repo/d a 1.0.1", "changelog /repo/a"]);
    assert_eq!(ctx.get("a").unwrap().version, "1.0.1");
    let args = cmd::bump::Args { crate_name: "nope".to_string(), crate_version: "1.0.1".to_string() };
    assert!(cmd::bump::run(&mut ctx, args).is_none());
}

#[test]
fn cmd_set_version_follows_each_kind_in_turn() {
    let mut ctx = repo();
    let args = cmd::set_version::Args { crate_name: "x".to_string(), crate_version: "2.0.0".to_string() };
    let actions = cmd::set_version::run(&mut ctx, args).unwrap();
    let got: Vec<String> = actions.iter().map(show_action).collect();
    assert_eq!(
        got,
        vec![
            "package /repo/x 2.0.0",
            "dependency /repo/a x 2.0.0",
            "dependency /repo/d x 2.0.0",
            "dependency /repo/b x 2.0.0",
            "dependency /repo/d x 2.0.0",
            "dependency /repo/c x 2.0.0",
            "changelog /repo/x",
        ]
    );
    assert_eq!(ctx.get("x").unwrap().version, "2.0.0");
    let args = cmd::set_version::Args { crate_name: "nope".to_string(), crate_version: "2.0.0".to_string() };
    assert!(cmd::set_version::run(&mut ctx, args).is_none());
    let ctx2 = repo();
    let listed = cmd::set_version::actions_for(ctx2.crates(), ctx2.get("a").unwrap(), "7.0.0");
    let got: Vec<String> = listed.iter().map(show_action).collect();
    assert_eq!(got, vec!["package /repo/a 7.0.0", "dependency /repo/d a 7.0.0", "changelog /repo/a"]);
}

#[test]
fn push_dependent_edits_appends() {
    let ctx = repo();
    let mut actions = vec![Action::UpdateChangelog { manifest_dir: "first".to_string() }];
    push_dependent_edits(ctx.crates(), DepKind::Build, "x", "3.0.0", &mut actions);
    let got: Vec<String> = actions.iter().map(show_action).collect();
    assert_eq!(got, vec!["changelog first", "dependency /repo/b x 3.0.0", "dependency /repo/d x 3.0.0"]);
}
