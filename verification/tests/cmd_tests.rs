use embassy_devtool::cargo::{selects_toolchain, show_arguments};
use embassy_devtool::cmd::batch;
use embassy_devtool::cmd::check_crlf;
use embassy_devtool::cmd::check_manifest::{
    self, check_features, check_package_metadata, is_optional_dependency, Field, FieldName, ManifestFacts,
    MetadataError, PackageTable, Problem,
};
use embassy_devtool::cmd::doc::{self, DocError};
use embassy_devtool::cmd::prepare_release::{self, publish_args, publish_command, tag_command};
use embassy_devtool::cmd::{dependencies, dependents, list, Listing};
use embassy_devtool::manifest::{DepEntry, TableValue};
use embassy_devtool::registry::{
    crate_from_manifest, dependency_table, internal_dependencies, is_internal_dependency, list_crates,
    load_context, sorted_names,
};
use embassy_devtool::release::{Classification, ReleaseError};
use embassy_devtool::semver_check::{
    baseline_dir_name, baseline_url, compare_features, doc_json_name, minimum_update, read_features, rustdoc_args,
    ReleaseType,
};
use embassy_devtool::types::{
    BuildConfig, Context, Crate, CycleError, Metadata, MetadataEmbassy, ParsedCrate, ParsedPackage,
};
use embassy_devtool::version::BumpKind;

fn strings(items: &[&str]) -> Vec<String> {
    items.iter().map(|s| s.to_string()).collect()
}

fn krate(name: &str, version: &str, deps: &[&str], publish: bool) -> Crate {
    Crate {
        name: name.to_string(),
        version: version.to_string(),
        path: format!("/repo/{}", name),
        dependencies: strings(deps),
        build_dependencies: Vec::new(),
        dev_dependencies: Vec::new(),
        configs: vec![BuildConfig::default()],
        publish,
    }
}

fn config(group: Option<&str>, features: &[&str], target: Option<&str>) -> BuildConfig {
    BuildConfig {
        group: group.map(|g| g.to_string()),
        features: strings(features),
        target: target.map(|t| t.to_string()),
        env: Vec::new(),
        build_std: Vec::new(),
        artifact_dir: None,
    }
}

fn repo() -> Context {
    Context::new(
        "/repo".to_string(),
        vec![
            krate("app", "0.3.0", &["net"], false),
            krate("core", "1.0.0", &[], true),
            krate("net", "2.1.0", &["core"], true),
        ],
    )
    .unwrap()
}

fn lines(l: &Listing) -> Vec<String> {
    let mut out = vec![format!("+ {}-{}", l.name, l.version)];
    for (name, version) in &l.others {
        out.push(format!("|- {}-{}", name, version));
    }
    out
}

#[test]
fn dependencies_lists_what_a_package_needs() {
    let ctx = repo();
    let l = dependencies::run(&ctx, dependencies::Args { crate_name: "app".to_string() }).unwrap();
    assert_eq!(lines(&l), vec!["+ app-0.3.0", "|- net-2.1.0", "|- core-1.0.0"]);
    let l = dependencies::run(&ctx, dependencies::Args { crate_name: "core".to_string() }).unwrap();
    assert_eq!(lines(&l), vec!["+ core-1.0.0"]);
    assert!(dependencies::run(&ctx, dependencies::Args { crate_name: "nope".to_string() }).is_none());
}

#[test]
fn dependents_lists_what_needs_a_package() {
    let ctx = repo();
    let l = dependents::run(&ctx, dependents::Args { crate_name: "core".to_string() }).unwrap();
    assert_eq!(lines(&l), vec!["+ core-1.0.0", "|- net-2.1.0", "|- app-0.3.0"]);
    let l = dependents::run(&ctx, dependents::Args { crate_name: "app".to_string() }).unwrap();
    assert_eq!(lines(&l), vec!["+ app-0.3.0"]);
    assert!(dependents::run(&ctx, dependents::Args { crate_name: "nope".to_string() }).is_none());
}

#[test]
fn list_shows_every_package_in_dependency_order() {
    let ctx = repo();
    let all = list::run(&ctx, list::Args).unwrap();
    let got: Vec<Vec<String>> = all.iter().map(lines).collect();
    assert_eq!(
        got,
        vec![
            vec!["+ core-1.0.0".to_string()],
            vec!["+ net-2.1.0".to_string(), "|- core-1.0.0".to_string()],
            vec!["+ app-0.3.0".to_string(), "|- net-2.1.0".to_string()],
        ]
    );
    // Names outside the catalog and repeated names are not shown.
    let mut a = krate("a", "1.0.0", &["b", "serde", "b"], true);
    a.dev_dependencies = strings(&["c"]);
    let ctx = Context::new("/".to_string(), vec![a, krate("b", "0.1.0", &[], true), krate("c", "0.1.0", &[], true)])
        .unwrap();
    let all = list::run(&ctx, list::Args).unwrap();
    let got: Vec<Vec<String>> = all.iter().map(lines).collect();
    assert_eq!(
        got,
        vec![
            vec!["+ b-0.1.0".to_string()],
            vec!["+ a-1.0.0".to_string(), "|- b-0.1.0".to_string()],
            vec!["+ c-0.1.0".to_string()],
        ]
    );
}

#[test]
fn list_fails_on_a_cycle() {
    let ctx = Context::new(
        "/".to_string(),
        vec![krate("a", "1.0.0", &["b"], true), krate("b", "1.0.0", &["a"], true)],
    )
    .unwrap();
    assert_eq!(list::run(&ctx, list::Args).err(), Some(CycleError));
}

#[test]
fn ignored_paths() {
    for p in [
        "/repo/.git/config",
        "/repo/target/debug/x",
        "/repo/web/node_modules/a.js",
        "/home/u/.cargo/registry",
        "/repo/docs/.DS_Store",
        "/repo/Thumbs.db",
        "/repo/py/__pycache__/x.pyc",
        "/repo/.pytest_cache/v",
    ] {
        assert!(check_crlf::is_ignored_path(p), "{}", p);
    }
    for p in ["/repo/src/lib.rs", "/repo/target", "/repo/.git", "/repo/.DS_Store.txt", "Thumbs.db", "/repo/targets/x"] {
        assert!(!check_crlf::is_ignored_path(p), "{}", p);
    }
}

#[test]
fn likely_text_files() {
    let text = check_crlf::is_likely_text_file;
    assert!(text(Some("rs"), Some("lib.rs")));
    assert!(text(Some("TOML"), Some("Cargo.TOML")));
    assert!(text(Some("Md"), None));
    assert!(text(Some("config"), None));
    assert!(!text(Some("png"), Some("logo.png")));
    assert!(!text(Some("lock"), Some("Cargo.lock")));
    assert!(!text(Some(""), Some("x.")));
    assert!(text(None, Some("README")));
    assert!(text(None, Some("Makefile")));
    assert!(text(None, Some(".gitignore")));
    assert!(!text(None, Some("a.out")));
    assert!(!text(None, Some("rs")));
    assert!(!text(None, None));
    // The extension decides where there is one.
    assert!(!text(Some("bin"), Some("readme")));
    // Lower case by the rules of Unicode: the Kelvin sign becomes `k`.
    assert!(text(Some("\u{212A}t"), None));
}

#[test]
fn crlf_detection() {
    let crlf = |s: &[u8]| check_crlf::contains_crlf(&s.to_vec());
    assert!(crlf(b"a\r\nb"));
    assert!(crlf(b"\r\n"));
    assert!(crlf(b"line\nline\r\n"));
    assert!(!crlf(b""));
    assert!(!crlf(b"\r"));
    assert!(!crlf(b"\n"));
    assert!(!crlf(b"a\nb\n"));
    assert!(!crlf(b"a\rb\n"));
    assert!(!crlf(b"\n\r"));
    assert!(crlf(b"\r\r\n"));
}

#[test]
fn check_crlf_verdict() {
    let ctx = repo();
    assert!(check_crlf::run(&ctx, check_crlf::Args, Vec::new()).is_ok());
    let err = check_crlf::run(&ctx, check_crlf::Args, strings(&["a.rs", "b/c.md"])).unwrap_err();
    assert_eq!(err.files, strings(&["a.rs", "b/c.md"]));
}

fn good_table(name: &str) -> PackageTable {
    PackageTable::Table {
        edition: Field::Text("2024".to_string()),
        license: Field::Text("MIT OR Apache-2.0".to_string()),
        repository: Field::Text("https://github.com/embassy-rs/embassy".to_string()),
        documentation: Field::Text(format!("https://docs.embassy.dev/{}", name)),
    }
}

fn describe(e: &MetadataError) -> String {
    match e {
        MetadataError::MissingPackage => "missing [package] section".to_string(),
        MetadataError::PackageNotTable => "[package] is not a table".to_string(),
        MetadataError::MissingField(f) => format!("missing {:?}", f),
        MetadataError::FieldNotText(f) => format!("{:?} is not a string", f),
        MetadataError::WrongValue { field, expected, found } => {
            format!("{:?} should be '{}', found '{}'", field, expected, found)
        }
    }
}

#[test]
fn package_metadata_rules() {
    assert!(check_package_metadata(&good_table("embassy-net"), "embassy-net", true).is_ok());
    assert!(check_package_metadata(&good_table("embassy-net"), "embassy-net", false).is_ok());
    let check = |t: PackageTable, publishable: bool| {
        check_package_metadata(&t, "embassy-net", publishable).err().map(|e| describe(&e))
    };
    assert_eq!(check(PackageTable::Missing, true), Some("missing [package] section".to_string()));
    assert_eq!(check(PackageTable::NotTable, false), Some("[package] is not a table".to_string()));
    let table = |edition: Field, license: Field, repository: Field, documentation: Field| PackageTable::Table {
        edition,
        license,
        repository,
        documentation,
    };
    let t = |s: &str| Field::Text(s.to_string());
    let doc = "https://docs.embassy.dev/embassy-net";
    let repo = "https://github.com/embassy-rs/embassy";
    assert_eq!(
        check(table(Field::Missing, Field::Missing, Field::Missing, Field::Missing), true),
        Some("missing Edition".to_string())
    );
    assert_eq!(
        check(table(Field::NotText, t("x"), t(repo), t(doc)), true),
        Some("Edition is not a string".to_string())
    );
    assert_eq!(
        check(table(t("2021"), t("MIT"), t(repo), t(doc)), true),
        Some("Edition should be '2024', found '2021'".to_string())
    );
    assert_eq!(
        check(table(t("2024"), t("MIT"), t(repo), t(doc)), true),
        Some("License should be 'MIT OR Apache-2.0', found 'MIT'".to_string())
    );
    assert_eq!(
        check(table(t("2024"), t("MIT OR Apache-2.0"), Field::Missing, t(doc)), true),
        Some("missing Repository".to_string())
    );
    assert_eq!(
        check(table(t("2024"), t("MIT OR Apache-2.0"), t(repo), t("https://docs.rs/embassy-net")), true),
        Some(
            "Documentation should be 'https://docs.embassy.dev/embassy-net', found 'https://docs.rs/embassy-net'"
                .to_string()
        )
    );
    // Repository and documentation are asked of publishable packages only.
    assert_eq!(check(table(t("2024"), t("MIT OR Apache-2.0"), Field::Missing, Field::NotText), false), None);
    assert_eq!(FieldName::Edition, FieldName::Edition);
}

#[test]
fn optional_dependencies_are_recognised() {
    let table = |pairs: Vec<(&str, TableValue)>| {
        DepEntry::Table(pairs.into_iter().map(|(k, v)| (k.to_string(), v)).collect())
    };
    assert!(is_optional_dependency(&table(vec![
        ("version", TableValue::Text("1".to_string())),
        ("optional", TableValue::Flag(true)),
    ])));
    assert!(!is_optional_dependency(&table(vec![("optional", TableValue::Flag(false))])));
    assert!(!is_optional_dependency(&table(vec![("optional", TableValue::Text("true".to_string()))])));
    assert!(!is_optional_dependency(&table(vec![("version", TableValue::Text("1".to_string()))])));
    assert!(!is_optional_dependency(&DepEntry::Version("1".to_string())));
    assert!(!is_optional_dependency(&DepEntry::Other));
}

#[test]
fn features_must_refer_to_optional_dependencies() {
    let features = vec![strings(&["dep:defmt", "embassy-sync/defmt"]), strings(&["dep:log"]), strings(&[])];
    assert!(check_features(&strings(&[]), &features).is_ok());
    assert!(check_features(&strings(&["defmt", "log"]), &features).is_ok());
    assert_eq!(
        check_features(&strings(&["defmt", "serde", "log", "heapless", "serde"]), &features),
        Err(strings(&["serde", "heapless"]))
    );
    // The feature has to name the dependency with `dep:`.
    assert_eq!(check_features(&strings(&["embassy-sync"]), &features), Err(strings(&["embassy-sync"])));
    assert_eq!(check_features(&strings(&["x"]), &Vec::new()), Err(strings(&["x"])));
}

#[test]
fn check_manifest_collects_the_findings() {
    let ctx = repo();
    let facts = vec![
        // app: not publishable, so its features are not looked at
        ManifestFacts { package: PackageTable::Missing, optional_deps: strings(&["x"]), features: Vec::new() },
        // core: all well
        ManifestFacts { package: good_table("core"), optional_deps: Vec::new(), features: Vec::new() },
        // net: wrong documentation and an optional dependency without feature
        ManifestFacts { package: good_table("nett"), optional_deps: strings(&["log"]), features: Vec::new() },
    ];
    let problems = check_manifest::run(&ctx, check_manifest::Args, &facts).unwrap_err();
    let got: Vec<String> = problems
        .iter()
        .map(|p| match p {
            Problem::Metadata { krate, error } => format!("{}: {}", krate, describe(error)),
            Problem::Features { krate, unreferenced } => format!("{}: unreferenced {}", krate, unreferenced.join(", ")),
        })
        .collect();
    assert_eq!(
        got,
        vec![
            "app: missing [package] section",
            "net: Documentation should be 'https://docs.embassy.dev/net', found 'https://docs.embassy.dev/nett'",
            "net: unreferenced log",
        ]
    );
    let fine = vec![
        ManifestFacts { package: good_table("app"), optional_deps: Vec::new(), features: Vec::new() },
        ManifestFacts { package: good_table("core"), optional_deps: Vec::new(), features: Vec::new() },
        ManifestFacts { package: good_table("net"), optional_deps: Vec::new(), features: Vec::new() },
    ];
    assert!(check_manifest::run(&ctx, check_manifest::Args, &fine).is_ok());
    let mut problems = Vec::new();
    check_manifest::check_manifest("core", true, &fine[1], &mut problems);
    assert!(problems.is_empty());
}

#[test]
fn doc_selects_publishable_packages() {
    let ctx = repo();
    let plan = doc::run(&ctx, &doc::Args { crates: Vec::new(), output: "out".to_string() }).unwrap();
    assert_eq!(plan.build, strings(&["core", "net"]));
    assert!(plan.skipped.is_empty());
    let plan = doc::run(&ctx, &doc::Args { crates: strings(&["net", "app", "net"]), output: "out".to_string() })
        .unwrap();
    assert_eq!(plan.build, strings(&["net", "net"]));
    assert_eq!(plan.skipped, strings(&["app"]));
    match doc::run(&ctx, &doc::Args { crates: strings(&["net", "nope", "app"]), output: "out".to_string() }) {
        Err(DocError::NotFound(name)) => assert_eq!(name, "nope"),
        other => panic!("unexpected: {:?}", other),
    }
}

#[test]
fn doc_command_arguments_and_end() {
    assert_eq!(
        doc::doc_command_args("/repo/core", "out/crates/core/git.zup", Some("out/static")),
        strings(&["build", "-i", "/repo/core", "-o", "out/crates/core/git.zup", "--output-static", "out/static"])
    );
    assert_eq!(
        doc::doc_command_args("/repo/net", "out/crates/net/git.zup", None),
        strings(&["build", "-i", "/repo/net", "-o", "out/crates/net/git.zup"])
    );
    assert!(doc::finish(Vec::new()).is_ok());
    match doc::finish(strings(&["net"])) {
        Err(DocError::Failed(list)) => assert_eq!(list, strings(&["net"])),
        other => panic!("unexpected: {:?}", other),
    }
}

#[test]
fn batch_groups_variants_by_environment() {
    let env = |pairs: &[(&str, &str)]| -> Vec<(String, String)> {
        pairs.iter().map(|(k, v)| (k.to_string(), v.to_string())).collect()
    };
    let mut a = krate("a", "1.0.0", &[], true);
    a.configs = vec![
        config(None, &["std", "log"], Some("thumbv7em-none-eabi")),
        BuildConfig { env: env(&[("RUSTFLAGS", "-Dwarnings")]), ..config(None, &[], None) },
        config(Some("nightly"), &["nightly"], None),
    ];
    let mut b = krate("b", "1.0.0", &[], true);
    b.configs = vec![
        BuildConfig {
            env: env(&[("RUSTFLAGS", "-Dwarnings")]),
            artifact_dir: Some("out/b".to_string()),
            ..config(None, &[], None)
        },
        BuildConfig { build_std: strings(&["core", "alloc"]), ..config(None, &[], None) },
        config(None, &[], None),
    ];
    let ctx = Context::new("/repo".to_string(), vec![a, b]).unwrap();
    let batches = batch::run(&ctx, &batch::Args { crate_name: None, group: None }).unwrap();
    let got: Vec<(Vec<(String, String)>, Vec<String>, String)> =
        batches.iter().map(|b| (b.config.env.clone(), b.config.build_std.clone(), b.args.join(" "))).collect();
    assert_eq!(
        got,
        vec![
            (
                env(&[]),
                strings(&[]),
                "batch --- build --release --manifest-path=/repo/a/Cargo.toml --target=thumbv7em-none-eabi \
                 --features=std,log --- build --release --manifest-path=/repo/b/Cargo.toml"
                    .to_string()
            ),
            (
                env(&[("RUSTFLAGS", "-Dwarnings")]),
                strings(&[]),
                "batch --- build --release --manifest-path=/repo/a/Cargo.toml --- build --release \
                 --manifest-path=/repo/b/Cargo.toml --artifact-dir=out/b"
                    .to_string()
            ),
            (
                env(&[]),
                strings(&["core", "alloc"]),
                "batch -Zbuild-std=core,alloc --- build --release --manifest-path=/repo/b/Cargo.toml".to_string()
            ),
        ]
    );
    let nightly = batch::run(&ctx, &batch::Args { crate_name: Some("a".to_string()), group: Some("nightly".to_string()) })
        .unwrap();
    assert_eq!(nightly.len(), 1);
    assert_eq!(
        nightly[0].args.join(" "),
        "batch --- build --release --manifest-path=/repo/a/Cargo.toml --features=nightly"
    );
    let none = batch::run(&ctx, &batch::Args { crate_name: Some("b".to_string()), group: Some("nightly".to_string()) })
        .unwrap();
    assert!(none.is_empty());
    match batch::run(&ctx, &batch::Args { crate_name: Some("nope".to_string()), group: None }) {
        Err(batch::BuildError::NotFound(name)) => assert_eq!(name, "nope"),
        other => panic!("unexpected: {:?}", other),
    }
    assert_eq!(
        batch::job_args("/r", &config(None, &["x"], None)),
        strings(&["---", "build", "--release", "--manifest-path=/r/Cargo.toml", "--features=x"])
    );
}

#[test]
fn rustflags_are_merged_behind_the_tools_own() {
    assert_eq!(batch::merge_rustflags(Some("-Copt-level=3"), "-Dwarnings"), "-Copt-level=3 -Dwarnings");
    assert_eq!(batch::merge_rustflags(Some(""), "-Dwarnings"), "-Dwarnings");
    assert_eq!(batch::merge_rustflags(None, "-Dwarnings"), "-Dwarnings");
}

#[test]
fn prepare_release_plans_and_lists_the_commands() {
    let mut net = krate("net", "2.1.0", &["core"], true);
    net.configs = vec![config(None, &["std", "tcp"], Some("thumbv7em-none-eabi"))];
    let ctx = Context::new(
        "/repo".to_string(),
        vec![krate("app", "0.3.0", &["net"], false), krate("core", "1.0.0", &[], true), net],
    )
    .unwrap();
    let args = prepare_release::Args { crate_names: strings(&["net"]) };
    let candidates = prepare_release::candidates(&ctx, &args).unwrap();
    let names: Vec<&str> = candidates.iter().map(|c| c.name.as_str()).collect();
    assert_eq!(names, vec!["net", "core"]);
    let verdicts = vec![Classification::NoChange, Classification::MajorBreaking];
    let release = prepare_release::run(&ctx, &args, &verdicts).unwrap();
    let plan: Vec<(&str, BumpKind, String)> =
        release.plan.entries.iter().map(|e| (e.name.as_str(), e.kind, e.version.to_text())).collect();
    assert_eq!(
        plan,
        vec![("net", BumpKind::Minor, "2.2.0".to_string()), ("core", BumpKind::Minor, "1.1.0".to_string())]
    );
    assert_eq!(release.tag_commands, strings(&["git tag net-v2.2.0", "git tag core-v1.1.0"]));
    assert_eq!(
        release.publish_commands,
        strings(&[
            "cargo publish --manifest-path /repo/net/Cargo.toml --features std,tcp --target thumbv7em-none-eabi",
            "cargo publish --manifest-path /repo/core/Cargo.toml",
        ])
    );
    assert_eq!(release.actions.len(), 2 + 1 + 2 + 1);
    assert_eq!(release.candidates.len(), 2);
    // Nothing is changed in the catalog.
    assert_eq!(ctx.get("net").unwrap().version, "2.1.0");
}

#[test]
fn prepare_release_fails_on_a_non_publishable_package() {
    let ctx = repo();
    let args = prepare_release::Args { crate_names: strings(&["app"]) };
    assert!(matches!(prepare_release::candidates(&ctx, &args), Err(ReleaseError::NonPublishable(n)) if n == "app"));
    assert!(matches!(prepare_release::run(&ctx, &args, &Vec::new()), Err(ReleaseError::NonPublishable(n)) if n == "app"));
    let args = prepare_release::Args { crate_names: strings(&["net"]) };
    assert!(matches!(prepare_release::run(&ctx, &args, &Vec::new()), Err(ReleaseError::Mismatch)));
}

#[test]
fn publish_commands() {
    let mut c = krate("net", "2.1.0", &[], true);
    c.configs = vec![config(None, &["std", "tcp"], Some("thumbv7em-none-eabi")), config(None, &["other"], None)];
    assert_eq!(
        publish_args(&c, false),
        strings(&[
            "publish",
            "--manifest-path",
            "/repo/net/Cargo.toml",
            "--features",
            "std,tcp",
            "--target",
            "thumbv7em-none-eabi",
            "--dry-run",
            "--allow-dirty",
            "--keep-going",
        ])
    );
    let plain = krate("core", "1.0.0", &[], true);
    assert_eq!(
        publish_args(&plain, true),
        strings(&["publish", "--manifest-path", "/repo/core/Cargo.toml", "--features", ""])
    );
    assert_eq!(publish_command(&plain), "cargo publish --manifest-path /repo/core/Cargo.toml");
    let mut bare = krate("bare", "1.0.0", &[], true);
    bare.configs = Vec::new();
    assert_eq!(publish_command(&bare), "cargo publish --manifest-path /repo/bare/Cargo.toml");
    assert_eq!(tag_command("embassy-net", "0.5.0"), "git tag embassy-net-v0.5.0");
}

#[test]
fn minimum_update_takes_the_strictest_report() {
    let (major, minor, patch) = (ReleaseType::Major, ReleaseType::Minor, ReleaseType::Patch);
    assert_eq!(minimum_update(false, &vec![]), patch);
    assert_eq!(minimum_update(false, &vec![None, None]), patch);
    assert_eq!(minimum_update(false, &vec![Some(patch)]), patch);
    assert_eq!(minimum_update(false, &vec![Some(minor), Some(patch)]), minor);
    assert_eq!(minimum_update(false, &vec![Some(patch), None, Some(minor)]), minor);
    assert_eq!(minimum_update(false, &vec![Some(minor), Some(major), Some(minor)]), major);
    assert_eq!(minimum_update(false, &vec![Some(major), Some(patch)]), major);
    // A removed feature asks for at least a minor release, also where the
    // interface is unchanged; a break of the interface is stricter.
    assert_eq!(minimum_update(true, &vec![]), minor);
    assert_eq!(minimum_update(true, &vec![None, Some(patch)]), minor);
    assert_eq!(minimum_update(true, &vec![Some(minor)]), minor);
    assert_eq!(minimum_update(true, &vec![Some(major)]), major);
    assert_eq!(minimum_update(true, &vec![Some(patch), Some(major), None]), major);
    assert_eq!(major.to_classification(), Classification::MajorBreaking);
    assert_eq!(minor.to_classification(), Classification::MinorCompatible);
    assert_eq!(patch.to_classification(), Classification::PatchCompatible);
}

#[test]
fn feature_comparison() {
    assert!(!compare_features(&strings(&["a", "b"]), &strings(&["b", "a", "c"])));
    assert!(compare_features(&strings(&["a", "b"]), &strings(&["a"])));
    assert!(!compare_features(&strings(&[]), &strings(&[])));
    assert!(compare_features(&strings(&["a"]), &strings(&[])));
    let deps = vec![("log".to_string(), true), ("serde".to_string(), false), ("std".to_string(), true)];
    assert_eq!(read_features(&strings(&["std", "defmt", "std"]), &deps), strings(&["std", "defmt", "log"]));
    assert_eq!(read_features(&strings(&[]), &Vec::new()), Vec::<String>::new());
}

#[test]
fn rustdoc_call() {
    assert_eq!(doc_json_name("embassy-net-driver"), "embassy_net_driver.json");
    assert_eq!(doc_json_name("cyw43"), "cyw43.json");
    let fixed = [
        "+nightly-2025-06-29",
        "rustdoc",
        "--lib",
        "--output-format=json",
        "-Zunstable-options",
        "-Zhost-config",
        "-Ztarget-applies-to-host",
        "-Zbuild-std=alloc,core",
    ];
    let last = "--config=host.rustflags=[\"--cfg=instability_disable_unstable_docs\"]";
    let mut plain = strings(&fixed);
    plain.push(last.to_string());
    assert_eq!(rustdoc_args(&Vec::new(), &None), plain);
    let mut full = strings(&fixed);
    full.push("--target=thumbv7em-none-eabi".to_string());
    full.push("--features=std,log".to_string());
    full.push(last.to_string());
    assert_eq!(rustdoc_args(&strings(&["std", "log"]), &Some("thumbv7em-none-eabi".to_string())), full);
}

#[test]
fn baseline_address() {
    assert_eq!(
        baseline_url("embassy-net", "0.4.0"),
        Some("https://crates.io/api/v1/crates/embassy-net/0.4.0/download".to_string())
    );
    assert_eq!(baseline_dir_name("embassy-net", "0.4.0"), "embassy-net-0.4.0");
}

#[test]
fn toolchain_choice_and_shown_arguments() {
    assert!(selects_toolchain(&strings(&["build", "+nightly"])));
    assert!(selects_toolchain(&strings(&["+"])));
    assert!(!selects_toolchain(&strings(&["build", "--features=+x", ""])));
    assert!(!selects_toolchain(&Vec::new()));
    assert_eq!(show_arguments(&strings(&["build", "--release"])), "build --release");
    let long: Vec<String> = (0..30).map(|i| format!("arg{:02}", i)).collect();
    let joined = long.join(" ");
    assert_eq!(joined.len(), 30 * 5 + 29);
    assert_eq!(show_arguments(&long), format!("{}... ({} chars)", &joined[..97], joined.len()));
    let exactly: Vec<String> = vec!["x".repeat(100)];
    assert_eq!(show_arguments(&exactly), "x".repeat(100));
    let over: Vec<String> = vec!["x".repeat(101)];
    assert_eq!(show_arguments(&over), format!("{}... (101 chars)", "x".repeat(97)));
}

#[test]
fn manifests_become_packages() {
    assert!(is_internal_dependency("embassy-net"));
    assert!(is_internal_dependency("cyw43"));
    assert!(is_internal_dependency("cyw43-pio"));
    assert!(!is_internal_dependency("embassy"));
    assert!(!is_internal_dependency("serde"));
    assert!(!is_internal_dependency("my-embassy-net"));
    assert_eq!(
        internal_dependencies(strings(&["cortex-m", "embassy-sync", "cyw43", "heapless", "embassy-time"])),
        strings(&["embassy-sync", "cyw43", "embassy-time"])
    );
    let parsed = |skip: bool, build: Vec<BuildConfig>| ParsedCrate {
        package: ParsedPackage {
            name: "embassy-net".to_string(),
            version: "0.4.0".to_string(),
            publish: true,
            metadata: Metadata { embassy: MetadataEmbassy { skip, build } },
        },
        dependencies: strings(&["embassy-sync", "heapless"]),
        build_dependencies: strings(&["cc"]),
        dev_dependencies: strings(&["embassy-time", "critical-section"]),
    };
    let c = crate_from_manifest(parsed(false, Vec::new()), "/repo/embassy-net".to_string()).unwrap();
    assert_eq!(c.name, "embassy-net");
    assert_eq!(c.version, "0.4.0");
    assert_eq!(c.path, "/repo/embassy-net");
    assert!(c.publish);
    assert_eq!(c.dependencies, strings(&["embassy-sync"]));
    assert_eq!(c.build_dependencies, Vec::<String>::new());
    assert_eq!(c.dev_dependencies, strings(&["embassy-time"]));
    assert_eq!(c.configs.len(), 1);
    assert!(c.configs[0].features.is_empty() && c.configs[0].target.is_none());
    let c = crate_from_manifest(
        parsed(false, vec![config(None, &["a"], None), config(Some("g"), &[], None)]),
        "p".to_string(),
    )
    .unwrap();
    assert_eq!(c.configs.len(), 2);
    assert_eq!(c.configs[0].features, strings(&["a"]));
    assert!(crate_from_manifest(parsed(true, Vec::new()), "p".to_string()).is_none());
}

fn manifest(name: &str, version: &str, deps: &[&str], publish: bool, skip: bool) -> (ParsedCrate, String) {
    (
        ParsedCrate {
            package: ParsedPackage {
                name: name.to_string(),
                version: version.to_string(),
                publish,
                metadata: Metadata { embassy: MetadataEmbassy { skip, build: Vec::new() } },
            },
            dependencies: strings(deps),
            build_dependencies: Vec::new(),
            dev_dependencies: Vec::new(),
        },
        format!("/repo/{}", name),
    )
}

#[test]
fn list_crates_keeps_the_order_and_drops_skipped_manifests() {
    let crates = list_crates(vec![
        manifest("embassy-net", "0.4.0", &["embassy-sync", "smoltcp"], true, false),
        manifest("embassy-hidden", "0.1.0", &[], true, true),
        manifest("embassy-sync", "0.5.0", &[], true, false),
        manifest("cyw43", "0.1.0", &["embassy-net"], true, false),
    ]);
    let got: Vec<(&str, &str, Vec<String>)> =
        crates.iter().map(|c| (c.name.as_str(), c.path.as_str(), c.dependencies.clone())).collect();
    assert_eq!(
        got,
        vec![
            ("embassy-net", "/repo/embassy-net", strings(&["embassy-sync"])),
            ("embassy-sync", "/repo/embassy-sync", strings(&[])),
            ("cyw43", "/repo/cyw43", strings(&["embassy-net"])),
        ]
    );
    assert!(list_crates(Vec::new()).is_empty());
}

#[test]
fn load_context_builds_the_catalog_of_the_manifests() {
    let ctx = load_context(
        "/repo".to_string(),
        vec![
            manifest("embassy-net", "0.4.0", &["embassy-sync", "embassy-hidden"], true, false),
            manifest("embassy-hidden", "0.1.0", &[], false, true),
            manifest("embassy-sync", "0.5.0", &[], true, false),
        ],
    )
    .unwrap();
    let names: Vec<&str> = ctx.crates().iter().map(|c| c.name.as_str()).collect();
    assert_eq!(names, vec!["embassy-net", "embassy-sync"]);
    // A reference to a package that was skipped is dropped from the graph.
    assert_eq!(ctx.recursive_dependencies(&strings(&["embassy-net"])), strings(&["embassy-net", "embassy-sync"]));
    let conflict = load_context(
        "/repo".to_string(),
        vec![
            manifest("embassy-net", "0.4.0", &["embassy-tool"], true, false),
            manifest("embassy-tool", "0.1.0", &[], false, false),
        ],
    );
    assert!(conflict.is_err());
}

#[test]
fn dependency_tables_hold_their_names_sorted_and_once() {
    assert_eq!(
        sorted_names(strings(&["b", "a", "c", "a", "b", "ab", ""])),
        strings(&["", "a", "ab", "b", "c"])
    );
    assert_eq!(sorted_names(Vec::new()), Vec::<String>::new());
    assert_eq!(
        dependency_table(strings(&["embassy-time", "serde", "cyw43", "embassy-sync", "embassy-time", "cyw43"])),
        strings(&["cyw43", "embassy-sync", "embassy-time"])
    );
    let (parsed, path) = manifest("embassy-net", "0.4.0", &["embassy-time", "embassy-sync", "embassy-time"], true, false);
    let c = crate_from_manifest(parsed, path).unwrap();
    assert_eq!(c.dependencies, strings(&["embassy-sync", "embassy-time"]));
}

#[test]
fn load_context_gives_a_catalog_that_keeps_the_publish_rule() {
    let ctx = load_context(
        "/repo".to_string(),
        vec![
            manifest("embassy-net", "0.4.0", &["embassy-sync"], true, false),
            manifest("embassy-sync", "0.5.0", &[], true, false),
            manifest("embassy-tool", "0.1.0", &["embassy-net"], false, false),
        ],
    )
    .unwrap();
    assert!(embassy_devtool::types::check_publish_dependencies(ctx.crates()).is_ok());
    // The dependents are the transpose of the dependencies.
    for c in ctx.crates() {
        for d in ctx.crates() {
            assert_eq!(ctx.dependents(&d.name).contains(&c.name), c.all_dependencies().contains(&d.name));
        }
    }
}

#[test]
fn text_extensions_and_file_names_are_matched_in_lower_case() {
    assert!(check_crlf::is_text_extension("rs"));
    assert!(check_crlf::is_text_extension("config"));
    assert!(!check_crlf::is_text_extension("RS"));
    assert!(!check_crlf::is_text_extension("lock"));
    assert!(!check_crlf::is_text_extension(""));
    assert!(check_crlf::is_text_file_name("readme"));
    assert!(check_crlf::is_text_file_name(".rustfmt.toml"));
    assert!(!check_crlf::is_text_file_name("README"));
    assert!(!check_crlf::is_text_file_name("rs"));
}

#[test]
fn batches_take_an_environment_as_a_map() {
    let env = |pairs: &[(&str, &str)]| -> Vec<(String, String)> {
        pairs.iter().map(|(k, v)| (k.to_string(), v.to_string())).collect()
    };
    let with_env = |pairs: &[(&str, &str)]| BuildConfig { env: env(pairs), ..config(None, &[], None) };
    let mut a = krate("a", "1.0.0", &[], true);
    a.configs = vec![
        with_env(&[("RUSTFLAGS", "-Dwarnings"), ("CC", "clang")]),
        // The same settings in another order.
        with_env(&[("CC", "clang"), ("RUSTFLAGS", "-Dwarnings")]),
        // A later entry overrides an earlier one.
        with_env(&[("CC", "gcc"), ("RUSTFLAGS", "-Dwarnings"), ("CC", "clang")]),
        // Another value, another variable, one variable less.
        with_env(&[("CC", "gcc"), ("RUSTFLAGS", "-Dwarnings")]),
        with_env(&[("CC", "clang"), ("RUSTFLAGS", "-Dwarnings"), ("AR", "ar")]),
        with_env(&[("CC", "clang")]),
    ];
    let ctx = Context::new("/repo".to_string(), vec![a]).unwrap();
    let batches = batch::run(&ctx, &batch::Args { crate_name: None, group: None }).unwrap();
    let jobs: Vec<usize> = batches.iter().map(|b| b.args.iter().filter(|x| *x == "---").count()).collect();
    assert_eq!(jobs, vec![3, 1, 1, 1]);
    assert_eq!(batches[0].config.env, env(&[("RUSTFLAGS", "-Dwarnings"), ("CC", "clang")]));
}
