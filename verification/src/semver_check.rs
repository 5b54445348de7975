//! The judgement on a package's changes, as far as it is made here: what the
//! comparison with the published baseline has to compare, and what follows
//! from its reports.

use crate::release::Classification;
use crate::text::{holds_text, join, joined, replace, replaced};
use crate::seqs::lemma_push_contains;
use vstd::prelude::*;
use vstd::string::*;

verus! {

/// The smallest release that a set of changes allows.
#[derive(Debug, Clone, Copy, PartialEq, Eq, Structural)]
pub enum ReleaseType {
    Major,
    Minor,
    Patch,
}

impl ReleaseType {
    /// The classification that asks for this release.
    pub open spec fn classification(self) -> Classification {
        match self {
            ReleaseType::Major => Classification::MajorBreaking,
            ReleaseType::Minor => Classification::MinorCompatible,
            ReleaseType::Patch => Classification::PatchCompatible,
        }
    }

    /// The classification that asks for this release.
    pub fn to_classification(self) -> (c: Classification)
        ensures
            c == self.classification(),
    {
        match self {
            ReleaseType::Major => Classification::MajorBreaking,
            ReleaseType::Minor => Classification::MinorCompatible,
            ReleaseType::Patch => Classification::PatchCompatible,
        }
    }
}

/// The strictest release that one of `reports` requires: major before minor
/// before patch, and patch where none requires anything.
pub open spec fn strictest(reports: Seq<Option<ReleaseType>>) -> ReleaseType {
    if reports.contains(Some(ReleaseType::Major)) {
        ReleaseType::Major
    } else if reports.contains(Some(ReleaseType::Minor)) {
        ReleaseType::Minor
    } else {
        ReleaseType::Patch
    }
}

/// The smallest release that is allowed where `features_removed` tells
/// whether a feature was removed and `reports` holds what the comparison of
/// each build variant requires: a major one where a report requires it;
/// otherwise a minor one where a feature was removed or a report requires
/// it; otherwise a patch release.
pub open spec fn minimum_release(features_removed: bool, reports: Seq<Option<ReleaseType>>) -> ReleaseType {
    if reports.contains(Some(ReleaseType::Major)) {
        ReleaseType::Major
    } else if features_removed || reports.contains(Some(ReleaseType::Minor)) {
        ReleaseType::Minor
    } else {
        ReleaseType::Patch
    }
}

/// The smallest release that is allowed. A removed feature asks for at
/// least a minor release, also where the interface is unchanged; the
/// stricter of this and of what the reports require stands. Even if nothing
/// changed this is a patch release.
pub fn minimum_update(features_removed: bool, reports: &Vec<Option<ReleaseType>>) -> (r: ReleaseType)
    ensures
        r == minimum_release(features_removed, reports@),
{
    let mut least = ReleaseType::Patch;
    let mut i: usize = 0;
    assert(reports@.take(0) =~= Seq::<Option<ReleaseType>>::empty());
    while i < reports.len()
        invariant
            i <= reports.len(),
            least == strictest(reports@.take(i as int)),
        decreases reports.len() - i,
    {
        let ghost done = reports@.take(i as int);
        proof {
            assert(reports@.take(i + 1) =~= done.push(reports[i as int]));
            lemma_push_contains(done, reports[i as int], Some(ReleaseType::Major));
            lemma_push_contains(done, reports[i as int], Some(ReleaseType::Minor));
        }
        match reports[i] {
            Some(required) => {
                let stricter = match least {
                    ReleaseType::Patch => true,
                    _ => match required {
                        ReleaseType::Major => true,
                        _ => false,
                    },
                };
                if stricter {
                    least = required;
                }
            },
            None => {},
        }
        i += 1;
    }
    assert(reports@.take(reports.len() as int) =~= reports@);
    match least {
        ReleaseType::Patch => if features_removed {
            ReleaseType::Minor
        } else {
            ReleaseType::Patch
        },
        other => other,
    }
}

/// A feature of `old` is missing in `new`.
pub open spec fn feature_removed(old: Seq<Seq<char>>, new: Seq<Seq<char>>) -> bool {
    exists|i: int| 0 <= i < old.len() && !new.contains(#[trigger] old[i])
}

/// Whether the new state of a package lacks a feature that the old one had.
/// Interface comparison does not see this, so it is checked by itself.
pub fn compare_features(old: &Vec<String>, new: &Vec<String>) -> (removed: bool)
    ensures
        removed == feature_removed(old.deep_view(), new.deep_view()),
{
    let mut i: usize = 0;
    while i < old.len()
        invariant
            i <= old.len(),
            forall|k: int| 0 <= k < i ==> new.deep_view().contains(#[trigger] old.deep_view()[k]),
        decreases old.len() - i,
    {
        if !holds_text(new, old[i].as_str()) {
            assert(!new.deep_view().contains(old.deep_view()[i as int]));
            return true;
        }
        i += 1;
    }
    false
}

/// The names of the dependencies of `deps` that are optional.
pub open spec fn optional_names(deps: Seq<(String, bool)>) -> Set<Seq<char>> {
    Set::new(|name: Seq<char>| exists|i: int| 0 <= i < deps.len() && (#[trigger] deps[i]).0@ == name && deps[i].1)
}

/// The features of a package: those that its manifest declares and, as each
/// optional dependency is a feature too, the names of its optional
/// dependencies. Each comes once. `dependencies` pairs each dependency's name
/// with whether it is optional.
pub fn read_features(declared: &Vec<String>, dependencies: &Vec<(String, bool)>) -> (features: Vec<String>)
    ensures
        features.deep_view().no_duplicates(),
        forall|name: Seq<char>| #[trigger]
            features.deep_view().contains(name) <==> declared.deep_view().contains(name) || optional_names(
                dependencies@,
            ).contains(name),
{
    let mut features: Vec<String> = Vec::new();
    let mut i: usize = 0;
    assert(declared.deep_view().take(0) =~= Seq::<Seq<char>>::empty());
    while i < declared.len()
        invariant
            i <= declared.len(),
            features.deep_view().no_duplicates(),
            forall|name: Seq<char>| #[trigger]
                features.deep_view().contains(name) <==> declared.deep_view().take(i as int).contains(name),
        decreases declared.len() - i,
    {
        let ghost done = declared.deep_view().take(i as int);
        let ghost before = features.deep_view();
        assert(declared.deep_view().take(i + 1) =~= done.push(declared[i as int]@));
        if !holds_text(&features, declared[i].as_str()) {
            features.push(declared[i].clone());
            assert(features.deep_view() =~= before.push(declared[i as int]@));
        }
        proof {
            assert forall|name: Seq<char>| #[trigger]
                features.deep_view().contains(name) <==> declared.deep_view().take(i + 1).contains(name) by {
                lemma_push_contains(done, declared[i as int]@, name);
                lemma_push_contains(before, declared[i as int]@, name);
            }
        }
        i += 1;
    }
    assert(declared.deep_view().take(declared.len() as int) =~= declared.deep_view());
    let mut j: usize = 0;
    while j < dependencies.len()
        invariant
            j <= dependencies.len(),
            features.deep_view().no_duplicates(),
            forall|name: Seq<char>| #[trigger]
                features.deep_view().contains(name) <==> declared.deep_view().contains(name) || optional_names(
                    dependencies@.take(j as int),
                ).contains(name),
        decreases dependencies.len() - j,
    {
        let ghost done = dependencies@.take(j as int);
        let ghost next = dependencies@.take(j + 1);
        let ghost before = features.deep_view();
        let ghost dep = dependencies[j as int];
        assert(next =~= done.push(dep));
        if dependencies[j].1 && !holds_text(&features, dependencies[j].0.as_str()) {
            features.push(dependencies[j].0.clone());
            assert(features.deep_view() =~= before.push(dep.0@));
        }
        proof {
            assert forall|name: Seq<char>| #[trigger]
                features.deep_view().contains(name) <==> declared.deep_view().contains(name) || optional_names(
                    next,
                ).contains(name) by {
                lemma_push_contains(before, dep.0@, name);
                if optional_names(done).contains(name) {
                    let k = choose|k: int| 0 <= k < done.len() && (#[trigger] done[k]).0@ == name && done[k].1;
                    assert(next[k] == done[k]);
                }
                if optional_names(next).contains(name) {
                    let k = choose|k: int| 0 <= k < next.len() && (#[trigger] next[k]).0@ == name && next[k].1;
                    if k < done.len() {
                        assert(done[k] == next[k]);
                    }
                }
                if dep.1 && dep.0@ == name {
                    assert(next[j as int] == dep);
                }
            }
        }
        j += 1;
    }
    assert(dependencies@.take(dependencies.len() as int) =~= dependencies@);
    features
}

/// The name of the file that holds the interface description of the package
/// `name`: the name with `_` for every `-`, and `.json` behind it.
pub fn doc_json_name(name: &str) -> (file: String)
    ensures
        file@ == replaced(name@, "-"@, "_"@) + ".json"@,
{
    proof {
        reveal_strlit("-");
    }
    let mut file = replace(name, "-", "_");
    file.append(".json");
    file
}

/// The arguments that are always given to `cargo` when it is asked for the
/// interface description of a package: the pinned toolchain first.
pub open spec fn rustdoc_head() -> Seq<Seq<char>> {
    seq![
        "+nightly-2025-06-29"@,
        "rustdoc"@,
        "--lib"@,
        "--output-format=json"@,
        "-Zunstable-options"@,
        "-Zhost-config"@,
        "-Ztarget-applies-to-host"@,
        "-Zbuild-std=alloc,core"@,
    ]
}

/// The last argument of such a call.
pub open spec fn rustdoc_tail() -> Seq<char> {
    "--config=host.rustflags=[\"--cfg=instability_disable_unstable_docs\"]"@
}

/// All arguments of such a call, for the features `features` and the target
/// `target`: the fixed ones, `--target=` with the target if there is one,
/// `--features=` with the features joined by commas if there are any, and the
/// fixed last one.
pub open spec fn rustdoc_arguments(features: Seq<Seq<char>>, target: Option<Seq<char>>) -> Seq<Seq<char>> {
    rustdoc_head() + match target {
        Some(t) => seq!["--target="@ + t],
        None => Seq::empty(),
    } + if features.len() > 0 {
        seq!["--features="@ + joined(features, ","@)]
    } else {
        Seq::empty()
    } + seq![rustdoc_tail()]
}

/// The arguments for `cargo` that make it describe the interface of a
/// package built with `features` for `target`.
pub fn rustdoc_args(features: &Vec<String>, target: &Option<String>) -> (args: Vec<String>)
    ensures
        args.deep_view() == rustdoc_arguments(
            features.deep_view(),
            match target {
                Some(t) => Some(t@),
                None => None,
            },
        ),
{
    let mut args: Vec<String> = Vec::new();
    args.push(String::from_str("+nightly-2025-06-29"));
    args.push(String::from_str("rustdoc"));
    args.push(String::from_str("--lib"));
    args.push(String::from_str("--output-format=json"));
    args.push(String::from_str("-Zunstable-options"));
    args.push(String::from_str("-Zhost-config"));
    args.push(String::from_str("-Ztarget-applies-to-host"));
    args.push(String::from_str("-Zbuild-std=alloc,core"));
    assert(args.deep_view() =~= rustdoc_head());
    let ghost a = args.deep_view();
    match target {
        Some(t) => {
            let mut arg = String::from_str("--target=");
            arg.append(t.as_str());
            args.push(arg);
            assert(args.deep_view() =~= a + seq!["--target="@ + t@]);
        },
        None => {
            assert(args.deep_view() =~= a + Seq::<Seq<char>>::empty());
        },
    }
    let ghost b = args.deep_view();
    if features.len() > 0 {
        let mut arg = String::from_str("--features=");
        let list = join(features, ",");
        arg.append(list.as_str());
        args.push(arg);
        assert(args.deep_view() =~= b + seq!["--features="@ + joined(features.deep_view(), ","@)]);
    } else {
        assert(args.deep_view() =~= b + Seq::<Seq<char>>::empty());
    }
    let ghost c = args.deep_view();
    args.push(String::from_str("--config=host.rustflags=[\"--cfg=instability_disable_unstable_docs\"]"));
    assert(args.deep_view() =~= c + seq![rustdoc_tail()]);
    args
}

/// The name of the directory that holds the baseline of the package `name`
/// in the version `version`: the two joined by `-`.
pub fn baseline_dir_name(name: &str, version: &str) -> (dir: String)
    ensures
        dir@ == name@ + "-"@ + version@,
{
    let mut dir = String::from_str(name);
    dir.append("-");
    dir.append(version);
    dir
}

/// Where the packages of crates.io are downloaded from.
pub open spec fn crates_io_downloads() -> Seq<char> {
    "https://crates.io/api/v1/crates"@
}

/// Calls `crates_index::IndexConfig::download_url` on a registry whose
/// download address is `dl`. The contract states the one case that the
/// library uses: where `dl` holds no `{`, and so none of the markers
/// that the function looks for, it returns `dl`, `/`, the name, `/`, the
/// version and `/download`.
#[verifier::external_body]
fn index_download_url(dl: &str, name: &str, version: &str) -> (r: Option<String>)
    ensures
        r is Some || dl@.contains('{'),
        r matches Some(url) ==> dl@.contains('{') || url@ == dl@ + "/"@ + name@ + "/"@ + version@ + "/download"@,
{
    let config = crates_index::IndexConfig { dl: dl.to_string(), api: None };
    config.download_url(name, version)
}

/// The address from which the published package `name` in the version
/// `version` is downloaded.
pub fn baseline_url(name: &str, version: &str) -> (r: Option<String>)
    ensures
        r matches Some(url) && url@ == crates_io_downloads() + "/"@ + name@ + "/"@ + version@ + "/download"@,
{
    proof {
        reveal_strlit("https://crates.io/api/v1/crates");
        let dl = "https://crates.io/api/v1/crates"@;
        assert forall|i: int| 0 <= i < dl.len() implies dl[i] != '{' by {}
    }
    index_download_url("https://crates.io/api/v1/crates", name, version)
}

} // verus!
