//! `check-manifest`: the rules that the manifests of the repository follow.

use crate::manifest::{table_model, DepEntry, EntryModel, TableValue, ValueModel};
use crate::text::{has_prefix, holds_text, same_text, starts_with};
use crate::seqs::lemma_push_contains;
use crate::types::Context;
use vstd::prelude::*;
use vstd::string::*;

verus! {

/// The arguments of the command: none.
#[derive(Debug)]
pub struct Args;

/// What a table says under a key that should hold a string.
#[derive(Debug)]
pub enum Field {
    /// The key is missing.
    Missing,
    /// The value is no string.
    NotText,
    /// The string.
    Text(String),
}

/// The keys of the package table that the rules speak of.
#[derive(Debug, Clone, Copy, PartialEq, Eq, Structural)]
pub enum FieldName {
    Edition,
    License,
    Repository,
    Documentation,
}

/// What the manifest has under `package`.
#[derive(Debug)]
pub enum PackageTable {
    /// Nothing.
    Missing,
    /// Something that is no table.
    NotTable,
    /// A table, with these four keys read.
    Table { edition: Field, license: Field, repository: Field, documentation: Field },
}

/// A rule on the package table that a manifest breaks.
#[derive(Debug)]
pub enum MetadataError {
    MissingPackage,
    PackageNotTable,
    MissingField(FieldName),
    FieldNotText(FieldName),
    /// The key holds `found`, where `expected` is asked for.
    WrongValue { field: FieldName, expected: String, found: String },
}

/// The mathematical value of a `Field`.
pub enum FieldModel {
    Missing,
    NotText,
    Text(Seq<char>),
}

/// The mathematical value of a `MetadataError`.
pub enum MetadataFault {
    MissingPackage,
    PackageNotTable,
    MissingField(FieldName),
    FieldNotText(FieldName),
    WrongValue { field: FieldName, expected: Seq<char>, found: Seq<char> },
}

impl View for Field {
    type V = FieldModel;

    open spec fn view(&self) -> FieldModel {
        match self {
            Field::Missing => FieldModel::Missing,
            Field::NotText => FieldModel::NotText,
            Field::Text(s) => FieldModel::Text(s@),
        }
    }
}

impl View for MetadataError {
    type V = MetadataFault;

    open spec fn view(&self) -> MetadataFault {
        match self {
            MetadataError::MissingPackage => MetadataFault::MissingPackage,
            MetadataError::PackageNotTable => MetadataFault::PackageNotTable,
            MetadataError::MissingField(f) => MetadataFault::MissingField(*f),
            MetadataError::FieldNotText(f) => MetadataFault::FieldNotText(*f),
            MetadataError::WrongValue { field, expected, found } => MetadataFault::WrongValue {
                field: *field,
                expected: expected@,
                found: found@,
            },
        }
    }
}

/// What is wrong with the key `name`, which should hold `expected`.
pub open spec fn field_fault(field: FieldModel, name: FieldName, expected: Seq<char>) -> Option<MetadataFault> {
    match field {
        FieldModel::Missing => Some(MetadataFault::MissingField(name)),
        FieldModel::NotText => Some(MetadataFault::FieldNotText(name)),
        FieldModel::Text(found) => if found == expected {
            None
        } else {
            Some(MetadataFault::WrongValue { field: name, expected, found })
        },
    }
}

/// Where the documentation of the package `crate_name` is published.
pub open spec fn documentation_url(crate_name: Seq<char>) -> Seq<char> {
    "https://docs.embassy.dev/"@ + crate_name
}

/// The first rule that the package table breaks. Every package has the
/// edition `2024` and the license `MIT OR Apache-2.0`; a publishable one also
/// names the repository and its documentation page.
pub open spec fn table_fault(
    edition: FieldModel,
    license: FieldModel,
    repository: FieldModel,
    documentation: FieldModel,
    crate_name: Seq<char>,
    is_publishable: bool,
) -> Option<MetadataFault> {
    if field_fault(edition, FieldName::Edition, "2024"@) is Some {
        field_fault(edition, FieldName::Edition, "2024"@)
    } else if field_fault(license, FieldName::License, "MIT OR Apache-2.0"@) is Some {
        field_fault(license, FieldName::License, "MIT OR Apache-2.0"@)
    } else if !is_publishable {
        None
    } else if field_fault(repository, FieldName::Repository, "https://github.com/embassy-rs/embassy"@) is Some {
        field_fault(repository, FieldName::Repository, "https://github.com/embassy-rs/embassy"@)
    } else {
        field_fault(documentation, FieldName::Documentation, documentation_url(crate_name))
    }
}

fn check_field(field: &Field, name: FieldName, expected: &str) -> (r: Result<(), MetadataError>)
    ensures
        match r {
            Ok(_) => field_fault(field@, name, expected@) is None,
            Err(e) => field_fault(field@, name, expected@) == Some(e@),
        },
{
    match field {
        Field::Missing => Err(MetadataError::MissingField(name)),
        Field::NotText => Err(MetadataError::FieldNotText(name)),
        Field::Text(found) => {
            if same_text(found.as_str(), expected) {
                Ok(())
            } else {
                Err(MetadataError::WrongValue { field: name, expected: expected.to_owned(), found: found.clone() })
            }
        },
    }
}

/// Checks the package table of the manifest of the package `crate_name`.
pub fn check_package_metadata(package: &PackageTable, crate_name: &str, is_publishable: bool) -> (r: Result<
    (),
    MetadataError,
>)
    ensures
        match *package {
            PackageTable::Missing => r matches Err(e) && e@ == MetadataFault::MissingPackage,
            PackageTable::NotTable => r matches Err(e) && e@ == MetadataFault::PackageNotTable,
            PackageTable::Table { edition, license, repository, documentation } => match r {
                Ok(_) => table_fault(
                    edition@,
                    license@,
                    repository@,
                    documentation@,
                    crate_name@,
                    is_publishable,
                ) is None,
                Err(e) => table_fault(
                    edition@,
                    license@,
                    repository@,
                    documentation@,
                    crate_name@,
                    is_publishable,
                ) == Some(e@),
            },
        },
{
    match package {
        PackageTable::Missing => Err(MetadataError::MissingPackage),
        PackageTable::NotTable => Err(MetadataError::PackageNotTable),
        PackageTable::Table { edition, license, repository, documentation } => {
            match check_field(edition, FieldName::Edition, "2024") {
                Err(e) => {
                    return Err(e);
                },
                Ok(_) => {},
            }
            match check_field(license, FieldName::License, "MIT OR Apache-2.0") {
                Err(e) => {
                    return Err(e);
                },
                Ok(_) => {},
            }
            if !is_publishable {
                return Ok(());
            }
            match check_field(repository, FieldName::Repository, "https://github.com/embassy-rs/embassy") {
                Err(e) => {
                    return Err(e);
                },
                Ok(_) => {},
            }
            let mut expected = String::from_str("https://docs.embassy.dev/");
            expected.append(crate_name);
            check_field(documentation, FieldName::Documentation, expected.as_str())
        },
    }
}

/// The characters of the key `optional`.
pub open spec fn optional_key() -> Seq<char> {
    seq!['o', 'p', 't', 'i', 'o', 'n', 'a', 'l']
}

/// The entry is an inline table that says `optional = true`.
pub open spec fn entry_is_optional(entry: EntryModel) -> bool {
    match entry {
        EntryModel::Table(table) => table.contains((optional_key(), ValueModel::Flag(true))),
        _ => false,
    }
}

/// Whether a dependency is declared optional. In a manifest a key stands
/// once in a table.
pub fn is_optional_dependency(entry: &DepEntry) -> (r: bool)
    ensures
        r == entry_is_optional(entry@),
{
    proof {
        reveal_strlit("optional");
        assert("optional"@ =~= optional_key());
    }
    match entry {
        DepEntry::Table(pairs) => {
            let mut i: usize = 0;
            while i < pairs.len()
                invariant
                    i <= pairs.len(),
                    "optional"@ == optional_key(),
                    entry@ == EntryModel::Table(table_model(pairs@)),
                    forall|k: int|
                        0 <= k < i ==> (#[trigger] table_model(pairs@)[k]) != (optional_key(), ValueModel::Flag(true)),
                decreases pairs.len() - i,
            {
                if same_text(pairs[i].0.as_str(), "optional") {
                    match &pairs[i].1 {
                        TableValue::Flag(b) => {
                            if *b {
                                assert(table_model(pairs@)[i as int] == (optional_key(), ValueModel::Flag(true)));
                                assert(entry@ == EntryModel::Table(table_model(pairs@)));
                                assert(entry_is_optional(entry@));
                                return true;
                            }
                        },
                        _ => {},
                    }
                }
                i += 1;
            }
            false
        },
        _ => false,
    }
}

/// A feature names the dependency `dep` as `dep:` followed by its name.
pub open spec fn is_referenced(features: Seq<Seq<Seq<char>>>, dep: Seq<char>) -> bool {
    exists|f: int, i: int|
        0 <= f < features.len() && 0 <= i < features[f].len() && #[trigger] features[f][i] == "dep:"@ + dep
}

/// The items of the features, each feature as the list of what it turns on.
pub open spec fn feature_items(features: Seq<Vec<String>>) -> Seq<Seq<Seq<char>>> {
    Seq::new(features.len(), |f: int| features[f].deep_view())
}

fn references(features: &Vec<Vec<String>>, dep: &str) -> (r: bool)
    ensures
        r == is_referenced(feature_items(features@), dep@),
{
    let mut wanted = String::from_str("dep:");
    wanted.append(dep);
    let mut f: usize = 0;
    while f < features.len()
        invariant
            f <= features.len(),
            wanted@ == "dep:"@ + dep@,
            forall|x: int, i: int|
                0 <= x < f && 0 <= i < feature_items(features@)[x].len() ==> #[trigger] feature_items(
                    features@,
                )[x][i] != wanted@,
        decreases features.len() - f,
    {
        if holds_text(&features[f], wanted.as_str()) {
            let ghost i = choose|i: int|
                0 <= i < features[f as int].deep_view().len() && features[f as int].deep_view()[i] == wanted@;
            assert(feature_items(features@)[f as int][i] == "dep:"@ + dep@);
            return true;
        }
        assert forall|i: int| 0 <= i < feature_items(features@)[f as int].len() implies #[trigger] feature_items(
            features@,
        )[f as int][i] != wanted@ by {
            assert(features[f as int].deep_view()[i] != wanted@);
        }
        f += 1;
    }
    false
}

/// The optional dependencies that no feature refers to. A publishable
/// package must have none: each optional dependency is to be turned on
/// through a feature that names it with `dep:`.
pub fn check_features(optional_deps: &Vec<String>, features: &Vec<Vec<String>>) -> (r: Result<(), Vec<String>>)
    ensures
        r is Ok <==> forall|k: int|
            0 <= k < optional_deps.len() ==> is_referenced(
                feature_items(features@),
                #[trigger] optional_deps.deep_view()[k],
            ),
        r matches Err(unreferenced) ==> {
            &&& unreferenced.len() > 0
            &&& unreferenced.deep_view().no_duplicates()
            &&& forall|name: Seq<char>| #[trigger]
                unreferenced.deep_view().contains(name) <==> optional_deps.deep_view().contains(name)
                    && !is_referenced(feature_items(features@), name)
        },
{
    let ghost items = feature_items(features@);
    let ghost all = optional_deps.deep_view();
    let mut unreferenced: Vec<String> = Vec::new();
    let mut k: usize = 0;
    assert(all.take(0) =~= Seq::<Seq<char>>::empty());
    while k < optional_deps.len()
        invariant
            k <= optional_deps.len(),
            items == feature_items(features@),
            all == optional_deps.deep_view(),
            unreferenced.deep_view().no_duplicates(),
            forall|name: Seq<char>| #[trigger]
                unreferenced.deep_view().contains(name) <==> all.take(k as int).contains(name) && !is_referenced(
                    items,
                    name,
                ),
        decreases optional_deps.len() - k,
    {
        let ghost done = all.take(k as int);
        let ghost before = unreferenced.deep_view();
        let ghost dep = optional_deps[k as int]@;
        assert(all.take(k + 1) =~= done.push(dep));
        if !references(features, optional_deps[k].as_str()) && !holds_text(&unreferenced, optional_deps[k].as_str()) {
            unreferenced.push(optional_deps[k].clone());
            assert(unreferenced.deep_view() =~= before.push(dep));
        }
        proof {
            assert forall|name: Seq<char>| #[trigger]
                unreferenced.deep_view().contains(name) <==> all.take(k + 1).contains(name) && !is_referenced(
                    items,
                    name,
                ) by {
                lemma_push_contains(done, dep, name);
                lemma_push_contains(before, dep, name);
            }
        }
        k += 1;
    }
    assert(all.take(optional_deps.len() as int) =~= all);
    if unreferenced.len() == 0 {
        assert forall|i: int| 0 <= i < optional_deps.len() implies is_referenced(items, #[trigger] all[i]) by {
            if !is_referenced(items, all[i]) {
                assert(unreferenced.deep_view().contains(all[i]));
            }
        }
        Ok(())
    } else {
        assert(unreferenced.deep_view().contains(unreferenced.deep_view()[0]));
        Err(unreferenced)
    }
}

/// What was read from the manifest of one package.
#[derive(Debug)]
pub struct ManifestFacts {
    pub package: PackageTable,
    /// The names of the dependencies that are declared optional, from all
    /// three dependency tables.
    pub optional_deps: Vec<String>,
    /// For each feature the list of what it turns on.
    pub features: Vec<Vec<String>>,
}

/// A finding of the command.
#[derive(Debug)]
pub enum Problem {
    /// The package table of the package `krate` breaks a rule.
    Metadata { krate: String, error: MetadataError },
    /// The publishable package `krate` has optional dependencies that no
    /// feature refers to.
    Features { krate: String, unreferenced: Vec<String> },
}

/// The mathematical value of a `Problem`.
pub enum Finding {
    Metadata { krate: Seq<char>, fault: MetadataFault },
    Features { krate: Seq<char>, unreferenced: Set<Seq<char>> },
}

impl View for Problem {
    type V = Finding;

    open spec fn view(&self) -> Finding {
        match self {
            Problem::Metadata { krate, error } => Finding::Metadata { krate: krate@, fault: error@ },
            Problem::Features { krate, unreferenced } => Finding::Features {
                krate: krate@,
                unreferenced: unreferenced.deep_view().to_set(),
            },
        }
    }
}

/// The values of `problems`, in order.
pub open spec fn findings(problems: Seq<Problem>) -> Seq<Finding> {
    Seq::new(problems.len(), |i: int| problems[i]@)
}

/// The first rule that `package` breaks.
pub open spec fn package_fault(package: PackageTable, crate_name: Seq<char>, is_publishable: bool) -> Option<
    MetadataFault,
> {
    match package {
        PackageTable::Missing => Some(MetadataFault::MissingPackage),
        PackageTable::NotTable => Some(MetadataFault::PackageNotTable),
        PackageTable::Table { edition, license, repository, documentation } => table_fault(
            edition@,
            license@,
            repository@,
            documentation@,
            crate_name,
            is_publishable,
        ),
    }
}

/// The optional dependencies of `facts` that no feature refers to.
pub open spec fn unreferenced_deps(facts: ManifestFacts) -> Set<Seq<char>> {
    Set::new(
        |name: Seq<char>|
            facts.optional_deps.deep_view().contains(name) && !is_referenced(feature_items(facts.features@), name),
    )
}

/// The findings on the manifest of the package `name`: the first rule that
/// its package table breaks, if any, and then, for a publishable package
/// only, its optional dependencies that no feature refers to, if any.
pub open spec fn manifest_findings(name: Seq<char>, is_publishable: bool, facts: ManifestFacts) -> Seq<Finding> {
    (match package_fault(facts.package, name, is_publishable) {
        Some(fault) => seq![Finding::Metadata { krate: name, fault }],
        None => Seq::empty(),
    }) + if is_publishable && unreferenced_deps(facts) != Set::<Seq<char>>::empty() {
        seq![Finding::Features { krate: name, unreferenced: unreferenced_deps(facts) }]
    } else {
        Seq::empty()
    }
}

/// Appends the findings on the manifest of one package to `problems`.
pub fn check_manifest(name: &str, is_publishable: bool, facts: &ManifestFacts, problems: &mut Vec<Problem>)
    ensures
        findings(final(problems)@) == findings(old(problems)@) + manifest_findings(name@, is_publishable, *facts),
{
    let ghost start = findings(problems@);
    let ghost goal_set = unreferenced_deps(*facts);
    match check_package_metadata(&facts.package, name, is_publishable) {
        Err(error) => {
            let ghost fault = error@;
            problems.push(Problem::Metadata { krate: name.to_owned(), error });
            assert(findings(problems@) =~= start + seq![Finding::Metadata { krate: name@, fault }]);
        },
        Ok(_) => {
            assert(findings(problems@) =~= start + Seq::<Finding>::empty());
        },
    }
    let ghost middle = findings(problems@);
    if is_publishable {
        match check_features(&facts.optional_deps, &facts.features) {
            Err(unreferenced) => {
                proof {
                    assert(unreferenced.deep_view().to_set() =~= goal_set);
                    let some = unreferenced.deep_view()[0];
                    assert(unreferenced.deep_view().contains(some));
                    assert(goal_set.contains(some));
                }
                problems.push(Problem::Features { krate: name.to_owned(), unreferenced });
                assert(findings(problems@) =~= middle + seq![
                    Finding::Features { krate: name@, unreferenced: goal_set },
                ]);
            },
            Ok(_) => {
                proof {
                    assert forall|x: Seq<char>| !goal_set.contains(x) by {
                        if facts.optional_deps.deep_view().contains(x) {
                            let k = choose|k: int|
                                0 <= k < facts.optional_deps.deep_view().len() && facts.optional_deps.deep_view()[k]
                                    == x;
                            assert(is_referenced(feature_items(facts.features@), facts.optional_deps.deep_view()[k]));
                        }
                    }
                    assert(goal_set =~= Set::<Seq<char>>::empty());
                    assert(findings(problems@) =~= middle + Seq::<Finding>::empty());
                }
            },
        }
    } else {
        assert(findings(problems@) =~= middle + Seq::<Finding>::empty());
    }
}

/// The findings on the first `n` packages of `packages`, the manifest of the
/// `i`-th read into `facts[i]`.
pub open spec fn all_findings(packages: Seq<crate::types::Crate>, facts: Seq<ManifestFacts>, n: int) -> Seq<Finding>
    decreases n,
{
    if n <= 0 {
        Seq::empty()
    } else {
        all_findings(packages, facts, n - 1) + manifest_findings(
            packages[n - 1].name@,
            packages[n - 1].publish,
            facts[n - 1],
        )
    }
}

/// Checks the manifests of all packages, `facts[i]` being what was read from
/// the manifest of the `i`-th package of the catalog, and fails with the
/// findings where there are any. Packages for which `facts` holds nothing,
/// and facts beyond the last package, are passed over.
pub fn run(ctx: &Context, _args: Args, facts: &Vec<ManifestFacts>) -> (r: Result<(), Vec<Problem>>)
    ensures
        ({
            let n = if facts.len() <= ctx.size() {
                facts.len() as int
            } else {
                ctx.size() as int
            };
            match r {
                Ok(_) => all_findings(ctx.packages(), facts@, n).len() == 0,
                Err(problems) => problems.len() > 0 && findings(problems@) == all_findings(
                    ctx.packages(),
                    facts@,
                    n,
                ),
            }
        }),
{
    let crates = ctx.crates();
    let n = if facts.len() <= crates.len() {
        facts.len()
    } else {
        crates.len()
    };
    let mut problems: Vec<Problem> = Vec::new();
    let mut i: usize = 0;
    assert(findings(problems@) =~= all_findings(crates@, facts@, 0));
    while i < n
        invariant
            i <= n,
            n <= facts.len(),
            n <= crates.len(),
            findings(problems@) == all_findings(crates@, facts@, i as int),
        decreases n - i,
    {
        check_manifest(crates[i].name.as_str(), crates[i].publish, &facts[i], &mut problems);
        i += 1;
    }
    if problems.len() == 0 {
        Ok(())
    } else {
        Err(problems)
    }
}

} // verus!
