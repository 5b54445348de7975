//! The package catalog: what a manifest declares, the packages of the
//! repository, and the dependency graphs between them.

use crate::text::{
    copy_texts, holds_text, lemma_deep_view_is_texts, lemma_text_lt_irreflexive, lemma_text_lt_total,
    lemma_text_lt_transitive, lemma_texts_concat, less_than, same_text, text_lt, texts, unique_texts,
    without_repeats,
};
use crate::graph::{
    adj_wf, adjacency, breadth_first, has_cycle, has_edge, is_topological, is_walk, lemma_reaches_trans,
    lemma_reaches_transpose, reached_from, reaches, transposed, walk_step, Graph,
};
use crate::seqs::{lemma_concat_contains, lemma_filter_map_concat, lemma_filter_map_holds, lemma_push_contains};
use vstd::prelude::*;
use vstd::string::*;

verus! {

/// The name of a package, unique in the catalog.
pub type CrateId = String;

/// One way of building a package.
#[derive(Debug, Clone)]
pub struct BuildConfig {
    pub group: Option<String>,
    pub features: Vec<String>,
    pub target: Option<String>,
    /// Environment overrides, as pairs of a variable's name and its value.
    /// The pairs stand for a map: their order does not count, and of two
    /// entries for one variable the later stands.
    pub env: Vec<(String, String)>,
    pub build_std: Vec<String>,
    pub artifact_dir: Option<String>,
}

impl BuildConfig {
    /// The variant of a package that declares none: no group, no features,
    /// no target, nothing overridden.
    pub open spec fn is_plain(&self) -> bool {
        &&& self.group is None
        &&& self.features@.len() == 0
        &&& self.target is None
        &&& self.env@.len() == 0
        &&& self.build_std@.len() == 0
        &&& self.artifact_dir is None
    }
}

impl Default for BuildConfig {
    fn default() -> (c: BuildConfig)
        ensures
            c.is_plain(),
    {
        BuildConfig {
            group: None,
            features: Vec::new(),
            target: None,
            env: Vec::new(),
            build_std: Vec::new(),
            artifact_dir: None,
        }
    }
}

/// The tool's own block of a manifest's metadata.
#[derive(Debug)]
pub struct MetadataEmbassy {
    /// The package asks to be left out of the catalog.
    pub skip: bool,
    pub build: Vec<BuildConfig>,
}

impl Default for MetadataEmbassy {
    fn default() -> (m: MetadataEmbassy)
        ensures
            !m.skip,
            m.build@.len() == 0,
    {
        MetadataEmbassy { skip: false, build: Vec::new() }
    }
}

/// The metadata block of a manifest.
#[derive(Debug)]
pub struct Metadata {
    pub embassy: MetadataEmbassy,
}

impl Default for Metadata {
    fn default() -> (m: Metadata)
        ensures
            !m.embassy.skip,
            m.embassy.build@.len() == 0,
    {
        Metadata { embassy: MetadataEmbassy::default() }
    }
}

/// The `package` table of a manifest.
#[derive(Debug)]
pub struct ParsedPackage {
    pub name: String,
    pub version: String,
    pub publish: bool,
    pub metadata: Metadata,
}

/// What a package's manifest declares: the package table and the names in
/// its three dependency tables. The names may come in any order and more
/// than once; as keys of a table they count in dictionary order, each once.
#[derive(Debug)]
pub struct ParsedCrate {
    pub package: ParsedPackage,
    pub dependencies: Vec<String>,
    pub build_dependencies: Vec<String>,
    pub dev_dependencies: Vec<String>,
}

/// A manifest that says nothing about publishing allows it.
pub fn default_publish() -> (publish: bool)
    ensures
        publish,
{
    true
}

/// Which of a package's dependency tables is meant; `Any` is all three together.
#[derive(Debug, Clone, Copy, PartialEq, Eq, Structural)]
pub enum DepKind {
    Runtime,
    Build,
    Dev,
    Any,
}

/// A package of the repository.
#[derive(Debug, Clone)]
pub struct Crate {
    pub name: CrateId,
    pub version: String,
    /// The directory of the manifest.
    pub path: String,
    pub dependencies: Vec<CrateId>,
    pub build_dependencies: Vec<CrateId>,
    pub dev_dependencies: Vec<CrateId>,
    pub configs: Vec<BuildConfig>,
    pub publish: bool,
}

impl Crate {
    /// The names in the dependency table `kind`; for `Any` the runtime, build
    /// and dev names in that order.
    pub open spec fn dep_names(&self, kind: DepKind) -> Seq<Seq<char>> {
        match kind {
            DepKind::Runtime => self.dependencies.deep_view(),
            DepKind::Build => self.build_dependencies.deep_view(),
            DepKind::Dev => self.dev_dependencies.deep_view(),
            DepKind::Any => self.dependencies.deep_view() + self.build_dependencies.deep_view()
                + self.dev_dependencies.deep_view(),
        }
    }

    /// The runtime, build and dev dependencies, in that order.
    pub fn all_dependencies(&self) -> (r: Vec<CrateId>)
        ensures
            r.deep_view() == self.dep_names(DepKind::Any),
    {
        let mut r = copy_texts(&self.dependencies);
        let mut build = copy_texts(&self.build_dependencies);
        let mut dev = copy_texts(&self.dev_dependencies);
        let ghost a = r.deep_view();
        let ghost b = build.deep_view();
        let ghost c = dev.deep_view();
        r.append(&mut build);
        r.append(&mut dev);
        assert(r.deep_view() =~= a + b + c);
        r
    }

    /// Whether the table `kind` names `name`.
    pub fn depends_on(&self, kind: DepKind, name: &str) -> (r: bool)
        ensures
            r == self.dep_names(kind).contains(name@),
    {
        match kind {
            DepKind::Runtime => holds_text(&self.dependencies, name),
            DepKind::Build => holds_text(&self.build_dependencies, name),
            DepKind::Dev => holds_text(&self.dev_dependencies, name),
            DepKind::Any => {
                proof {
                    lemma_concat_contains(
                        self.dependencies.deep_view(),
                        self.build_dependencies.deep_view(),
                        name@,
                    );
                    lemma_concat_contains(
                        self.dependencies.deep_view() + self.build_dependencies.deep_view(),
                        self.dev_dependencies.deep_view(),
                        name@,
                    );
                }
                holds_text(&self.dependencies, name) || holds_text(&self.build_dependencies, name)
                    || holds_text(&self.dev_dependencies, name)
            },
        }
    }
}

/// The names of `crates`, in their order.
pub open spec fn names_of(crates: Seq<Crate>) -> Seq<Seq<char>> {
    Seq::new(crates.len(), |i: int| crates[i].name@)
}

/// Each name comes before all that follow it in dictionary order.
pub open spec fn strictly_sorted(names: Seq<Seq<char>>) -> bool {
    forall|i: int, j: int| 0 <= i < j < names.len() ==> text_lt(#[trigger] names[i], #[trigger] names[j])
}

/// Names in strict dictionary order are all different.
pub proof fn lemma_sorted_distinct(names: Seq<Seq<char>>)
    requires
        strictly_sorted(names),
    ensures
        names.no_duplicates(),
{
    assert forall|i: int, j: int| 0 <= i < names.len() && 0 <= j < names.len() && i != j implies names[i]
        != names[j] by {
        lemma_text_lt_irreflexive(names[i]);
        if i < j {
            assert(text_lt(names[i], names[j]));
        } else {
            assert(text_lt(names[j], names[i]));
        }
    }
}

/// Where `name` stands in `crates`, if one of them has it.
pub fn position_of(crates: &Vec<Crate>, name: &str) -> (r: Option<usize>)
    ensures
        match r {
            Some(i) => i < crates.len() && crates[i as int].name@ == name@ && forall|j: int|
                0 <= j < i ==> crates[j].name@ != name@,
            None => !names_of(crates@).contains(name@),
        },
{
    let mut i: usize = 0;
    while i < crates.len()
        invariant
            i <= crates.len(),
            forall|j: int| 0 <= j < i ==> crates[j].name@ != name@,
        decreases crates.len() - i,
    {
        if same_text(crates[i].name.as_str(), name) {
            return Some(i);
        }
        i += 1;
    }
    assert forall|j: int| 0 <= j < names_of(crates@).len() implies names_of(crates@)[j] != name@ by {
        assert(crates[j].name@ != name@);
    }
    None
}

/// `catalog` is the catalog of `items`: for each name that occurs in `items`
/// the last package given with it, in dictionary order of the names.
pub open spec fn is_catalog_of(catalog: Seq<Crate>, items: Seq<Crate>) -> bool {
    &&& strictly_sorted(names_of(catalog))
    &&& forall|k: int| 0 <= k < catalog.len() ==> is_last_given(items, #[trigger] catalog[k])
    &&& forall|i: int| 0 <= i < items.len() ==> names_of(catalog).contains(#[trigger] items[i].name@)
}

/// `c` is one of `items`, and none after it has its name.
pub open spec fn is_last_given(items: Seq<Crate>, c: Crate) -> bool {
    exists|i: int| 0 <= i < items.len() && #[trigger] items[i] == c && is_last_of_name(items, i)
}

/// No later package of `items` has the name of the `i`-th.
pub open spec fn is_last_of_name(items: Seq<Crate>, i: int) -> bool {
    forall|j: int| i < j < items.len() ==> (#[trigger] items[j]).name@ != items[i].name@
}

/// Puts `c` into the sorted `catalog` unless a package of its name is there.
fn insert_new(catalog: &mut Vec<Crate>, c: Crate) -> (added: bool)
    requires
        strictly_sorted(names_of(old(catalog)@)),
    ensures
        strictly_sorted(names_of(final(catalog)@)),
        added == !names_of(old(catalog)@).contains(c.name@),
        !added ==> final(catalog)@ == old(catalog)@,
        added ==> exists|i: int| 0 <= i <= old(catalog).len() && final(catalog)@ == old(catalog)@.insert(i, c),
{
    let ghost names = names_of(catalog@);
    let mut i: usize = 0;
    while i < catalog.len() && less_than(catalog[i].name.as_str(), c.name.as_str())
        invariant
            i <= catalog.len(),
            catalog@ == old(catalog)@,
            names == names_of(catalog@),
            forall|t: int| 0 <= t < i ==> text_lt(#[trigger] names[t], c.name@),
        decreases catalog.len() - i,
    {
        assert(names[i as int] == catalog[i as int].name@);
        i += 1;
    }
    if i < catalog.len() && same_text(catalog[i].name.as_str(), c.name.as_str()) {
        assert(names[i as int] == c.name@);
        return false;
    }
    proof {
        assert forall|t: int| i <= t < names.len() implies text_lt(c.name@, #[trigger] names[t]) by {
            assert(names[i as int] == catalog[i as int].name@);
            lemma_text_lt_total(c.name@, names[i as int]);
            if t > i {
                assert(text_lt(names[i as int], names[t]));
                lemma_text_lt_transitive(c.name@, names[i as int], names[t]);
            }
        }
        assert forall|t: int| 0 <= t < names.len() implies names[t] != c.name@ by {
            lemma_text_lt_irreflexive(c.name@);
            if t < i {
                assert(text_lt(names[t], c.name@));
            } else {
                assert(text_lt(c.name@, names[t]));
            }
        }
        let after = names_of(catalog@.insert(i as int, c));
        assert(after =~= names.insert(i as int, c.name@));
        assert forall|x: int, y: int| 0 <= x < y < after.len() implies text_lt(
            #[trigger] after[x],
            #[trigger] after[y],
        ) by {
            if x < i && y > i {
                assert(text_lt(names[x], c.name@));
                assert(text_lt(c.name@, names[y - 1]));
                lemma_text_lt_transitive(names[x], c.name@, names[y - 1]);
            } else if x < i && y < i {
                assert(text_lt(names[x], names[y]));
            } else if x < i && y == i {
                assert(text_lt(names[x], c.name@));
            } else if x == i {
                assert(text_lt(c.name@, names[y - 1]));
            } else {
                assert(text_lt(names[x - 1], names[y - 1]));
            }
        }
    }
    catalog.insert(i, c);
    true
}

/// The catalog of `crates`: one package for each name, the last given with
/// it, in dictionary order of the names.
pub fn build_catalog(crates: Vec<Crate>) -> (catalog: Vec<Crate>)
    ensures
        is_catalog_of(catalog@, crates@),
{
    let ghost input = crates@;
    let mut rest = crates;
    let mut catalog: Vec<Crate> = Vec::new();
    assert(input.skip(input.len() as int) =~= Seq::<Crate>::empty());
    while rest.len() > 0
        invariant
            rest@ == input.take(rest.len() as int),
            rest.len() <= input.len(),
            is_catalog_of(catalog@, input.skip(rest.len() as int)),
        decreases rest.len(),
    {
        let ghost m = rest.len() as int;
        let ghost items = input.skip(m);
        let ghost before = catalog@;
        let c = rest.pop().unwrap();
        let ghost next = input.skip(m - 1);
        assert(c == input[m - 1]);
        assert(rest@ =~= input.take(m - 1));
        let added = insert_new(&mut catalog, c);
        proof {
            assert(next[0] == c);
            assert forall|i: int| 0 <= i < items.len() implies items[i] == next[i + 1] by {}
            if added {
                let pos = choose|i: int| 0 <= i <= before.len() && catalog@ == before.insert(i, c);
                assert(is_last_of_name(next, 0)) by {
                    assert forall|j: int| 0 < j < next.len() implies (#[trigger] next[j]).name@ != next[0].name@ by {
                        assert(names_of(before).contains(items[j - 1].name@));
                    }
                }
                assert forall|k: int| 0 <= k < catalog.len() implies is_last_given(next, #[trigger] catalog[k]) by {
                    if k == pos {
                        assert(next[0] == catalog[k]);
                    } else {
                        let k0 = if k < pos {
                            k
                        } else {
                            k - 1
                        };
                        assert(catalog[k] == before[k0]);
                        assert(is_last_given(items, before[k0]));
                        let i = choose|i: int|
                            0 <= i < items.len() && #[trigger] items[i] == before[k0] && is_last_of_name(items, i);
                        lemma_last_shifts(items, next, i);
                        assert(next[i + 1] == catalog[k]);
                    }
                }
                assert forall|i: int| 0 <= i < next.len() implies names_of(catalog@).contains(
                    #[trigger] next[i].name@,
                ) by {
                    if i == 0 {
                        assert(names_of(catalog@)[pos] == c.name@);
                    } else {
                        assert(names_of(before).contains(items[i - 1].name@));
                        let k = choose|k: int| 0 <= k < before.len() && names_of(before)[k] == items[i - 1].name@;
                        let k1 = if k < pos {
                            k
                        } else {
                            k + 1
                        };
                        assert(names_of(catalog@)[k1] == items[i - 1].name@);
                    }
                }
            } else {
                assert forall|k: int| 0 <= k < catalog.len() implies is_last_given(next, #[trigger] catalog[k]) by {
                    assert(is_last_given(items, before[k]));
                    let i = choose|i: int|
                        0 <= i < items.len() && #[trigger] items[i] == before[k] && is_last_of_name(items, i);
                    lemma_last_shifts(items, next, i);
                    assert(next[i + 1] == catalog[k]);
                }
                assert forall|i: int| 0 <= i < next.len() implies names_of(catalog@).contains(
                    #[trigger] next[i].name@,
                ) by {
                    if i > 0 {
                        assert(names_of(before).contains(items[i - 1].name@));
                    }
                }
            }
        }
    }
    assert(input.skip(0) =~= input);
    catalog
}

proof fn lemma_last_shifts(items: Seq<Crate>, next: Seq<Crate>, i: int)
    requires
        next.len() == items.len() + 1,
        forall|j: int| 0 <= j < items.len() ==> items[j] == next[j + 1],
        0 <= i < items.len(),
        is_last_of_name(items, i),
    ensures
        is_last_of_name(next, i + 1),
{
    assert forall|j: int| i + 1 < j < next.len() implies (#[trigger] next[j]).name@ != next[i + 1].name@ by {
        assert(items[j - 1].name@ != items[i].name@);
    }
}

/// The dependencies of the catalog have a cycle.
#[derive(Debug, Clone, Copy, PartialEq, Eq, Structural)]
pub struct CycleError;

/// Why a catalog was refused.
#[derive(Debug)]
pub enum ContextError {
    /// The publishable package `krate` depends at run time on `dependency`,
    /// which is not publishable.
    PublishConflict { krate: String, dependency: String },
}

/// The `t`-th runtime dependency of the publishable package `a` is a package
/// of `crates` that is not publishable. A name stands for the first package
/// that has it.
pub open spec fn conflict_at(crates: Seq<Crate>, a: int, t: int) -> bool {
    &&& 0 <= a < crates.len()
    &&& crates[a].publish
    &&& 0 <= t < crates[a].dependencies@.len()
    &&& exists|b: int|
        0 <= b < crates.len() && (#[trigger] crates[b]).name@ == crates[a].dependencies@[t]@
            && !crates[b].publish && forall|j: int|
            0 <= j < b ==> (#[trigger] crates[j]).name@ != crates[a].dependencies@[t]@
}

/// No publishable package of `crates` depends at run time on one that is not.
pub open spec fn publish_rule(crates: Seq<Crate>) -> bool {
    forall|a: int, t: int| !conflict_at(crates, a, t)
}

/// The first conflict with the rule that a publishable package depends at run
/// time on publishable packages only: packages are taken in their order, and
/// each one's dependencies in the order of its table.
pub fn check_publish_dependencies(crates: &Vec<Crate>) -> (r: Result<(), ContextError>)
    ensures
        match r {
            Ok(_) => publish_rule(crates@),
            Err(ContextError::PublishConflict { krate, dependency }) => exists|a: int, t: int|
                {
                    &&& #[trigger] conflict_at(crates@, a, t)
                    &&& krate@ == crates[a].name@
                    &&& dependency@ == crates[a].dependencies@[t]@
                    &&& forall|x: int, y: int| (x < a || (x == a && y < t)) ==> !conflict_at(crates@, x, y)
                },
        },
{
    let mut a: usize = 0;
    while a < crates.len()
        invariant
            a <= crates.len(),
            forall|x: int, y: int| x < a ==> !conflict_at(crates@, x, y),
        decreases crates.len() - a,
    {
        if crates[a].publish {
            let mut t: usize = 0;
            while t < crates[a].dependencies.len()
                invariant
                    a < crates.len(),
                    crates[a as int].publish,
                    t <= crates[a as int].dependencies.len(),
                    forall|x: int, y: int| (x < a || (x == a && y < t)) ==> !conflict_at(crates@, x, y),
                decreases crates[a as int].dependencies.len() - t,
            {
                match position_of(crates, crates[a].dependencies[t].as_str()) {
                    Some(b) => {
                        if !crates[b].publish {
                            assert(conflict_at(crates@, a as int, t as int));
                            return Err(
                                ContextError::PublishConflict {
                                    krate: crates[a].name.clone(),
                                    dependency: crates[a].dependencies[t].clone(),
                                },
                            );
                        }
                        assert(!conflict_at(crates@, a as int, t as int)) by {
                            if conflict_at(crates@, a as int, t as int) {
                                let b2 = choose|b2: int|
                                    0 <= b2 < crates.len() && (#[trigger] crates[b2]).name@
                                        == crates[a as int].dependencies@[t as int]@ && !crates[b2].publish
                                        && forall|j: int|
                                        0 <= j < b2 ==> (#[trigger] crates[j]).name@
                                            != crates[a as int].dependencies@[t as int]@;
                                if b2 < b {
                                    assert(crates[b2].name@ != crates[a as int].dependencies@[t as int]@);
                                } else if b < b2 {
                                    assert(crates[b as int].name@ != crates[a as int].dependencies@[t as int]@);
                                }
                            }
                        }
                    },
                    None => {
                        assert(!conflict_at(crates@, a as int, t as int)) by {
                            if conflict_at(crates@, a as int, t as int) {
                                let b2 = choose|b2: int|
                                    0 <= b2 < crates.len() && (#[trigger] crates[b2]).name@
                                        == crates[a as int].dependencies@[t as int]@;
                                assert(names_of(crates@)[b2] == crates[a as int].dependencies@[t as int]@);
                            }
                        }
                    },
                }
                t += 1;
            }
        }
        a += 1;
    }
    Ok(())
}

/// Where the package named `name` stands in `crates`.
pub open spec fn position_in(crates: Seq<Crate>, name: Seq<char>) -> int {
    choose|i: int| 0 <= i < crates.len() && names_of(crates)[i] == name
}

/// What a name in a dependency table stands for: the position of the package
/// of that name, or nothing where `crates` has no such package.
pub open spec fn resolver(crates: Seq<Crate>) -> spec_fn(Seq<char>) -> Option<usize> {
    |d: Seq<char>|
        if names_of(crates).contains(d) {
            Some(position_in(crates, d) as usize)
        } else {
            None
        }
}

/// The positions of the packages that the `a`-th package names in its table
/// `kind`, in the order of the table; names of no package are left out.
pub open spec fn resolved_in(crates: Seq<Crate>, kind: DepKind, a: int) -> Seq<usize> {
    crates[a].dep_names(kind).filter_map(resolver(crates))
}

/// The adjacency lists of the dependencies of `kind`.
pub open spec fn forward_in(crates: Seq<Crate>, kind: DepKind) -> Seq<Seq<usize>> {
    Seq::new(crates.len(), |a: int| resolved_in(crates, kind, a))
}

/// With names that differ, a name stands for the one position that holds it.
proof fn lemma_resolver(crates: Seq<Crate>, i: int)
    requires
        names_of(crates).no_duplicates(),
        0 <= i < crates.len(),
        crates.len() <= usize::MAX,
    ensures
        resolver(crates)(crates[i].name@) == Some(i as usize),
{
    assert(names_of(crates)[i] == crates[i].name@);
    assert(names_of(crates)[position_in(crates, crates[i].name@)] == names_of(crates)[i]);
}

/// The dependency lists name a package where the table names it.
proof fn lemma_forward_edges(crates: Seq<Crate>, kind: DepKind, a: int, b: int)
    requires
        names_of(crates).no_duplicates(),
        crates.len() <= usize::MAX,
    ensures
        has_edge(forward_in(crates, kind), a, b) <==> 0 <= a < crates.len() && 0 <= b < crates.len()
            && crates[a].dep_names(kind).contains(crates[b].name@),
        0 <= a < crates.len() ==> forall|k: int|
            0 <= k < forward_in(crates, kind)[a].len() ==> (#[trigger] forward_in(crates, kind)[a][k])
                < crates.len(),
{
    let names = names_of(crates);
    if 0 <= a < crates.len() {
        let deps = crates[a].dep_names(kind);
        let list = forward_in(crates, kind)[a];
        assert(list == deps.filter_map(resolver(crates)));
        assert forall|k: int| 0 <= k < list.len() implies (#[trigger] list[k]) < crates.len() by {
            assert(list.contains(list[k]));
            lemma_filter_map_holds(deps, resolver(crates), list[k]);
            let i = choose|i: int| 0 <= i < deps.len() && resolver(crates)(#[trigger] deps[i]) == Some(list[k]);
            assert(names.contains(deps[i]));
        }
        if 0 <= b < crates.len() {
            lemma_filter_map_holds(deps, resolver(crates), b as usize);
            lemma_resolver(crates, b);
            if has_edge(forward_in(crates, kind), a, b) {
                let k = choose|k: int| 0 <= k < list.len() && #[trigger] list[k] == b;
                assert(list.contains(b as usize));
                let i = choose|i: int| 0 <= i < deps.len() && resolver(crates)(#[trigger] deps[i]) == Some(b as usize);
                assert(names[position_in(crates, deps[i])] == deps[i]);
                assert(deps[i] == crates[b].name@);
            }
            if deps.contains(crates[b].name@) {
                let i = choose|i: int| 0 <= i < deps.len() && deps[i] == crates[b].name@;
                assert(resolver(crates)(deps[i]) == Some(b as usize));
                assert(list.contains(b as usize));
                let k = choose|k: int| 0 <= k < list.len() && list[k] == b as usize;
                assert(list[k] == b);
            }
        }
    }
}

/// The positions of the packages of `crates` that `list` names, in the
/// order of `list`.
fn resolve_list(crates: &Vec<Crate>, list: &Vec<String>) -> (r: Vec<usize>)
    requires
        names_of(crates@).no_duplicates(),
    ensures
        r@ == list.deep_view().filter_map(resolver(crates@)),
{
    let ghost f = resolver(crates@);
    let ghost all = list.deep_view();
    let mut r: Vec<usize> = Vec::new();
    let mut t: usize = 0;
    assert(all.take(0) =~= Seq::<Seq<char>>::empty());
    while t < list.len()
        invariant
            t <= list.len(),
            names_of(crates@).no_duplicates(),
            f == resolver(crates@),
            all == list.deep_view(),
            r@ == all.take(t as int).filter_map(f),
        decreases list.len() - t,
    {
        proof {
            all.lemma_filter_map_take_succ(f, t as int);
            assert(all[t as int] == list[t as int]@);
        }
        let ghost before = r@;
        match position_of(crates, list[t].as_str()) {
            Some(b) => {
                proof {
                    lemma_resolver(crates@, b as int);
                    assert(names_of(crates@)[b as int] == list[t as int]@);
                }
                r.push(b);
                assert(r@ =~= before + seq![b]);
            },
            None => {
                assert(r@ =~= before + Seq::<usize>::empty());
            },
        }
        t += 1;
    }
    assert(all.take(list.len() as int) =~= all);
    r
}

/// The adjacency lists of the dependencies of `kind`.
fn dependency_lists(crates: &Vec<Crate>, kind: DepKind) -> (lists: Vec<Vec<usize>>)
    requires
        names_of(crates@).no_duplicates(),
    ensures
        adjacency(lists@) == forward_in(crates@, kind),
        adj_wf(adjacency(lists@)),
{
    let mut lists: Vec<Vec<usize>> = Vec::new();
    let mut a: usize = 0;
    while a < crates.len()
        invariant
            a <= crates.len(),
            names_of(crates@).no_duplicates(),
            lists.len() == a,
            forall|x: int| 0 <= x < a ==> (#[trigger] lists[x])@ == resolved_in(crates@, kind, x),
        decreases crates.len() - a,
    {
        let c = &crates[a];
        let list = match kind {
            DepKind::Runtime => resolve_list(crates, &c.dependencies),
            DepKind::Build => resolve_list(crates, &c.build_dependencies),
            DepKind::Dev => resolve_list(crates, &c.dev_dependencies),
            DepKind::Any => {
                let mut all = resolve_list(crates, &c.dependencies);
                let mut build = resolve_list(crates, &c.build_dependencies);
                let mut dev = resolve_list(crates, &c.dev_dependencies);
                proof {
                    lemma_filter_map_concat(
                        c.dependencies.deep_view(),
                        c.build_dependencies.deep_view(),
                        resolver(crates@),
                    );
                    lemma_filter_map_concat(
                        c.dependencies.deep_view() + c.build_dependencies.deep_view(),
                        c.dev_dependencies.deep_view(),
                        resolver(crates@),
                    );
                }
                all.append(&mut build);
                all.append(&mut dev);
                all
            },
        };
        lists.push(list);
        a += 1;
    }
    proof {
        assert(adjacency(lists@) =~= forward_in(crates@, kind));
        assert forall|x: int, k: int|
            0 <= x < adjacency(lists@).len() && 0 <= k < adjacency(lists@)[x].len() implies (#[trigger] adjacency(
            lists@,
        )[x][k]) < adjacency(lists@).len() by {
            lemma_forward_edges(crates@, kind, x, 0);
        }
    }
    lists
}

/// The catalog of one repository with its dependency graphs.
pub struct Context {
    root: String,
    crates: Vec<Crate>,
    runtime: Graph,
    build: Graph,
    dev: Graph,
    any: Graph,
}

impl Context {
    #[verifier::type_invariant]
    spec fn inv(&self) -> bool {
        self.wf()
    }

    /// The packages, in dictionary order of their names.
    pub closed spec fn packages(&self) -> Seq<Crate> {
        self.crates@
    }

    /// The directory of the repository.
    pub closed spec fn root_text(&self) -> Seq<char> {
        self.root@
    }

    /// The graph of the dependencies of `kind`: an edge leads from a package
    /// to each package that it depends on.
    pub closed spec fn graph(&self, kind: DepKind) -> Graph {
        match kind {
            DepKind::Runtime => self.runtime,
            DepKind::Build => self.build,
            DepKind::Dev => self.dev,
            DepKind::Any => self.any,
        }
    }

    /// The names of the packages, in order.
    pub open spec fn names(&self) -> Seq<Seq<char>> {
        names_of(self.packages())
    }

    /// The number of packages.
    pub open spec fn size(&self) -> nat {
        self.packages().len()
    }

    /// Some package has the name `name`.
    pub open spec fn knows(&self, name: Seq<char>) -> bool {
        self.names().contains(name)
    }

    /// The `a`-th package names the `b`-th in its dependency table `kind`.
    pub open spec fn depends_on(&self, kind: DepKind, a: int, b: int) -> bool {
        &&& 0 <= a < self.size()
        &&& 0 <= b < self.size()
        &&& self.packages()[a].dep_names(kind).contains(self.packages()[b].name@)
    }

    /// The graph of `kind` has the catalog's packages as nodes and its
    /// dependencies as edges.
    pub closed spec fn graph_matches(&self, kind: DepKind) -> bool {
        &&& self.graph(kind).wf()
        &&& self.graph(kind).size() == self.size()
        &&& self.graph(kind).edges() == self.forward(kind)
        &&& self.graph(kind).back_edges() == self.backward(kind)
        &&& forall|a: int, b: int| #[trigger]
            has_edge(self.graph(kind).edges(), a, b) <==> self.depends_on(kind, a, b)
    }

    /// The adjacency lists of the dependencies of `kind`: for each package
    /// the positions of the packages that its table names, in the order of
    /// the table.
    pub open spec fn forward(&self, kind: DepKind) -> Seq<Seq<usize>> {
        forward_in(self.packages(), kind)
    }

    /// The adjacency lists of the dependents of `kind`: for each package the
    /// positions of the packages that name it in their table, in rising order.
    pub open spec fn backward(&self, kind: DepKind) -> Seq<Seq<usize>> {
        transposed(self.forward(kind))
    }

    /// The names are in strict dictionary order, the publish rule holds, and
    /// each graph mirrors the dependency tables.
    pub closed spec fn wf(&self) -> bool {
        &&& strictly_sorted(self.names())
        &&& publish_rule(self.packages())
        &&& self.graph_matches(DepKind::Runtime)
        &&& self.graph_matches(DepKind::Build)
        &&& self.graph_matches(DepKind::Dev)
        &&& self.graph_matches(DepKind::Any)
    }

    /// The catalog of `crates` under the directory `root`. Where two packages
    /// share a name, the later one stands. Fails where a publishable package
    /// of the catalog depends at run time on one that is not publishable.
    pub fn new(root: String, crates: Vec<Crate>) -> (r: Result<Context, ContextError>)
        ensures
            match r {
                Ok(ctx) => {
                    &&& ctx.wf()
                    &&& ctx.root_text() == root@
                    &&& is_catalog_of(ctx.packages(), crates@)
                    &&& publish_rule(ctx.packages())
                },
                Err(ContextError::PublishConflict { krate, dependency }) => exists|
                    catalog: Seq<Crate>,
                    a: int,
                    t: int,
                |
                    {
                        &&& is_catalog_of(catalog, crates@)
                        &&& #[trigger] conflict_at(catalog, a, t)
                        &&& krate@ == catalog[a].name@
                        &&& dependency@ == catalog[a].dependencies@[t]@
                        &&& forall|x: int, y: int| (x < a || (x == a && y < t)) ==> !conflict_at(catalog, x, y)
                    },
            },
    {
        let catalog = build_catalog(crates);
        proof {
            lemma_sorted_distinct(names_of(catalog@));
        }
        match check_publish_dependencies(&catalog) {
            Err(e) => {
                return Err(e);
            },
            Ok(_) => {},
        }
        let n = catalog.len();
        let runtime = Graph::from_lists(&dependency_lists(&catalog, DepKind::Runtime));
        let build = Graph::from_lists(&dependency_lists(&catalog, DepKind::Build));
        let dev = Graph::from_lists(&dependency_lists(&catalog, DepKind::Dev));
        let any = Graph::from_lists(&dependency_lists(&catalog, DepKind::Any));
        proof {
            assert forall|kind: DepKind, a: int, b: int| #[trigger]
                has_edge(forward_in(catalog@, kind), a, b) <==> 0 <= a < catalog.len() && 0 <= b < catalog.len()
                    && catalog[a].dep_names(kind).contains(catalog[b].name@) by {
                lemma_forward_edges(catalog@, kind, a, b);
            }
        }
        let ctx = Context { root, crates: catalog, runtime, build, dev, any };
        Ok(ctx)
    }

    /// The number of packages.
    pub fn len(&self) -> (n: usize)
        ensures
            n == self.size(),
    {
        self.crates.len()
    }

    /// The packages, in dictionary order of their names.
    pub fn crates(&self) -> (list: &Vec<Crate>)
        ensures
            list@ == self.packages(),
            self.wf(),
    {
        proof {
            use_type_invariant(self);
        }
        &self.crates
    }

    /// The directory of the repository.
    pub fn root(&self) -> (root: &String)
        ensures
            root@ == self.root_text(),
    {
        &self.root
    }

    /// The position of the package `name`.
    pub fn find(&self, name: &str) -> (r: Option<usize>)
        ensures
            match r {
                Some(i) => i < self.size() && self.names()[i as int] == name@,
                None => !self.knows(name@),
            },
    {
        position_of(&self.crates, name)
    }

    /// The package `name`.
    pub fn get(&self, name: &str) -> (r: Option<&Crate>)
        ensures
            match r {
                Some(c) => c.name@ == name@ && self.packages().contains(*c),
                None => !self.knows(name@),
            },
    {
        match position_of(&self.crates, name) {
            Some(i) => {
                assert(self.packages()[i as int] == self.crates[i as int]);
                Some(&self.crates[i])
            },
            None => None,
        }
    }

    /// The `k`-th step of `p` goes from a package to one that it depends on.
    pub open spec fn chain_step(&self, kind: DepKind, p: Seq<int>, k: int) -> bool {
        self.depends_on(kind, p[k], p[k + 1])
    }

    /// `p` is a chain of dependencies: positions of packages, each depending
    /// on the next through its table `kind`.
    pub open spec fn is_chain(&self, kind: DepKind, p: Seq<int>) -> bool {
        &&& p.len() > 0
        &&& 0 <= p[0] < self.size()
        &&& forall|k: int| 0 <= k < p.len() - 1 ==> #[trigger] self.chain_step(kind, p, k)
    }

    /// A chain of dependencies of `kind` leads from the `a`-th package to the
    /// `b`-th. A package leads to itself by the chain without a step.
    pub open spec fn requires_transitively(&self, kind: DepKind, a: int, b: int) -> bool {
        exists|p: Seq<int>| #[trigger] self.is_chain(kind, p) && p.first() == a && p.last() == b
    }

    /// A chain of dependencies of `kind` leads from the package named `a` to
    /// the package named `b`.
    pub open spec fn needs(&self, kind: DepKind, a: Seq<char>, b: Seq<char>) -> bool {
        exists|i: int, j: int|
            0 <= i < self.size() && 0 <= j < self.size() && self.names()[i] == a && self.names()[j] == b
                && #[trigger] self.requires_transitively(kind, i, j)
    }

    /// The names of the packages that one of `roots` needs: the packages
    /// named in `roots` and all that a chain of dependencies leads to.
    pub open spec fn dependency_closure(&self, kind: DepKind, roots: Seq<Seq<char>>) -> Set<Seq<char>> {
        Set::new(|b: Seq<char>| exists|r: int| 0 <= r < roots.len() && #[trigger] self.needs(kind, roots[r], b))
    }

    /// The names of the packages that need one of `roots`.
    pub open spec fn dependent_closure(&self, kind: DepKind, roots: Seq<Seq<char>>) -> Set<Seq<char>> {
        Set::new(|a: Seq<char>| exists|r: int| 0 <= r < roots.len() && #[trigger] self.needs(kind, a, roots[r]))
    }

    /// Some package depends on one that a chain leads back from.
    pub open spec fn has_dependency_cycle(&self, kind: DepKind) -> bool {
        exists|a: int, b: int| #[trigger] self.depends_on(kind, a, b) && self.requires_transitively(kind, b, a)
    }

    /// `x` stands before `y` in `list`.
    pub open spec fn comes_before(list: Seq<Seq<char>>, x: Seq<char>, y: Seq<char>) -> bool {
        exists|i: int, j: int| 0 <= i < j < list.len() && #[trigger] list[i] == x && #[trigger] list[j] == y
    }

    /// `list` names every package once, and each after the packages that it
    /// depends on through its table `kind`.
    pub open spec fn is_dependency_order(&self, kind: DepKind, list: Seq<Seq<char>>) -> bool {
        &&& list.no_duplicates()
        &&& forall|name: Seq<char>| #[trigger] list.contains(name) <==> self.knows(name)
        &&& forall|a: int, b: int| #[trigger]
            self.depends_on(kind, a, b) ==> Self::comes_before(list, self.names()[b], self.names()[a])
    }

    /// The position of the package named `name`.
    pub open spec fn position(&self, name: Seq<char>) -> int {
        position_in(self.packages(), name)
    }

    /// The package named `name`.
    pub open spec fn package(&self, name: Seq<char>) -> Crate {
        self.packages()[self.position(name)]
    }

    /// A package that a chain of dependencies leads to is needed, and one
    /// from which a chain leads here is a dependent: the two closures are the
    /// same relation read in opposite directions.
    pub proof fn lemma_closures_are_inverse(&self, kind: DepKind, a: Seq<char>, b: Seq<char>)
        requires
            self.wf(),
        ensures
            self.dependency_closure(kind, seq![a]).contains(b) <==> self.needs(kind, a, b),
            self.dependent_closure(kind, seq![b]).contains(a) <==> self.needs(kind, a, b),
            self.dependency_closure(kind, seq![a]).contains(b) <==> self.dependent_closure(kind, seq![b]).contains(a),
    {
        let ra = seq![a];
        let rb = seq![b];
        if self.needs(kind, a, b) {
            assert(self.needs(kind, ra[0], b));
            assert(self.needs(kind, a, rb[0]));
        }
    }

    /// What is needed by what a package needs is needed by the package.
    pub proof fn lemma_needs_transitive(&self, kind: DepKind, a: Seq<char>, b: Seq<char>, c: Seq<char>)
        requires
            self.wf(),
            self.needs(kind, a, b),
            self.needs(kind, b, c),
        ensures
            self.needs(kind, a, c),
    {
        self.lemma_names_distinct();
        let (i, j) = choose|i: int, j: int|
            0 <= i < self.size() && 0 <= j < self.size() && self.names()[i] == a && self.names()[j] == b
                && #[trigger] self.requires_transitively(kind, i, j);
        let (j2, k) = choose|j2: int, k: int|
            0 <= j2 < self.size() && 0 <= k < self.size() && self.names()[j2] == b && self.names()[k] == c
                && #[trigger] self.requires_transitively(kind, j2, k);
        assert(j == j2);
        self.lemma_reaches(kind, i, j);
        self.lemma_reaches(kind, j, k);
        lemma_reaches_trans(self.graph(kind).edges(), i, j, k);
        self.lemma_reaches(kind, i, k);
    }

    /// The name at a position is the name of no other position.
    pub proof fn lemma_position(&self, i: int)
        requires
            self.wf(),
            0 <= i < self.size(),
        ensures
            self.position(self.names()[i]) == i,
            self.package(self.names()[i]) == self.packages()[i],
    {
        self.lemma_names_distinct();
    }

    /// The chains of dependencies are the walks of the graph.
    pub proof fn lemma_chain_is_walk(&self, kind: DepKind, p: Seq<int>)
        requires
            self.wf(),
        ensures
            self.is_chain(kind, p) <==> is_walk(self.graph(kind).edges(), p),
    {
        let adj = self.graph(kind).edges();
        assert(self.graph_matches(kind));
        if self.is_chain(kind, p) {
            assert forall|k: int| 0 <= k < p.len() - 1 implies #[trigger] walk_step(adj, p, k) by {
                assert(self.chain_step(kind, p, k));
            }
        }
        if is_walk(adj, p) {
            assert forall|k: int| 0 <= k < p.len() - 1 implies #[trigger] self.chain_step(kind, p, k) by {
                assert(walk_step(adj, p, k));
            }
        }
    }

    /// What a chain of dependencies joins is what the graph's edges join, and
    /// what the edges of its transpose join the other way round.
    pub proof fn lemma_reaches(&self, kind: DepKind, a: int, b: int)
        requires
            self.wf(),
        ensures
            self.requires_transitively(kind, a, b) <==> reaches(self.graph(kind).edges(), a, b),
            self.requires_transitively(kind, a, b) <==> reaches(self.graph(kind).back_edges(), b, a),
    {
        let adj = self.graph(kind).edges();
        assert(self.graph_matches(kind));
        if self.requires_transitively(kind, a, b) {
            let p = choose|p: Seq<int>| #[trigger] self.is_chain(kind, p) && p.first() == a && p.last() == b;
            self.lemma_chain_is_walk(kind, p);
            assert(is_walk(adj, p));
        }
        if reaches(adj, a, b) {
            let p = choose|p: Seq<int>| #[trigger] is_walk(adj, p) && p.first() == a && p.last() == b;
            self.lemma_chain_is_walk(kind, p);
            assert(self.is_chain(kind, p));
        }
        self.graph(kind).lemma_transpose();
        lemma_reaches_transpose(adj, self.graph(kind).back_edges(), a, b);
    }

    /// Along a chain of dependencies the names move towards the front of a
    /// dependency order, or stay where they are.
    proof fn lemma_chain_descends(&self, kind: DepKind, list: Seq<Seq<char>>, p: Seq<int>, k0: int, i: int)
        requires
            self.wf(),
            self.is_dependency_order(kind, list),
            self.is_chain(kind, p),
            0 <= k0 < list.len(),
            list[k0] == self.names()[p[0]],
            0 <= i < p.len(),
        ensures
            0 <= p[i] < self.size(),
            exists|k: int| 0 <= k <= k0 && #[trigger] list[k] == self.names()[p[i]],
        decreases i,
    {
        if i > 0 {
            self.lemma_chain_descends(kind, list, p, k0, i - 1);
            let k = choose|k: int| 0 <= k <= k0 && #[trigger] list[k] == self.names()[p[i - 1]];
            assert(self.chain_step(kind, p, i - 1));
            assert(self.depends_on(kind, p[i - 1], p[i]));
            let (x, y) = choose|x: int, y: int|
                0 <= x < y < list.len() && #[trigger] list[x] == self.names()[p[i]] && #[trigger] list[y]
                    == self.names()[p[i - 1]];
            assert(y == k);
            assert(list[x] == self.names()[p[i]]);
        }
    }

    /// Where the dependencies have a cycle, no list is a dependency order:
    /// what is returned as an order is never a partial or arbitrary one.
    pub proof fn lemma_order_excludes_cycle(&self, kind: DepKind, list: Seq<Seq<char>>)
        requires
            self.wf(),
            self.is_dependency_order(kind, list),
        ensures
            !self.has_dependency_cycle(kind),
    {
        if self.has_dependency_cycle(kind) {
            let (a, b) = choose|a: int, b: int| #[trigger]
                self.depends_on(kind, a, b) && self.requires_transitively(kind, b, a);
            let p = choose|p: Seq<int>| #[trigger] self.is_chain(kind, p) && p.first() == b && p.last() == a;
            let (x, y) = choose|x: int, y: int|
                0 <= x < y < list.len() && #[trigger] list[x] == self.names()[b] && #[trigger] list[y]
                    == self.names()[a];
            self.lemma_chain_descends(kind, list, p, x, p.len() - 1);
            let k = choose|k: int| 0 <= k <= x && #[trigger] list[k] == self.names()[a];
            assert(list[k] == list[y]);
        }
    }

    /// Different positions hold different names.
    pub proof fn lemma_names_distinct(&self)
        requires
            self.wf(),
        ensures
            self.names().no_duplicates(),
    {
        lemma_sorted_distinct(self.names());
    }

    /// The graph of the dependencies of `kind`.
    pub fn graph_of(&self, kind: DepKind) -> (g: &Graph)
        ensures
            *g == self.graph(kind),
            g.wf(),
            g.size() == self.size(),
            self.wf(),
    {
        proof {
            use_type_invariant(self);
            assert(self.graph_matches(kind));
        }
        match kind {
            DepKind::Runtime => &self.runtime,
            DepKind::Build => &self.build,
            DepKind::Dev => &self.dev,
            DepKind::Any => &self.any,
        }
    }

    /// A chain of dependencies leads from one of `seeds` to the `v`-th package.
    pub open spec fn reached_by(&self, kind: DepKind, seeds: Seq<usize>, v: int) -> bool {
        exists|t: int| 0 <= t < seeds.len() && #[trigger] self.requires_transitively(kind, seeds[t] as int, v)
    }

    /// A chain of dependencies leads from the `v`-th package to one of `seeds`.
    pub open spec fn leads_into(&self, kind: DepKind, seeds: Seq<usize>, v: int) -> bool {
        exists|t: int| 0 <= t < seeds.len() && #[trigger] self.requires_transitively(kind, v, seeds[t] as int)
    }

    /// The positions of the packages that the packages at `seeds` need, each
    /// once, in the order of a breadth-first search along the dependency
    /// tables, seed by seed.
    pub fn closure_of(&self, kind: DepKind, seeds: &Vec<usize>) -> (order: Vec<usize>)
        ensures
            order@ == breadth_first(self.forward(kind), seeds@, seeds.len() as int),
            order@.no_duplicates(),
            forall|k: int| 0 <= k < order.len() ==> (#[trigger] order[k]) < self.size(),
            forall|v: usize| #[trigger] order@.contains(v) <==> self.reached_by(kind, seeds@, v as int),
    {
        let g = self.graph_of(kind);
        let order = g.reachable(seeds);
        proof {
            assert forall|v: usize| #[trigger] order@.contains(v) <==> self.reached_by(kind, seeds@, v as int) by {
                if reached_from(g.edges(), seeds@, v as int) {
                    let t = choose|t: int| 0 <= t < seeds.len() && #[trigger] reaches(g.edges(), seeds[t] as int, v as int);
                    self.lemma_reaches(kind, seeds[t] as int, v as int);
                }
                if self.reached_by(kind, seeds@, v as int) {
                    let t = choose|t: int|
                        0 <= t < seeds.len() && #[trigger] self.requires_transitively(kind, seeds[t] as int, v as int);
                    self.lemma_reaches(kind, seeds[t] as int, v as int);
                    assert(reaches(g.edges(), seeds[t] as int, v as int));
                }
            }
        }
        order
    }

    /// The positions of the packages that need a package at `seeds`, each
    /// once, in the order of a breadth-first search from package to
    /// dependents, seed by seed.
    pub fn dependents_closure_of(&self, kind: DepKind, seeds: &Vec<usize>) -> (order: Vec<usize>)
        ensures
            order@ == breadth_first(self.backward(kind), seeds@, seeds.len() as int),
            order@.no_duplicates(),
            forall|k: int| 0 <= k < order.len() ==> (#[trigger] order[k]) < self.size(),
            forall|v: usize| #[trigger] order@.contains(v) <==> self.leads_into(kind, seeds@, v as int),
    {
        let g = self.graph_of(kind);
        let order = g.reaching(seeds);
        proof {
            assert forall|v: usize| #[trigger] order@.contains(v) <==> self.leads_into(kind, seeds@, v as int) by {
                if reached_from(g.back_edges(), seeds@, v as int) {
                    let t = choose|t: int|
                        0 <= t < seeds.len() && #[trigger] reaches(g.back_edges(), seeds[t] as int, v as int);
                    self.lemma_reaches(kind, v as int, seeds[t] as int);
                }
                if self.leads_into(kind, seeds@, v as int) {
                    let t = choose|t: int|
                        0 <= t < seeds.len() && #[trigger] self.requires_transitively(kind, v as int, seeds[t] as int);
                    self.lemma_reaches(kind, v as int, seeds[t] as int);
                    assert(reaches(g.back_edges(), seeds[t] as int, v as int));
                }
            }
        }
        order
    }

    /// The positions of the packages that `names` names; a name that no
    /// package has is passed over.
    pub fn positions(&self, names: &Vec<String>) -> (idx: Vec<usize>)
        ensures
            idx@ == self.resolved(names.deep_view()),
            forall|k: int| 0 <= k < idx.len() ==> (#[trigger] idx[k]) < self.size(),
            forall|v: usize| #[trigger]
                idx@.contains(v) <==> v < self.size() && names.deep_view().contains(self.names()[v as int]),
    {
        proof {
            use_type_invariant(self);
            self.lemma_names_distinct();
        }
        let mut idx: Vec<usize> = Vec::new();
        let mut i: usize = 0;
        assert(names.deep_view().take(0) =~= Seq::<Seq<char>>::empty());
        assert(idx@ =~= self.resolved(names.deep_view().take(0)));
        while i < names.len()
            invariant
                i <= names.len(),
                self.wf(),
                self.names().no_duplicates(),
                forall|k: int| 0 <= k < idx.len() ==> (#[trigger] idx[k]) < self.size(),
                forall|v: usize| #[trigger]
                    idx@.contains(v) <==> v < self.size() && names.deep_view().take(i as int).contains(
                        self.names()[v as int],
                    ),
                idx@ == self.resolved(names.deep_view().take(i as int)),
            decreases names.len() - i,
        {
            let ghost done = names.deep_view().take(i as int);
            let ghost next = names.deep_view().take(i + 1);
            let ghost d = names[i as int]@;
            let ghost before = idx@;
            assert(next =~= done.push(d));
            proof {
                names.deep_view().lemma_filter_map_take_succ(resolver(self.packages()), i as int);
                assert(names.deep_view()[i as int] == d);
            }
            match self.find(names[i].as_str()) {
                Some(b) => {
                    proof {
                        self.lemma_position(b as int);
                        assert(resolver(self.packages())(d) == Some(b));
                    }
                    idx.push(b);
                    assert(idx@ =~= before + seq![b]);
                    proof {
                        assert forall|v: usize| #[trigger]
                            idx@.contains(v) <==> v < self.size() && next.contains(self.names()[v as int]) by {
                            lemma_push_contains(before, b, v);
                            if v < self.size() {
                                lemma_push_contains(done, d, self.names()[v as int]);
                            }
                        }
                    }
                },
                None => {
                    assert(idx@ =~= before + Seq::<usize>::empty());
                    proof {
                        assert forall|v: usize| #[trigger]
                            idx@.contains(v) <==> v < self.size() && next.contains(self.names()[v as int]) by {
                            if v < self.size() {
                                lemma_push_contains(done, d, self.names()[v as int]);
                            }
                        }
                    }
                },
            }
            i += 1;
        }
        assert(names.deep_view().take(names.len() as int) =~= names.deep_view());
        idx
    }

    /// The positions of the packages that `names` names, in the order of
    /// `names`; a name of no package is left out.
    pub open spec fn resolved(&self, names: Seq<Seq<char>>) -> Seq<usize> {
        names.filter_map(resolver(self.packages()))
    }

    /// The names of the packages that the packages named in `roots` need
    /// through their tables `kind`, each once, in the order of a breadth-first
    /// search along the tables, root by root.
    pub open spec fn closure_order(&self, kind: DepKind, roots: Seq<Seq<char>>) -> Seq<Seq<char>> {
        self.names_from(breadth_first(self.forward(kind), self.resolved(roots), self.resolved(roots).len() as int))
    }

    /// The names of the packages that need a package named in `roots`
    /// through their tables `kind`, each once, in the order of a breadth-first
    /// search from package to dependents, root by root.
    pub open spec fn dependents_order(&self, kind: DepKind, roots: Seq<Seq<char>>) -> Seq<Seq<char>> {
        self.names_from(
            breadth_first(self.backward(kind), self.resolved(roots), self.resolved(roots).len() as int),
        )
    }

    /// The names at positions that differ are different, so a list of
    /// positions without repetition gives a list of names without repetition.
    proof fn lemma_names_injective(&self, idx: Seq<usize>, list: Seq<Seq<char>>)
        requires
            self.wf(),
            idx.no_duplicates(),
            list.len() == idx.len(),
            forall|k: int| 0 <= k < idx.len() ==> (#[trigger] idx[k]) < self.size(),
            forall|k: int| 0 <= k < idx.len() ==> (#[trigger] list[k]) == self.names()[idx[k] as int],
        ensures
            list.no_duplicates(),
    {
        self.lemma_names_distinct();
        assert forall|i: int, j: int| 0 <= i < list.len() && 0 <= j < list.len() && i != j implies list[i]
            != list[j] by {
            assert(idx[i] != idx[j]);
            assert(list[i] == self.names()[idx[i] as int]);
            assert(list[j] == self.names()[idx[j] as int]);
        }
    }

    /// Those of `roots` that no package has, each once, in the order in
    /// which they first occur.
    pub open spec fn strangers(&self, roots: Seq<Seq<char>>) -> Seq<Seq<char>> {
        without_repeats(roots.filter(|r: Seq<char>| !self.knows(r)))
    }

    /// What the closure of the dependencies of `roots` lists: first the
    /// packages, in the order of a breadth-first search along the tables
    /// `kind`, root by root; then the roots that no package has.
    pub open spec fn seeded_order(&self, kind: DepKind, roots: Seq<Seq<char>>) -> Seq<Seq<char>> {
        self.closure_order(kind, roots) + self.strangers(roots)
    }

    /// What the closure of the dependents of `roots` lists: first the
    /// packages, in the order of a breadth-first search from package to
    /// dependents, root by root; then the roots that no package has.
    pub open spec fn seeded_dependents_order(&self, kind: DepKind, roots: Seq<Seq<char>>) -> Seq<Seq<char>> {
        self.dependents_order(kind, roots) + self.strangers(roots)
    }

    /// Those of `roots` that no package has, each once.
    fn strangers_among(&self, roots: &Vec<String>) -> (r: Vec<String>)
        ensures
            r.deep_view() == self.strangers(roots.deep_view()),
            r.deep_view().no_duplicates(),
            forall|x: Seq<char>| #[trigger]
                r.deep_view().contains(x) <==> roots.deep_view().contains(x) && !self.knows(x),
    {
        let ghost all = roots.deep_view();
        let ghost strange = |r: Seq<char>| !self.knows(r);
        let mut unknown: Vec<String> = Vec::new();
        let mut i: usize = 0;
        proof {
            reveal(Seq::filter);
            assert(all.take(0) =~= Seq::<Seq<char>>::empty());
            assert(unknown.deep_view() =~= all.take(0).filter(strange));
        }
        while i < roots.len()
            invariant
                i <= roots.len(),
                all == roots.deep_view(),
                strange == |r: Seq<char>| !self.knows(r),
                unknown.deep_view() == all.take(i as int).filter(strange),
            decreases roots.len() - i,
        {
            let ghost done = all.take(i as int);
            let ghost before = unknown.deep_view();
            proof {
                assert(all[i as int] == roots[i as int]@);
                assert(all.take(i + 1) =~= done.push(all[i as int]));
                done.lemma_filter_push(all[i as int], strange);
            }
            match self.find(roots[i].as_str()) {
                Some(_) => {
                    assert(self.knows(all[i as int]));
                },
                None => {
                    unknown.push(roots[i].clone());
                    assert(unknown.deep_view() =~= before.push(all[i as int]));
                },
            }
            i += 1;
        }
        assert(all.take(roots.len() as int) =~= all);
        let r = unique_texts(&unknown);
        proof {
            let kept = unknown.deep_view();
            all.filter_lemma(strange);
            assert forall|x: Seq<char>| #[trigger] r.deep_view().contains(x) <==> all.contains(x) && !self.knows(
                x,
            ) by {
                if kept.contains(x) {
                    all.lemma_filter_contains_rev(strange, x);
                    let k = choose|k: int| 0 <= k < kept.len() && kept[k] == x;
                    assert(strange(kept[k]));
                }
                if all.contains(x) && !self.knows(x) {
                    let k = choose|k: int| 0 <= k < all.len() && all[k] == x;
                    assert(strange(all[k]));
                    assert(kept.contains(all[k]));
                }
            }
        }
        r
    }

    /// `found`, the names of packages, followed by the roots that no package has.
    fn with_strangers(&self, found: Vec<String>, roots: &Vec<String>) -> (r: Vec<String>)
        requires
            found.deep_view().no_duplicates(),
            forall|k: int| 0 <= k < found.len() ==> self.knows(#[trigger] found.deep_view()[k]),
        ensures
            r.deep_view() == found.deep_view() + self.strangers(roots.deep_view()),
            r.deep_view().no_duplicates(),
            forall|x: Seq<char>| #[trigger]
                r.deep_view().contains(x) <==> found.deep_view().contains(x) || (roots.deep_view().contains(x)
                    && !self.knows(x)),
    {
        let ghost first = found.deep_view();
        let ghost first_list = found@;
        let mut r = found;
        let mut extra = self.strangers_among(roots);
        let ghost second = extra.deep_view();
        let ghost second_list = extra@;
        r.append(&mut extra);
        proof {
            assert(r@ =~= first_list + second_list);
            lemma_texts_concat(first_list, second_list);
            lemma_deep_view_is_texts(r);
            assert(texts(first_list) =~= first);
            assert(texts(second_list) =~= second);
            let all = r.deep_view();
            assert(all =~= first + second);
            assert forall|i: int, j: int| 0 <= i < all.len() && 0 <= j < all.len() && i != j implies all[i]
                != all[j] by {
                if i < first.len() && j < first.len() {
                } else if i >= first.len() && j >= first.len() {
                    assert(second[i - first.len()] != second[j - first.len()]);
                } else if i < first.len() {
                    assert(self.knows(first[i]));
                    assert(second.contains(second[j - first.len()]));
                } else {
                    assert(self.knows(first[j]));
                    assert(second.contains(second[i - first.len()]));
                }
            }
            assert forall|x: Seq<char>| #[trigger]
                all.contains(x) <==> first.contains(x) || (roots.deep_view().contains(x) && !self.knows(x)) by {
                lemma_concat_contains(first, second, x);
            }
        }
        r
    }

    /// A package named among `roots` is in the closure of `roots`, both ways.
    proof fn lemma_root_in_closures(&self, kind: DepKind, roots: Seq<Seq<char>>, x: Seq<char>)
        requires
            self.wf(),
            roots.contains(x),
            self.knows(x),
        ensures
            self.dependency_closure(kind, roots).contains(x),
            self.dependent_closure(kind, roots).contains(x),
    {
        let r = choose|r: int| 0 <= r < roots.len() && roots[r] == x;
        let i = choose|i: int| 0 <= i < self.names().len() && self.names()[i] == x;
        let p = seq![i];
        assert(self.is_chain(kind, p));
        assert(p.first() == i && p.last() == i);
        assert(self.requires_transitively(kind, i, i));
        assert(self.needs(kind, roots[r], x));
    }

    /// The names of all that the names in `crates` need, through any of the
    /// dependency tables: every name of `crates`, also one that no package
    /// has, and every package that a chain of dependencies leads to from a
    /// package named in `crates`. Each name comes once: first the packages,
    /// breadth first and root by root, then the names that no package has.
    pub fn recursive_dependencies(&self, crates: &Vec<String>) -> (r: Vec<CrateId>)
        ensures
            r.deep_view() == self.seeded_order(DepKind::Any, crates.deep_view()),
            r.deep_view().no_duplicates(),
            forall|b: Seq<char>| #[trigger]
                r.deep_view().contains(b) <==> crates.deep_view().contains(b) || self.dependency_closure(
                    DepKind::Any,
                    crates.deep_view(),
                ).contains(b),
    {
        proof {
            use_type_invariant(self);
        }
        let found = self.dependencies_closure(DepKind::Any, crates);
        proof {
            let roots = crates.deep_view();
            assert forall|k: int| 0 <= k < found.len() implies self.knows(#[trigger] found.deep_view()[k]) by {
                let b = found.deep_view()[k];
                assert(found.deep_view().contains(b));
                let x = choose|x: int| 0 <= x < roots.len() && #[trigger] self.needs(DepKind::Any, roots[x], b);
            }
        }
        let ghost packages = found.deep_view();
        let r = self.with_strangers(found, crates);
        proof {
            let roots = crates.deep_view();
            assert forall|b: Seq<char>| #[trigger]
                r.deep_view().contains(b) <==> roots.contains(b) || self.dependency_closure(
                    DepKind::Any,
                    roots,
                ).contains(b) by {
                if roots.contains(b) && self.knows(b) {
                    self.lemma_root_in_closures(DepKind::Any, roots, b);
                }
            }
        }
        r
    }

    /// The names of all that need a name in `crates`, through any of the
    /// dependency tables: every name of `crates`, also one that no package
    /// has, and every package from which a chain of dependencies leads to a
    /// package named in `crates`. Each name comes once: first the packages,
    /// breadth first and root by root, then the names that no package has.
    pub fn recursive_dependents(&self, crates: &Vec<String>) -> (r: Vec<CrateId>)
        ensures
            r.deep_view() == self.seeded_dependents_order(DepKind::Any, crates.deep_view()),
            r.deep_view().no_duplicates(),
            forall|a: Seq<char>| #[trigger]
                r.deep_view().contains(a) <==> crates.deep_view().contains(a) || self.dependent_closure(
                    DepKind::Any,
                    crates.deep_view(),
                ).contains(a),
    {
        proof {
            use_type_invariant(self);
        }
        let found = self.dependents_closure(DepKind::Any, crates);
        proof {
            let roots = crates.deep_view();
            assert forall|k: int| 0 <= k < found.len() implies self.knows(#[trigger] found.deep_view()[k]) by {
                let a = found.deep_view()[k];
                assert(found.deep_view().contains(a));
                let x = choose|x: int| 0 <= x < roots.len() && #[trigger] self.needs(DepKind::Any, a, roots[x]);
            }
        }
        let r = self.with_strangers(found, crates);
        proof {
            let roots = crates.deep_view();
            assert forall|a: Seq<char>| #[trigger]
                r.deep_view().contains(a) <==> roots.contains(a) || self.dependent_closure(
                    DepKind::Any,
                    roots,
                ).contains(a) by {
                if roots.contains(a) && self.knows(a) {
                    self.lemma_root_in_closures(DepKind::Any, roots, a);
                }
            }
        }
        r
    }

    /// The names of the packages that the packages named in `roots` need
    /// through their tables `kind`, each once: root by root, breadth first.
    /// Only packages are listed: a root that no package has is passed over.
    pub fn dependencies_closure(&self, kind: DepKind, roots: &Vec<String>) -> (r: Vec<CrateId>)
        ensures
            r.deep_view() == self.closure_order(kind, roots.deep_view()),
            r.deep_view().no_duplicates(),
            forall|b: Seq<char>| #[trigger]
                r.deep_view().contains(b) <==> self.dependency_closure(kind, roots.deep_view()).contains(b),
    {
        proof {
            use_type_invariant(self);
        }
        let n = self.len();
        let seeds = self.positions(roots);
        let order = self.closure_of(kind, &seeds);
        let r = self.names_at(&order);
        proof {
            self.lemma_names_injective(order@, r.deep_view());
            assert forall|b: Seq<char>| #[trigger]
                r.deep_view().contains(b) <==> self.dependency_closure(kind, roots.deep_view()).contains(b) by {
                if r.deep_view().contains(b) {
                    let k = choose|k: int| 0 <= k < r.deep_view().len() && r.deep_view()[k] == b;
                    let v = order[k];
                    assert(order@.contains(v));
                    assert(self.reached_by(kind, seeds@, v as int));
                    let t = choose|t: int|
                        0 <= t < seeds.len() && #[trigger] self.requires_transitively(kind, seeds[t] as int, v as int);
                    assert(seeds@.contains(seeds[t]));
                    let root = self.names()[seeds[t] as int];
                    let x = choose|x: int| 0 <= x < roots.deep_view().len() && roots.deep_view()[x] == root;
                    assert(self.needs(kind, roots.deep_view()[x], b));
                }
                if self.dependency_closure(kind, roots.deep_view()).contains(b) {
                    let x = choose|x: int| 0 <= x < roots.deep_view().len() && #[trigger] self.needs(kind, roots.deep_view()[x], b);
                    let (i, j) = choose|i: int, j: int|
                        0 <= i < self.size() && 0 <= j < self.size() && self.names()[i] == roots.deep_view()[x]
                            && self.names()[j] == b && #[trigger] self.requires_transitively(kind, i, j);
                    assert(roots.deep_view().contains(self.names()[i]));
                    assert(seeds@.contains(i as usize));
                    let t = choose|t: int| 0 <= t < seeds.len() && seeds[t] == i as usize;
                    assert(self.requires_transitively(kind, seeds[t] as int, j));
                    assert(self.reached_by(kind, seeds@, j));
                    assert(order@.contains(j as usize));
                    let k = choose|k: int| 0 <= k < order.len() && order[k] == j as usize;
                    assert(r.deep_view()[k] == b);
                }
            }
        }
        r
    }

    /// The names of the packages that need a package named in `roots`
    /// through their tables `kind`, each once.
    pub fn dependents_closure(&self, kind: DepKind, roots: &Vec<String>) -> (r: Vec<CrateId>)
        ensures
            r.deep_view() == self.dependents_order(kind, roots.deep_view()),
            r.deep_view().no_duplicates(),
            forall|a: Seq<char>| #[trigger]
                r.deep_view().contains(a) <==> self.dependent_closure(kind, roots.deep_view()).contains(a),
    {
        proof {
            use_type_invariant(self);
        }
        let n = self.len();
        let seeds = self.positions(roots);
        let order = self.dependents_closure_of(kind, &seeds);
        let r = self.names_at(&order);
        proof {
            self.lemma_names_injective(order@, r.deep_view());
            assert forall|a: Seq<char>| #[trigger]
                r.deep_view().contains(a) <==> self.dependent_closure(kind, roots.deep_view()).contains(a) by {
                if r.deep_view().contains(a) {
                    let k = choose|k: int| 0 <= k < r.deep_view().len() && r.deep_view()[k] == a;
                    let v = order[k];
                    assert(order@.contains(v));
                    assert(self.leads_into(kind, seeds@, v as int));
                    let t = choose|t: int|
                        0 <= t < seeds.len() && #[trigger] self.requires_transitively(kind, v as int, seeds[t] as int);
                    assert(seeds@.contains(seeds[t]));
                    let root = self.names()[seeds[t] as int];
                    let x = choose|x: int| 0 <= x < roots.deep_view().len() && roots.deep_view()[x] == root;
                    assert(self.needs(kind, a, roots.deep_view()[x]));
                }
                if self.dependent_closure(kind, roots.deep_view()).contains(a) {
                    let x = choose|x: int| 0 <= x < roots.deep_view().len() && #[trigger] self.needs(kind, a, roots.deep_view()[x]);
                    let (i, j) = choose|i: int, j: int|
                        0 <= i < self.size() && 0 <= j < self.size() && self.names()[i] == a && self.names()[j]
                            == roots.deep_view()[x] && #[trigger] self.requires_transitively(kind, i, j);
                    assert(roots.deep_view().contains(self.names()[j]));
                    assert(seeds@.contains(j as usize));
                    let t = choose|t: int| 0 <= t < seeds.len() && seeds[t] == j as usize;
                    assert(self.requires_transitively(kind, i, seeds[t] as int));
                    assert(self.leads_into(kind, seeds@, i));
                    assert(order@.contains(i as usize));
                    let k = choose|k: int| 0 <= k < order.len() && order[k] == i as usize;
                    assert(r.deep_view()[k] == a);
                }
            }
        }
        r
    }

    /// The names of the packages that the package `name` needs through its
    /// table `kind` and theirs: `name` itself and all that a chain of
    /// dependencies leads to. Empty where no package has the name.
    pub fn ancestors(&self, kind: DepKind, name: &str) -> (r: Vec<CrateId>)
        ensures
            r.deep_view() == self.closure_order(kind, seq![name@]),
            r.deep_view().no_duplicates(),
            forall|b: Seq<char>| #[trigger] r.deep_view().contains(b) <==> self.needs(kind, name@, b),
    {
        let mut roots: Vec<String> = Vec::new();
        roots.push(name.to_owned());
        let r = self.dependencies_closure(kind, &roots);
        proof {
            assert(roots.deep_view() =~= seq![name@]);
            assert forall|b: Seq<char>| #[trigger] r.deep_view().contains(b) <==> self.needs(kind, name@, b) by {
                if self.needs(kind, name@, b) {
                    assert(self.needs(kind, roots.deep_view()[0], b));
                }
                assert(r.deep_view().contains(b) <==> self.dependency_closure(kind, roots.deep_view()).contains(b));
            }
        }
        r
    }

    /// The names of the packages that need the package `name`: `name` itself
    /// and all from which a chain of dependencies of `kind` leads to it.
    /// Empty where no package has the name.
    pub fn descendants(&self, kind: DepKind, name: &str) -> (r: Vec<CrateId>)
        ensures
            r.deep_view() == self.dependents_order(kind, seq![name@]),
            r.deep_view().no_duplicates(),
            forall|a: Seq<char>| #[trigger] r.deep_view().contains(a) <==> self.needs(kind, a, name@),
    {
        let mut roots: Vec<String> = Vec::new();
        roots.push(name.to_owned());
        let r = self.dependents_closure(kind, &roots);
        proof {
            assert(roots.deep_view() =~= seq![name@]);
            assert forall|a: Seq<char>| #[trigger] r.deep_view().contains(a) <==> self.needs(kind, a, name@) by {
                if self.needs(kind, a, name@) {
                    assert(self.needs(kind, a, roots.deep_view()[0]));
                }
                assert(r.deep_view().contains(a) <==> self.dependent_closure(kind, roots.deep_view()).contains(a));
            }
        }
        r
    }

    /// The names of the packages that name `name` in one of their tables, in
    /// the order of the catalog.
    pub fn dependents(&self, name: &str) -> (r: Vec<CrateId>)
        ensures
            r.deep_view() == self.packages().filter(
                |c: Crate| c.dep_names(DepKind::Any).contains(name@),
            ).map_values(|c: Crate| c.name@),
            r.deep_view().no_duplicates(),
            forall|a: Seq<char>| #[trigger]
                r.deep_view().contains(a) <==> exists|i: int|
                    0 <= i < self.size() && self.names()[i] == a && #[trigger] self.packages()[i].dep_names(
                        DepKind::Any,
                    ).contains(name@),
    {
        proof {
            use_type_invariant(self);
            self.lemma_names_distinct();
        }
        let ghost keep = |c: Crate| c.dep_names(DepKind::Any).contains(name@);
        let ghost label = |c: Crate| c.name@;
        let ghost all = self.packages();
        let mut idx: Vec<usize> = Vec::new();
        let mut i: usize = 0;
        proof {
            reveal(Seq::filter);
            assert(all.take(0) =~= Seq::<Crate>::empty());
            assert(self.names_from(idx@) =~= all.take(0).filter(keep).map_values(
                label,
            ));
        }
        while i < self.crates.len()
            invariant
                i <= self.crates.len(),
                all == self.packages(),
                keep == |c: Crate| c.dep_names(DepKind::Any).contains(name@),
                label == |c: Crate| c.name@,
                forall|k: int| 0 <= k < idx.len() ==> (#[trigger] idx[k]) < i,
                forall|k: int, l: int| 0 <= k < l < idx.len() ==> idx[k] < idx[l],
                forall|k: int|
                    0 <= k < idx.len() ==> self.packages()[(#[trigger] idx[k]) as int].dep_names(
                        DepKind::Any,
                    ).contains(name@),
                forall|v: int|
                    0 <= v < i && (#[trigger] self.packages()[v]).dep_names(DepKind::Any).contains(name@)
                        ==> idx@.contains(v as usize),
                self.names_from(idx@) == all.take(i as int).filter(
                    keep,
                ).map_values(label),
            decreases self.crates.len() - i,
        {
            let ghost done = all.take(i as int);
            let ghost shown = self.names_from(idx@);
            proof {
                assert(all.take(i + 1) =~= done.push(all[i as int]));
                done.lemma_filter_push(all[i as int], keep);
            }
            if self.crates[i].depends_on(DepKind::Any, name) {
                let ghost before = idx@;
                idx.push(i);
                assert forall|v: int|
                    0 <= v < i + 1 && (#[trigger] self.packages()[v]).dep_names(DepKind::Any).contains(name@)
                        implies idx@.contains(v as usize) by {
                    lemma_push_contains(before, i, v as usize);
                }
                proof {
                    assert(self.names_from(idx@) =~= shown.push(all[i as int].name@));
                    assert(done.filter(keep).push(all[i as int]).map_values(label) =~= done.filter(keep).map_values(
                        label,
                    ).push(all[i as int].name@));
                }
            }
            i += 1;
        }
        let r = self.names_at(&idx);
        proof {
            assert(all.take(self.crates.len() as int) =~= all);
            assert(r.deep_view() =~= self.names_from(idx@));
            self.lemma_names_injective(idx@, r.deep_view());
            assert forall|a: Seq<char>| #[trigger]
                r.deep_view().contains(a) <==> exists|i: int|
                    0 <= i < self.size() && self.names()[i] == a && #[trigger] self.packages()[i].dep_names(
                        DepKind::Any,
                    ).contains(name@) by {
                if r.deep_view().contains(a) {
                    let k = choose|k: int| 0 <= k < r.deep_view().len() && r.deep_view()[k] == a;
                    let v = idx[k] as int;
                    assert(self.names()[v] == a && self.packages()[v].dep_names(DepKind::Any).contains(name@));
                }
                if exists|i: int|
                    0 <= i < self.size() && self.names()[i] == a && #[trigger] self.packages()[i].dep_names(
                        DepKind::Any,
                    ).contains(name@) {
                    let v = choose|i: int|
                        0 <= i < self.size() && self.names()[i] == a && #[trigger] self.packages()[i].dep_names(
                            DepKind::Any,
                        ).contains(name@);
                    assert(idx@.contains(v as usize));
                    let k = choose|k: int| 0 <= k < idx.len() && idx[k] == v as usize;
                    assert(r.deep_view()[k] == a);
                }
            }
        }
        r
    }

    /// The names of all packages, each after the packages that it depends
    /// on through its table `kind`; fails where the dependencies have a cycle.
    /// Packages are taken up in dictionary order, and the dependencies of
    /// each in the order of its table, depth first.
    pub fn topological_order(&self, kind: DepKind) -> (r: Result<Vec<CrateId>, CycleError>)
        ensures
            r is Err <==> self.has_dependency_cycle(kind),
            r matches Ok(list) ==> self.is_dependency_order(kind, list.deep_view()),
    {
        proof {
            use_type_invariant(self);
        }
        let n = self.len();
        let g = self.graph_of(kind);
        proof {
            assert(self.graph_matches(kind));
            if has_cycle(g.edges()) {
                let (a, b) = choose|a: int, b: int| #[trigger] has_edge(g.edges(), a, b) && reaches(g.edges(), b, a);
                self.lemma_reaches(kind, b, a);
                assert(self.depends_on(kind, a, b));
            }
            if self.has_dependency_cycle(kind) {
                let (a, b) = choose|a: int, b: int| #[trigger]
                    self.depends_on(kind, a, b) && self.requires_transitively(kind, b, a);
                self.lemma_reaches(kind, b, a);
                assert(has_edge(g.edges(), a, b));
            }
        }
        match g.topological_order() {
            None => Err(CycleError),
            Some(order) => {
                let list = self.names_at(&order);
                proof {
                    let names = list.deep_view();
                    self.lemma_names_injective(order@, names);
                    assert forall|name: Seq<char>| #[trigger] names.contains(name) <==> self.knows(name) by {
                        if names.contains(name) {
                            let k = choose|k: int| 0 <= k < names.len() && names[k] == name;
                            assert(self.names()[order[k] as int] == name);
                        }
                        if self.knows(name) {
                            let v = choose|v: int| 0 <= v < self.names().len() && self.names()[v] == name;
                            assert(order@.contains(v as usize));
                            let k = choose|k: int| 0 <= k < order.len() && order[k] == v as usize;
                            assert(names[k] == name);
                        }
                    }
                    assert forall|a: int, b: int| #[trigger] self.depends_on(kind, a, b) implies Self::comes_before(
                        names,
                        self.names()[b],
                        self.names()[a],
                    ) by {
                        assert(has_edge(g.edges(), a, b));
                        assert(order@.contains(a as usize));
                        let k = choose|k: int| 0 <= k < order.len() && order[k] == a as usize;
                        assert(has_edge(g.edges(), order[k] as int, b));
                        let j = choose|j: int| 0 <= j < k && #[trigger] order[j] == b;
                        assert(names[j] == self.names()[b]);
                        assert(names[k] == self.names()[a]);
                    }
                }
                Ok(list)
            },
        }
    }

    /// The names of all packages, each after the packages that one of its
    /// three tables names; fails where these dependencies have a cycle.
    pub fn topological_sort(&self) -> (r: Result<Vec<CrateId>, CycleError>)
        ensures
            r is Err <==> self.has_dependency_cycle(DepKind::Any),
            r matches Ok(list) ==> self.is_dependency_order(DepKind::Any, list.deep_view()),
    {
        self.topological_order(DepKind::Any)
    }

    /// The catalog without packages.
    pub fn empty() -> (ctx: Context)
        ensures
            ctx.wf(),
            ctx.size() == 0,
    {
        let none: Vec<Vec<usize>> = Vec::new();
        let crates: Vec<Crate> = Vec::new();
        proof {
            assert forall|kind: DepKind| #[trigger] forward_in(crates@, kind) =~= adjacency(none@) by {}
            assert forall|a: int, b: int| !has_edge(adjacency(none@), a, b) by {}
        }
        let ctx = Context {
            root: String::new(),
            crates,
            runtime: Graph::from_lists(&none),
            build: Graph::from_lists(&none),
            dev: Graph::from_lists(&none),
            any: Graph::from_lists(&none),
        };
        ctx
    }

    /// `after` is `before` with the version of the package `name`, if there
    /// is one, replaced by `version`.
    pub open spec fn is_version_update(
        before: Seq<Crate>,
        after: Seq<Crate>,
        name: Seq<char>,
        version: Seq<char>,
    ) -> bool {
        &&& after.len() == before.len()
        &&& forall|i: int|
            0 <= i < before.len() ==> {
                &&& (#[trigger] after[i]).name == before[i].name
                &&& after[i].path == before[i].path
                &&& after[i].dependencies == before[i].dependencies
                &&& after[i].build_dependencies == before[i].build_dependencies
                &&& after[i].dev_dependencies == before[i].dev_dependencies
                &&& after[i].configs == before[i].configs
                &&& after[i].publish == before[i].publish
                &&& after[i].version@ == if before[i].name@ == name {
                    version
                } else {
                    before[i].version@
                }
            }
    }

    fn with_version(self, name: &str, version: &str) -> (r: (Context, bool))
        ensures
            r.0.wf(),
            r.1 == self.knows(name@),
            r.0.root_text() == self.root_text(),
            Self::is_version_update(self.packages(), r.0.packages(), name@, version@),
    {
        proof {
            use_type_invariant(&self);
            self.lemma_names_distinct();
        }
        let ghost before = self.crates@;
        let ghost old_self = self;
        let at = position_of(&self.crates, name);
        let Context { root, mut crates, runtime, build, dev, any } = self;
        assert(crates@ == before);
        let found = match at {
            None => {
                assert forall|k: int| 0 <= k < before.len() implies (#[trigger] before[k]).name@ != name@ by {
                    assert(names_of(before)[k] == before[k].name@);
                }
                false
            },
            Some(i) => {
                assert(names_of(before)[i as int] == name@);
                assert forall|k: int| 0 <= k < before.len() && (#[trigger] before[k]).name@ == name@ implies k
                    == i by {
                    assert(names_of(before)[k] == names_of(before)[i as int]);
                }
                let mut c = crates.remove(i);
                c.version = version.to_owned();
                crates.insert(i, c);
                assert(crates@ =~= before.update(i as int, c));
                true
            },
        };
        proof {
            let after = crates@;
            assert(Self::is_version_update(before, after, name@, version@));
            assert(names_of(after) =~= names_of(before));
            assert forall|a: int, t: int| !conflict_at(after, a, t) by {
                if conflict_at(after, a, t) {
                    let b = choose|b: int|
                        0 <= b < after.len() && (#[trigger] after[b]).name@ == after[a].dependencies@[t]@
                            && !after[b].publish && forall|j: int|
                            0 <= j < b ==> (#[trigger] after[j]).name@ != after[a].dependencies@[t]@;
                    assert(before[b].name@ == before[a].dependencies@[t]@);
                    assert forall|j: int| 0 <= j < b implies (#[trigger] before[j]).name@
                        != before[a].dependencies@[t]@ by {
                        assert(after[j].name@ != after[a].dependencies@[t]@);
                    }
                    assert(conflict_at(before, a, t));
                }
            }
            assert forall|kind: DepKind, a: int, b: int| 0 <= a < before.len() && 0 <= b < before.len() implies (
            #[trigger] after[a].dep_names(kind).contains(after[b].name@) <==> before[a].dep_names(kind).contains(
                before[b].name@,
            )) by {
                assert(after[a].dep_names(kind) == before[a].dep_names(kind));
            }
            assert(old_self.graph_matches(DepKind::Runtime));
            assert(old_self.graph_matches(DepKind::Build));
            assert(old_self.graph_matches(DepKind::Dev));
            assert(old_self.graph_matches(DepKind::Any));
            assert forall|d: Seq<char>| #[trigger] resolver(after)(d) == resolver(before)(d) by {}
            assert(resolver(after) =~= resolver(before));
            assert forall|kind: DepKind| #[trigger] forward_in(after, kind) == forward_in(before, kind) by {
                assert forall|a: int| 0 <= a < before.len() implies resolved_in(after, kind, a) == resolved_in(
                    before,
                    kind,
                    a,
                ) by {
                    assert(after[a].dep_names(kind) == before[a].dep_names(kind));
                }
                assert(forward_in(after, kind) =~= forward_in(before, kind));
            }
        }
        let ctx = Context { root, crates, runtime, build, dev, any };
        proof {
            assert forall|kind: DepKind, a: int, b: int| #[trigger]
                ctx.depends_on(kind, a, b) <==> old_self.depends_on(kind, a, b) by {
                if 0 <= a < before.len() && 0 <= b < before.len() {
                    assert(ctx.packages()[a].dep_names(kind).contains(ctx.packages()[b].name@)
                        <==> before[a].dep_names(kind).contains(before[b].name@));
                }
            }
            assert(ctx.graph_matches(DepKind::Runtime));
            assert(ctx.graph_matches(DepKind::Build));
            assert(ctx.graph_matches(DepKind::Dev));
            assert(ctx.graph_matches(DepKind::Any));
        }
        (ctx, found)
    }

    /// Gives the package `name` the version `version`. Returns whether a
    /// package has that name; nothing else changes.
    pub fn set_version(&mut self, name: &str, version: &str) -> (found: bool)
        ensures
            final(self).wf(),
            found == old(self).knows(name@),
            final(self).root_text() == old(self).root_text(),
            Self::is_version_update(old(self).packages(), final(self).packages(), name@, version@),
    {
        let mut taken = Context::empty();
        core::mem::swap(self, &mut taken);
        let (updated, found) = taken.with_version(name, version);
        *self = updated;
        found
    }

    /// The names at the positions `idx`, in the order of `idx`.
    pub open spec fn names_from(&self, idx: Seq<usize>) -> Seq<Seq<char>> {
        idx.map_values(|v: usize| self.names()[v as int])
    }

    /// The names of the packages at `idx`, in the order of `idx`.
    pub(crate) fn names_at(&self, idx: &Vec<usize>) -> (r: Vec<String>)
        requires
            forall|k: int| 0 <= k < idx.len() ==> (#[trigger] idx[k]) < self.size(),
        ensures
            r.len() == idx.len(),
            forall|k: int| 0 <= k < idx.len() ==> (#[trigger] r.deep_view()[k]) == self.names()[idx[k] as int],
            r.deep_view() == self.names_from(idx@),
    {
        let mut r: Vec<String> = Vec::new();
        let mut i: usize = 0;
        while i < idx.len()
            invariant
                i <= idx.len(),
                r.len() == i,
                forall|k: int| 0 <= k < idx.len() ==> (#[trigger] idx[k]) < self.size(),
                forall|k: int| 0 <= k < i ==> (#[trigger] r.deep_view()[k]) == self.names()[idx[k] as int],
            decreases idx.len() - i,
        {
            let ghost before = r.deep_view();
            let v = idx[i];
            assert(idx[i as int] < self.size());
            r.push(self.crates[v].name.clone());
            assert forall|k: int| 0 <= k < i + 1 implies (#[trigger] r.deep_view()[k]) == self.names()[idx[k] as int] by {
                if k < i {
                    assert(r.deep_view()[k] == before[k]);
                }
            }
            i += 1;
        }
        assert(r.deep_view() =~= self.names_from(idx@));
        r
    }
}

} // verus!
