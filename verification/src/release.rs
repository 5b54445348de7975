//! Planning a release: which packages get a new version, by which step, and
//! how a minor step forces the packages that depend on it to take one too.

use crate::graph::{has_edge, is_walk, reached_from, reaches, walk_step, Graph};
use crate::seqs::lemma_push_contains;
use crate::types::{resolver, Context, DepKind};
use crate::version::{BumpKind, Version};
use vstd::prelude::*;
use vstd::string::*;

verus! {

/// What the comparison of a package with its published baseline found.
#[derive(Debug, Clone, Copy, PartialEq, Eq, Structural)]
pub enum Classification {
    NoChange,
    PatchCompatible,
    MinorCompatible,
    MajorBreaking,
}

impl Classification {
    /// The step that a package of this classification takes by itself: a
    /// minor step for a change that is not patch-compatible, a patch step
    /// otherwise, also where nothing changed.
    pub open spec fn bump_kind(self) -> BumpKind {
        match self {
            Classification::NoChange => BumpKind::Patch,
            Classification::PatchCompatible => BumpKind::Patch,
            Classification::MinorCompatible => BumpKind::Minor,
            Classification::MajorBreaking => BumpKind::Minor,
        }
    }

    /// The step that a package of this classification takes by itself.
    pub fn to_bump_kind(self) -> (kind: BumpKind)
        ensures
            kind == self.bump_kind(),
    {
        match self {
            Classification::NoChange => BumpKind::Patch,
            Classification::PatchCompatible => BumpKind::Patch,
            Classification::MinorCompatible => BumpKind::Minor,
            Classification::MajorBreaking => BumpKind::Minor,
        }
    }
}

/// Why no plan was made.
#[derive(Debug)]
pub enum ReleaseError {
    /// A package to release is not in the catalog.
    UnknownCrate(String),
    /// A package to release is not publishable.
    NonPublishable(String),
    /// The version of a package is no semantic version.
    MalformedVersion(String),
    /// The version of a package cannot take the step that it has to take.
    VersionOverflow(String),
    /// The classifications do not line up with the packages they are for.
    Mismatch,
}

/// A package that a release touches, with its version before the release.
#[derive(Debug)]
pub struct Candidate {
    pub name: String,
    pub version: Version,
}

/// The names of `list`, in order.
pub open spec fn candidate_names(list: Seq<Candidate>) -> Seq<Seq<char>> {
    Seq::new(list.len(), |i: int| list[i].name@)
}

/// The `i`-th of `seeds` cannot be released: it is not in the catalog, or it
/// is not publishable.
pub open spec fn seed_fault(ctx: &Context, seeds: Seq<Seq<char>>, i: int) -> bool {
    !ctx.knows(seeds[i]) || !ctx.package(seeds[i]).publish
}

/// The release of `seeds` touches the package `name`: it is publishable, and
/// a chain of runtime dependencies leads to it from one of `seeds`.
pub open spec fn is_release_candidate(ctx: &Context, seeds: Seq<Seq<char>>, name: Seq<char>) -> bool {
    &&& ctx.dependency_closure(DepKind::Runtime, seeds).contains(name)
    &&& ctx.package(name).publish
}

/// The `i`-th of `seeds` is the first that cannot be released.
pub open spec fn first_seed_fault(ctx: &Context, seeds: Seq<Seq<char>>, i: int) -> bool {
    &&& 0 <= i < seeds.len()
    &&& seed_fault(ctx, seeds, i)
    &&& forall|j: int| 0 <= j < i ==> !seed_fault(ctx, seeds, j)
}

/// `e` reports the first of `seeds` that cannot be released, and why.
pub open spec fn reports_seed(ctx: &Context, seeds: Seq<Seq<char>>, e: ReleaseError) -> bool {
    match e {
        ReleaseError::UnknownCrate(name) => exists|i: int| #[trigger]
            first_seed_fault(ctx, seeds, i) && name@ == seeds[i] && !ctx.knows(name@),
        ReleaseError::NonPublishable(name) => exists|i: int| #[trigger]
            first_seed_fault(ctx, seeds, i) && name@ == seeds[i] && ctx.knows(name@),
        _ => false,
    }
}

/// Checks that every package of `seeds` is in the catalog and publishable,
/// and gives the positions of the seeds.
pub fn check_seeds(ctx: &Context, seeds: &Vec<String>) -> (r: Result<Vec<usize>, ReleaseError>)
    ensures
        match r {
            Ok(at) => {
                &&& forall|i: int| 0 <= i < seeds.len() ==> !seed_fault(ctx, seeds.deep_view(), i)
                &&& at@ == ctx.resolved(seeds.deep_view())
                &&& at.len() == seeds.len()
                &&& forall|i: int|
                    0 <= i < seeds.len() ==> (#[trigger] at[i]) < ctx.size() && ctx.names()[at[i] as int]
                        == seeds[i]@
            },
            Err(e) => reports_seed(ctx, seeds.deep_view(), e),
        },
{
    let crates = ctx.crates();
    let mut at: Vec<usize> = Vec::new();
    let mut i: usize = 0;
    assert(seeds.deep_view().take(0) =~= Seq::<Seq<char>>::empty());
    assert(at@ =~= ctx.resolved(seeds.deep_view().take(0)));
    while i < seeds.len()
        invariant
            i <= seeds.len(),
            ctx.wf(),
            crates@ == ctx.packages(),
            at.len() == i,
            at@ == ctx.resolved(seeds.deep_view().take(i as int)),
            forall|j: int| 0 <= j < i ==> !seed_fault(ctx, seeds.deep_view(), j),
            forall|j: int| 0 <= j < i ==> (#[trigger] at[j]) < ctx.size() && ctx.names()[at[j] as int] == seeds[j]@,
        decreases seeds.len() - i,
    {
        assert(seeds.deep_view()[i as int] == seeds[i as int]@);
        match ctx.find(seeds[i].as_str()) {
            None => {
                assert(first_seed_fault(ctx, seeds.deep_view(), i as int));
                return Err(ReleaseError::UnknownCrate(seeds[i].clone()));
            },
            Some(p) => {
                proof {
                    ctx.lemma_position(p as int);
                }
                if !crates[p].publish {
                    assert(first_seed_fault(ctx, seeds.deep_view(), i as int));
                    return Err(ReleaseError::NonPublishable(seeds[i].clone()));
                }
                let ghost before = at@;
                at.push(p);
                proof {
                    seeds.deep_view().lemma_filter_map_take_succ(resolver(ctx.packages()), i as int);
                    assert(resolver(ctx.packages())(seeds.deep_view()[i as int]) == Some(p));
                    assert(at@ =~= before + seq![p]);
                }
            },
        }
        i += 1;
    }
    assert(seeds.deep_view().take(seeds.len() as int) =~= seeds.deep_view());
    Ok(at)
}

/// A position that the closure of the seeds' positions holds is the position
/// of a package in the closure of the seeds' names, and the other way round.
proof fn lemma_closure_names(ctx: &Context, kind: DepKind, seeds: Seq<Seq<char>>, at: Seq<usize>, v: int)
    requires
        ctx.wf(),
        at.len() == seeds.len(),
        forall|i: int| 0 <= i < seeds.len() ==> (#[trigger] at[i]) < ctx.size() && ctx.names()[at[i] as int] == seeds[i],
        0 <= v < ctx.size(),
    ensures
        ctx.reached_by(kind, at, v) <==> ctx.dependency_closure(kind, seeds).contains(ctx.names()[v]),
{
    let name = ctx.names()[v];
    ctx.lemma_names_distinct();
    if ctx.reached_by(kind, at, v) {
        let t = choose|t: int| 0 <= t < at.len() && #[trigger] ctx.requires_transitively(kind, at[t] as int, v);
        assert(ctx.needs(kind, seeds[t], name));
    }
    if ctx.dependency_closure(kind, seeds).contains(name) {
        let r = choose|r: int| 0 <= r < seeds.len() && #[trigger] ctx.needs(kind, seeds[r], name);
        let (i, j) = choose|i: int, j: int|
            0 <= i < ctx.size() && 0 <= j < ctx.size() && ctx.names()[i] == seeds[r] && ctx.names()[j] == name
                && #[trigger] ctx.requires_transitively(kind, i, j);
        assert(at[r] as int == i);
        assert(j == v);
        assert(ctx.requires_transitively(kind, at[r] as int, v));
    }
}

/// The names of the packages that the release of `seeds` touches, in the
/// order in which they are classified: the publishable ones among the
/// packages met in a breadth-first search along the runtime dependencies,
/// seed by seed.
pub open spec fn candidates_order(ctx: &Context, seeds: Seq<Seq<char>>) -> Seq<Seq<char>> {
    ctx.closure_order(DepKind::Runtime, seeds).filter(|n: Seq<char>| ctx.package(n).publish)
}

/// `list` holds the packages that the release of `seeds` touches, each once
/// and with its present version; all seeds are known and publishable.
pub open spec fn is_candidate_list(ctx: &Context, seeds: Seq<Seq<char>>, list: Seq<Candidate>) -> bool {
    &&& forall|i: int| 0 <= i < seeds.len() ==> !seed_fault(ctx, seeds, i)
    &&& candidate_names(list) == candidates_order(ctx, seeds)
    &&& candidate_names(list).no_duplicates()
    &&& forall|name: Seq<char>| #[trigger]
        candidate_names(list).contains(name) <==> is_release_candidate(ctx, seeds, name)
    &&& forall|k: int|
        0 <= k < list.len() ==> Version::parsed(ctx.package(list[k].name@).version@) == Some(
            (#[trigger] list[k]).version,
        )
}

/// `e` tells why the release of `seeds` has no list of packages: the first
/// seed that is unknown or not publishable, or, where all seeds are in
/// order, a package that the release touches and whose version is no
/// semantic version.
pub open spec fn is_candidates_error(ctx: &Context, seeds: Seq<Seq<char>>, e: ReleaseError) -> bool {
    match e {
        ReleaseError::MalformedVersion(name) => {
            &&& forall|i: int| 0 <= i < seeds.len() ==> !seed_fault(ctx, seeds, i)
            &&& is_release_candidate(ctx, seeds, name@)
            &&& Version::parsed(ctx.package(name@).version@) is None
        },
        _ => reports_seed(ctx, seeds, e),
    }
}

/// The publishable packages that the release of `seeds` touches, each with
/// its present version: the seeds and all that a chain of runtime
/// dependencies leads to, in the order of a breadth-first search, seed by
/// seed. Fails, before any of them is looked at, where a seed is unknown or
/// not publishable.
pub fn release_candidates(ctx: &Context, seeds: &Vec<String>) -> (r: Result<Vec<Candidate>, ReleaseError>)
    ensures
        match r {
            Ok(list) => is_candidate_list(ctx, seeds.deep_view(), list@),
            Err(e) => is_candidates_error(ctx, seeds.deep_view(), e),
        },
{
    let at = match check_seeds(ctx, seeds) {
        Ok(at) => at,
        Err(e) => {
            return Err(e);
        },
    };
    let crates = ctx.crates();
    let n = ctx.len();
    let order = ctx.closure_of(DepKind::Runtime, &at);
    let mut list: Vec<Candidate> = Vec::new();
    let ghost mut src: Seq<int> = Seq::empty();
    let ghost roots = seeds.deep_view();
    let ghost keep = |n: Seq<char>| ctx.package(n).publish;
    proof {
        ctx.lemma_names_distinct();
        reveal(Seq::filter);
        assert(order@.take(0) =~= Seq::<usize>::empty());
        assert(candidate_names(list@) =~= ctx.names_from(order@.take(0)).filter(keep));
    }
    let mut k: usize = 0;
    while k < order.len()
        invariant
            k <= order.len(),
            ctx.wf(),
            keep == |n: Seq<char>| ctx.package(n).publish,
            candidate_names(list@) == ctx.names_from(order@.take(k as int)).filter(keep),
            n == ctx.size(),
            crates@ == ctx.packages(),
            roots == seeds.deep_view(),
            at.len() == seeds.len(),
            forall|i: int| 0 <= i < seeds.len() ==> !seed_fault(ctx, roots, i),
            forall|i: int| 0 <= i < seeds.len() ==> (#[trigger] at[i]) < ctx.size() && ctx.names()[at[i] as int] == roots[i],
            order@.no_duplicates(),
            forall|x: int| 0 <= x < order.len() ==> (#[trigger] order[x]) < ctx.size(),
            forall|v: usize| #[trigger] order@.contains(v) <==> ctx.reached_by(DepKind::Runtime, at@, v as int),
            src.len() == list.len(),
            forall|t: int| 0 <= t < src.len() ==> 0 <= (#[trigger] src[t]) < k,
            forall|t: int, u: int| 0 <= t < u < src.len() ==> src[t] < src[u],
            forall|t: int|
                0 <= t < list.len() ==> {
                    &&& (#[trigger] list[t]).name@ == ctx.names()[order[src[t]] as int]
                    &&& crates[order[src[t]] as int].publish
                    &&& Version::parsed(crates[order[src[t]] as int].version@) == Some(list[t].version)
                },
            forall|x: int| 0 <= x < k && crates[(#[trigger] order[x]) as int].publish ==> src.contains(x),
        decreases order.len() - k,
    {
        let p = order[k];
        let c = &crates[p];
        let ghost shown = candidate_names(list@);
        assert(ctx.names_from(order@.take(k + 1)).filter(keep) == if c.publish {
            shown.push(ctx.names()[p as int])
        } else {
            shown
        }) by {
            let done = ctx.names_from(order@.take(k as int));
            assert(order@.take(k + 1) =~= order@.take(k as int).push(p));
            assert(ctx.names_from(order@.take(k + 1)) =~= done.push(ctx.names()[p as int]));
            done.lemma_filter_push(ctx.names()[p as int], keep);
            ctx.lemma_position(p as int);
        }
        if c.publish {
            match Version::parse(c.version.as_str()) {
                Ok(v) => {
                    let ghost before = src;
                    let ghost had = list@;
                    list.push(Candidate { name: c.name.clone(), version: v });
                    proof {
                        assert(candidate_names(list@) =~= shown.push(ctx.names()[p as int]));
                        src = src.push(k as int);
                        assert forall|t: int| 0 <= t < list.len() implies {
                            &&& (#[trigger] list[t]).name@ == ctx.names()[order[src[t]] as int]
                            &&& crates[order[src[t]] as int].publish
                            &&& Version::parsed(crates[order[src[t]] as int].version@) == Some(list[t].version)
                        } by {
                            if t < had.len() {
                                assert(list[t] == had[t]);
                                assert(src[t] == before[t]);
                            } else {
                                assert(src[t] == k);
                                assert(order[k as int] == p);
                            }
                        }
                        assert forall|x: int| 0 <= x < k + 1 && crates[(#[trigger] order[x]) as int].publish implies src.contains(
                            x,
                        ) by {
                            if x < k {
                                assert(before.contains(x));
                                let t = choose|t: int| 0 <= t < before.len() && before[t] == x;
                                assert(src[t] == x);
                            } else {
                                assert(src[before.len() as int] == x);
                            }
                        }
                    }
                },
                Err(_) => {
                    let name = c.name.clone();
                    proof {
                        assert(order@.contains(p));
                        lemma_closure_names(ctx, DepKind::Runtime, roots, at@, p as int);
                        ctx.lemma_position(p as int);
                        assert(name@ == ctx.names()[p as int]);
                        assert(ctx.package(name@) == crates[p as int]);
                        assert(is_release_candidate(ctx, roots, name@));
                    }
                    return Err(ReleaseError::MalformedVersion(name));
                },
            }
        }
        k += 1;
    }
    proof {
        let names = candidate_names(list@);
        assert(order@.take(order.len() as int) =~= order@);
        assert(at@ == ctx.resolved(roots));
        assert(names == candidates_order(ctx, roots));
        assert forall|i: int, j: int| 0 <= i < names.len() && 0 <= j < names.len() && i != j implies names[i]
            != names[j] by {
            assert(list[i].name@ == ctx.names()[order[src[i]] as int]);
            assert(list[j].name@ == ctx.names()[order[src[j]] as int]);
            if i < j {
                assert(src[i] < src[j]);
            } else {
                assert(src[j] < src[i]);
            }
            assert(order[src[i]] != order[src[j]]);
        }
        assert forall|name: Seq<char>| #[trigger]
            names.contains(name) <==> is_release_candidate(ctx, roots, name) by {
            if names.contains(name) {
                let t = choose|t: int| 0 <= t < names.len() && names[t] == name;
                let v = order[src[t]];
                assert(list[t].name@ == ctx.names()[v as int]);
                assert(order@.contains(v));
                lemma_closure_names(ctx, DepKind::Runtime, roots, at@, v as int);
                ctx.lemma_position(v as int);
            }
            if is_release_candidate(ctx, roots, name) {
                let r = choose|r: int| 0 <= r < roots.len() && #[trigger] ctx.needs(DepKind::Runtime, roots[r], name);
                let (i, j) = choose|i: int, j: int|
                    0 <= i < ctx.size() && 0 <= j < ctx.size() && ctx.names()[i] == roots[r] && ctx.names()[j]
                        == name && #[trigger] ctx.requires_transitively(DepKind::Runtime, i, j);
                lemma_closure_names(ctx, DepKind::Runtime, roots, at@, j);
                ctx.lemma_position(j);
                assert(order@.contains(j as usize));
                let x = choose|x: int| 0 <= x < order.len() && order[x] == j as usize;
                assert(crates[order[x] as int].publish);
                assert(src.contains(x));
                let t = choose|t: int| 0 <= t < src.len() && src[t] == x;
                assert(list[t].name@ == ctx.names()[order[src[t]] as int]);
                assert(names[t] == name);
            }
        }
        assert forall|t: int| 0 <= t < list.len() implies Version::parsed(ctx.package(list[t].name@).version@)
            == Some((#[trigger] list[t]).version) by {
            ctx.lemma_position(order[src[t]] as int);
        }
    }
    Ok(list)
}

/// One line of a plan: the package, the step it takes and the version it gets.
#[derive(Debug)]
pub struct Bump {
    pub name: String,
    pub kind: BumpKind,
    pub version: Version,
}

/// The plan of a release: for each package that it touches, in the order in
/// which the packages were given, the step and the new version.
#[derive(Debug)]
pub struct BumpPlan {
    pub entries: Vec<Bump>,
}

impl BumpPlan {
    /// The line of the package `name`: the first that has this name.
    pub fn get(&self, name: &str) -> (r: Option<&Bump>)
        ensures
            match r {
                Some(entry) => exists|i: int|
                    0 <= i < self.entries.len() && (#[trigger] self.entries[i]) == *entry && entry.name@ == name@
                        && forall|j: int| 0 <= j < i ==> (#[trigger] self.entries[j]).name@ != name@,
                None => forall|i: int| 0 <= i < self.entries.len() ==> (#[trigger] self.entries[i]).name@ != name@,
            },
    {
        let mut i: usize = 0;
        while i < self.entries.len()
            invariant
                i <= self.entries.len(),
                forall|j: int| 0 <= j < i ==> (#[trigger] self.entries[j]).name@ != name@,
            decreases self.entries.len() - i,
        {
            if crate::text::same_text(self.entries[i].name.as_str(), name) {
                return Some(&self.entries[i]);
            }
            i += 1;
        }
        None
    }
}

/// The `i`-th package of `names` forces the `j`-th once it takes a minor
/// step: a chain of runtime dependencies, or one of build dependencies, or
/// one of dev dependencies leads from the `j`-th to the `i`-th.
pub open spec fn forces(ctx: &Context, names: Seq<Seq<char>>, i: int, j: int) -> bool {
    &&& 0 <= i < names.len()
    &&& 0 <= j < names.len()
    &&& (ctx.needs(DepKind::Runtime, names[j], names[i]) || ctx.needs(DepKind::Build, names[j], names[i])
        || ctx.needs(DepKind::Dev, names[j], names[i]))
}

/// The `k`-th package of `s` forces the next.
pub open spec fn forcing_step(ctx: &Context, names: Seq<Seq<char>>, s: Seq<int>, k: int) -> bool {
    forces(ctx, names, s[k], s[k + 1])
}

/// `s` starts at a package that takes a minor step by its own classification,
/// and each package of `s` forces the next.
pub open spec fn is_forcing_chain(
    ctx: &Context,
    names: Seq<Seq<char>>,
    verdicts: Seq<Classification>,
    s: Seq<int>,
) -> bool {
    &&& s.len() > 0
    &&& 0 <= s[0] < names.len()
    &&& verdicts[s[0]].bump_kind() == BumpKind::Minor
    &&& forall|k: int| 0 <= k < s.len() - 1 ==> #[trigger] forcing_step(ctx, names, s, k)
}

/// The `j`-th package ends with a minor step: by its own classification, or
/// forced through a chain of packages of the plan.
pub open spec fn ends_minor(ctx: &Context, names: Seq<Seq<char>>, verdicts: Seq<Classification>, j: int) -> bool {
    exists|s: Seq<int>| #[trigger] is_forcing_chain(ctx, names, verdicts, s) && s.last() == j
}

/// The step that the `j`-th package of the plan takes in the end.
pub open spec fn final_kind(
    ctx: &Context,
    names: Seq<Seq<char>>,
    verdicts: Seq<Classification>,
    j: int,
) -> BumpKind {
    if ends_minor(ctx, names, verdicts, j) {
        BumpKind::Minor
    } else {
        BumpKind::Patch
    }
}

/// There is one classification for each package, every package is in the
/// catalog, and none is given twice.
pub open spec fn plan_input_ok(ctx: &Context, names: Seq<Seq<char>>, verdicts: Seq<Classification>) -> bool {
    &&& verdicts.len() == names.len()
    &&& names.no_duplicates()
    &&& forall|i: int| 0 <= i < names.len() ==> ctx.knows(#[trigger] names[i])
}

/// A step that a package's own classification asks for is never taken back:
/// a package classified for a minor step ends with a minor step.
pub proof fn lemma_propagation_only_strengthens(
    ctx: &Context,
    names: Seq<Seq<char>>,
    verdicts: Seq<Classification>,
    j: int,
)
    requires
        0 <= j < names.len(),
        verdicts[j].bump_kind() == BumpKind::Minor,
    ensures
        final_kind(ctx, names, verdicts, j) == BumpKind::Minor,
{
    let s = seq![j];
    assert(is_forcing_chain(ctx, names, verdicts, s));
    assert(s.last() == j);
}

/// The plan is a fixpoint: a package that ends with a minor step forces
/// every package of the plan that needs it to end with a minor step too, over
/// any number of hops.
pub proof fn lemma_propagation_is_closed(
    ctx: &Context,
    names: Seq<Seq<char>>,
    verdicts: Seq<Classification>,
    i: int,
    j: int,
)
    requires
        final_kind(ctx, names, verdicts, i) == BumpKind::Minor,
        forces(ctx, names, i, j),
    ensures
        final_kind(ctx, names, verdicts, j) == BumpKind::Minor,
{
    let s = choose|s: Seq<int>| #[trigger] is_forcing_chain(ctx, names, verdicts, s) && s.last() == i;
    let t = s.push(j);
    assert forall|k: int| 0 <= k < t.len() - 1 implies #[trigger] forcing_step(ctx, names, t, k) by {
        if k < s.len() - 1 {
            assert(forcing_step(ctx, names, s, k));
        }
    }
    assert(is_forcing_chain(ctx, names, verdicts, t));
    assert(t.last() == j);
}

/// A package ends with a minor step only for a reason: its own
/// classification, or a package that forces it and ends with a minor step.
pub proof fn lemma_minor_has_cause(
    ctx: &Context,
    names: Seq<Seq<char>>,
    verdicts: Seq<Classification>,
    j: int,
)
    requires
        final_kind(ctx, names, verdicts, j) == BumpKind::Minor,
    ensures
        (0 <= j < names.len() && verdicts[j].bump_kind() == BumpKind::Minor) || exists|i: int|
            #[trigger] forces(ctx, names, i, j) && final_kind(ctx, names, verdicts, i) == BumpKind::Minor,
{
    let s = choose|s: Seq<int>| #[trigger] is_forcing_chain(ctx, names, verdicts, s) && s.last() == j;
    if s.len() > 1 {
        let t = s.drop_last();
        assert forall|k: int| 0 <= k < t.len() - 1 implies #[trigger] forcing_step(ctx, names, t, k) by {
            assert(forcing_step(ctx, names, s, k));
        }
        assert(is_forcing_chain(ctx, names, verdicts, t));
        let i = t.last();
        assert(ends_minor(ctx, names, verdicts, i));
        assert(forcing_step(ctx, names, s, s.len() - 2));
        assert(forces(ctx, names, i, j));
    }
}

/// `entry_of` tells for each position of the catalog which package of the
/// plan stands there, and `at` for each package of the plan where it stands.
spec fn entries_match(entry_of: Seq<Option<usize>>, at: Seq<usize>) -> bool {
    &&& forall|i: int|
        0 <= i < at.len() ==> (#[trigger] at[i]) < entry_of.len() && entry_of[at[i] as int] == Some(i as usize)
    &&& forall|p: int|
        0 <= p < entry_of.len() && (#[trigger] entry_of[p]) is Some ==> entry_of[p]->0 < at.len()
            && at[entry_of[p]->0 as int] == p
}

/// A chain of dependencies of one of the three kinds leads from the package
/// at `at[j]` to the package at `at[i]`.
spec fn forces_at(ctx: &Context, at: Seq<usize>, i: int, j: int) -> bool {
    &&& 0 <= i < at.len()
    &&& 0 <= j < at.len()
    &&& (ctx.requires_transitively(DepKind::Runtime, at[j] as int, at[i] as int) || ctx.requires_transitively(
        DepKind::Build,
        at[j] as int,
        at[i] as int,
    ) || ctx.requires_transitively(DepKind::Dev, at[j] as int, at[i] as int))
}

/// Between packages of the catalog, needing by name is needing by position.
proof fn lemma_needs_at(ctx: &Context, kind: DepKind, a: int, b: int)
    requires
        ctx.wf(),
        0 <= a < ctx.size(),
        0 <= b < ctx.size(),
    ensures
        ctx.needs(kind, ctx.names()[a], ctx.names()[b]) <==> ctx.requires_transitively(kind, a, b),
{
    ctx.lemma_names_distinct();
    if ctx.needs(kind, ctx.names()[a], ctx.names()[b]) {
        let (i, j) = choose|i: int, j: int|
            0 <= i < ctx.size() && 0 <= j < ctx.size() && ctx.names()[i] == ctx.names()[a] && ctx.names()[j]
                == ctx.names()[b] && #[trigger] ctx.requires_transitively(kind, i, j);
        assert(i == a && j == b);
    }
}

proof fn lemma_forces_at(ctx: &Context, names: Seq<Seq<char>>, at: Seq<usize>, i: int, j: int)
    requires
        ctx.wf(),
        at.len() == names.len(),
        forall|k: int| 0 <= k < at.len() ==> (#[trigger] at[k]) < ctx.size() && ctx.names()[at[k] as int] == names[k],
    ensures
        forces(ctx, names, i, j) <==> forces_at(ctx, at, i, j),
{
    if 0 <= i < at.len() && 0 <= j < at.len() {
        assert(at[i] < ctx.size() && at[j] < ctx.size());
        lemma_needs_at(ctx, DepKind::Runtime, at[j] as int, at[i] as int);
        lemma_needs_at(ctx, DepKind::Build, at[j] as int, at[i] as int);
        lemma_needs_at(ctx, DepKind::Dev, at[j] as int, at[i] as int);
    }
}

/// Adds to `pairs` the pair of `i` and each package of the plan from which a
/// chain of dependencies of `kind` leads to the `i`-th.
fn add_forced(
    ctx: &Context,
    kind: DepKind,
    i: usize,
    at: &Vec<usize>,
    entry_of: &Vec<Option<usize>>,
    pairs: &mut Vec<(usize, usize)>,
)
    requires
        i < at.len(),
        entry_of.len() == ctx.size(),
        entries_match(entry_of@, at@),
    ensures
        forall|x: usize, y: usize| #[trigger]
            final(pairs)@.contains((x, y)) <==> old(pairs)@.contains((x, y)) || (x == i && y < at.len()
                && ctx.requires_transitively(kind, at[y as int] as int, at[i as int] as int)),
{
    let mut seeds: Vec<usize> = Vec::new();
    seeds.push(at[i]);
    let found = ctx.dependents_closure_of(kind, &seeds);
    proof {
        assert forall|v: usize| #[trigger]
            found@.contains(v) <==> v < ctx.size() && ctx.requires_transitively(kind, v as int, at[i as int] as int) by {
            if ctx.leads_into(kind, seeds@, v as int) {
                let t = choose|t: int|
                    0 <= t < seeds.len() && #[trigger] ctx.requires_transitively(kind, v as int, seeds[t] as int);
                assert(seeds[t] == at[i as int]);
            }
            if v < ctx.size() && ctx.requires_transitively(kind, v as int, at[i as int] as int) {
                assert(ctx.requires_transitively(kind, v as int, seeds[0] as int));
            }
            if found@.contains(v) {
                let k = choose|k: int| 0 <= k < found.len() && found[k] == v;
                assert(found[k] < ctx.size());
            }
        }
    }
    let mut t: usize = 0;
    assert(found@.take(0) =~= Seq::<usize>::empty());
    while t < found.len()
        invariant
            t <= found.len(),
            i < at.len(),
            entry_of.len() == ctx.size(),
            entries_match(entry_of@, at@),
            forall|k: int| 0 <= k < found.len() ==> (#[trigger] found[k]) < ctx.size(),
            forall|x: usize, y: usize| #[trigger]
                pairs@.contains((x, y)) <==> old(pairs)@.contains((x, y)) || (x == i && y < at.len()
                    && found@.take(t as int).contains(at[y as int])),
        decreases found.len() - t,
    {
        let d = found[t];
        let ghost done = found@.take(t as int);
        let ghost next = found@.take(t + 1);
        let ghost before = pairs@;
        assert(next =~= done.push(d));
        match entry_of[d] {
            Some(j) => {
                pairs.push((i, j));
                proof {
                    assert forall|x: usize, y: usize| #[trigger]
                        pairs@.contains((x, y)) <==> old(pairs)@.contains((x, y)) || (x == i && y < at.len()
                            && next.contains(at[y as int])) by {
                        lemma_push_contains(before, (i, j), (x, y));
                        if y < at.len() {
                            lemma_push_contains(done, d, at[y as int]);
                            assert(entry_of[at[y as int] as int] == Some(y));
                        }
                    }
                }
            },
            None => {
                proof {
                    assert forall|x: usize, y: usize| #[trigger]
                        pairs@.contains((x, y)) <==> old(pairs)@.contains((x, y)) || (x == i && y < at.len()
                            && next.contains(at[y as int])) by {
                        if y < at.len() {
                            lemma_push_contains(done, d, at[y as int]);
                            assert(entry_of[at[y as int] as int] == Some(y));
                        }
                    }
                }
            },
        }
        t += 1;
    }
    assert(found@.take(found.len() as int) =~= found@);
}

/// The pairs of packages of the plan of which the first forces the second.
fn forcing_pairs(ctx: &Context, at: &Vec<usize>, entry_of: &Vec<Option<usize>>) -> (pairs: Vec<(usize, usize)>)
    requires
        entry_of.len() == ctx.size(),
        entries_match(entry_of@, at@),
    ensures
        forall|x: usize, y: usize| #[trigger] pairs@.contains((x, y)) <==> forces_at(ctx, at@, x as int, y as int),
{
    let mut pairs: Vec<(usize, usize)> = Vec::new();
    let mut i: usize = 0;
    while i < at.len()
        invariant
            i <= at.len(),
            entry_of.len() == ctx.size(),
            entries_match(entry_of@, at@),
            forall|x: usize, y: usize| #[trigger]
                pairs@.contains((x, y)) <==> x < i && forces_at(ctx, at@, x as int, y as int),
        decreases at.len() - i,
    {
        let ghost before = pairs@;
        add_forced(ctx, DepKind::Runtime, i, at, entry_of, &mut pairs);
        add_forced(ctx, DepKind::Build, i, at, entry_of, &mut pairs);
        add_forced(ctx, DepKind::Dev, i, at, entry_of, &mut pairs);
        assert forall|x: usize, y: usize| #[trigger]
            pairs@.contains((x, y)) <==> x < i + 1 && forces_at(ctx, at@, x as int, y as int) by {
            assert(before.contains((x, y)) <==> x < i && forces_at(ctx, at@, x as int, y as int));
        }
        i += 1;
    }
    pairs
}

/// In the graph of what forces what, the packages reached from those that
/// start with a minor step are those that end with one.
proof fn lemma_reached_is_forced(
    ctx: &Context,
    names: Seq<Seq<char>>,
    verdicts: Seq<Classification>,
    adj: Seq<Seq<usize>>,
    init: Seq<usize>,
    j: int,
)
    requires
        adj.len() == names.len(),
        verdicts.len() == names.len(),
        names.len() <= usize::MAX,
        forall|a: int, b: int| #[trigger] has_edge(adj, a, b) <==> forces(ctx, names, a, b),
        forall|v: usize| #[trigger]
            init.contains(v) <==> v < names.len() && verdicts[v as int].bump_kind() == BumpKind::Minor,
    ensures
        reached_from(adj, init, j) <==> ends_minor(ctx, names, verdicts, j),
{
    if reached_from(adj, init, j) {
        let t = choose|t: int| 0 <= t < init.len() && #[trigger] reaches(adj, init[t] as int, j);
        let p = choose|p: Seq<int>| #[trigger] is_walk(adj, p) && p.first() == init[t] as int && p.last() == j;
        assert(init.contains(init[t]));
        assert forall|k: int| 0 <= k < p.len() - 1 implies #[trigger] forcing_step(ctx, names, p, k) by {
            assert(walk_step(adj, p, k));
        }
        assert(is_forcing_chain(ctx, names, verdicts, p));
    }
    if ends_minor(ctx, names, verdicts, j) {
        let s = choose|s: Seq<int>| #[trigger] is_forcing_chain(ctx, names, verdicts, s) && s.last() == j;
        assert forall|k: int| 0 <= k < s.len() - 1 implies #[trigger] walk_step(adj, s, k) by {
            assert(forcing_step(ctx, names, s, k));
        }
        assert(is_walk(adj, s));
        assert(init.contains(s[0] as usize));
        let t = choose|t: int| 0 <= t < init.len() && init[t] == s[0] as usize;
        assert(reaches(adj, init[t] as int, j));
    }
}

/// For each package of the plan whether it ends with a minor step.
fn final_minors(ctx: &Context, candidates: &Vec<Candidate>, verdicts: &Vec<Classification>, at: &Vec<usize>, entry_of: &Vec<Option<usize>>) -> (minor: Vec<bool>)
    requires
        ctx.wf(),
        at.len() == candidates.len(),
        verdicts.len() == candidates.len(),
        entry_of.len() == ctx.size(),
        entries_match(entry_of@, at@),
        forall|k: int|
            0 <= k < at.len() ==> (#[trigger] at[k]) < ctx.size() && ctx.names()[at[k] as int] == candidate_names(
                candidates@,
            )[k],
    ensures
        minor.len() == candidates.len(),
        forall|j: int|
            0 <= j < minor.len() ==> (#[trigger] minor[j]) == ends_minor(
                ctx,
                candidate_names(candidates@),
                verdicts@,
                j,
            ),
{
    let ghost names = candidate_names(candidates@);
    let m = candidates.len();
    let pairs = forcing_pairs(ctx, at, entry_of);
    let forcing = Graph::build(m, &pairs);
    let ghost adj = forcing.edges();
    proof {
        assert forall|a: int, b: int| #[trigger] has_edge(adj, a, b) <==> forces(ctx, names, a, b) by {
            lemma_forces_at(ctx, names, at@, a, b);
            if 0 <= a < m && 0 <= b < m {
                assert(pairs@.contains((a as usize, b as usize)) <==> forces_at(ctx, at@, a, b));
            }
        }
    }
    let mut init: Vec<usize> = Vec::new();
    let mut i: usize = 0;
    while i < m
        invariant
            i <= m,
            m == verdicts.len(),
            forall|v: usize| #[trigger]
                init@.contains(v) <==> v < i && verdicts[v as int].bump_kind() == BumpKind::Minor,
        decreases m - i,
    {
        let ghost before = init@;
        match verdicts[i].to_bump_kind() {
            BumpKind::Minor => {
                init.push(i);
                assert forall|v: usize| #[trigger]
                    init@.contains(v) <==> v < i + 1 && verdicts[v as int].bump_kind() == BumpKind::Minor by {
                    lemma_push_contains(before, i, v);
                }
            },
            BumpKind::Patch => {},
        }
        i += 1;
    }
    let reached = forcing.reachable(&init);
    let mut minor: Vec<bool> = vec![false; m];
    let mut k: usize = 0;
    assert(reached@.take(0) =~= Seq::<usize>::empty());
    while k < reached.len()
        invariant
            k <= reached.len(),
            minor.len() == m,
            forcing.size() == m,
            forall|x: int| 0 <= x < reached.len() ==> (#[trigger] reached[x]) < m,
            forall|j: int| 0 <= j < m ==> (#[trigger] minor[j]) == reached@.take(k as int).contains(j as usize),
        decreases reached.len() - k,
    {
        let v = reached[k];
        let ghost done = reached@.take(k as int);
        let ghost before = minor@;
        assert(reached@.take(k + 1) =~= done.push(v));
        minor.set(v, true);
        assert forall|j: int| 0 <= j < m implies (#[trigger] minor[j]) == reached@.take(k + 1).contains(j as usize) by {
            lemma_push_contains(done, v, j as usize);
            assert(before[j] == done.contains(j as usize));
        }
        k += 1;
    }
    proof {
        assert(reached@.take(reached.len() as int) =~= reached@);
        assert forall|j: int| 0 <= j < minor.len() implies (#[trigger] minor[j]) == ends_minor(
            ctx,
            names,
            verdicts@,
            j,
        ) by {
            lemma_reached_is_forced(ctx, names, verdicts@, adj, init@, j);
        }
    }
    minor
}

/// Where each package of `candidates` stands in the catalog, or `None` where
/// one of them is not in the catalog or is given twice.
fn locate(ctx: &Context, candidates: &Vec<Candidate>) -> (r: Option<(Vec<usize>, Vec<Option<usize>>)>)
    ensures
        match r {
            Some((at, entry_of)) => {
                &&& candidate_names(candidates@).no_duplicates()
                &&& forall|i: int| 0 <= i < candidates.len() ==> ctx.knows(#[trigger] candidate_names(candidates@)[i])
                &&& at.len() == candidates.len()
                &&& entry_of.len() == ctx.size()
                &&& entries_match(entry_of@, at@)
                &&& forall|k: int|
                    0 <= k < at.len() ==> (#[trigger] at[k]) < ctx.size() && ctx.names()[at[k] as int]
                        == candidate_names(candidates@)[k]
            },
            None => !(candidate_names(candidates@).no_duplicates() && forall|i: int|
                0 <= i < candidates.len() ==> ctx.knows(#[trigger] candidate_names(candidates@)[i])),
        },
{
    let ghost names = candidate_names(candidates@);
    let n = ctx.crates().len();
    proof {
        ctx.lemma_names_distinct();
    }
    let mut at: Vec<usize> = Vec::new();
    let mut entry_of: Vec<Option<usize>> = vec![None; n];
    let mut i: usize = 0;
    while i < candidates.len()
        invariant
            i <= candidates.len(),
            ctx.names().no_duplicates(),
            names == candidate_names(candidates@),
            n == ctx.size(),
            at.len() == i,
            entry_of.len() == n,
            entries_match(entry_of@, at@),
            forall|k: int| 0 <= k < i ==> (#[trigger] at[k]) < ctx.size() && ctx.names()[at[k] as int] == names[k],
            forall|x: int, y: int| 0 <= x < y < i ==> names[x] != names[y],
            forall|k: int| 0 <= k < i ==> ctx.knows(#[trigger] names[k]),
        decreases candidates.len() - i,
    {
        assert(names[i as int] == candidates[i as int].name@);
        match ctx.find(candidates[i].name.as_str()) {
            None => {
                return None;
            },
            Some(p) => {
                match entry_of[p] {
                    Some(j) => {
                        assert(names[j as int] == names[i as int]);
                        return None;
                    },
                    None => {},
                }
                let ghost before_at = at@;
                let ghost before_map = entry_of@;
                entry_of.set(p, Some(i));
                at.push(p);
                proof {
                    assert forall|q: int| 0 <= q < entry_of.len() && (#[trigger] entry_of[q]) is Some implies entry_of[q]->0
                        < at.len() && at[entry_of[q]->0 as int] == q by {
                        if q != p {
                            assert(entry_of[q] == before_map[q]);
                            assert(at[before_map[q]->0 as int] == before_at[before_map[q]->0 as int]);
                        }
                    }
                    assert forall|x: int| 0 <= x < at.len() implies (#[trigger] at[x]) < entry_of.len()
                        && entry_of[at[x] as int] == Some(x as usize) by {
                        if x < i {
                            assert(before_at[x] == at[x]);
                            assert(before_map[before_at[x] as int] == Some(x as usize));
                        }
                    }
                    assert forall|x: int, y: int| 0 <= x < y < i + 1 implies names[x] != names[y] by {
                        if y == i {
                            assert(before_map[before_at[x] as int] == Some(x as usize));
                            assert(before_at[x] != p);
                            assert(ctx.names()[before_at[x] as int] == names[x]);
                        }
                    }
                }
            },
        }
        i += 1;
    }
    proof {
        assert forall|x: int, y: int| 0 <= x < names.len() && 0 <= y < names.len() && x != y implies names[x]
            != names[y] by {
            if x < y {
                assert(names[x] != names[y]);
            } else {
                assert(names[y] != names[x]);
            }
        }
    }
    Some((at, entry_of))
}

/// `entries` is the plan for `candidates` under `verdicts`: one line for each
/// package, in order, with the step that the package takes in the end and the
/// version that this step leads to.
pub open spec fn is_plan(
    ctx: &Context,
    candidates: Seq<Candidate>,
    verdicts: Seq<Classification>,
    entries: Seq<Bump>,
) -> bool {
    &&& plan_input_ok(ctx, candidate_names(candidates), verdicts)
    &&& entries.len() == candidates.len()
    &&& forall|j: int|
        0 <= j < candidates.len() ==> {
            let entry = #[trigger] entries[j];
            let kind = final_kind(ctx, candidate_names(candidates), verdicts, j);
            &&& entry.name@ == candidates[j].name@
            &&& entry.kind == kind
            &&& candidates[j].version.can_bump(kind)
            &&& entry.version == candidates[j].version.next(kind)
        }
}

/// `e` tells why there is no plan: the classifications do not line up with
/// the packages, or, where they do, the first package whose version cannot
/// take the step that it has to take.
pub open spec fn is_plan_error(
    ctx: &Context,
    candidates: Seq<Candidate>,
    verdicts: Seq<Classification>,
    e: ReleaseError,
) -> bool {
    match e {
        ReleaseError::Mismatch => !plan_input_ok(ctx, candidate_names(candidates), verdicts),
        ReleaseError::VersionOverflow(name) => {
            &&& plan_input_ok(ctx, candidate_names(candidates), verdicts)
            &&& exists|j: int|
                {
                    &&& 0 <= j < candidates.len()
                    &&& name@ == (#[trigger] candidates[j]).name@
                    &&& !candidates[j].version.can_bump(final_kind(ctx, candidate_names(candidates), verdicts, j))
                    &&& forall|i: int|
                        0 <= i < j ==> (#[trigger] candidates[i]).version.can_bump(
                            final_kind(ctx, candidate_names(candidates), verdicts, i),
                        )
                }
        },
        _ => false,
    }
}

/// The plan for the packages `candidates`, the `i`-th classified as
/// `verdicts[i]`. Each package starts with the step of its classification.
/// Then every package of the plan that needs a package with a minor step,
/// through runtime, build or dev dependencies, takes a minor step too, until
/// nothing changes any more. The new version follows from the final step:
/// the patch number goes up by one, or the minor number goes up by one and
/// the patch number returns to zero. No package is added to the plan.
pub fn propagate(ctx: &Context, candidates: &Vec<Candidate>, verdicts: &Vec<Classification>) -> (r: Result<
    BumpPlan,
    ReleaseError,
>)
    ensures
        match r {
            Ok(plan) => is_plan(ctx, candidates@, verdicts@, plan.entries@),
            Err(e) => is_plan_error(ctx, candidates@, verdicts@, e),
        },
{
    let ghost names = candidate_names(candidates@);
    let m = candidates.len();
    if verdicts.len() != m {
        return Err(ReleaseError::Mismatch);
    }
    let crates = ctx.crates();
    let (at, entry_of) = match locate(ctx, candidates) {
        Some(found) => found,
        None => {
            return Err(ReleaseError::Mismatch);
        },
    };
    let minor = final_minors(ctx, candidates, verdicts, &at, &entry_of);
    let mut entries: Vec<Bump> = Vec::new();
    let mut j: usize = 0;
    while j < m
        invariant
            j <= m,
            m == candidates.len(),
            minor.len() == m,
            names == candidate_names(candidates@),
            plan_input_ok(ctx, names, verdicts@),
            entries.len() == j,
            forall|i: int| 0 <= i < m ==> (#[trigger] minor[i]) == ends_minor(ctx, names, verdicts@, i),
            forall|i: int|
                0 <= i < j ==> {
                    let entry = #[trigger] entries[i];
                    let kind = final_kind(ctx, names, verdicts@, i);
                    &&& entry.name@ == candidates[i].name@
                    &&& entry.kind == kind
                    &&& candidates[i].version.can_bump(kind)
                    &&& entry.version == candidates[i].version.next(kind)
                },
        decreases m - j,
    {
        let kind = if minor[j] {
            BumpKind::Minor
        } else {
            BumpKind::Patch
        };
        assert(kind == final_kind(ctx, names, verdicts@, j as int));
        match candidates[j].version.bump(kind) {
            Some(version) => {
                entries.push(Bump { name: candidates[j].name.clone(), kind, version });
            },
            None => {
                assert forall|i: int| 0 <= i < j implies (#[trigger] candidates[i]).version.can_bump(
                    final_kind(ctx, names, verdicts@, i),
                ) by {
                    assert(entries[i].kind == final_kind(ctx, names, verdicts@, i));
                }
                let name = candidates[j].name.clone();
                assert(name@ == candidates[j as int].name@);
                return Err(ReleaseError::VersionOverflow(name));
            },
        }
        j += 1;
    }
    Ok(BumpPlan { entries })
}

} // verus!
