//! From what a manifest declares to a package of the catalog.

use crate::text::{
    has_prefix, lemma_text_lt_irreflexive, lemma_text_lt_total, lemma_text_lt_transitive, less_than, same_text,
    starts_with, text_lt,
};
use crate::types::{
    conflict_at, is_catalog_of, publish_rule, strictly_sorted, BuildConfig, Context, ContextError, Crate,
    ParsedCrate,
};
use vstd::prelude::*;
use vstd::string::*;

verus! {

/// `name` is the name of a package of this repository's family: it begins
/// with `embassy-` or with `cyw43`. Only such dependencies are followed.
pub open spec fn is_internal_name(name: Seq<char>) -> bool {
    has_prefix(name, "embassy-"@) || has_prefix(name, "cyw43"@)
}

/// Whether `name` is the name of a package of this repository's family.
pub fn is_internal_dependency(name: &str) -> (r: bool)
    ensures
        r == is_internal_name(name@),
{
    starts_with(name, "embassy-") || starts_with(name, "cyw43")
}

/// Those of `names` that are names of the family, in their order.
pub fn internal_dependencies(names: Vec<String>) -> (r: Vec<String>)
    ensures
        r.deep_view() == names.deep_view().filter(|n: Seq<char>| is_internal_name(n)),
{
    let ghost keep = |n: Seq<char>| is_internal_name(n);
    let ghost all = names.deep_view();
    let mut r: Vec<String> = Vec::new();
    let mut i: usize = 0;
    proof {
        reveal(Seq::filter);
        assert(all.take(0) =~= Seq::<Seq<char>>::empty());
        assert(r.deep_view() =~= all.take(0).filter(keep));
    }
    while i < names.len()
        invariant
            i <= names.len(),
            all == names.deep_view(),
            keep == |n: Seq<char>| is_internal_name(n),
            r.deep_view() == all.take(i as int).filter(keep),
        decreases names.len() - i,
    {
        let ghost done = all.take(i as int);
        let ghost before = r.deep_view();
        proof {
            assert(all.take(i + 1) =~= done.push(names[i as int]@));
            done.lemma_filter_push(names[i as int]@, keep);
        }
        if is_internal_dependency(names[i].as_str()) {
            r.push(names[i].clone());
            assert(r.deep_view() =~= before.push(names[i as int]@));
        }
        i += 1;
    }
    assert(all.take(names.len() as int) =~= all);
    r
}

/// Puts `name` into the sorted `names` unless it is there.
fn insert_name(names: &mut Vec<String>, name: String)
    requires
        strictly_sorted(old(names).deep_view()),
    ensures
        strictly_sorted(final(names).deep_view()),
        forall|x: Seq<char>| #[trigger]
            final(names).deep_view().contains(x) <==> old(names).deep_view().contains(x) || x == name@,
{
    let ghost before = names.deep_view();
    let mut i: usize = 0;
    while i < names.len() && less_than(names[i].as_str(), name.as_str())
        invariant
            i <= names.len(),
            names.deep_view() == before,
            forall|t: int| 0 <= t < i ==> text_lt(#[trigger] before[t], name@),
        decreases names.len() - i,
    {
        assert(before[i as int] == names[i as int]@);
        i += 1;
    }
    if i < names.len() && same_text(names[i].as_str(), name.as_str()) {
        assert(before[i as int] == name@);
        return ;
    }
    proof {
        assert forall|t: int| i <= t < before.len() implies text_lt(name@, #[trigger] before[t]) by {
            assert(before[i as int] == names[i as int]@);
            lemma_text_lt_total(name@, before[i as int]);
            if t > i {
                assert(text_lt(before[i as int], before[t]));
                lemma_text_lt_transitive(name@, before[i as int], before[t]);
            }
        }
    }
    let ghost wanted = name@;
    names.insert(i, name);
    proof {
        let after = names.deep_view();
        assert(after =~= before.insert(i as int, wanted));
        assert forall|x: int, y: int| 0 <= x < y < after.len() implies text_lt(
            #[trigger] after[x],
            #[trigger] after[y],
        ) by {
            if x < i && y > i {
                assert(text_lt(before[x], wanted));
                assert(text_lt(wanted, before[y - 1]));
                lemma_text_lt_transitive(before[x], wanted, before[y - 1]);
            } else if x < i && y < i {
                assert(text_lt(before[x], before[y]));
            } else if x < i && y == i {
                assert(text_lt(before[x], wanted));
            } else if x == i {
                assert(text_lt(wanted, before[y - 1]));
            } else {
                assert(text_lt(before[x - 1], before[y - 1]));
            }
        }
        assert forall|x: Seq<char>| #[trigger] after.contains(x) <==> before.contains(x) || x == wanted by {
            if after.contains(x) {
                let k = choose|k: int| 0 <= k < after.len() && after[k] == x;
                if k < i {
                    assert(before[k] == x);
                } else if k > i {
                    assert(before[k - 1] == x);
                }
            }
            if before.contains(x) {
                let k = choose|k: int| 0 <= k < before.len() && before[k] == x;
                if k < i {
                    assert(after[k] == x);
                } else {
                    assert(after[k + 1] == x);
                }
            }
            if x == wanted {
                assert(after[i as int] == x);
            }
        }
    }
}

/// The texts of `list` in dictionary order, each once: the keys of a table
/// that holds them.
pub fn sorted_names(list: Vec<String>) -> (r: Vec<String>)
    ensures
        strictly_sorted(r.deep_view()),
        forall|x: Seq<char>| #[trigger] r.deep_view().contains(x) <==> list.deep_view().contains(x),
{
    let ghost all = list.deep_view();
    let mut rest = list;
    let mut r: Vec<String> = Vec::new();
    assert(all.skip(all.len() as int) =~= Seq::<Seq<char>>::empty());
    while rest.len() > 0
        invariant
            rest.len() <= all.len(),
            rest.deep_view() == all.take(rest.len() as int),
            strictly_sorted(r.deep_view()),
            forall|x: Seq<char>| #[trigger] r.deep_view().contains(x) <==> all.skip(rest.len() as int).contains(x),
        decreases rest.len(),
    {
        let ghost m = rest.len() as int;
        let ghost had = rest.deep_view();
        let ghost found = r.deep_view();
        let name = rest.pop().unwrap();
        assert(name@ == all[m - 1]) by {
            assert(had[m - 1] == name@);
        }
        assert(rest.deep_view() =~= all.take(m - 1));
        insert_name(&mut r, name);
        proof {
            assert forall|x: Seq<char>| #[trigger] r.deep_view().contains(x) <==> all.skip(m - 1).contains(x) by {
                let old_part = all.skip(m);
                let new_part = all.skip(m - 1);
                if old_part.contains(x) {
                    let k = choose|k: int| 0 <= k < old_part.len() && old_part[k] == x;
                    assert(new_part[k + 1] == x);
                }
                if new_part.contains(x) {
                    let k = choose|k: int| 0 <= k < new_part.len() && new_part[k] == x;
                    if k > 0 {
                        assert(old_part[k - 1] == x);
                    }
                }
                if x == all[m - 1] {
                    assert(new_part[0] == x);
                }
            }
        }
    }
    assert(all.skip(0) =~= all);
    r
}

/// `names` holds, in dictionary order and each once, those of `declared`
/// that are names of the family: what the keys of a dependency table give,
/// whatever order and however often `declared` holds them.
pub open spec fn is_table_of(names: Seq<Seq<char>>, declared: Seq<Seq<char>>) -> bool {
    &&& strictly_sorted(names)
    &&& forall|x: Seq<char>| #[trigger] names.contains(x) <==> declared.contains(x) && is_internal_name(x)
}

/// The names of the family among `declared`, in dictionary order, each once.
pub fn dependency_table(declared: Vec<String>) -> (names: Vec<String>)
    ensures
        is_table_of(names.deep_view(), declared.deep_view()),
{
    let ghost all = declared.deep_view();
    let ghost keep = |n: Seq<char>| is_internal_name(n);
    let kept = internal_dependencies(declared);
    let ghost middle = kept.deep_view();
    let names = sorted_names(kept);
    proof {
        all.filter_lemma(keep);
        assert forall|x: Seq<char>| #[trigger] names.deep_view().contains(x) <==> all.contains(x)
            && is_internal_name(x) by {
            if middle.contains(x) {
                all.lemma_filter_contains_rev(keep, x);
                let k = choose|k: int| 0 <= k < middle.len() && middle[k] == x;
                assert(keep(middle[k]));
            }
            if all.contains(x) && is_internal_name(x) {
                let k = choose|k: int| 0 <= k < all.len() && all[k] == x;
                assert(keep(all[k]));
                assert(middle.contains(all[k]));
            }
        }
    }
    names
}

/// `c` is the package that the manifest `parsed`, found in the directory
/// `path`, declares: each of its dependency tables holds the declared names
/// of the family, in dictionary order and each once, and a manifest without
/// build variants gets the one plain variant.
pub open spec fn is_crate_of(c: Crate, parsed: ParsedCrate, path: String) -> bool {
    &&& c.name == parsed.package.name
    &&& c.version == parsed.package.version
    &&& c.path == path
    &&& c.publish == parsed.package.publish
    &&& is_table_of(c.dependencies.deep_view(), parsed.dependencies.deep_view())
    &&& is_table_of(c.build_dependencies.deep_view(), parsed.build_dependencies.deep_view())
    &&& is_table_of(c.dev_dependencies.deep_view(), parsed.dev_dependencies.deep_view())
    &&& if parsed.package.metadata.embassy.build@.len() == 0 {
        c.configs@.len() == 1 && c.configs@[0].is_plain()
    } else {
        c.configs == parsed.package.metadata.embassy.build
    }
}

/// The package that the manifest `parsed`, found in the directory `path`,
/// declares; `None` where the manifest asks to be skipped.
pub fn crate_from_manifest(parsed: ParsedCrate, path: String) -> (r: Option<Crate>)
    ensures
        r is None <==> parsed.package.metadata.embassy.skip,
        r matches Some(c) ==> is_crate_of(c, parsed, path),
{
    let ParsedCrate { package, dependencies, build_dependencies, dev_dependencies } = parsed;
    if package.metadata.embassy.skip {
        return None;
    }
    let mut configs = package.metadata.embassy.build;
    if configs.len() == 0 {
        configs.push(BuildConfig::default());
    }
    Some(
        Crate {
            name: package.name,
            version: package.version,
            path,
            dependencies: dependency_table(dependencies),
            build_dependencies: dependency_table(build_dependencies),
            dev_dependencies: dependency_table(dev_dependencies),
            configs,
            publish: package.publish,
        },
    )
}

/// `crates` holds, in order, the packages that the manifests declare which
/// do not ask to be skipped. Each manifest comes with the directory it was
/// found in.
pub open spec fn declares(manifests: Seq<(ParsedCrate, String)>, crates: Seq<Crate>) -> bool
    decreases manifests.len(),
{
    if manifests.len() == 0 {
        crates.len() == 0
    } else if manifests.last().0.package.metadata.embassy.skip {
        declares(manifests.drop_last(), crates)
    } else {
        &&& crates.len() > 0
        &&& is_crate_of(crates.last(), manifests.last().0, manifests.last().1)
        &&& declares(manifests.drop_last(), crates.drop_last())
    }
}

/// The packages that `manifests` declare, in order, without those that ask
/// to be skipped.
pub fn list_crates(manifests: Vec<(ParsedCrate, String)>) -> (crates: Vec<Crate>)
    ensures
        declares(manifests@, crates@),
{
    let ghost all = manifests@;
    let mut rest = manifests;
    let mut found: Vec<Crate> = Vec::new();
    // The manifests are taken from the end, so the packages come out in
    // reverse and are turned round below.
    while rest.len() > 0
        invariant
            rest@ == all.take(rest.len() as int),
            rest.len() <= all.len(),
            forall|crates: Seq<Crate>| #[trigger]
                declares(rest@, crates) ==> declares(all, crates + found@.reverse()),
        decreases rest.len(),
    {
        let ghost before = rest@;
        let ghost had = found@;
        let (parsed, path) = rest.pop().unwrap();
        assert(rest@ == before.drop_last());
        assert(rest@ =~= all.take(rest.len() as int));
        match crate_from_manifest(parsed, path) {
            Some(c) => {
                found.push(c);
                assert forall|crates: Seq<Crate>| #[trigger] declares(rest@, crates) implies declares(
                    all,
                    crates + found@.reverse(),
                ) by {
                    let longer = crates.push(c);
                    assert(longer.drop_last() =~= crates);
                    assert(declares(before, longer));
                    assert(longer + had.reverse() =~= crates + found@.reverse());
                }
            },
            None => {
                assert forall|crates: Seq<Crate>| #[trigger] declares(rest@, crates) implies declares(
                    all,
                    crates + found@.reverse(),
                ) by {
                    assert(declares(before, crates));
                }
            },
        }
    }
    let mut crates: Vec<Crate> = Vec::new();
    proof {
        assert(declares(rest@, Seq::<Crate>::empty()));
        assert(Seq::<Crate>::empty() + found@.reverse() =~= found@.reverse());
    }
    let ghost goal = found@.reverse();
    while found.len() > 0
        invariant
            crates@ + found@.reverse() == goal,
        decreases found.len(),
    {
        let ghost left = found@;
        let ghost done = crates@;
        let c = found.pop().unwrap();
        crates.push(c);
        assert(found@ == left.drop_last());
        assert(crates@ + found@.reverse() =~= done + left.reverse());
    }
    assert(crates@ + Seq::<Crate>::empty() =~= crates@);
    assert(found@.reverse() =~= Seq::<Crate>::empty());
    crates
}

/// The catalog of the repository in `root` whose manifests are `manifests`,
/// each with the directory it was found in. Fails where a publishable
/// package of the catalog depends at run time on one that is not publishable.
pub fn load_context(root: String, manifests: Vec<(ParsedCrate, String)>) -> (r: Result<Context, ContextError>)
    ensures
        match r {
            Ok(ctx) => {
                &&& ctx.wf()
                &&& ctx.root_text() == root@
                &&& publish_rule(ctx.packages())
                &&& exists|crates: Seq<Crate>| #[trigger]
                    declares(manifests@, crates) && is_catalog_of(ctx.packages(), crates)
            },
            Err(ContextError::PublishConflict { krate, dependency }) => exists|
                crates: Seq<Crate>,
                catalog: Seq<Crate>,
                a: int,
                t: int,
            |
                {
                    &&& #[trigger] declares(manifests@, crates)
                    &&& #[trigger] is_catalog_of(catalog, crates)
                    &&& #[trigger] conflict_at(catalog, a, t)
                    &&& krate@ == catalog[a].name@
                    &&& dependency@ == catalog[a].dependencies@[t]@
                    &&& forall|x: int, y: int| (x < a || (x == a && y < t)) ==> !conflict_at(catalog, x, y)
                },
        },
{
    let crates = list_crates(manifests);
    Context::new(root, crates)
}

} // verus!
