//! Giving a package a new version: the catalog is updated, and the work on
//! the manifests that follows from it is listed for the caller to carry out.

use crate::types::{Context, Crate, DepKind};
use vstd::prelude::*;
use vstd::string::*;

verus! {

/// A change to the files of the repository that a new version calls for.
#[derive(Debug)]
pub enum Action {
    /// Write `version` into the package table of the manifest in `manifest_dir`.
    SetPackageVersion { manifest_dir: String, version: String },
    /// In the manifest in `manifest_dir`, set the version of `dependency` to
    /// `version` wherever a dependency table has a place for it.
    SetDependencyVersion { manifest_dir: String, dependency: String, version: String },
    /// Bring the changelog of the package in `manifest_dir` up to date.
    UpdateChangelog { manifest_dir: String },
}

/// The mathematical value of an `Action`.
pub enum ActionModel {
    SetPackageVersion { manifest_dir: Seq<char>, version: Seq<char> },
    SetDependencyVersion { manifest_dir: Seq<char>, dependency: Seq<char>, version: Seq<char> },
    UpdateChangelog { manifest_dir: Seq<char> },
}

impl View for Action {
    type V = ActionModel;

    open spec fn view(&self) -> ActionModel {
        match self {
            Action::SetPackageVersion { manifest_dir, version } => ActionModel::SetPackageVersion {
                manifest_dir: manifest_dir@,
                version: version@,
            },
            Action::SetDependencyVersion {
                manifest_dir,
                dependency,
                version,
            } => ActionModel::SetDependencyVersion {
                manifest_dir: manifest_dir@,
                dependency: dependency@,
                version: version@,
            },
            Action::UpdateChangelog { manifest_dir } => ActionModel::UpdateChangelog { manifest_dir: manifest_dir@ },
        }
    }
}

/// The values of `actions`, in order.
pub open spec fn action_models(actions: Seq<Action>) -> Seq<ActionModel> {
    Seq::new(actions.len(), |i: int| actions[i]@)
}

/// The edit that sets the version of `name` in the manifest of `c`.
pub open spec fn dependency_edit(c: Crate, name: Seq<char>, version: Seq<char>) -> ActionModel {
    ActionModel::SetDependencyVersion { manifest_dir: c.path@, dependency: name, version }
}

/// For each package of `packages` that names `name` in its table `kind`, in
/// the order of `packages`, the edit that sets the version of `name` there.
pub open spec fn dependent_edits(
    packages: Seq<Crate>,
    kind: DepKind,
    name: Seq<char>,
    version: Seq<char>,
) -> Seq<ActionModel> {
    packages.filter(|c: Crate| c.dep_names(kind).contains(name)).map_values(
        |c: Crate| dependency_edit(c, name, version),
    )
}

/// Appends to `actions` the edits of `dependent_edits`.
pub fn push_dependent_edits(crates: &Vec<Crate>, kind: DepKind, name: &str, version: &str, actions: &mut Vec<Action>)
    ensures
        action_models(final(actions)@) == action_models(old(actions)@) + dependent_edits(
            crates@,
            kind,
            name@,
            version@,
        ),
{
    let ghost keep = |c: Crate| c.dep_names(kind).contains(name@);
    let ghost edit = |c: Crate| dependency_edit(c, name@, version@);
    let ghost start = action_models(actions@);
    let mut i: usize = 0;
    proof {
        assert(crates@.take(0) =~= Seq::<Crate>::empty());
        reveal(Seq::filter);
        assert(crates@.take(0).filter(keep) =~= Seq::<Crate>::empty());
        assert(start + crates@.take(0).filter(keep).map_values(edit) =~= start);
    }
    while i < crates.len()
        invariant
            i <= crates.len(),
            keep == |c: Crate| c.dep_names(kind).contains(name@),
            edit == |c: Crate| dependency_edit(c, name@, version@),
            action_models(actions@) == start + crates@.take(i as int).filter(keep).map_values(edit),
        decreases crates.len() - i,
    {
        let ghost done = crates@.take(i as int);
        let ghost before = action_models(actions@);
        let c = &crates[i];
        proof {
            assert(crates@.take(i + 1) =~= done.push(*c));
            done.lemma_filter_push(*c, keep);
        }
        if c.depends_on(kind, name) {
            actions.push(
                Action::SetDependencyVersion {
                    manifest_dir: c.path.clone(),
                    dependency: name.to_owned(),
                    version: version.to_owned(),
                },
            );
            proof {
                assert(action_models(actions@) =~= before.push(edit(*c)));
                assert(done.filter(keep).push(*c).map_values(edit) =~= done.filter(keep).map_values(edit).push(
                    edit(*c),
                ));
                assert(before.push(edit(*c)) =~= start + done.filter(keep).map_values(edit).push(edit(*c)));
            }
        }
        i += 1;
    }
    assert(crates@.take(crates.len() as int) =~= crates@);
}

/// What has to be done once the package `name`, kept in `manifest_dir`, has
/// the version `version`: its own manifest, then the manifest of every
/// package that names it in one of its tables, then its changelog.
pub open spec fn bump_actions(packages: Seq<Crate>, name: Seq<char>, manifest_dir: Seq<char>, version: Seq<char>) -> Seq<
    ActionModel,
> {
    seq![ActionModel::SetPackageVersion { manifest_dir, version }] + dependent_edits(
        packages,
        DepKind::Any,
        name,
        version,
    ) + seq![ActionModel::UpdateChangelog { manifest_dir }]
}

/// Gives the package `name` the version `new_version` and lists the changes
/// to the repository that follow. `None`, with the catalog as it was, where
/// no package has that name.
pub fn bump(ctx: &mut Context, name: &str, new_version: &str) -> (r: Option<Vec<Action>>)
    ensures
        final(ctx).wf(),
        final(ctx).root_text() == old(ctx).root_text(),
        Context::is_version_update(old(ctx).packages(), final(ctx).packages(), name@, new_version@),
        r is Some <==> old(ctx).knows(name@),
        r matches Some(actions) ==> action_models(actions@) == bump_actions(
            old(ctx).packages(),
            name@,
            old(ctx).package(name@).path@,
            new_version@,
        ),
{
    let dir = match ctx.get(name) {
        None => {
            let found = ctx.set_version(name, new_version);
            return None;
        },
        Some(c) => c.path.clone(),
    };
    let mut actions: Vec<Action> = Vec::new();
    actions.push(Action::SetPackageVersion { manifest_dir: dir.clone(), version: new_version.to_owned() });
    let ghost first = action_models(actions@);
    push_dependent_edits(ctx.crates(), DepKind::Any, name, new_version, &mut actions);
    let ghost second = action_models(actions@);
    actions.push(Action::UpdateChangelog { manifest_dir: dir });
    proof {
        let i = old(ctx).position(name@);
        let c = choose|c: Crate| c.name@ == name@ && old(ctx).packages().contains(c) && c.path@ == dir@;
        let k = choose|k: int| 0 <= k < old(ctx).packages().len() && old(ctx).packages()[k] == c;
        assert(old(ctx).names()[k] == name@);
        old(ctx).lemma_position(k);
        assert(first =~= seq![ActionModel::SetPackageVersion { manifest_dir: dir@, version: new_version@ }]);
        assert(action_models(actions@) =~= second + seq![ActionModel::UpdateChangelog { manifest_dir: dir@ }]);
    }
    let found = ctx.set_version(name, new_version);
    Some(actions)
}

} // verus!
