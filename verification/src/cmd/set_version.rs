//! `set-version`: force a package to a version, following each kind of
//! dependency in turn.

use crate::bump::{action_models, dependent_edits, push_dependent_edits, Action, ActionModel};
use crate::types::{Context, Crate, DepKind};
use vstd::prelude::*;
use vstd::string::*;

verus! {

/// The arguments of the command.
#[derive(Debug)]
pub struct Args {
    /// The package that gets the version.
    pub crate_name: String,
    /// The version it gets.
    pub crate_version: String,
}

/// What has to be done once the package `name`, kept in `manifest_dir`, has
/// the version `version`: its own manifest; the manifests of the packages
/// that name it as a runtime dependency, then as a build dependency, then as
/// a dev dependency; its changelog.
pub open spec fn set_version_actions(
    packages: Seq<Crate>,
    name: Seq<char>,
    manifest_dir: Seq<char>,
    version: Seq<char>,
) -> Seq<ActionModel> {
    seq![ActionModel::SetPackageVersion { manifest_dir, version }] + dependent_edits(
        packages,
        DepKind::Runtime,
        name,
        version,
    ) + dependent_edits(packages, DepKind::Build, name, version) + dependent_edits(
        packages,
        DepKind::Dev,
        name,
        version,
    ) + seq![ActionModel::UpdateChangelog { manifest_dir }]
}

/// The changes to the repository that follow when the package `c` of
/// `crates` gets the version `version`.
pub fn actions_for(crates: &Vec<Crate>, c: &Crate, version: &str) -> (actions: Vec<Action>)
    ensures
        action_models(actions@) == set_version_actions(crates@, c.name@, c.path@, version@),
{
    let mut actions: Vec<Action> = Vec::new();
    actions.push(Action::SetPackageVersion { manifest_dir: c.path.clone(), version: version.to_owned() });
    assert(action_models(actions@) =~= seq![
        ActionModel::SetPackageVersion { manifest_dir: c.path@, version: version@ },
    ]);
    push_dependent_edits(crates, DepKind::Runtime, c.name.as_str(), version, &mut actions);
    push_dependent_edits(crates, DepKind::Build, c.name.as_str(), version, &mut actions);
    push_dependent_edits(crates, DepKind::Dev, c.name.as_str(), version, &mut actions);
    let ghost before = action_models(actions@);
    actions.push(Action::UpdateChangelog { manifest_dir: c.path.clone() });
    assert(action_models(actions@) =~= before + seq![ActionModel::UpdateChangelog { manifest_dir: c.path@ }]);
    actions
}

/// Gives the package `crate_name` the version `crate_version` and lists the
/// changes to the repository that follow. `None`, with the catalog as it
/// was, where no package has that name.
pub fn run(ctx: &mut Context, args: Args) -> (r: Option<Vec<Action>>)
    ensures
        final(ctx).wf(),
        final(ctx).root_text() == old(ctx).root_text(),
        Context::is_version_update(
            old(ctx).packages(),
            final(ctx).packages(),
            args.crate_name@,
            args.crate_version@,
        ),
        r is Some <==> old(ctx).knows(args.crate_name@),
        r matches Some(actions) ==> action_models(actions@) == set_version_actions(
            old(ctx).packages(),
            args.crate_name@,
            old(ctx).package(args.crate_name@).path@,
            args.crate_version@,
        ),
{
    let actions = match ctx.find(args.crate_name.as_str()) {
        None => None,
        Some(p) => {
            let crates = ctx.crates();
            proof {
                ctx.lemma_position(p as int);
            }
            Some(actions_for(crates, &crates[p], args.crate_version.as_str()))
        },
    };
    let found = ctx.set_version(args.crate_name.as_str(), args.crate_version.as_str());
    actions
}

} // verus!
