//! `bump`: force a package to a version.

use crate::bump::{action_models, bump, bump_actions, Action};
use crate::types::Context;
use vstd::prelude::*;
use vstd::string::*;

verus! {

/// The arguments of the command.
#[derive(Debug)]
pub struct Args {
    /// The package that gets the version.
    pub crate_name: String,
    /// The version it gets.
    pub crate_version: String,
}

/// Gives the package `crate_name` the version `crate_version` and lists the
/// changes to the repository that follow: its own manifest, the manifest of
/// every package that names it, its changelog. `None`, with the catalog as it
/// was, where no package has that name.
pub fn run(ctx: &mut Context, args: Args) -> (r: Option<Vec<Action>>)
    ensures
        final(ctx).wf(),
        final(ctx).root_text() == old(ctx).root_text(),
        Context::is_version_update(
            old(ctx).packages(),
            final(ctx).packages(),
            args.crate_name@,
            args.crate_version@,
        ),
        r is Some <==> old(ctx).knows(args.crate_name@),
        r matches Some(actions) ==> action_models(actions@) == bump_actions(
            old(ctx).packages(),
            args.crate_name@,
            old(ctx).package(args.crate_name@).path@,
            args.crate_version@,
        ),
{
    bump(ctx, args.crate_name.as_str(), args.crate_version.as_str())
}

} // verus!
