//! `prepare-release`: the plan of a release, the changes to the manifests
//! that it asks for, and the commands that publish the result.

use crate::bump::{action_models, Action, ActionModel};
use crate::cmd::set_version::{actions_for, set_version_actions};
use crate::release::{
    candidate_names, is_candidate_list, is_candidates_error, is_plan, is_plan_error, propagate,
    release_candidates, Bump, BumpPlan, Candidate, Classification, ReleaseError,
};
use crate::text::{join, joined, lemma_deep_view_is_texts, lemma_texts_concat, texts};
use crate::types::{Context, Crate};
use vstd::prelude::*;
use vstd::string::*;

verus! {

/// The arguments of the command.
#[derive(Debug)]
pub struct Args {
    /// The packages to release.
    pub crate_names: Vec<String>,
}

/// What the command found and asks for.
#[derive(Debug)]
pub struct Release {
    /// The packages that the release touches, with their present versions.
    pub candidates: Vec<Candidate>,
    /// The step and the new version of each of them.
    pub plan: BumpPlan,
    /// The changes to the repository, in the order of the plan.
    pub actions: Vec<Action>,
    /// For each package of the plan the command that tags its new version.
    pub tag_commands: Vec<String>,
    /// For each package of the plan the command that publishes it.
    pub publish_commands: Vec<String>,
}

/// The features of the first build variant of `c`; none where it has no variant.
pub open spec fn release_features(c: Crate) -> Seq<Seq<char>> {
    if c.configs@.len() > 0 {
        c.configs@[0].features.deep_view()
    } else {
        Seq::empty()
    }
}

/// The target of the first build variant of `c`.
pub open spec fn release_target(c: Crate) -> Option<Seq<char>> {
    if c.configs@.len() > 0 {
        match c.configs@[0].target {
            Some(t) => Some(t@),
            None => None,
        }
    } else {
        None
    }
}

/// The arguments with which `cargo` tries out or carries out the publishing
/// of `c`: the features are always named, also where there are none, and a
/// trial does not upload, accepts uncommitted changes and goes on after
/// failures.
pub open spec fn publish_arguments(c: Crate, push: bool) -> Seq<Seq<char>> {
    seq!["publish"@, "--manifest-path"@, c.path@ + "/Cargo.toml"@, "--features"@, joined(release_features(c), ","@)]
        + (match release_target(c) {
        Some(t) => seq!["--target"@, t],
        None => Seq::empty(),
    }) + (if push {
        Seq::empty()
    } else {
        seq!["--dry-run"@, "--allow-dirty"@, "--keep-going"@]
    })
}

/// The command line that publishes `c`, as it is shown to the user: features
/// are named only where there are some.
pub open spec fn publish_line(c: Crate) -> Seq<char> {
    "cargo "@ + joined(
        seq!["publish"@, "--manifest-path"@, c.path@ + "/Cargo.toml"@] + (if release_features(c).len() > 0 {
            seq!["--features"@, joined(release_features(c), ","@)]
        } else {
            Seq::empty()
        }) + (match release_target(c) {
            Some(t) => seq!["--target"@, t],
            None => Seq::empty(),
        }),
        " "@,
    )
}

/// The command that tags the version `version` of the package `name`.
pub open spec fn tag_line(name: Seq<char>, version: Seq<char>) -> Seq<char> {
    "git tag "@ + name + "-v"@ + version
}

fn manifest_path(c: &Crate) -> (path: String)
    ensures
        path@ == c.path@ + "/Cargo.toml"@,
{
    let mut path = c.path.clone();
    path.append("/Cargo.toml");
    path
}

fn features_of(c: &Crate) -> (list: String)
    ensures
        list@ == joined(release_features(*c), ","@),
{
    if c.configs.len() > 0 {
        join(&c.configs[0].features, ",")
    } else {
        let none: Vec<String> = Vec::new();
        assert(none.deep_view() =~= Seq::<Seq<char>>::empty());
        join(&none, ",")
    }
}

fn push_target(c: &Crate, args: &mut Vec<String>)
    ensures
        final(args).deep_view() == old(args).deep_view() + match release_target(*c) {
            Some(t) => seq!["--target"@, t],
            None => Seq::empty(),
        },
{
    let ghost before = args.deep_view();
    if c.configs.len() > 0 {
        match &c.configs[0].target {
            Some(t) => {
                args.push(String::from_str("--target"));
                args.push(t.clone());
                assert(args.deep_view() =~= before + seq!["--target"@, t@]);
                return ;
            },
            None => {},
        }
    }
    assert(args.deep_view() =~= before + Seq::<Seq<char>>::empty());
}

/// The arguments with which `cargo` tries out (`push` false) or carries out
/// the publishing of `c`.
pub fn publish_args(c: &Crate, push: bool) -> (args: Vec<String>)
    ensures
        args.deep_view() == publish_arguments(*c, push),
{
    let mut args: Vec<String> = Vec::new();
    args.push(String::from_str("publish"));
    args.push(String::from_str("--manifest-path"));
    args.push(manifest_path(c));
    args.push(String::from_str("--features"));
    args.push(features_of(c));
    assert(args.deep_view() =~= seq![
        "publish"@,
        "--manifest-path"@,
        c.path@ + "/Cargo.toml"@,
        "--features"@,
        joined(release_features(*c), ","@),
    ]);
    push_target(c, &mut args);
    let ghost middle = args.deep_view();
    if !push {
        args.push(String::from_str("--dry-run"));
        args.push(String::from_str("--allow-dirty"));
        args.push(String::from_str("--keep-going"));
        assert(args.deep_view() =~= middle + seq!["--dry-run"@, "--allow-dirty"@, "--keep-going"@]);
    } else {
        assert(args.deep_view() =~= middle + Seq::<Seq<char>>::empty());
    }
    args
}

/// The command line that publishes `c`, as it is shown to the user.
pub fn publish_command(c: &Crate) -> (line: String)
    ensures
        line@ == publish_line(*c),
{
    let mut args: Vec<String> = Vec::new();
    args.push(String::from_str("publish"));
    args.push(String::from_str("--manifest-path"));
    args.push(manifest_path(c));
    let ghost head = args.deep_view();
    assert(head =~= seq!["publish"@, "--manifest-path"@, c.path@ + "/Cargo.toml"@]);
    if c.configs.len() > 0 && c.configs[0].features.len() > 0 {
        args.push(String::from_str("--features"));
        args.push(features_of(c));
        assert(args.deep_view() =~= head + seq!["--features"@, joined(release_features(*c), ","@)]);
    } else {
        assert(release_features(*c).len() == 0);
        assert(args.deep_view() =~= head + Seq::<Seq<char>>::empty());
    }
    push_target(c, &mut args);
    let mut line = String::from_str("cargo ");
    let rest = join(&args, " ");
    line.append(rest.as_str());
    line
}

/// The command that tags the version `version` of the package `name`.
pub fn tag_command(name: &str, version: &str) -> (line: String)
    ensures
        line@ == tag_line(name@, version@),
{
    let mut line = String::from_str("git tag ");
    line.append(name);
    line.append("-v");
    line.append(version);
    line
}

/// The changes to the repository that the first `n` lines of a plan ask for,
/// line by line.
pub open spec fn plan_actions(ctx: &Context, entries: Seq<Bump>, n: int) -> Seq<ActionModel>
    decreases n,
{
    if n <= 0 {
        Seq::empty()
    } else {
        plan_actions(ctx, entries, n - 1) + set_version_actions(
            ctx.packages(),
            entries[n - 1].name@,
            ctx.package(entries[n - 1].name@).path@,
            entries[n - 1].version.text(),
        )
    }
}

/// The packages that the release of `crate_names` touches and that have to be
/// classified, in the order in which their classifications are expected.
pub fn candidates(ctx: &Context, args: &Args) -> (r: Result<Vec<Candidate>, ReleaseError>)
    ensures
        match r {
            Ok(list) => is_candidate_list(ctx, args.crate_names.deep_view(), list@),
            Err(e) => is_candidates_error(ctx, args.crate_names.deep_view(), e),
        },
{
    release_candidates(ctx, &args.crate_names)
}

/// Plans the release of `crate_names`, `verdicts[i]` being the
/// classification of the `i`-th package that the release touches. Nothing is
/// changed: the result holds the plan, the changes to the manifests that
/// carry it out, and the commands that tag and publish each package of the
/// plan, for a person to look through and run.
pub fn run(ctx: &Context, args: &Args, verdicts: &Vec<Classification>) -> (r: Result<Release, ReleaseError>)
    ensures
        match r {
            Ok(release) => {
                &&& is_candidate_list(ctx, args.crate_names.deep_view(), release.candidates@)
                &&& is_plan(ctx, release.candidates@, verdicts@, release.plan.entries@)
                &&& action_models(release.actions@) == plan_actions(
                    ctx,
                    release.plan.entries@,
                    release.plan.entries.len() as int,
                )
                &&& release.tag_commands.len() == release.plan.entries.len()
                &&& release.publish_commands.len() == release.plan.entries.len()
                &&& forall|i: int|
                    0 <= i < release.plan.entries.len() ==> {
                        let entry = #[trigger] release.plan.entries[i];
                        &&& release.tag_commands[i]@ == tag_line(entry.name@, entry.version.text())
                        &&& release.publish_commands[i]@ == publish_line(ctx.package(entry.name@))
                    }
            },
            Err(e) => is_candidates_error(ctx, args.crate_names.deep_view(), e) || exists|list: Seq<Candidate>|
                #[trigger] is_candidate_list(ctx, args.crate_names.deep_view(), list) && is_plan_error(
                    ctx,
                    list,
                    verdicts@,
                    e,
                ),
        },
{
    let list = match release_candidates(ctx, &args.crate_names) {
        Ok(list) => list,
        Err(e) => {
            return Err(e);
        },
    };
    let plan = match propagate(ctx, &list, verdicts) {
        Ok(plan) => plan,
        Err(e) => {
            assert(is_candidate_list(ctx, args.crate_names.deep_view(), list@));
            return Err(e);
        },
    };
    let crates = ctx.crates();
    let mut actions: Vec<Action> = Vec::new();
    let mut tag_commands: Vec<String> = Vec::new();
    let mut publish_commands: Vec<String> = Vec::new();
    let mut i: usize = 0;
    assert(action_models(actions@) =~= plan_actions(ctx, plan.entries@, 0));
    while i < plan.entries.len()
        invariant
            i <= plan.entries.len(),
            ctx.wf(),
            crates@ == ctx.packages(),
            is_plan(ctx, list@, verdicts@, plan.entries@),
            action_models(actions@) == plan_actions(ctx, plan.entries@, i as int),
            tag_commands.len() == i,
            publish_commands.len() == i,
            forall|k: int|
                0 <= k < i ==> {
                    let entry = #[trigger] plan.entries[k];
                    &&& tag_commands[k]@ == tag_line(entry.name@, entry.version.text())
                    &&& publish_commands[k]@ == publish_line(ctx.package(entry.name@))
                },
        decreases plan.entries.len() - i,
    {
        let entry = &plan.entries[i];
        let version = entry.version.to_text();
        assert(candidate_names(list@)[i as int] == list[i as int].name@);
        match ctx.find(entry.name.as_str()) {
            Some(p) => {
                proof {
                    ctx.lemma_position(p as int);
                }
                let c = &crates[p];
                let mut more = actions_for(crates, c, version.as_str());
                let ghost before = actions@;
                let ghost added = more@;
                actions.append(&mut more);
                proof {
                    assert(actions@ =~= before + added);
                    assert(action_models(actions@) =~= action_models(before) + action_models(added));
                }
                tag_commands.push(tag_command(entry.name.as_str(), version.as_str()));
                publish_commands.push(publish_command(c));
            },
            None => {
                assert(ctx.knows(candidate_names(list@)[i as int]));
                assert(false);
            },
        }
        i += 1;
    }
    Ok(Release { candidates: list, plan, actions, tag_commands, publish_commands })
}

} // verus!
