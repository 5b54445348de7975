//! `doc`: for which packages documentation is built, and how.

use crate::types::{Context, Crate};
use vstd::prelude::*;
use vstd::string::*;

verus! {

/// The arguments of the command.
#[derive(Debug)]
pub struct Args {
    /// Build for these packages only; for all publishable ones where empty.
    pub crates: Vec<String>,
    /// The directory that receives the documentation.
    pub output: String,
}

/// Why the command fails.
#[derive(Debug)]
pub enum DocError {
    /// A package that was asked for is not in the catalog.
    NotFound(String),
    /// Building failed for these packages.
    Failed(Vec<String>),
}

/// What the command builds and what it leaves out.
#[derive(Debug)]
pub struct DocPlan {
    /// The packages to build documentation for, in order.
    pub build: Vec<String>,
    /// The packages that were asked for and are not publishable.
    pub skipped: Vec<String>,
}

/// The names of the publishable packages of `packages`, in order.
pub open spec fn publishable_names(packages: Seq<Crate>) -> Seq<Seq<char>> {
    packages.filter(|c: Crate| c.publish).map_values(|c: Crate| c.name@)
}

/// The `i`-th of `wanted` is the first that no package is called.
pub open spec fn first_unknown(ctx: &Context, wanted: Seq<Seq<char>>, i: int) -> bool {
    &&& 0 <= i < wanted.len()
    &&& !ctx.knows(wanted[i])
    &&& forall|j: int| 0 <= j < i ==> ctx.knows(#[trigger] wanted[j])
}

/// The packages for which documentation is built. Where none is asked for,
/// these are all publishable packages. Otherwise they are those asked for
/// that are publishable, the others being skipped; asking for a package that
/// is not in the catalog is an error.
pub fn run(ctx: &Context, args: &Args) -> (r: Result<DocPlan, DocError>)
    ensures
        match r {
            Ok(plan) => if args.crates@.len() == 0 {
                &&& plan.build.deep_view() == publishable_names(ctx.packages())
                &&& plan.skipped@.len() == 0
            } else {
                &&& forall|i: int| 0 <= i < args.crates.len() ==> ctx.knows(#[trigger] args.crates.deep_view()[i])
                &&& plan.build.deep_view() == args.crates.deep_view().filter(|n: Seq<char>| ctx.package(n).publish)
                &&& plan.skipped.deep_view() == args.crates.deep_view().filter(
                    |n: Seq<char>| !ctx.package(n).publish,
                )
            },
            Err(DocError::NotFound(name)) => exists|i: int| #[trigger]
                first_unknown(ctx, args.crates.deep_view(), i) && name@ == args.crates.deep_view()[i],
            Err(_) => false,
        },
{
    let crates = ctx.crates();
    let mut build: Vec<String> = Vec::new();
    let mut skipped: Vec<String> = Vec::new();
    proof {
        reveal(Seq::filter);
    }
    if args.crates.len() == 0 {
        let ghost keep = |c: Crate| c.publish;
        let ghost name = |c: Crate| c.name@;
        let mut i: usize = 0;
        assert(crates@.take(0) =~= Seq::<Crate>::empty());
        assert(build.deep_view() =~= crates@.take(0).filter(keep).map_values(name));
        while i < crates.len()
            invariant
                i <= crates.len(),
                keep == |c: Crate| c.publish,
                name == |c: Crate| c.name@,
                build.deep_view() == crates@.take(i as int).filter(keep).map_values(name),
            decreases crates.len() - i,
        {
            let ghost done = crates@.take(i as int);
            let ghost before = build.deep_view();
            proof {
                assert(crates@.take(i + 1) =~= done.push(crates[i as int]));
                done.lemma_filter_push(crates[i as int], keep);
            }
            if crates[i].publish {
                build.push(crates[i].name.clone());
                assert(build.deep_view() =~= before.push(crates[i as int].name@));
                assert(done.filter(keep).push(crates[i as int]).map_values(name) =~= done.filter(keep).map_values(
                    name,
                ).push(crates[i as int].name@));
            }
            i += 1;
        }
        assert(crates@.take(crates.len() as int) =~= crates@);
        return Ok(DocPlan { build, skipped });
    }
    let ghost wanted = args.crates.deep_view();
    let ghost yes = |n: Seq<char>| ctx.package(n).publish;
    let ghost no = |n: Seq<char>| !ctx.package(n).publish;
    let mut i: usize = 0;
    assert(wanted.take(0) =~= Seq::<Seq<char>>::empty());
    assert(build.deep_view() =~= wanted.take(0).filter(yes));
    assert(skipped.deep_view() =~= wanted.take(0).filter(no));
    while i < args.crates.len()
        invariant
            i <= args.crates.len(),
            ctx.wf(),
            crates@ == ctx.packages(),
            wanted == args.crates.deep_view(),
            yes == |n: Seq<char>| ctx.package(n).publish,
            no == |n: Seq<char>| !ctx.package(n).publish,
            forall|j: int| 0 <= j < i ==> ctx.knows(#[trigger] wanted[j]),
            build.deep_view() == wanted.take(i as int).filter(yes),
            skipped.deep_view() == wanted.take(i as int).filter(no),
        decreases args.crates.len() - i,
    {
        let ghost done = wanted.take(i as int);
        let ghost built = build.deep_view();
        let ghost left = skipped.deep_view();
        let ghost this = args.crates[i as int]@;
        proof {
            assert(wanted[i as int] == this);
            assert(wanted.take(i + 1) =~= done.push(this));
            done.lemma_filter_push(this, yes);
            done.lemma_filter_push(this, no);
        }
        match ctx.find(args.crates[i].as_str()) {
            None => {
                assert(first_unknown(ctx, wanted, i as int));
                return Err(DocError::NotFound(args.crates[i].clone()));
            },
            Some(p) => {
                proof {
                    ctx.lemma_position(p as int);
                }
                if crates[p].publish {
                    build.push(args.crates[i].clone());
                    assert(build.deep_view() =~= built.push(this));
                } else {
                    skipped.push(args.crates[i].clone());
                    assert(skipped.deep_view() =~= left.push(this));
                }
            },
        }
        i += 1;
    }
    assert(wanted.take(args.crates.len() as int) =~= wanted);
    Ok(DocPlan { build, skipped })
}

/// The arguments of one call of the documentation builder.
pub open spec fn doc_arguments(input: Seq<char>, output: Seq<char>, static_dir: Option<Seq<char>>) -> Seq<Seq<char>> {
    seq!["build"@, "-i"@, input, "-o"@, output] + match static_dir {
        Some(dir) => seq!["--output-static"@, dir],
        None => Seq::empty(),
    }
}

/// The arguments of the call that builds the documentation of the package in
/// `input` into `output`. The first call of a run also names the directory
/// for what all packages share.
pub fn doc_command_args(input: &str, output: &str, static_dir: Option<&str>) -> (args: Vec<String>)
    ensures
        args.deep_view() == doc_arguments(
            input@,
            output@,
            match static_dir {
                Some(dir) => Some(dir@),
                None => None,
            },
        ),
{
    let mut args: Vec<String> = Vec::new();
    args.push(String::from_str("build"));
    args.push(String::from_str("-i"));
    args.push(String::from_str(input));
    args.push(String::from_str("-o"));
    args.push(String::from_str(output));
    let ghost head = args.deep_view();
    assert(head =~= seq!["build"@, "-i"@, input@, "-o"@, output@]);
    match static_dir {
        Some(dir) => {
            args.push(String::from_str("--output-static"));
            args.push(String::from_str(dir));
            assert(args.deep_view() =~= head + seq!["--output-static"@, dir@]);
        },
        None => {
            assert(args.deep_view() =~= head + Seq::<Seq<char>>::empty());
        },
    }
    args
}

/// The end of the command: it fails where building failed for a package.
pub fn finish(failed: Vec<String>) -> (r: Result<(), DocError>)
    ensures
        r is Ok <==> failed@.len() == 0,
        r matches Err(e) ==> e matches DocError::Failed(list) && list == failed,
{
    if failed.len() == 0 {
        Ok(())
    } else {
        Err(DocError::Failed(failed))
    }
}

} // verus!
