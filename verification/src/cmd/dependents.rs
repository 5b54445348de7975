//! `dependents`: a package and all that need it.

use crate::cmd::{is_listing, listing_of, Listing};
use crate::types::{Context, DepKind};
use vstd::prelude::*;
use vstd::string::*;

verus! {

/// The arguments of the command.
#[derive(Debug)]
pub struct Args {
    /// The package whose dependents are listed.
    pub crate_name: String,
}

/// The package `crate_name` and, below it, every other package that needs it
/// through any of its dependency tables and theirs. `None` where no package
/// has that name.
pub fn run(ctx: &Context, args: Args) -> (r: Option<Listing>)
    ensures
        r is Some <==> ctx.knows(args.crate_name@),
        r matches Some(listing) ==> is_listing(
            ctx,
            listing,
            args.crate_name@,
            ctx.seeded_dependents_order(DepKind::Any, seq![args.crate_name@]),
        ),
{
    let mut roots: Vec<String> = Vec::new();
    roots.push(args.crate_name.clone());
    assert(roots.deep_view() =~= seq![args.crate_name@]);
    let found = ctx.recursive_dependents(&roots);
    listing_of(ctx, args.crate_name.as_str(), &found)
}

} // verus!
