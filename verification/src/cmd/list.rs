//! `list`: all packages in dependency order, each with what it needs.

use crate::cmd::{is_listing, listing_of, Listing};
use crate::text::{unique_texts, without_repeats};
use crate::types::{Context, CycleError, DepKind};
use vstd::prelude::*;
use vstd::string::*;

verus! {

/// The arguments of the command: none.
#[derive(Debug)]
pub struct Args;

/// The names of `listings`, in order.
pub open spec fn listing_names(listings: Seq<Listing>) -> Seq<Seq<char>> {
    Seq::new(listings.len(), |i: int| listings[i].name@)
}

/// One listing for each package, every package after the packages that it
/// depends on at run time, and below each the packages of the catalog that
/// its runtime table names. Fails where the runtime dependencies have a cycle.
pub fn run(ctx: &Context, _args: Args) -> (r: Result<Vec<Listing>, CycleError>)
    ensures
        r is Err <==> ctx.has_dependency_cycle(DepKind::Runtime),
        r matches Ok(listings) ==> {
            &&& ctx.is_dependency_order(DepKind::Runtime, listing_names(listings@))
            &&& forall|k: int|
                0 <= k < listings.len() ==> is_listing(
                    ctx,
                    #[trigger] listings[k],
                    listings[k].name@,
                    without_repeats(ctx.package(listings[k].name@).dep_names(DepKind::Runtime)),
                )
        },
{
    let order = match ctx.topological_order(DepKind::Runtime) {
        Err(e) => {
            return Err(e);
        },
        Ok(order) => order,
    };
    let crates = ctx.crates();
    let mut listings: Vec<Listing> = Vec::new();
    let mut i: usize = 0;
    while i < order.len()
        invariant
            i <= order.len(),
            listings.len() == i,
            ctx.wf(),
            crates@ == ctx.packages(),
            ctx.is_dependency_order(DepKind::Runtime, order.deep_view()),
            forall|k: int| 0 <= k < i ==> (#[trigger] listings[k]).name@ == order[k]@,
            forall|k: int|
                0 <= k < i ==> is_listing(
                    ctx,
                    #[trigger] listings[k],
                    listings[k].name@,
                    without_repeats(ctx.package(listings[k].name@).dep_names(DepKind::Runtime)),
                ),
        decreases order.len() - i,
    {
        assert(order.deep_view().contains(order.deep_view()[i as int]));
        let p = match ctx.find(order[i].as_str()) {
            Some(p) => p,
            None => {
                assert(false);
                return Err(CycleError);
            },
        };
        proof {
            ctx.lemma_position(p as int);
        }
        let named = unique_texts(&crates[p].dependencies);
        match listing_of(ctx, order[i].as_str(), &named) {
            Some(listing) => {
                listings.push(listing);
            },
            None => {
                assert(false);
            },
        }
        i += 1;
    }
    assert(listing_names(listings@) =~= order.deep_view());
    Ok(listings)
}

} // verus!
