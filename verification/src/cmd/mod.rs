//! The commands of the tool, each as a function from the catalog and the
//! command's arguments to what the command reports or asks to be done.

pub mod batch;
pub mod bump;
pub mod check_crlf;
pub mod check_manifest;
pub mod dependencies;
pub mod dependents;
pub mod doc;
pub mod list;
pub mod prepare_release;
pub mod set_version;

use crate::text::same_text;
use crate::types::Context;
use vstd::prelude::*;
use vstd::string::*;

verus! {

/// A package with, below it, the packages that a command lists for it.
#[derive(Debug)]
pub struct Listing {
    pub name: String,
    pub version: String,
    /// Name and version of each listed package.
    pub others: Vec<(String, String)>,
}

/// The names of `pairs`, in order.
pub open spec fn listed_names(pairs: Seq<(String, String)>) -> Seq<Seq<char>> {
    Seq::new(pairs.len(), |i: int| pairs[i].0@)
}

/// `listing` shows the package `name` with its version and, below it, in the
/// order of `below`, each package of `below` but `name` itself, with its
/// version. A name of no package is left out.
pub open spec fn is_listing(ctx: &Context, listing: Listing, name: Seq<char>, below: Seq<Seq<char>>) -> bool {
    &&& listing.name@ == name
    &&& listing.version@ == ctx.package(name).version@
    &&& listed_names(listing.others@) == below.filter(|b: Seq<char>| b != name && ctx.knows(b))
    &&& forall|k: int|
        0 <= k < listing.others.len() ==> (#[trigger] listing.others[k]).1@ == ctx.package(
            listing.others[k].0@,
        ).version@
}

/// The listing of the package `name` with the packages named in `names`
/// below it. `None` where no package is called `name`.
pub fn listing_of(ctx: &Context, name: &str, names: &Vec<String>) -> (r: Option<Listing>)
    ensures
        r is Some <==> ctx.knows(name@),
        r matches Some(listing) ==> is_listing(ctx, listing, name@, names.deep_view()),
{
    let crates = ctx.crates();
    let head = match ctx.find(name) {
        None => {
            return None;
        },
        Some(p) => {
            proof {
                ctx.lemma_position(p as int);
            }
            &crates[p]
        },
    };
    let ghost keep = |b: Seq<char>| b != name@ && ctx.knows(b);
    let ghost all = names.deep_view();
    let mut others: Vec<(String, String)> = Vec::new();
    let mut i: usize = 0;
    proof {
        reveal(Seq::filter);
        assert(all.take(0) =~= Seq::<Seq<char>>::empty());
        assert(listed_names(others@) =~= all.take(0).filter(keep));
    }
    while i < names.len()
        invariant
            i <= names.len(),
            ctx.wf(),
            crates@ == ctx.packages(),
            all == names.deep_view(),
            keep == |b: Seq<char>| b != name@ && ctx.knows(b),
            listed_names(others@) == all.take(i as int).filter(keep),
            forall|t: int| 0 <= t < others.len() ==> (#[trigger] others[t]).1@ == ctx.package(others[t].0@).version@,
        decreases names.len() - i,
    {
        let ghost done = all.take(i as int);
        let ghost shown = listed_names(others@);
        let ghost had = others@;
        proof {
            assert(all[i as int] == names[i as int]@);
            assert(all.take(i + 1) =~= done.push(all[i as int]));
            done.lemma_filter_push(all[i as int], keep);
        }
        if !same_text(names[i].as_str(), name) {
            match ctx.find(names[i].as_str()) {
                Some(p) => {
                    proof {
                        ctx.lemma_position(p as int);
                    }
                    others.push((names[i].clone(), crates[p].version.clone()));
                    proof {
                        assert(listed_names(others@) =~= shown.push(all[i as int]));
                        assert forall|t: int| 0 <= t < others.len() implies (#[trigger] others[t]).1@ == ctx.package(
                            others[t].0@,
                        ).version@ by {
                            if t < had.len() {
                                assert(others[t] == had[t]);
                            }
                        }
                    }
                },
                None => {},
            }
        }
        i += 1;
    }
    assert(all.take(names.len() as int) =~= all);
    let listing = Listing { name: head.name.clone(), version: head.version.clone(), others };
    Some(listing)
}

} // verus!
