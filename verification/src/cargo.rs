//! What a `cargo` call is made of, before it is run.

use crate::text::{decimal, decimal_text, has_prefix, join, joined, starts_with};
use vstd::prelude::*;
use vstd::string::*;

verus! {

/// One of `args` begins with `+` and so chooses a toolchain.
pub open spec fn has_toolchain_choice(args: Seq<Seq<char>>) -> bool {
    exists|i: int| 0 <= i < args.len() && has_prefix(#[trigger] args[i], "+"@)
}

/// Whether one of `args` chooses a toolchain. The call must then find
/// `cargo` by itself, without the `CARGO` variable of the environment.
pub fn selects_toolchain(args: &Vec<String>) -> (r: bool)
    ensures
        r == has_toolchain_choice(args.deep_view()),
{
    let mut i: usize = 0;
    while i < args.len()
        invariant
            i <= args.len(),
            forall|k: int| 0 <= k < i ==> !has_prefix(#[trigger] args.deep_view()[k], "+"@),
        decreases args.len() - i,
    {
        if starts_with(args[i].as_str(), "+") {
            assert(has_prefix(args.deep_view()[i as int], "+"@));
            return true;
        }
        i += 1;
    }
    false
}

/// The arguments as shown to the user: joined by spaces, and where that has
/// more than 100 characters, its first 97 followed by `... (N chars)` with
/// `N` the number of characters.
pub open spec fn shown_arguments(args: Seq<Seq<char>>) -> Seq<char> {
    let line = joined(args, " "@);
    if line.len() > 100 {
        line.take(97) + "... ("@ + decimal(line.len()) + " chars)"@
    } else {
        line
    }
}

/// The arguments as shown to the user.
pub fn show_arguments(args: &Vec<String>) -> (r: String)
    ensures
        r@ == shown_arguments(args.deep_view()),
{
    let line = join(args, " ");
    let n = line.as_str().unicode_len();
    if n > 100 {
        let mut r = String::from_str(line.as_str().substring_char(0, 97));
        r.append("... (");
        let count = decimal_text(n as u64);
        r.append(count.as_str());
        r.append(" chars)");
        assert(line@.subrange(0, 97) =~= line@.take(97));
        r
    } else {
        line
    }
}

} // verus!
