//! Validation of a command-line argument vector.
//!
//! The first argument beyond the program name is the seed phrase, the
//! second the depth token.  An absent depth token is a rejection, not a
//! silent default: the depth stays at the invalid sentinel 0 and a
//! user-visible message says so.  A token that resolves to 0 or below is
//! likewise rejected with a message; a vector with no seed phrase at all
//! is rejected silently.  The flag in the result says whether a
//! derivation may proceed.

use vstd::prelude::*;
use crate::depth::depth_of;
use crate::depth::validate_depth;

verus! {

/// Validates the argument vector: on success the seed phrase, the depth
/// and `true`; on rejection a message (empty only when no seed phrase was
/// supplied), 0 and `false`.
pub fn validate_args(args: &[String]) -> (r: (String, i32, bool))
    ensures
        args@.len() == 2 ==> r.0@ == "No depth has been supplied! Program will terminate here!"@
            && r.1 == 0 && !r.2,
        args@.len() >= 3 && depth_of(args@[2]@) >= 1 ==> r.0@ == args@[1]@ && r.1 as int
            == depth_of(args@[2]@) && r.2,
        args@.len() >= 3 && depth_of(args@[2]@) <= 0 ==> r.0@ == "Invalid depth supplied! Program will terminate here!"@
            && r.1 == 0 && !r.2,
        args@.len() < 2 ==> r.0@ == Seq::<char>::empty() && r.1 == 0 && !r.2,
{
    if args.len() == 2 {
        ("No depth has been supplied! Program will terminate here!".to_owned(), 0, false)
    } else if args.len() >= 3 {
        let d = validate_depth(args[2].as_str());
        if d > 0 {
            (args[1].clone(), d, true)
        } else {
            ("Invalid depth supplied! Program will terminate here!".to_owned(), 0, false)
        }
    } else {
        (String::new(), 0, false)
    }
}

} // verus!
