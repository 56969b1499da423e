//! What the diff and merge drivers decide, apart from reading and writing
//! files.
//!
//! Git runs the diff driver with seven arguments (path, old file, old hex, old
//! mode, new file, new hex, new mode) and the merge driver with five (`%O %A
//! %B %L %P`: base, current, other, marker size, path). A JSON path whose
//! versions parse is diffed or merged by structure; anything else falls back to
//! a text diff, or to conflict markers written over the current version.

use vstd::prelude::*;
use vstd::string::StringExecFns;
use crate::config::{ends_with, str_ends_with};
use crate::text::{append_bytes, lit, push_lit, push_str};
use crate::Error;

verus! {

/// Whether a path goes through the structural JSON diff and merge.
pub open spec fn is_json_path(p: Seq<char>) -> bool {
    ends_with(p, ".json"@)
}

/// Whether `path` goes through the structural JSON diff and merge
/// ([`is_json_path`]).
pub fn json_path(path: &str) -> (r: bool)
    ensures
        r == is_json_path(path@),
{
    str_ends_with(path, ".json")
}

/// The message for a diff driver run with too few arguments.
pub open spec fn diff_args_msg() -> Seq<char> {
    "diff driver expects 7 arguments (path old-file old-hex old-mode new-file new-hex new-mode)"@
}

/// The message for a merge driver run with too few arguments.
pub open spec fn merge_args_msg() -> Seq<char> {
    "merge driver expects 5 arguments (%O %A %B %L %P)"@
}

/// The path, old file and new file of a diff driver run: the first, second and
/// fifth arguments; [`Error::Driver`] when there are fewer than seven.
pub fn diff_driver_args(args: &Vec<String>) -> (r: Result<(String, String, String), Error>)
    ensures
        match r {
            Ok(t) => args@.len() >= 7 && t.0@ == args@[0]@ && t.1@ == args@[1]@ && t.2@ == args@[4]@,
            Err(e) => args@.len() < 7 && (e matches Error::Driver(m) && m@ == diff_args_msg()),
        },
{
    if args.len() < 7 {
        return Err(
            Error::Driver(
                String::from_str(
                    "diff driver expects 7 arguments (path old-file old-hex old-mode new-file new-hex new-mode)",
                ),
            ),
        );
    }
    Ok((args[0].clone(), args[1].clone(), args[4].clone()))
}

/// The base, current and other files and the path of a merge driver run: the
/// first, second, third and fifth arguments; [`Error::Driver`] when there are
/// fewer than five.
pub fn merge_driver_args(args: &Vec<String>) -> (r: Result<(String, String, String, String), Error>)
    ensures
        match r {
            Ok(t) => args@.len() >= 5 && t.0@ == args@[0]@ && t.1@ == args@[1]@ && t.2@ == args@[2]@ && t.3@
                == args@[4]@,
            Err(e) => args@.len() < 5 && (e matches Error::Driver(m) && m@ == merge_args_msg()),
        },
{
    if args.len() < 5 {
        return Err(Error::Driver(String::from_str("merge driver expects 5 arguments (%O %A %B %L %P)")));
    }
    Ok((args[0].clone(), args[1].clone(), args[2].clone(), args[4].clone()))
}

/// Standard conflict markers around ours and theirs.
pub open spec fn markers(ours: Seq<u8>, theirs: Seq<u8>) -> Seq<u8> {
    lit("<<<<<<< HEAD\n") + ours + lit("\n=======\n") + theirs + lit("\n>>>>>>> OTHER\n")
}

/// The conflict-marked text that replaces the current version when a merge
/// does not resolve ([`markers`]).
pub fn conflict_markers(ours: &[u8], theirs: &[u8]) -> (r: Vec<u8>)
    ensures
        r@ == markers(ours@, theirs@),
{
    let mut merged: Vec<u8> = Vec::new();
    push_lit(&mut merged, "<<<<<<< HEAD\n");
    append_bytes(&mut merged, ours);
    push_lit(&mut merged, "\n=======\n");
    append_bytes(&mut merged, theirs);
    push_lit(&mut merged, "\n>>>>>>> OTHER\n");
    proof {
        assert(merged@ =~= markers(ours@, theirs@));
    }
    merged
}

/// The error a merge driver ends with when conflicts remain.
pub fn unresolved(pathname: &str) -> (e: Error)
    ensures
        e matches Error::Driver(m) && m@ == pathname@ + ": merge left unresolved conflicts"@,
{
    let mut m = String::from_str(pathname);
    push_str(&mut m, ": merge left unresolved conflicts");
    Error::Driver(m)
}

} // verus!
