//! How `ssh` is invoked for a host.
use vstd::prelude::*;

use crate::text::{owned, string_views};

verus! {

/// The program that connects to a host.
pub const SSH_PROGRAM: &'static str = "ssh";

/// The arguments that make `ssh` connect to `alias` with the configuration
/// file that was loaded: `-F <config> -- <alias>`.
pub fn ssh_arguments(config: &str, alias: &str) -> (r: Vec<String>)
    ensures
        string_views(r@) == seq![seq!['-', 'F'], config@, seq!['-', '-'], alias@],
{
    let flag = owned("-F");
    let separator = owned("--");
    proof {
        reveal_strlit("-F");
        reveal_strlit("--");
    }
    assert(flag@ =~= seq!['-', 'F']);
    assert(separator@ =~= seq!['-', '-']);
    let mut r: Vec<String> = Vec::new();
    r.push(flag);
    r.push(owned(config));
    r.push(separator);
    r.push(owned(alias));
    assert(string_views(r@) =~= seq![seq!['-', 'F'], config@, seq!['-', '-'], alias@]);
    r
}

/// The exit code with which `ssh` reports its own errors (a failed
/// connection among them), as opposed to the remote command's.
pub fn is_ssh_error_exit_code(code: i64) -> (r: bool)
    ensures
        r == (code == 255),
{
    code == 255
}

} // verus!
