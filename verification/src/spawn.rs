//! The spawn wrapper: the shell command line it runs.
use vstd::prelude::*;
use crate::text::{join, join_strings, push_str, string_of};

verus! {

broadcast use vstd::string::group_string_axioms;

/// The shell command the wrapper hands to `/bin/sh -lc`: `exec` followed by
/// the command's words joined with single spaces, so that the launched app
/// replaces the shell and keeps the wrapper as its parent.
pub fn shell_command(cmd: &[String]) -> (s: String)
    ensures
        s@ == "exec "@ + join(cmd@.map_values(|c: String| c@), " "@),
{
    let joined = join_strings(cmd, " ");
    let mut cs: Vec<char> = Vec::new();
    push_str(&mut cs, "exec ");
    push_str(&mut cs, joined.as_str());
    string_of(cs.as_slice())
}


/// The arguments the launcher gives the program to start the spawn wrapper
/// for `app`: `spawn <workspace> <path> <cmd>`. The wrapper's process then
/// carries the app's workspace and tree position on its command line, where
/// `find_spawn_metadata` reads them back.
pub fn spawn_arguments(app: &crate::config::AppInfo) -> (args: Vec<String>)
    ensures
        args@.map_values(|a: String| a@) == seq!["spawn"@, app.workspace@, app.path@, app.cmd@],
{
    let mut args: Vec<String> = Vec::new();
    args.push(String::from_str("spawn"));
    args.push(app.workspace.clone());
    args.push(app.path.clone());
    args.push(app.cmd.clone());
    assert(args@.map_values(|a: String| a@) =~= seq!["spawn"@, app.workspace@, app.path@, app.cmd@]);
    args
}

} // verus!
