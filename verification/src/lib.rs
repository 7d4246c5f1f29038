//! A small workflow helper for a version-control tool: it plans the
//! high-level commands (sync, stash, uncommit, branch creation, done) as
//! argument lists, parses the tool's machine-readable status and diff-stat
//! output, and drives the state of an interactive staging screen.
//!
//! Everything here is pure: the surrounding binary runs the planned
//! commands, feeds their output back in, and does the rendering.

use vstd::prelude::*;

pub mod git;
pub mod text;
pub mod tui;

use crate::text::{dec_str, u64_to_dec, views};

verus! {

/// The plan for syncing the current branch with its remote counterpart:
/// with `force`, a fetch of the branch followed by a hard reset to the
/// remote branch; otherwise a single fast-forward-only pull.
pub fn sync(force: bool, branch: &String) -> (r: Vec<Vec<String>>)
    ensures
        force ==> r@.len() == 2 && views(r@[0]@) == seq!["fetch"@, "origin"@, branch@] && views(
            r@[1]@,
        ) == seq!["reset"@, "--hard"@, "origin/"@ + branch@],
        !force ==> r@.len() == 1 && views(r@[0]@) == seq!["pull"@, "--ff-only"@, "origin"@, branch@],
{
    let mut r: Vec<Vec<String>> = Vec::new();
    if force {
        let mut fetch: Vec<String> = Vec::new();
        fetch.push("fetch".to_owned());
        fetch.push("origin".to_owned());
        fetch.push(branch.clone());
        let mut reset: Vec<String> = Vec::new();
        reset.push("reset".to_owned());
        reset.push("--hard".to_owned());
        let mut target: String = "origin/".to_owned();
        target.append(branch.as_str());
        reset.push(target);
        proof {
            assert(views(fetch@) =~= seq!["fetch"@, "origin"@, branch@]);
            assert(views(reset@) =~= seq!["reset"@, "--hard"@, "origin/"@ + branch@]);
        }
        r.push(fetch);
        r.push(reset);
    } else {
        let mut pull: Vec<String> = Vec::new();
        pull.push("pull".to_owned());
        pull.push("--ff-only".to_owned());
        pull.push("origin".to_owned());
        pull.push(branch.clone());
        proof {
            assert(views(pull@) =~= seq!["pull"@, "--ff-only"@, "origin"@, branch@]);
        }
        r.push(pull);
    }
    r
}

/// The plan for stashing local changes, untracked files included.
pub fn stash() -> (r: Vec<String>)
    ensures
        views(r@) == seq!["stash"@, "push"@, "--include-untracked"@],
{
    let mut r: Vec<String> = Vec::new();
    r.push("stash".to_owned());
    r.push("push".to_owned());
    r.push("--include-untracked".to_owned());
    proof {
        assert(views(r@) =~= seq!["stash"@, "push"@, "--include-untracked"@]);
    }
    r
}

/// The plan for uncommitting the last `count` commits: a reset of the
/// head back by that many.
pub fn uncommit(count: u64) -> (r: Vec<String>)
    ensures
        r@.len() == 2,
        r@[0]@ == "reset"@,
        r@[1]@ == "HEAD~"@ + dec_str(count as int),
{
    let mut r: Vec<String> = Vec::new();
    r.push("reset".to_owned());
    let mut target: String = "HEAD~".to_owned();
    let n = u64_to_dec(count);
    target.append(n.as_str());
    r.push(target);
    r
}

/// The plan for creating and switching to a new branch.
pub fn branch(name: &String) -> (r: Vec<String>)
    ensures
        views(r@) == seq!["switch"@, "--create"@, name@],
{
    let mut r: Vec<String> = Vec::new();
    r.push("switch".to_owned());
    r.push("--create".to_owned());
    r.push(name.clone());
    proof {
        assert(views(r@) =~= seq!["switch"@, "--create"@, name@]);
    }
    r
}

/// The plan for finishing work on a branch: nothing to run when already
/// on `main` (the caller prints a notice instead); otherwise a switch to
/// `main` followed by a forced delete of the finished branch. The caller
/// follows up with the default sync plan for the branch it then finds
/// itself on.
pub fn done(current: &String) -> (r: Option<Vec<Vec<String>>>)
    ensures
        match r {
            None => current@ == "main"@,
            Some(cmds) => current@ != "main"@ && cmds@.len() == 2 && views(cmds@[0]@) == seq![
                "switch"@,
                "main"@,
            ] && views(cmds@[1]@) == seq!["branch"@, "--delete"@, "--force"@, current@],
        },
{
    let main_name: String = "main".to_owned();
    if *current == main_name {
        return None;
    }
    let mut switch: Vec<String> = Vec::new();
    switch.push("switch".to_owned());
    switch.push("main".to_owned());
    let mut del: Vec<String> = Vec::new();
    del.push("branch".to_owned());
    del.push("--delete".to_owned());
    del.push("--force".to_owned());
    del.push(current.clone());
    proof {
        assert(views(switch@) =~= seq!["switch"@, "main"@]);
        assert(views(del@) =~= seq!["branch"@, "--delete"@, "--force"@, current@]);
    }
    let mut cmds: Vec<Vec<String>> = Vec::new();
    cmds.push(switch);
    cmds.push(del);
    Some(cmds)
}

} // verus!
