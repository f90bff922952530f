//! The `git` commands of a release.

use vstd::prelude::*;

use crate::error::Error;
use crate::error::ErrorOf;
use crate::error::ErrorView;
use crate::session;
use crate::session::Cursor;
use crate::session::Next;
use crate::session::Session;
use crate::session::Step;
use crate::text;
use crate::text::chars_of;
use crate::text::list2;
use crate::text::list3;
use crate::text::list4;
use crate::text::own;
use crate::text::put;
use crate::text::text_of;
use crate::text::trim;

verus! {

/// The project is inside a git repository.
pub open spec fn inside_repo_step(c: Cursor) -> Next<Result<bool, ErrorView>> {
    c.git_output(seq!["rev-parse"@, "--is-inside-work-tree"@]).and_ok(
        |o: (bool, Result<Seq<char>, Seq<char>>), c: Cursor| Next::Done(Ok(o.0), c),
    )
}

/// The working tree and the index have no changes.
pub open spec fn clean_step(c: Cursor) -> Next<Result<bool, ErrorView>> {
    c.git_check(seq!["diff"@, "--quiet"@]).and_ok(
        |worktree: bool, c: Cursor|
            c.git_check(seq!["diff"@, "--cached"@, "--quiet"@]).and_ok(
                |index: bool, c: Cursor| Next::Done(Ok(worktree && index), c),
            ),
    )
}

/// The name of the branch in the output of `git symbolic-ref`.
pub open spec fn branch_in(o: (bool, Result<Seq<char>, Seq<char>>)) -> Result<
    Option<Seq<char>>,
    ErrorView,
> {
    if !o.0 {
        Ok(None)
    } else {
        match o.1 {
            Err(why) => Err(ErrorOf::NotUtf8("decode branch name as utf-8"@, why)),
            Ok(t) => if text::trim_both(t).len() == 0 {
                Ok(None)
            } else {
                Ok(Some(text::trim_both(t)))
            },
        }
    }
}

/// The name of the current branch, `None` when detached.
pub open spec fn branch_step(c: Cursor) -> Next<Result<Option<Seq<char>>, ErrorView>> {
    c.git_output(seq!["symbolic-ref"@, "--short"@, "HEAD"@]).and_ok(
        |o: (bool, Result<Seq<char>, Seq<char>>), c: Cursor| Next::Done(branch_in(o), c),
    )
}

/// The version in the output of `git describe`: the tag without its `v`.
pub open spec fn tag_in(o: (bool, Result<Seq<char>, Seq<char>>)) -> Result<
    Option<Seq<char>>,
    ErrorView,
> {
    if !o.0 {
        Ok(None)
    } else {
        match o.1 {
            Err(why) => Err(ErrorOf::NotUtf8("decode git describe output"@, why)),
            Ok(t) => {
                let raw = text::trim_both(t);
                if raw.len() > 0 && raw[0] == 'v' {
                    Ok(Some(raw.skip(1)))
                } else {
                    Ok(Some(raw))
                }
            },
        }
    }
}

/// The version of the latest `v*` tag, `None` when there is no such tag.
pub open spec fn latest_tag_step(c: Cursor) -> Next<Result<Option<Seq<char>>, ErrorView>> {
    c.git_output(seq!["describe"@, "--tags"@, "--abbrev=0"@, "--match"@, "v*"@]).and_ok(
        |o: (bool, Result<Seq<char>, Seq<char>>), c: Cursor| Next::Done(tag_in(o), c),
    )
}

/// Stage files.
pub open spec fn add_step(c: Cursor, files: Seq<Seq<char>>) -> Next<Result<(), ErrorView>> {
    if files.len() == 0 {
        Next::Done(Ok(()), c)
    } else {
        c.git(seq!["add"@, "--"@] + files)
    }
}

pub open spec fn pull_step(c: Cursor, remote: Seq<char>, branch: Seq<char>) -> Next<
    Result<(), ErrorView>,
> {
    c.git(seq!["pull"@, "--ff-only"@, remote, branch])
}

pub open spec fn commit_step(c: Cursor, message: Seq<char>) -> Next<Result<(), ErrorView>> {
    c.git(seq!["commit"@, "-m"@, message])
}

pub open spec fn commit_empty_step(c: Cursor, message: Seq<char>) -> Next<Result<(), ErrorView>> {
    c.git(seq!["commit"@, "--allow-empty"@, "-m"@, message])
}

pub open spec fn tag_step(c: Cursor, tag: Seq<char>) -> Next<Result<(), ErrorView>> {
    c.git(seq!["tag"@, tag])
}

pub open spec fn push_step(c: Cursor, remote: Seq<char>, refspec: Seq<char>) -> Next<
    Result<(), ErrorView>,
> {
    c.git(seq!["push"@, remote, refspec])
}

/// Whether the project is inside a git repository.
pub fn is_inside_repo(s: &mut Session<'_>) -> (r: Step<Result<bool, Error>>)
    ensures
        session::step(r, final(s)@) == inside_repo_step(old(s)@),
{
    match s.git_output(list2("rev-parse", "--is-inside-work-tree"))? {
        Ok((ok, _)) => Ok(Ok(ok)),
        Err(e) => Ok(Err(e)),
    }
}

/// Whether the working tree and the index have no changes.
pub fn is_clean(s: &mut Session<'_>) -> (r: Step<Result<bool, Error>>)
    ensures
        session::step(r, final(s)@) == clean_step(old(s)@),
{
    let worktree = match s.git_check(list2("diff", "--quiet"))? {
        Ok(ok) => ok,
        Err(e) => {
            return Ok(Err(e));
        },
    };
    match s.git_check(list3("diff", "--cached", "--quiet"))? {
        Ok(index) => Ok(Ok(worktree && index)),
        Err(e) => Ok(Err(e)),
    }
}

/// The name of the current branch, `None` when detached.
pub fn current_branch(s: &mut Session<'_>) -> (r: Step<Result<Option<String>, Error>>)
    ensures
        session::step(r, final(s)@) == branch_step(old(s)@),
{
    match s.git_output(list3("symbolic-ref", "--short", "HEAD"))? {
        Ok((false, _)) => Ok(Ok(None)),
        Ok((true, Err(why))) => Ok(
            Err(ErrorOf::NotUtf8(own("decode branch name as utf-8"), why)),
        ),
        Ok((true, Ok(t))) => {
            let name = trim(&t);
            if chars_of(&name).len() == 0 {
                Ok(Ok(None))
            } else {
                Ok(Ok(Some(name)))
            }
        },
        Err(e) => Ok(Err(e)),
    }
}

/// The version of the latest `v*` tag, `None` when there is no such tag.
pub fn latest_v_tag(s: &mut Session<'_>) -> (r: Step<Result<Option<String>, Error>>)
    ensures
        session::step(r, final(s)@) == latest_tag_step(old(s)@),
{
    let mut args = list4("describe", "--tags", "--abbrev=0", "--match");
    put(&mut args, own("v*"));
    assert(args.deep_view() =~= seq![
        "describe"@,
        "--tags"@,
        "--abbrev=0"@,
        "--match"@,
        "v*"@,
    ]);
    match s.git_output(args)? {
        Ok((false, _)) => Ok(Ok(None)),
        Ok((true, Err(why))) => Ok(
            Err(ErrorOf::NotUtf8(own("decode git describe output"), why)),
        ),
        Ok((true, Ok(t))) => {
            let raw = trim(&t);
            let cs = chars_of(&raw);
            if cs.len() > 0 && cs[0] == 'v' {
                let rest = text_of(&cs, 1, cs.len());
                assert(rest@ =~= cs@.skip(1));
                Ok(Ok(Some(rest)))
            } else {
                Ok(Ok(Some(raw)))
            }
        },
        Err(e) => Ok(Err(e)),
    }
}

/// Fast-forward pull of a branch.
pub fn pull_ff_only(s: &mut Session<'_>, remote: &str, branch: &str) -> (r: Step<
    Result<(), Error>,
>)
    ensures
        session::step(r, final(s)@) == pull_step(old(s)@, remote@, branch@),
{
    s.git(list4("pull", "--ff-only", remote, branch))
}

/// Stage files.
pub fn add(s: &mut Session<'_>, files: &Vec<String>) -> (r: Step<Result<(), Error>>)
    ensures
        session::step(r, final(s)@) == add_step(old(s)@, files.deep_view()),
{
    if files.len() == 0 {
        return Ok(Ok(()));
    }
    let mut args = list2("add", "--");
    let mut i: usize = 0;
    assert(args.deep_view() =~= seq!["add"@, "--"@] + files.deep_view().take(0));
    while i < files.len()
        invariant
            i <= files.len(),
            args.deep_view() == seq!["add"@, "--"@] + files.deep_view().take(i as int),
        decreases files.len() - i,
    {
        put(&mut args, files[i].clone());
        i = i + 1;
        assert(args.deep_view() =~= seq!["add"@, "--"@] + files.deep_view().take(i as int));
    }
    assert(files.deep_view().take(i as int) =~= files.deep_view());
    s.git(args)
}

/// Create a commit.
pub fn commit(s: &mut Session<'_>, message: &str) -> (r: Step<Result<(), Error>>)
    ensures
        session::step(r, final(s)@) == commit_step(old(s)@, message@),
{
    s.git(list3("commit", "-m", message))
}

/// Create a commit that may be empty.
pub fn commit_allow_empty(s: &mut Session<'_>, message: &str) -> (r: Step<Result<(), Error>>)
    ensures
        session::step(r, final(s)@) == commit_empty_step(old(s)@, message@),
{
    s.git(list4("commit", "--allow-empty", "-m", message))
}

/// Create a lightweight tag.
pub fn tag(s: &mut Session<'_>, name: &str) -> (r: Step<Result<(), Error>>)
    ensures
        session::step(r, final(s)@) == tag_step(old(s)@, name@),
{
    s.git(list2("tag", name))
}

/// Push a branch or tag.
pub fn push(s: &mut Session<'_>, remote: &str, refspec: &str) -> (r: Step<Result<(), Error>>)
    ensures
        session::step(r, final(s)@) == push_step(old(s)@, remote@, refspec@),
{
    s.git(list3("push", remote, refspec))
}

} // verus!
