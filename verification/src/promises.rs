//! What a release promises, told by what its host is asked and what it answers.

use vstd::prelude::*;

use crate::backend::Backend;
use crate::cli::BackendName;
use crate::cli::BumpArg;
use crate::cli::Cli;
use crate::conversation;
use crate::data;
use crate::data::Node;
use crate::detect;
use crate::error::ErrorOf;
use crate::error::ErrorView;
use crate::git;
use crate::memory;
use crate::session;
use crate::session::Answer;
use crate::session::AskOf;
use crate::session::AskView;
use crate::session::Cursor;
use crate::session::Listed;
use crate::session::Next;
use crate::text;
use crate::version;

verus! {

// ---------------------------------------------------------------------------
// The state of the repository
// ---------------------------------------------------------------------------

/// Is the project inside a git repository?
pub open spec fn repo_ask() -> AskView {
    AskOf::GitOutput(seq!["rev-parse"@, "--is-inside-work-tree"@])
}

/// Is the working tree as it was committed or staged?
pub open spec fn tree_ask() -> AskView {
    AskOf::GitCheck(seq!["diff"@, "--quiet"@])
}

/// Is nothing staged?
pub open spec fn index_ask() -> AskView {
    AskOf::GitCheck(seq!["diff"@, "--cached"@, "--quiet"@])
}

/// What branch is it?
pub open spec fn branch_ask() -> AskView {
    AskOf::GitOutput(seq!["symbolic-ref"@, "--short"@, "HEAD"@])
}

/// The host answers that the project is in a repository, that neither the
/// working tree nor the index has changes, and that the branch is `main`.
pub open spec fn is_ready(host: spec_fn(AskView) -> Answer) -> bool {
    &&& host(repo_ask()) matches Answer::Output(true, _)
    &&& host(tree_ask()) is Yes
    &&& host(index_ask()) is Yes
    &&& host(branch_ask()) matches Answer::Output(true, Ok(t)) && text::trim_both(t@) == "main"@
}

/// A bump, up to its end.
pub open spec fn bumping<B: Backend>(b: B, cli: Cli, enabled: bool) -> spec_fn(Cursor) -> Next<
    Result<(), ErrorView>,
> {
    |c: Cursor| crate::bump_step(b, cli, c, enabled)
}

/// What follows the checks.
spec fn behind_checks<B: Backend>(b: B, cli: Cli, enabled: bool) -> spec_fn((), Cursor) -> Next<
    Result<(), ErrorView>,
> {
    |u: (), c: Cursor|
        crate::pull_step(c, cli.dry_run).and_ok(
            |u: (), c: Cursor|
                b.read_step(c).during(
                    crate::with_backend("read current version"@, b.called()),
                ).and_ok(
                    |current: Seq<char>, c: Cursor|
                        match crate::version::bumped(current, crate::cli::kind_of(cli.bump)) {
                            Err(e) => Next::Done(Err(e), c),
                            Ok(new) => c.say(crate::bump_line(current, new, b.called())).and(
                                |u: (), c: Cursor| crate::release_step(b, cli, c, enabled, new),
                            ),
                        },
                ),
        )
}

/// The checks.
pub open spec fn checking(dry_run: bool) -> spec_fn(Cursor) -> Next<Result<(), ErrorView>> {
    |c: Cursor| crate::validate_step(c, dry_run)
}

spec fn tree_flow(dry_run: bool) -> spec_fn(Cursor) -> Next<Result<(), ErrorView>> {
    |c: Cursor|
        git::clean_step(c).and_ok(
            |clean: bool, c: Cursor|
                git::branch_step(c).and_ok(
                    |branch: Option<Seq<char>>, c: Cursor|
                        if dry_run {
                            crate::warn_state_step(c, clean, branch)
                        } else {
                            Next::Done(crate::state_of(clean, branch), c)
                        },
                ),
        )
}

spec fn index_flow(dry_run: bool, tree: bool) -> spec_fn(Cursor) -> Next<Result<(), ErrorView>> {
    |c: Cursor|
        c.git_check(seq!["diff"@, "--cached"@, "--quiet"@]).and_ok(
            |index: bool, c: Cursor| Next::Done(Ok(tree && index), c),
        ).and_ok(
            |clean: bool, c: Cursor|
                git::branch_step(c).and_ok(
                    |branch: Option<Seq<char>>, c: Cursor|
                        if dry_run {
                            crate::warn_state_step(c, clean, branch)
                        } else {
                            Next::Done(crate::state_of(clean, branch), c)
                        },
                ),
        )
}

spec fn branch_flow(dry_run: bool, clean: bool) -> spec_fn(Cursor) -> Next<Result<(), ErrorView>> {
    |c: Cursor|
        git::branch_step(c).and_ok(
            |branch: Option<Seq<char>>, c: Cursor|
                if dry_run {
                    crate::warn_state_step(c, clean, branch)
                } else {
                    Next::Done(crate::state_of(clean, branch), c)
                },
        )
}

/// The name of the branch by the host.
pub open spec fn branch_by(host: spec_fn(AskView) -> Answer) -> Seq<char> {
    match host(branch_ask()) {
        Answer::Output(true, Ok(t)) => if text::trim_both(t@).len() > 0 {
            text::trim_both(t@)
        } else {
            "<detached>"@
        },
        _ => "<detached>"@,
    }
}

/// The host could carry out each lookup, and the name of the branch is a text.
pub open spec fn looks_up(host: spec_fn(AskView) -> Answer) -> bool {
    &&& host(repo_ask()) is Output
    &&& host(tree_ask()) is Yes || host(tree_ask()) is No
    &&& host(index_ask()) is Yes || host(index_ask()) is No
    &&& host(branch_ask()) matches Answer::Output(ok, t) && (ok ==> t is Ok)
}

/// The checks of a release end as the host's answers say: well if the project
/// is in a repository without changes and on `main`, and otherwise with an error
/// that tells what is wrong, the repository first, then changes, then the branch.
proof fn lemma_checks(c: Cursor, host: spec_fn(AskView) -> Answer) -> (r: (
    Cursor,
    Result<(), ErrorView>,
))
    requires
        conversation::waiting(c),
    ensures
        conversation::waiting(r.0),
        conversation::reaches(
            checking(false),
            c,
            |x: Cursor| Next::Done(r.1, x),
            r.0,
            host,
        ),
        r.1 is Ok <==> is_ready(host),
        looks_up(host) && !is_ready(host) ==> r.1 == Err::<(), ErrorView>(
            if !(host(repo_ask()) matches Answer::Output(true, _)) {
                ErrorOf::NotARepository
            } else if !(host(tree_ask()) is Yes && host(index_ask()) is Yes) {
                ErrorOf::Uncommitted
            } else {
                ErrorOf::NotOnMain(branch_by(host))
            },
        ),
{
    reveal_strlit("main");
    let f = checking(false);
    let a = host(repo_ask());
    let c2 = conversation::told(c, a);
    conversation::lemma_told(c, a);
    if !(a matches Answer::Output(true, _)) {
        let v = f(c.with(seq![a]))->Done_0;
        conversation::lemma_asks(f, |x: Cursor| Next::Done(v, x), c, host, repo_ask());
        (c2, v)
    } else {
        let g = tree_flow(false);
        conversation::lemma_asks(f, g, c, host, repo_ask());
        let b = host(tree_ask());
        let c3 = conversation::told(c2, b);
        conversation::lemma_told(c2, b);
        if b is Failed {
            let v = g(c2.with(seq![b]))->Done_0;
            let end = |x: Cursor| Next::Done(v, x);
            conversation::lemma_asks(g, end, c2, host, tree_ask());
            conversation::lemma_reaches_on(f, c, g, c2, end, c3, host);
            (c3, v)
        } else {
            let h = index_flow(false, b is Yes);
            conversation::lemma_asks(g, h, c2, host, tree_ask());
            conversation::lemma_reaches_on(f, c, g, c2, h, c3, host);
            let i = host(index_ask());
            let c4 = conversation::told(c3, i);
            conversation::lemma_told(c3, i);
            if i is Failed {
                let v = h(c3.with(seq![i]))->Done_0;
                let end = |x: Cursor| Next::Done(v, x);
                conversation::lemma_asks(h, end, c3, host, index_ask());
                conversation::lemma_reaches_on(f, c, h, c3, end, c4, host);
                (c4, v)
            } else {
                let k = branch_flow(false, b is Yes && i is Yes);
                conversation::lemma_asks(h, k, c3, host, index_ask());
                conversation::lemma_reaches_on(f, c, h, c3, k, c4, host);
                let j = host(branch_ask());
                let c5 = conversation::told(c4, j);
                conversation::lemma_told(c4, j);
                let v = k(c4.with(seq![j]))->Done_0;
                let end = |x: Cursor| Next::Done(v, x);
                conversation::lemma_asks(k, end, c4, host, branch_ask());
                conversation::lemma_reaches_on(f, c, k, c4, end, c5, host);
                (c5, v)
            }
        }
    }
}

/// What comes of a bump is what follows the checks, or their error.
proof fn lemma_bump<B: Backend>(
    b: B,
    cli: Cli,
    c: Cursor,
    host: spec_fn(AskView) -> Answer,
    enabled: bool,
) -> (r: (Cursor, Result<(), ErrorView>))
    requires
        conversation::waiting(c),
        !cli.dry_run,
    ensures
        conversation::waiting(r.0),
        r.1 is Ok <==> is_ready(host),
        looks_up(host) && !is_ready(host) ==> r.1 == Err::<(), ErrorView>(
            if !(host(repo_ask()) matches Answer::Output(true, _)) {
                ErrorOf::NotARepository
            } else if !(host(tree_ask()) is Yes && host(index_ask()) is Yes) {
                ErrorOf::Uncommitted
            } else {
                ErrorOf::NotOnMain(branch_by(host))
            },
        ),
        conversation::reaches(
            bumping(b, cli, enabled),
            c,
            match r.1 {
                Ok(u) => conversation::given(behind_checks(b, cli, enabled), u),
                Err(e) => conversation::settled(None::<()>, e),
            },
            r.0,
            host,
        ),
{
    let f = bumping(b, cli, enabled);
    let g = checking(false);
    let then_do = behind_checks(b, cli, enabled);
    let (d, v) = lemma_checks(c, host);
    let e = match v {
        Ok(_) => arbitrary(),
        Err(e) => e,
    };
    let found = match v {
        Ok(u) => Some(u),
        Err(_) => None,
    };
    let end = |x: Cursor| Next::Done(v, x);
    conversation::lemma_same(end, conversation::settled(found, e), d, host);
    conversation::lemma_reaches_on(g, c, end, d, conversation::settled(found, e), d, host);
    conversation::lemma_follows(g, then_do, c, found, e, d, host);
    let h = conversation::followed(g, then_do);
    conversation::lemma_same(f, h, c, host);
    let k = conversation::onward(then_do, found, e);
    conversation::lemma_reaches_on(f, c, h, c, k, d, host);
    let last = match v {
        Ok(u) => conversation::given(then_do, u),
        Err(e) => conversation::settled(None::<()>, e),
    };
    conversation::lemma_same(k, last, d, host);
    conversation::lemma_reaches_on(f, c, k, d, last, d, host);
    (d, v)
}

/// A release changes something only if the host has answered that the project
/// is in a repository, that `git diff --quiet` and `git diff --cached --quiet`
/// succeeded, and that the branch is `main`.
pub proof fn law_only_clean_main_is_released<B: Backend>(
    b: B,
    cli: Cli,
    c: Cursor,
    host: spec_fn(AskView) -> Answer,
    enabled: bool,
    n: nat,
)
    requires
        conversation::waiting(c),
        conversation::stands(bumping(b, cli, enabled), c, host, n) matches Next::Ask(q)
            && !q.harmless(),
    ensures
        host(repo_ask()) matches Answer::Output(true, _),
        host(tree_ask()) is Yes,
        host(index_ask()) is Yes,
        host(branch_ask()) matches Answer::Output(true, Ok(t)) && text::trim_both(t@) == "main"@,
{
    let f = bumping(b, cli, enabled);
    if cli.dry_run {
        crate::lemma_dry_bump_calm(b, cli, c.with(conversation::replies(f, c, host, n)), enabled);
    } else {
        let (d, v) = lemma_bump(b, cli, c, host, enabled);
        if let Err(e) = v {
            let end = conversation::settled(None::<()>, e);
            lemma_stays_harmless(f, c, end, d, host, n);
        }
    }
}

/// On the way to an end there are only looks.
proof fn lemma_stays_harmless<T>(
    f: spec_fn(Cursor) -> Next<T>,
    c: Cursor,
    g: spec_fn(Cursor) -> Next<T>,
    d: Cursor,
    host: spec_fn(AskView) -> Answer,
    n: nat,
)
    requires
        conversation::reaches(f, c, g, d, host),
        g(d) is Done,
    ensures
        conversation::stands(f, c, host, n) matches Next::Ask(q) ==> q.harmless(),
        conversation::stands(f, c, host, n) is Done ==> conversation::stands(f, c, host, n) == g(
            d,
        ),
{
    let m = choose|m: nat| conversation::leads(f, c, g, d, host, m);
    if n < m {
        assert(conversation::stands(f, c, host, n) is Ask);
    } else {
        let k = (n - m) as nat;
        conversation::lemma_leads(f, c, g, d, host, m, k);
        conversation::lemma_silent(g, d, host, k);
        assert(m + k == n);
    }
}

/// Where the host's answers do not allow a release, it is refused before
/// anything is changed: outside of a repository, with changes, or off `main`,
/// and told in this order.
pub proof fn law_others_are_refused<B: Backend>(
    b: B,
    cli: Cli,
    c: Cursor,
    host: spec_fn(AskView) -> Answer,
    enabled: bool,
    n: nat,
)
    requires
        conversation::waiting(c),
        !cli.dry_run,
        looks_up(host),
        !is_ready(host),
    ensures
        conversation::stands(bumping(b, cli, enabled), c, host, n) matches Next::Ask(q)
            ==> q.harmless(),
        conversation::stands(bumping(b, cli, enabled), c, host, n) matches Next::Done(r, _)
            ==> r == Err::<(), ErrorView>(
            if !(host(repo_ask()) matches Answer::Output(true, _)) {
                ErrorOf::NotARepository
            } else if !(host(tree_ask()) is Yes && host(index_ask()) is Yes) {
                ErrorOf::Uncommitted
            } else {
                ErrorOf::NotOnMain(branch_by(host))
            },
        ),
        exists|m: nat| #[trigger]
            conversation::stands(bumping(b, cli, enabled), c, host, m) is Done,
{
    let f = bumping(b, cli, enabled);
    let (d, v) = lemma_bump(b, cli, c, host, enabled);
    let end = conversation::settled(None::<()>, v->Err_0);
    lemma_stays_harmless(f, c, end, d, host, n);
    let m = conversation::lemma_will_end(f, c, end, d, host);
    assert(conversation::stands(f, c, host, m) is Done);
}

/// Where the host's answers allow a release, the first thing that is changed is
/// `main`, which is pulled.
pub proof fn law_pulls_first<B: Backend>(
    b: B,
    cli: Cli,
    c: Cursor,
    host: spec_fn(AskView) -> Answer,
    enabled: bool,
)
    requires
        conversation::waiting(c),
        !cli.dry_run,
        is_ready(host),
    ensures
        exists|n: nat|
            (#[trigger] conversation::stands(bumping(b, cli, enabled), c, host, n)) == Next::<
                Result<(), ErrorView>,
            >::Ask(AskOf::Git(seq!["pull"@, "--ff-only"@, "origin"@, "main"@])),
{
    let f = bumping(b, cli, enabled);
    let (d, v) = lemma_bump(b, cli, c, host, enabled);
    let g = conversation::given(behind_checks(b, cli, enabled), ());
    let n = conversation::lemma_will_end(f, c, g, d, host);
    assert(conversation::stands(f, c, host, n) == g(d));
}

// ---------------------------------------------------------------------------
// What is committed and pushed
// ---------------------------------------------------------------------------

/// The commands that a release is committed, tagged and pushed with.
pub open spec fn git_commands(files: Seq<Seq<char>>, new: Seq<char>) -> Seq<AskView> {
    let message = "chore: bump version to "@ + new;
    let tag = "v"@ + new;
    (if files.len() == 0 {
        seq![AskOf::Git(seq!["commit"@, "--allow-empty"@, "-m"@, message])]
    } else {
        seq![
            AskOf::Git(seq!["add"@, "--"@] + files),
            AskOf::Git(seq!["commit"@, "-m"@, message]),
        ]
    }) + seq![
        AskOf::Git(seq!["tag"@, tag]),
        AskOf::Git(seq!["push"@, "origin"@, "main"@]),
        AskOf::Git(seq!["push"@, "origin"@, tag]),
    ]
}

/// Commit, tag and push.
pub open spec fn committing(files: Seq<Seq<char>>, new: Seq<char>) -> spec_fn(Cursor) -> Next<
    Result<(), ErrorView>,
> {
    |c: Cursor| crate::git_step(c, false, files, new)
}

/// What is left of committing, tagging and pushing, behind the first `k`
/// commands of a release with files.
spec fn rest_flow(files: Seq<Seq<char>>, new: Seq<char>, k: int) -> spec_fn(Cursor) -> Next<
    Result<(), ErrorView>,
> {
    let push_tag = |u: (), c: Cursor|
        git::push_step(c, "origin"@, crate::tag_name(new)).during(
            "git push origin "@ + crate::tag_name(new),
        );
    let push_main = |u: (), c: Cursor|
        git::push_step(c, "origin"@, "main"@).during("git push origin main"@).and_ok(push_tag);
    let tag = |u: (), c: Cursor|
        git::tag_step(c, crate::tag_name(new)).during("git tag"@).and_ok(push_main);
    let commit = |u: (), c: Cursor| crate::commit_step(c, files, new).and_ok(tag);
    if k == 1 {
        |c: Cursor| commit((), c)
    } else if k == 2 {
        |c: Cursor| tag((), c)
    } else if k == 3 {
        |c: Cursor| push_main((), c)
    } else if k == 4 {
        |c: Cursor| push_tag((), c)
    } else {
        |c: Cursor| Next::Done(Ok(()), c)
    }
}

/// All of these requests were answered with yes, in their order.
pub open spec fn all_yes(
    host: spec_fn(Seq<AskView>, AskView) -> Answer,
    past: Seq<AskView>,
    asks: Seq<AskView>,
) -> bool {
    forall|i: int|
        0 <= i < asks.len() ==> host(past + asks.take(i), #[trigger] asks[i]) is Yes
}

/// One command, then the rest.
proof fn lemma_command(
    f: spec_fn(Cursor) -> Next<Result<(), ErrorView>>,
    g: spec_fn(Cursor) -> Next<Result<(), ErrorView>>,
    c: Cursor,
    host: spec_fn(Seq<AskView>, AskView) -> Answer,
    past: Seq<AskView>,
    args: Seq<Seq<char>>,
    n: nat,
) -> (r: (Cursor, nat))
    requires
        conversation::waiting(c),
        memory::ends(f, c, host, past, n) matches Some((Ok(_), _)),
        forall|d: Cursor|
            (#[trigger] f(d)) == (if d.answered() {
                if d.answer() is Yes {
                    g(d.past())
                } else {
                    Next::Done(Err(f(d)->Done_0->Err_0), d.past())
                }
            } else {
                Next::Ask(AskOf::Git(args))
            }),
    ensures
        conversation::waiting(r.0),
        host(past, AskOf::Git(args)) is Yes,
        memory::ends(f, c, host, past, n) == memory::ends(
            g,
            r.0,
            host,
            past.push(AskOf::Git(args)),
            r.1,
        ),
{
    let q: AskView = AskOf::Git(args);
    let a = host(past, q);
    let d = conversation::told(c, a);
    conversation::lemma_told(c, a);
    if a is Yes {
        memory::lemma_one(f, g, c, host, past, q, n);
        (d, (n - 1) as nat)
    } else {
        assert(n > 0);
        assert(memory::ends(f, c.with(seq![a]), host, past.push(q), (n - 1) as nat)
            == memory::ends(f, c, host, past, n));
        assert(f(c.with(seq![a])) is Done);
        (d, 0)
    }
}

/// A release that is committed, tagged and pushed well has run these commands
/// and no others, in this order, and each of them has succeeded.
pub proof fn law_commits_tags_and_pushes(
    c: Cursor,
    host: spec_fn(Seq<AskView>, AskView) -> Answer,
    past: Seq<AskView>,
    files: Seq<Seq<char>>,
    new: Seq<char>,
    n: nat,
)
    requires
        conversation::waiting(c),
        memory::ends(committing(files, new), c, host, past, n) matches Some((Ok(_), _)),
    ensures
        memory::ends(committing(files, new), c, host, past, n) == Some(
            (Ok::<(), ErrorView>(()), past + git_commands(files, new)),
        ),
        all_yes(host, past, git_commands(files, new)),
{
    let f = committing(files, new);
    let message = "chore: bump version to "@ + new;
    let tag = "v"@ + new;
    let all = git_commands(files, new);
    let (c1, n1, past1) = if files.len() == 0 {
        memory::lemma_same_end(f, c, rest_flow(files, new, 1), c, host, past, n);
        (c, n, past)
    } else {
        let args = seq!["add"@, "--"@] + files;
        let (d, m) = lemma_command(f, rest_flow(files, new, 1), c, host, past, args, n);
        (d, m, past.push(AskOf::Git(args)))
    };
    let commit = if files.len() == 0 {
        seq!["commit"@, "--allow-empty"@, "-m"@, message]
    } else {
        seq!["commit"@, "-m"@, message]
    };
    let (c2, n2) = lemma_command(
        rest_flow(files, new, 1),
        rest_flow(files, new, 2),
        c1,
        host,
        past1,
        commit,
        n1,
    );
    let past2 = past1.push(AskOf::Git(commit));
    let (c3, n3) = lemma_command(
        rest_flow(files, new, 2),
        rest_flow(files, new, 3),
        c2,
        host,
        past2,
        seq!["tag"@, tag],
        n2,
    );
    let past3 = past2.push(AskOf::Git(seq!["tag"@, tag]));
    let (c4, n4) = lemma_command(
        rest_flow(files, new, 3),
        rest_flow(files, new, 4),
        c3,
        host,
        past3,
        seq!["push"@, "origin"@, "main"@],
        n3,
    );
    let past4 = past3.push(AskOf::Git(seq!["push"@, "origin"@, "main"@]));
    let (c5, n5) = lemma_command(
        rest_flow(files, new, 4),
        rest_flow(files, new, 5),
        c4,
        host,
        past4,
        seq!["push"@, "origin"@, tag],
        n4,
    );
    let past5 = past4.push(AskOf::Git(seq!["push"@, "origin"@, tag]));
    assert(past5 =~= past + all);
    assert forall|i: int| 0 <= i < all.len() implies host(
        past + all.take(i),
        #[trigger] all[i],
    ) is Yes by {
        let k = all.len() - i;
        if k == 5 {
            assert(past + all.take(i) =~= past);
        } else if k == 4 {
            assert(past + all.take(i) =~= past1);
        } else if k == 3 {
            assert(past + all.take(i) =~= past2);
        } else if k == 2 {
            assert(past + all.take(i) =~= past3);
        } else {
            assert(past + all.take(i) =~= past4);
        }
    }
}

// ---------------------------------------------------------------------------
// Which package manager it is
// ---------------------------------------------------------------------------

/// The host answers that there is such a file.
pub open spec fn has_file(host: spec_fn(AskView) -> Answer, path: Seq<char>) -> bool {
    host(AskOf::IsFile(path)) is Yes
}

/// The host gives a `Project.toml` with a `uuid` and a `version`.
pub open spec fn has_julia(host: spec_fn(AskView) -> Answer) -> bool {
    has_file(host, "Project.toml"@) && (host(AskOf::Read("Project.toml"@)) matches Answer::Text(t)
        && detect::some_line_begins(t@, "uuid"@) && detect::some_line_begins(t@, "version"@))
}

/// The `Project.toml`, if there is one, can be read.
pub open spec fn reads_julia(host: spec_fn(AskView) -> Answer) -> bool {
    has_file(host, "Project.toml"@) ==> host(AskOf::Read("Project.toml"@)) is Text
}

/// The entry is a project or a solution of .NET.
pub open spec fn is_dotnet(entry: Listed) -> bool {
    entry matches Listed::Entry(name, _, _) && (crate::paths::has_extension(name@, "csproj"@)
        || crate::paths::has_extension(name@, "fsproj"@) || crate::paths::has_extension(
        name@,
        "sln"@,
    ))
}

/// The host gives a `Directory.Build.props`, or a project or a solution in the
/// project's directory.
pub open spec fn has_dotnet(host: spec_fn(AskView) -> Answer) -> bool {
    has_file(host, "Directory.Build.props"@) || (host(AskOf::List(""@)) matches Answer::Listing(
        list,
    ) && exists|i: int| 0 <= i < list@.len() && is_dotnet(#[trigger] list@[i]))
}

/// The project's directory, if it matters, can be listed.
pub open spec fn lists_dotnet(host: spec_fn(AskView) -> Answer) -> bool {
    has_file(host, "Directory.Build.props"@) || (host(AskOf::List(""@)) matches Answer::Listing(
        list,
    ) && forall|i: int| 0 <= i < list@.len() ==> (#[trigger] list@[i]) is Entry)
}

/// Detect the package manager.
pub open spec fn detecting() -> spec_fn(Cursor) -> Next<Result<BackendName, ErrorView>> {
    |c: Cursor| detect::detect_step(c)
}

spec fn end_with(v: Result<BackendName, ErrorView>) -> spec_fn(Cursor) -> Next<
    Result<BackendName, ErrorView>,
> {
    |c: Cursor| Next::Done(v, c)
}

/// Is there a file? What follows goes by the answer.
proof fn lemma_is_file(
    f: spec_fn(Cursor) -> Next<Result<BackendName, ErrorView>>,
    path: Seq<char>,
    yes: spec_fn(Cursor) -> Next<Result<BackendName, ErrorView>>,
    no: spec_fn(Cursor) -> Next<Result<BackendName, ErrorView>>,
    c: Cursor,
    host: spec_fn(AskView) -> Answer,
) -> (d: Cursor)
    requires
        conversation::waiting(c),
        forall|d: Cursor|
            (#[trigger] f(d)) == d.is_file(path).and(
                |there: bool, d: Cursor|
                    if there {
                        yes(d)
                    } else {
                        no(d)
                    },
            ),
    ensures
        conversation::waiting(d),
        d.root == c.root,
        conversation::reaches(
            f,
            c,
            if has_file(host, path) {
                yes
            } else {
                no
            },
            d,
            host,
        ),
{
    let q: AskView = AskOf::IsFile(path);
    conversation::lemma_told(c, host(q));
    if has_file(host, path) {
        conversation::lemma_asks(f, yes, c, host, q);
    } else {
        conversation::lemma_asks(f, no, c, host, q);
    }
    conversation::told(c, host(q))
}

proof fn lemma_dotnet_among(entries: Seq<Listed>, i: int)
    requires
        0 <= i,
    ensures
        detect::dotnet_among(entries, i) == Ok::<bool, ErrorView>(true) ==> exists|k: int|
            i <= k < entries.len() && is_dotnet(#[trigger] entries[k]),
        detect::dotnet_among(entries, i) == Ok::<bool, ErrorView>(false) ==> forall|k: int|
            i <= k < entries.len() ==> !is_dotnet(#[trigger] entries[k]),
        (forall|k: int| i <= k < entries.len() ==> (#[trigger] entries[k]) is Entry)
            ==> detect::dotnet_among(entries, i) == Ok::<bool, ErrorView>(
            exists|k: int| i <= k < entries.len() && is_dotnet(#[trigger] entries[k]),
        ),
    decreases entries.len() - i,
{
    if i < entries.len() {
        lemma_dotnet_among(entries, i + 1);
        if is_dotnet(entries[i]) {
            assert(is_dotnet(entries[i]));
        }
    }
}

spec fn go_flow() -> spec_fn(Cursor) -> Next<Result<BackendName, ErrorView>> {
    |c: Cursor|
        c.is_file("go.mod"@).and(
            |there: bool, c: Cursor|
                if there {
                    end_with(Ok(BackendName::Go))(c)
                } else {
                    no_backend()(c)
                },
        )
}

spec fn no_backend() -> spec_fn(Cursor) -> Next<Result<BackendName, ErrorView>> {
    |c: Cursor| Next::Done(Err(ErrorOf::NoBackend(c.root)), c)
}

spec fn behind_dotnet() -> spec_fn(bool, Cursor) -> Next<Result<BackendName, ErrorView>> {
    |dotnet: bool, c: Cursor|
        if dotnet {
            Next::Done(Ok(BackendName::Dotnet), c)
        } else {
            go_flow()(c)
        }
}

spec fn dotnet_flow() -> spec_fn(Cursor) -> Next<Result<BackendName, ErrorView>> {
    |c: Cursor|
        c.is_file("Directory.Build.props"@).and(
            |there: bool, c: Cursor|
                if there {
                    end_with(Ok(BackendName::Dotnet))(c)
                } else {
                    list_flow()(c)
                },
        )
}

spec fn list_flow() -> spec_fn(Cursor) -> Next<Result<BackendName, ErrorView>> {
    |c: Cursor|
        c.list(""@).and_ok(
            |entries: Seq<Listed>, c: Cursor| Next::Done(detect::dotnet_among(entries, 0), c),
        ).and_ok(behind_dotnet())
}

spec fn julia_flow() -> spec_fn(Cursor) -> Next<Result<BackendName, ErrorView>> {
    |c: Cursor|
        c.is_file("Project.toml"@).and(
            |there: bool, c: Cursor|
                if there {
                    project_flow()(c)
                } else {
                    dotnet_flow()(c)
                },
        )
}

spec fn project_flow() -> spec_fn(Cursor) -> Next<Result<BackendName, ErrorView>> {
    |c: Cursor|
        c.read_plainly("Project.toml"@).and_ok(
            |t: Seq<char>, c: Cursor|
                if detect::some_line_begins(t, "uuid"@) && detect::some_line_begins(
                    t,
                    "version"@,
                ) {
                    Next::Done(Ok(BackendName::Julia), c)
                } else {
                    dotnet_flow()(c)
                },
        )
}

spec fn lockfile_flow() -> spec_fn(Cursor) -> Next<Result<BackendName, ErrorView>> {
    |c: Cursor|
        c.is_file("pnpm-lock.yaml"@).and(
            |there: bool, c: Cursor|
                if there {
                    end_with(Ok(BackendName::Pnpm))(c)
                } else {
                    bun_flow()(c)
                },
        )
}

spec fn bun_flow() -> spec_fn(Cursor) -> Next<Result<BackendName, ErrorView>> {
    |c: Cursor|
        c.is_file("bun.lock"@).and(
            |there: bool, c: Cursor|
                if there {
                    end_with(Ok(BackendName::Bun))(c)
                } else {
                    old_bun_flow()(c)
                },
        )
}

spec fn old_bun_flow() -> spec_fn(Cursor) -> Next<Result<BackendName, ErrorView>> {
    |c: Cursor|
        c.is_file("bun.lockb"@).and(
            |there: bool, c: Cursor|
                if there {
                    end_with(Ok(BackendName::Bun))(c)
                } else {
                    end_with(Ok(BackendName::Pnpm))(c)
                },
        )
}

spec fn later_flow() -> spec_fn(Cursor) -> Next<Result<BackendName, ErrorView>> {
    |c: Cursor|
        c.is_file("package.json"@).and(
            |there: bool, c: Cursor|
                if there {
                    lockfile_flow()(c)
                } else {
                    julia_flow()(c)
                },
        )
}

spec fn lock_flow() -> spec_fn(Cursor) -> Next<Result<BackendName, ErrorView>> {
    |c: Cursor|
        c.is_file("uv.lock"@).and(
            |there: bool, c: Cursor|
                if there {
                    end_with(Ok(BackendName::Uv))(c)
                } else {
                    later_flow()(c)
                },
        )
}

spec fn python_flow() -> spec_fn(Cursor) -> Next<Result<BackendName, ErrorView>> {
    |c: Cursor|
        c.is_file("pyproject.toml"@).and(
            |there: bool, c: Cursor|
                if there {
                    lock_flow()(c)
                } else {
                    later_flow()(c)
                },
        )
}

/// What the search behind `package.json` ends with.
proof fn lemma_dotnet(c: Cursor, host: spec_fn(AskView) -> Answer) -> (r: (
    Cursor,
    Result<BackendName, ErrorView>,
))
    requires
        conversation::waiting(c),
    ensures
        conversation::reaches(dotnet_flow(), c, end_with(r.1), r.0, host),
        r.1 == Ok::<BackendName, ErrorView>(BackendName::Dotnet) ==> has_dotnet(host),
        r.1 == Ok::<BackendName, ErrorView>(BackendName::Go) ==> !has_dotnet(host) && has_file(
            host,
            "go.mod"@,
        ),
        r.1 matches Ok(name) ==> name is Dotnet || name is Go,
        lists_dotnet(host) ==> r.1 == (if has_dotnet(host) {
            Ok::<BackendName, ErrorView>(BackendName::Dotnet)
        } else if has_file(host, "go.mod"@) {
            Ok(BackendName::Go)
        } else {
            Err(ErrorOf::NoBackend(c.root))
        }),
{
    let f = dotnet_flow();
    let d = lemma_is_file(
        f,
        "Directory.Build.props"@,
        end_with(Ok(BackendName::Dotnet)),
        list_flow(),
        c,
        host,
    );
    if has_file(host, "Directory.Build.props"@) {
        (d, Ok(BackendName::Dotnet))
    } else {
        let g = list_flow();
        let q: AskView = AskOf::List(""@);
        let a = host(q);
        let d2 = conversation::told(d, a);
        conversation::lemma_told(d, a);
        if let Answer::Listing(list) = a {
            lemma_dotnet_among(list@, 0);
        }
        if a matches Answer::Listing(list) && detect::dotnet_among(list@, 0) == Ok::<
            bool,
            ErrorView,
        >(false) {
            conversation::lemma_asks(g, go_flow(), d, host, q);
            conversation::lemma_reaches_on(f, c, g, d, go_flow(), d2, host);
            let d3 = lemma_is_file(
                go_flow(),
                "go.mod"@,
                end_with(Ok(BackendName::Go)),
                no_backend(),
                d2,
                host,
            );
            let last = if has_file(host, "go.mod"@) {
                end_with(Ok(BackendName::Go))
            } else {
                no_backend()
            };
            conversation::lemma_reaches_on(f, c, go_flow(), d2, last, d3, host);
            if has_file(host, "go.mod"@) {
                (d3, Ok(BackendName::Go))
            } else {
                let v = Err(ErrorOf::NoBackend(c.root));
                conversation::lemma_same(last, end_with(v), d3, host);
                conversation::lemma_reaches_on(f, c, last, d3, end_with(v), d3, host);
                (d3, v)
            }
        } else {
            let v = g(d.with(seq![a]))->Done_0;
            conversation::lemma_asks(g, end_with(v), d, host, q);
            conversation::lemma_reaches_on(f, c, g, d, end_with(v), d2, host);
            (d2, v)
        }
    }
}

/// What the search behind uv ends with.
proof fn lemma_later(c: Cursor, host: spec_fn(AskView) -> Answer) -> (r: (
    Cursor,
    Result<BackendName, ErrorView>,
))
    requires
        conversation::waiting(c),
    ensures
        conversation::reaches(later_flow(), c, end_with(r.1), r.0, host),
        has_file(host, "package.json"@) ==> r.1 == Ok::<BackendName, ErrorView>(
            if !has_file(host, "pnpm-lock.yaml"@) && (has_file(host, "bun.lock"@) || has_file(
                host,
                "bun.lockb"@,
            )) {
                BackendName::Bun
            } else {
                BackendName::Pnpm
            },
        ),
        !has_file(host, "package.json"@) ==> behind_package_json(host, c.root, r.1),
{
    let f = later_flow();
    let d = lemma_is_file(f, "package.json"@, lockfile_flow(), julia_flow(), c, host);
    if has_file(host, "package.json"@) {
        let v = lemma_lockfiles(d, host);
        conversation::lemma_reaches_on(f, c, lockfile_flow(), d, end_with(v.1), v.0, host);
        v
    } else {
        let g = julia_flow();
        let d2 = lemma_is_file(g, "Project.toml"@, project_flow(), dotnet_flow(), d, host);
        if has_file(host, "Project.toml"@) {
            let h = project_flow();
            let q: AskView = AskOf::Read("Project.toml"@);
            let a = host(q);
            let d3 = conversation::told(d2, a);
            conversation::lemma_told(d2, a);
            conversation::lemma_reaches_on(f, c, g, d, h, d2, host);
            if a is Text && !has_julia(host) {
                conversation::lemma_asks(h, dotnet_flow(), d2, host, q);
                conversation::lemma_reaches_on(f, c, h, d2, dotnet_flow(), d3, host);
                let v = lemma_dotnet(d3, host);
                conversation::lemma_reaches_on(f, c, dotnet_flow(), d3, end_with(v.1), v.0, host);
                v
            } else {
                let v = h(d2.with(seq![a]))->Done_0;
                conversation::lemma_asks(h, end_with(v), d2, host, q);
                conversation::lemma_reaches_on(f, c, h, d2, end_with(v), d3, host);
                (d3, v)
            }
        } else {
            conversation::lemma_reaches_on(f, c, g, d, dotnet_flow(), d2, host);
            let v = lemma_dotnet(d2, host);
            conversation::lemma_reaches_on(f, c, dotnet_flow(), d2, end_with(v.1), v.0, host);
            v
        }
    }
}

/// What is detected without a `package.json`: julia, .NET or go, the first that
/// is there, and an error if none is.
pub open spec fn behind_package_json(
    host: spec_fn(AskView) -> Answer,
    root: Seq<char>,
    v: Result<BackendName, ErrorView>,
) -> bool {
    &&& v matches Ok(name) ==> name is Julia || name is Dotnet || name is Go
    &&& v == Ok::<BackendName, ErrorView>(BackendName::Julia) <==> has_julia(host)
    &&& v == Ok::<BackendName, ErrorView>(BackendName::Dotnet) ==> has_dotnet(host)
    &&& v == Ok::<BackendName, ErrorView>(BackendName::Go) ==> !has_dotnet(host) && has_file(
        host,
        "go.mod"@,
    )
    &&& reads_julia(host) && lists_dotnet(host) && !has_julia(host) ==> v == (if has_dotnet(host) {
        Ok::<BackendName, ErrorView>(BackendName::Dotnet)
    } else if has_file(host, "go.mod"@) {
        Ok(BackendName::Go)
    } else {
        Err(ErrorOf::NoBackend(root))
    })
}

proof fn lemma_lockfiles(c: Cursor, host: spec_fn(AskView) -> Answer) -> (r: (
    Cursor,
    Result<BackendName, ErrorView>,
))
    requires
        conversation::waiting(c),
    ensures
        conversation::reaches(lockfile_flow(), c, end_with(r.1), r.0, host),
        r.1 == Ok::<BackendName, ErrorView>(
            if !has_file(host, "pnpm-lock.yaml"@) && (has_file(host, "bun.lock"@) || has_file(
                host,
                "bun.lockb"@,
            )) {
                BackendName::Bun
            } else {
                BackendName::Pnpm
            },
        ),
{
    let f = lockfile_flow();
    let pnpm = end_with(Ok(BackendName::Pnpm));
    let bun = end_with(Ok(BackendName::Bun));
    let d = lemma_is_file(f, "pnpm-lock.yaml"@, pnpm, bun_flow(), c, host);
    if has_file(host, "pnpm-lock.yaml"@) {
        (d, Ok(BackendName::Pnpm))
    } else {
        let d2 = lemma_is_file(bun_flow(), "bun.lock"@, bun, old_bun_flow(), d, host);
        if has_file(host, "bun.lock"@) {
            conversation::lemma_reaches_on(f, c, bun_flow(), d, bun, d2, host);
            (d2, Ok(BackendName::Bun))
        } else {
            conversation::lemma_reaches_on(f, c, bun_flow(), d, old_bun_flow(), d2, host);
            let d3 = lemma_is_file(old_bun_flow(), "bun.lockb"@, bun, pnpm, d2, host);
            if has_file(host, "bun.lockb"@) {
                conversation::lemma_reaches_on(f, c, old_bun_flow(), d2, bun, d3, host);
                (d3, Ok(BackendName::Bun))
            } else {
                conversation::lemma_reaches_on(f, c, old_bun_flow(), d2, pnpm, d3, host);
                (d3, Ok(BackendName::Pnpm))
            }
        }
    }
}

proof fn lemma_detect(c: Cursor, host: spec_fn(AskView) -> Answer) -> (r: (
    Cursor,
    Result<BackendName, ErrorView>,
))
    requires
        conversation::waiting(c),
    ensures
        conversation::reaches(detecting(), c, end_with(r.1), r.0, host),
        detects(host, c.root, r.1),
{
    let f = detecting();
    let cargo = end_with(Ok(BackendName::Cargo));
    let uv = end_with(Ok(BackendName::Uv));
    let d = lemma_is_file(f, "Cargo.toml"@, cargo, python_flow(), c, host);
    if has_file(host, "Cargo.toml"@) {
        (d, Ok(BackendName::Cargo))
    } else {
        let g = python_flow();
        let d2 = lemma_is_file(g, "pyproject.toml"@, lock_flow(), later_flow(), d, host);
        if has_file(host, "pyproject.toml"@) {
            conversation::lemma_reaches_on(f, c, g, d, lock_flow(), d2, host);
            let d3 = lemma_is_file(lock_flow(), "uv.lock"@, uv, later_flow(), d2, host);
            if has_file(host, "uv.lock"@) {
                conversation::lemma_reaches_on(f, c, lock_flow(), d2, uv, d3, host);
                (d3, Ok(BackendName::Uv))
            } else {
                conversation::lemma_reaches_on(f, c, lock_flow(), d2, later_flow(), d3, host);
                let v = lemma_later(d3, host);
                conversation::lemma_reaches_on(f, c, later_flow(), d3, end_with(v.1), v.0, host);
                v
            }
        } else {
            conversation::lemma_reaches_on(f, c, g, d, later_flow(), d2, host);
            let v = lemma_later(d2, host);
            conversation::lemma_reaches_on(f, c, later_flow(), d2, end_with(v.1), v.0, host);
            v
        }
    }
}

/// What is detected, by the files that the host has: cargo with a `Cargo.toml`;
/// else uv with a `pyproject.toml` and a `uv.lock`; else, with a
/// `package.json`, pnpm or bun by the lockfile; else julia, .NET or go.
pub open spec fn detects(
    host: spec_fn(AskView) -> Answer,
    root: Seq<char>,
    v: Result<BackendName, ErrorView>,
) -> bool {
    let cargo = has_file(host, "Cargo.toml"@);
    let uv = has_file(host, "pyproject.toml"@) && has_file(host, "uv.lock"@);
    let node = has_file(host, "package.json"@);
    let bun = !has_file(host, "pnpm-lock.yaml"@) && (has_file(host, "bun.lock"@) || has_file(
        host,
        "bun.lockb"@,
    ));
    &&& v == Ok::<BackendName, ErrorView>(BackendName::Cargo) <==> cargo
    &&& v == Ok::<BackendName, ErrorView>(BackendName::Uv) <==> !cargo && uv
    &&& v == Ok::<BackendName, ErrorView>(BackendName::Bun) <==> !cargo && !uv && node && bun
    &&& v == Ok::<BackendName, ErrorView>(BackendName::Pnpm) <==> !cargo && !uv && node && !bun
    &&& !cargo && !uv && !node ==> behind_package_json(host, root, v)
}

/// Which package manager is detected is decided by the files that the host has,
/// and each is the result exactly if its own files are there and those of all
/// before it are not.
pub proof fn law_files_decide(c: Cursor, host: spec_fn(AskView) -> Answer, n: nat)
    requires
        conversation::waiting(c),
    ensures
        conversation::stands(detecting(), c, host, n) matches Next::Done(v, _) ==> detects(
            host,
            c.root,
            v,
        ),
        conversation::stands(detecting(), c, host, n) matches Next::Ask(q) ==> q.harmless(),
        exists|m: nat| #[trigger] conversation::stands(detecting(), c, host, m) is Done,
{
    let (d, v) = lemma_detect(c, host);
    lemma_stays_harmless(detecting(), c, end_with(v), d, host, n);
    let m = conversation::lemma_will_end(detecting(), c, end_with(v), d, host);
    assert(conversation::stands(detecting(), c, host, m) is Done);
}

// ---------------------------------------------------------------------------
// The configuration
// ---------------------------------------------------------------------------

/// The configuration file of a directory.
pub open spec fn settings_path(dir: Seq<char>, sep: char) -> Seq<char> {
    crate::paths::joined_to(dir, ".release.toml"@, sep)
}

/// The directory has no configuration file and is not the top of a repository.
pub open spec fn is_passed(host: spec_fn(AskView) -> Answer, sep: char, dir: Seq<char>) -> bool {
    host(AskOf::Read(settings_path(dir, sep))) is Missing && !(host(
        AskOf::Exists(crate::paths::joined_to(dir, ".git"@, sep)),
    ) is Yes)
}

/// What a configuration file says: nothing but, perhaps, whether to publish.
pub open spec fn settings_say(t: Seq<char>, v: Result<bool, ErrorView>) -> bool {
    match crate::toml::toml_read(t) {
        Ok(Node::Table(entries)) => {
            let other = exists|k: int|
                0 <= k < entries.len() && (#[trigger] entries[k]).0 != "publish"@;
            let said = data::at(Node::Table(entries), seq!["publish"@]);
            &&& v == Ok::<bool, ErrorView>(false) <==> !other && said == Some(Node::Flag(false))
            &&& v == Ok::<bool, ErrorView>(true) <==> !other && (said is None || said == Some(
                Node::Flag(true),
            ))
        },
        Ok(_) => v == Ok::<bool, ErrorView>(true),
        Err(_) => v is Err,
    }
}

proof fn lemma_unknown(keys: Seq<Seq<char>>, i: int)
    requires
        0 <= i,
    ensures
        crate::config::first_unknown(keys, i) is None <==> forall|k: int|
            i <= k < keys.len() ==> #[trigger] keys[k] == "publish"@,
    decreases keys.len() - i,
{
    if i < keys.len() {
        lemma_unknown(keys, i + 1);
        if keys[i] == "publish"@ && crate::config::first_unknown(keys, i) is None {
            assert forall|k: int| i <= k < keys.len() implies #[trigger] keys[k]
                == "publish"@ by {}
        }
    }
}

proof fn lemma_settings(t: Seq<char>, path: Seq<char>)
    ensures
        settings_say(t, crate::config::flag_in_text(t, path)),
{
    if let Ok(Node::Table(entries)) = crate::toml::toml_read(t) {
        let keys = data::keys_of(entries);
        lemma_unknown(keys, 0);
        crate::toml::lemma_way_one(Node::Table(entries), "publish"@);
        if crate::config::first_unknown(keys, 0) is Some {
            let k = choose|k: int| 0 <= k < keys.len() && #[trigger] keys[k] != "publish"@;
            assert(entries[k].0 != "publish"@);
        } else {
            assert forall|k: int| 0 <= k < entries.len() implies (#[trigger] entries[k]).0
                == "publish"@ by {
                assert(keys[k] == "publish"@);
            }
        }
    }
}

spec fn settings_flow(dirs: Seq<Seq<char>>, i: int) -> spec_fn(Cursor) -> Next<
    Result<bool, ErrorView>,
> {
    |c: Cursor| crate::config::search_from(c, dirs, i)
}

spec fn top_flow(dirs: Seq<Seq<char>>, i: int, sep: char) -> spec_fn(Cursor) -> Next<
    Result<bool, ErrorView>,
> {
    |c: Cursor|
        c.exists_at(crate::paths::joined_to(dirs[i], ".git"@, sep)).and(
            |top: bool, c: Cursor|
                if top {
                    Next::Done(Ok(true), c)
                } else {
                    crate::config::search_from(c, dirs, i + 1)
                },
        )
}

/// What the search for the configuration ends with, from the directory at `i`
/// on.
spec fn is_settled(
    host: spec_fn(AskView) -> Answer,
    sep: char,
    dirs: Seq<Seq<char>>,
    i: int,
    v: Result<bool, ErrorView>,
) -> bool {
    exists|k: int| i <= k <= dirs.len() && #[trigger] is_settled_at(host, sep, dirs, i, k, v)
}

/// The directories from the one at `i` up to the one at `k` are passed, and that
/// one decides; behind the last one, publishing is enabled.
pub open spec fn is_settled_at(
    host: spec_fn(AskView) -> Answer,
    sep: char,
    dirs: Seq<Seq<char>>,
    i: int,
    k: int,
    v: Result<bool, ErrorView>,
) -> bool {
    &&& forall|j: int| i <= j < k ==> is_passed(host, sep, #[trigger] dirs[j])
    &&& if k >= dirs.len() {
        v == Ok::<bool, ErrorView>(true)
    } else {
        match host(AskOf::Read(settings_path(dirs[k], sep))) {
            Answer::Text(t) => settings_say(t@, v),
            Answer::Missing(_) => !is_passed(host, sep, dirs[k]) && v == Ok::<bool, ErrorView>(
                true,
            ),
            _ => v is Err,
        }
    }
}

proof fn lemma_settings_talk(
    c: Cursor,
    host: spec_fn(AskView) -> Answer,
    dirs: Seq<Seq<char>>,
    i: int,
) -> (r: (Cursor, Result<bool, ErrorView>))
    requires
        conversation::waiting(c),
        0 <= i <= dirs.len(),
    ensures
        conversation::reaches(
            settings_flow(dirs, i),
            c,
            |x: Cursor| Next::Done(r.1, x),
            r.0,
            host,
        ),
        is_settled(host, c.sep, dirs, i, r.1),
    decreases dirs.len() - i,
{
    let f = settings_flow(dirs, i);
    if i >= dirs.len() {
        let v = Ok(true);
        conversation::lemma_same(f, |x: Cursor| Next::Done(v, x), c, host);
        assert(is_settled_at(host, c.sep, dirs, i, i, v));
        (c, v)
    } else {
        let path = settings_path(dirs[i], c.sep);
        let q: AskView = AskOf::Read(path);
        let a = host(q);
        let c2 = conversation::told(c, a);
        conversation::lemma_told(c, a);
        if a is Missing {
            let g = top_flow(dirs, i, c.sep);
            conversation::lemma_asks(f, g, c, host, q);
            let r: AskView = AskOf::Exists(crate::paths::joined_to(dirs[i], ".git"@, c.sep));
            let c3 = conversation::told(c2, host(r));
            conversation::lemma_told(c2, host(r));
            if host(r) is Yes {
                let v = Ok(true);
                let end = |x: Cursor| Next::Done(v, x);
                conversation::lemma_asks(g, end, c2, host, r);
                conversation::lemma_reaches_on(f, c, g, c2, end, c3, host);
                assert(is_settled_at(host, c.sep, dirs, i, i, v));
                (c3, v)
            } else {
                let h = settings_flow(dirs, i + 1);
                conversation::lemma_asks(g, h, c2, host, r);
                conversation::lemma_reaches_on(f, c, g, c2, h, c3, host);
                let (d, v) = lemma_settings_talk(c3, host, dirs, i + 1);
                conversation::lemma_reaches_on(f, c, h, c3, |x: Cursor| Next::Done(v, x), d, host);
                let k = choose|k: int|
                    i + 1 <= k <= dirs.len() && #[trigger] is_settled_at(
                        host,
                        c.sep,
                        dirs,
                        i + 1,
                        k,
                        v,
                    );
                assert(is_settled_at(host, c.sep, dirs, i, k, v)) by {
                    assert forall|j: int| i <= j < k implies is_passed(
                        host,
                        c.sep,
                        #[trigger] dirs[j],
                    ) by {}
                }
                (d, v)
            }
        } else {
            let v = f(c.with(seq![a]))->Done_0;
            conversation::lemma_asks(f, |x: Cursor| Next::Done(v, x), c, host, q);
            if let Answer::Text(t) = a {
                lemma_settings(t@, path);
            }
            assert(is_settled_at(host, c.sep, dirs, i, i, v));
            (c2, v)
        }
    }
}

/// Look for the configuration.
pub open spec fn configuring() -> spec_fn(Cursor) -> Next<Result<bool, ErrorView>> {
    |c: Cursor| crate::config::publish_enabled_step(c)
}

/// Whether publishing is enabled is said by the configuration file of the
/// nearest directory that has one, up to the top of the repository: it is unless
/// that file says `publish = false`, and a file with any other key is an error.
pub proof fn law_nearest_settings_decide(
    c: Cursor,
    host: spec_fn(AskView) -> Answer,
    dirs: Vec<String>,
    n: nat,
) -> (k: int)
    requires
        conversation::waiting(c),
        host(AskOf::Ancestors) == Answer::Paths(dirs),
        conversation::stands(configuring(), c, host, n) is Done,
    ensures
        0 <= k <= dirs.deep_view().len(),
        is_settled_at(
            host,
            c.sep,
            dirs.deep_view(),
            0,
            k,
            conversation::stands(configuring(), c, host, n)->Done_0,
        ),
{
    let f = configuring();
    let all = dirs.deep_view();
    let g = settings_flow(all, 0);
    let q: AskView = AskOf::Ancestors;
    let c2 = conversation::told(c, host(q));
    conversation::lemma_told(c, host(q));
    conversation::lemma_asks(f, g, c, host, q);
    let (d, v) = lemma_settings_talk(c2, host, all, 0);
    let end = |x: Cursor| Next::Done(v, x);
    conversation::lemma_reaches_on(f, c, g, c2, end, d, host);
    let m = conversation::lemma_came_through(f, c, end, d, host, n);
    conversation::lemma_silent(end, d, host, m);
    choose|k: int|
        0 <= k <= all.len() && #[trigger] is_settled_at(host, c.sep, all, 0, k, v)
}

// ---------------------------------------------------------------------------
// The order of a release
// ---------------------------------------------------------------------------

/// A step that is a part of something larger asks for what it asks.
pub open spec fn goes_as<T, U>(
    whole: Next<Result<T, ErrorView>>,
    part: Next<Result<U, ErrorView>>,
) -> bool {
    match part {
        Next::Ask(q) => whole == Next::<Result<T, ErrorView>>::Ask(q),
        Next::Done(Err(_), c) => whole matches Next::Done(Err(_), d) && d == c,
        Next::Done(Ok(_), _) => true,
    }
}

/// What is published once a release is pushed.
pub open spec fn publishes_as<B: Backend>(
    b: B,
    cli: Cli,
    c: Cursor,
    enabled: bool,
    whole: Next<Result<(), ErrorView>>,
) -> bool {
    &&& cli.no_publish ==> whole.calm()
    &&& !enabled ==> whole.calm()
    &&& !cli.no_publish && enabled ==> {
        &&& goes_as(whole, b.publishable_step(c))
        &&& b.publishable_step(c) matches Next::Done(Ok(true), d) ==> goes_as(
            whole,
            b.publish_step(d),
        ) && (b.publish_step(d) is Done ==> whole is Done) && (b.publish_step(d) matches Next::Done(
            Ok(_),
            e,
        ) ==> (whole matches Next::Done(Ok(_), x) && x == e))
        &&& b.publishable_step(c) matches Next::Done(Ok(false), _) ==> whole.calm()
    }
}

/// What is committed and published once a lockfile is up to date.
pub open spec fn commits_as<B: Backend>(
    b: B,
    cli: Cli,
    c: Cursor,
    enabled: bool,
    new: Seq<char>,
    whole: Next<Result<(), ErrorView>>,
) -> bool {
    match b.stage_step(c) {
        Next::Ask(q) => whole == Next::<Result<(), ErrorView>>::Ask(q),
        Next::Done(files, d) => {
            &&& goes_as(whole, committing(files, new)(d))
            &&& committing(files, new)(d) matches Next::Done(Ok(_), e) ==> publishes_as(
                b,
                cli,
                e,
                enabled,
                whole,
            )
        },
    }
}

proof fn lemma_publishes_as<B: Backend>(b: B, cli: Cli, c: Cursor, enabled: bool)
    requires
        !cli.dry_run,
    ensures
        publishes_as(
            b,
            cli,
            c,
            enabled,
            if cli.no_publish {
                crate::tell(c, "Skipping publish (--no-publish specified)."@)
            } else {
                crate::publish_step(b, c, cli.dry_run, enabled)
            },
        ),
{
}

/// A release writes the version, then updates the lockfile, then looks for what
/// to stage, then commits that, and only then publishes. Each of these waits for
/// the one before to succeed, and gets the new version where it needs it.
pub proof fn law_one_after_the_other<B: Backend>(
    b: B,
    cli: Cli,
    c: Cursor,
    enabled: bool,
    new: Seq<char>,
)
    requires
        !cli.dry_run,
    ensures
        ({
            let whole = crate::release_step(b, cli, c, enabled, new);
            &&& goes_as(whole, b.write_step(c, new))
            &&& b.write_step(c, new) matches Next::Done(Ok(_), c1) ==> {
                &&& goes_as(whole, b.lock_step(c1))
                &&& b.lock_step(c1) matches Next::Done(Ok(_), c2) ==> commits_as(
                    b,
                    cli,
                    c2,
                    enabled,
                    new,
                    whole,
                )
            }
        }),
{
    let whole = crate::release_step(b, cli, c, enabled, new);
    if let Next::Done(Ok(u), c1) = b.write_step(c, new) {
        assert(crate::write_step(b, c, false, new) == Next::Done(Ok::<(), ErrorView>(u), c1));
        if let Next::Done(Ok(w), c2) = b.lock_step(c1) {
            assert(crate::lock_step(b, c1, false) == Next::Done(Ok::<(), ErrorView>(w), c2));
            if let Next::Done(files, c3) = b.stage_step(c2) {
                if let Next::Done(Ok(x), c4) = crate::git_step(c3, false, files, new) {
                    lemma_publishes_as(b, cli, c4, enabled);
                }
            }
        }
    }
}

/// A bump goes by the version that the backend reads once `main` is up to date:
/// the next one is told and then released.
pub proof fn law_the_next_version_is_released<B: Backend>(
    b: B,
    cli: Cli,
    c: Cursor,
    enabled: bool,
    x: u64,
    y: u64,
    z: u64,
)
    requires
        !cli.dry_run,
    ensures
        ({
            let whole = crate::bump_step(b, cli, c, enabled);
            let current = version::dotted(x as nat, y as nat, z as nat);
            let next = match cli.bump {
                BumpArg::Patch => version::dotted(x as nat, y as nat, (z + 1) as nat),
                BumpArg::Minor => version::dotted(x as nat, (y + 1) as nat, 0),
                BumpArg::Major => version::dotted((x + 1) as nat, 0, 0),
            };
            let room = match cli.bump {
                BumpArg::Patch => z < u64::MAX,
                BumpArg::Minor => y < u64::MAX,
                BumpArg::Major => x < u64::MAX,
            };
            checking(false)(c) matches Next::Done(Ok(_), c1) ==> {
                &&& goes_as(whole, c1.git(seq!["pull"@, "--ff-only"@, "origin"@, "main"@]))
                &&& c1.git(seq!["pull"@, "--ff-only"@, "origin"@, "main"@]) matches Next::Done(
                    Ok(_),
                    c2,
                ) ==> {
                    &&& goes_as(whole, b.read_step(c2))
                    &&& (b.read_step(c2) matches Next::Done(Ok(v), _) && v == current) ==> {
                        let c3 = b.read_step(c2)->Done_1;
                        &&& room && !c3.answered() ==> whole == Next::<
                            Result<(), ErrorView>,
                        >::Ask(
                            AskOf::Say(
                                "Bumping version: "@ + current + " -> "@ + (next + " (backend: "@
                                    + b.called()) + ")"@,
                            ),
                        )
                        &&& room && c3.answered() ==> whole == crate::release_step(
                            b,
                            cli,
                            c3.past(),
                            enabled,
                            next,
                        )
                        &&& !room ==> whole == Next::Done(
                            Err::<(), ErrorView>(ErrorOf::VersionTooLarge(current)),
                            c3,
                        )
                    }
                }
            }
        }),
{
    version::law_bump_counts(x, y, z);
}

/// With `--only-publish`, the flow goes on as publishing does: nothing is asked
/// for but whether there is anything to publish, and, if so, to publish it.
pub proof fn law_only_publish_publishes<B: Backend>(b: B, c: Cursor)
    ensures
        ({
            let whole = crate::publish_step(b, c, false, true);
            &&& goes_as(whole, b.publishable_step(c))
            &&& b.publishable_step(c) matches Next::Done(Ok(true), d) ==> goes_as(
                whole,
                b.publish_step(d),
            )
            &&& b.publishable_step(c) matches Next::Done(Ok(false), d) ==> whole.calm()
        }),
        crate::publish_step(b, c, false, false).calm(),
{
}

// ---------------------------------------------------------------------------
// A dry run
// ---------------------------------------------------------------------------

/// How committing, tagging and pushing is told in a dry run.
pub open spec fn git_lines(files: Seq<Seq<char>>, new: Seq<char>) -> Seq<AskView> {
    seq![
        AskOf::Say(
            if files.len() == 0 {
                "would run: git add (nothing to stage)"@
            } else {
                "would run: git add "@ + text::joined(files, " "@)
            },
        ),
        AskOf::Say("would run: git commit -m \""@ + ("chore: bump version to "@ + new) + "\""@),
        AskOf::Say("would run: git tag "@ + ("v"@ + new)),
        AskOf::Say("would run: git push origin main"@),
        AskOf::Say("would run: git push origin "@ + ("v"@ + new)),
    ]
}

/// Tell what would be committed, tagged and pushed.
pub open spec fn telling(files: Seq<Seq<char>>, new: Seq<char>) -> spec_fn(Cursor) -> Next<
    Result<(), ErrorView>,
> {
    |c: Cursor| crate::git_step(c, true, files, new)
}

spec fn told_flow(files: Seq<Seq<char>>, new: Seq<char>, k: int) -> spec_fn(Cursor) -> Next<
    Result<(), ErrorView>,
> {
    let last = |u: (), c: Cursor|
        crate::tell(c, "would run: git push origin "@ + crate::tag_name(new));
    let main = |u: (), c: Cursor| c.say("would run: git push origin main"@).and(last);
    let tag = |u: (), c: Cursor| c.say("would run: git tag "@ + crate::tag_name(new)).and(main);
    let commit = |u: (), c: Cursor|
        c.say("would run: git commit -m \""@ + crate::commit_message(new) + "\""@).and(tag);
    if k == 1 {
        |c: Cursor| commit((), c)
    } else if k == 2 {
        |c: Cursor| tag((), c)
    } else if k == 3 {
        |c: Cursor| main((), c)
    } else if k == 4 {
        |c: Cursor| last((), c)
    } else {
        |c: Cursor| Next::Done(Ok(()), c)
    }
}

proof fn lemma_line(
    f: spec_fn(Cursor) -> Next<Result<(), ErrorView>>,
    g: spec_fn(Cursor) -> Next<Result<(), ErrorView>>,
    c: Cursor,
    host: spec_fn(Seq<AskView>, AskView) -> Answer,
    past: Seq<AskView>,
    q: AskView,
    n: nat,
) -> (r: (Cursor, nat))
    requires
        conversation::waiting(c),
        memory::ends(f, c, host, past, n) is Some,
        forall|d: Cursor|
            (#[trigger] f(d)) == (if d.answered() {
                g(d.past())
            } else {
                Next::Ask(q)
            }),
    ensures
        conversation::waiting(r.0),
        memory::ends(f, c, host, past, n) == memory::ends(g, r.0, host, past.push(q), r.1),
{
    let a = host(past, q);
    conversation::lemma_told(c, a);
    memory::lemma_one(f, g, c, host, past, q, n);
    (conversation::told(c, a), (n - 1) as nat)
}

/// A dry run tells the commands that a release is committed, tagged and pushed
/// with, in their order, and runs none.
pub proof fn law_dry_run_tells_the_commands(
    c: Cursor,
    host: spec_fn(Seq<AskView>, AskView) -> Answer,
    past: Seq<AskView>,
    files: Seq<Seq<char>>,
    new: Seq<char>,
    n: nat,
)
    requires
        conversation::waiting(c),
        memory::ends(telling(files, new), c, host, past, n) is Some,
    ensures
        memory::ends(telling(files, new), c, host, past, n) == Some(
            (Ok::<(), ErrorView>(()), past + git_lines(files, new)),
        ),
{
    let f = telling(files, new);
    let all = git_lines(files, new);
    let (c1, n1) = lemma_line(f, told_flow(files, new, 1), c, host, past, all[0], n);
    let past1 = past.push(all[0]);
    let (f1, f2) = (told_flow(files, new, 1), told_flow(files, new, 2));
    let (c2, n2) = lemma_line(f1, f2, c1, host, past1, all[1], n1);
    let past2 = past1.push(all[1]);
    let f3 = told_flow(files, new, 3);
    let (c3, n3) = lemma_line(f2, f3, c2, host, past2, all[2], n2);
    let past3 = past2.push(all[2]);
    let f4 = told_flow(files, new, 4);
    let (c4, n4) = lemma_line(f3, f4, c3, host, past3, all[3], n3);
    let past4 = past3.push(all[3]);
    let f5 = told_flow(files, new, 5);
    let (c5, n5) = lemma_line(f4, f5, c4, host, past4, all[4], n4);
    assert(past4.push(all[4]) =~= past + all);
}

/// In a dry run a repository that could not be released from is warned about:
/// first of changes, in the working tree or staged, then of the branch. One
/// that is ready is not.
pub proof fn law_dry_run_warns(c: Cursor, clean: bool, branch: Option<Seq<char>>)
    requires
        !c.answered(),
    ensures
        ({
            let name = match branch {
                Some(name) => name,
                None => "<detached>"@,
            };
            let off_main: AskView = AskOf::Warn(
                "warning: not on main branch (current: "@ + name + ") (ignored in --dry-run)"@,
            );
            crate::warn_state_step(c, clean, branch) == (if !clean {
                Next::Ask(
                    AskOf::Warn("warning: uncommitted changes exist (ignored in --dry-run)"@),
                )
            } else if branch != Some("main"@) {
                Next::Ask(off_main)
            } else {
                Next::Done(Ok::<(), ErrorView>(()), c)
            })
        }),
{
}

// ---------------------------------------------------------------------------
// Names
// ---------------------------------------------------------------------------

/// Each backend is the one that its name says, and is called by it.
pub proof fn law_backends_have_their_names(name: BackendName)
    ensures
        ({
            let b = crate::backends::backend_of(name);
            match name {
                BackendName::Cargo => b is Cargo && b.called() == "cargo"@ && b.lock_command()
                    == Some("cargo generate-lockfile"@),
                BackendName::Pnpm => b is Pnpm && b.called() == "pnpm"@ && b.lock_command() == Some(
                    "pnpm install --lockfile-only"@,
                ),
                BackendName::Bun => b is Bun && b.called() == "bun"@ && b.lock_command() == Some(
                    "bun install"@,
                ),
                BackendName::Go => b is Go && b.called() == "go"@ && b.lock_command() is None,
                BackendName::Dotnet => b is Dotnet && b.called() == "dotnet"@ && b.lock_command()
                    == Some("dotnet restore"@),
                BackendName::Julia => b is Julia && b.called() == "julia"@
                    && b.lock_command() is None,
                BackendName::Uv => b is Uv && b.called() == "uv"@ && b.lock_command() == Some(
                    "uv lock"@,
                ),
            }
        }),
{
}

/// A backend that was asked for is the one that is used, whatever the project
/// holds.
pub proof fn law_requested_backend_is_used(name: BackendName, c: Cursor)
    ensures
        crate::select_step(Some(name), c) == Next::Done(Ok::<BackendName, ErrorView>(name), c),
        crate::select_step(None, c) == detecting()(c),
{
}

/// The command that updates the lockfile of a backend, where one command does.
pub open spec fn locks_by(name: BackendName) -> Option<(Seq<char>, Seq<Seq<char>>)> {
    match name {
        BackendName::Cargo => Some(("cargo"@, seq!["generate-lockfile"@])),
        BackendName::Pnpm => Some(("pnpm"@, seq!["install"@, "--lockfile-only"@])),
        BackendName::Dotnet => Some(("dotnet"@, seq!["restore"@])),
        BackendName::Uv => Some(("uv"@, seq!["lock"@])),
        _ => None,
    }
}

/// The lockfile is updated by the command of the backend, which is run in the
/// main directory, once, and has to succeed; go and julia have none.
pub proof fn law_lockfile_is_updated(
    name: BackendName,
    c: Cursor,
    host: spec_fn(AskView) -> Answer,
    n: nat,
)
    requires
        conversation::waiting(c),
        name != BackendName::Bun,
    ensures
        ({
            let f = |x: Cursor| crate::backends::backend_of(name).lock_step(x);
            match locks_by(name) {
                Some((program, args)) => {
                    let q: AskView = AskOf::Run(""@, program, args);
                    if n == 0 {
                        conversation::stands(f, c, host, n) == Next::<Result<(), ErrorView>>::Ask(q)
                    } else {
                        conversation::stands(f, c, host, n) matches Next::Done(v, _) && v is Ok
                            == session::says_yes(host(q))
                    }
                },
                None => conversation::stands(f, c, host, n) matches Next::Done(Ok(_), _),
            }
        }),
{
    let f = |x: Cursor| crate::backends::backend_of(name).lock_step(x);
    match locks_by(name) {
        Some((program, args)) => {
            let q: AskView = AskOf::Run(""@, program, args);
            conversation::lemma_told(c, host(q));
            conversation::lemma_ends(f, c, host, q, n);
        },
        None => {
            conversation::lemma_silent(f, c, host, n);
        },
    }
}

/// The command that publishes the project of a backend, where one command does
/// whatever the project holds.
pub open spec fn publishes_by(name: BackendName) -> Option<(Seq<char>, Seq<Seq<char>>)> {
    match name {
        BackendName::Dotnet => Some(("dotnet"@, seq!["pack"@, "-c"@, "Release"@])),
        BackendName::Uv => Some(("uv"@, seq!["publish"@])),
        _ => None,
    }
}

/// dotnet and uv publish by one command, which is run in the main directory,
/// once, and has to succeed; go and julia, whose tag is all that is published,
/// by none. What is shown beforehand is that command.
pub proof fn law_publishes_by_its_command(
    name: BackendName,
    c: Cursor,
    host: spec_fn(AskView) -> Answer,
    n: nat,
)
    requires
        conversation::waiting(c),
        name == BackendName::Dotnet || name == BackendName::Uv || name == BackendName::Go || name
            == BackendName::Julia,
    ensures
        ({
            let b = crate::backends::backend_of(name);
            let f = |x: Cursor| b.publish_step(x);
            match publishes_by(name) {
                Some((program, args)) => {
                    let q: AskView = AskOf::Run(""@, program, args);
                    &&& b.publish_preview_step(c) == Next::Done(
                        Ok::<Option<Seq<char>>, ErrorView>(
                            Some(program + " "@ + text::joined(args, " "@)),
                        ),
                        c,
                    )
                    &&& if n == 0 {
                        conversation::stands(f, c, host, n) == Next::<Result<(), ErrorView>>::Ask(q)
                    } else {
                        conversation::stands(f, c, host, n) matches Next::Done(v, _) && v is Ok
                            == session::says_yes(host(q))
                    }
                },
                None => {
                    &&& b.publish_preview_step(c) == Next::Done(
                        Ok::<Option<Seq<char>>, ErrorView>(None),
                        c,
                    )
                    &&& conversation::stands(f, c, host, n) matches Next::Done(Ok(_), _)
                },
            }
        }),
{
    let b = crate::backends::backend_of(name);
    let f = |x: Cursor| b.publish_step(x);
    match publishes_by(name) {
        Some((program, args)) => {
            let q: AskView = AskOf::Run(""@, program, args);
            conversation::lemma_told(c, host(q));
            conversation::lemma_ends(f, c, host, q, n);
            lemma_commands_joined();
        },
        None => {
            conversation::lemma_silent(f, c, host, n);
        },
    }
}

proof fn lemma_commands_joined()
    ensures
        "uv"@ + " "@ + text::joined(seq!["publish"@], " "@) == "uv publish"@,
        "dotnet"@ + " "@ + text::joined(seq!["pack"@, "-c"@, "Release"@], " "@)
            == "dotnet pack -c Release"@,
{
    reveal_strlit("uv");
    reveal_strlit(" ");
    reveal_strlit("publish");
    reveal_strlit("uv publish");
    reveal_strlit("dotnet");
    reveal_strlit("pack");
    reveal_strlit("-c");
    reveal_strlit("Release");
    reveal_strlit("dotnet pack -c Release");
    reveal_with_fuel(text::joined, 4);
    assert("uv"@ + " "@ + text::joined(seq!["publish"@], " "@) =~= "uv publish"@);
    let args = seq!["pack"@, "-c"@, "Release"@];
    assert(text::joined(args, " "@) =~= "pack"@ + " "@ + "-c"@ + " "@ + "Release"@);
    assert("dotnet"@ + " "@ + text::joined(args, " "@) =~= "dotnet pack -c Release"@);
}

// ---------------------------------------------------------------------------
// go
// ---------------------------------------------------------------------------

/// The version of a go module is that of its latest tag, without the `v`, and
/// `0.0.0` if there is none.
pub proof fn law_go_reads_the_latest_tag(
    go: crate::backends::go::Go,
    c: Cursor,
    host: spec_fn(AskView) -> Answer,
    n: nat,
)
    requires
        conversation::waiting(c),
        conversation::stands(|x: Cursor| go.read_step(x), c, host, n) is Done,
    ensures
        ({
            let v = conversation::stands(|x: Cursor| go.read_step(x), c, host, n)->Done_0;
            match host(
                AskOf::GitOutput(
                    seq!["describe"@, "--tags"@, "--abbrev=0"@, "--match"@, "v*"@],
                ),
            ) {
                Answer::Output(true, Ok(t)) => forall|version: Seq<char>|
                    text::trim_both(t@) == #[trigger] (seq!['v'] + version) ==> v == Ok::<
                        Seq<char>,
                        ErrorView,
                    >(version),
                Answer::Output(false, _) => v == Ok::<Seq<char>, ErrorView>("0.0.0"@),
                _ => true,
            }
        }),
{
    let f = |x: Cursor| go.read_step(x);
    let q: AskView = AskOf::GitOutput(
        seq!["describe"@, "--tags"@, "--abbrev=0"@, "--match"@, "v*"@],
    );
    let a = host(q);
    conversation::lemma_told(c, a);
    conversation::lemma_ends(f, c, host, q, n);
    if let Answer::Output(true, Ok(t)) = a {
        assert forall|version: Seq<char>| text::trim_both(t@) == #[trigger] (seq!['v'] + version)
            implies conversation::stands(f, c, host, n)->Done_0 == Ok::<Seq<char>, ErrorView>(
            version,
        ) by {
            assert((seq!['v'] + version).skip(1) =~= version);
        }
    }
}

} // verus!
