//! Bumps the version of a project, commits, tags, pushes and publishes it, for
//! a handful of package managers.

pub mod backend;
pub mod backends;
pub mod cli;
pub mod config;
pub mod conversation;
pub mod data;
pub mod detect;
pub mod error;
pub mod git;
pub mod graph;
pub mod json;
pub mod memory;
pub mod packages;
pub mod paths;
pub mod promises;
pub mod session;
pub mod text;
pub mod toml;
pub mod version;

use vstd::prelude::*;

use crate::backend::Backend;
use crate::backend::BumpKind;
use crate::backends::AnyBackend;
use crate::cli::BackendName;
use crate::cli::Cli;
use crate::error::Error;
use crate::error::ErrorOf;
use crate::error::ErrorView;
use crate::session::during;
use crate::session::Answer;
use crate::session::Cursor;
use crate::session::Model;
use crate::session::Next;
use crate::session::Session;
use crate::session::Step;
use crate::text::join;
use crate::text::own;
use crate::text::plus;
use crate::text::plus3;
use crate::text::same;

verus! {

// ---------------------------------------------------------------------------
// The flow
// ---------------------------------------------------------------------------

/// Print a line and go on.
pub open spec fn tell(c: Cursor, line: Seq<char>) -> Next<Result<(), ErrorView>> {
    c.say(line).and(|u: (), c: Cursor| Next::Done(Ok(()), c))
}

/// How a branch is called.
pub open spec fn branch_name(branch: Option<Seq<char>>) -> Seq<char> {
    match branch {
        Some(name) => name,
        None => "<detached>"@,
    }
}

/// Warn about a state of the repository in which a release would be refused.
pub open spec fn warn_state_step(c: Cursor, clean: bool, branch: Option<Seq<char>>) -> Next<
    Result<(), ErrorView>,
> {
    warn_unless(
        c,
        clean,
        "warning: uncommitted changes exist (ignored in --dry-run)"@,
    ).and(
        |u: (), c: Cursor|
            warn_unless(
                c,
                branch == Some("main"@),
                "warning: not on main branch (current: "@ + branch_name(branch)
                    + ") (ignored in --dry-run)"@,
            ).and(|u: (), c: Cursor| Next::Done(Ok(()), c)),
    )
}

/// Warn unless all is well.
pub open spec fn warn_unless(c: Cursor, well: bool, line: Seq<char>) -> Next<()> {
    if well {
        Next::Done((), c)
    } else {
        c.warn(line)
    }
}

/// Whether a repository in this state can be released from.
pub open spec fn state_of(clean: bool, branch: Option<Seq<char>>) -> Result<(), ErrorView> {
    if !clean {
        Err(ErrorOf::Uncommitted)
    } else if branch != Some("main"@) {
        Err(ErrorOf::NotOnMain(branch_name(branch)))
    } else {
        Ok(())
    }
}

/// The project has to be in a git repository that is clean and on `main`. In a
/// dry run only the repository has to be there.
pub open spec fn validate_step(c: Cursor, dry_run: bool) -> Next<Result<(), ErrorView>> {
    git::inside_repo_step(c).and_ok(
        |inside: bool, c: Cursor|
            if !inside {
                Next::Done(Err(ErrorOf::NotARepository), c)
            } else {
                git::clean_step(c).and_ok(
                    |clean: bool, c: Cursor|
                        git::branch_step(c).and_ok(
                            |branch: Option<Seq<char>>, c: Cursor|
                                if dry_run {
                                    warn_state_step(c, clean, branch)
                                } else {
                                    Next::Done(state_of(clean, branch), c)
                                },
                        ),
                )
            },
    )
}

/// What is done with a package manager, as it is told when it fails.
pub open spec fn with_backend(what: Seq<char>, name: Seq<char>) -> Seq<char> {
    what + " with backend '"@ + name + "'"@
}

/// Bring `main` up to date.
pub open spec fn pull_step(c: Cursor, dry_run: bool) -> Next<Result<(), ErrorView>> {
    if dry_run {
        tell(c, "would run: git pull --ff-only origin main"@)
    } else {
        git::pull_step(c, "origin"@, "main"@).during("git pull --ff-only origin main"@)
    }
}

/// Print, one per line, the files from the one at `i` on that would be written.
pub open spec fn tell_writes_step(c: Cursor, files: Seq<Seq<char>>, i: int) -> Next<
    Result<(), ErrorView>,
>
    decreases files.len() - i,
{
    if i >= files.len() {
        Next::Done(Ok(()), c)
    } else {
        c.say("would write: "@ + files[i]).and(
            |u: (), c: Cursor| tell_writes_step(c, files, i + 1),
        )
    }
}

/// Write the new version.
pub open spec fn write_step<B: Backend>(b: B, c: Cursor, dry_run: bool, new: Seq<char>) -> Next<
    Result<(), ErrorView>,
> {
    if dry_run {
        c.say("would write: manifest version -> "@ + new).and(
            |u: (), c: Cursor|
                b.writes_preview_step(c, new).during(
                    with_backend("preview additional writes"@, b.called()),
                ).and_ok(|files: Seq<Seq<char>>, c: Cursor| tell_writes_step(c, files, 0)),
        )
    } else {
        b.write_step(c, new).during(with_backend("write new version"@, b.called()))
    }
}

/// Update the lockfile.
pub open spec fn lock_step<B: Backend>(b: B, c: Cursor, dry_run: bool) -> Next<
    Result<(), ErrorView>,
> {
    if dry_run {
        match b.lock_command() {
            Some(command) => tell(c, "would run: "@ + command),
            None => Next::Done(Ok(()), c),
        }
    } else {
        b.lock_step(c).during(with_backend("update lockfile"@, b.called()))
    }
}

/// The message of the commit.
pub open spec fn commit_message(new: Seq<char>) -> Seq<char> {
    "chore: bump version to "@ + new
}

/// The name of the tag.
pub open spec fn tag_name(new: Seq<char>) -> Seq<char> {
    "v"@ + new
}

/// What staging the files would run.
pub open spec fn shown_add(files: Seq<Seq<char>>) -> Seq<char> {
    if files.len() == 0 {
        "would run: git add (nothing to stage)"@
    } else {
        "would run: git add "@ + text::joined(files, " "@)
    }
}

/// Show how the release would be committed, tagged and pushed.
pub open spec fn tell_git_step(c: Cursor, files: Seq<Seq<char>>, new: Seq<char>) -> Next<
    Result<(), ErrorView>,
> {
    c.say(shown_add(files)).and(
        |u: (), c: Cursor|
            c.say("would run: git commit -m \""@ + commit_message(new) + "\""@).and(
                |u: (), c: Cursor|
                    c.say("would run: git tag "@ + tag_name(new)).and(
                        |u: (), c: Cursor|
                            c.say("would run: git push origin main"@).and(
                                |u: (), c: Cursor|
                                    tell(c, "would run: git push origin "@ + tag_name(new)),
                            ),
                    ),
            ),
    )
}

/// Commit the files; an empty commit, where there are none, for the tag to be
/// put on.
pub open spec fn commit_step(c: Cursor, files: Seq<Seq<char>>, new: Seq<char>) -> Next<
    Result<(), ErrorView>,
> {
    if files.len() == 0 {
        git::commit_empty_step(c, commit_message(new)).during("git commit --allow-empty"@)
    } else {
        git::commit_step(c, commit_message(new)).during("git commit"@)
    }
}

/// Stage, commit, tag and push the release.
pub open spec fn git_step(c: Cursor, dry_run: bool, files: Seq<Seq<char>>, new: Seq<char>) -> Next<
    Result<(), ErrorView>,
> {
    if dry_run {
        tell_git_step(c, files, new)
    } else {
        git::add_step(c, files).during("git add"@).and_ok(
            |u: (), c: Cursor|
                commit_step(c, files, new).and_ok(
                    |u: (), c: Cursor|
                        git::tag_step(c, tag_name(new)).during("git tag"@).and_ok(
                            |u: (), c: Cursor|
                                git::push_step(c, "origin"@, "main"@).during(
                                    "git push origin main"@,
                                ).and_ok(
                                    |u: (), c: Cursor|
                                        git::push_step(c, "origin"@, tag_name(new)).during(
                                            "git push origin "@ + tag_name(new),
                                        ),
                                ),
                        ),
                ),
        )
    }
}

/// Publish the release, unless the project's configuration or its manifests
/// say otherwise.
pub open spec fn publish_step<B: Backend>(b: B, c: Cursor, dry_run: bool, enabled: bool) -> Next<
    Result<(), ErrorView>,
> {
    if !enabled {
        tell(c, "Skipping publish: disabled by .release.toml."@)
    } else {
        b.publishable_step(c).during(
            with_backend("check publishability"@, b.called()),
        ).and_ok(
            |publishable: bool, c: Cursor|
                if !publishable {
                    tell(
                        c,
                        "Skipping publish: no publishable packages found (backend: "@
                            + b.called() + ")."@,
                    )
                } else if dry_run {
                    b.publish_preview_step(c).and_ok(
                        |command: Option<Seq<char>>, c: Cursor|
                            match command {
                                Some(command) => tell(c, "would run: "@ + command),
                                None => tell(
                                    c,
                                    "No publish step for backend '"@ + b.called() + "'."@,
                                ),
                            },
                    )
                } else {
                    b.publish_step(c).during(with_backend("publish"@, b.called()))
                },
        )
    }
}

/// What follows the bump: write, lock, commit, tag, push, publish.
pub open spec fn release_step<B: Backend>(
    b: B,
    cli: Cli,
    c: Cursor,
    enabled: bool,
    new: Seq<char>,
) -> Next<Result<(), ErrorView>> {
    write_step(b, c, cli.dry_run, new).and_ok(
        |u: (), c: Cursor|
            lock_step(b, c, cli.dry_run).and_ok(
                |u: (), c: Cursor|
                    b.stage_step(c).and(
                        |files: Seq<Seq<char>>, c: Cursor|
                            git_step(c, cli.dry_run, files, new).and_ok(
                                |u: (), c: Cursor|
                                    if cli.no_publish {
                                        tell(c, "Skipping publish (--no-publish specified)."@)
                                    } else {
                                        publish_step(b, c, cli.dry_run, enabled)
                                    },
                            ),
                    ),
            ),
    )
}

/// The line that tells the bump.
pub open spec fn bump_line(current: Seq<char>, new: Seq<char>, name: Seq<char>) -> Seq<char> {
    "Bumping version: "@ + current + " -> "@ + (new + " (backend: "@ + name) + ")"@
}

/// Bump and release: with the repository in order and up to date, raise the
/// current version.
pub open spec fn bump_step<B: Backend>(b: B, cli: Cli, c: Cursor, enabled: bool) -> Next<
    Result<(), ErrorView>,
> {
    validate_step(c, cli.dry_run).and_ok(
        |u: (), c: Cursor|
            pull_step(c, cli.dry_run).and_ok(
                |u: (), c: Cursor|
                    b.read_step(c).during(
                        with_backend("read current version"@, b.called()),
                    ).and_ok(
                        |current: Seq<char>, c: Cursor|
                            match version::bumped(current, cli::kind_of(cli.bump)) {
                                Err(e) => Next::Done(Err(e), c),
                                Ok(new) => c.say(bump_line(current, new, b.called())).and(
                                    |u: (), c: Cursor| release_step(b, cli, c, enabled, new),
                                ),
                            },
                    ),
            ),
    )
}

/// The package manager to use: the one asked for, or the one of the project.
pub open spec fn select_step(requested: Option<BackendName>, c: Cursor) -> Next<
    Result<BackendName, ErrorView>,
> {
    match requested {
        Some(name) => Next::Done(Ok(name), c),
        None => detect::detect_step(c),
    }
}

/// All that the tool does.
pub open spec fn run_step(cli: Cli, c: Cursor) -> Next<Result<(), ErrorView>> {
    select_step(cli.backend, c).and_ok(
        |name: BackendName, c: Cursor|
            config::publish_enabled_step(c).and_ok(
                |enabled: bool, c: Cursor|
                    if cli.only_publish {
                        publish_step(backends::backend_of(name), c, cli.dry_run, enabled)
                    } else {
                        bump_step(backends::backend_of(name), cli, c, enabled)
                    },
            ),
    )
}

// ---------------------------------------------------------------------------
// What the flow promises
// ---------------------------------------------------------------------------

proof fn lemma_search_calm(c: Cursor, dirs: Seq<Seq<char>>, i: int)
    ensures
        config::search_from(c, dirs, i).calm(),
    decreases dirs.len() - i,
{
    if i < dirs.len() {
        lemma_search_calm(c.past().past(), dirs, i + 1);
    }
}

/// To choose the package manager and to read the configuration is harmless.
pub proof fn law_start_is_harmless(cli: Cli, c: Cursor)
    ensures
        select_step(cli.backend, c).calm(),
        config::publish_enabled_step(c).calm(),
{
    if let Next::Done(Ok(dirs), c2) = c.ancestors() {
        lemma_search_calm(c2, dirs, 0);
    }
}

proof fn lemma_tell_writes_calm(c: Cursor, files: Seq<Seq<char>>, i: int)
    ensures
        tell_writes_step(c, files, i).calm(),
    decreases files.len() - i,
{
    if i < files.len() {
        lemma_tell_writes_calm(c.past(), files, i + 1);
    }
}

proof fn lemma_dry_write_calm<B: Backend>(b: B, c: Cursor, new: Seq<char>)
    ensures
        write_step(b, c, true, new).calm(),
{
    b.law_asks(c.past(), new);
    if let Next::Done(Ok(files), c2) = b.writes_preview_step(c.past(), new) {
        lemma_tell_writes_calm(c2, files, 0);
    }
}

proof fn lemma_dry_publish_calm<B: Backend>(b: B, c: Cursor, enabled: bool)
    ensures
        publish_step(b, c, true, enabled).calm(),
{
    b.law_asks(c, Seq::empty());
    if let Next::Done(Ok(publishable), c2) = b.publishable_step(c) {
        b.law_asks(c2, Seq::empty());
    }
}

proof fn lemma_dry_release_calm<B: Backend>(
    b: B,
    cli: Cli,
    c: Cursor,
    enabled: bool,
    new: Seq<char>,
)
    requires
        cli.dry_run,
    ensures
        release_step(b, cli, c, enabled, new).calm(),
{
    lemma_dry_write_calm(b, c, new);
    if let Next::Done(Ok(u), c1) = write_step(b, c, true, new) {
        if let Next::Done(Ok(u), c2) = lock_step(b, c1, true) {
            b.law_asks(c2, new);
            if let Next::Done(files, c3) = b.stage_step(c2) {
                if let Next::Done(Ok(u), c4) = git_step(c3, true, files, new) {
                    lemma_dry_publish_calm(b, c4, enabled);
                }
            }
        }
    }
}

proof fn lemma_dry_bump_calm<B: Backend>(b: B, cli: Cli, c: Cursor, enabled: bool)
    requires
        cli.dry_run,
    ensures
        bump_step(b, cli, c, enabled).calm(),
{
    if let Next::Done(Ok(u), c1) = validate_step(c, true) {
        if let Next::Done(Ok(u), c2) = pull_step(c1, true) {
            b.law_asks(c2, Seq::empty());
            if let Next::Done(Ok(current), c3) = b.read_step(c2) {
                if let Ok(new) = version::bumped(current, cli::kind_of(cli.bump)) {
                    lemma_dry_release_calm(b, cli, c3.past(), enabled, new);
                }
            }
        }
    }
}

/// In a dry run no file is written, no program is run but `git`, to look
/// something up, and the repository stays as it is: all that the flow ever asks
/// for is a look or a line to be printed.
pub proof fn law_dry_run_is_harmless(cli: Cli, c: Cursor)
    requires
        cli.dry_run,
    ensures
        run_step(cli, c).calm(),
{
    law_start_is_harmless(cli, c);
    if let Next::Done(Ok(name), c1) = select_step(cli.backend, c) {
        law_start_is_harmless(cli, c1);
        if let Next::Done(Ok(enabled), c2) = config::publish_enabled_step(c1) {
            lemma_dry_publish_calm(backends::backend_of(name), c2, enabled);
            lemma_dry_bump_calm(backends::backend_of(name), cli, c2, enabled);
        }
    }
}

/// With `--only-publish` no file is written, and nothing is committed, tagged
/// or pushed.
pub proof fn law_only_publish_keeps(cli: Cli, c: Cursor)
    requires
        cli.only_publish,
    ensures
        run_step(cli, c).keeps(),
{
    law_start_is_harmless(cli, c);
    if let Next::Done(Ok(name), c1) = select_step(cli.backend, c) {
        law_start_is_harmless(cli, c1);
        if let Next::Done(Ok(enabled), c2) = config::publish_enabled_step(c1) {
            let b = backends::backend_of(name);
            b.law_asks(c2, Seq::empty());
            if let Next::Done(Ok(publishable), c3) = b.publishable_step(c2) {
                b.law_asks(c3, Seq::empty());
            }
        }
    }
}

/// What is left once the release is written, locked, committed, tagged and
/// pushed; `None` if it does not get there.
pub open spec fn pushed<B: Backend>(b: B, cli: Cli, c: Cursor, new: Seq<char>) -> Option<Cursor> {
    match write_step(b, c, cli.dry_run, new) {
        Next::Done(Ok(_), c) => match lock_step(b, c, cli.dry_run) {
            Next::Done(Ok(_), c) => match b.stage_step(c) {
                Next::Done(files, c) => match git_step(c, cli.dry_run, files, new) {
                    Next::Done(Ok(_), c) => Some(c),
                    _ => None,
                },
                _ => None,
            },
            _ => None,
        },
        _ => None,
    }
}

/// Nothing is published before the release is committed, tagged and pushed: up
/// to then no program is run but the one that updates the lockfile.
pub proof fn law_publishes_last<B: Backend>(
    b: B,
    cli: Cli,
    c: Cursor,
    enabled: bool,
    new: Seq<char>,
)
    ensures
        match pushed(b, cli, c, new) {
            Some(c2) => release_step(b, cli, c, enabled, new) == if cli.no_publish {
                tell(c2, "Skipping publish (--no-publish specified)."@)
            } else {
                publish_step(b, c2, cli.dry_run, enabled)
            },
            None => release_step(b, cli, c, enabled, new).runs_only(b.lock_command()),
        },
{
    b.law_asks(c, new);
    if cli.dry_run {
        lemma_dry_write_calm(b, c, new);
    }
    if let Next::Done(Ok(u), c1) = write_step(b, c, cli.dry_run, new) {
        b.law_asks(c1, new);
        if let Next::Done(Ok(u), c2) = lock_step(b, c1, cli.dry_run) {
            b.law_asks(c2, new);
        }
    }
}

/// With `--no-publish`, or with publishing disabled in the configuration,
/// nothing is published: no program is run but the one that updates the
/// lockfile.
pub proof fn law_unpublished<B: Backend>(b: B, cli: Cli, c: Cursor, enabled: bool)
    requires
        cli.no_publish || !enabled,
    ensures
        bump_step(b, cli, c, enabled).runs_only(b.lock_command()),
        !enabled ==> publish_step(b, c, cli.dry_run, enabled).calm(),
{
    if let Next::Done(Ok(u), c1) = validate_step(c, cli.dry_run) {
        if let Next::Done(Ok(u), c2) = pull_step(c1, cli.dry_run) {
            b.law_asks(c2, Seq::empty());
            if let Next::Done(Ok(current), c3) = b.read_step(c2) {
                if let Ok(new) = version::bumped(current, cli::kind_of(cli.bump)) {
                    law_publishes_last(b, cli, c3.past(), enabled, new);
                }
            }
        }
    }
}

/// The project is in a git repository that has no uncommitted changes and is
/// on `main`.
pub open spec fn in_order(c: Cursor) -> bool {
    match git::inside_repo_step(c) {
        Next::Done(Ok(true), c) => match git::clean_step(c) {
            Next::Done(Ok(true), c) => match git::branch_step(c) {
                Next::Done(Ok(branch), _) => branch == Some("main"@),
                _ => false,
            },
            _ => false,
        },
        _ => false,
    }
}

/// Nothing is changed unless the project is in a git repository that has no
/// uncommitted changes and is on `main`.
pub proof fn law_release_needs_clean_main<B: Backend>(
    b: B,
    cli: Cli,
    c: Cursor,
    enabled: bool,
)
    requires
        !bump_step(b, cli, c, enabled).calm(),
    ensures
        in_order(c),
{
    if cli.dry_run {
        lemma_dry_bump_calm(b, cli, c, enabled);
    }
}

/// Where a release is refused for the state of the repository, the flow ends
/// with that error.
pub proof fn law_refused<B: Backend>(b: B, cli: Cli, c: Cursor, enabled: bool)
    ensures
        validate_step(c, cli.dry_run) matches Next::Done(Err(e), c2) ==> bump_step(
            b,
            cli,
            c,
            enabled,
        ) == Next::<Result<(), ErrorView>>::Done(Err(e), c2),
{
}

/// A configuration that is not valid is an error whatever the flags, and is
/// told before anything else is looked at.
pub proof fn law_configuration_first(cli: Cli, c: Cursor)
    ensures
        select_step(cli.backend, c) matches Next::Done(Ok(name), c1)
            ==> config::publish_enabled_step(c1) matches Next::Done(Err(e), c2) ==> run_step(
            cli,
            c,
        ) == Next::<Result<(), ErrorView>>::Done(Err(e), c2),
{
}

// ---------------------------------------------------------------------------
// One conversation
// ---------------------------------------------------------------------------

proof fn lemma_search_kept(c: Cursor, dirs: Seq<Seq<char>>, i: int, more: Seq<Answer>)
    ensures
        config::search_from(c, dirs, i).kept(config::search_from(c.with(more), dirs, i), more),
    decreases dirs.len() - i,
{
    broadcast use session::lemma_past_with;

    if i < dirs.len() {
        lemma_search_kept(c.past().past(), dirs, i + 1, more);
    }
}

proof fn lemma_start_kept(cli: Cli, c: Cursor, more: Seq<Answer>)
    ensures
        select_step(cli.backend, c).kept(select_step(cli.backend, c.with(more)), more),
        config::publish_enabled_step(c).kept(config::publish_enabled_step(c.with(more)), more),
{
    broadcast use session::lemma_past_with;

    if let Next::Done(Ok(dirs), c2) = c.ancestors() {
        lemma_search_kept(c2, dirs, 0, more);
    }
}

proof fn lemma_checks_kept(c: Cursor, dry_run: bool, more: Seq<Answer>)
    ensures
        validate_step(c, dry_run).kept(validate_step(c.with(more), dry_run), more),
        pull_step(c, dry_run).kept(pull_step(c.with(more), dry_run), more),
{
    broadcast use session::lemma_past_with;

}

proof fn lemma_tell_writes_kept(c: Cursor, files: Seq<Seq<char>>, i: int, more: Seq<Answer>)
    ensures
        tell_writes_step(c, files, i).kept(tell_writes_step(c.with(more), files, i), more),
    decreases files.len() - i,
{
    broadcast use session::lemma_past_with;

    if i < files.len() {
        lemma_tell_writes_kept(c.past(), files, i + 1, more);
    }
}

proof fn lemma_write_kept<B: Backend>(
    b: B,
    c: Cursor,
    dry_run: bool,
    new: Seq<char>,
    more: Seq<Answer>,
)
    ensures
        write_step(b, c, dry_run, new).kept(write_step(b, c.with(more), dry_run, new), more),
        lock_step(b, c, dry_run).kept(lock_step(b, c.with(more), dry_run), more),
{
    broadcast use session::lemma_past_with;

    b.law_kept(c, new, more);
    b.law_kept(c.past(), new, more);
    if let Next::Done(Ok(files), c2) = b.writes_preview_step(c.past(), new) {
        lemma_tell_writes_kept(c2, files, 0, more);
    }
}

proof fn lemma_git_kept(
    c: Cursor,
    dry_run: bool,
    files: Seq<Seq<char>>,
    new: Seq<char>,
    more: Seq<Answer>,
)
    ensures
        git_step(c, dry_run, files, new).kept(git_step(c.with(more), dry_run, files, new), more),
{
    broadcast use session::lemma_past_with;

}

proof fn lemma_publish_kept<B: Backend>(
    b: B,
    c: Cursor,
    dry_run: bool,
    enabled: bool,
    more: Seq<Answer>,
)
    ensures
        publish_step(b, c, dry_run, enabled).kept(
            publish_step(b, c.with(more), dry_run, enabled),
            more,
        ),
{
    broadcast use session::lemma_past_with;

    b.law_kept(c, Seq::empty(), more);
    if let Next::Done(Ok(publishable), c2) = b.publishable_step(c) {
        b.law_kept(c2, Seq::empty(), more);
    }
}

proof fn lemma_release_kept<B: Backend>(
    b: B,
    cli: Cli,
    c: Cursor,
    enabled: bool,
    new: Seq<char>,
    more: Seq<Answer>,
)
    ensures
        release_step(b, cli, c, enabled, new).kept(
            release_step(b, cli, c.with(more), enabled, new),
            more,
        ),
{
    lemma_write_kept(b, c, cli.dry_run, new, more);
    if let Next::Done(Ok(u), c1) = write_step(b, c, cli.dry_run, new) {
        lemma_write_kept(b, c1, cli.dry_run, new, more);
        if let Next::Done(Ok(u), c2) = lock_step(b, c1, cli.dry_run) {
            b.law_kept(c2, new, more);
            if let Next::Done(files, c3) = b.stage_step(c2) {
                lemma_git_kept(c3, cli.dry_run, files, new, more);
                if let Next::Done(Ok(u), c4) = git_step(c3, cli.dry_run, files, new) {
                    lemma_publish_kept(b, c4, cli.dry_run, enabled, more);
                }
            }
        }
    }
}

proof fn lemma_bump_kept<B: Backend>(
    b: B,
    cli: Cli,
    c: Cursor,
    enabled: bool,
    more: Seq<Answer>,
)
    ensures
        bump_step(b, cli, c, enabled).kept(bump_step(b, cli, c.with(more), enabled), more),
{
    broadcast use session::lemma_past_with;

    lemma_checks_kept(c, cli.dry_run, more);
    if let Next::Done(Ok(u), c1) = validate_step(c, cli.dry_run) {
        lemma_checks_kept(c1, cli.dry_run, more);
        if let Next::Done(Ok(u), c2) = pull_step(c1, cli.dry_run) {
            b.law_kept(c2, Seq::empty(), more);
            if let Next::Done(Ok(current), c3) = b.read_step(c2) {
                if let Ok(new) = version::bumped(current, cli::kind_of(cli.bump)) {
                    lemma_release_kept(b, cli, c3.past(), enabled, new, more);
                }
            }
        }
    }
}

/// The flow is one conversation: what it ended with after some answers, it
/// also ends with when there are more of them, and it leaves those alone.
pub proof fn law_one_conversation(cli: Cli, c: Cursor, more: Seq<Answer>)
    ensures
        run_step(cli, c).kept(run_step(cli, c.with(more)), more),
{
    lemma_start_kept(cli, c, more);
    if let Next::Done(Ok(name), c1) = select_step(cli.backend, c) {
        lemma_start_kept(cli, c1, more);
        if let Next::Done(Ok(enabled), c2) = config::publish_enabled_step(c1) {
            let b = backends::backend_of(name);
            lemma_publish_kept(b, c2, cli.dry_run, enabled, more);
            lemma_bump_kept(b, cli, c2, enabled, more);
        }
    }
}

// ---------------------------------------------------------------------------
// Running it
// ---------------------------------------------------------------------------

fn warn_state(s: &mut Session<'_>, clean: bool, branch: Option<String>) -> (r: Step<
    Result<(), Error>,
>)
    ensures
        session::step(r, final(s)@) == warn_state_step(
            old(s)@,
            clean,
            match branch {
                Some(name) => Some(name@),
                None => None,
            },
        ),
{
    if !clean {
        s.warn("warning: uncommitted changes exist (ignored in --dry-run)")?;
    }
    let name = match branch {
        Some(name) => {
            if same(&name, "main") {
                return Ok(Ok(()));
            }
            name
        },
        None => own("<detached>"),
    };
    s.warn(
        &plus3("warning: not on main branch (current: ", &name, ") (ignored in --dry-run)"),
    )?;
    Ok(Ok(()))
}

fn check_state(clean: bool, branch: Option<String>) -> (r: Result<(), Error>)
    ensures
        r.model() == state_of(
            clean,
            match branch {
                Some(name) => Some(name@),
                None => None,
            },
        ),
{
    if !clean {
        return Err(ErrorOf::Uncommitted);
    }
    match branch {
        Some(name) => if same(&name, "main") {
            Ok(())
        } else {
            Err(ErrorOf::NotOnMain(name))
        },
        None => Err(ErrorOf::NotOnMain(own("<detached>"))),
    }
}

/// Check that the repository can be released from.
pub fn validate_git_state(s: &mut Session<'_>, dry_run: bool) -> (r: Step<Result<(), Error>>)
    ensures
        session::step(r, final(s)@) == validate_step(old(s)@, dry_run),
{
    match git::is_inside_repo(s)? {
        Ok(true) => {},
        Ok(false) => {
            return Ok(Err(ErrorOf::NotARepository));
        },
        Err(e) => {
            return Ok(Err(e));
        },
    }
    let clean = match git::is_clean(s)? {
        Ok(clean) => clean,
        Err(e) => {
            return Ok(Err(e));
        },
    };
    let branch = match git::current_branch(s)? {
        Ok(branch) => branch,
        Err(e) => {
            return Ok(Err(e));
        },
    };
    if dry_run {
        warn_state(s, clean, branch)
    } else {
        Ok(check_state(clean, branch))
    }
}

/// What is done with a package manager, as it is told when it fails.
fn told_with(what: &str, name: &str) -> (r: String)
    ensures
        r@ == with_backend(what@, name@),
{
    plus(&plus3(what, " with backend '", name), "'")
}

fn pull(s: &mut Session<'_>, dry_run: bool) -> (r: Step<Result<(), Error>>)
    ensures
        session::step(r, final(s)@) == pull_step(old(s)@, dry_run),
{
    if dry_run {
        s.say("would run: git pull --ff-only origin main")?;
        Ok(Ok(()))
    } else {
        during(git::pull_ff_only(s, "origin", "main"), "git pull --ff-only origin main")
    }
}

fn tell_writes(s: &mut Session<'_>, files: &Vec<String>) -> (r: Step<Result<(), Error>>)
    ensures
        session::step(r, final(s)@) == tell_writes_step(old(s)@, files.deep_view(), 0),
{
    let ghost all = files.deep_view();
    let ghost whole = tell_writes_step(s@, all, 0);
    let mut i: usize = 0;
    while i < files.len()
        invariant
            i <= files.len(),
            all == files.deep_view(),
            whole == tell_writes_step(old(s)@, all, 0),
            whole == tell_writes_step(s@, all, i as int),
        decreases files.len() - i,
    {
        assert(all[i as int] == files@[i as int]@);
        s.say(&plus("would write: ", &files[i]))?;
        i = i + 1;
    }
    Ok(Ok(()))
}

fn write<B: Backend>(b: &B, s: &mut Session<'_>, dry_run: bool, new: &str) -> (r: Step<
    Result<(), Error>,
>)
    ensures
        session::step(r, final(s)@) == write_step(*b, old(s)@, dry_run, new@),
{
    if !dry_run {
        return during(b.write_version(s, new), &told_with("write new version", b.name()));
    }
    s.say(&plus("would write: manifest version -> ", new))?;
    let files = b.additional_write_previews(s, new);
    match during(files, &told_with("preview additional writes", b.name()))? {
        Ok(files) => tell_writes(s, &files),
        Err(e) => Ok(Err(e)),
    }
}

fn lock<B: Backend>(b: &B, s: &mut Session<'_>, dry_run: bool) -> (r: Step<Result<(), Error>>)
    ensures
        session::step(r, final(s)@) == lock_step(*b, old(s)@, dry_run),
{
    if !dry_run {
        return during(b.update_lockfile(s), &told_with("update lockfile", b.name()));
    }
    if let Some(command) = b.lockfile_command_preview() {
        s.say(&plus("would run: ", &command))?;
    }
    Ok(Ok(()))
}

fn tell_git(s: &mut Session<'_>, files: &Vec<String>, new: &str) -> (r: Step<Result<(), Error>>)
    ensures
        session::step(r, final(s)@) == tell_git_step(old(s)@, files.deep_view(), new@),
{
    assert(files.deep_view().len() == files.len());
    let tag = plus("v", new);
    if files.len() == 0 {
        s.say("would run: git add (nothing to stage)")?;
    } else {
        s.say(&plus("would run: git add ", &join(files, " ")))?;
    }
    s.say(
        &plus3("would run: git commit -m \"", &plus("chore: bump version to ", new), "\""),
    )?;
    s.say(&plus("would run: git tag ", &tag))?;
    s.say("would run: git push origin main")?;
    s.say(&plus("would run: git push origin ", &tag))?;
    Ok(Ok(()))
}

fn commit_and_push(s: &mut Session<'_>, dry_run: bool, files: &Vec<String>, new: &str) -> (r: Step<
    Result<(), Error>,
>)
    ensures
        session::step(r, final(s)@) == git_step(old(s)@, dry_run, files.deep_view(), new@),
{
    if dry_run {
        return tell_git(s, files, new);
    }
    assert(files.deep_view().len() == files.len());
    let message = plus("chore: bump version to ", new);
    let tag = plus("v", new);
    if let Err(e) = during(git::add(s, files), "git add")? {
        return Ok(Err(e));
    }
    let committed = if files.len() == 0 {
        during(git::commit_allow_empty(s, &message), "git commit --allow-empty")?
    } else {
        during(git::commit(s, &message), "git commit")?
    };
    if let Err(e) = committed {
        return Ok(Err(e));
    }
    if let Err(e) = during(git::tag(s, &tag), "git tag")? {
        return Ok(Err(e));
    }
    if let Err(e) = during(git::push(s, "origin", "main"), "git push origin main")? {
        return Ok(Err(e));
    }
    during(git::push(s, "origin", &tag), &plus("git push origin ", &tag))
}

/// Publish the release, unless the project's configuration or its manifests
/// say otherwise.
pub fn run_publish<B: Backend>(
    backend: &B,
    s: &mut Session<'_>,
    dry_run: bool,
    publish_enabled: bool,
) -> (r: Step<Result<(), Error>>)
    ensures
        session::step(r, final(s)@) == publish_step(*backend, old(s)@, dry_run, publish_enabled),
{
    if !publish_enabled {
        s.say("Skipping publish: disabled by .release.toml.")?;
        return Ok(Ok(()));
    }
    let publishable = backend.is_publishable(s);
    match during(publishable, &told_with("check publishability", backend.name()))? {
        Ok(true) => {},
        Ok(false) => {
            s.say(
                &plus3(
                    "Skipping publish: no publishable packages found (backend: ",
                    backend.name(),
                    ").",
                ),
            )?;
            return Ok(Ok(()));
        },
        Err(e) => {
            return Ok(Err(e));
        },
    }
    if !dry_run {
        return during(backend.publish(s), &told_with("publish", backend.name()));
    }
    match backend.publish_command_preview(s)? {
        Ok(Some(command)) => {
            s.say(&plus("would run: ", &command))?;
            Ok(Ok(()))
        },
        Ok(None) => {
            s.say(&plus3("No publish step for backend '", backend.name(), "'."))?;
            Ok(Ok(()))
        },
        Err(e) => Ok(Err(e)),
    }
}

fn finish<B: Backend>(b: &B, cli: &Cli, s: &mut Session<'_>, enabled: bool, new: &str) -> (r: Step<
    Result<(), Error>,
>)
    ensures
        session::step(r, final(s)@) == release_step(*b, *cli, old(s)@, enabled, new@),
{
    if let Err(e) = write(b, s, cli.dry_run, new)? {
        return Ok(Err(e));
    }
    if let Err(e) = lock(b, s, cli.dry_run)? {
        return Ok(Err(e));
    }
    let files = b.files_to_stage(s)?;
    if let Err(e) = commit_and_push(s, cli.dry_run, &files, new)? {
        return Ok(Err(e));
    }
    if cli.no_publish {
        s.say("Skipping publish (--no-publish specified).")?;
        Ok(Ok(()))
    } else {
        run_publish(b, s, cli.dry_run, enabled)
    }
}

fn bump_and_release<B: Backend>(b: &B, cli: &Cli, s: &mut Session<'_>, enabled: bool) -> (r: Step<
    Result<(), Error>,
>)
    ensures
        session::step(r, final(s)@) == bump_step(*b, *cli, old(s)@, enabled),
{
    let kind: BumpKind = BumpKind::from(cli.bump);
    if let Err(e) = validate_git_state(s, cli.dry_run)? {
        return Ok(Err(e));
    }
    if let Err(e) = pull(s, cli.dry_run)? {
        return Ok(Err(e));
    }
    let current = b.read_version(s);
    let current = match during(current, &told_with("read current version", b.name()))? {
        Ok(current) => current,
        Err(e) => {
            return Ok(Err(e));
        },
    };
    let new = match version::bump_if_possible(&current, kind) {
        Ok(new) => new,
        Err(e) => {
            return Ok(Err(e));
        },
    };
    s.say(
        &plus(
            &plus(
                &plus3("Bumping version: ", &current, " -> "),
                &plus3(&new, " (backend: ", b.name()),
            ),
            ")",
        ),
    )?;
    finish(b, cli, s, enabled, &new)
}

fn select_backend(requested: Option<BackendName>, s: &mut Session<'_>) -> (r: Step<
    Result<BackendName, Error>,
>)
    ensures
        session::step(r, final(s)@) == select_step(requested, old(s)@),
{
    match requested {
        Some(name) => Ok(Ok(name)),
        None => detect::detect(s),
    }
}

/// Run the release flow.
pub fn run_with(cli: &Cli, s: &mut Session<'_>) -> (r: Step<Result<(), Error>>)
    ensures
        session::step(r, final(s)@) == run_step(*cli, old(s)@),
{
    let name = match select_backend(cli.backend, s)? {
        Ok(name) => name,
        Err(e) => {
            return Ok(Err(e));
        },
    };
    let enabled = match config::is_publish_enabled(s)? {
        Ok(enabled) => enabled,
        Err(e) => {
            return Ok(Err(e));
        },
    };
    let backend: AnyBackend = backends::make(name);
    if cli.only_publish {
        run_publish(&backend, s, cli.dry_run, enabled)
    } else {
        bump_and_release(&backend, cli, s, enabled)
    }
}

/// Run the release flow on the project in the current directory, as far as the
/// answers go: the result is what the flow ended with, or what it asks next.
/// `sep` separates the names in the host's paths.
pub fn run(cli: &Cli, sep: char, answers: &Vec<Answer>) -> (r: Step<Result<(), Error>>)
    ensures
        match r {
            Ok(done) => run_step(*cli, Cursor { root: "."@, sep, answers: answers@, at: 0 }) matches
                Next::Done(result, _) && result == done.model(),
            Err(ask) => run_step(*cli, Cursor { root: "."@, sep, answers: answers@, at: 0 })
                == Next::<Result<(), ErrorView>>::Ask(ask.seen()),
        },
{
    let mut s = Session::new(".", sep, answers);
    run_with(cli, &mut s)
}

} // verus!
