//! Which package manager a project uses.

use vstd::prelude::*;

use crate::cli::BackendName;
use crate::error::Error;
use crate::error::ErrorOf;
use crate::error::ErrorView;
use crate::paths;
use crate::session;
use crate::session::Cursor;
use crate::session::Listed;
use crate::session::Next;
use crate::session::Session;
use crate::session::Step;
use crate::text;
use crate::text::own;
use crate::text::lines;
use crate::text::starts_with;
use crate::text::trim_start;

verus! {

/// A line of the text begins, behind white space, with `prefix`.
pub open spec fn some_line_begins(t: Seq<char>, prefix: Seq<char>) -> bool {
    exists|i: int|
        0 <= i < text::lines_of(t).len() && #[trigger] line_begins(text::lines_of(t)[i], prefix)
}

/// The line begins, behind white space, with `prefix`.
pub open spec fn line_begins(line: Seq<char>, prefix: Seq<char>) -> bool {
    text::occurs_at(text::trim_left(line), prefix, 0)
}

/// The `Project.toml` of a julia package has a `uuid` and a `version`.
pub open spec fn julia_step(c: Cursor) -> Next<Result<bool, ErrorView>> {
    c.is_file("Project.toml"@).and(
        |there: bool, c: Cursor|
            if there {
                c.read_plainly("Project.toml"@).and_ok(
                    |t: Seq<char>, c: Cursor|
                        Next::Done(
                            Ok(some_line_begins(t, "uuid"@) && some_line_begins(t, "version"@)),
                            c,
                        ),
                )
            } else {
                Next::Done(Ok(false), c)
            },
    )
}

/// The file name is that of a .NET project or solution.
pub open spec fn names_dotnet(name: Seq<char>) -> bool {
    ||| paths::has_extension(name, "csproj"@)
    ||| paths::has_extension(name, "fsproj"@)
    ||| paths::has_extension(name, "sln"@)
}

/// From the entry at `i` on, some name is that of a .NET project or solution.
/// An entry that cannot be read ends the search.
pub open spec fn dotnet_among(entries: Seq<Listed>, i: int) -> Result<bool, ErrorView>
    decreases entries.len() - i,
{
    if i >= entries.len() {
        Ok(false)
    } else {
        match entries[i] {
            Listed::Failed(why) => Err(ErrorOf::Plain(why@)),
            Listed::Entry(name, _, _) => if names_dotnet(name@) {
                Ok(true)
            } else {
                dotnet_among(entries, i + 1)
            },
        }
    }
}

/// A .NET project has a `Directory.Build.props`, a project or a solution.
pub open spec fn dotnet_step(c: Cursor) -> Next<Result<bool, ErrorView>> {
    c.is_file("Directory.Build.props"@).and(
        |there: bool, c: Cursor|
            if there {
                Next::Done(Ok(true), c)
            } else {
                c.list(""@).and_ok(
                    |entries: Seq<Listed>, c: Cursor|
                        Next::Done(dotnet_among(entries, 0), c),
                )
            },
    )
}

/// The package managers whose manifest is `package.json`, by their lockfiles.
pub open spec fn package_json_step(c: Cursor) -> Next<Result<BackendName, ErrorView>> {
    c.is_file("pnpm-lock.yaml"@).and(
        |pnpm: bool, c: Cursor|
            if pnpm {
                Next::Done(Ok(BackendName::Pnpm), c)
            } else {
                c.is_file("bun.lock"@).and(
                    |bun: bool, c: Cursor|
                        if bun {
                            Next::Done(Ok(BackendName::Bun), c)
                        } else {
                            c.is_file("bun.lockb"@).and(
                                |bun: bool, c: Cursor|
                                    if bun {
                                        Next::Done(Ok(BackendName::Bun), c)
                                    } else {
                                        Next::Done(Ok(BackendName::Pnpm), c)
                                    },
                            )
                        },
                )
            },
    )
}

/// The search behind `package.json`: julia, .NET, go.
pub open spec fn last_steps(c: Cursor) -> Next<Result<BackendName, ErrorView>> {
    julia_step(c).and_ok(
        |julia: bool, c: Cursor|
            if julia {
                Next::Done(Ok(BackendName::Julia), c)
            } else {
                dotnet_step(c).and_ok(
                    |dotnet: bool, c: Cursor|
                        if dotnet {
                            Next::Done(Ok(BackendName::Dotnet), c)
                        } else {
                            c.is_file("go.mod"@).and(
                                |go: bool, c: Cursor|
                                    if go {
                                        Next::Done(Ok(BackendName::Go), c)
                                    } else {
                                        Next::Done(Err(ErrorOf::NoBackend(c.root)), c)
                                    },
                            )
                        },
                )
            },
    )
}

/// The search behind uv: `package.json`, then the others.
pub open spec fn later_steps(c: Cursor) -> Next<Result<BackendName, ErrorView>> {
    c.is_file("package.json"@).and(
        |there: bool, c: Cursor|
            if there {
                package_json_step(c)
            } else {
                last_steps(c)
            },
    )
}

/// Which package manager the project uses. The first of these decides:
/// `Cargo.toml`, `pyproject.toml` with `uv.lock`, `package.json`, `Project.toml`
/// with `uuid` and `version`, a .NET project, `go.mod`.
pub open spec fn detect_step(c: Cursor) -> Next<Result<BackendName, ErrorView>> {
    c.is_file("Cargo.toml"@).and(
        |cargo: bool, c: Cursor|
            if cargo {
                Next::Done(Ok(BackendName::Cargo), c)
            } else {
                c.is_file("pyproject.toml"@).and(
                    |python: bool, c: Cursor|
                        if python {
                            c.is_file("uv.lock"@).and(
                                |uv: bool, c: Cursor|
                                    if uv {
                                        Next::Done(Ok(BackendName::Uv), c)
                                    } else {
                                        later_steps(c)
                                    },
                            )
                        } else {
                            later_steps(c)
                        },
                )
            },
    )
}

/// The first match wins: with a `Cargo.toml` nothing else is looked for, and
/// with the files of uv no `package.json`.
pub proof fn law_first_match_wins(c: Cursor)
    ensures
        c.is_file("Cargo.toml"@) matches Next::Done(true, c1) ==> detect_step(c) == Next::Done(
            Ok::<BackendName, ErrorView>(BackendName::Cargo),
            c1,
        ),
        c.is_file("Cargo.toml"@) matches Next::Done(false, c1) ==> c1.is_file(
            "pyproject.toml"@,
        ) matches Next::Done(true, c2) ==> c2.is_file("uv.lock"@) matches Next::Done(true, c3)
            ==> detect_step(c) == Next::Done(
            Ok::<BackendName, ErrorView>(BackendName::Uv),
            c3,
        ),
{
}

fn any_line_begins(t: &str, prefix: &str) -> (r: bool)
    ensures
        r == some_line_begins(t@, prefix@),
{
    let all = lines(t);
    let ghost seen = text::lines_of(t@);
    let mut i: usize = 0;
    while i < all.len()
        invariant
            i <= all.len(),
            all.deep_view() == seen,
            seen == text::lines_of(t@),
            forall|k: int| 0 <= k < i ==> !#[trigger] line_begins(seen[k], prefix@),
        decreases all.len() - i,
    {
        assert(seen[i as int] == all@[i as int]@);
        if starts_with(&trim_start(&all[i]), prefix) {
            assert(line_begins(seen[i as int], prefix@));
            return true;
        }
        i = i + 1;
    }
    false
}

fn is_julia_project(s: &mut Session<'_>) -> (r: Step<Result<bool, Error>>)
    ensures
        session::step(r, final(s)@) == julia_step(old(s)@),
{
    if !s.is_file("Project.toml")? {
        return Ok(Ok(false));
    }
    match s.read_plainly("Project.toml")? {
        Ok(t) => Ok(Ok(any_line_begins(&t, "uuid") && any_line_begins(&t, "version"))),
        Err(e) => Ok(Err(e)),
    }
}

fn has_dotnet_project(s: &mut Session<'_>) -> (r: Step<Result<bool, Error>>)
    ensures
        session::step(r, final(s)@) == dotnet_step(old(s)@),
{
    if s.is_file("Directory.Build.props")? {
        return Ok(Ok(true));
    }
    let entries = match s.list("")? {
        Ok(entries) => entries,
        Err(e) => {
            return Ok(Err(e));
        },
    };
    let ghost here = s@;
    let mut i: usize = 0;
    while i < entries.len()
        invariant
            i <= entries.len(),
            s@ == here,
            dotnet_step(old(s)@) == Next::Done(dotnet_among(entries@, i as int), here),
        decreases entries.len() - i,
    {
        match &entries[i] {
            Listed::Failed(why) => {
                return Ok(Err(ErrorOf::Plain(why.clone())));
            },
            Listed::Entry(name, _, _) => {
                if paths::ends_in(name, "csproj") || paths::ends_in(name, "fsproj")
                    || paths::ends_in(name, "sln") {
                    return Ok(Ok(true));
                }
            },
        }
        i = i + 1;
    }
    Ok(Ok(false))
}

fn detect_package_json(s: &mut Session<'_>) -> (r: Step<Result<BackendName, Error>>)
    ensures
        session::step(r, final(s)@) == package_json_step(old(s)@),
{
    if s.is_file("pnpm-lock.yaml")? {
        return Ok(Ok(BackendName::Pnpm));
    }
    if s.is_file("bun.lock")? {
        return Ok(Ok(BackendName::Bun));
    }
    if s.is_file("bun.lockb")? {
        return Ok(Ok(BackendName::Bun));
    }
    Ok(Ok(BackendName::Pnpm))
}

fn detect_last(s: &mut Session<'_>) -> (r: Step<Result<BackendName, Error>>)
    ensures
        session::step(r, final(s)@) == last_steps(old(s)@),
{
    match is_julia_project(s)? {
        Ok(true) => {
            return Ok(Ok(BackendName::Julia));
        },
        Ok(false) => {},
        Err(e) => {
            return Ok(Err(e));
        },
    }
    match has_dotnet_project(s)? {
        Ok(true) => {
            return Ok(Ok(BackendName::Dotnet));
        },
        Ok(false) => {},
        Err(e) => {
            return Ok(Err(e));
        },
    }
    if s.is_file("go.mod")? {
        return Ok(Ok(BackendName::Go));
    }
    Ok(Err(ErrorOf::NoBackend(own(s.root()))))
}

fn detect_later(s: &mut Session<'_>) -> (r: Step<Result<BackendName, Error>>)
    ensures
        session::step(r, final(s)@) == later_steps(old(s)@),
{
    if s.is_file("package.json")? {
        detect_package_json(s)
    } else {
        detect_last(s)
    }
}

/// Detect which package manager the project uses.
pub fn detect(s: &mut Session<'_>) -> (r: Step<Result<BackendName, Error>>)
    ensures
        session::step(r, final(s)@) == detect_step(old(s)@),
{
    if s.is_file("Cargo.toml")? {
        return Ok(Ok(BackendName::Cargo));
    }
    if s.is_file("pyproject.toml")? {
        if s.is_file("uv.lock")? {
            return Ok(Ok(BackendName::Uv));
        }
    }
    detect_later(s)
}

/// A line begins with a word exactly if that stands, behind white space alone,
/// at its beginning.
pub proof fn law_line_begins(indent: Seq<char>, rest: Seq<char>, word: Seq<char>)
    requires
        forall|i: int| 0 <= i < indent.len() ==> text::is_space(#[trigger] indent[i]),
        rest.len() > 0 ==> !text::is_space(rest[0]),
        word.len() > 0,
    ensures
        line_begins(indent + rest, word) <==> word.len() <= rest.len() && rest.take(
            word.len() as int,
        ) == word,
    decreases indent.len(),
{
    let whole = indent + rest;
    if indent.len() == 0 {
        assert(whole =~= rest);
        assert(text::trim_left(rest) == rest);
        if word.len() <= rest.len() {
            assert(rest.subrange(0, word.len() as int) =~= rest.take(word.len() as int));
        }
    } else {
        let fewer = indent.skip(1);
        assert(whole[0] == indent[0]);
        assert(whole.skip(1) =~= fewer + rest);
        assert forall|i: int| 0 <= i < fewer.len() implies text::is_space(#[trigger] fewer[i]) by {
            assert(fewer[i] == indent[i + 1]);
        }
        law_line_begins(fewer, rest, word);
    }
}

/// Some line of a text begins with a word exactly if its first line or one of
/// the others does.
pub proof fn law_some_line_begins(line: Seq<char>, rest: Seq<char>, word: Seq<char>)
    requires
        !line.contains('\n'),
        line.len() > 0 ==> line.last() != '\r',
    ensures
        some_line_begins(line + seq!['\n'] + rest, word) <==> line_begins(line, word)
            || some_line_begins(rest, word),
        line.len() > 0 ==> (some_line_begins(line, word) <==> line_begins(line, word)),
{
    text::law_lines_end_with_line_feeds(line, rest);
    let whole = line + seq!['\n'] + rest;
    let all = text::lines_of(whole);
    let later = text::lines_of(rest);
    assert(all == seq![line] + later);
    if some_line_begins(whole, word) {
        let i = choose|i: int| 0 <= i < all.len() && #[trigger] line_begins(all[i], word);
        if i > 0 {
            assert(later[i - 1] == all[i]);
        }
    }
    if line_begins(line, word) {
        assert(all[0] == line);
    }
    if some_line_begins(rest, word) {
        let i = choose|i: int| 0 <= i < later.len() && #[trigger] line_begins(later[i], word);
        assert(all[i + 1] == later[i]);
    }
    if line.len() > 0 {
        assert(text::lines_of(line) == seq![line]);
        assert(seq![line][0] == line);
    }
}

} // verus!
