//! .NET projects.

use vstd::prelude::*;

use crate::backend::Backend;
use crate::backends::dotnet_text;
use crate::error;
use crate::error::Error;
use crate::error::ErrorOf;
use crate::error::ErrorView;
use crate::paths;
use crate::session;
use crate::session::Answer;
use crate::session::AskOf;
use crate::session::Cursor;
use crate::session::Kind;
use crate::session::Listed;
use crate::session::Model;
use crate::session::Next;
use crate::session::Session;
use crate::session::Step;
use crate::text::list0;
use crate::text::list1;
use crate::text::list3;
use crate::text::own;
use crate::text::plus;
use crate::text::plus3;
use crate::text::put;
use crate::text::same;

verus! {

/// The version of a .NET project is the `<Version>` element of a central
/// `Directory.Build.props` or of each project file.
pub struct Dotnet;

/// Where the version of a project tree stands, with lists of type `L`.
pub enum LayoutOf<L> {
    /// In a `Directory.Build.props`. Project files inherit it.
    CentralizedProps,
    /// In the project files that a solution lists.
    Solution(L),
    /// In the project files that are found in the tree.
    Projects(L),
}

pub type Layout = LayoutOf<Vec<String>>;

pub type LayoutView = LayoutOf<Seq<Seq<char>>>;

impl Model for LayoutOf<Vec<String>> {
    type M = LayoutView;

    open spec fn model(&self) -> LayoutView {
        match self {
            LayoutOf::CentralizedProps => LayoutOf::CentralizedProps,
            LayoutOf::Solution(l) => LayoutOf::Solution(l.deep_view()),
            LayoutOf::Projects(l) => LayoutOf::Projects(l.deep_view()),
        }
    }
}

// ---------------------------------------------------------------------------
// Finding the project files
// ---------------------------------------------------------------------------

/// The first solution among the entries from the one at `i` on.
pub open spec fn solution_among(entries: Seq<Listed>, i: int) -> Result<
    Option<Seq<char>>,
    ErrorView,
>
    decreases entries.len() - i,
{
    if i >= entries.len() {
        Ok(None)
    } else {
        match entries[i] {
            Listed::Failed(why) => Err(ErrorOf::Plain(why@)),
            Listed::Entry(name, _, _) => if paths::has_extension(name@, "sln"@) {
                Ok(Some(name@))
            } else {
                solution_among(entries, i + 1)
            },
        }
    }
}

/// The first solution in the project's directory.
pub open spec fn solution_step(c: Cursor) -> Next<Result<Option<Seq<char>>, ErrorView>> {
    c.list(""@).and_ok(
        |entries: Seq<Listed>, c: Cursor| Next::Done(solution_among(entries, 0), c),
    )
}

/// Directories that hold no sources of the project.
pub open spec fn skipped(name: Seq<char>) -> bool {
    ||| name == "bin"@
    ||| name == "obj"@
    ||| name == ".git"@
    ||| name == "node_modules"@
    ||| name == "target"@
    ||| name == ".vs"@
}

/// A directory that is being walked: its entries, and how many are done.
pub struct FrameView {
    pub dir: Seq<char>,
    pub entries: Seq<Listed>,
    pub at: int,
}

/// What is left to do in directories that are being walked.
pub open spec fn left(frames: Seq<FrameView>) -> nat
    decreases frames.len(),
{
    if frames.len() == 0 {
        0
    } else {
        left(frames.drop_last()) + 1 + if frames.last().at < frames.last().entries.len() {
            (frames.last().entries.len() - frames.last().at) as nat
        } else {
            0
        }
    }
}

/// The directories, with one more entry of the last one done.
pub open spec fn advanced(frames: Seq<FrameView>) -> Seq<FrameView> {
    frames.drop_last().push(FrameView { at: frames.last().at + 1, ..frames.last() })
}

pub proof fn lemma_left(frames: Seq<FrameView>)
    ensures
        frames.len() > 0 ==> left(frames.drop_last()) < left(frames),
        frames.len() > 0 && frames.last().at < frames.last().entries.len() ==> left(
            advanced(frames),
        ) < left(frames),
    decreases frames.len(),
{
    if frames.len() > 0 {
        lemma_left(frames.drop_last());
        assert(advanced(frames).drop_last() =~= frames.drop_last());
    }
}

/// Walk on through the directories, the last one first, and add the project
/// files. Each directory is listed when its turn comes. Names that are not
/// UTF-8, symbolic links and directories without sources are passed over.
pub open spec fn walk_step(c: Cursor, frames: Seq<FrameView>, out: Seq<Seq<char>>) -> Next<
    Result<Seq<Seq<char>>, ErrorView>,
>
    decreases c.answers.len() - c.at, left(frames),
{
    proof {
        lemma_left(frames);
    }
    if frames.len() == 0 {
        Next::Done(Ok(out), c)
    } else if frames.last().at >= frames.last().entries.len() {
        walk_step(c, frames.drop_last(), out)
    } else {
        match frames.last().entries[frames.last().at] {
            Listed::Failed(why) => Next::Done(
                Err(ErrorOf::Plain(why@)),
                c,
            ),
            Listed::Entry(name, utf8, kind) => {
                let path = paths::joined_to(frames.last().dir, name@, c.sep);
                if !utf8 {
                    walk_step(c, advanced(frames), out)
                } else {
                    match kind {
                        Kind::Unknown(why) => Next::Done(
                            Err(ErrorOf::Plain(why@)),
                            c,
                        ),
                        Kind::Symlink => walk_step(c, advanced(frames), out),
                        Kind::Dir => if skipped(name@) {
                            walk_step(c, advanced(frames), out)
                        } else if !c.answered() {
                            Next::Ask(AskOf::List(path))
                        } else {
                            match session::listing(c.answer()) {
                                Ok(entries) => walk_step(
                                    c.past(),
                                    advanced(frames).push(
                                        FrameView { dir: path, entries, at: 0 },
                                    ),
                                    out,
                                ),
                                Err(why) => Next::Done(
                                    Err(ErrorOf::Plain(why)),
                                    c.past(),
                                ),
                            }
                        },
                        Kind::Other => if paths::has_extension(name@, "csproj"@)
                            || paths::has_extension(name@, "fsproj"@) {
                            walk_step(c, advanced(frames), out.push(path))
                        } else {
                            walk_step(c, advanced(frames), out)
                        },
                    }
                }
            },
        }
    }
}

/// To walk is harmless.
pub broadcast proof fn lemma_walk_calm(
    c: Cursor,
    frames: Seq<FrameView>,
    out: Seq<Seq<char>>,
)
    ensures
        (#[trigger] walk_step(c, frames, out)).calm(),
    decreases c.answers.len() - c.at, left(frames),
{
    lemma_left(frames);
    if frames.len() > 0 {
        lemma_walk_calm(c, frames.drop_last(), out);
        if frames.last().at < frames.last().entries.len() {
            lemma_walk_calm(c, advanced(frames), out);
            if let Listed::Entry(name, utf8, kind) = frames.last().entries[frames.last().at] {
                let path = paths::joined_to(frames.last().dir, name@, c.sep);
                lemma_walk_calm(c, advanced(frames), out.push(path));
                if c.answered() {
                    if let Ok(entries) = session::listing(c.answer()) {
                        lemma_walk_calm(
                            c.past(),
                            advanced(frames).push(FrameView { dir: path, entries, at: 0 }),
                            out,
                        );
                    }
                }
            }
        }
    }
}

/// Further answers change nothing in what has ended.
pub broadcast proof fn lemma_walk_kept(
    c: Cursor,
    frames: Seq<FrameView>,
    out: Seq<Seq<char>>,
    more: Seq<Answer>,
)
    ensures
        walk_step(c, frames, out).kept(#[trigger] walk_step(c.with(more), frames, out), more),
    decreases c.answers.len() - c.at, left(frames),
{
    broadcast use session::lemma_past_with;

    lemma_left(frames);
    if frames.len() > 0 {
        lemma_walk_kept(c, frames.drop_last(), out, more);
        if frames.last().at < frames.last().entries.len() {
            lemma_walk_kept(c, advanced(frames), out, more);
            if let Listed::Entry(name, utf8, kind) = frames.last().entries[frames.last().at] {
                let path = paths::joined_to(frames.last().dir, name@, c.sep);
                lemma_walk_kept(c, advanced(frames), out.push(path), more);
                if c.answered() {
                    if let Ok(entries) = session::listing(c.answer()) {
                        lemma_walk_kept(
                            c.past(),
                            advanced(frames).push(FrameView { dir: path, entries, at: 0 }),
                            out,
                            more,
                        );
                    }
                }
            }
        }
    }
}

/// The project files in the tree, in the order in which a walk finds them.
pub open spec fn discover_step(c: Cursor) -> Next<Result<Seq<Seq<char>>, ErrorView>> {
    c.list(""@).and_ok(
        |entries: Seq<Listed>, c: Cursor|
            walk_step(c, seq![FrameView { dir: ""@, entries, at: 0 }], Seq::empty()),
    )
}

/// The project files that the solution of the project lists, if there is a
/// solution that lists any; or those in the tree.
pub open spec fn projects_step(c: Cursor) -> Next<Result<LayoutView, ErrorView>> {
    solution_step(c).and_ok(
        |sln: Option<Seq<char>>, c: Cursor|
            match sln {
                Some(sln) => c.read(sln).and_ok(
                    |t: Seq<char>, c: Cursor|
                        if dotnet_text::projects_in(t).len() > 0 {
                            Next::Done(Ok(LayoutOf::Solution(dotnet_text::projects_in(t))), c)
                        } else {
                            tree_step(c)
                        },
                ),
                None => tree_step(c),
            },
    )
}

/// The project files in the tree. There has to be one.
pub open spec fn tree_step(c: Cursor) -> Next<Result<LayoutView, ErrorView>> {
    discover_step(c).and_ok(
        |projects: Seq<Seq<char>>, c: Cursor|
            if projects.len() == 0 {
                Next::Done(
                    Err(
                        ErrorOf::Absent(
                            "no .csproj / .fsproj / Directory.Build.props in "@ + c.root,
                        ),
                    ),
                    c,
                )
            } else {
                Next::Done(Ok(LayoutOf::Projects(projects)), c)
            },
    )
}

/// Where the version of the project stands.
pub open spec fn classify_step(c: Cursor) -> Next<Result<LayoutView, ErrorView>> {
    c.is_file("Directory.Build.props"@).and(
        |there: bool, c: Cursor|
            if there {
                c.read("Directory.Build.props"@).and_ok(
                    |t: Seq<char>, c: Cursor|
                        if dotnet_text::version_in(t) is Some {
                            Next::Done(Ok(LayoutOf::CentralizedProps), c)
                        } else {
                            projects_step(c)
                        },
                )
            } else {
                projects_step(c)
            },
    )
}

/// A directory that is being walked.
struct Frame<'a> {
    dir: String,
    entries: &'a Vec<Listed>,
    at: usize,
}

impl<'a> Frame<'a> {
    spec fn seen(self) -> FrameView {
        FrameView { dir: self.dir@, entries: self.entries@, at: self.at as int }
    }
}

spec fn seen_frames(frames: Seq<Frame<'_>>) -> Seq<FrameView> {
    Seq::new(frames.len(), |i: int| frames[i].seen())
}

fn find_sln(s: &mut Session<'_>) -> (r: Step<Result<Option<String>, Error>>)
    ensures
        session::step(r, final(s)@) == solution_step(old(s)@),
{
    let entries = match s.list("")? {
        Ok(entries) => entries,
        Err(e) => {
            return Ok(Err(e));
        },
    };
    let ghost here = s@;
    let mut i: usize = 0;
    while i < entries.len()
        invariant
            i <= entries.len(),
            s@ == here,
            solution_step(old(s)@) == Next::Done(
                solution_among(entries@, i as int),
                here,
            ),
        decreases entries.len() - i,
    {
        match &entries[i] {
            Listed::Failed(why) => {
                return Ok(Err(ErrorOf::Plain(why.clone())));
            },
            Listed::Entry(name, _, _) => {
                if paths::ends_in(name, "sln") {
                    return Ok(Ok(Some(name.clone())));
                }
            },
        }
        i = i + 1;
    }
    Ok(Ok(None))
}

fn is_skipped(name: &str) -> (r: bool)
    ensures
        r == skipped(name@),
{
    same(name, "bin") || same(name, "obj") || same(name, ".git") || same(name, "node_modules")
        || same(name, "target") || same(name, ".vs")
}

/// The project files in the tree.
fn discover_projects_recursively(s: &mut Session<'_>) -> (r: Step<Result<Vec<String>, Error>>)
    ensures
        session::step(r, final(s)@) == discover_step(old(s)@),
{
    let entries = match s.list("")? {
        Ok(entries) => entries,
        Err(e) => {
            return Ok(Err(e));
        },
    };
    let mut out = list0();
    let mut frames: Vec<Frame<'_>> = Vec::new();
    let ghost whole = discover_step(old(s)@);
    frames.push(Frame { dir: own(""), entries, at: 0 });
    assert(seen_frames(frames@) =~= seq![FrameView { dir: ""@, entries: entries@, at: 0 }]);
    while frames.len() > 0
        invariant
            whole == discover_step(old(s)@),
            whole == walk_step(s@, seen_frames(frames@), out.deep_view()),
        decreases s@.answers.len() - s@.at, left(seen_frames(frames@)),
    {
        let ghost before = frames@;
        let ghost seen = seen_frames(frames@);
        let last = frames.len() - 1;
        proof {
            lemma_left(seen);
            assert(seen.last() == frames@[last as int].seen());
        }
        let entries = frames[last].entries;
        let at = frames[last].at;
        let dir = frames[last].dir.clone();
        if at >= entries.len() {
            frames.pop();
            assert(seen_frames(frames@) =~= seen.drop_last());
            continue;
        }
        frames.pop();
        frames.push(Frame { dir: dir.clone(), entries, at: at + 1 });
        assert(seen_frames(frames@) =~= advanced(seen));
        match &entries[at] {
            Listed::Failed(why) => {
                return Ok(Err(ErrorOf::Plain(why.clone())));
            },
            Listed::Entry(name, utf8, kind) => {
                if !*utf8 {
                    continue;
                }
                let path = paths::join(&dir, name, s.separator());
                match kind {
                    Kind::Unknown(why) => {
                        return Ok(Err(ErrorOf::Plain(why.clone())));
                    },
                    Kind::Symlink => {},
                    Kind::Dir => {
                        if !is_skipped(name) {
                            let ghost here = frames@;
                            match s.list(&path)? {
                                Ok(inner) => {
                                    frames.push(Frame { dir: path, entries: inner, at: 0 });
                                    assert(seen_frames(frames@) =~= advanced(seen).push(
                                        FrameView { dir: path@, entries: inner@, at: 0 },
                                    ));
                                },
                                Err(e) => {
                                    return Ok(Err(e));
                                },
                            }
                        }
                    },
                    Kind::Other => {
                        if paths::ends_in(name, "csproj") || paths::ends_in(name, "fsproj") {
                            put(&mut out, path);
                        }
                    },
                }
            },
        }
    }
    assert(seen_frames(frames@) =~= Seq::empty());
    Ok(Ok(out))
}

fn classify_tree(s: &mut Session<'_>) -> (r: Step<Result<Layout, Error>>)
    ensures
        session::step(r, final(s)@) == tree_step(old(s)@),
{
    match discover_projects_recursively(s)? {
        Ok(projects) => {
            assert(projects.deep_view().len() == projects.len());
            if projects.len() == 0 {
                Ok(
                    Err(
                        ErrorOf::Absent(
                            plus("no .csproj / .fsproj / Directory.Build.props in ", s.root()),
                        ),
                    ),
                )
            } else {
                Ok(Ok(LayoutOf::Projects(projects)))
            }
        },
        Err(e) => Ok(Err(e)),
    }
}

fn classify_projects(s: &mut Session<'_>) -> (r: Step<Result<Layout, Error>>)
    ensures
        session::step(r, final(s)@) == projects_step(old(s)@),
{
    match find_sln(s)? {
        Ok(Some(sln)) => {
            let t = match s.read(&sln)? {
                Ok(t) => t,
                Err(e) => {
                    return Ok(Err(e));
                },
            };
            let projects = dotnet_text::parse_sln_project_paths(&t);
            assert(projects.deep_view().len() == projects.len());
            if projects.len() > 0 {
                return Ok(Ok(LayoutOf::Solution(projects)));
            }
            classify_tree(s)
        },
        Ok(None) => classify_tree(s),
        Err(e) => Ok(Err(e)),
    }
}

/// Where the version of the project stands.
pub fn classify(s: &mut Session<'_>) -> (r: Step<Result<Layout, Error>>)
    ensures
        session::step(r, final(s)@) == classify_step(old(s)@),
{
    if s.is_file("Directory.Build.props")? {
        match s.read("Directory.Build.props")? {
            Ok(t) => {
                if dotnet_text::has_version_element(&t) {
                    return Ok(Ok(LayoutOf::CentralizedProps));
                }
            },
            Err(e) => {
                return Ok(Err(e));
            },
        }
    }
    classify_projects(s)
}

// ---------------------------------------------------------------------------
// Reading and writing the version
// ---------------------------------------------------------------------------

/// There is no version in the file at `path`.
pub open spec fn no_version_in(path: Seq<char>) -> ErrorView {
    ErrorOf::Absent("no <Version>...</Version> in "@ + path)
}

/// The first version in the projects from the one at `i` on.
pub open spec fn first_version_step(c: Cursor, projects: Seq<Seq<char>>, i: int) -> Next<
    Result<Seq<char>, ErrorView>,
>
    decreases projects.len() - i,
{
    if i >= projects.len() {
        Next::Done(
            Err(ErrorOf::Absent("no <Version>...</Version> found in any project file"@)),
            c,
        )
    } else {
        c.read(projects[i]).and_ok(
            |t: Seq<char>, c: Cursor|
                match dotnet_text::version_in(t) {
                    Some(version) => Next::Done(Ok(version), c),
                    None => first_version_step(c, projects, i + 1),
                },
        )
    }
}

/// Write a version into the file at `path`, if it has one. The result tells
/// whether it has.
pub open spec fn update_step(c: Cursor, path: Seq<char>, new: Seq<char>) -> Next<
    Result<bool, ErrorView>,
> {
    c.read(path).and_ok(
        |t: Seq<char>, c: Cursor|
            match dotnet_text::version_in(t) {
                None => Next::Done(Ok(false), c),
                Some(old) => match dotnet_text::with_version(t, old, new) {
                    Some(after) => c.write(path, after).and_ok(
                        |u: (), c: Cursor| Next::Done(Ok(true), c),
                    ),
                    None => Next::Done(
                        Err(
                            ErrorOf::Absent(
                                "failed to rewrite <Version> element in "@ + c.shown(path),
                            ),
                        ),
                        c,
                    ),
                },
            },
    )
}

/// Write a version into the projects from the one at `i` on that are there and
/// have one. At least one has to have one: `any` tells whether there was one.
pub open spec fn update_each_step(
    c: Cursor,
    projects: Seq<Seq<char>>,
    i: int,
    any: bool,
    new: Seq<char>,
) -> Next<Result<(), ErrorView>>
    decreases projects.len() - i,
{
    if i >= projects.len() {
        if any {
            Next::Done(Ok(()), c)
        } else {
            Next::Done(
                Err(ErrorOf::Absent("no <Version> element found in any discovered project"@)),
                c,
            )
        }
    } else {
        c.is_file(projects[i]).and(
            |there: bool, c: Cursor|
                if there {
                    update_step(c, projects[i], new).and_ok(
                        |done: bool, c: Cursor|
                            if done {
                                update_each_step(c, projects, i + 1, true, new)
                            } else {
                                c.warn(
                                    "warning: "@ + projects[i]
                                        + " has no <Version> element; skipping"@,
                                ).and(
                                    |u: (), c: Cursor|
                                        update_each_step(c, projects, i + 1, any, new),
                                )
                            },
                    )
                } else {
                    update_each_step(c, projects, i + 1, any, new)
                },
        )
    }
}

/// Write a version where a layout has it.
pub open spec fn update_layout_step(c: Cursor, layout: LayoutView, new: Seq<char>) -> Next<
    Result<(), ErrorView>,
> {
    match layout {
        LayoutOf::CentralizedProps => update_step(c, "Directory.Build.props"@, new).and_ok(
            |done: bool, c: Cursor|
                if done {
                    Next::Done(Ok(()), c)
                } else {
                    Next::Done(Err(no_version_in(c.shown("Directory.Build.props"@))), c)
                },
        ),
        LayoutOf::Solution(projects) => update_each_step(c, projects, 0, false, new),
        LayoutOf::Projects(projects) => update_each_step(c, projects, 0, false, new),
    }
}

/// Add the projects from the one at `i` on that are there and have a version to
/// write.
pub open spec fn preview_each_step(
    c: Cursor,
    projects: Seq<Seq<char>>,
    i: int,
    out: Seq<Seq<char>>,
) -> Next<Result<Seq<Seq<char>>, ErrorView>>
    decreases projects.len() - i,
{
    if i >= projects.len() {
        Next::Done(Ok(out), c)
    } else {
        c.is_file(projects[i]).and(
            |there: bool, c: Cursor|
                if there {
                    c.read(projects[i]).and_ok(
                        |t: Seq<char>, c: Cursor|
                            preview_each_step(
                                c,
                                projects,
                                i + 1,
                                if dotnet_text::version_in(t) is Some {
                                    out.push(projects[i])
                                } else {
                                    out
                                },
                            ),
                    )
                } else {
                    preview_each_step(c, projects, i + 1, out)
                },
        )
    }
}

/// The projects that a version is written into. `Directory.Build.props`, which
/// stands for the project itself, is not listed.
pub open spec fn preview_layout_step(c: Cursor, layout: LayoutView) -> Next<
    Result<Seq<Seq<char>>, ErrorView>,
> {
    match layout {
        LayoutOf::CentralizedProps => Next::Done(Ok(Seq::empty()), c),
        LayoutOf::Solution(projects) => preview_each_step(c, projects, 0, Seq::empty()),
        LayoutOf::Projects(projects) => preview_each_step(c, projects, 0, Seq::empty()),
    }
}

/// A project that is there is written exactly if it is listed beforehand.
pub proof fn law_preview_lists_what_is_written(
    c: Cursor,
    projects: Seq<Seq<char>>,
    i: int,
    any: bool,
    new: Seq<char>,
    out: Seq<Seq<char>>,
)
    requires
        0 <= i < projects.len(),
        c.is_file(projects[i]) matches Next::Done(true, c2) && (c2.read(
            projects[i],
        ) matches Next::Done(Ok(_), c3) && !c3.answered()),
    ensures
        ({
            let c3 = c.past().past();
            let written = update_each_step(c, projects, i, any, new) matches Next::Ask(
                AskOf::Write(path, _),
            ) && path == projects[i];
            preview_each_step(c, projects, i, out) == preview_each_step(
                c3,
                projects,
                i + 1,
                if written {
                    out.push(projects[i])
                } else {
                    out
                },
            )
        }),
{
    if let Next::Done(Ok(t), c3) = c.past().read(projects[i]) {
        dotnet_text::lemma_replaceable(t, new);
    }
}

/// Where the version stands in `Directory.Build.props`, no other file is
/// written.
pub proof fn law_central_props_only(c: Cursor, new: Seq<char>)
    ensures
        update_layout_step(c, LayoutOf::CentralizedProps, new) matches Next::Ask(
            AskOf::Write(path, _),
        ) ==> path == "Directory.Build.props"@,
{
}

/// Read the version where a layout has it.
pub open spec fn read_layout_step(c: Cursor, layout: LayoutView) -> Next<
    Result<Seq<char>, ErrorView>,
> {
    match layout {
        LayoutOf::CentralizedProps => c.read("Directory.Build.props"@).and_ok(
            |t: Seq<char>, c: Cursor|
                match dotnet_text::version_in(t) {
                    Some(version) => Next::Done(Ok(version), c),
                    None => Next::Done(Err(no_version_in(c.shown("Directory.Build.props"@))), c),
                },
        ),
        LayoutOf::Solution(projects) => first_version_step(c, projects, 0),
        LayoutOf::Projects(projects) => first_version_step(c, projects, 0),
    }
}

/// Add those of the projects from the one at `i` on that can be read and have
/// a version.
pub open spec fn versioned_step(
    c: Cursor,
    projects: Seq<Seq<char>>,
    i: int,
    out: Seq<Seq<char>>,
) -> Next<Seq<Seq<char>>>
    decreases projects.len() - i,
{
    if i >= projects.len() {
        Next::Done(out, c)
    } else {
        c.read(projects[i]).and(
            |t: Result<Seq<char>, ErrorView>, c: Cursor|
                versioned_step(
                    c,
                    projects,
                    i + 1,
                    if t matches Ok(t) && dotnet_text::version_in(t) is Some {
                        out.push(projects[i])
                    } else {
                        out
                    },
                ),
        )
    }
}

/// To look for a version is harmless.
pub broadcast proof fn lemma_first_version_calm(c: Cursor, projects: Seq<Seq<char>>, i: int)
    ensures
        (#[trigger] first_version_step(c, projects, i)).calm(),
    decreases projects.len() - i,
{
    if i < projects.len() {
        lemma_first_version_calm(c.past(), projects, i + 1);
    }
}

/// Further answers change nothing in what has ended.
pub broadcast proof fn lemma_first_version_kept(
    c: Cursor,
    projects: Seq<Seq<char>>,
    i: int,
    more: Seq<Answer>,
)
    ensures
        first_version_step(c, projects, i).kept(
            #[trigger] first_version_step(c.with(more), projects, i),
            more,
        ),
    decreases projects.len() - i,
{
    broadcast use session::lemma_past_with;

    if i < projects.len() {
        lemma_first_version_kept(c.past(), projects, i + 1, more);
    }
}

/// To look for projects that have a version is harmless.
pub broadcast proof fn lemma_versioned_calm(
    c: Cursor,
    projects: Seq<Seq<char>>,
    i: int,
    out: Seq<Seq<char>>,
)
    ensures
        (#[trigger] versioned_step(c, projects, i, out)).calm(),
    decreases projects.len() - i,
{
    if i < projects.len() {
        lemma_versioned_calm(c.past(), projects, i + 1, out);
        lemma_versioned_calm(c.past(), projects, i + 1, out.push(projects[i]));
    }
}

/// Further answers change nothing in what has ended.
pub broadcast proof fn lemma_versioned_kept(
    c: Cursor,
    projects: Seq<Seq<char>>,
    i: int,
    out: Seq<Seq<char>>,
    more: Seq<Answer>,
)
    ensures
        versioned_step(c, projects, i, out).kept(
            #[trigger] versioned_step(c.with(more), projects, i, out),
            more,
        ),
    decreases projects.len() - i,
{
    broadcast use session::lemma_past_with;

    if i < projects.len() {
        lemma_versioned_kept(c.past(), projects, i + 1, out, more);
        lemma_versioned_kept(c.past(), projects, i + 1, out.push(projects[i]), more);
    }
}

/// To look for projects to write is harmless.
pub broadcast proof fn lemma_preview_each_calm(
    c: Cursor,
    projects: Seq<Seq<char>>,
    i: int,
    out: Seq<Seq<char>>,
)
    ensures
        (#[trigger] preview_each_step(c, projects, i, out)).calm(),
    decreases projects.len() - i,
{
    if i < projects.len() {
        lemma_preview_each_calm(c.past(), projects, i + 1, out);
        lemma_preview_each_calm(c.past().past(), projects, i + 1, out);
        lemma_preview_each_calm(c.past().past(), projects, i + 1, out.push(projects[i]));
    }
}

/// Further answers change nothing in what has ended.
pub broadcast proof fn lemma_preview_each_kept(
    c: Cursor,
    projects: Seq<Seq<char>>,
    i: int,
    out: Seq<Seq<char>>,
    more: Seq<Answer>,
)
    ensures
        preview_each_step(c, projects, i, out).kept(
            #[trigger] preview_each_step(c.with(more), projects, i, out),
            more,
        ),
    decreases projects.len() - i,
{
    broadcast use session::lemma_past_with;

    if i < projects.len() {
        lemma_preview_each_kept(c.past(), projects, i + 1, out, more);
        lemma_preview_each_kept(c.past().past(), projects, i + 1, out, more);
        lemma_preview_each_kept(c.past().past(), projects, i + 1, out.push(projects[i]), more);
    }
}

/// To write a version into projects runs no program.
pub broadcast proof fn lemma_update_each_asks(
    c: Cursor,
    projects: Seq<Seq<char>>,
    i: int,
    any: bool,
    new: Seq<char>,
)
    ensures
        (#[trigger] update_each_step(c, projects, i, any, new)).runs_only(None),
    decreases projects.len() - i,
{
    if i < projects.len() {
        lemma_update_each_asks(c.past(), projects, i + 1, any, new);
        if let Next::Done(Ok(done), c2) = update_step(c.past(), projects[i], new) {
            lemma_update_each_asks(c2, projects, i + 1, true, new);
            lemma_update_each_asks(c2.past(), projects, i + 1, any, new);
        }
    }
}

/// Further answers change nothing in what has ended.
pub broadcast proof fn lemma_update_each_kept(
    c: Cursor,
    projects: Seq<Seq<char>>,
    i: int,
    any: bool,
    new: Seq<char>,
    more: Seq<Answer>,
)
    ensures
        update_each_step(c, projects, i, any, new).kept(
            #[trigger] update_each_step(c.with(more), projects, i, any, new),
            more,
        ),
    decreases projects.len() - i,
{
    broadcast use session::lemma_past_with;

    if i < projects.len() {
        lemma_update_each_kept(c.past(), projects, i + 1, any, new, more);
        if let Next::Done(Ok(done), c2) = update_step(c.past(), projects[i], new) {
            lemma_update_each_kept(c2, projects, i + 1, true, new, more);
            lemma_update_each_kept(c2.past(), projects, i + 1, any, new, more);
        }
    }
}

fn first_version(s: &mut Session<'_>, projects: &Vec<String>) -> (r: Step<Result<String, Error>>)
    ensures
        session::step(r, final(s)@) == first_version_step(old(s)@, projects.deep_view(), 0),
{
    let ghost all = projects.deep_view();
    let ghost whole = first_version_step(s@, all, 0);
    let mut i: usize = 0;
    while i < projects.len()
        invariant
            i <= projects.len(),
            all == projects.deep_view(),
            whole == first_version_step(old(s)@, all, 0),
            whole == first_version_step(s@, all, i as int),
        decreases projects.len() - i,
    {
        assert(all[i as int] == projects@[i as int]@);
        match s.read(&projects[i])? {
            Ok(t) => {
                if let Some(version) = dotnet_text::extract_version(&t) {
                    return Ok(Ok(version));
                }
            },
            Err(e) => {
                return Ok(Err(e));
            },
        }
        i = i + 1;
    }
    Ok(Err(ErrorOf::Absent(own("no <Version>...</Version> found in any project file"))))
}

fn update_version_in(s: &mut Session<'_>, path: &str, new: &str) -> (r: Step<
    Result<bool, Error>,
>)
    ensures
        session::step(r, final(s)@) == update_step(old(s)@, path@, new@),
{
    let t = match s.read(path)? {
        Ok(t) => t,
        Err(e) => {
            return Ok(Err(e));
        },
    };
    let old_version = match dotnet_text::extract_version(&t) {
        Some(version) => version,
        None => {
            return Ok(Ok(false));
        },
    };
    match dotnet_text::replace_version(&t, &old_version, new) {
        Some(after) => match s.write(path, &after)? {
            Ok(()) => Ok(Ok(true)),
            Err(e) => Ok(Err(e)),
        },
        None => Ok(
            Err(
                ErrorOf::Absent(plus("failed to rewrite <Version> element in ", &s.shown(path))),
            ),
        ),
    }
}

fn update_each(s: &mut Session<'_>, projects: &Vec<String>, new: &str) -> (r: Step<
    Result<(), Error>,
>)
    ensures
        session::step(r, final(s)@) == update_each_step(
            old(s)@,
            projects.deep_view(),
            0,
            false,
            new@,
        ),
{
    let ghost all = projects.deep_view();
    let ghost whole = update_each_step(s@, all, 0, false, new@);
    let mut any = false;
    let mut i: usize = 0;
    while i < projects.len()
        invariant
            i <= projects.len(),
            all == projects.deep_view(),
            whole == update_each_step(old(s)@, all, 0, false, new@),
            whole == update_each_step(s@, all, i as int, any, new@),
        decreases projects.len() - i,
    {
        assert(all[i as int] == projects@[i as int]@);
        if s.is_file(&projects[i])? {
            match update_version_in(s, &projects[i], new)? {
                Ok(true) => {
                    any = true;
                },
                Ok(false) => {
                    s.warn(
                        &plus3(
                            "warning: ",
                            &projects[i],
                            " has no <Version> element; skipping",
                        ),
                    )?;
                },
                Err(e) => {
                    return Ok(Err(e));
                },
            }
        }
        i = i + 1;
    }
    if any {
        Ok(Ok(()))
    } else {
        Ok(Err(ErrorOf::Absent(own("no <Version> element found in any discovered project"))))
    }
}

/// The projects that are there and have a version to write.
fn preview_each(s: &mut Session<'_>, projects: &Vec<String>) -> (r: Step<
    Result<Vec<String>, Error>,
>)
    ensures
        session::step(r, final(s)@) == preview_each_step(
            old(s)@,
            projects.deep_view(),
            0,
            Seq::empty(),
        ),
{
    let ghost all = projects.deep_view();
    let ghost whole = preview_each_step(s@, all, 0, Seq::empty());
    let mut out = list0();
    let mut i: usize = 0;
    while i < projects.len()
        invariant
            i <= projects.len(),
            all == projects.deep_view(),
            whole == preview_each_step(old(s)@, all, 0, Seq::empty()),
            whole == preview_each_step(s@, all, i as int, out.deep_view()),
        decreases projects.len() - i,
    {
        assert(all[i as int] == projects@[i as int]@);
        if s.is_file(&projects[i])? {
            match s.read(&projects[i])? {
                Ok(t) => {
                    if let Some(_) = dotnet_text::extract_version(&t) {
                        put(&mut out, projects[i].clone());
                    }
                },
                Err(e) => {
                    return Ok(Err(e));
                },
            }
        }
        i = i + 1;
    }
    Ok(Ok(out))
}

fn versioned(s: &mut Session<'_>, projects: &Vec<String>) -> (r: Step<Vec<String>>)
    ensures
        session::step(r, final(s)@) == versioned_step(
            old(s)@,
            projects.deep_view(),
            0,
            Seq::empty(),
        ),
{
    let ghost all = projects.deep_view();
    let ghost whole = versioned_step(s@, all, 0, Seq::empty());
    let mut out = list0();
    let mut i: usize = 0;
    while i < projects.len()
        invariant
            i <= projects.len(),
            all == projects.deep_view(),
            whole == versioned_step(old(s)@, all, 0, Seq::empty()),
            whole == versioned_step(s@, all, i as int, out.deep_view()),
        decreases projects.len() - i,
    {
        assert(all[i as int] == projects@[i as int]@);
        if let Ok(t) = s.read(&projects[i])? {
            if dotnet_text::has_version_element(&t) {
                put(&mut out, projects[i].clone());
            }
        }
        i = i + 1;
    }
    Ok(out)
}

impl Backend for Dotnet {
    open spec fn called(&self) -> Seq<char> {
        "dotnet"@
    }

    open spec fn read_step(&self, c: Cursor) -> Next<Result<Seq<char>, ErrorView>> {
        classify_step(c).and_ok(|layout: LayoutView, c: Cursor| read_layout_step(c, layout))
    }

    open spec fn write_step(&self, c: Cursor, new: Seq<char>) -> Next<Result<(), ErrorView>> {
        classify_step(c).and_ok(
            |layout: LayoutView, c: Cursor| update_layout_step(c, layout, new),
        )
    }

    open spec fn lock_step(&self, c: Cursor) -> Next<Result<(), ErrorView>> {
        c.run(""@, "dotnet"@, seq!["restore"@])
    }

    open spec fn lock_command(&self) -> Option<Seq<char>> {
        Some("dotnet restore"@)
    }

    open spec fn stage_step(&self, c: Cursor) -> Next<Seq<Seq<char>>> {
        classify_step(c).and(
            |layout: Result<LayoutView, ErrorView>, c: Cursor|
                match layout {
                    Ok(LayoutOf::CentralizedProps) => Next::Done(
                        seq!["Directory.Build.props"@],
                        c,
                    ),
                    Ok(LayoutOf::Solution(projects)) => versioned_step(
                        c,
                        projects,
                        0,
                        Seq::empty(),
                    ),
                    Ok(LayoutOf::Projects(projects)) => versioned_step(
                        c,
                        projects,
                        0,
                        Seq::empty(),
                    ),
                    Err(_) => Next::Done(Seq::empty(), c),
                },
        )
    }

    open spec fn publish_step(&self, c: Cursor) -> Next<Result<(), ErrorView>> {
        c.run(""@, "dotnet"@, seq!["pack"@, "-c"@, "Release"@])
    }

    open spec fn publish_preview_step(&self, c: Cursor) -> Next<
        Result<Option<Seq<char>>, ErrorView>,
    > {
        Next::Done(Ok(Some("dotnet pack -c Release"@)), c)
    }

    open spec fn writes_preview_step(&self, c: Cursor, new: Seq<char>) -> Next<
        Result<Seq<Seq<char>>, ErrorView>,
    > {
        classify_step(c).and_ok(|layout: LayoutView, c: Cursor| preview_layout_step(c, layout))
    }

    open spec fn publishable_step(&self, c: Cursor) -> Next<Result<bool, ErrorView>> {
        Next::Done(Ok(true), c)
    }

    proof fn law_asks(&self, c: Cursor, new: Seq<char>) {
        broadcast use {
            lemma_walk_calm,
            lemma_first_version_calm,
            lemma_versioned_calm,
            lemma_preview_each_calm,
            lemma_update_each_asks,
        };

        assert(self.lock_command() == Some(
            error::command_line("dotnet"@, seq!["restore"@]),
        )) by {
            reveal_strlit("dotnet");
            reveal_strlit(" ");
            reveal_strlit("restore");
            reveal_strlit("dotnet restore");
            assert(self.lock_command()->0 =~= error::command_line("dotnet"@, seq!["restore"@]));
        }
    }

    proof fn law_kept(&self, c: Cursor, new: Seq<char>, more: Seq<Answer>) {
        broadcast use {
            session::lemma_past_with,
            lemma_walk_kept,
            lemma_first_version_kept,
            lemma_versioned_kept,
            lemma_preview_each_kept,
            lemma_update_each_kept,
        };
    }

    fn name(&self) -> (r: &'static str) {
        "dotnet"
    }

    fn read_version(&self, s: &mut Session<'_>) -> (r: Step<Result<String, Error>>) {
        match classify(s)? {
            Ok(LayoutOf::CentralizedProps) => match s.read("Directory.Build.props")? {
                Ok(t) => match dotnet_text::extract_version(&t) {
                    Some(version) => Ok(Ok(version)),
                    None => Ok(
                        Err(
                            ErrorOf::Absent(
                                plus(
                                    "no <Version>...</Version> in ",
                                    &s.shown("Directory.Build.props"),
                                ),
                            ),
                        ),
                    ),
                },
                Err(e) => Ok(Err(e)),
            },
            Ok(LayoutOf::Solution(projects)) => first_version(s, &projects),
            Ok(LayoutOf::Projects(projects)) => first_version(s, &projects),
            Err(e) => Ok(Err(e)),
        }
    }

    fn write_version(&self, s: &mut Session<'_>, new: &str) -> (r: Step<Result<(), Error>>) {
        match classify(s)? {
            Ok(LayoutOf::CentralizedProps) => match update_version_in(
                s,
                "Directory.Build.props",
                new,
            )? {
                Ok(true) => Ok(Ok(())),
                Ok(false) => Ok(
                    Err(
                        ErrorOf::Absent(
                            plus(
                                "no <Version>...</Version> in ",
                                &s.shown("Directory.Build.props"),
                            ),
                        ),
                    ),
                ),
                Err(e) => Ok(Err(e)),
            },
            Ok(LayoutOf::Solution(projects)) => update_each(s, &projects, new),
            Ok(LayoutOf::Projects(projects)) => update_each(s, &projects, new),
            Err(e) => Ok(Err(e)),
        }
    }

    fn update_lockfile(&self, s: &mut Session<'_>) -> (r: Step<Result<(), Error>>) {
        s.run("", "dotnet", list1("restore"))
    }

    fn lockfile_command_preview(&self) -> (r: Option<String>) {
        Some(own("dotnet restore"))
    }

    fn files_to_stage(&self, s: &mut Session<'_>) -> (r: Step<Vec<String>>) {
        match classify(s)? {
            Ok(LayoutOf::CentralizedProps) => Ok(list1("Directory.Build.props")),
            Ok(LayoutOf::Solution(projects)) => versioned(s, &projects),
            Ok(LayoutOf::Projects(projects)) => versioned(s, &projects),
            Err(_) => Ok(list0()),
        }
    }

    fn publish(&self, s: &mut Session<'_>) -> (r: Step<Result<(), Error>>) {
        s.run("", "dotnet", list3("pack", "-c", "Release"))
    }

    fn publish_command_preview(&self, s: &mut Session<'_>) -> (r: Step<
        Result<Option<String>, Error>,
    >) {
        Ok(Ok(Some(own("dotnet pack -c Release"))))
    }

    fn additional_write_previews(&self, s: &mut Session<'_>, new: &str) -> (r: Step<
        Result<Vec<String>, Error>,
    >) {
        match classify(s)? {
            Ok(LayoutOf::CentralizedProps) => Ok(Ok(list0())),
            Ok(LayoutOf::Solution(projects)) => preview_each(s, &projects),
            Ok(LayoutOf::Projects(projects)) => preview_each(s, &projects),
            Err(e) => Ok(Err(e)),
        }
    }

    fn is_publishable(&self, s: &mut Session<'_>) -> (r: Step<Result<bool, Error>>) {
        Ok(Ok(true))
    }
}

} // verus!
