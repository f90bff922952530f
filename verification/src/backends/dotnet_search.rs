//! Which project files a .NET project has.

use vstd::prelude::*;

use crate::backends::dotnet;
use crate::backends::dotnet::FrameView;
use crate::backends::dotnet::LayoutOf;
use crate::backends::dotnet::LayoutView;
use crate::backends::dotnet_roundtrip::classified;
use crate::backends::dotnet_text;
use crate::conversation;
use crate::error::ErrorOf;
use crate::error::ErrorView;
use crate::memory;
use crate::paths;
use crate::session;
use crate::session::Answer;
use crate::session::AskOf;
use crate::session::AskView;
use crate::session::Cursor;
use crate::session::Kind;
use crate::session::Listed;
use crate::session::Next;

verus! {

/// The names of directories that are not looked into.
pub open spec fn passed_over() -> Seq<Seq<char>> {
    seq!["bin"@, "obj"@, ".git"@, "node_modules"@, "target"@, ".vs"@]
}

/// The entry `e` of `dir` is the project file at `path`, or a directory that
/// has it `depth` directories down. Symbolic links are not followed.
pub open spec fn has_project(
    host: spec_fn(AskView) -> Answer,
    sep: char,
    dir: Seq<char>,
    e: Listed,
    path: Seq<char>,
    depth: nat,
) -> bool
    decreases depth,
{
    match e {
        Listed::Entry(name, true, Kind::Other) => depth == 0 && path == paths::joined_to(
            dir,
            name@,
            sep,
        ) && (paths::has_extension(name@, "csproj"@) || paths::has_extension(name@, "fsproj"@)),
        Listed::Entry(name, true, Kind::Dir) => {
            let inner = paths::joined_to(dir, name@, sep);
            depth > 0 && !passed_over().contains(name@) && (session::listing(
                host(AskOf::List(inner)),
            ) matches Ok(entries) && exists|k: int|
                0 <= k < entries.len() && has_project(
                    host,
                    sep,
                    inner,
                    #[trigger] entries[k],
                    path,
                    (depth - 1) as nat,
                ))
        },
        _ => false,
    }
}

/// One of the entries of a directory that are not done has the project file.
spec fn frame_has(
    host: spec_fn(AskView) -> Answer,
    sep: char,
    frame: FrameView,
    path: Seq<char>,
) -> bool {
    exists|k: int, depth: nat|
        frame.at <= k < frame.entries.len() && #[trigger] has_project(
            host,
            sep,
            frame.dir,
            frame.entries[k],
            path,
            depth,
        )
}

spec fn some_has(
    host: spec_fn(AskView) -> Answer,
    sep: char,
    frames: Seq<FrameView>,
    path: Seq<char>,
) -> bool {
    exists|j: int| 0 <= j < frames.len() && #[trigger] frame_has(host, sep, frames[j], path)
}

spec fn entry_has(
    host: spec_fn(AskView) -> Answer,
    sep: char,
    dir: Seq<char>,
    e: Listed,
    path: Seq<char>,
) -> bool {
    exists|depth: nat| #[trigger] has_project(host, sep, dir, e, path, depth)
}

proof fn lemma_push_has(
    host: spec_fn(AskView) -> Answer,
    sep: char,
    frames: Seq<FrameView>,
    frame: FrameView,
    path: Seq<char>,
)
    ensures
        some_has(host, sep, frames.push(frame), path) == (some_has(host, sep, frames, path)
            || frame_has(host, sep, frame, path)),
{
    let all = frames.push(frame);
    if some_has(host, sep, all, path) {
        let j = choose|j: int|
            0 <= j < all.len() && #[trigger] frame_has(host, sep, all[j], path);
        if j < frames.len() {
            assert(frame_has(host, sep, frames[j], path));
        }
    }
    if some_has(host, sep, frames, path) {
        let j = choose|j: int|
            0 <= j < frames.len() && #[trigger] frame_has(host, sep, frames[j], path);
        assert(frame_has(host, sep, all[j], path));
    }
    if frame_has(host, sep, frame, path) {
        assert(frame_has(host, sep, all[frames.len() as int], path));
    }
}

proof fn lemma_drop_has(
    host: spec_fn(AskView) -> Answer,
    sep: char,
    frames: Seq<FrameView>,
    path: Seq<char>,
)
    requires
        frames.len() > 0,
    ensures
        frames.last().at >= frames.last().entries.len() ==> some_has(host, sep, frames, path)
            == some_has(host, sep, frames.drop_last(), path),
        0 <= frames.last().at < frames.last().entries.len() ==> some_has(host, sep, frames, path)
            == (some_has(host, sep, dotnet::advanced(frames), path) || entry_has(
            host,
            sep,
            frames.last().dir,
            frames.last().entries[frames.last().at],
            path,
        )),
{
    let top = frames.last();
    let next = FrameView { at: top.at + 1, ..top };
    assert(frames.drop_last().push(top) =~= frames);
    lemma_push_has(host, sep, frames.drop_last(), top, path);
    lemma_push_has(host, sep, frames.drop_last(), next, path);
    if 0 <= top.at < top.entries.len() {
        let e = top.entries[top.at];
        if frame_has(host, sep, top, path) {
            let (k, depth) = choose|k: int, depth: nat|
                top.at <= k < top.entries.len() && #[trigger] has_project(
                    host,
                    sep,
                    top.dir,
                    top.entries[k],
                    path,
                    depth,
                );
            if k > top.at {
                assert(has_project(host, sep, next.dir, next.entries[k], path, depth));
                assert(frame_has(host, sep, next, path));
            } else {
                assert(entry_has(host, sep, top.dir, e, path));
            }
        }
        if frame_has(host, sep, next, path) {
            let (k, depth) = choose|k: int, depth: nat|
                next.at <= k < next.entries.len() && #[trigger] has_project(
                    host,
                    sep,
                    next.dir,
                    next.entries[k],
                    path,
                    depth,
                );
            assert(has_project(host, sep, top.dir, top.entries[k], path, depth));
        }
        if entry_has(host, sep, top.dir, e, path) {
            let depth = choose|depth: nat| #[trigger]
                has_project(host, sep, top.dir, e, path, depth);
            assert(has_project(host, sep, top.dir, top.entries[top.at], path, depth));
        }
    }
}

/// A directory has what its entries have.
proof fn lemma_dir_has(
    host: spec_fn(AskView) -> Answer,
    sep: char,
    dir: Seq<char>,
    e: Listed,
    entries: Seq<Listed>,
    path: Seq<char>,
)
    requires
        e matches Listed::Entry(name, true, Kind::Dir) && !dotnet::skipped(name@)
            && session::listing(host(AskOf::List(paths::joined_to(dir, name@, sep)))) == Ok::<
            Seq<Listed>,
            Seq<char>,
        >(entries),
    ensures
        entry_has(host, sep, dir, e, path) == frame_has(
            host,
            sep,
            (FrameView { dir: paths::joined_to(dir, e->Entry_0@, sep), entries, at: 0 }),
            path,
        ),
{
    let inner = paths::joined_to(dir, e->Entry_0@, sep);
    let frame = FrameView { dir: inner, entries, at: 0 };
    lemma_passed_over(e->Entry_0@);
    if entry_has(host, sep, dir, e, path) {
        let depth = choose|depth: nat| #[trigger] has_project(host, sep, dir, e, path, depth);
        let k = choose|k: int|
            0 <= k < entries.len() && has_project(
                host,
                sep,
                inner,
                #[trigger] entries[k],
                path,
                (depth - 1) as nat,
            );
        assert(has_project(host, sep, frame.dir, frame.entries[k], path, (depth - 1) as nat));
    }
    if frame_has(host, sep, frame, path) {
        let (k, depth) = choose|k: int, depth: nat|
            frame.at <= k < frame.entries.len() && #[trigger] has_project(
                host,
                sep,
                frame.dir,
                frame.entries[k],
                path,
                depth,
            );
        let above: nat = depth + 1;
        assert((above - 1) as nat == depth);
        assert(has_project(host, sep, inner, entries[k], path, (above - 1) as nat));
        let inside = session::listing(host(AskOf::List(inner)))->Ok_0;
        assert(inside[k] == entries[k]);
        assert(has_project(host, sep, dir, e, path, above));
    }
}

proof fn lemma_passed_over(name: Seq<char>)
    ensures
        passed_over().contains(name) == dotnet::skipped(name),
{
    let all = passed_over();
    assert(all[0] == "bin"@ && all[1] == "obj"@ && all[2] == ".git"@);
    assert(all[3] == "node_modules"@ && all[4] == "target"@ && all[5] == ".vs"@);
}

spec fn ended(paths: Seq<Seq<char>>, c: Cursor) -> Next<Result<LayoutView, ErrorView>> {
    if paths.len() == 0 {
        Next::Done(
            Err(ErrorOf::Absent("no .csproj / .fsproj / Directory.Build.props in "@ + c.root)),
            c,
        )
    } else {
        Next::Done(Ok(LayoutOf::Projects(paths)), c)
    }
}

spec fn walk_flow(frames: Seq<FrameView>, out: Seq<Seq<char>>) -> spec_fn(Cursor) -> Next<
    Result<LayoutView, ErrorView>,
> {
    |c: Cursor|
        dotnet::walk_step(c, frames, out).and_ok(
            |paths: Seq<Seq<char>>, c: Cursor| ended(paths, c),
        )
}

proof fn lemma_alike<T>(
    f: spec_fn(Cursor) -> Next<T>,
    g: spec_fn(Cursor) -> Next<T>,
    c: Cursor,
    host: spec_fn(AskView) -> Answer,
    n: nat,
)
    requires
        forall|more: Seq<Answer>| f(#[trigger] c.with(more)) == g(c.with(more)),
    ensures
        conversation::replies(f, c, host, n) == conversation::replies(g, c, host, n),
        conversation::stands(f, c, host, n) == conversation::stands(g, c, host, n),
    decreases n,
{
    if n > 0 {
        lemma_alike(f, g, c, host, (n - 1) as nat);
    }
}

/// What a walk finds is what was found, and what the entries that are left have.
proof fn lemma_walk(
    c: Cursor,
    host: spec_fn(AskView) -> Answer,
    frames: Seq<FrameView>,
    out: Seq<Seq<char>>,
    n: nat,
    layout: LayoutView,
)
    requires
        conversation::waiting(c),
        forall|j: int| 0 <= j < frames.len() ==> 0 <= (#[trigger] frames[j]).at,
        conversation::stands(walk_flow(frames, out), c, host, n) matches Next::Done(Ok(v), _) && v
            == layout,
    ensures
        layout matches LayoutOf::Projects(paths) && paths.len() > 0 && forall|p: Seq<char>|
            #[trigger] paths.contains(p) == (out.contains(p) || some_has(host, c.sep, frames, p)),
    decreases n, dotnet::left(frames), 1int,
{
    let f = walk_flow(frames, out);
    dotnet::lemma_left(frames);
    assert(c.with(Seq::empty()) =~= c);
    if frames.len() == 0 {
        conversation::lemma_silent(f, c, host, n);
    } else {
        let top = frames.last();
        assert(top == frames[frames.len() - 1]);
        let rest = dotnet::advanced(frames);
        assert forall|p: Seq<char>| true implies (#[trigger] some_has(host, c.sep, frames, p)) == (
        if top.at >= top.entries.len() {
            some_has(host, c.sep, frames.drop_last(), p)
        } else {
            some_has(host, c.sep, rest, p) || entry_has(
                host,
                c.sep,
                top.dir,
                top.entries[top.at],
                p,
            )
        }) by {
            lemma_drop_has(host, c.sep, frames, p);
        }
        if top.at >= top.entries.len() {
            lemma_alike(f, walk_flow(frames.drop_last(), out), c, host, n);
            lemma_walk(c, host, frames.drop_last(), out, n, layout);
        } else {
            lemma_entry(c, host, frames, out, n, layout);
        }
    }
}

proof fn lemma_entry(
    c: Cursor,
    host: spec_fn(AskView) -> Answer,
    frames: Seq<FrameView>,
    out: Seq<Seq<char>>,
    n: nat,
    layout: LayoutView,
)
    requires
        conversation::waiting(c),
        frames.len() > 0,
        forall|j: int| 0 <= j < frames.len() ==> 0 <= (#[trigger] frames[j]).at,
        frames.last().at < frames.last().entries.len(),
        conversation::stands(walk_flow(frames, out), c, host, n) matches Next::Done(Ok(v), _) && v
            == layout,
    ensures
        layout matches LayoutOf::Projects(paths) && paths.len() > 0 && forall|p: Seq<char>|
            #[trigger] paths.contains(p) == (out.contains(p) || some_has(
                host,
                c.sep,
                dotnet::advanced(frames),
                p,
            ) || entry_has(
                host,
                c.sep,
                frames.last().dir,
                frames.last().entries[frames.last().at],
                p,
            )),
    decreases n, dotnet::left(frames), 0int,
{
    let f = walk_flow(frames, out);
    dotnet::lemma_left(frames);
    assert(c.with(Seq::empty()) =~= c);
    let top = frames.last();
    assert(top == frames[frames.len() - 1]);
    let rest = dotnet::advanced(frames);
    let e = top.entries[top.at];
    if e is Failed {
        conversation::lemma_silent(f, c, host, n);
    }
    if let Listed::Entry(name, utf8, kind) = e {
        let path = paths::joined_to(top.dir, name@, c.sep);
        if utf8 && kind is Dir && !dotnet::skipped(name@) {
            let q: AskView = AskOf::List(path);
            let a = host(q);
            let c2 = conversation::told(c, a);
            conversation::lemma_told(c, a);
            assert(f(c) == Next::<Result<LayoutView, ErrorView>>::Ask(q));
            match session::listing(a) {
                Ok(entries) => {
                    let frame = FrameView { dir: path, entries, at: 0 };
                    let g = walk_flow(rest.push(frame), out);
                    assert(n > 0);
                    conversation::lemma_goes_on(f, g, c, host, q, n);
                    lemma_walk(c2, host, rest.push(frame), out, (n - 1) as nat, layout);
                    assert forall|p: Seq<char>| true implies #[trigger] some_has(
                        host,
                        c.sep,
                        rest.push(frame),
                        p,
                    ) == (some_has(host, c.sep, rest, p) || entry_has(
                        host,
                        c.sep,
                        top.dir,
                        e,
                        p,
                    )) by {
                        lemma_push_has(host, c.sep, rest, frame, p);
                        lemma_dir_has(host, c.sep, top.dir, e, entries, p);
                    }
                },
                Err(_) => {
                    conversation::lemma_ends(f, c, host, q, n);
                },
            }
        } else if utf8 && kind is Unknown {
            conversation::lemma_silent(f, c, host, n);
        } else {
            let more = if utf8 && kind is Other && (paths::has_extension(name@, "csproj"@)
                || paths::has_extension(name@, "fsproj"@)) {
                out.push(path)
            } else {
                out
            };
            lemma_alike(f, walk_flow(rest, more), c, host, n);
            lemma_walk(c, host, rest, more, n, layout);
            lemma_passed_over(name@);
            assert forall|p: Seq<char>| true implies #[trigger] more.contains(p) == (out.contains(p)
                || entry_has(host, c.sep, top.dir, e, p)) by {
                if more != out {
                    assert(more[out.len() as int] == path);
                    if out.contains(p) {
                        let i = choose|i: int| 0 <= i < out.len() && out[i] == p;
                        assert(more[i] == p);
                    }
                    assert(has_project(host, c.sep, top.dir, e, path, 0));
                }
            }
        }
    }
}

spec fn tree_flow() -> spec_fn(Cursor) -> Next<Result<LayoutView, ErrorView>> {
    |c: Cursor| dotnet::tree_step(c)
}

spec fn projects_flow() -> spec_fn(Cursor) -> Next<Result<LayoutView, ErrorView>> {
    |c: Cursor| dotnet::projects_step(c)
}

/// There is a project file at `path` in the tree of the project.
pub open spec fn in_tree(host: spec_fn(AskView) -> Answer, sep: char, path: Seq<char>) -> bool {
    session::listing(host(AskOf::List(""@))) matches Ok(entries) && exists|k: int, depth: nat|
        0 <= k < entries.len() && #[trigger] has_project(
            host,
            sep,
            ""@,
            entries[k],
            path,
            depth,
        )
}

/// The entry at `i` is the first one that is a solution.
pub open spec fn first_solution(entries: Seq<Listed>, i: int) -> bool {
    &&& 0 <= i < entries.len()
    &&& entries[i] matches Listed::Entry(name, _, _) && paths::has_extension(name@, "sln"@)
    &&& forall|k: int|
        0 <= k < i ==> (#[trigger] entries[k] matches Listed::Entry(name, _, _)
            && !paths::has_extension(name@, "sln"@))
}

proof fn lemma_solution(entries: Seq<Listed>, i: int) -> (k: int)
    requires
        0 <= i,
        forall|k: int|
            0 <= k < i ==> (#[trigger] entries[k] matches Listed::Entry(name, _, _)
                && !paths::has_extension(name@, "sln"@)),
    ensures
        dotnet::solution_among(entries, i) matches Ok(Some(sln)) ==> first_solution(entries, k)
            && entries[k]->Entry_0@ == sln,
        dotnet::solution_among(entries, i) matches Ok(None) ==> forall|k: int|
            !#[trigger] first_solution(entries, k),
    decreases entries.len() - i,
{
    if i < entries.len() {
        match entries[i] {
            Listed::Entry(name, _, _) if !paths::has_extension(name@, "sln"@) => {
                lemma_solution(entries, i + 1)
            },
            _ => i,
        }
    } else {
        i
    }
}

proof fn lemma_tree(c: Cursor, host: spec_fn(AskView) -> Answer, n: nat, layout: LayoutView)
    requires
        conversation::waiting(c),
        conversation::stands(tree_flow(), c, host, n) matches Next::Done(Ok(v), _) && v == layout,
    ensures
        layout matches LayoutOf::Projects(paths) && paths.len() > 0 && forall|p: Seq<char>|
            #[trigger] paths.contains(p) == in_tree(host, c.sep, p),
{
    let f = tree_flow();
    let q: AskView = AskOf::List(""@);
    let a = host(q);
    let c2 = conversation::told(c, a);
    conversation::lemma_told(c, a);
    assert(c.with(Seq::empty()) =~= c);
    assert(f(c) == Next::<Result<LayoutView, ErrorView>>::Ask(q));
    match session::listing(a) {
        Ok(entries) => {
            let frame = FrameView { dir: ""@, entries, at: 0 };
            let none = Seq::<Seq<char>>::empty();
            conversation::lemma_goes_on(f, walk_flow(seq![frame], none), c, host, q, n);
            lemma_walk(c2, host, seq![frame], none, (n - 1) as nat, layout);
            assert forall|p: Seq<char>| true implies #[trigger] some_has(
                host,
                c.sep,
                seq![frame],
                p,
            ) == in_tree(host, c.sep, p) by {
                assert(seq![frame][0] == frame);
                if in_tree(host, c.sep, p) {
                    let (k, depth) = choose|k: int, depth: nat|
                        0 <= k < entries.len() && #[trigger] has_project(
                            host,
                            c.sep,
                            ""@,
                            entries[k],
                            p,
                            depth,
                        );
                    assert(has_project(host, c.sep, frame.dir, frame.entries[k], p, depth));
                    assert(frame_has(host, c.sep, seq![frame][0], p));
                }
                if some_has(host, c.sep, seq![frame], p) {
                    assert(frame_has(host, c.sep, frame, p));
                    let (k, depth) = choose|k: int, depth: nat|
                        frame.at <= k < frame.entries.len() && #[trigger] has_project(
                            host,
                            c.sep,
                            frame.dir,
                            frame.entries[k],
                            p,
                            depth,
                        );
                    assert(has_project(host, c.sep, ""@, entries[k], p, depth));
                }
            }
        },
        Err(_) => {
            conversation::lemma_ends(f, c, host, q, n);
        },
    }
}

/// What the files of a project say of where its version stands, without a
/// central one.
pub open spec fn stands_in_projects(
    host: spec_fn(AskView) -> Answer,
    sep: char,
    layout: LayoutView,
) -> bool {
    match layout {
        LayoutOf::CentralizedProps => false,
        LayoutOf::Solution(projects) => session::listing(host(AskOf::List(""@))) matches Ok(entries)
            && (exists|i: int|
            #[trigger] first_solution(entries, i) && (memory::file(
                host,
                entries[i]->Entry_0@,
            ) matches Some(t) && projects == dotnet_text::projects_in(t))) && projects.len() > 0,
        LayoutOf::Projects(projects) => {
            &&& session::listing(host(AskOf::List(""@))) matches Ok(entries) && forall|i: int|
                #[trigger] first_solution(entries, i) ==> (memory::file(
                    host,
                    entries[i]->Entry_0@,
                ) matches Some(t) && dotnet_text::projects_in(t).len() == 0)
            &&& projects.len() > 0
            &&& forall|p: Seq<char>| #[trigger] projects.contains(p) == in_tree(host, sep, p)
        },
    }
}

proof fn lemma_only_solution(entries: Seq<Listed>, i: int, k: int)
    requires
        first_solution(entries, i),
        first_solution(entries, k),
    ensures
        i == k,
{
    if i < k {
        assert(entries[i] is Entry);
    }
    if k < i {
        assert(entries[k] is Entry);
    }
}

proof fn lemma_projects(c: Cursor, host: spec_fn(AskView) -> Answer, n: nat, layout: LayoutView)
    requires
        conversation::waiting(c),
        conversation::stands(projects_flow(), c, host, n) matches Next::Done(Ok(v), _) && v
            == layout,
    ensures
        stands_in_projects(host, c.sep, layout),
{
    let f = projects_flow();
    let q: AskView = AskOf::List(""@);
    let a = host(q);
    let c2 = conversation::told(c, a);
    conversation::lemma_told(c, a);
    assert(c.with(Seq::empty()) =~= c);
    assert(f(c) == Next::<Result<LayoutView, ErrorView>>::Ask(q));
    match session::listing(a) {
        Ok(entries) => {
            let i = lemma_solution(entries, 0);
            assert forall|k: int| #[trigger] first_solution(entries, k) && first_solution(
                entries,
                i,
            ) implies k == i by {
                lemma_only_solution(entries, i, k);
            }
            match dotnet::solution_among(entries, 0) {
                Ok(Some(sln)) => {
                    let g = |c: Cursor|
                        c.read(sln).and_ok(
                            |t: Seq<char>, c: Cursor|
                                if dotnet_text::projects_in(t).len() > 0 {
                                    Next::Done(
                                        Ok(LayoutOf::Solution(dotnet_text::projects_in(t))),
                                        c,
                                    )
                                } else {
                                    dotnet::tree_step(c)
                                },
                        );
                    conversation::lemma_goes_on(f, g, c, host, q, n);
                    lemma_solution_read(c2, host, g, sln, (n - 1) as nat, layout);
                },
                Ok(None) => {
                    conversation::lemma_goes_on(f, tree_flow(), c, host, q, n);
                    lemma_tree(c2, host, (n - 1) as nat, layout);
                },
                Err(_) => {
                    conversation::lemma_ends(f, c, host, q, n);
                },
            }
        },
        Err(_) => {
            conversation::lemma_ends(f, c, host, q, n);
        },
    }
}

proof fn lemma_solution_read(
    c: Cursor,
    host: spec_fn(AskView) -> Answer,
    g: spec_fn(Cursor) -> Next<Result<LayoutView, ErrorView>>,
    sln: Seq<char>,
    n: nat,
    layout: LayoutView,
)
    requires
        conversation::waiting(c),
        forall|c: Cursor|
            #[trigger] g(c) == c.read(sln).and_ok(
                |t: Seq<char>, c: Cursor|
                    if dotnet_text::projects_in(t).len() > 0 {
                        Next::Done(Ok(LayoutOf::Solution(dotnet_text::projects_in(t))), c)
                    } else {
                        dotnet::tree_step(c)
                    },
            ),
        conversation::stands(g, c, host, n) matches Next::Done(Ok(v), _) && v == layout,
    ensures
        memory::file(host, sln) matches Some(t) && if dotnet_text::projects_in(t).len() > 0 {
            layout == LayoutView::Solution(dotnet_text::projects_in(t))
        } else {
            layout matches LayoutOf::Projects(paths) && paths.len() > 0 && forall|p: Seq<char>|
                #[trigger] paths.contains(p) == in_tree(host, c.sep, p)
        },
{
    let q: AskView = AskOf::Read(sln);
    let a = host(q);
    conversation::lemma_told(c, a);
    assert(c.with(Seq::empty()) =~= c);
    assert(g(c) == Next::<Result<LayoutView, ErrorView>>::Ask(q));
    match memory::file(host, sln) {
        Some(t) if dotnet_text::projects_in(t).len() == 0 => {
            conversation::lemma_goes_on(g, tree_flow(), c, host, q, n);
            lemma_tree(conversation::told(c, a), host, (n - 1) as nat, layout);
        },
        _ => {
            conversation::lemma_ends(g, c, host, q, n);
        },
    }
}

/// The version of a .NET project stands in `Directory.Build.props`, if that is
/// there and has one; else in the projects that the first solution lists; and
/// if there is no solution, or it lists none, in the project files of the tree:
/// all of them, and nothing else.
pub proof fn law_files_tell_where_the_version_stands(
    c: Cursor,
    host: spec_fn(AskView) -> Answer,
    n: nat,
    layout: LayoutView,
)
    requires
        conversation::waiting(c),
        conversation::stands(classified(), c, host, n) matches Next::Done(Ok(v), _) && v == layout,
    ensures
        if host(AskOf::IsFile("Directory.Build.props"@)) is Yes {
            memory::file(host, "Directory.Build.props"@) matches Some(t)
                && if dotnet_text::version_in(t) is Some {
                layout is CentralizedProps
            } else {
                stands_in_projects(host, c.sep, layout)
            }
        } else {
            stands_in_projects(host, c.sep, layout)
        },
{
    let f = classified();
    let q: AskView = AskOf::IsFile("Directory.Build.props"@);
    let a = host(q);
    let c2 = conversation::told(c, a);
    conversation::lemma_told(c, a);
    assert(c.with(Seq::empty()) =~= c);
    assert(f(c) == Next::<Result<LayoutView, ErrorView>>::Ask(q));
    if a is Yes {
        let r: AskView = AskOf::Read("Directory.Build.props"@);
        let b = host(r);
        let g = |c: Cursor|
            c.read("Directory.Build.props"@).and_ok(
                |t: Seq<char>, c: Cursor|
                    if dotnet_text::version_in(t) is Some {
                        Next::Done(Ok(LayoutOf::CentralizedProps), c)
                    } else {
                        dotnet::projects_step(c)
                    },
            );
        conversation::lemma_goes_on(f, g, c, host, q, n);
        let k = (n - 1) as nat;
        conversation::lemma_told(c2, b);
        assert(c2.with(Seq::empty()) =~= c2);
        assert(g(c2) == Next::<Result<LayoutView, ErrorView>>::Ask(r));
        match memory::file(host, "Directory.Build.props"@) {
            Some(t) if dotnet_text::version_in(t) is None => {
                conversation::lemma_goes_on(g, projects_flow(), c2, host, r, k);
                lemma_projects(conversation::told(c2, b), host, (k - 1) as nat, layout);
            },
            _ => {
                conversation::lemma_ends(g, c2, host, r, k);
            },
        }
    } else {
        conversation::lemma_goes_on(f, projects_flow(), c, host, q, n);
        lemma_projects(c2, host, (n - 1) as nat, layout);
    }
}

} // verus!
