//! What is written into the project files of a .NET project is what is read from
//! them.

use vstd::prelude::*;

use crate::backend::Backend;
use crate::backends::dotnet;
use crate::backends::dotnet::Dotnet;
use crate::backends::dotnet::FrameView;
use crate::backends::dotnet::LayoutOf;
use crate::backends::dotnet::LayoutView;
use crate::backends::dotnet_text;
use crate::conversation;
use crate::error::ErrorView;
use crate::memory;
use crate::paths;
use crate::session;
use crate::session::Answer;
use crate::session::AskOf;
use crate::session::AskView;
use crate::session::Cursor;
use crate::session::Listed;
use crate::session::Next;
use crate::text;

verus! {

// ---------------------------------------------------------------------------
// The search for projects
// ---------------------------------------------------------------------------

spec fn walk_flow(frames: Seq<FrameView>, out: Seq<Seq<char>>) -> spec_fn(Cursor) -> Next<
    Result<Seq<Seq<char>>, ErrorView>,
> {
    |c: Cursor| dotnet::walk_step(c, frames, out)
}

/// To walk uses no answers but those that it passes, and asks only for listings.
proof fn lemma_walk(c: Cursor, frames: Seq<FrameView>, out: Seq<Seq<char>>)
    requires
        c.at <= c.answers.len(),
    ensures
        conversation::tight(walk_flow(frames, out), c),
        dotnet::walk_step(c, frames, out) matches Next::Ask(q) ==> q is List,
    decreases c.answers.len() - c.at, dotnet::left(frames),
{
    dotnet::lemma_left(frames);
    let f = walk_flow(frames, out);
    if frames.len() > 0 {
        let fewer = frames.drop_last();
        let further = dotnet::advanced(frames);
        if frames.last().at >= frames.last().entries.len() {
            lemma_walk(c, fewer, out);
            if let Next::Done(v, c2) = f(c) {
                assert forall|k: int| c2.at <= k <= c.answers.len() implies f(
                    #[trigger] conversation::cut(c, k),
                ) == Next::Done(v, conversation::cut(c2, k)) by {
                    assert(walk_flow(fewer, out)(conversation::cut(c, k)) == Next::Done(
                        v,
                        conversation::cut(c2, k),
                    ));
                }
            }
        } else {
            lemma_walk(c, further, out);
            if let Listed::Entry(name, utf8, kind) = frames.last().entries[frames.last().at] {
                let path = paths::joined_to(frames.last().dir, name@, c.sep);
                lemma_walk(c, further, out.push(path));
                if c.answered() {
                    if let Ok(entries) = session::listing(c.answer()) {
                        let deeper = further.push(FrameView { dir: path, entries, at: 0 });
                        lemma_walk(c.past(), deeper, out);
                        if let Next::Done(v, c2) = dotnet::walk_step(c.past(), deeper, out) {
                            assert forall|k: int| c2.at <= k <= c.answers.len() implies walk_flow(
                                deeper,
                                out,
                            )(#[trigger] conversation::cut(c, k).past()) == Next::Done(
                                v,
                                conversation::cut(c2, k),
                            ) by {
                                assert(conversation::cut(c, k).past() == conversation::cut(
                                    c.past(),
                                    k,
                                ));
                            }
                        }
                    }
                }
                if let Next::Done(v, c2) = f(c) {
                    assert forall|k: int| c2.at <= k <= c.answers.len() implies f(
                        #[trigger] conversation::cut(c, k),
                    ) == Next::Done(v, conversation::cut(c2, k)) by {
                        let d = conversation::cut(c, k);
                        let (a, b) = (walk_flow(further, out), walk_flow(further, out.push(path)));
                        if let Next::Done(w, x) = a(c) {
                            if x.at <= k {
                                assert(a(d) == Next::Done(w, conversation::cut(x, k)));
                            }
                        }
                        if let Next::Done(w, x) = b(c) {
                            if x.at <= k {
                                assert(b(d) == Next::Done(w, conversation::cut(x, k)));
                            }
                        }
                        if c.answered() && c2.at > c.at {
                            assert(d.answered() && d.answer() == c.answer());
                        }
                        assert(d.past() == conversation::cut(c.past(), k));
                    }
                }
            }
        }
    }
}

/// The first frame of a walk.
spec fn whole_tree(entries: Seq<Listed>) -> Seq<FrameView> {
    seq![FrameView { dir: ""@, entries, at: 0 }]
}

spec fn tree_flow() -> spec_fn(Cursor) -> Next<Result<LayoutView, ErrorView>> {
    |c: Cursor| dotnet::tree_step(c)
}

proof fn lemma_tree(c: Cursor)
    requires
        c.at <= c.answers.len(),
    ensures
        conversation::tight(tree_flow(), c),
        dotnet::tree_step(c) matches Next::Ask(q) ==> q is List,
        dotnet::tree_step(c) matches Next::Done(Ok(layout), _) ==> layout is Projects,
{
    let f = tree_flow();
    if c.answered() {
        if let Ok(entries) = session::listing(c.answer()) {
            let frames = whole_tree(entries);
            lemma_walk(c.past(), frames, Seq::empty());
            if let Next::Done(v, c2) = dotnet::walk_step(c.past(), frames, Seq::empty()) {
                assert forall|k: int| c2.at <= k <= c.answers.len() implies walk_flow(
                    frames,
                    Seq::empty(),
                )(#[trigger] conversation::cut(c, k).past()) == Next::Done(
                    v,
                    conversation::cut(c2, k),
                ) by {
                    assert(conversation::cut(c, k).past() == conversation::cut(c.past(), k));
                }
            }
        }
        if let Next::Done(v, c2) = f(c) {
            assert forall|k: int| c2.at <= k <= c.answers.len() implies f(
                #[trigger] conversation::cut(c, k),
            ) == Next::Done(v, conversation::cut(c2, k)) by {
                let d = conversation::cut(c, k);
                assert(d.answered() && d.answer() == c.answer());
                assert(d.past() == conversation::cut(c.past(), k));
            }
        }
    }
}

proof fn lemma_solution(entries: Seq<Listed>, i: int)
    ensures
        dotnet::solution_among(entries, i) matches Ok(Some(name)) ==> paths::has_extension(
            name,
            "sln"@,
        ),
    decreases entries.len() - i,
{
    if i < entries.len() {
        lemma_solution(entries, i + 1);
    }
}

/// The path is that of a file that tells where the versions are.
pub open spec fn is_special(path: Seq<char>) -> bool {
    path == "Directory.Build.props"@ || paths::has_extension(path, "sln"@)
}

spec fn projects_flow() -> spec_fn(Cursor) -> Next<Result<LayoutView, ErrorView>> {
    |c: Cursor| dotnet::projects_step(c)
}

proof fn lemma_projects(c: Cursor)
    requires
        c.at <= c.answers.len(),
    ensures
        conversation::tight(projects_flow(), c),
        dotnet::projects_step(c) matches Next::Ask(q) ==> q.harmless() && (q matches AskOf::Read(p)
            ==> is_special(p)),
        dotnet::projects_step(c) matches Next::Done(Ok(layout), _) ==> !(layout is
            CentralizedProps),
{
    let f = projects_flow();
    if c.answered() {
        lemma_tree(c.past());
        if c.past().answered() {
            lemma_tree(c.past().past());
        }
        if let Ok(entries) = session::listing(c.answer()) {
            lemma_solution(entries, 0);
        }
        if let Next::Done(v, c2) = f(c) {
            assert forall|k: int| c2.at <= k <= c.answers.len() implies f(
                #[trigger] conversation::cut(c, k),
            ) == Next::Done(v, conversation::cut(c2, k)) by {
                let d = conversation::cut(c, k);
                assert(d.answered() && d.answer() == c.answer());
                assert(d.past() == conversation::cut(c.past(), k));
                if let Next::Done(w, x) = tree_flow()(c.past()) {
                    if x.at <= k {
                        assert(tree_flow()(conversation::cut(c.past(), k)) == Next::Done(
                            w,
                            conversation::cut(x, k),
                        ));
                    }
                }
                if c.past().answered() && c2.at > c.at + 1 {
                    assert(d.past().answered() && d.past().answer() == c.past().answer());
                    assert(d.past().past() == conversation::cut(c.past().past(), k));
                    if let Next::Done(w, x) = tree_flow()(c.past().past()) {
                        if x.at <= k {
                            assert(tree_flow()(conversation::cut(c.past().past(), k))
                                == Next::Done(w, conversation::cut(x, k)));
                        }
                    }
                }
            }
        }
    }
}

proof fn lemma_projects_steady(c: Cursor)
    requires
        conversation::waiting(c),
    ensures
        conversation::steady(projects_flow(), c),
{
    broadcast use {session::lemma_past_with, dotnet::lemma_walk_kept};

    let f = projects_flow();
    assert forall|r: Seq<Answer>, more: Seq<Answer>|
        #![trigger c.with(r).with(more)]
        f(c.with(r)).calm() && conversation::tight(f, c.with(r)) && f(c.with(r)).kept(
            f(c.with(r).with(more)),
            more,
        ) by {
        lemma_projects(c.with(r));
    }
}

/// Tell where the version of the project stands.
pub open spec fn classified() -> spec_fn(Cursor) -> Next<Result<LayoutView, ErrorView>> {
    |c: Cursor| dotnet::classify_step(c)
}

/// There is a `Directory.Build.props` with a version.
spec fn centralized(host: spec_fn(AskView) -> Answer) -> bool {
    session::says_yes(host(AskOf::IsFile("Directory.Build.props"@))) && (memory::file(
        host,
        "Directory.Build.props"@,
    ) matches Some(t) && dotnet_text::version_in(t) is Some)
}

/// The `Directory.Build.props` is there. Read it.
spec fn props_flow() -> spec_fn(Cursor) -> Next<Result<LayoutView, ErrorView>> {
    |c: Cursor|
        c.read("Directory.Build.props"@).and_ok(
            |t: Seq<char>, c: Cursor|
                if dotnet_text::version_in(t) is Some {
                    Next::Done(Ok(LayoutOf::CentralizedProps), c)
                } else {
                    dotnet::projects_step(c)
                },
        )
}

proof fn lemma_central(c: Cursor, host: spec_fn(AskView) -> Answer, e: ErrorView) -> (d: Cursor)
    requires
        conversation::waiting(c),
        centralized(host),
    ensures
        conversation::waiting(d),
        conversation::reaches(
            classified(),
            c,
            conversation::settled(Some(LayoutOf::CentralizedProps), e),
            d,
            host,
        ),
{
    let f = classified();
    let q: AskView = AskOf::IsFile("Directory.Build.props"@);
    let r: AskView = AskOf::Read("Directory.Build.props"@);
    let c2 = conversation::told(c, host(q));
    let end = conversation::settled(Some(LayoutOf::CentralizedProps), e);
    conversation::lemma_told(c, host(q));
    conversation::lemma_told(c2, host(r));
    conversation::lemma_asks(f, props_flow(), c, host, q);
    conversation::lemma_asks(props_flow(), end, c2, host, r);
    let d = conversation::told(c2, host(r));
    conversation::lemma_reaches_on(f, c, props_flow(), c2, end, d, host);
    d
}

/// Where no `Directory.Build.props` has a version, the projects are looked for.
proof fn lemma_other(
    c: Cursor,
    host: spec_fn(AskView) -> Answer,
    layout: LayoutView,
    e: ErrorView,
    n: nat,
) -> (d: Cursor)
    requires
        conversation::waiting(c),
        !centralized(host),
        conversation::stands(classified(), c, host, n) matches Next::Done(Ok(l), _) && l == layout,
    ensures
        conversation::waiting(d),
        !(layout is CentralizedProps),
        conversation::reaches(
            classified(),
            c,
            conversation::settled(Some(layout), e),
            d,
            host,
        ),
{
    let f = classified();
    let g = projects_flow();
    let q: AskView = AskOf::IsFile("Directory.Build.props"@);
    let r: AskView = AskOf::Read("Directory.Build.props"@);
    let c2 = conversation::told(c, host(q));
    let c3 = conversation::told(c2, host(r));
    conversation::lemma_told(c, host(q));
    conversation::lemma_told(c2, host(r));
    let there = session::says_yes(host(q));
    let from = if there {
        c3
    } else {
        c2
    };
    if there {
        conversation::lemma_asks(f, props_flow(), c, host, q);
        if memory::file(host, "Directory.Build.props"@) is None {
            let m = conversation::lemma_came_through(f, c, props_flow(), c2, host, n);
            conversation::lemma_ends(props_flow(), c2, host, r, m);
        }
        conversation::lemma_asks(props_flow(), g, c2, host, r);
        conversation::lemma_reaches_on(f, c, props_flow(), c2, g, c3, host);
    } else {
        conversation::lemma_asks(f, g, c, host, q);
    }
    let m = conversation::lemma_came_through(f, c, g, from, host, n);
    lemma_projects_steady(from);
    lemma_projects(from.with(conversation::replies(g, from, host, m)));
    let d = conversation::lemma_reached(g, from, host, m);
    let v = conversation::stands(g, from, host, m)->Done_0;
    let end = |x: Cursor| Next::Done(v, x);
    let last = conversation::settled(Some(layout), e);
    conversation::lemma_reaches_on(f, c, g, from, end, d, host);
    conversation::lemma_same(end, last, d, host);
    conversation::lemma_reaches_on(f, c, end, d, last, d, host);
    d
}

/// To tell where the version stands, only special files are read.
proof fn lemma_classify_asks(c: Cursor)
    requires
        c.at <= c.answers.len(),
    ensures
        dotnet::classify_step(c) matches Next::Ask(q) ==> q.harmless() && (q matches AskOf::Read(p)
            ==> is_special(p)),
{
    if c.answered() {
        lemma_projects(c.past());
        if c.past().answered() {
            lemma_projects(c.past().past());
        }
    }
}

/// Two hosts answer the same when this file is read.
spec fn reads_same(
    a: spec_fn(AskView) -> Answer,
    b: spec_fn(AskView) -> Answer,
    path: Seq<char>,
) -> bool {
    a(AskOf::Read(path)) == b(AskOf::Read(path))
}

/// Hosts that agree on special files and on everything but files let find the
/// same layout.
proof fn lemma_same_layout(
    c: Cursor,
    a: spec_fn(AskView) -> Answer,
    b: spec_fn(AskView) -> Answer,
    layout: LayoutView,
    e: ErrorView,
    d: Cursor,
)
    requires
        conversation::waiting(c),
        memory::same_tree(a, b),
        forall|p: Seq<char>| is_special(p) ==> #[trigger] reads_same(a, b, p),
        conversation::reaches(classified(), c, conversation::settled(Some(layout), e), d, a),
    ensures
        conversation::reaches(classified(), c, conversation::settled(Some(layout), e), d, b),
{
    let f = classified();
    assert forall|r: Seq<Answer>| (#[trigger] f(c.with(r))) is Ask implies a(f(c.with(r))->Ask_0)
        == b(f(c.with(r))->Ask_0) by {
        lemma_classify_asks(c.with(r));
        let q = f(c.with(r))->Ask_0;
        if let AskOf::Read(p) = q {
            assert(reads_same(a, b, p));
        }
    }
    conversation::lemma_same_way(f, c, conversation::settled(Some(layout), e), d, a, b);
}

// ---------------------------------------------------------------------------
// The version that a host lets read
// ---------------------------------------------------------------------------

/// The first version in the projects from the one at `i` on.
spec fn first_by(
    host: spec_fn(AskView) -> Answer,
    projects: Seq<Seq<char>>,
    i: int,
) -> Option<Seq<char>>
    decreases projects.len() - i,
{
    if i >= projects.len() {
        None
    } else {
        match memory::file(host, projects[i]) {
            Some(t) => match dotnet_text::version_in(t) {
                Some(version) => Some(version),
                None => first_by(host, projects, i + 1),
            },
            None => None,
        }
    }
}

spec fn first_flow(projects: Seq<Seq<char>>, i: int) -> spec_fn(Cursor) -> Next<
    Result<Seq<char>, ErrorView>,
> {
    |c: Cursor| dotnet::first_version_step(c, projects, i)
}

proof fn lemma_first_talk(
    c: Cursor,
    host: spec_fn(AskView) -> Answer,
    projects: Seq<Seq<char>>,
    i: int,
) -> (r: (Cursor, ErrorView))
    requires
        conversation::waiting(c),
    ensures
        conversation::reaches(
            first_flow(projects, i),
            c,
            conversation::settled(first_by(host, projects, i), r.1),
            r.0,
            host,
        ),
    decreases projects.len() - i,
{
    let f = first_flow(projects, i);
    let version = first_by(host, projects, i);
    if i >= projects.len() {
        let e = f(c)->Done_0->Err_0;
        conversation::lemma_same(f, conversation::settled(version, e), c, host);
        (c, e)
    } else {
        let q: AskView = AskOf::Read(projects[i]);
        let c2 = conversation::told(c, host(q));
        let e = f(c.with(seq![host(q)]))->Done_0->Err_0;
        conversation::lemma_told(c, host(q));
        if memory::file(host, projects[i]) matches Some(t) && dotnet_text::version_in(t) is None {
            let g = first_flow(projects, i + 1);
            conversation::lemma_asks(f, g, c, host, q);
            let (d, e2) = lemma_first_talk(c2, host, projects, i + 1);
            let end = conversation::settled(version, e2);
            conversation::lemma_reaches_on(f, c, g, c2, end, d, host);
            (d, e2)
        } else {
            conversation::lemma_asks(f, conversation::settled(version, e), c, host, q);
            (c2, e)
        }
    }
}

/// Read the version of a .NET project.
pub open spec fn dotnet_looked_up(dotnet: Dotnet) -> spec_fn(Cursor) -> Next<
    Result<Seq<char>, ErrorView>,
> {
    |c: Cursor| dotnet.read_step(c)
}

/// Write a version into a .NET project.
pub open spec fn dotnet_carried_out(dotnet: Dotnet, new: Seq<char>) -> spec_fn(Cursor) -> Next<
    Result<(), ErrorView>,
> {
    |c: Cursor| dotnet.write_step(c, new)
}

/// The projects of a layout.
pub open spec fn projects_of(layout: LayoutView) -> Seq<Seq<char>> {
    match layout {
        LayoutOf::CentralizedProps => Seq::empty(),
        LayoutOf::Solution(projects) => projects,
        LayoutOf::Projects(projects) => projects,
    }
}

/// Read the version where a layout has it.
spec fn read_flow(layout: LayoutView) -> spec_fn(Cursor) -> Next<Result<Seq<char>, ErrorView>> {
    |c: Cursor| dotnet::read_layout_step(c, layout)
}

/// Write a version where a layout has it.
spec fn write_flow(layout: LayoutView, new: Seq<char>) -> spec_fn(Cursor) -> Next<
    Result<(), ErrorView>,
> {
    |c: Cursor| dotnet::update_layout_step(c, layout, new)
}

/// Once it is known where the version stands, it is read there.
proof fn lemma_read_there(
    dotnet: Dotnet,
    c: Cursor,
    host: spec_fn(AskView) -> Answer,
    layout: LayoutView,
    e: ErrorView,
    d: Cursor,
)
    requires
        conversation::reaches(classified(), c, conversation::settled(Some(layout), e), d, host),
    ensures
        conversation::reaches(dotnet_looked_up(dotnet), c, read_flow(layout), d, host),
{
    let f = dotnet_looked_up(dotnet);
    let read = |layout: LayoutView, c: Cursor| dotnet::read_layout_step(c, layout);
    let g = conversation::followed(classified(), read);
    let h = conversation::onward(read, Some(layout), e);
    conversation::lemma_same(f, g, c, host);
    conversation::lemma_follows(classified(), read, c, Some(layout), e, d, host);
    conversation::lemma_reaches_on(f, c, g, c, h, d, host);
    conversation::lemma_same(h, read_flow(layout), d, host);
    conversation::lemma_reaches_on(f, c, h, d, read_flow(layout), d, host);
}

/// Once it is known where the version stands, it is written there.
proof fn lemma_write_there(
    dotnet: Dotnet,
    c: Cursor,
    host: spec_fn(AskView) -> Answer,
    layout: LayoutView,
    e: ErrorView,
    d: Cursor,
    new: Seq<char>,
)
    requires
        conversation::reaches(classified(), c, conversation::settled(Some(layout), e), d, host),
    ensures
        conversation::reaches(dotnet_carried_out(dotnet, new), c, write_flow(layout, new), d, host),
{
    let f = dotnet_carried_out(dotnet, new);
    let update = |layout: LayoutView, c: Cursor| dotnet::update_layout_step(c, layout, new);
    let g = conversation::followed(classified(), update);
    let h = conversation::onward(update, Some(layout), e);
    conversation::lemma_same(f, g, c, host);
    conversation::lemma_follows(classified(), update, c, Some(layout), e, d, host);
    conversation::lemma_reaches_on(f, c, g, c, h, d, host);
    conversation::lemma_same(h, write_flow(layout, new), d, host);
    conversation::lemma_reaches_on(f, c, h, d, write_flow(layout, new), d, host);
}

/// A conversation about the version ends with that of the first project that
/// has one.
proof fn lemma_read_talk(
    dotnet: Dotnet,
    c: Cursor,
    host: spec_fn(AskView) -> Answer,
    layout: LayoutView,
    e: ErrorView,
    d: Cursor,
) -> (r: (Cursor, ErrorView))
    requires
        conversation::waiting(d),
        !(layout is CentralizedProps),
        conversation::reaches(classified(), c, conversation::settled(Some(layout), e), d, host),
    ensures
        conversation::reaches(
            dotnet_looked_up(dotnet),
            c,
            conversation::settled(first_by(host, projects_of(layout), 0), r.1),
            r.0,
            host,
        ),
{
    let f = dotnet_looked_up(dotnet);
    let h = read_flow(layout);
    let k = first_flow(projects_of(layout), 0);
    lemma_read_there(dotnet, c, host, layout, e, d);
    conversation::lemma_same(h, k, d, host);
    conversation::lemma_reaches_on(f, c, h, d, k, d, host);
    let (d2, e2) = lemma_first_talk(d, host, projects_of(layout), 0);
    let end = conversation::settled(first_by(host, projects_of(layout), 0), e2);
    conversation::lemma_reaches_on(f, c, k, d, end, d2, host);
    (d2, e2)
}

// ---------------------------------------------------------------------------
// The files
// ---------------------------------------------------------------------------

/// Two texts of one file, before and after a version was written.
spec fn alike(before: Option<Seq<char>>, after: Option<Seq<char>>) -> bool {
    match (before, after) {
        (Some(b), Some(a)) => dotnet_text::version_in(b) is Some <==> dotnet_text::version_in(
            a,
        ) is Some,
        (None, None) => true,
        _ => false,
    }
}

/// The file has no version but the new one.
spec fn fresh(t: Option<Seq<char>>, new: Seq<char>) -> bool {
    t matches Some(t) ==> (dotnet_text::version_in(t) matches Some(v) ==> v == text::trim_both(
        new,
    ))
}

/// From `a` to `b`, no file has got or lost a version, and special files have
/// not changed.
spec fn holds_on(a: spec_fn(AskView) -> Answer, b: spec_fn(AskView) -> Answer) -> bool {
    &&& memory::same_tree(a, b)
    &&& forall|p: Seq<char>| alike(memory::file(a, p), #[trigger] memory::file(b, p))
    &&& forall|p: Seq<char>| is_special(p) ==> #[trigger] reads_same(a, b, p)
}

proof fn lemma_holds_on(
    a: spec_fn(AskView) -> Answer,
    b: spec_fn(AskView) -> Answer,
    c: spec_fn(AskView) -> Answer,
)
    requires
        holds_on(a, b),
        memory::same_looks(c, b),
    ensures
        holds_on(a, c),
        forall|p: Seq<char>| #[trigger] memory::file(c, p) == memory::file(b, p),
{
    memory::lemma_same_files(c, b);
    assert forall|q: AskView| q.harmless() && !(q is Read) implies #[trigger] a(q) == c(q) by {
        assert(a(q) == b(q));
        assert(b(q) == c(q));
    }
    assert forall|p: Seq<char>| alike(memory::file(a, p), #[trigger] memory::file(c, p)) by {
        assert(alike(memory::file(a, p), memory::file(b, p)));
    }
    assert forall|p: Seq<char>| is_special(p) implies #[trigger] reads_same(a, c, p) by {
        let q: AskView = AskOf::Read(p);
        assert(reads_same(a, b, p));
        assert(c(q) == b(q));
    }
}

/// A project file is written.
proof fn lemma_wrote(
    host: spec_fn(Seq<AskView>, AskView) -> Answer,
    same: spec_fn(Seq<char>, Seq<char>) -> bool,
    past: Seq<AskView>,
    first: spec_fn(AskView) -> Answer,
    path: Seq<char>,
    t: Seq<char>,
    new: Seq<char>,
)
    requires
        memory::remembers(host, same),
        !text::has(new, "</Version>"@),
        holds_on(first, memory::now(host, past)),
        memory::file(memory::now(host, past), path) matches Some(s) && (dotnet_text::version_in(
            s,
        ) matches Some(old) && dotnet_text::with_version(s, old, new) == Some(t)),
        forall|p: Seq<char>| is_special(p) ==> !#[trigger] same(p, path),
        host(past, AskOf::Write(path, t)) is Yes,
    ensures
        ({
            let before = memory::now(host, past);
            let after = memory::now(host, past.push(AskOf::Write(path, t)));
            &&& holds_on(first, after)
            &&& fresh(memory::file(after, path), new)
            &&& forall|p: Seq<char>|
                fresh(memory::file(before, p), new) ==> fresh(
                    #[trigger] memory::file(after, p),
                    new,
                )
        }),
{
    let before = memory::now(host, past);
    let after = memory::now(host, past.push(AskOf::Write(path, t)));
    let s = memory::file(before, path)->0;
    dotnet_text::law_version_reads_back(s, new);
    memory::lemma_wrote(host, same, past, path, t);
    assert forall|p: Seq<char>| alike(
        memory::file(first, p),
        #[trigger] memory::file(after, p),
    ) by {
        assert(alike(memory::file(first, p), memory::file(before, p)));
    }
    assert forall|p: Seq<char>| is_special(p) implies #[trigger] reads_same(first, after, p) by {
        assert(!same(p, path));
        assert(reads_same(first, before, p));
        assert(memory::file(after, p) == memory::file(before, p));
    }
    assert forall|q: AskView| q.harmless() && !(q is Read) implies #[trigger] first(q) == after(
        q,
    ) by {
        assert(first(q) == before(q));
        assert(before(q) == after(q));
    }
}

/// Each project up to the one at `i` that is a file is fresh.
spec fn fresh_up_to(
    host: spec_fn(AskView) -> Answer,
    projects: Seq<Seq<char>>,
    i: int,
    new: Seq<char>,
) -> bool {
    forall|j: int|
        0 <= j < i ==> (session::says_yes(host(AskOf::IsFile(#[trigger] projects[j]))) ==> fresh(
            memory::file(host, projects[j]),
            new,
        ))
}

/// What a host answers that has changed by a look, or by a file that was written
/// anew.
proof fn lemma_fresh_on(
    a: spec_fn(AskView) -> Answer,
    b: spec_fn(AskView) -> Answer,
    projects: Seq<Seq<char>>,
    i: int,
    new: Seq<char>,
)
    requires
        fresh_up_to(a, projects, i, new),
        memory::same_tree(a, b),
        forall|p: Seq<char>|
            fresh(memory::file(a, p), new) ==> fresh(#[trigger] memory::file(b, p), new),
    ensures
        fresh_up_to(b, projects, i, new),
{
    assert forall|j: int|
        0 <= j < i && session::says_yes(b(AskOf::IsFile(#[trigger] projects[j]))) implies fresh(
        memory::file(b, projects[j]),
        new,
    ) by {
        let q: AskView = AskOf::IsFile(projects[j]);
        assert(a(q) == b(q));
        assert(fresh(memory::file(a, projects[j]), new) ==> fresh(
            memory::file(b, projects[j]),
            new,
        ));
    }
}

/// The same after a look.
proof fn lemma_looked(
    host: spec_fn(Seq<AskView>, AskView) -> Answer,
    same: spec_fn(Seq<char>, Seq<char>) -> bool,
    past: Seq<AskView>,
    q: AskView,
    first: spec_fn(AskView) -> Answer,
    projects: Seq<Seq<char>>,
    i: int,
    new: Seq<char>,
)
    requires
        memory::remembers(host, same),
        q.harmless(),
        holds_on(first, memory::now(host, past)),
        fresh_up_to(memory::now(host, past), projects, i, new),
    ensures
        memory::same_looks(memory::now(host, past.push(q)), memory::now(host, past)),
        holds_on(first, memory::now(host, past.push(q))),
        fresh_up_to(memory::now(host, past.push(q)), projects, i, new),
        forall|p: Seq<char>| #[trigger]
            memory::file(memory::now(host, past.push(q)), p) == memory::file(
                memory::now(host, past),
                p,
            ),
{
    let a = memory::now(host, past);
    let b = memory::now(host, past.push(q));
    memory::lemma_looked(host, same, past, q);
    lemma_holds_on(first, a, b);
    memory::lemma_same_files(b, a);
    lemma_fresh_on(a, b, projects, i, new);
}

spec fn each_flow(projects: Seq<Seq<char>>, i: int, any: bool, new: Seq<char>) -> spec_fn(
    Cursor,
) -> Next<Result<(), ErrorView>> {
    |c: Cursor| dotnet::update_each_step(c, projects, i, any, new)
}

/// Behind the project at `i`, given whether it has a version.
spec fn behind(projects: Seq<Seq<char>>, i: int, any: bool, new: Seq<char>) -> spec_fn(
    bool,
    Cursor,
) -> Next<Result<(), ErrorView>> {
    |done: bool, c: Cursor|
        if done {
            dotnet::update_each_step(c, projects, i + 1, true, new)
        } else {
            c.warn(
                "warning: "@ + projects[i] + " has no <Version> element; skipping"@,
            ).and(|u: (), c: Cursor| dotnet::update_each_step(c, projects, i + 1, any, new))
        }
}

spec fn there_flow(projects: Seq<Seq<char>>, i: int, any: bool, new: Seq<char>) -> spec_fn(
    Cursor,
) -> Next<Result<(), ErrorView>> {
    |c: Cursor| dotnet::update_step(c, projects[i], new).and_ok(behind(projects, i, any, new))
}

spec fn warn_flow(projects: Seq<Seq<char>>, i: int, any: bool, new: Seq<char>) -> spec_fn(
    Cursor,
) -> Next<Result<(), ErrorView>> {
    |c: Cursor| behind(projects, i, any, new)(false, c)
}

spec fn put_flow(
    projects: Seq<Seq<char>>,
    i: int,
    any: bool,
    t: Seq<char>,
    new: Seq<char>,
) -> spec_fn(Cursor) -> Next<Result<(), ErrorView>> {
    |c: Cursor|
        c.write(projects[i], t).and_ok(|u: (), c: Cursor| Next::Done(Ok(true), c)).and_ok(
            behind(projects, i, any, new),
        )
}

/// The special files are none of these.
pub open spec fn apart(
    same: spec_fn(Seq<char>, Seq<char>) -> bool,
    projects: Seq<Seq<char>>,
) -> bool {
    forall|p: Seq<char>, i: int|
        is_special(p) && 0 <= i < projects.len() ==> !#[trigger] same(p, projects[i])
}

/// The project at `i` is there and gets the version, if it has one.
proof fn lemma_there(
    c: Cursor,
    host: spec_fn(Seq<AskView>, AskView) -> Answer,
    same: spec_fn(Seq<char>, Seq<char>) -> bool,
    past: Seq<AskView>,
    first: spec_fn(AskView) -> Answer,
    projects: Seq<Seq<char>>,
    i: int,
    any: bool,
    new: Seq<char>,
    n: nat,
) -> (r: (Cursor, Seq<AskView>, bool, nat))
    requires
        memory::remembers(host, same),
        conversation::waiting(c),
        0 <= i < projects.len(),
        !text::has(new, "</Version>"@),
        apart(same, projects),
        holds_on(first, memory::now(host, past)),
        fresh_up_to(memory::now(host, past), projects, i, new),
        memory::ends(there_flow(projects, i, any, new), c, host, past, n) matches Some((Ok(_), _)),
    ensures
        conversation::waiting(r.0),
        holds_on(first, memory::now(host, r.1)),
        fresh_up_to(memory::now(host, r.1), projects, i + 1, new),
        memory::ends(there_flow(projects, i, any, new), c, host, past, n) == memory::ends(
            each_flow(projects, i + 1, r.2, new),
            r.0,
            host,
            r.1,
            r.3,
        ),
{
    let path = projects[i];
    let f = there_flow(projects, i, any, new);
    let q: AskView = AskOf::Read(path);
    let a = host(past, q);
    let c2 = conversation::told(c, a);
    let past2 = past.push(q);
    let here = memory::now(host, past2);
    conversation::lemma_told(c, a);
    lemma_looked(host, same, past, q, first, projects, i, new);
    assert(here(q) == memory::now(host, past)(q));
    let m = (n - 1) as nat;
    match memory::text_in(a) {
        None => {
            let e = f(c.with(seq![a]))->Done_0->Err_0;
            let g = |c: Cursor| Next::Done(Err::<(), ErrorView>(e), c);
            memory::lemma_one(f, g, c, host, past, q, n);
            assert(g(c2) is Done);
            (c2, past2, any, 0)
        },
        Some(s) => {
            dotnet_text::lemma_replaceable(s, new);
            if let Some(old) = dotnet_text::version_in(s) {
                let t = dotnet_text::with_version(s, old, new)->0;
                let g = put_flow(projects, i, any, t, new);
                let next = each_flow(projects, i + 1, true, new);
                let w: AskView = AskOf::Write(path, t);
                let b = host(past2, w);
                let c3 = conversation::told(c2, b);
                conversation::lemma_told(c2, b);
                memory::lemma_one(f, g, c, host, past, q, n);
                if b is Yes {
                    memory::lemma_one(g, next, c2, host, past2, w, m);
                    assert forall|p: Seq<char>| is_special(p) implies !#[trigger] same(
                        p,
                        path,
                    ) by {
                        assert(!same(p, projects[i]));
                    }
                    lemma_wrote(host, same, past2, first, path, t, new);
                    let after = memory::now(host, past2.push(w));
                    assert(memory::same_tree(here, after)) by {
                        assert forall|r: AskView| r.harmless() && !(r is Read) implies #[trigger]
                            here(r) == after(r) by {
                            assert(first(r) == here(r));
                            assert(first(r) == after(r));
                        }
                    }
                    lemma_fresh_on(here, after, projects, i, new);
                    (c3, past2.push(w), true, (m - 1) as nat)
                } else {
                    let e = g(c2.with(seq![b]))->Done_0->Err_0;
                    let h = |c: Cursor| Next::Done(Err::<(), ErrorView>(e), c);
                    memory::lemma_one(g, h, c2, host, past2, w, m);
                    assert(h(c3) is Done);
                    (c3, past2, any, 0)
                }
            } else {
                let g = warn_flow(projects, i, any, new);
                let next = each_flow(projects, i + 1, any, new);
                let w: AskView = AskOf::Warn(
                    "warning: "@ + path + " has no <Version> element; skipping"@,
                );
                let b = host(past2, w);
                conversation::lemma_told(c2, b);
                memory::lemma_one(f, g, c, host, past, q, n);
                memory::lemma_one(g, next, c2, host, past2, w, m);
                lemma_looked(host, same, past2, w, first, projects, i, new);
                assert(memory::file(memory::now(host, past2.push(w)), path) == Some(s));
                (conversation::told(c2, b), past2.push(w), any, (m - 1) as nat)
            }
        },
    }
}

/// The projects from the one at `i` on get the version.
proof fn lemma_each(
    c: Cursor,
    host: spec_fn(Seq<AskView>, AskView) -> Answer,
    same: spec_fn(Seq<char>, Seq<char>) -> bool,
    past: Seq<AskView>,
    first: spec_fn(AskView) -> Answer,
    projects: Seq<Seq<char>>,
    i: int,
    any: bool,
    new: Seq<char>,
    n: nat,
)
    requires
        memory::remembers(host, same),
        conversation::waiting(c),
        0 <= i <= projects.len(),
        !text::has(new, "</Version>"@),
        apart(same, projects),
        holds_on(first, memory::now(host, past)),
        fresh_up_to(memory::now(host, past), projects, i, new),
        memory::ends(each_flow(projects, i, any, new), c, host, past, n) matches Some((Ok(_), _)),
    ensures
        ({
            let (_, later) = memory::ends(each_flow(projects, i, any, new), c, host, past, n)->0;
            let last = memory::now(host, later);
            &&& holds_on(first, last)
            &&& fresh_up_to(last, projects, projects.len() as int, new)
        }),
    decreases projects.len() - i,
{
    let f = each_flow(projects, i, any, new);
    if i < projects.len() {
        let q: AskView = AskOf::IsFile(projects[i]);
        let a = host(past, q);
        let c2 = conversation::told(c, a);
        let past2 = past.push(q);
        let m = (n - 1) as nat;
        conversation::lemma_told(c, a);
        lemma_looked(host, same, past, q, first, projects, i, new);
        assert(memory::now(host, past2)(q) == memory::now(host, past)(q));
        if session::says_yes(a) {
            let g = there_flow(projects, i, any, new);
            memory::lemma_one(f, g, c, host, past, q, n);
            let (c3, past3, some, k) = lemma_there(
                c2,
                host,
                same,
                past2,
                first,
                projects,
                i,
                any,
                new,
                m,
            );
            lemma_each(c3, host, same, past3, first, projects, i + 1, some, new, k);
        } else {
            let g = each_flow(projects, i + 1, any, new);
            memory::lemma_one(f, g, c, host, past, q, n);
            lemma_each(c2, host, same, past2, first, projects, i + 1, any, new, m);
        }
    }
}

/// What can be read is a file.
pub open spec fn reads_files(host: spec_fn(AskView) -> Answer) -> bool {
    forall|p: Seq<char>|
        (#[trigger] memory::file(host, p)) is Some ==> session::says_yes(host(AskOf::IsFile(p)))
}

/// The first version is the new one where there was one.
proof fn lemma_first_new(
    first: spec_fn(AskView) -> Answer,
    last: spec_fn(AskView) -> Answer,
    projects: Seq<Seq<char>>,
    i: int,
    new: Seq<char>,
)
    requires
        0 <= i,
        reads_files(first),
        holds_on(first, last),
        fresh_up_to(last, projects, projects.len() as int, new),
        first_by(first, projects, i) is Some,
    ensures
        first_by(last, projects, i) == Some(text::trim_both(new)),
    decreases projects.len() - i,
{
    if i < projects.len() {
        let path = projects[i];
        let q: AskView = AskOf::IsFile(path);
        assert(alike(memory::file(first, path), memory::file(last, path)));
        assert(memory::file(first, path) is Some);
        assert(first(q) == last(q));
        assert(fresh(memory::file(last, projects[i]), new));
        if dotnet_text::version_in(memory::file(first, path)->0) is None {
            lemma_first_new(first, last, projects, i + 1, new);
        }
    }
}

// ---------------------------------------------------------------------------
// The whole
// ---------------------------------------------------------------------------

/// A conversation about the version ends with the one in the
/// `Directory.Build.props`.
proof fn lemma_read_central(dotnet: Dotnet, c: Cursor, host: spec_fn(AskView) -> Answer) -> (d:
    Cursor)
    requires
        conversation::waiting(c),
        centralized(host),
    ensures
        ({
            let t = memory::file(host, "Directory.Build.props"@)->0;
            let v = Ok::<_, ErrorView>(dotnet_text::version_in(t)->0);
            conversation::reaches(
                dotnet_looked_up(dotnet),
                c,
                |x: Cursor| Next::Done(v, x),
                d,
                host,
            )
        }),
{
    let f = dotnet_looked_up(dotnet);
    let e = arbitrary();
    let k = read_flow(LayoutOf::CentralizedProps);
    let d = lemma_central(c, host, e);
    lemma_read_there(dotnet, c, host, LayoutOf::CentralizedProps, e, d);
    let (d2, v) = lemma_read_props(d, host);
    conversation::lemma_reaches_on(f, c, k, d, |x: Cursor| Next::Done(v, x), d2, host);
    d2
}

proof fn lemma_read_props(c: Cursor, host: spec_fn(AskView) -> Answer) -> (r: (
    Cursor,
    Result<Seq<char>, ErrorView>,
))
    requires
        conversation::waiting(c),
        centralized(host),
    ensures
        memory::file(host, "Directory.Build.props"@) matches Some(t) && r.1 == Ok::<_, ErrorView>(
            dotnet_text::version_in(t)->0,
        ),
        conversation::reaches(
            read_flow(LayoutOf::CentralizedProps),
            c,
            |x: Cursor| Next::Done(r.1, x),
            r.0,
            host,
        ),
{
    let t = memory::file(host, "Directory.Build.props"@)->0;
    let v = Ok::<_, ErrorView>(dotnet_text::version_in(t)->0);
    let end = |x: Cursor| Next::Done(v, x);
    let q: AskView = AskOf::Read("Directory.Build.props"@);
    conversation::lemma_told(c, host(q));
    conversation::lemma_asks(read_flow(LayoutOf::CentralizedProps), end, c, host, q);
    (conversation::told(c, host(q)), v)
}

/// The `Directory.Build.props` gets the version.
proof fn lemma_write_central(
    dotnet: Dotnet,
    c: Cursor,
    host: spec_fn(Seq<AskView>, AskView) -> Answer,
    same: spec_fn(Seq<char>, Seq<char>) -> bool,
    past: Seq<AskView>,
    new: Seq<char>,
    n: nat,
)
    requires
        memory::remembers(host, same),
        conversation::waiting(c),
        !text::has(new, "</Version>"@),
        centralized(memory::now(host, past)),
        memory::ends(dotnet_carried_out(dotnet, new), c, host, past, n) matches Some((Ok(_), _)),
    ensures
        ({
            let (_, later) = memory::ends(dotnet_carried_out(dotnet, new), c, host, past, n)->0;
            let last = memory::now(host, later);
            &&& centralized(last)
            &&& dotnet_text::version_in(memory::file(last, "Directory.Build.props"@)->0) == Some(
                text::trim_both(new),
            )
        }),
{
    let props = "Directory.Build.props"@;
    let f = dotnet_carried_out(dotnet, new);
    let before = memory::now(host, past);
    let e = arbitrary();
    let h = write_flow(LayoutOf::CentralizedProps, new);
    let d = lemma_central(c, before, e);
    lemma_write_there(dotnet, c, before, LayoutOf::CentralizedProps, e, d, new);
    let (past2, m) = memory::lemma_through(f, c, h, d, host, same, past, n);
    let here = memory::now(host, past2);
    memory::lemma_same_files(here, before);
    let there: AskView = AskOf::IsFile(props);
    assert(before(there) == here(there));
    assert(memory::file(here, props) == memory::file(before, props));
    lemma_write_props(d, host, same, past2, new, m);
}

/// Write this text into the `Directory.Build.props`.
spec fn put_props_flow(t: Seq<char>) -> spec_fn(Cursor) -> Next<Result<(), ErrorView>> {
    |c: Cursor|
        c.write("Directory.Build.props"@, t).and_ok(
            |u: (), c: Cursor| Next::Done(Ok(true), c),
        ).and_ok(
            |done: bool, c: Cursor|
                if done {
                    Next::Done(Ok(()), c)
                } else {
                    Next::Done(
                        Err(dotnet::no_version_in(c.shown("Directory.Build.props"@))),
                        c,
                    )
                },
        )
}

proof fn lemma_write_props(
    c: Cursor,
    host: spec_fn(Seq<AskView>, AskView) -> Answer,
    same: spec_fn(Seq<char>, Seq<char>) -> bool,
    past: Seq<AskView>,
    new: Seq<char>,
    n: nat,
)
    requires
        memory::remembers(host, same),
        conversation::waiting(c),
        !text::has(new, "</Version>"@),
        centralized(memory::now(host, past)),
        memory::ends(
            write_flow(LayoutOf::CentralizedProps, new),
            c,
            host,
            past,
            n,
        ) matches Some((Ok(_), _)),
    ensures
        ({
            let (_, later) = memory::ends(
                write_flow(LayoutOf::CentralizedProps, new),
                c,
                host,
                past,
                n,
            )->0;
            let last = memory::now(host, later);
            &&& centralized(last)
            &&& dotnet_text::version_in(memory::file(last, "Directory.Build.props"@)->0) == Some(
                text::trim_both(new),
            )
        }),
{
    let props = "Directory.Build.props"@;
    let f = write_flow(LayoutOf::CentralizedProps, new);
    let before = memory::now(host, past);
    let q: AskView = AskOf::Read(props);
    let there: AskView = AskOf::IsFile(props);
    let a = host(past, q);
    let c2 = conversation::told(c, a);
    let past2 = past.push(q);
    let here = memory::now(host, past2);
    let s = memory::file(before, props)->0;
    dotnet_text::law_version_reads_back(s, new);
    let t = dotnet_text::with_version(s, dotnet_text::version_in(s)->0, new)->0;
    let g = put_props_flow(t);
    conversation::lemma_told(c, a);
    memory::lemma_one(f, g, c, host, past, q, n);
    memory::lemma_looked(host, same, past, q);
    memory::lemma_same_files(here, before);
    assert(memory::file(here, props) == memory::file(before, props));
    assert(here(there) == before(there));
    let w: AskView = AskOf::Write(props, t);
    let b = host(past2, w);
    let r = g(c2.with(seq![b]))->Done_0;
    let end = |c: Cursor| Next::Done(r, c);
    conversation::lemma_told(c2, b);
    memory::lemma_one(g, end, c2, host, past2, w, (n - 1) as nat);
    assert(end(conversation::told(c2, b)) is Done);
    memory::lemma_wrote(host, same, past2, props, t);
    let last = memory::now(host, past2.push(w));
    assert(here(there) == last(there));
}

/// The version that is read from a .NET project after another one was written is
/// that one, without the white space around it, from a host that remembers what
/// has been written: where a version could be read before, and writing the new
/// one succeeded. `layout` is where the version stands at first. The files that
/// tell where it stands are none of the projects, what can be read is a file,
/// and the version does not hold the tag that ends it.
pub proof fn law_dotnet_version_is_read(
    dotnet: Dotnet,
    c: Cursor,
    host: spec_fn(Seq<AskView>, AskView) -> Answer,
    same: spec_fn(Seq<char>, Seq<char>) -> bool,
    past: Seq<AskView>,
    layout: LayoutView,
    new: Seq<char>,
    k: nat,
    n: nat,
    m: nat,
)
    requires
        memory::remembers(host, same),
        conversation::waiting(c),
        !text::has(new, "</Version>"@),
        conversation::stands(classified(), c, memory::now(host, past), k) matches Next::Done(
            Ok(l),
            _,
        ) && l == layout,
        apart(same, projects_of(layout)),
        reads_files(memory::now(host, past)),
        memory::ends(dotnet_looked_up(dotnet), c, host, past, n) matches Some((Ok(_), past2)) && (
        memory::ends(dotnet_carried_out(dotnet, new), c, host, past2, m) matches Some((Ok(_), _))),
    ensures
        ({
            let (_, past2) = memory::ends(dotnet_looked_up(dotnet), c, host, past, n)->0;
            let (_, past3) = memory::ends(
                dotnet_carried_out(dotnet, new),
                c,
                host,
                past2,
                m,
            )->0;
            memory::gives(dotnet_looked_up(dotnet), c, host, past3, Ok(text::trim_both(new)))
        }),
{
    let f = dotnet_looked_up(dotnet);
    let (_, past2) = memory::ends(f, c, host, past, n)->0;
    let (_, past3) = memory::ends(dotnet_carried_out(dotnet, new), c, host, past2, m)->0;
    let first = memory::now(host, past);
    let here = memory::now(host, past2);
    let last = memory::now(host, past3);
    let there: AskView = AskOf::IsFile("Directory.Build.props"@);
    if centralized(first) {
        let d = lemma_read_central(dotnet, c, first);
        let t = memory::file(first, "Directory.Build.props"@)->0;
        let v = Ok::<_, ErrorView>(dotnet_text::version_in(t)->0);
        let end = |x: Cursor| Next::Done(v, x);
        memory::lemma_through(f, c, end, d, host, same, past, n);
        assert(end(d) is Done);
        memory::lemma_same_files(here, first);
        assert(memory::file(here, "Directory.Build.props"@) == Some(t));
        assert(first(there) == here(there));
        lemma_write_central(dotnet, c, host, same, past2, new, m);
        let d2 = lemma_read_central(dotnet, c, last);
        let t2 = memory::file(last, "Directory.Build.props"@)->0;
        let v2 = Ok::<_, ErrorView>(dotnet_text::version_in(t2)->0);
        let end2 = |x: Cursor| Next::Done(v2, x);
        memory::lemma_gives(f, c, end2, d2, host, same, past3);
    } else {
        let e = arbitrary();
        let projects = projects_of(layout);
        let d = lemma_other(c, first, layout, e, k);
        let (x, why) = lemma_read_talk(dotnet, c, first, layout, e, d);
        let end = conversation::settled(first_by(first, projects, 0), why);
        memory::lemma_through(f, c, end, x, host, same, past, n);
        assert(end(x) is Done);
        assert forall|p: Seq<char>| alike(
            memory::file(first, p),
            #[trigger] memory::file(first, p),
        ) by {}
        assert(holds_on(first, first));
        lemma_holds_on(first, first, here);
        lemma_same_layout(c, first, here, layout, e, d);
        lemma_write_projects(dotnet, c, host, same, past2, first, layout, e, d, new, m);
        lemma_same_layout(c, first, last, layout, e, d);
        lemma_first_new(first, last, projects, 0, new);
        let (y, cause) = lemma_read_talk(dotnet, c, last, layout, e, d);
        let end2 = conversation::settled(first_by(last, projects, 0), cause);
        memory::lemma_gives(f, c, end2, y, host, same, past3);
    }
}

/// The projects of the layout get the version.
proof fn lemma_write_projects(
    dotnet: Dotnet,
    c: Cursor,
    host: spec_fn(Seq<AskView>, AskView) -> Answer,
    same: spec_fn(Seq<char>, Seq<char>) -> bool,
    past: Seq<AskView>,
    first: spec_fn(AskView) -> Answer,
    layout: LayoutView,
    e: ErrorView,
    d: Cursor,
    new: Seq<char>,
    n: nat,
)
    requires
        memory::remembers(host, same),
        conversation::waiting(d),
        !text::has(new, "</Version>"@),
        !(layout is CentralizedProps),
        apart(same, projects_of(layout)),
        holds_on(first, memory::now(host, past)),
        conversation::reaches(
            classified(),
            c,
            conversation::settled(Some(layout), e),
            d,
            memory::now(host, past),
        ),
        memory::ends(dotnet_carried_out(dotnet, new), c, host, past, n) matches Some((Ok(_), _)),
    ensures
        ({
            let (_, later) = memory::ends(dotnet_carried_out(dotnet, new), c, host, past, n)->0;
            let last = memory::now(host, later);
            let projects = projects_of(layout);
            &&& holds_on(first, last)
            &&& fresh_up_to(last, projects, projects.len() as int, new)
        }),
{
    let f = dotnet_carried_out(dotnet, new);
    let before = memory::now(host, past);
    let h = write_flow(layout, new);
    let k = each_flow(projects_of(layout), 0, false, new);
    lemma_write_there(dotnet, c, before, layout, e, d, new);
    let (past2, m) = memory::lemma_through(f, c, h, d, host, same, past, n);
    lemma_holds_on(first, before, memory::now(host, past2));
    memory::lemma_same_end(h, d, k, d, host, past2, m);
    lemma_each(d, host, same, past2, first, projects_of(layout), 0, false, new, m);
}

/// A version that is written into a .NET project is written in lockstep: every
/// project that is there has it then, if it had one before.
pub proof fn law_dotnet_written_in_lockstep(
    dotnet: Dotnet,
    c: Cursor,
    host: spec_fn(Seq<AskView>, AskView) -> Answer,
    same: spec_fn(Seq<char>, Seq<char>) -> bool,
    past: Seq<AskView>,
    layout: LayoutView,
    new: Seq<char>,
    k: nat,
    n: nat,
)
    requires
        memory::remembers(host, same),
        conversation::waiting(c),
        !text::has(new, "</Version>"@),
        conversation::stands(classified(), c, memory::now(host, past), k) matches Next::Done(
            Ok(l),
            _,
        ) && l == layout,
        apart(same, projects_of(layout)),
        memory::ends(dotnet_carried_out(dotnet, new), c, host, past, n) matches Some((Ok(_), _)),
    ensures
        ({
            let (_, later) = memory::ends(dotnet_carried_out(dotnet, new), c, host, past, n)->0;
            let first = memory::now(host, past);
            let last = memory::now(host, later);
            let projects = projects_of(layout);
            &&& layout is CentralizedProps ==> (memory::file(
                last,
                "Directory.Build.props"@,
            ) matches Some(t) && dotnet_text::version_in(t) == Some(text::trim_both(new)))
            &&& forall|i: int|
                0 <= i < projects.len() && session::says_yes(
                    first(AskOf::IsFile(#[trigger] projects[i])),
                ) ==> (memory::file(first, projects[i]) matches Some(before) ==> (memory::file(
                    last,
                    projects[i],
                ) matches Some(after) && dotnet_text::version_in(after) == (
                if dotnet_text::version_in(before) is Some {
                    Some(text::trim_both(new))
                } else {
                    None
                })))
        }),
{
    let first = memory::now(host, past);
    let e = arbitrary();
    let projects = projects_of(layout);
    let (_, later) = memory::ends(dotnet_carried_out(dotnet, new), c, host, past, n)->0;
    let last = memory::now(host, later);
    if centralized(first) {
        lemma_write_central(dotnet, c, host, same, past, new, n);
        let d = lemma_central(c, first, e);
        let end = conversation::settled(Some(LayoutOf::CentralizedProps), e);
        let m = conversation::lemma_came_through(classified(), c, end, d, first, k);
        conversation::lemma_silent(end, d, first, m);
    } else {
        let d = lemma_other(c, first, layout, e, k);
        assert(holds_on(first, first)) by {
            assert forall|p: Seq<char>| alike(
                memory::file(first, p),
                #[trigger] memory::file(first, p),
            ) by {}
        }
        lemma_write_projects(dotnet, c, host, same, past, first, layout, e, d, new, n);
        assert forall|i: int|
            0 <= i < projects.len() && session::says_yes(
                first(AskOf::IsFile(#[trigger] projects[i])),
            ) implies (memory::file(first, projects[i]) matches Some(before) ==> (memory::file(
            last,
            projects[i],
        ) matches Some(after) && dotnet_text::version_in(after) == (
        if dotnet_text::version_in(before) is Some {
            Some(text::trim_both(new))
        } else {
            None
        }))) by {
            let q: AskView = AskOf::IsFile(projects[i]);
            assert(first(q) == last(q));
            assert(alike(memory::file(first, projects[i]), memory::file(last, projects[i])));
            assert(fresh(memory::file(last, projects[i]), new));
        }
    }
}

// ---------------------------------------------------------------------------
// Where the version stands
// ---------------------------------------------------------------------------

/// The project at `i` is the first one that has a version, and those before it
/// can be read.
pub open spec fn is_first_version(
    host: spec_fn(AskView) -> Answer,
    projects: Seq<Seq<char>>,
    i: int,
) -> bool {
    &&& 0 <= i < projects.len()
    &&& memory::file(host, projects[i]) matches Some(t) && dotnet_text::version_in(t) is Some
    &&& forall|j: int|
        0 <= j < i ==> (memory::file(host, #[trigger] projects[j]) matches Some(t)
            && dotnet_text::version_in(t) is None)
}

proof fn lemma_first_version(host: spec_fn(AskView) -> Answer, projects: Seq<Seq<char>>, k: int)
    requires
        0 <= k,
        forall|j: int|
            0 <= j < k && j < projects.len() ==> (memory::file(
                host,
                #[trigger] projects[j],
            ) matches Some(t) && dotnet_text::version_in(t) is None),
    ensures
        forall|i: int| #[trigger]
            is_first_version(host, projects, i) ==> first_by(host, projects, k)
                == dotnet_text::version_in(memory::file(host, projects[i])->0),
        (forall|i: int| !#[trigger] is_first_version(host, projects, i)) ==> first_by(
            host,
            projects,
            k,
        ) is None,
    decreases projects.len() - k,
{
    if k < projects.len() {
        match memory::file(host, projects[k]) {
            Some(t) if dotnet_text::version_in(t) is None => {
                lemma_first_version(host, projects, k + 1);
            },
            Some(_) => {
                assert(is_first_version(host, projects, k));
                assert forall|i: int| #[trigger] is_first_version(host, projects, i) implies i
                    == k by {
                    if i < k {
                        assert(memory::file(host, projects[i]) is Some);
                    }
                    if k < i {
                        assert(memory::file(host, projects[k]) is Some);
                    }
                }
            },
            None => {
                assert forall|i: int| !#[trigger] is_first_version(host, projects, i) by {
                    if is_first_version(host, projects, i) {
                        if i < k {
                            assert(memory::file(host, projects[i]) is Some);
                        }
                        if k < i {
                            assert(memory::file(host, projects[k]) is Some);
                        }
                    }
                }
            },
        }
    }
}

/// The layout is the one that the files tell.
proof fn lemma_classified(
    c: Cursor,
    host: spec_fn(AskView) -> Answer,
    layout: LayoutView,
    e: ErrorView,
    k: nat,
) -> (d: Cursor)
    requires
        conversation::waiting(c),
        conversation::stands(classified(), c, host, k) matches Next::Done(Ok(l), _) && l == layout,
    ensures
        conversation::waiting(d),
        (layout is CentralizedProps) == centralized(host),
        conversation::reaches(classified(), c, conversation::settled(Some(layout), e), d, host),
{
    if centralized(host) {
        let d = lemma_central(c, host, e);
        let end = conversation::settled(Some(LayoutView::CentralizedProps), e);
        let m = conversation::lemma_came_through(classified(), c, end, d, host, k);
        conversation::lemma_silent(end, d, host, m);
        d
    } else {
        lemma_other(c, host, layout, e, k)
    }
}

/// The version of a .NET project is the one in its `Directory.Build.props`, if
/// it stands there; else the one of the first project that has one.
pub proof fn law_dotnet_version_is_read_where_it_stands(
    dotnet: Dotnet,
    c: Cursor,
    host: spec_fn(AskView) -> Answer,
    layout: LayoutView,
    k: nat,
    n: nat,
)
    requires
        conversation::waiting(c),
        conversation::stands(classified(), c, host, k) matches Next::Done(Ok(l), _) && l == layout,
        conversation::stands(dotnet_looked_up(dotnet), c, host, n) is Done,
    ensures
        ({
            let v = conversation::stands(dotnet_looked_up(dotnet), c, host, n)->Done_0;
            let projects = projects_of(layout);
            if layout is CentralizedProps {
                memory::file(host, "Directory.Build.props"@) matches Some(t) && (
                dotnet_text::version_in(t) matches Some(version) && v == Ok::<
                    Seq<char>,
                    ErrorView,
                >(version))
            } else {
                &&& forall|i: int| #[trigger]
                    is_first_version(host, projects, i) ==> v == Ok::<Seq<char>, ErrorView>(
                        dotnet_text::version_in(memory::file(host, projects[i])->0)->0,
                    )
                &&& (forall|i: int| !#[trigger] is_first_version(host, projects, i)) ==> v is Err
            }
        }),
{
    let f = dotnet_looked_up(dotnet);
    let e = arbitrary();
    let d = lemma_classified(c, host, layout, e, k);
    if layout is CentralizedProps {
        let d2 = lemma_read_central(dotnet, c, host);
        let t = memory::file(host, "Directory.Build.props"@)->0;
        let v = Ok::<_, ErrorView>(dotnet_text::version_in(t)->0);
        let end = |x: Cursor| Next::Done(v, x);
        let m = conversation::lemma_came_through(f, c, end, d2, host, n);
        conversation::lemma_silent(end, d2, host, m);
    } else {
        let projects = projects_of(layout);
        let (d2, why) = lemma_read_talk(dotnet, c, host, layout, e, d);
        let end = conversation::settled(first_by(host, projects, 0), why);
        let m = conversation::lemma_came_through(f, c, end, d2, host, n);
        conversation::lemma_silent(end, d2, host, m);
        lemma_first_version(host, projects, 0);
    }
}

/// A project that can be read and has a version.
pub open spec fn has_version(host: spec_fn(AskView) -> Answer) -> spec_fn(Seq<char>) -> bool {
    |path: Seq<char>|
        memory::file(host, path) matches Some(t) && dotnet_text::version_in(t) is Some
}

/// The files of a .NET project that are to be committed.
pub open spec fn dotnet_staged(dotnet: Dotnet) -> spec_fn(Cursor) -> Next<Seq<Seq<char>>> {
    |c: Cursor| dotnet.stage_step(c)
}

spec fn versioned_flow(projects: Seq<Seq<char>>, i: int, out: Seq<Seq<char>>) -> spec_fn(
    Cursor,
) -> Next<Seq<Seq<char>>> {
    |c: Cursor| dotnet::versioned_step(c, projects, i, out)
}

proof fn lemma_versioned(
    c: Cursor,
    host: spec_fn(AskView) -> Answer,
    projects: Seq<Seq<char>>,
    i: int,
    out: Seq<Seq<char>>,
    n: nat,
)
    requires
        conversation::waiting(c),
        0 <= i <= projects.len(),
        out == projects.take(i).filter(has_version(host)),
        conversation::stands(versioned_flow(projects, i, out), c, host, n) is Done,
    ensures
        conversation::stands(versioned_flow(projects, i, out), c, host, n)->Done_0
            == projects.filter(has_version(host)),
    decreases projects.len() - i,
{
    let f = versioned_flow(projects, i, out);
    if i == projects.len() {
        assert(projects.take(i) =~= projects);
        conversation::lemma_silent(f, c, host, n);
    } else {
        let q: AskView = AskOf::Read(projects[i]);
        let a = host(q);
        conversation::lemma_told(c, a);
        assert(c.with(Seq::empty()) =~= c);
        let next = if has_version(host)(projects[i]) {
            out.push(projects[i])
        } else {
            out
        };
        let g = versioned_flow(projects, i + 1, next);
        let upto = projects.take(i + 1);
        assert(upto.drop_last() =~= projects.take(i));
        assert(upto.last() == projects[i]);
        reveal(Seq::filter);
        assert(f(c) == Next::<Seq<Seq<char>>>::Ask(q));
        conversation::lemma_goes_on(f, g, c, host, q, n);
        lemma_versioned(
            conversation::told(c, a),
            host,
            projects,
            i + 1,
            next,
            (n - 1) as nat,
        );
    }
}

spec fn staged_behind() -> spec_fn(Result<LayoutView, ErrorView>, Cursor) -> Next<Seq<Seq<char>>> {
    |layout: Result<LayoutView, ErrorView>, c: Cursor|
        match layout {
            Ok(LayoutOf::CentralizedProps) => Next::Done(seq!["Directory.Build.props"@], c),
            Ok(LayoutOf::Solution(projects)) => dotnet::versioned_step(
                c,
                projects,
                0,
                Seq::empty(),
            ),
            Ok(LayoutOf::Projects(projects)) => dotnet::versioned_step(
                c,
                projects,
                0,
                Seq::empty(),
            ),
            Err(_) => Next::Done(Seq::empty(), c),
        }
}

/// Of a .NET project the `Directory.Build.props` is staged, if the version
/// stands there; else all projects that have a version.
pub proof fn law_dotnet_stages_all_versions(
    dotnet: Dotnet,
    c: Cursor,
    host: spec_fn(AskView) -> Answer,
    layout: LayoutView,
    k: nat,
    n: nat,
)
    requires
        conversation::waiting(c),
        conversation::stands(classified(), c, host, k) matches Next::Done(Ok(l), _) && l == layout,
        conversation::stands(dotnet_staged(dotnet), c, host, n) is Done,
    ensures
        conversation::stands(dotnet_staged(dotnet), c, host, n)->Done_0 == (
        if layout is CentralizedProps {
            seq!["Directory.Build.props"@]
        } else {
            projects_of(layout).filter(has_version(host))
        }),
{
    let f = dotnet_staged(dotnet);
    let e = arbitrary();
    let d = lemma_classified(c, host, layout, e, k);
    let v = Ok::<LayoutView, ErrorView>(layout);
    let ended = |x: Cursor| Next::Done(v, x);
    let settled = conversation::settled(Some(layout), e);
    conversation::lemma_same(settled, ended, d, host);
    conversation::lemma_reaches_on(classified(), c, settled, d, ended, d, host);
    conversation::lemma_then(classified(), staged_behind(), c, v, d, host);
    let g = conversation::continued(classified(), staged_behind());
    let h = |x: Cursor| staged_behind()(v, x);
    conversation::lemma_same(f, g, c, host);
    conversation::lemma_reaches_on(f, c, g, c, h, d, host);
    if layout is CentralizedProps {
        let m = conversation::lemma_came_through(f, c, h, d, host, n);
        conversation::lemma_silent(h, d, host, m);
    } else {
        let projects = projects_of(layout);
        let none = Seq::<Seq<char>>::empty();
        let w = versioned_flow(projects, 0, none);
        conversation::lemma_same(h, w, d, host);
        conversation::lemma_reaches_on(f, c, h, d, w, d, host);
        let m = conversation::lemma_came_through(f, c, w, d, host, n);
        reveal(Seq::filter);
        assert(projects.take(0) =~= none);
        assert(projects.take(0).filter(has_version(host)) =~= none);
        lemma_versioned(d, host, projects, 0, none, m);
    }
}

/// Nothing is written into a .NET project of which no project that is there has
/// a version, and that is an error.
pub proof fn law_dotnet_without_version_is_refused(
    dotnet: Dotnet,
    c: Cursor,
    host: spec_fn(AskView) -> Answer,
    layout: LayoutView,
    new: Seq<char>,
    k: nat,
    n: nat,
)
    requires
        conversation::waiting(c),
        conversation::stands(classified(), c, host, k) matches Next::Done(Ok(l), _) && l == layout,
        !(layout is CentralizedProps),
        forall|i: int|
            0 <= i < projects_of(layout).len() && session::says_yes(
                host(AskOf::IsFile(#[trigger] projects_of(layout)[i])),
            ) ==> !has_version(host)(projects_of(layout)[i]),
    ensures
        match conversation::stands(dotnet_carried_out(dotnet, new), c, host, n) {
            Next::Ask(q) => !(q is Write),
            Next::Done(v, _) => v is Err,
        },
{
    let f = dotnet_carried_out(dotnet, new);
    let e = arbitrary();
    let projects = projects_of(layout);
    let d = lemma_classified(c, host, layout, e, k);
    lemma_write_there(dotnet, c, host, layout, e, d, new);
    let w = write_flow(layout, new);
    let g = each_flow(projects, 0, false, new);
    conversation::lemma_same(w, g, d, host);
    conversation::lemma_reaches_on(f, c, w, d, g, d, host);
    let m = choose|m: nat| conversation::leads(f, c, g, d, host, m);
    if n < m {
        assert(conversation::stands(f, c, host, n) is Ask);
    } else {
        conversation::lemma_leads(f, c, g, d, host, m, (n - m) as nat);
        assert(m + (n - m) as nat == n);
        lemma_none_written(d, host, projects, 0, new, (n - m) as nat);
    }
}

proof fn lemma_none_written(
    c: Cursor,
    host: spec_fn(AskView) -> Answer,
    projects: Seq<Seq<char>>,
    i: int,
    new: Seq<char>,
    n: nat,
)
    requires
        conversation::waiting(c),
        0 <= i <= projects.len(),
        forall|i: int|
            0 <= i < projects.len() && session::says_yes(
                host(AskOf::IsFile(#[trigger] projects[i])),
            ) ==> !has_version(host)(projects[i]),
    ensures
        match conversation::stands(each_flow(projects, i, false, new), c, host, n) {
            Next::Ask(q) => !(q is Write),
            Next::Done(v, _) => v is Err,
        },
    decreases projects.len() - i, 1int,
{
    let f = each_flow(projects, i, false, new);
    assert(c.with(Seq::empty()) =~= c);
    if i == projects.len() {
        conversation::lemma_silent(f, c, host, n);
    } else {
        let q: AskView = AskOf::IsFile(projects[i]);
        let a = host(q);
        let c2 = conversation::told(c, a);
        conversation::lemma_told(c, a);
        assert(f(c) == Next::<Result<(), ErrorView>>::Ask(q));
        if n > 0 {
            if session::says_yes(a) {
                let g = there_flow(projects, i, false, new);
                conversation::lemma_goes_on(f, g, c, host, q, n);
                lemma_none_there(c2, host, projects, i, new, (n - 1) as nat);
            } else {
                let g = each_flow(projects, i + 1, false, new);
                conversation::lemma_goes_on(f, g, c, host, q, n);
                lemma_none_written(c2, host, projects, i + 1, new, (n - 1) as nat);
            }
        }
    }
}

proof fn lemma_none_there(
    c: Cursor,
    host: spec_fn(AskView) -> Answer,
    projects: Seq<Seq<char>>,
    i: int,
    new: Seq<char>,
    n: nat,
)
    requires
        conversation::waiting(c),
        0 <= i < projects.len(),
        forall|i: int|
            0 <= i < projects.len() && session::says_yes(
                host(AskOf::IsFile(#[trigger] projects[i])),
            ) ==> !has_version(host)(projects[i]),
        session::says_yes(host(AskOf::IsFile(projects[i]))),
    ensures
        match conversation::stands(there_flow(projects, i, false, new), c, host, n) {
            Next::Ask(q) => !(q is Write),
            Next::Done(v, _) => v is Err,
        },
    decreases projects.len() - i, 0int,
{
    let f = there_flow(projects, i, false, new);
    let q: AskView = AskOf::Read(projects[i]);
    let a = host(q);
    let c2 = conversation::told(c, a);
    conversation::lemma_told(c, a);
    assert(c.with(Seq::empty()) =~= c);
    assert(f(c) == Next::<Result<(), ErrorView>>::Ask(q));
    assert(!has_version(host)(projects[i]));
    if memory::file(host, projects[i]) is None {
        conversation::lemma_ends(f, c, host, q, n);
    } else if n > 0 {
        let g = warn_flow(projects, i, false, new);
        conversation::lemma_goes_on(f, g, c, host, q, n);
        let line = "warning: "@ + projects[i] + " has no <Version> element; skipping"@;
        let r: AskView = AskOf::Warn(line);
        let b = host(r);
        conversation::lemma_told(c2, b);
        assert(c2.with(Seq::empty()) =~= c2);
        assert(g(c2) == Next::<Result<(), ErrorView>>::Ask(r));
        if n > 1 {
            let h = each_flow(projects, i + 1, false, new);
            conversation::lemma_goes_on(g, h, c2, host, r, (n - 1) as nat);
            lemma_none_written(
                conversation::told(c2, b),
                host,
                projects,
                i + 1,
                new,
                (n - 2) as nat,
            );
        }
    }
}

} // verus!
