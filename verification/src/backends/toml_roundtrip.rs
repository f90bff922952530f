//! What is written into the manifests of python and julia projects is what is
//! read from them.

use vstd::prelude::*;

use crate::backend::Backend;
use crate::backends::cargo_deps;
use crate::backends::cargo_toml;
use crate::backends::julia;
use crate::backends::julia::Julia;
use crate::backends::uv;
use crate::backends::uv::Uv;
use crate::backends::workspace;
use crate::conversation;
use crate::data;
use crate::data::Entries;
use crate::data::Node;
use crate::error::ErrorView;
use crate::memory;
use crate::session::Answer;
use crate::session::AskOf;
use crate::session::AskView;
use crate::session::Cursor;
use crate::session::Next;
use crate::toml;
use crate::toml::manifest_of;

verus! {

// ---------------------------------------------------------------------------
// julia
// ---------------------------------------------------------------------------

/// Read the version of a julia package.
pub open spec fn julia_looked_up(julia: Julia) -> spec_fn(Cursor) -> Next<
    Result<Seq<char>, ErrorView>,
> {
    |c: Cursor| julia.read_step(c)
}

/// Write a version into a julia package.
pub open spec fn julia_carried_out(julia: Julia, new: Seq<char>) -> spec_fn(Cursor) -> Next<
    Result<(), ErrorView>,
> {
    |c: Cursor| julia.write_step(c, new)
}

/// The version that is read from a julia package after it was written is that
/// one, from a host that remembers what has been written.
pub proof fn law_julia_version_is_read(
    julia: Julia,
    c: Cursor,
    d: Cursor,
    host: spec_fn(Seq<AskView>, AskView) -> Answer,
    same: spec_fn(Seq<char>, Seq<char>) -> bool,
    past: Seq<AskView>,
    new: Seq<char>,
    n: nat,
)
    requires
        toml::is_faithful(),
        memory::remembers(host, same),
        conversation::waiting(c) && conversation::waiting(d),
        memory::ends(julia_carried_out(julia, new), c, host, past, n) matches Some((Ok(_), _)),
    ensures
        ({
            let (_, later) = memory::ends(julia_carried_out(julia, new), c, host, past, n)->0;
            memory::gives(julia_looked_up(julia), d, host, later, Ok(new))
        }),
{
    let f = julia_carried_out(julia, new);
    let q: AskView = AskOf::Read("Project.toml"@);
    let a = host(past, q);
    let c2 = conversation::told(c, a);
    let past2 = past.push(q);
    conversation::lemma_told(c, a);
    memory::lemma_looked(host, same, past, q);
    let here = memory::now(host, past2);
    assert(here(q) == memory::now(host, past)(q));
    match manifest_of(a) {
        None => {
            let e = toml::unread(c, "Project.toml"@, a);
            let g = |c: Cursor| Next::Done(Err::<(), ErrorView>(e), c);
            memory::lemma_one(f, g, c, host, past, q, n);
            assert(g(c2) is Done);
        },
        Some((t, entries)) => match julia::with_version(t, entries, new) {
            Err(e) => {
                let g = |c: Cursor| Next::Done(Err::<(), ErrorView>(e), c);
                memory::lemma_one(f, g, c, host, past, q, n);
                assert(g(c2) is Done);
            },
            Ok(after) => {
                let g = |c: Cursor| c.write("Project.toml"@, after);
                let w: AskView = AskOf::Write("Project.toml"@, after);
                let b = host(past2, w);
                memory::lemma_one(f, g, c, host, past, q, n);
                let m = (n - 1) as nat;
                let r = g(c2.with(seq![b]))->Done_0;
                let h = |c: Cursor| Next::Done(r, c);
                conversation::lemma_told(c2, b);
                memory::lemma_one(g, h, c2, host, past2, w, m);
                assert(h(conversation::told(c2, b)) is Done);
                julia::law_written_text_reads_back(t, entries, new);
                memory::lemma_wrote(host, same, past2, "Project.toml"@, after);
                let last = memory::now(host, past2.push(w));
                let k = julia_looked_up(julia);
                assert(memory::file(last, "Project.toml"@) == Some(after));
                conversation::lemma_told(d, last(q));
                let end = |c: Cursor| Next::Done(Ok::<_, ErrorView>(new), c);
                conversation::lemma_asks(k, end, d, last, q);
                let d2 = conversation::told(d, last(q));
                memory::lemma_gives(k, d, end, d2, host, same, past2.push(w));
            },
        },
    }
}

// ---------------------------------------------------------------------------
// uv
// ---------------------------------------------------------------------------

/// Read the version of a uv project.
pub open spec fn uv_looked_up(uv: Uv) -> spec_fn(Cursor) -> Next<Result<Seq<char>, ErrorView>> {
    |c: Cursor| uv.read_step(c)
}

/// Write a version into a uv project.
pub open spec fn uv_carried_out(uv: Uv, new: Seq<char>) -> spec_fn(Cursor) -> Next<
    Result<(), ErrorView>,
> {
    |c: Cursor| uv.write_step(c, new)
}

/// The main `pyproject.toml` has the new version.
spec fn has_new(host: spec_fn(AskView) -> Answer, new: Seq<char>) -> bool {
    memory::file(host, "pyproject.toml"@) matches Some(t) && uv::reads_as(t, new)
}

spec fn members_flow(members: Seq<Seq<char>>, i: int, new: Seq<char>) -> spec_fn(Cursor) -> Next<
    Result<(), ErrorView>,
> {
    |c: Cursor| uv::write_members_step(c, members, i, new)
}

spec fn member_flow(
    members: Seq<Seq<char>>,
    i: int,
    t: Seq<char>,
    new: Seq<char>,
) -> spec_fn(Cursor) -> Next<Result<(), ErrorView>> {
    |c: Cursor|
        c.write(members[i], t).during("update member "@ + members[i]).and_ok(
            |u: (), c: Cursor| uv::write_members_step(c, members, i + 1, new),
        )
}

/// What a `pyproject.toml` says of its version.
pub open spec fn project_version(node: Node) -> Option<Node> {
    match data::at(node, seq!["project"@]) {
        Some(Node::Table(_)) => data::at(node, seq!["project"@, "version"@]),
        _ => None,
    }
}

/// The `pyproject.toml` that a host lets read.
pub open spec fn doc_of(host: spec_fn(AskView) -> Answer, path: Seq<char>) -> Option<
    (Seq<char>, Entries),
> {
    manifest_of(host(AskOf::Read(path)))
}

/// The `pyproject.toml` can be read, and has no version but the new one.
spec fn fresh(doc: Option<(Seq<char>, Entries)>, new: Seq<char>) -> bool {
    doc matches Some(doc) && (project_version(Node::Table(doc.1)) matches Some(x) ==> x
        == Node::Text(new))
}

/// From `a` to `b`, no `pyproject.toml` has lost its version.
spec fn holds_on(a: spec_fn(AskView) -> Answer, b: spec_fn(AskView) -> Answer) -> bool {
    &&& memory::same_tree(a, b)
    &&& forall|p: Seq<char>| still_read(doc_of(a, p), #[trigger] doc_of(b, p))
}

spec fn still_read(
    before: Option<(Seq<char>, Entries)>,
    after: Option<(Seq<char>, Entries)>,
) -> bool {
    before matches Some(b) ==> (after matches Some(a) && (project_version(
        Node::Table(b.1),
    ) is Some ==> project_version(Node::Table(a.1)) is Some))
}

proof fn lemma_holds_on(
    a: spec_fn(AskView) -> Answer,
    b: spec_fn(AskView) -> Answer,
    c: spec_fn(AskView) -> Answer,
)
    requires
        holds_on(a, b),
        memory::same_looks(c, b),
    ensures
        holds_on(a, c),
        forall|p: Seq<char>| #[trigger] doc_of(c, p) == doc_of(b, p),
{
    assert forall|p: Seq<char>| #[trigger] doc_of(c, p) == doc_of(b, p) by {
        let q: AskView = AskOf::Read(p);
        assert(c(q) == b(q));
    }
    assert forall|q: AskView| q.harmless() && !(q is Read) implies #[trigger] a(q) == c(q) by {
        assert(a(q) == b(q));
        assert(c(q) == b(q));
    }
}

/// Where a version stands, as it is told by keys.
proof fn lemma_project(entries: Entries)
    ensures
        uv::versioned(entries) <==> project_version(Node::Table(entries)) is Some,
        uv::version_in(entries) matches Ok(v) ==> project_version(Node::Table(entries)) == Some(
            Node::Text(v),
        ),
        project_version(Node::Table(entries)) matches Some(Node::Text(v)) ==> uv::version_in(
            entries,
        ) == Ok::<Seq<char>, ErrorView>(v),
{
    cargo_toml::lemma_at_two(Node::Table(entries), "project"@, "version"@);
}

/// A `pyproject.toml` is written.
proof fn lemma_wrote(
    host: spec_fn(Seq<AskView>, AskView) -> Answer,
    same: spec_fn(Seq<char>, Seq<char>) -> bool,
    past: Seq<AskView>,
    first: spec_fn(AskView) -> Answer,
    path: Seq<char>,
    t: Seq<char>,
    new: Seq<char>,
)
    requires
        memory::remembers(host, same),
        holds_on(first, memory::now(host, past)),
        doc_of(memory::now(host, past), path) is Some,
        uv::reads_as(t, new),
        host(past, AskOf::Write(path, t)) is Yes,
    ensures
        ({
            let before = memory::now(host, past);
            let after = memory::now(host, past.push(AskOf::Write(path, t)));
            &&& holds_on(first, after)
            &&& fresh(doc_of(after, path), new)
            &&& forall|p: Seq<char>|
                fresh(doc_of(before, p), new) ==> fresh(#[trigger] doc_of(after, p), new)
        }),
{
    let before = memory::now(host, past);
    let after = memory::now(host, past.push(AskOf::Write(path, t)));
    memory::lemma_wrote(host, same, past, path, t);
    lemma_project(toml::entries_in(t)->Ok_0);
    assert(memory::file(after, path) == Some(t));
    assert forall|p: Seq<char>|
        #![trigger doc_of(after, p)]
        still_read(doc_of(first, p), doc_of(after, p)) && (fresh(doc_of(before, p), new) ==> fresh(
            doc_of(after, p),
            new,
        )) by {
        assert(still_read(doc_of(first, p), doc_of(before, p)));
        assert(if same(p, path) {
            memory::file(after, p) == Some(t)
        } else {
            memory::file(after, p) == memory::file(before, p)
        });
    }
    assert forall|q: AskView| q.harmless() && !(q is Read) implies #[trigger] first(q) == after(
        q,
    ) by {
        assert(first(q) == before(q));
        assert(before(q) == after(q));
    }
}

/// Each member up to the one at `i` is fresh.
spec fn fresh_up_to(
    host: spec_fn(AskView) -> Answer,
    members: Seq<Seq<char>>,
    i: int,
    new: Seq<char>,
) -> bool {
    forall|j: int| 0 <= j < i ==> fresh(doc_of(host, #[trigger] members[j]), new)
}

/// The members are written. The main `pyproject.toml`, even if it is one of
/// these, keeps the version.
proof fn lemma_members(
    c: Cursor,
    host: spec_fn(Seq<AskView>, AskView) -> Answer,
    same: spec_fn(Seq<char>, Seq<char>) -> bool,
    past: Seq<AskView>,
    first: spec_fn(AskView) -> Answer,
    members: Seq<Seq<char>>,
    i: int,
    new: Seq<char>,
    n: nat,
)
    requires
        toml::is_faithful(),
        memory::remembers(host, same),
        conversation::waiting(c),
        0 <= i <= members.len(),
        has_new(memory::now(host, past), new),
        holds_on(first, memory::now(host, past)),
        fresh_up_to(memory::now(host, past), members, i, new),
        memory::ends(members_flow(members, i, new), c, host, past, n) matches Some((Ok(_), _)),
    ensures
        ({
            let (_, later) = memory::ends(members_flow(members, i, new), c, host, past, n)->0;
            let last = memory::now(host, later);
            &&& has_new(last, new)
            &&& holds_on(first, last)
            &&& fresh_up_to(last, members, members.len() as int, new)
        }),
    decreases members.len() - i,
{
    let f = members_flow(members, i, new);
    if i < members.len() {
        let path = members[i];
        let q: AskView = AskOf::Read(path);
        let a = host(past, q);
        let c2 = conversation::told(c, a);
        let past2 = past.push(q);
        let before = memory::now(host, past);
        let here = memory::now(host, past2);
        let next = members_flow(members, i + 1, new);
        conversation::lemma_told(c, a);
        memory::lemma_looked(host, same, past, q);
        memory::lemma_same_files(here, before);
        assert(memory::file(here, "pyproject.toml"@) == memory::file(before, "pyproject.toml"@));
        assert(here(q) == before(q));
        lemma_holds_on(first, before, here);
        assert(fresh_up_to(here, members, i, new)) by {
            assert forall|j: int| 0 <= j < i implies fresh(
                doc_of(here, #[trigger] members[j]),
                new,
            ) by {
                assert(doc_of(here, members[j]) == doc_of(before, members[j]));
            }
        }
        match manifest_of(a) {
            None => {
                let e = f(c.with(seq![a]))->Done_0->Err_0;
                let g = |c: Cursor| Next::Done(Err::<(), ErrorView>(e), c);
                memory::lemma_one(f, g, c, host, past, q, n);
                assert(g(c2) is Done);
            },
            Some((t, entries)) => match uv::member_with_version(t, entries, new) {
                None => {
                    memory::lemma_one(f, next, c, host, past, q, n);
                    lemma_project(entries);
                    lemma_members(c2, host, same, past2, first, members, i + 1, new, (n - 1) as nat);
                },
                Some(after) => {
                    let g = member_flow(members, i, after, new);
                    let w: AskView = AskOf::Write(path, after);
                    let b = host(past2, w);
                    let c3 = conversation::told(c2, b);
                    let m = (n - 1) as nat;
                    conversation::lemma_told(c2, b);
                    memory::lemma_one(f, g, c, host, past, q, n);
                    if b is Yes {
                        memory::lemma_one(g, next, c2, host, past2, w, m);
                        uv::law_written_text_reads_back(t, entries, new);
                        memory::lemma_wrote(host, same, past2, path, after);
                        let last = memory::now(host, past2.push(w));
                        assert(memory::file(last, "pyproject.toml"@) is Some);
                        lemma_wrote(host, same, past2, first, path, after, new);
                        assert(fresh_up_to(last, members, i + 1, new)) by {
                            assert forall|j: int| 0 <= j < i + 1 implies fresh(
                                doc_of(last, #[trigger] members[j]),
                                new,
                            ) by {
                                if j < i {
                                    assert(fresh(doc_of(here, members[j]), new));
                                }
                            }
                        }
                        lemma_members(
                            c3,
                            host,
                            same,
                            past2.push(w),
                            first,
                            members,
                            i + 1,
                            new,
                            (m - 1) as nat,
                        );
                    } else {
                        let e = g(c2.with(seq![b]))->Done_0->Err_0;
                        let h = |c: Cursor| Next::Done(Err::<(), ErrorView>(e), c);
                        memory::lemma_one(g, h, c2, host, past2, w, m);
                        assert(h(c3) is Done);
                    }
                },
            },
        }
    }
}

/// The members that a host lets find.
pub open spec fn members_by(host: spec_fn(AskView) -> Answer, sep: char, entries: Entries) -> Option<
    Seq<Seq<char>>,
> {
    workspace::members_by(
        host,
        sep,
        uv::members_in(entries),
        0,
        Seq::empty(),
        "pyproject.toml"@,
    )
}

/// Look for the members.
pub open spec fn search_flow(entries: Entries) -> spec_fn(Cursor) -> Next<
    Result<Seq<Seq<char>>, ErrorView>,
> {
    |c: Cursor| uv::members_step(c, entries)
}

/// The search for members ends.
pub proof fn lemma_search(c: Cursor, host: spec_fn(AskView) -> Answer, entries: Entries) -> (r: (
    Cursor,
    Option<Seq<Seq<char>>>,
    ErrorView,
))
    requires
        conversation::waiting(c),
    ensures
        conversation::waiting(r.0),
        conversation::reaches(
            search_flow(entries),
            c,
            conversation::settled(r.1, r.2),
            r.0,
            host,
        ),
        r.1 == members_by(host, c.sep, entries),
{
    let f = search_flow(entries);
    let patterns = uv::members_in(entries);
    if patterns.len() == 0 {
        let none = Some(Seq::<Seq<char>>::empty());
        let e = arbitrary();
        conversation::lemma_same(f, conversation::settled(none, e), c, host);
        (c, none, e)
    } else {
        let g = workspace::children_flow(patterns, "pyproject.toml"@);
        conversation::lemma_same(f, g, c, host);
        let (d, e) = workspace::lemma_children_flow(c, host, patterns, "pyproject.toml"@);
        let all = workspace::members_by(
            host,
            c.sep,
            patterns,
            0,
            Seq::empty(),
            "pyproject.toml"@,
        );
        conversation::lemma_reaches_on(f, c, g, c, conversation::settled(all, e), d, host);
        (d, all, e)
    }
}

/// The version that is read from a uv project after it was written is that one,
/// from a host that remembers what has been written.
pub proof fn law_uv_version_is_read(
    uv: Uv,
    c: Cursor,
    d: Cursor,
    host: spec_fn(Seq<AskView>, AskView) -> Answer,
    same: spec_fn(Seq<char>, Seq<char>) -> bool,
    past: Seq<AskView>,
    new: Seq<char>,
    n: nat,
)
    requires
        toml::is_faithful(),
        memory::remembers(host, same),
        conversation::waiting(c) && conversation::waiting(d),
        memory::ends(uv_carried_out(uv, new), c, host, past, n) matches Some((Ok(_), _)),
    ensures
        ({
            let (_, later) = memory::ends(uv_carried_out(uv, new), c, host, past, n)->0;
            memory::gives(uv_looked_up(uv), d, host, later, Ok(new))
        }),
{
    lemma_written(uv, c, d, host, same, past, new, n);
}

/// The patterns of the members, as they stand in a `pyproject.toml`.
pub open spec fn member_patterns(node: Node) -> Seq<Seq<char>> {
    if cargo_deps::is_table_path(node, seq!["tool"@, "uv"@, "workspace"@]) {
        match data::at(node, seq!["tool"@, "uv"@, "workspace"@, "members"@]) {
            Some(Node::List(list)) => data::texts_among(list),
            _ => Seq::empty(),
        }
    } else {
        Seq::empty()
    }
}

/// The patterns are those that the search goes by.
pub proof fn lemma_patterns(entries: Entries)
    ensures
        member_patterns(Node::Table(entries)) == uv::members_in(entries),
{
    let node = Node::Table(entries);
    let none = Seq::<Seq<char>>::empty();
    let table = seq!["tool"@, "uv"@, "workspace"@];
    let last = seq!["tool"@, "uv"@, "workspace"@, "members"@];
    assert(table.take(0) =~= none);
    assert(table.take(1) =~= seq!["tool"@]);
    assert(table.take(2) =~= seq!["tool"@, "uv"@]);
    assert(table.take(3) =~= table);
    cargo_toml::lemma_at_two(node, "tool"@, "uv"@);
    cargo_toml::lemma_at_three(node, "tool"@, "uv"@, "workspace"@);
    assert(last =~= table.push("members"@));
    toml::lemma_at_push(node, table, "members"@);
    if cargo_deps::is_table_path(node, table) {
        assert(data::at(node, table.take(1)) matches Some(Node::Table(_)));
        assert(data::at(node, table.take(2)) matches Some(Node::Table(_)));
        assert(data::at(node, table.take(3)) matches Some(Node::Table(_)));
    } else {
        let k = choose|k: int|
            0 <= k <= table.len() && !((#[trigger] data::at(node, table.take(k))) matches Some(
                Node::Table(_),
            ));
        assert(k == 0 || k == 1 || k == 2 || k == 3);
    }
}

/// A version that is written into a uv project is written in lockstep: the main
/// `pyproject.toml` has it then, and so has that of every member that says
/// something of its version.
pub proof fn law_uv_written_in_lockstep(
    uv: Uv,
    c: Cursor,
    host: spec_fn(Seq<AskView>, AskView) -> Answer,
    same: spec_fn(Seq<char>, Seq<char>) -> bool,
    past: Seq<AskView>,
    new: Seq<char>,
    n: nat,
)
    requires
        toml::is_faithful(),
        memory::remembers(host, same),
        conversation::waiting(c),
        memory::ends(uv_carried_out(uv, new), c, host, past, n) matches Some((Ok(_), _)),
    ensures
        ({
            let (_, later) = memory::ends(uv_carried_out(uv, new), c, host, past, n)->0;
            let first = memory::now(host, past);
            let last = memory::now(host, later);
            &&& doc_of(last, "pyproject.toml"@) matches Some(doc) && project_version(
                Node::Table(doc.1),
            ) == Some(Node::Text(new))
            &&& doc_of(first, "pyproject.toml"@) matches Some(root) && (workspace::members_by(
                first,
                c.sep,
                member_patterns(Node::Table(root.1)),
                0,
                Seq::empty(),
                "pyproject.toml"@,
            ) matches Some(members) && forall|i: int|
                0 <= i < members.len() ==> (doc_of(last, #[trigger] members[i]) matches Some(after)
                    && (doc_of(first, members[i]) matches Some(before) ==> (project_version(
                    Node::Table(before.1),
                ) is Some ==> project_version(Node::Table(after.1)) == Some(Node::Text(new))))))
        }),
{
    lemma_written(uv, c, c, host, same, past, new, n);
    let (_, later) = memory::ends(uv_carried_out(uv, new), c, host, past, n)->0;
    let first = memory::now(host, past);
    let last = memory::now(host, later);
    let root = doc_of(first, "pyproject.toml"@)->0;
    lemma_patterns(root.1);
    let t = memory::file(last, "pyproject.toml"@)->0;
    lemma_project(toml::entries_in(t)->Ok_0);
    let members = members_by(first, c.sep, root.1)->0;
    assert forall|i: int| 0 <= i < members.len() implies (doc_of(
        last,
        #[trigger] members[i],
    ) matches Some(after) && (doc_of(first, members[i]) matches Some(before) ==> (project_version(
        Node::Table(before.1),
    ) is Some ==> project_version(Node::Table(after.1)) == Some(Node::Text(new))))) by {
        assert(fresh(doc_of(last, members[i]), new));
        assert(still_read(doc_of(first, members[i]), doc_of(last, members[i])));
    }
}

proof fn lemma_written(
    uv: Uv,
    c: Cursor,
    d: Cursor,
    host: spec_fn(Seq<AskView>, AskView) -> Answer,
    same: spec_fn(Seq<char>, Seq<char>) -> bool,
    past: Seq<AskView>,
    new: Seq<char>,
    n: nat,
)
    requires
        toml::is_faithful(),
        memory::remembers(host, same),
        conversation::waiting(c) && conversation::waiting(d),
        memory::ends(uv_carried_out(uv, new), c, host, past, n) matches Some((Ok(_), _)),
    ensures
        ({
            let (_, later) = memory::ends(uv_carried_out(uv, new), c, host, past, n)->0;
            let first = memory::now(host, past);
            let last = memory::now(host, later);
            &&& memory::gives(uv_looked_up(uv), d, host, later, Ok(new))
            &&& has_new(last, new)
            &&& holds_on(first, last)
            &&& doc_of(first, "pyproject.toml"@) matches Some(root) && (members_by(
                first,
                c.sep,
                root.1,
            ) matches Some(members) && fresh_up_to(last, members, members.len() as int, new))
        }),
{
    let f = uv_carried_out(uv, new);
    let q: AskView = AskOf::Read("pyproject.toml"@);
    let a = host(past, q);
    let c2 = conversation::told(c, a);
    let past2 = past.push(q);
    conversation::lemma_told(c, a);
    memory::lemma_looked(host, same, past, q);
    let here = memory::now(host, past2);
    assert(here(q) == memory::now(host, past)(q));
    match manifest_of(a) {
        None => {
            let e = toml::unread(c, "pyproject.toml"@, a);
            let g = |c: Cursor| Next::Done(Err::<(), ErrorView>(e), c);
            memory::lemma_one(f, g, c, host, past, q, n);
            assert(g(c2) is Done);
        },
        Some((t, entries)) => match uv::with_version(t, entries, new) {
            Err(e) => {
                let g = |c: Cursor| Next::Done(Err::<(), ErrorView>(e), c);
                memory::lemma_one(f, g, c, host, past, q, n);
                assert(g(c2) is Done);
            },
            Ok(after) => {
                let write = |members: Seq<Seq<char>>, c: Cursor|
                    uv::write_members_step(c, members, 0, new);
                let rest = conversation::followed(search_flow(entries), write);
                let g = |c: Cursor|
                    c.write("pyproject.toml"@, after).and_ok(|u: (), c: Cursor| rest(c));
                let w: AskView = AskOf::Write("pyproject.toml"@, after);
                let b = host(past2, w);
                let c3 = conversation::told(c2, b);
                let m = (n - 1) as nat;
                conversation::lemma_told(c2, b);
                memory::lemma_one(f, g, c, host, past, q, n);
                if b is Yes {
                    memory::lemma_one(g, rest, c2, host, past2, w, m);
                    uv::law_written_text_reads_back(t, entries, new);
                    memory::lemma_wrote(host, same, past2, "pyproject.toml"@, after);
                    let first = memory::now(host, past);
                    assert(holds_on(first, first));
                    lemma_holds_on(first, first, here);
                    lemma_wrote(host, same, past2, first, "pyproject.toml"@, after, new);
                    lemma_rest(
                        uv,
                        c3,
                        d,
                        host,
                        same,
                        past2.push(w),
                        first,
                        entries,
                        new,
                        (m - 1) as nat,
                    );
                } else {
                    let e = g(c2.with(seq![b]))->Done_0->Err_0;
                    let h = |c: Cursor| Next::Done(Err::<(), ErrorView>(e), c);
                    memory::lemma_one(g, h, c2, host, past2, w, m);
                    assert(h(c3) is Done);
                }
            },
        },
    }
}

/// What follows the main `pyproject.toml`.
proof fn lemma_rest(
    uv: Uv,
    c: Cursor,
    d: Cursor,
    host: spec_fn(Seq<AskView>, AskView) -> Answer,
    same: spec_fn(Seq<char>, Seq<char>) -> bool,
    past: Seq<AskView>,
    first: spec_fn(AskView) -> Answer,
    entries: Entries,
    new: Seq<char>,
    n: nat,
)
    requires
        toml::is_faithful(),
        memory::remembers(host, same),
        conversation::waiting(c) && conversation::waiting(d),
        has_new(memory::now(host, past), new),
        holds_on(first, memory::now(host, past)),
        memory::ends(
            conversation::followed(
                search_flow(entries),
                |members: Seq<Seq<char>>, c: Cursor| uv::write_members_step(c, members, 0, new),
            ),
            c,
            host,
            past,
            n,
        ) matches Some((Ok(_), _)),
    ensures
        ({
            let (_, later) = memory::ends(
                conversation::followed(
                    search_flow(entries),
                    |members: Seq<Seq<char>>, c: Cursor| uv::write_members_step(c, members, 0, new),
                ),
                c,
                host,
                past,
                n,
            )->0;
            let last = memory::now(host, later);
            &&& memory::gives(uv_looked_up(uv), d, host, later, Ok(new))
            &&& has_new(last, new)
            &&& holds_on(first, last)
            &&& members_by(first, c.sep, entries) matches Some(members) && fresh_up_to(
                last,
                members,
                members.len() as int,
                new,
            )
        }),
{
    let write = |members: Seq<Seq<char>>, c: Cursor| uv::write_members_step(c, members, 0, new);
    let f = conversation::followed(search_flow(entries), write);
    let here = memory::now(host, past);
    let (c2, found, e) = lemma_search(c, here, entries);
    conversation::lemma_follows(search_flow(entries), write, c, found, e, c2, here);
    let g = conversation::onward(write, found, e);
    let (past2, m) = memory::lemma_through(f, c, g, c2, host, same, past, n);
    if found is None {
        assert(g(c2) is Done);
    }
    let there = memory::now(host, past2);
    memory::lemma_same_files(there, here);
    assert(memory::file(there, "pyproject.toml"@) == memory::file(here, "pyproject.toml"@));
    memory::lemma_same_end(g, c2, members_flow(found->0, 0, new), c2, host, past2, m);
    lemma_holds_on(first, here, there);
    workspace::lemma_members_same(
        first,
        here,
        c.sep,
        uv::members_in(entries),
        0,
        Seq::empty(),
        "pyproject.toml"@,
    );
    lemma_members(c2, host, same, past2, first, found->0, 0, new, m);
    let (_, later) = memory::ends(f, c, host, past, n)->0;
    let last = memory::now(host, later);
    let q: AskView = AskOf::Read("pyproject.toml"@);
    assert(memory::file(last, "pyproject.toml"@) is Some);
    let k = uv_looked_up(uv);
    conversation::lemma_told(d, last(q));
    let end = |c: Cursor| Next::Done(Ok::<_, ErrorView>(new), c);
    conversation::lemma_asks(k, end, d, last, q);
    memory::lemma_gives(k, d, end, conversation::told(d, last(q)), host, same, later);
}

// ---------------------------------------------------------------------------
// Where the version is read
// ---------------------------------------------------------------------------

/// The version of a uv project is the text at `project.version` of its main
/// `pyproject.toml`.
pub proof fn law_uv_version_is_read_where_it_stands(
    uv: Uv,
    c: Cursor,
    host: spec_fn(AskView) -> Answer,
    n: nat,
)
    requires
        conversation::waiting(c),
        conversation::stands(uv_looked_up(uv), c, host, n) is Done,
    ensures
        ({
            let v = conversation::stands(uv_looked_up(uv), c, host, n)->Done_0;
            match doc_of(host, "pyproject.toml"@) {
                Some(doc) => match project_version(Node::Table(doc.1)) {
                    Some(Node::Text(x)) => v == Ok::<Seq<char>, ErrorView>(x),
                    _ => v is Err,
                },
                None => v is Err,
            }
        }),
{
    let f = uv_looked_up(uv);
    let q: AskView = AskOf::Read("pyproject.toml"@);
    conversation::lemma_told(c, host(q));
    conversation::lemma_ends(f, c, host, q, n);
    if let Some(doc) = doc_of(host, "pyproject.toml"@) {
        lemma_project(doc.1);
    }
}

/// The version of a julia package is the text at `version` of its
/// `Project.toml`.
pub proof fn law_julia_version_is_read_where_it_stands(
    julia: Julia,
    c: Cursor,
    host: spec_fn(AskView) -> Answer,
    n: nat,
)
    requires
        conversation::waiting(c),
        conversation::stands(julia_looked_up(julia), c, host, n) is Done,
    ensures
        ({
            let v = conversation::stands(julia_looked_up(julia), c, host, n)->Done_0;
            match doc_of(host, "Project.toml"@) {
                Some(doc) => match data::at(Node::Table(doc.1), seq!["version"@]) {
                    Some(Node::Text(x)) => v == Ok::<Seq<char>, ErrorView>(x),
                    _ => v is Err,
                },
                None => v is Err,
            }
        }),
{
    let f = julia_looked_up(julia);
    let q: AskView = AskOf::Read("Project.toml"@);
    conversation::lemma_told(c, host(q));
    conversation::lemma_ends(f, c, host, q, n);
    if let Some(doc) = doc_of(host, "Project.toml"@) {
        toml::lemma_way_one(Node::Table(doc.1), "version"@);
    }
}

} // verus!
