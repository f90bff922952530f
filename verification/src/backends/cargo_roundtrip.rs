//! What is written into a Cargo project is what is read from it.

use vstd::prelude::*;

use crate::backend::Backend;
use crate::backends::cargo;
use crate::backends::cargo::Cargo;
use crate::backends::cargo::MembersView;
use crate::backends::cargo_deps;
use crate::backends::cargo_preview;
use crate::backends::cargo_preview::carried_out;
use crate::backends::cargo_preview::carried_out_for;
use crate::backends::cargo_toml;
use crate::backends::cargo_toml::LayoutOf;
use crate::backends::workspace;
use crate::conversation;
use crate::data;
use crate::data::Entries;
use crate::data::Node;
use crate::error::ErrorView;
use crate::memory;
use crate::session::Answer;
use crate::session::AskOf;
use crate::session::AskView;
use crate::session::Cursor;
use crate::session::Next;
use crate::toml;
use crate::toml::manifest_of;

verus! {

// ---------------------------------------------------------------------------
// The version that a host lets read
// ---------------------------------------------------------------------------

/// The manifest that a host lets read.
pub open spec fn doc_of(host: spec_fn(AskView) -> Answer, path: Seq<char>) -> Option<
    (Seq<char>, Entries),
> {
    manifest_of(host(AskOf::Read(path)))
}

/// The first version in the manifests from the one at `i` on.
pub open spec fn first_by(
    host: spec_fn(AskView) -> Answer,
    manifests: Seq<Seq<char>>,
    i: int,
) -> Option<Seq<char>>
    decreases manifests.len() - i,
{
    if i >= manifests.len() {
        None
    } else {
        match doc_of(host, manifests[i]) {
            Some(doc) => match cargo_toml::version_in(doc.1) {
                Some(version) => Some(version),
                None => first_by(host, manifests, i + 1),
            },
            None => None,
        }
    }
}

/// The version that a host lets read, given the root manifest.
pub open spec fn version_by(
    host: spec_fn(AskView) -> Answer,
    sep: char,
    entries: Entries,
) -> Option<Seq<char>> {
    match cargo_toml::layout_of(entries) {
        LayoutOf::WorkspacePackage => cargo_toml::shared_version_in(entries),
        LayoutOf::Package => cargo_toml::version_in(entries),
        LayoutOf::VirtualOrMembers(patterns) => match cargo_toml::version_in(entries) {
            Some(version) => Some(version),
            None => match workspace::members_by(
                host,
                sep,
                patterns,
                0,
                Seq::empty(),
                "Cargo.toml"@,
            ) {
                Some(manifests) => first_by(host, manifests, 0),
                None => None,
            },
        },
    }
}

/// The version of the project that a host lets read.
pub open spec fn project_by(host: spec_fn(AskView) -> Answer, sep: char) -> Option<Seq<char>> {
    match doc_of(host, "Cargo.toml"@) {
        Some(doc) => version_by(host, sep, doc.1),
        None => None,
    }
}

/// Read the version.
pub open spec fn looked_up(cargo: Cargo) -> spec_fn(Cursor) -> Next<
    Result<Seq<char>, ErrorView>,
> {
    |c: Cursor| cargo.read_step(c)
}

spec fn looked_up_for(entries: Entries) -> spec_fn(Cursor) -> Next<Result<Seq<char>, ErrorView>> {
    |c: Cursor| cargo::read_root_step(c, entries)
}

spec fn first_flow(manifests: Seq<Seq<char>>, i: int) -> spec_fn(Cursor) -> Next<
    Result<Seq<char>, ErrorView>,
> {
    |c: Cursor| cargo::first_version_step(c, manifests, i)
}

proof fn lemma_first_talk(
    c: Cursor,
    host: spec_fn(AskView) -> Answer,
    manifests: Seq<Seq<char>>,
    i: int,
) -> (r: (Cursor, ErrorView))
    requires
        conversation::waiting(c),
    ensures
        conversation::reaches(
            first_flow(manifests, i),
            c,
            conversation::settled(first_by(host, manifests, i), r.1),
            r.0,
            host,
        ),
    decreases manifests.len() - i,
{
    let f = first_flow(manifests, i);
    let version = first_by(host, manifests, i);
    if i >= manifests.len() {
        let e = f(c)->Done_0->Err_0;
        conversation::lemma_same(f, conversation::settled(version, e), c, host);
        (c, e)
    } else {
        let q: AskView = AskOf::Read(manifests[i]);
        let c2 = conversation::told(c, host(q));
        let e = toml::unread(c, manifests[i], host(q));
        conversation::lemma_told(c, host(q));
        if doc_of(host, manifests[i]) matches Some(doc) && cargo_toml::version_in(doc.1) is None {
            let g = first_flow(manifests, i + 1);
            conversation::lemma_asks(f, g, c, host, q);
            let (d, e2) = lemma_first_talk(c2, host, manifests, i + 1);
            let end = conversation::settled(version, e2);
            conversation::lemma_reaches_on(f, c, g, c2, end, d, host);
            (d, e2)
        } else {
            conversation::lemma_asks(f, conversation::settled(version, e), c, host, q);
            (c2, e)
        }
    }
}

/// A conversation about the version ends with the one that the host lets read,
/// or with an error where there is none.
proof fn lemma_read_talk(cargo: Cargo, c: Cursor, host: spec_fn(AskView) -> Answer) -> (r: (
    Cursor,
    ErrorView,
))
    requires
        conversation::waiting(c),
    ensures
        conversation::reaches(
            looked_up(cargo),
            c,
            conversation::settled(project_by(host, c.sep), r.1),
            r.0,
            host,
        ),
{
    let f = looked_up(cargo);
    let q: AskView = AskOf::Read("Cargo.toml"@);
    let c2 = conversation::told(c, host(q));
    let version = project_by(host, c.sep);
    conversation::lemma_told(c, host(q));
    match doc_of(host, "Cargo.toml"@) {
        None => {
            let e = toml::unread(c, "Cargo.toml"@, host(q));
            conversation::lemma_asks(f, conversation::settled(version, e), c, host, q);
            (c2, e)
        },
        Some(doc) => {
            let g = looked_up_for(doc.1);
            conversation::lemma_asks(f, g, c, host, q);
            let (d, e) = lemma_read_root_talk(c2, host, doc.1);
            conversation::lemma_reaches_on(f, c, g, c2, conversation::settled(version, e), d, host);
            (d, e)
        },
    }
}

proof fn lemma_read_root_talk(
    c: Cursor,
    host: spec_fn(AskView) -> Answer,
    entries: Entries,
) -> (r: (Cursor, ErrorView))
    requires
        conversation::waiting(c),
    ensures
        conversation::reaches(
            looked_up_for(entries),
            c,
            conversation::settled(version_by(host, c.sep, entries), r.1),
            r.0,
            host,
        ),
{
    let f = looked_up_for(entries);
    let version = version_by(host, c.sep, entries);
    if cargo_toml::layout_of(entries) is VirtualOrMembers && cargo_toml::version_in(
        entries,
    ) is None {
        let patterns = cargo_toml::layout_of(entries)->VirtualOrMembers_0;
        let then_first = |manifests: Seq<Seq<char>>, c: Cursor|
            cargo::first_version_step(c, manifests, 0);
        let g = workspace::patterns_flow(patterns, 0, Seq::empty(), "Cargo.toml"@, then_first);
        conversation::lemma_same(f, g, c, host);
        let (d, e) = workspace::lemma_patterns_talk(
            c,
            host,
            patterns,
            0,
            Seq::empty(),
            "Cargo.toml"@,
            then_first,
        );
        let found = workspace::members_by(host, c.sep, patterns, 0, Seq::empty(), "Cargo.toml"@);
        let h = conversation::onward(then_first, found, e);
        conversation::lemma_reaches_on(f, c, g, c, h, d, host);
        match found {
            Some(manifests) => {
                let k = first_flow(manifests, 0);
                conversation::lemma_same(h, k, d, host);
                conversation::lemma_reaches_on(f, c, h, d, k, d, host);
                let (d2, e2) = lemma_first_talk(d, host, manifests, 0);
                let end = conversation::settled(version, e2);
                conversation::lemma_reaches_on(f, c, k, d, end, d2, host);
                (d2, e2)
            },
            None => {
                let k = conversation::settled(version, e);
                conversation::lemma_same(h, k, d, host);
                conversation::lemma_reaches_on(f, c, h, d, k, d, host);
                (d, e)
            },
        }
    } else {
        let e = f(c)->Done_0->Err_0;
        conversation::lemma_same(f, conversation::settled(version, e), c, host);
        (c, e)
    }
}

/// What comes of reading the version from a host that remembers.
proof fn lemma_read_ends(
    cargo: Cargo,
    c: Cursor,
    host: spec_fn(Seq<AskView>, AskView) -> Answer,
    same: spec_fn(Seq<char>, Seq<char>) -> bool,
    past: Seq<AskView>,
    n: nat,
)
    requires
        memory::remembers(host, same),
        conversation::waiting(c),
        memory::ends(looked_up(cargo), c, host, past, n) is Some,
    ensures
        ({
            let (r, later) = memory::ends(looked_up(cargo), c, host, past, n)->0;
            &&& memory::same_looks(memory::now(host, later), memory::now(host, past))
            &&& match project_by(memory::now(host, past), c.sep) {
                Some(version) => r == Ok::<Seq<char>, ErrorView>(version),
                None => r is Err,
            }
        }),
{
    let h = memory::now(host, past);
    let f = looked_up(cargo);
    let (d, e) = lemma_read_talk(cargo, c, h);
    let g = conversation::settled(project_by(h, c.sep), e);
    let (later, m) = memory::lemma_through(f, c, g, d, host, same, past, n);
    assert(g(d) is Done);
}

// ---------------------------------------------------------------------------
// The members
// ---------------------------------------------------------------------------

/// The manifest has no version but the new one, and no dependency on one of
/// these packages that wants another one.
pub open spec fn fresh(
    doc: Option<(Seq<char>, Entries)>,
    names: Set<Seq<char>>,
    new: Seq<char>,
) -> bool {
    doc matches Some(doc) ==> (cargo_toml::version_in(doc.1) matches Some(v) ==> v == new)
        && cargo_deps::all_want(Node::Table(doc.1), names, new)
}

/// What could be read of a manifest can still be read, with a version where
/// there was one and with the same layout.
pub open spec fn still_read(
    before: Option<(Seq<char>, Entries)>,
    after: Option<(Seq<char>, Entries)>,
) -> bool {
    before matches Some(b) ==> (after matches Some(a) && cargo_toml::layout_of(a.1)
        == cargo_toml::layout_of(b.1) && (cargo_toml::version_in(a.1) is Some
        <==> cargo_toml::version_in(b.1) is Some))
}

/// From `a` to `b`, no manifest has lost its version or its layout.
pub open spec fn holds_on(a: spec_fn(AskView) -> Answer, b: spec_fn(AskView) -> Answer) -> bool {
    &&& memory::same_tree(a, b)
    &&& forall|p: Seq<char>| still_read(doc_of(a, p), #[trigger] doc_of(b, p))
}

/// Looks change nothing in what holds.
proof fn lemma_holds_on(
    a: spec_fn(AskView) -> Answer,
    b: spec_fn(AskView) -> Answer,
    c: spec_fn(AskView) -> Answer,
)
    requires
        holds_on(a, b),
        memory::same_looks(c, b),
    ensures
        holds_on(a, c),
        forall|p: Seq<char>| #[trigger] doc_of(c, p) == doc_of(b, p),
{
    assert forall|p: Seq<char>| #[trigger] doc_of(c, p) == doc_of(b, p) by {
        let q: AskView = AskOf::Read(p);
        assert(c(q) == b(q));
    }
    assert forall|q: AskView| q.harmless() && !(q is Read) implies #[trigger] a(q) == c(q) by {
        assert(a(q) == b(q));
        assert(c(q) == b(q));
    }
}

/// What a file that is written does to what the host lets read.
proof fn lemma_wrote(
    host: spec_fn(Seq<AskView>, AskView) -> Answer,
    same: spec_fn(Seq<char>, Seq<char>) -> bool,
    past: Seq<AskView>,
    path: Seq<char>,
    t: Seq<char>,
)
    requires
        memory::remembers(host, same),
        host(past, AskOf::Write(path, t)) is Yes,
        doc_of(memory::now(host, past), path) is Some,
        toml::entries_in(t) is Ok,
    ensures
        ({
            let before = memory::now(host, past);
            let after = memory::now(host, past.push(AskOf::Write(path, t)));
            let written = Some((t, toml::entries_in(t)->Ok_0));
            &&& memory::same_tree(before, after)
            &&& doc_of(after, path) == written
            &&& forall|p: Seq<char>|
                #![trigger doc_of(after, p)]
                if same(p, path) {
                    doc_of(after, p) == written && doc_of(before, p) == doc_of(before, path)
                } else {
                    doc_of(after, p) == doc_of(before, p)
                }
        }),
{
    let before = memory::now(host, past);
    let after = memory::now(host, past.push(AskOf::Write(path, t)));
    memory::lemma_wrote(host, same, past, path, t);
    assert forall|p: Seq<char>|
        #![trigger doc_of(after, p)]
        if same(p, path) {
            doc_of(after, p) == Some((t, toml::entries_in(t)->Ok_0)) && doc_of(before, p)
                == doc_of(before, path)
        } else {
            doc_of(after, p) == doc_of(before, p)
        } by {
        assert(if same(p, path) {
            memory::file(after, p) == Some(t) && memory::file(before, p) == memory::file(
                before,
                path,
            )
        } else {
            memory::file(after, p) == memory::file(before, p)
        });
    }
    assert(same(path, path));
}

/// A manifest that gets the version itself is written.
proof fn lemma_lockstep_wrote(
    host: spec_fn(Seq<AskView>, AskView) -> Answer,
    same: spec_fn(Seq<char>, Seq<char>) -> bool,
    past: Seq<AskView>,
    first: spec_fn(AskView) -> Answer,
    path: Seq<char>,
    names: Set<Seq<char>>,
    t: Seq<char>,
    new: Seq<char>,
)
    requires
        toml::is_faithful(),
        memory::remembers(host, same),
        holds_on(first, memory::now(host, past)),
        doc_of(memory::now(host, past), path) matches Some(doc)
            && cargo_toml::lockstep_changed(doc.0, doc.1, names, new) == Some(t),
        host(past, AskOf::Write(path, t)) is Yes,
    ensures
        ({
            let before = memory::now(host, past);
            let after = memory::now(host, past.push(AskOf::Write(path, t)));
            &&& holds_on(first, after)
            &&& fresh(doc_of(after, path), names, new)
            &&& forall|p: Seq<char>|
                fresh(doc_of(before, p), names, new) ==> fresh(
                    #[trigger] doc_of(after, p),
                    names,
                    new,
                )
        }),
{
    let before = memory::now(host, past);
    let after = memory::now(host, past.push(AskOf::Write(path, t)));
    let doc = doc_of(before, path)->0;
    cargo_toml::law_lockstep_reads_back(doc.0, doc.1, names, new);
    cargo_deps::law_lockstep_dependencies_follow(doc.0, doc.1, names, new);
    lemma_wrote(host, same, past, path, t);
    assert forall|p: Seq<char>| still_read(doc_of(first, p), #[trigger] doc_of(after, p)) by {
        assert(still_read(doc_of(first, p), doc_of(before, p)));
    }
    assert forall|q: AskView| q.harmless() && !(q is Read) implies #[trigger] first(q) == after(
        q,
    ) by {
        assert(first(q) == before(q));
        assert(before(q) == after(q));
    }
}

/// Each manifest up to the one at `i` is fresh.
spec fn fresh_up_to(
    host: spec_fn(AskView) -> Answer,
    members: MembersView,
    i: int,
    new: Seq<char>,
) -> bool {
    forall|j: int|
        0 <= j < i ==> fresh(
            doc_of(host, #[trigger] members.manifests[j]),
            members.names,
            new,
        )
}

/// The members get the version themselves.
proof fn lemma_lockstep_members(
    c: Cursor,
    host: spec_fn(Seq<AskView>, AskView) -> Answer,
    same: spec_fn(Seq<char>, Seq<char>) -> bool,
    past: Seq<AskView>,
    first: spec_fn(AskView) -> Answer,
    members: MembersView,
    i: int,
    new: Seq<char>,
    n: nat,
)
    requires
        toml::is_faithful(),
        memory::remembers(host, same),
        conversation::waiting(c),
        0 <= i <= members.manifests.len(),
        memory::ends(
            cargo_preview::write_flow(members, i, false, new),
            c,
            host,
            past,
            n,
        ) matches Some((Ok(_), _)),
        holds_on(first, memory::now(host, past)),
        fresh(doc_of(memory::now(host, past), "Cargo.toml"@), members.names, new),
        fresh_up_to(memory::now(host, past), members, i, new),
    ensures
        ({
            let (_, later) = memory::ends(
                cargo_preview::write_flow(members, i, false, new),
                c,
                host,
                past,
                n,
            )->0;
            let last = memory::now(host, later);
            &&& holds_on(first, last)
            &&& fresh(doc_of(last, "Cargo.toml"@), members.names, new)
            &&& fresh_up_to(last, members, members.manifests.len() as int, new)
        }),
    decreases members.manifests.len() - i, 0int,
{
    let f = cargo_preview::write_flow(members, i, false, new);
    let before = memory::now(host, past);
    if i < members.manifests.len() {
        let path = members.manifests[i];
        let q: AskView = AskOf::Read(path);
        let a = host(past, q);
        let c2 = conversation::told(c, a);
        let past2 = past.push(q);
        let here = memory::now(host, past2);
        let next = cargo_preview::write_flow(members, i + 1, false, new);
        conversation::lemma_told(c, a);
        memory::lemma_looked(host, same, past, q);
        lemma_holds_on(first, before, here);
        assert(doc_of(here, "Cargo.toml"@) == doc_of(before, "Cargo.toml"@));
        assert(doc_of(here, path) == manifest_of(a));
        assert forall|j: int| 0 <= j < i implies fresh(
            doc_of(here, #[trigger] members.manifests[j]),
            members.names,
            new,
        ) by {
            assert(doc_of(here, members.manifests[j]) == doc_of(before, members.manifests[j]));
        }
        match manifest_of(a) {
            None => {
                let e = toml::unread(c, path, a);
                let g = |c: Cursor| Next::Done(Err::<(), ErrorView>(e), c);
                memory::lemma_one(f, g, c, host, past, q, n);
                assert(g(c2) is Done);
            },
            Some(doc) => match cargo_toml::lockstep_changed(doc.0, doc.1, members.names, new) {
                None => {
                    memory::lemma_one(f, next, c, host, past, q, n);
                    cargo_deps::law_lockstep_dependencies_follow(
                        doc.0,
                        doc.1,
                        members.names,
                        new,
                    );
                    assert(fresh_up_to(here, members, i + 1, new));
                    let m = (n - 1) as nat;
                    lemma_lockstep_members(c2, host, same, past2, first, members, i + 1, new, m);
                },
                Some(t) => {
                    let g = cargo_preview::file_flow(path, t, members, i + 1, false, new);
                    memory::lemma_one(f, g, c, host, past, q, n);
                    lemma_lockstep_file(
                        c2,
                        host,
                        same,
                        past2,
                        first,
                        path,
                        t,
                        members,
                        i,
                        i + 1,
                        new,
                        (n - 1) as nat,
                    );
                },
            },
        }
    }
}

/// A manifest that gets the version itself is written, and then the members
/// from the one at `next` on, which is the one behind it or behind the root.
proof fn lemma_lockstep_file(
    c: Cursor,
    host: spec_fn(Seq<AskView>, AskView) -> Answer,
    same: spec_fn(Seq<char>, Seq<char>) -> bool,
    past: Seq<AskView>,
    first: spec_fn(AskView) -> Answer,
    path: Seq<char>,
    t: Seq<char>,
    members: MembersView,
    i: int,
    next: int,
    new: Seq<char>,
    n: nat,
)
    requires
        toml::is_faithful(),
        memory::remembers(host, same),
        conversation::waiting(c),
        0 <= i <= next <= members.manifests.len(),
        if i < next {
            next == i + 1 && members.manifests[i] == path && fresh(
                doc_of(memory::now(host, past), "Cargo.toml"@),
                members.names,
                new,
            )
        } else {
            i == 0 && path == "Cargo.toml"@
        },
        memory::ends(
            cargo_preview::file_flow(path, t, members, next, false, new),
            c,
            host,
            past,
            n,
        ) matches Some((Ok(_), _)),
        holds_on(first, memory::now(host, past)),
        fresh_up_to(memory::now(host, past), members, i, new),
        doc_of(memory::now(host, past), path) matches Some(doc)
            && cargo_toml::lockstep_changed(doc.0, doc.1, members.names, new) == Some(t),
    ensures
        ({
            let (_, later) = memory::ends(
                cargo_preview::file_flow(path, t, members, next, false, new),
                c,
                host,
                past,
                n,
            )->0;
            let last = memory::now(host, later);
            &&& holds_on(first, last)
            &&& fresh(doc_of(last, "Cargo.toml"@), members.names, new)
            &&& fresh_up_to(last, members, members.manifests.len() as int, new)
        }),
    decreases members.manifests.len() - next, 1int,
{
    let f = cargo_preview::file_flow(path, t, members, next, false, new);
    let g = cargo_preview::write_flow(members, next, false, new);
    let q: AskView = AskOf::Write(path, t);
    let a = host(past, q);
    let c2 = conversation::told(c, a);
    conversation::lemma_told(c, a);
    if a is Yes {
        let before = memory::now(host, past);
        let after = memory::now(host, past.push(q));
        memory::lemma_one(f, g, c, host, past, q, n);
        lemma_lockstep_wrote(host, same, past, first, path, members.names, t, new);
        assert forall|j: int| 0 <= j < next implies fresh(
            doc_of(after, #[trigger] members.manifests[j]),
            members.names,
            new,
        ) by {
            if j < i {
                assert(fresh(doc_of(before, members.manifests[j]), members.names, new));
            }
        }
        lemma_lockstep_members(
            c2,
            host,
            same,
            past.push(q),
            first,
            members,
            next,
            new,
            (n - 1) as nat,
        );
    } else {
        let e = f(c.with(seq![a]))->Done_0->Err_0;
        let h = |c: Cursor| Next::Done(Err::<(), ErrorView>(e), c);
        memory::lemma_one(f, h, c, host, past, q, n);
        assert(h(c2) is Done);
    }
}

/// The first version is the new one where there was one.
proof fn lemma_first_new(
    first: spec_fn(AskView) -> Answer,
    last: spec_fn(AskView) -> Answer,
    members: MembersView,
    i: int,
    new: Seq<char>,
)
    requires
        0 <= i,
        holds_on(first, last),
        fresh_up_to(last, members, members.manifests.len() as int, new),
        first_by(first, members.manifests, i) is Some,
    ensures
        first_by(last, members.manifests, i) == Some(new),
    decreases members.manifests.len() - i,
{
    if i < members.manifests.len() {
        let path = members.manifests[i];
        assert(still_read(doc_of(first, path), doc_of(last, path)));
        assert(fresh(doc_of(last, members.manifests[i]), members.names, new));
        let (_, entries) = doc_of(first, path)->0;
        if cargo_toml::version_in(entries) is None {
            lemma_first_new(first, last, members, i + 1, new);
        }
    }
}

/// The manifest has the new version for members to inherit.
pub open spec fn shares(doc: Option<(Seq<char>, Entries)>, new: Seq<char>) -> bool {
    doc matches Some(doc) && cargo_toml::layout_of(doc.1) is WorkspacePackage
        && cargo_toml::shared_version_in(doc.1) == Some(new)
}

/// From `a` to `b`, no manifest has changed its own version.
pub open spec fn keeps_on(a: spec_fn(AskView) -> Answer, b: spec_fn(AskView) -> Answer) -> bool {
    &&& memory::same_tree(a, b)
    &&& forall|p: Seq<char>| keeps_version(doc_of(a, p), #[trigger] doc_of(b, p))
}

/// What could be read of a manifest can still be read, with the same version of
/// its own.
pub open spec fn keeps_version(
    before: Option<(Seq<char>, Entries)>,
    after: Option<(Seq<char>, Entries)>,
) -> bool {
    before matches Some(b) ==> (after matches Some(a) && cargo_toml::version_in(a.1)
        == cargo_toml::version_in(b.1))
}

/// The manifest has no dependency on one of these packages that wants another
/// version.
pub open spec fn follows(
    doc: Option<(Seq<char>, Entries)>,
    names: Set<Seq<char>>,
    new: Seq<char>,
) -> bool {
    doc matches Some(doc) ==> cargo_deps::all_want(Node::Table(doc.1), names, new)
}

/// So it is with each manifest up to the one at `i`, and with the root.
spec fn follow_up_to(
    host: spec_fn(AskView) -> Answer,
    members: MembersView,
    i: int,
    new: Seq<char>,
) -> bool {
    &&& follows(doc_of(host, "Cargo.toml"@), members.names, new)
    &&& forall|j: int|
        0 <= j < i ==> follows(
            doc_of(host, #[trigger] members.manifests[j]),
            members.names,
            new,
        )
}

proof fn lemma_keeps_on(
    a: spec_fn(AskView) -> Answer,
    b: spec_fn(AskView) -> Answer,
    c: spec_fn(AskView) -> Answer,
)
    requires
        keeps_on(a, b),
        memory::same_looks(c, b),
    ensures
        keeps_on(a, c),
        forall|p: Seq<char>| #[trigger] doc_of(c, p) == doc_of(b, p),
{
    assert forall|p: Seq<char>| #[trigger] doc_of(c, p) == doc_of(b, p) by {
        let q: AskView = AskOf::Read(p);
        assert(c(q) == b(q));
    }
    assert forall|q: AskView| q.harmless() && !(q is Read) implies #[trigger] a(q) == c(q) by {
        assert(a(q) == b(q));
        assert(c(q) == b(q));
    }
}

/// A manifest that keeps its own version is written.
proof fn lemma_inherited_wrote(
    host: spec_fn(Seq<AskView>, AskView) -> Answer,
    same: spec_fn(Seq<char>, Seq<char>) -> bool,
    past: Seq<AskView>,
    first: spec_fn(AskView) -> Answer,
    path: Seq<char>,
    names: Set<Seq<char>>,
    t: Seq<char>,
    new: Seq<char>,
)
    requires
        memory::remembers(host, same),
        keeps_on(first, memory::now(host, past)),
        doc_of(memory::now(host, past), path) matches Some(doc) && (toml::entries_in(t) matches Ok(
            after,
        ) && cargo_toml::version_in(after) == cargo_toml::version_in(doc.1)
            && cargo_deps::all_want(Node::Table(after), names, new)),
        host(past, AskOf::Write(path, t)) is Yes,
    ensures
        ({
            let before = memory::now(host, past);
            let after = memory::now(host, past.push(AskOf::Write(path, t)));
            &&& keeps_on(first, after)
            &&& follows(doc_of(after, path), names, new)
            &&& forall|p: Seq<char>|
                follows(doc_of(before, p), names, new) ==> follows(
                    #[trigger] doc_of(after, p),
                    names,
                    new,
                )
        }),
{
    let before = memory::now(host, past);
    let after = memory::now(host, past.push(AskOf::Write(path, t)));
    lemma_wrote(host, same, past, path, t);
    assert forall|p: Seq<char>| keeps_version(doc_of(first, p), #[trigger] doc_of(after, p)) by {
        assert(keeps_version(doc_of(first, p), doc_of(before, p)));
    }
    assert forall|q: AskView| q.harmless() && !(q is Read) implies #[trigger] first(q) == after(
        q,
    ) by {
        assert(first(q) == before(q));
        assert(before(q) == after(q));
    }
}

/// Members that inherit the version are written. The root manifest, even if it
/// is one of these, keeps the version.
proof fn lemma_inherited_members(
    c: Cursor,
    host: spec_fn(Seq<AskView>, AskView) -> Answer,
    same: spec_fn(Seq<char>, Seq<char>) -> bool,
    past: Seq<AskView>,
    first: spec_fn(AskView) -> Answer,
    members: MembersView,
    i: int,
    new: Seq<char>,
    n: nat,
)
    requires
        toml::is_faithful(),
        memory::remembers(host, same),
        conversation::waiting(c),
        0 <= i <= members.manifests.len(),
        memory::ends(
            cargo_preview::write_flow(members, i, true, new),
            c,
            host,
            past,
            n,
        ) matches Some((Ok(_), _)),
        shares(doc_of(memory::now(host, past), "Cargo.toml"@), new),
        keeps_on(first, memory::now(host, past)),
        follow_up_to(memory::now(host, past), members, i, new),
    ensures
        ({
            let (_, later) = memory::ends(
                cargo_preview::write_flow(members, i, true, new),
                c,
                host,
                past,
                n,
            )->0;
            let last = memory::now(host, later);
            &&& shares(doc_of(last, "Cargo.toml"@), new)
            &&& keeps_on(first, last)
            &&& follow_up_to(last, members, members.manifests.len() as int, new)
        }),
    decreases members.manifests.len() - i,
{
    let f = cargo_preview::write_flow(members, i, true, new);
    let before = memory::now(host, past);
    if i < members.manifests.len() {
        let path = members.manifests[i];
        let q: AskView = AskOf::Read(path);
        let a = host(past, q);
        let c2 = conversation::told(c, a);
        let past2 = past.push(q);
        let here = memory::now(host, past2);
        let next = cargo_preview::write_flow(members, i + 1, true, new);
        conversation::lemma_told(c, a);
        memory::lemma_looked(host, same, past, q);
        lemma_keeps_on(first, before, here);
        assert(doc_of(here, "Cargo.toml"@) == doc_of(before, "Cargo.toml"@));
        assert(doc_of(here, path) == doc_of(before, path));
        assert(follow_up_to(here, members, i, new)) by {
            assert forall|j: int| 0 <= j < i implies follows(
                doc_of(here, #[trigger] members.manifests[j]),
                members.names,
                new,
            ) by {
                assert(doc_of(here, members.manifests[j]) == doc_of(before, members.manifests[j]));
            }
        }
        match manifest_of(a) {
            None => {
                let e = toml::unread(c, path, a);
                let g = |c: Cursor| Next::Done(Err::<(), ErrorView>(e), c);
                memory::lemma_one(f, g, c, host, past, q, n);
                assert(g(c2) is Done);
            },
            Some(doc) => {
                let names = members.names;
                cargo_toml::law_dependencies_read_back(doc.0, doc.1, names, new);
                cargo_deps::law_inherited_dependencies_follow(doc.0, doc.1, names, new);
                match cargo_toml::deps_changed(doc.0, doc.1, names, new) {
                    None => {
                        memory::lemma_one(f, next, c, host, past, q, n);
                        let m = (n - 1) as nat;
                        lemma_inherited_members(
                            c2,
                            host,
                            same,
                            past2,
                            first,
                            members,
                            i + 1,
                            new,
                            m,
                        );
                    },
                    Some(t) => {
                        let g = cargo_preview::file_flow(path, t, members, i + 1, true, new);
                        let w: AskView = AskOf::Write(path, t);
                        let b = host(past2, w);
                        let c3 = conversation::told(c2, b);
                        conversation::lemma_told(c2, b);
                        memory::lemma_one(f, g, c, host, past, q, n);
                        if b is Yes {
                            memory::lemma_one(g, next, c2, host, past2, w, (n - 1) as nat);
                            lemma_wrote(host, same, past2, path, t);
                            lemma_inherited_wrote(host, same, past2, first, path, names, t, new);
                            let after = memory::now(host, past2.push(w));
                            assert(shares(doc_of(after, "Cargo.toml"@), new));
                            assert(follow_up_to(after, members, i + 1, new)) by {
                                assert(follows(doc_of(here, "Cargo.toml"@), names, new));
                                assert forall|j: int| 0 <= j < i + 1 implies follows(
                                    doc_of(after, #[trigger] members.manifests[j]),
                                    names,
                                    new,
                                ) by {
                                    if j < i {
                                        assert(follows(
                                            doc_of(here, members.manifests[j]),
                                            names,
                                            new,
                                        ));
                                    }
                                }
                            }
                            lemma_inherited_members(
                                c3,
                                host,
                                same,
                                past2.push(w),
                                first,
                                members,
                                i + 1,
                                new,
                                (n - 2) as nat,
                            );
                        } else {
                            let e = g(c2.with(seq![b]))->Done_0->Err_0;
                            let h = |c: Cursor| Next::Done(Err::<(), ErrorView>(e), c);
                            memory::lemma_one(g, h, c2, host, past2, w, (n - 1) as nat);
                            assert(h(c3) is Done);
                        }
                    },
                }
            },
        }
    }
}

// ---------------------------------------------------------------------------
// The whole
// ---------------------------------------------------------------------------

/// The workspace that is written into is the one that the host lets find.
proof fn lemma_to_workspace(
    c: Cursor,
    host: spec_fn(Seq<AskView>, AskView) -> Answer,
    same: spec_fn(Seq<char>, Seq<char>) -> bool,
    past: Seq<AskView>,
    f: spec_fn(Cursor) -> Next<Result<(), ErrorView>>,
    entries: Entries,
    patterns: Seq<Seq<char>>,
    then_do: spec_fn(MembersView, Cursor) -> Next<Result<(), ErrorView>>,
    n: nat,
) -> (r: (Cursor, Seq<AskView>, nat))
    requires
        memory::remembers(host, same),
        conversation::waiting(c),
        memory::ends(f, c, host, past, n) matches Some((Ok(_), _)),
        forall|more: Seq<Answer>|
            f(#[trigger] c.with(more)) == cargo_preview::workspace_flow(
                entries,
                patterns,
                then_do,
            )(c.with(more)),
    ensures
        conversation::waiting(r.0),
        r.0.sep == c.sep,
        memory::same_looks(memory::now(host, r.1), memory::now(host, past)),
        ({
            let found = cargo_preview::workspace_by(
                memory::now(host, past),
                c.sep,
                entries,
                patterns,
            );
            &&& found is Some
            &&& memory::ends(f, c, host, past, n) == memory::ends(
                conversation::given(then_do, found->0),
                r.0,
                host,
                r.1,
                r.2,
            )
        }),
{
    let h = memory::now(host, past);
    let ws = cargo_preview::workspace_flow(entries, patterns, then_do);
    let found = cargo_preview::workspace_by(h, c.sep, entries, patterns);
    conversation::lemma_same(f, ws, c, h);
    let (d, e) = cargo_preview::lemma_workspace_talk(c, h, entries, patterns, then_do);
    let g = conversation::onward(then_do, found, e);
    conversation::lemma_reaches_on(f, c, ws, c, g, d, h);
    let (past2, m) = memory::lemma_through(f, c, g, d, host, same, past, n);
    if found is None {
        assert(g(d) is Done);
    }
    let k = conversation::given(then_do, found->0);
    memory::lemma_same_end(g, d, k, d, host, past2, m);
    (d, past2, m)
}

/// What a written version does to the manifests, given the root.
spec fn written(
    first: spec_fn(AskView) -> Answer,
    last: spec_fn(AskView) -> Answer,
    sep: char,
    entries: Entries,
    new: Seq<char>,
) -> bool {
    match cargo_toml::layout_of(entries) {
        LayoutOf::Package => doc_of(last, "Cargo.toml"@) matches Some(doc)
            && cargo_toml::version_in(doc.1) == Some(new),
        LayoutOf::WorkspacePackage => cargo_preview::workspace_by(
            first,
            sep,
            entries,
            cargo_toml::members_in(entries),
        ) matches Some(members) && keeps_on(first, last) && shares(
            doc_of(last, "Cargo.toml"@),
            new,
        ) && follow_up_to(last, members, members.manifests.len() as int, new),
        LayoutOf::VirtualOrMembers(patterns) => cargo_preview::workspace_by(
            first,
            sep,
            entries,
            patterns,
        ) matches Some(members) && holds_on(first, last) && fresh(
            doc_of(last, "Cargo.toml"@),
            members.names,
            new,
        ) && fresh_up_to(last, members, members.manifests.len() as int, new),
    }
}

proof fn lemma_names_same(
    a: spec_fn(AskView) -> Answer,
    b: spec_fn(AskView) -> Answer,
    manifests: Seq<Seq<char>>,
    i: int,
    names: Set<Seq<char>>,
)
    requires
        memory::same_looks(a, b),
    ensures
        cargo_preview::names_by(a, manifests, i, names) == cargo_preview::names_by(
            b,
            manifests,
            i,
            names,
        ),
    decreases manifests.len() - i,
{
    if i < manifests.len() {
        let q: AskView = AskOf::Read(manifests[i]);
        assert(a(q) == b(q));
        if let Some(doc) = manifest_of(a(q)) {
            lemma_names_same(a, b, manifests, i + 1, cargo::with_name(names, doc.1));
        }
    }
}

proof fn lemma_workspace_same(
    a: spec_fn(AskView) -> Answer,
    b: spec_fn(AskView) -> Answer,
    sep: char,
    entries: Entries,
    patterns: Seq<Seq<char>>,
)
    requires
        memory::same_looks(a, b),
    ensures
        cargo_preview::workspace_by(a, sep, entries, patterns) == cargo_preview::workspace_by(
            b,
            sep,
            entries,
            patterns,
        ),
{
    memory::lemma_same_files(a, b);
    workspace::lemma_members_same(b, a, sep, patterns, 0, Seq::empty(), "Cargo.toml"@);
    if let Some(manifests) = workspace::members_by(
        a,
        sep,
        patterns,
        0,
        Seq::empty(),
        "Cargo.toml"@,
    ) {
        lemma_names_same(a, b, manifests, 0, Set::empty());
    }
}

/// After the version was written, the host lets read it.
proof fn lemma_write_ends(
    c: Cursor,
    host: spec_fn(Seq<AskView>, AskView) -> Answer,
    same: spec_fn(Seq<char>, Seq<char>) -> bool,
    past: Seq<AskView>,
    first: spec_fn(AskView) -> Answer,
    t: Seq<char>,
    entries: Entries,
    new: Seq<char>,
    n: nat,
)
    requires
        toml::is_faithful(),
        memory::remembers(host, same),
        conversation::waiting(c),
        memory::same_looks(memory::now(host, past), first),
        doc_of(first, "Cargo.toml"@) == Some((t, entries)),
        memory::ends(carried_out_for(t, entries, new), c, host, past, n) matches Some((Ok(_), _)),
    ensures
        ({
            let (_, later) = memory::ends(carried_out_for(t, entries, new), c, host, past, n)->0;
            let last = memory::now(host, later);
            &&& written(first, last, c.sep, entries, new)
            &&& version_by(first, c.sep, entries) is Some ==> project_by(last, c.sep) == Some(new)
        }),
{
    let f = carried_out_for(t, entries, new);
    let here = memory::now(host, past);
    let root: AskView = AskOf::Read("Cargo.toml"@);
    assert(here(root) == first(root));
    match cargo_toml::layout_of(entries) {
        LayoutOf::Package => match cargo_toml::package_changed(t, entries, new) {
            Some(after) => {
                let q: AskView = AskOf::Write("Cargo.toml"@, after);
                let a = host(past, q);
                let r = f(c.with(seq![a]))->Done_0;
                let g = |c: Cursor| Next::Done(r, c);
                conversation::lemma_told(c, a);
                memory::lemma_one(f, g, c, host, past, q, n);
                assert(g(conversation::told(c, a)) is Done);
                cargo_toml::law_package_reads_back(t, entries, new);
                lemma_wrote(host, same, past, "Cargo.toml"@, after);
            },
            None => {
                assert(f(c) is Done);
            },
        },
        LayoutOf::WorkspacePackage => {
            let patterns = cargo_toml::members_in(entries);
            let write = |members: MembersView, c: Cursor|
                c.write(
                    "Cargo.toml"@,
                    cargo_toml::with_all(
                        t,
                        cargo_toml::shared_slots(entries, members.names),
                        new,
                    ),
                ).and_ok(
                    |u: (), c: Cursor| cargo::write_members_step(c, members, 0, true, new),
                );
            let (d, past2, m) = lemma_to_workspace(
                c,
                host,
                same,
                past,
                f,
                entries,
                patterns,
                write,
                n,
            );
            let members = cargo_preview::workspace_by(here, c.sep, entries, patterns)->0;
            let after = cargo_toml::with_all(
                t,
                cargo_toml::shared_slots(entries, members.names),
                new,
            );
            let y = conversation::given(write, members);
            let z = cargo_preview::file_flow("Cargo.toml"@, after, members, 0, true, new);
            memory::lemma_same_end(y, d, z, d, host, past2, m);
            assert(memory::now(host, past2)(root) == here(root));
            let q: AskView = AskOf::Write("Cargo.toml"@, after);
            let a = host(past2, q);
            let d2 = conversation::told(d, a);
            conversation::lemma_told(d, a);
            if a is Yes {
                let g = cargo_preview::write_flow(members, 0, true, new);
                memory::lemma_one(z, g, d, host, past2, q, m);
                cargo_toml::law_shared_reads_back(t, entries, members.names, new);
                cargo_deps::law_shared_dependencies_follow(t, entries, members.names, new);
                lemma_wrote(host, same, past2, "Cargo.toml"@, after);
                lemma_workspace_same(here, first, c.sep, entries, patterns);
                assert(keeps_on(first, first));
                lemma_keeps_on(first, first, here);
                lemma_keeps_on(first, here, memory::now(host, past2));
                lemma_inherited_wrote(
                    host,
                    same,
                    past2,
                    first,
                    "Cargo.toml"@,
                    members.names,
                    after,
                    new,
                );
                assert(follow_up_to(memory::now(host, past2.push(q)), members, 0, new));
                lemma_inherited_members(
                    d2,
                    host,
                    same,
                    past2.push(q),
                    first,
                    members,
                    0,
                    new,
                    (m - 1) as nat,
                );
            } else {
                let e = z(d.with(seq![a]))->Done_0->Err_0;
                let h = |c: Cursor| Next::Done(Err::<(), ErrorView>(e), c);
                memory::lemma_one(z, h, d, host, past2, q, m);
                assert(h(d2) is Done);
            }
        },
        LayoutOf::VirtualOrMembers(patterns) => {
            lemma_write_lockstep(c, host, same, past, first, t, entries, patterns, new, n);
        },
    }
}

proof fn lemma_write_lockstep(
    c: Cursor,
    host: spec_fn(Seq<AskView>, AskView) -> Answer,
    same: spec_fn(Seq<char>, Seq<char>) -> bool,
    past: Seq<AskView>,
    first: spec_fn(AskView) -> Answer,
    t: Seq<char>,
    entries: Entries,
    patterns: Seq<Seq<char>>,
    new: Seq<char>,
    n: nat,
)
    requires
        toml::is_faithful(),
        memory::remembers(host, same),
        conversation::waiting(c),
        memory::same_looks(memory::now(host, past), first),
        doc_of(first, "Cargo.toml"@) == Some((t, entries)),
        cargo_toml::layout_of(entries) == LayoutOf::VirtualOrMembers(patterns),
        memory::ends(carried_out_for(t, entries, new), c, host, past, n) matches Some((Ok(_), _)),
    ensures
        ({
            let (_, later) = memory::ends(carried_out_for(t, entries, new), c, host, past, n)->0;
            let last = memory::now(host, later);
            &&& written(first, last, c.sep, entries, new)
            &&& version_by(first, c.sep, entries) is Some ==> project_by(last, c.sep) == Some(new)
        }),
{
    let f = carried_out_for(t, entries, new);
    let here = memory::now(host, past);
    let write = |members: MembersView, c: Cursor|
        match cargo_toml::lockstep_changed(t, entries, members.names, new) {
            Some(after) => c.write("Cargo.toml"@, after).and_ok(
                |u: (), c: Cursor| cargo::write_members_step(c, members, 0, false, new),
            ),
            None => cargo::write_members_step(c, members, 0, false, new),
        };
    let (d, past2, m) = lemma_to_workspace(c, host, same, past, f, entries, patterns, write, n);
    let members = cargo_preview::workspace_by(here, c.sep, entries, patterns)->0;
    let there = memory::now(host, past2);
    assert(holds_on(first, first));
    lemma_holds_on(first, first, here);
    lemma_holds_on(first, here, there);
    assert(doc_of(there, "Cargo.toml"@) == doc_of(here, "Cargo.toml"@));
    assert(doc_of(here, "Cargo.toml"@) == doc_of(first, "Cargo.toml"@));
    assert(fresh_up_to(there, members, 0, new));
    cargo_deps::law_lockstep_dependencies_follow(t, entries, members.names, new);
    let y = conversation::given(write, members);
    let (_, later) = memory::ends(f, c, host, past, n)->0;
    let last = memory::now(host, later);
    match cargo_toml::lockstep_changed(t, entries, members.names, new) {
        Some(after) => {
            let z = cargo_preview::file_flow("Cargo.toml"@, after, members, 0, false, new);
            memory::lemma_same_end(y, d, z, d, host, past2, m);
            lemma_lockstep_file(
                d,
                host,
                same,
                past2,
                first,
                "Cargo.toml"@,
                after,
                members,
                0,
                0,
                new,
                m,
            );
        },
        None => {
            let z = cargo_preview::write_flow(members, 0, false, new);
            memory::lemma_same_end(y, d, z, d, host, past2, m);
            lemma_lockstep_members(d, host, same, past2, first, members, 0, new, m);
        },
    }
    lemma_workspace_same(here, first, c.sep, entries, patterns);
    assert(still_read(doc_of(first, "Cargo.toml"@), doc_of(last, "Cargo.toml"@)));
    if version_by(first, c.sep, entries) is Some && cargo_toml::version_in(entries) is None {
        let none = Seq::<Seq<char>>::empty();
        workspace::lemma_members_same(first, here, c.sep, patterns, 0, none, "Cargo.toml"@);
        workspace::lemma_members_same(first, last, c.sep, patterns, 0, none, "Cargo.toml"@);
        lemma_first_new(first, last, members, 0, new);
    }
}

/// The version that is read after another one was written is that one, in every
/// layout, from a host that remembers what has been written: where a version
/// could be read before, and writing the new one succeeded. `same` tells which
/// paths lead to one file: the root may be a member of its own workspace.
pub proof fn law_written_version_is_read(
    cargo: Cargo,
    c: Cursor,
    d: Cursor,
    e: Cursor,
    host: spec_fn(Seq<AskView>, AskView) -> Answer,
    same: spec_fn(Seq<char>, Seq<char>) -> bool,
    past: Seq<AskView>,
    new: Seq<char>,
    n: nat,
    m: nat,
)
    requires
        toml::is_faithful(),
        memory::remembers(host, same),
        conversation::waiting(c) && conversation::waiting(d) && conversation::waiting(e),
        d.sep == c.sep && e.sep == c.sep,
        memory::ends(looked_up(cargo), c, host, past, n) matches Some((Ok(_), past2)) && (
        memory::ends(carried_out(cargo, new), d, host, past2, m) matches Some((Ok(_), _))),
    ensures
        ({
            let (_, past2) = memory::ends(looked_up(cargo), c, host, past, n)->0;
            let (_, past3) = memory::ends(carried_out(cargo, new), d, host, past2, m)->0;
            memory::gives(looked_up(cargo), e, host, past3, Ok(new))
        }),
{
    let (_, past2) = memory::ends(looked_up(cargo), c, host, past, n)->0;
    let (_, past3) = memory::ends(carried_out(cargo, new), d, host, past2, m)->0;
    let first = memory::now(host, past);
    let here = memory::now(host, past2);
    lemma_read_ends(cargo, c, host, same, past, n);
    let f = carried_out(cargo, new);
    let q: AskView = AskOf::Read("Cargo.toml"@);
    let a = host(past2, q);
    let d2 = conversation::told(d, a);
    conversation::lemma_told(d, a);
    assert(here(q) == first(q));
    let (t, entries) = doc_of(first, "Cargo.toml"@)->0;
    let g = carried_out_for(t, entries, new);
    memory::lemma_one(f, g, d, host, past2, q, m);
    memory::lemma_looked(host, same, past2, q);
    let there = memory::now(host, past2.push(q));
    assert forall|r: AskView| r.harmless() implies #[trigger] there(r) == first(r) by {
        assert(there(r) == here(r));
        assert(here(r) == first(r));
    }
    lemma_write_ends(d2, host, same, past2.push(q), first, t, entries, new, (m - 1) as nat);
    let k = looked_up(cargo);
    let last = memory::now(host, past3);
    let (x, why) = lemma_read_talk(cargo, e, last);
    let end = conversation::settled(project_by(last, e.sep), why);
    memory::lemma_gives(k, e, end, x, host, same, past3);
}

// ---------------------------------------------------------------------------
// Every manifest
// ---------------------------------------------------------------------------

/// The patterns of the members, as they stand in a root manifest.
pub open spec fn member_patterns(node: Node) -> Seq<Seq<char>> {
    match data::at(node, seq!["workspace"@, "members"@]) {
        Some(Node::List(list)) => data::texts_among(list),
        _ => Seq::empty(),
    }
}

/// The manifests of a workspace: that of the root, and those of the members.
pub open spec fn manifests_by(
    host: spec_fn(AskView) -> Answer,
    sep: char,
    root: Node,
) -> Option<Seq<Seq<char>>> {
    match workspace::members_by(
        host,
        sep,
        member_patterns(root),
        0,
        Seq::empty(),
        "Cargo.toml"@,
    ) {
        Some(members) => Some(seq!["Cargo.toml"@] + members),
        None => None,
    }
}

/// The manifest says that its package has this name.
pub open spec fn names_package(node: Node, name: Seq<char>) -> bool {
    &&& data::at(node, seq!["package"@]) matches Some(Node::Table(_))
    &&& data::at(node, seq!["package"@, "name"@]) == Some(Node::Text(name))
}

/// The names of the packages of these manifests.
pub open spec fn package_names(
    host: spec_fn(AskView) -> Answer,
    files: Seq<Seq<char>>,
) -> Set<Seq<char>> {
    Set::new(
        |name: Seq<char>|
            exists|i: int|
                0 <= i < files.len() && (doc_of(host, #[trigger] files[i]) matches Some(doc)
                    && names_package(Node::Table(doc.1), name)),
    )
}

/// The version that a manifest has of its own.
pub open spec fn own_version(node: Node) -> Option<Seq<char>> {
    match (data::at(node, seq!["package"@]), data::at(node, seq!["package"@, "version"@])) {
        (Some(Node::Table(_)), Some(Node::Text(version))) => Some(version),
        _ => None,
    }
}

/// The root manifest has a version for members to inherit.
pub open spec fn has_shared(node: Node) -> bool {
    &&& data::at(node, seq!["workspace"@]) matches Some(Node::Table(_))
    &&& data::at(node, seq!["workspace"@, "package"@]) matches Some(Node::Table(_))
    &&& data::at(node, seq!["workspace"@, "package"@, "version"@]) is Some
}

/// What stands at a path of up to three keys.
pub proof fn lemma_own(entries: Entries)
    ensures
        own_version(Node::Table(entries)) == cargo_toml::version_in(entries),
        forall|name: Seq<char>|
            names_package(Node::Table(entries), name) <==> #[trigger] cargo_toml::name_in(entries)
                == Some(name),
        has_shared(Node::Table(entries)) <==> cargo_toml::layout_of(entries) is WorkspacePackage,
        data::at(Node::Table(entries), seq!["workspace"@]) is Some <==> !(cargo_toml::layout_of(
            entries,
        ) is Package),
        data::at(Node::Table(entries), seq!["workspace"@]) matches Some(Node::Table(_))
            ==> member_patterns(Node::Table(entries)) == cargo_toml::members_in(entries),
{
    let node = Node::Table(entries);
    cargo_toml::lemma_at_two(node, "package"@, "version"@);
    cargo_toml::lemma_at_two(node, "package"@, "name"@);
    cargo_toml::lemma_at_two(node, "workspace"@, "members"@);
    cargo_toml::lemma_at_two(node, "workspace"@, "package"@);
    cargo_toml::lemma_at_three(node, "workspace"@, "package"@, "version"@);
}

proof fn lemma_names_are(
    host: spec_fn(AskView) -> Answer,
    manifests: Seq<Seq<char>>,
    i: int,
    names: Set<Seq<char>>,
)
    requires
        0 <= i,
    ensures
        cargo_preview::names_by(host, manifests, i, names) matches Some(all) ==> {
            &&& forall|name: Seq<char>| names.contains(name) ==> #[trigger] all.contains(name)
            &&& forall|j: int, name: Seq<char>|
                i <= j < manifests.len() && (doc_of(host, #[trigger] manifests[j]) matches Some(doc)
                    && cargo_toml::name_in(doc.1) == Some(name)) ==> #[trigger] all.contains(name)
            &&& forall|j: int|
                i <= j < manifests.len() ==> doc_of(host, #[trigger] manifests[j]) is Some
        },
    decreases manifests.len() - i,
{
    if i < manifests.len() {
        if let Some(doc) = doc_of(host, manifests[i]) {
            lemma_names_are(host, manifests, i + 1, cargo::with_name(names, doc.1));
        }
    }
}

/// All that want one of fewer packages want this version.
proof fn lemma_fewer_names(node: Node, more: Set<Seq<char>>, fewer: Set<Seq<char>>, new: Seq<char>)
    requires
        cargo_deps::all_want(node, more, new),
        forall|name: Seq<char>| fewer.contains(name) ==> #[trigger] more.contains(name),
    ensures
        cargo_deps::all_want(node, fewer, new),
{
    assert forall|table: Seq<Seq<char>>, key: Seq<char>| #[trigger]
        cargo_deps::wants(node, fewer, table, key) implies cargo_deps::wanted(node, table, key)
        == Some(Node::Text(new)) by {
        assert(cargo_deps::wants(node, more, table, key));
    }
}

/// A version that is written into a workspace is written in lockstep: in every
/// manifest, of the root and of each member, every dependency on a package of
/// the workspace that says which version it wants then wants the new one. Where
/// the version is shared, it stands in the root for members to inherit, and what
/// a manifest has of its own stays; otherwise every manifest that had a version
/// has the new one.
pub proof fn law_written_in_lockstep(
    cargo: Cargo,
    c: Cursor,
    host: spec_fn(Seq<AskView>, AskView) -> Answer,
    same: spec_fn(Seq<char>, Seq<char>) -> bool,
    past: Seq<AskView>,
    t: Seq<char>,
    entries: Entries,
    new: Seq<char>,
    n: nat,
)
    requires
        toml::is_faithful(),
        memory::remembers(host, same),
        conversation::waiting(c),
        memory::ends(carried_out(cargo, new), c, host, past, n) matches Some((Ok(_), _)),
        doc_of(memory::now(host, past), "Cargo.toml"@) == Some((t, entries)),
        data::at(Node::Table(entries), seq!["workspace"@]) matches Some(Node::Table(_)),
    ensures
        ({
            let (_, later) = memory::ends(carried_out(cargo, new), c, host, past, n)->0;
            let first = memory::now(host, past);
            let last = memory::now(host, later);
            let root = Node::Table(entries);
            manifests_by(first, c.sep, root) matches Some(files) && forall|i: int|
                0 <= i < files.len() ==> (doc_of(first, #[trigger] files[i]) matches Some(before)
                    && (doc_of(last, files[i]) matches Some(after) && cargo_deps::all_want(
                    Node::Table(after.1),
                    package_names(first, files),
                    new,
                ) && own_version(Node::Table(after.1)) == (if has_shared(root) {
                    own_version(Node::Table(before.1))
                } else if own_version(Node::Table(before.1)) is Some {
                    Some(new)
                } else {
                    None
                })))
        }),
        ({
            let (_, later) = memory::ends(carried_out(cargo, new), c, host, past, n)->0;
            has_shared(Node::Table(entries)) ==> (doc_of(
                memory::now(host, later),
                "Cargo.toml"@,
            ) matches Some(after) && data::at(
                Node::Table(after.1),
                seq!["workspace"@, "package"@, "version"@],
            ) == Some(Node::Text(new)))
        }),
{
    let f = carried_out(cargo, new);
    let first = memory::now(host, past);
    let q: AskView = AskOf::Read("Cargo.toml"@);
    let a = host(past, q);
    let c2 = conversation::told(c, a);
    conversation::lemma_told(c, a);
    let g = carried_out_for(t, entries, new);
    memory::lemma_one(f, g, c, host, past, q, n);
    memory::lemma_looked(host, same, past, q);
    lemma_write_ends(c2, host, same, past.push(q), first, t, entries, new, (n - 1) as nat);
    let (_, later) = memory::ends(f, c, host, past, n)->0;
    let last = memory::now(host, later);
    let root = Node::Table(entries);
    lemma_own(entries);
    let patterns = cargo_toml::members_in(entries);
    let members = cargo_preview::workspace_by(first, c.sep, entries, patterns)->0;
    let files = seq!["Cargo.toml"@] + members.manifests;
    let names = package_names(first, files);
    lemma_names_are(first, members.manifests, 0, Set::empty());
    assert forall|name: Seq<char>| names.contains(name) implies #[trigger] members.names.contains(
        name,
    ) by {
        let i = choose|i: int|
            0 <= i < files.len() && (doc_of(first, #[trigger] files[i]) matches Some(doc)
                && names_package(Node::Table(doc.1), name));
        let doc = doc_of(first, files[i])->0;
        lemma_own(doc.1);
        assert(cargo_toml::name_in(doc.1) == Some(name));
        if i > 0 {
            assert(files[i] == members.manifests[i - 1]);
        }
    }
    assert forall|i: int| 0 <= i < files.len() implies (doc_of(
        first,
        #[trigger] files[i],
    ) matches Some(before) && (doc_of(last, files[i]) matches Some(after) && cargo_deps::all_want(
        Node::Table(after.1),
        names,
        new,
    ) && own_version(Node::Table(after.1)) == (if has_shared(root) {
        own_version(Node::Table(before.1))
    } else if own_version(Node::Table(before.1)) is Some {
        Some(new)
    } else {
        None
    }))) by {
        if i > 0 {
            assert(files[i] == members.manifests[i - 1]);
        }
        let p = files[i];
        assert(doc_of(first, p) is Some);
        let (_, old) = doc_of(first, p)->0;
        lemma_own(old);
        if has_shared(root) {
            assert(keeps_version(doc_of(first, p), doc_of(last, p)));
            assert(follows(doc_of(last, p), members.names, new));
        } else {
            assert(still_read(doc_of(first, p), doc_of(last, p)));
            assert(fresh(doc_of(last, p), members.names, new));
        }
        let after = doc_of(last, p)->0;
        lemma_own(after.1);
        lemma_fewer_names(Node::Table(after.1), members.names, names, new);
    }
    if has_shared(root) {
        let after = doc_of(last, "Cargo.toml"@)->0;
        cargo_toml::lemma_at_two(Node::Table(after.1), "workspace"@, "package"@);
        cargo_toml::lemma_at_three(Node::Table(after.1), "workspace"@, "package"@, "version"@);
    }
}

// ---------------------------------------------------------------------------
// Where the version is read
// ---------------------------------------------------------------------------

/// The version of its own that the manifest at `path` has, by the host.
pub open spec fn own_by(host: spec_fn(AskView) -> Answer, path: Seq<char>) -> Option<Seq<char>> {
    match doc_of(host, path) {
        Some(doc) => own_version(Node::Table(doc.1)),
        None => None,
    }
}

/// The manifest at `k` is the first one with a version, and those before it can
/// be read.
pub open spec fn is_first_versioned(
    host: spec_fn(AskView) -> Answer,
    files: Seq<Seq<char>>,
    k: int,
) -> bool {
    &&& 0 <= k < files.len()
    &&& own_by(host, files[k]) is Some
    &&& forall|j: int|
        0 <= j < k ==> doc_of(host, #[trigger] files[j]) is Some && own_by(host, files[j]) is None
}

proof fn lemma_first_by(host: spec_fn(AskView) -> Answer, files: Seq<Seq<char>>, i: int)
    requires
        0 <= i,
        forall|j: int|
            0 <= j < i && j < files.len() ==> doc_of(host, #[trigger] files[j]) is Some && own_by(
                host,
                files[j],
            ) is None,
    ensures
        first_by(host, files, i) matches Some(v) ==> exists|k: int| #[trigger]
            is_first_versioned(host, files, k) && own_by(host, files[k]) == Some(v),
        forall|k: int| #[trigger] is_first_versioned(host, files, k) ==> first_by(host, files, i)
            == own_by(host, files[k]),
    decreases files.len() - i,
{
    if i < files.len() {
        if let Some(doc) = doc_of(host, files[i]) {
            lemma_own(doc.1);
            if own_by(host, files[i]) is Some {
                assert(is_first_versioned(host, files, i));
                assert forall|k: int| #[trigger] is_first_versioned(host, files, k) implies k
                    == i by {
                    if k > i {
                        assert(own_by(host, files[i]) is None);
                    }
                }
            } else {
                lemma_first_by(host, files, i + 1);
            }
        } else {
            assert forall|k: int| !#[trigger] is_first_versioned(host, files, k) by {
                if is_first_versioned(host, files, k) {
                    if k > i {
                        assert(doc_of(host, files[i]) is Some);
                    }
                }
            }
        }
    }
}

/// The version is read where it stands: for members to inherit in the root of a
/// workspace that shares it, and otherwise in the package of the root or, if
/// that has none, in the first member that has one.
pub proof fn law_version_is_read_where_it_stands(
    cargo: Cargo,
    c: Cursor,
    host: spec_fn(AskView) -> Answer,
    t: Seq<char>,
    entries: Entries,
    n: nat,
)
    requires
        conversation::waiting(c),
        doc_of(host, "Cargo.toml"@) == Some((t, entries)),
        conversation::stands(looked_up(cargo), c, host, n) is Done,
    ensures
        ({
            let root = Node::Table(entries);
            let v = conversation::stands(looked_up(cargo), c, host, n)->Done_0;
            &&& has_shared(root) ==> (match data::at(
                root,
                seq!["workspace"@, "package"@, "version"@],
            ) {
                Some(Node::Text(x)) => v == Ok::<Seq<char>, ErrorView>(x),
                _ => v is Err,
            })
            &&& !has_shared(root) && own_version(root) is Some ==> v == Ok::<Seq<char>, ErrorView>(
                own_version(root)->0,
            )
            &&& data::at(root, seq!["workspace"@]) is None && own_version(root) is None ==> v is Err
            &&& !has_shared(root) && own_version(root) is None && (data::at(
                root,
                seq!["workspace"@],
            ) matches Some(Node::Table(_))) ==> (match workspace::members_by(
                host,
                c.sep,
                member_patterns(root),
                0,
                Seq::empty(),
                "Cargo.toml"@,
            ) {
                Some(files) => {
                    &&& v matches Ok(x) ==> exists|k: int| #[trigger]
                        is_first_versioned(host, files, k) && own_by(host, files[k]) == Some(x)
                    &&& forall|k: int| #[trigger]
                        is_first_versioned(host, files, k) ==> v == Ok::<Seq<char>, ErrorView>(
                            own_by(host, files[k])->0,
                        )
                },
                None => v is Err,
            })
        }),
{
    let f = looked_up(cargo);
    let root = Node::Table(entries);
    let (d, e) = lemma_read_talk(cargo, c, host);
    let end = conversation::settled(project_by(host, c.sep), e);
    let m = conversation::lemma_came_through(f, c, end, d, host, n);
    conversation::lemma_silent(end, d, host, m);
    lemma_own(entries);
    cargo_toml::lemma_at_two(root, "workspace"@, "package"@);
    cargo_toml::lemma_at_three(root, "workspace"@, "package"@, "version"@);
    if let Some(files) = workspace::members_by(
        host,
        c.sep,
        member_patterns(root),
        0,
        Seq::empty(),
        "Cargo.toml"@,
    ) {
        lemma_first_by(host, files, 0);
    }
}

} // verus!
