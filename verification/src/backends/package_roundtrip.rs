//! What is written into the `package.json` files of a project is what is read
//! from them.

use vstd::prelude::*;

use crate::backend::Backend;
use crate::backends::bun;
use crate::backends::bun::Bun;
use crate::backends::pnpm;
use crate::backends::pnpm::Pnpm;
use crate::backends::pnpm_workspace;
use crate::backends::workspace;
use crate::conversation;
use crate::data;
use crate::data::Node;
use crate::error::ErrorView;
use crate::json;
use crate::memory;
use crate::session;
use crate::session::Answer;
use crate::session::AskOf;
use crate::session::AskView;
use crate::session::Cursor;
use crate::session::Next;

verus! {

// ---------------------------------------------------------------------------
// The version that a host lets read
// ---------------------------------------------------------------------------

/// What a text says as a `package.json`.
pub open spec fn doc_in(t: Option<Seq<char>>) -> Option<(Seq<char>, Node)> {
    match t {
        Some(t) => match json::json_read(t) {
            Ok(node) => Some((t, node)),
            Err(_) => None,
        },
        None => None,
    }
}

/// The `package.json` that a host lets read.
pub open spec fn doc_of(host: spec_fn(AskView) -> Answer, path: Seq<char>) -> Option<
    (Seq<char>, Node),
> {
    doc_in(memory::file(host, path))
}

/// The first version in the files from the one at `i` on.
pub open spec fn first_by(
    host: spec_fn(AskView) -> Answer,
    files: Seq<Seq<char>>,
    i: int,
) -> Option<Seq<char>>
    decreases files.len() - i,
{
    if i >= files.len() {
        None
    } else {
        match doc_of(host, files[i]) {
            Some(doc) => match pnpm::version_in(doc.1) {
                Some(version) => Some(version),
                None => first_by(host, files, i + 1),
            },
            None => None,
        }
    }
}

/// The version of the project that a host lets read, given the members.
pub open spec fn project_by(
    host: spec_fn(AskView) -> Answer,
    files: Option<Seq<Seq<char>>>,
) -> Option<Seq<char>> {
    match doc_of(host, "package.json"@) {
        Some(doc) => match pnpm::version_in(doc.1) {
            Some(version) => Some(version),
            None => match files {
                Some(files) => first_by(host, files, 0),
                None => None,
            },
        },
        None => None,
    }
}

/// The error about a `package.json` that the answer does not give.
spec fn unread(c: Cursor, path: Seq<char>, a: Answer) -> ErrorView {
    json::doc_step(c.with(seq![a]), path)->Done_0->Err_0
}

spec fn first_flow(files: Seq<Seq<char>>, i: int) -> spec_fn(Cursor) -> Next<
    Result<Seq<char>, ErrorView>,
> {
    |c: Cursor| pnpm::first_version_step(c, files, i)
}

proof fn lemma_first_talk(
    c: Cursor,
    host: spec_fn(AskView) -> Answer,
    files: Seq<Seq<char>>,
    i: int,
) -> (r: (Cursor, ErrorView))
    requires
        conversation::waiting(c),
    ensures
        conversation::reaches(
            first_flow(files, i),
            c,
            conversation::settled(first_by(host, files, i), r.1),
            r.0,
            host,
        ),
    decreases files.len() - i,
{
    let f = first_flow(files, i);
    let version = first_by(host, files, i);
    if i >= files.len() {
        let e = f(c)->Done_0->Err_0;
        conversation::lemma_same(f, conversation::settled(version, e), c, host);
        (c, e)
    } else {
        let q: AskView = AskOf::Read(files[i]);
        let c2 = conversation::told(c, host(q));
        let e = unread(c, files[i], host(q));
        conversation::lemma_told(c, host(q));
        if doc_of(host, files[i]) matches Some(doc) && pnpm::version_in(doc.1) is None {
            let g = first_flow(files, i + 1);
            conversation::lemma_asks(f, g, c, host, q);
            let (d, e2) = lemma_first_talk(c2, host, files, i + 1);
            let end = conversation::settled(version, e2);
            conversation::lemma_reaches_on(f, c, g, c2, end, d, host);
            (d, e2)
        } else {
            conversation::lemma_asks(f, conversation::settled(version, e), c, host, q);
            (c2, e)
        }
    }
}

/// The search for members ends with these.
spec fn finds(
    children: spec_fn(Cursor) -> Next<Result<Seq<Seq<char>>, ErrorView>>,
    c: Cursor,
    host: spec_fn(AskView) -> Answer,
    files: Option<Seq<Seq<char>>>,
) -> bool {
    exists|d: Cursor, e: ErrorView|
        conversation::waiting(d) && d.sep == c.sep && #[trigger] conversation::reaches(
            children,
            c,
            conversation::settled(files, e),
            d,
            host,
        )
}

/// Read the version.
spec fn looked_up(
    children: spec_fn(Cursor) -> Next<Result<Seq<Seq<char>>, ErrorView>>,
) -> spec_fn(Cursor) -> Next<Result<Seq<char>, ErrorView>> {
    |c: Cursor| pnpm::read_with_fallback_step(c, children)
}

/// A conversation about the version ends with the one that the host lets read,
/// or with an error where there is none.
proof fn lemma_read_talk(
    children: spec_fn(Cursor) -> Next<Result<Seq<Seq<char>>, ErrorView>>,
    c: Cursor,
    host: spec_fn(AskView) -> Answer,
    files: Option<Seq<Seq<char>>>,
) -> (r: (Cursor, ErrorView))
    requires
        conversation::waiting(c),
        forall|c2: Cursor|
            conversation::waiting(c2) && c2.sep == c.sep ==> #[trigger] finds(
                children,
                c2,
                host,
                files,
            ),
    ensures
        conversation::reaches(
            looked_up(children),
            c,
            conversation::settled(project_by(host, files), r.1),
            r.0,
            host,
        ),
{
    let f = looked_up(children);
    let q: AskView = AskOf::Read("package.json"@);
    let c2 = conversation::told(c, host(q));
    let version = project_by(host, files);
    conversation::lemma_told(c, host(q));
    if doc_of(host, "package.json"@) matches Some(doc) && pnpm::version_in(doc.1) is None {
        let first = |files: Seq<Seq<char>>, c: Cursor| pnpm::first_version_step(c, files, 0);
        let g = conversation::followed(children, first);
        conversation::lemma_asks(f, g, c, host, q);
        assert(finds(children, c2, host, files));
        let (d, e) = choose|d: Cursor, e: ErrorView|
            conversation::waiting(d) && d.sep == c2.sep && #[trigger] conversation::reaches(
                children,
                c2,
                conversation::settled(files, e),
                d,
                host,
            );
        conversation::lemma_follows(children, first, c2, files, e, d, host);
        let h = conversation::onward(first, files, e);
        conversation::lemma_reaches_on(f, c, g, c2, h, d, host);
        match files {
            Some(list) => {
                let k = first_flow(list, 0);
                conversation::lemma_same(h, k, d, host);
                conversation::lemma_reaches_on(f, c, h, d, k, d, host);
                let (d2, e2) = lemma_first_talk(d, host, list, 0);
                let end = conversation::settled(version, e2);
                conversation::lemma_reaches_on(f, c, k, d, end, d2, host);
                (d2, e2)
            },
            None => {
                let end = conversation::settled(version, e);
                conversation::lemma_same(h, end, d, host);
                conversation::lemma_reaches_on(f, c, h, d, end, d, host);
                (d, e)
            },
        }
    } else {
        let e = unread(c, "package.json"@, host(q));
        conversation::lemma_asks(f, conversation::settled(version, e), c, host, q);
        (c2, e)
    }
}

// ---------------------------------------------------------------------------
// The files
// ---------------------------------------------------------------------------

/// Two texts of one file, before and after a version was written: the same
/// text, or two `package.json` that differ in their versions alone.
spec fn alike(before: Option<Seq<char>>, after: Option<Seq<char>>) -> bool {
    before == after || (doc_in(before) matches Some(b) && doc_in(after) matches Some(a)
        && pnpm::version_in(b.1) is Some && pnpm::version_in(a.1) is Some && forall|k: Seq<char>|
        k != "version"@ ==> #[trigger] data::field(a.1, k) == data::field(b.1, k))
}

/// The `package.json` can be read, and has no version but the new one.
spec fn fresh(t: Option<Seq<char>>, new: Seq<char>) -> bool {
    doc_in(t) matches Some(doc) && (pnpm::version_in(doc.1) matches Some(v) ==> v == new)
}

/// From `a` to `b`, no file has changed but for its version, and those that
/// `kept` tells not even in that.
spec fn holds_on(
    a: spec_fn(AskView) -> Answer,
    b: spec_fn(AskView) -> Answer,
    kept: spec_fn(Seq<char>) -> bool,
) -> bool {
    &&& memory::same_tree(a, b)
    &&& forall|p: Seq<char>| alike(memory::file(a, p), #[trigger] memory::file(b, p))
    &&& forall|p: Seq<char>|
        kept(p) ==> #[trigger] memory::file(b, p) == memory::file(a, p)
}

proof fn lemma_holds_on(
    a: spec_fn(AskView) -> Answer,
    b: spec_fn(AskView) -> Answer,
    c: spec_fn(AskView) -> Answer,
    kept: spec_fn(Seq<char>) -> bool,
)
    requires
        holds_on(a, b, kept),
        memory::same_looks(c, b),
    ensures
        holds_on(a, c, kept),
        forall|p: Seq<char>| #[trigger] memory::file(c, p) == memory::file(b, p),
{
    memory::lemma_same_files(c, b);
    assert forall|q: AskView| q.harmless() && !(q is Read) implies #[trigger] a(q) == c(q) by {
        assert(a(q) == b(q));
        assert(b(q) == c(q));
    }
    assert forall|p: Seq<char>| alike(memory::file(a, p), #[trigger] memory::file(c, p)) by {
        assert(alike(memory::file(a, p), memory::file(b, p)));
    }
    assert forall|p: Seq<char>| kept(p) implies #[trigger] memory::file(c, p) == memory::file(
        a,
        p,
    ) by {
        assert(memory::file(b, p) == memory::file(a, p));
    }
}

/// A `package.json` is written.
proof fn lemma_wrote(
    host: spec_fn(Seq<AskView>, AskView) -> Answer,
    same: spec_fn(Seq<char>, Seq<char>) -> bool,
    past: Seq<AskView>,
    first: spec_fn(AskView) -> Answer,
    kept: spec_fn(Seq<char>) -> bool,
    path: Seq<char>,
    t: Seq<char>,
    new: Seq<char>,
)
    requires
        json::is_faithful(),
        memory::remembers(host, same),
        holds_on(first, memory::now(host, past), kept),
        doc_of(memory::now(host, past), path) matches Some(doc) && pnpm::with_version(
            doc.0,
            doc.1,
            new,
        ) == Some(t),
        forall|p: Seq<char>| kept(p) ==> !#[trigger] same(p, path),
        host(past, AskOf::Write(path, t)) is Yes,
    ensures
        ({
            let before = memory::now(host, past);
            let after = memory::now(host, past.push(AskOf::Write(path, t)));
            &&& holds_on(first, after, kept)
            &&& fresh(memory::file(after, path), new)
            &&& forall|p: Seq<char>|
                fresh(memory::file(before, p), new) ==> fresh(
                    #[trigger] memory::file(after, p),
                    new,
                )
        }),
{
    let before = memory::now(host, past);
    let after = memory::now(host, past.push(AskOf::Write(path, t)));
    let doc = doc_of(before, path)->0;
    pnpm::law_written_text_reads_back(doc.0, doc.1, new);
    memory::lemma_wrote(host, same, past, path, t);
    assert forall|p: Seq<char>| alike(
        memory::file(first, p),
        #[trigger] memory::file(after, p),
    ) by {
        assert(alike(memory::file(first, p), memory::file(before, p)));
    }
    assert forall|p: Seq<char>| kept(p) implies #[trigger] memory::file(after, p) == memory::file(
        first,
        p,
    ) by {
        assert(!same(p, path));
        assert(memory::file(before, p) == memory::file(first, p));
    }
    assert forall|q: AskView| q.harmless() && !(q is Read) implies #[trigger] first(q) == after(
        q,
    ) by {
        assert(first(q) == before(q));
        assert(before(q) == after(q));
    }
}

/// Each file up to the one at `i` is fresh.
spec fn fresh_up_to(
    host: spec_fn(AskView) -> Answer,
    files: Seq<Seq<char>>,
    i: int,
    new: Seq<char>,
) -> bool {
    forall|j: int| 0 <= j < i ==> fresh(memory::file(host, #[trigger] files[j]), new)
}

/// None of the files that are to stay is one of these.
spec fn apart(
    same: spec_fn(Seq<char>, Seq<char>) -> bool,
    kept: spec_fn(Seq<char>) -> bool,
    files: Seq<Seq<char>>,
) -> bool {
    &&& forall|p: Seq<char>| kept(p) ==> !#[trigger] same(p, "package.json"@)
    &&& forall|p: Seq<char>, i: int|
        kept(p) && 0 <= i < files.len() ==> !#[trigger] same(p, files[i])
}

/// Write a version into the files from the one at `i` on.
spec fn then_files(files: Seq<Seq<char>>, i: int, new: Seq<char>) -> spec_fn(Cursor) -> Next<
    Result<(), ErrorView>,
> {
    |c: Cursor| pnpm::write_files_step(c, files, i, new)
}

/// Write a file, as a part of `what`, and go on with the rest.
spec fn file_flow(
    path: Seq<char>,
    t: Seq<char>,
    what: Option<Seq<char>>,
    rest: spec_fn(Cursor) -> Next<Result<(), ErrorView>>,
) -> spec_fn(Cursor) -> Next<Result<(), ErrorView>> {
    |c: Cursor|
        {
            let one = c.write(path, t).and_ok(|u: (), c: Cursor| Next::Done(Ok(true), c));
            (match what {
                Some(what) => one.during(what),
                None => one,
            }).and_ok(|done: bool, c: Cursor| rest(c))
        }
}

/// Write a version into a file that has one, as a part of `what`, and go on with
/// the rest.
spec fn one_flow(
    path: Seq<char>,
    new: Seq<char>,
    what: Option<Seq<char>>,
    rest: spec_fn(Cursor) -> Next<Result<(), ErrorView>>,
) -> spec_fn(Cursor) -> Next<Result<(), ErrorView>> {
    |c: Cursor|
        {
            let one = pnpm::write_one_step(c, path, new);
            (match what {
                Some(what) => one.during(what),
                None => one,
            }).and_ok(|done: bool, c: Cursor| rest(c))
        }
}

/// One `package.json` gets the version, if it has one, and then the rest
/// follows.
proof fn lemma_one_file(
    c: Cursor,
    host: spec_fn(Seq<AskView>, AskView) -> Answer,
    same: spec_fn(Seq<char>, Seq<char>) -> bool,
    past: Seq<AskView>,
    first: spec_fn(AskView) -> Answer,
    kept: spec_fn(Seq<char>) -> bool,
    path: Seq<char>,
    what: Option<Seq<char>>,
    rest: spec_fn(Cursor) -> Next<Result<(), ErrorView>>,
    new: Seq<char>,
    n: nat,
) -> (r: (Cursor, Seq<AskView>, nat))
    requires
        json::is_faithful(),
        memory::remembers(host, same),
        conversation::waiting(c),
        holds_on(first, memory::now(host, past), kept),
        forall|p: Seq<char>| kept(p) ==> !#[trigger] same(p, path),
        memory::ends(one_flow(path, new, what, rest), c, host, past, n) matches Some((Ok(_), _)),
    ensures
        conversation::waiting(r.0),
        r.0.sep == c.sep,
        memory::ends(one_flow(path, new, what, rest), c, host, past, n) == memory::ends(
            rest,
            r.0,
            host,
            r.1,
            r.2,
        ),
        ({
            let before = memory::now(host, past);
            let after = memory::now(host, r.1);
            &&& holds_on(first, after, kept)
            &&& fresh(memory::file(after, path), new)
            &&& forall|p: Seq<char>|
                fresh(memory::file(before, p), new) ==> fresh(
                    #[trigger] memory::file(after, p),
                    new,
                )
        }),
{
    let f = one_flow(path, new, what, rest);
    let q: AskView = AskOf::Read(path);
    let a = host(past, q);
    let c2 = conversation::told(c, a);
    let past2 = past.push(q);
    let before = memory::now(host, past);
    let here = memory::now(host, past2);
    conversation::lemma_told(c, a);
    memory::lemma_looked(host, same, past, q);
    lemma_holds_on(first, before, here, kept);
    assert(memory::file(here, path) == memory::text_in(a));
    match doc_in(memory::text_in(a)) {
        None => {
            let e = f(c.with(seq![a]))->Done_0->Err_0;
            let g = |c: Cursor| Next::Done(Err::<(), ErrorView>(e), c);
            memory::lemma_one(f, g, c, host, past, q, n);
            assert(g(c2) is Done);
            (c2, past2, 0)
        },
        Some(doc) => match pnpm::with_version(doc.0, doc.1, new) {
            None => {
                memory::lemma_one(f, rest, c, host, past, q, n);
                (c2, past2, (n - 1) as nat)
            },
            Some(t) => {
                let g = file_flow(path, t, what, rest);
                let w: AskView = AskOf::Write(path, t);
                let b = host(past2, w);
                let c3 = conversation::told(c2, b);
                conversation::lemma_told(c2, b);
                memory::lemma_one(f, g, c, host, past, q, n);
                let m = (n - 1) as nat;
                if b is Yes {
                    memory::lemma_one(g, rest, c2, host, past2, w, m);
                    lemma_wrote(host, same, past2, first, kept, path, t, new);
                    let after = memory::now(host, past2.push(w));
                    assert forall|p: Seq<char>| fresh(memory::file(before, p), new) implies fresh(
                        #[trigger] memory::file(after, p),
                        new,
                    ) by {
                        assert(memory::file(here, p) == memory::file(before, p));
                    }
                    (c3, past2.push(w), (m - 1) as nat)
                } else {
                    let e = g(c2.with(seq![b]))->Done_0->Err_0;
                    let h = |c: Cursor| Next::Done(Err::<(), ErrorView>(e), c);
                    memory::lemma_one(g, h, c2, host, past2, w, m);
                    assert(h(c3) is Done);
                    (c3, past2, 0)
                }
            },
        },
    }
}

/// The files from the one at `i` on get the version.
proof fn lemma_files(
    c: Cursor,
    host: spec_fn(Seq<AskView>, AskView) -> Answer,
    same: spec_fn(Seq<char>, Seq<char>) -> bool,
    past: Seq<AskView>,
    first: spec_fn(AskView) -> Answer,
    kept: spec_fn(Seq<char>) -> bool,
    files: Seq<Seq<char>>,
    i: int,
    new: Seq<char>,
    n: nat,
)
    requires
        json::is_faithful(),
        memory::remembers(host, same),
        conversation::waiting(c),
        0 <= i <= files.len(),
        apart(same, kept, files),
        holds_on(first, memory::now(host, past), kept),
        fresh(memory::file(memory::now(host, past), "package.json"@), new),
        fresh_up_to(memory::now(host, past), files, i, new),
        memory::ends(then_files(files, i, new), c, host, past, n) matches Some((Ok(_), _)),
    ensures
        ({
            let (_, later) = memory::ends(then_files(files, i, new), c, host, past, n)->0;
            let last = memory::now(host, later);
            &&& holds_on(first, last, kept)
            &&& fresh(memory::file(last, "package.json"@), new)
            &&& fresh_up_to(last, files, files.len() as int, new)
        }),
    decreases files.len() - i,
{
    let f = then_files(files, i, new);
    if i < files.len() {
        let path = files[i];
        let what = Some("update child manifest "@ + path);
        let rest = then_files(files, i + 1, new);
        let g = one_flow(path, new, what, rest);
        memory::lemma_same_end(f, c, g, c, host, past, n);
        assert forall|p: Seq<char>| kept(p) implies !#[trigger] same(p, path) by {
            assert(!same(p, files[i]));
        }
        let (c2, past2, m) = lemma_one_file(
            c,
            host,
            same,
            past,
            first,
            kept,
            path,
            what,
            rest,
            new,
            n,
        );
        let before = memory::now(host, past);
        let after = memory::now(host, past2);
        assert forall|j: int| 0 <= j < i + 1 implies fresh(
            memory::file(after, #[trigger] files[j]),
            new,
        ) by {
            if j < i {
                assert(fresh(memory::file(before, files[j]), new));
            }
        }
        lemma_files(c2, host, same, past2, first, kept, files, i + 1, new, m);
    }
}

/// The first version is the new one where there was one.
proof fn lemma_first_new(
    first: spec_fn(AskView) -> Answer,
    last: spec_fn(AskView) -> Answer,
    kept: spec_fn(Seq<char>) -> bool,
    files: Seq<Seq<char>>,
    i: int,
    new: Seq<char>,
)
    requires
        0 <= i,
        holds_on(first, last, kept),
        fresh_up_to(last, files, files.len() as int, new),
        first_by(first, files, i) is Some,
    ensures
        first_by(last, files, i) == Some(new),
    decreases files.len() - i,
{
    if i < files.len() {
        assert(alike(memory::file(first, files[i]), memory::file(last, files[i])));
        assert(fresh(memory::file(last, files[i]), new));
        if let Some((t, node)) = doc_of(first, files[i]) {
            if pnpm::version_in(node) is None {
                lemma_first_new(first, last, kept, files, i + 1, new);
            }
        }
    }
}

/// Write a new version.
spec fn carried_out(
    children: spec_fn(Cursor) -> Next<Result<Seq<Seq<char>>, ErrorView>>,
    new: Seq<char>,
) -> spec_fn(Cursor) -> Next<Result<(), ErrorView>> {
    |c: Cursor| pnpm::write_all_step(c, children, new)
}

/// The members by the host are what the search for them finds, and a new
/// version makes no difference to them.
spec fn fits(
    children: spec_fn(Cursor) -> Next<Result<Seq<Seq<char>>, ErrorView>>,
    members: spec_fn(spec_fn(AskView) -> Answer) -> Option<Seq<Seq<char>>>,
    kept: spec_fn(Seq<char>) -> bool,
    sep: char,
) -> bool {
    &&& forall|c: Cursor, host: spec_fn(AskView) -> Answer|
        conversation::waiting(c) && c.sep == sep ==> #[trigger] finds(
            children,
            c,
            host,
            members(host),
        )
    &&& forall|a: spec_fn(AskView) -> Answer, b: spec_fn(AskView) -> Answer| #[trigger]
        holds_on(a, b, kept) ==> members(a) == members(b)
}

/// After the version was written, the host lets read it.
proof fn lemma_write_ends(
    children: spec_fn(Cursor) -> Next<Result<Seq<Seq<char>>, ErrorView>>,
    members: spec_fn(spec_fn(AskView) -> Answer) -> Option<Seq<Seq<char>>>,
    kept: spec_fn(Seq<char>) -> bool,
    c: Cursor,
    host: spec_fn(Seq<AskView>, AskView) -> Answer,
    same: spec_fn(Seq<char>, Seq<char>) -> bool,
    past: Seq<AskView>,
    first: spec_fn(AskView) -> Answer,
    new: Seq<char>,
    n: nat,
)
    requires
        json::is_faithful(),
        memory::remembers(host, same),
        conversation::waiting(c),
        fits(children, members, kept, c.sep),
        memory::same_looks(memory::now(host, past), first),
        members(first) matches Some(files) ==> apart(same, kept, files),
        forall|p: Seq<char>| kept(p) ==> !#[trigger] same(p, "package.json"@),
        memory::ends(carried_out(children, new), c, host, past, n) matches Some((Ok(_), _)),
    ensures
        ({
            let (_, later) = memory::ends(carried_out(children, new), c, host, past, n)->0;
            let last = memory::now(host, later);
            &&& project_by(first, members(first)) is Some ==> project_by(last, members(last))
                == Some(new)
            &&& members(first) matches Some(files) && holds_on(first, last, kept) && fresh(
                memory::file(last, "package.json"@),
                new,
            ) && fresh_up_to(last, files, files.len() as int, new)
        }),
{
    let f = carried_out(children, new);
    let write = |files: Seq<Seq<char>>, c: Cursor| pnpm::write_files_step(c, files, 0, new);
    let rest = conversation::followed(children, write);
    let none = None::<Seq<char>>;
    let g = one_flow("package.json"@, new, none, rest);
    assert(holds_on(first, first, kept));
    lemma_holds_on(first, first, memory::now(host, past), kept);
    memory::lemma_same_end(f, c, g, c, host, past, n);
    let (c2, past2, m) = lemma_one_file(
        c,
        host,
        same,
        past,
        first,
        kept,
        "package.json"@,
        none,
        rest,
        new,
        n,
    );
    let here = memory::now(host, past2);
    let found = members(first);
    assert(members(here) == found);
    assert(finds(children, c2, here, members(here)));
    let (d, e) = choose|d: Cursor, e: ErrorView|
        conversation::waiting(d) && d.sep == c2.sep && #[trigger] conversation::reaches(
            children,
            c2,
            conversation::settled(found, e),
            d,
            here,
        );
    conversation::lemma_follows(children, write, c2, found, e, d, here);
    let h = conversation::onward(write, found, e);
    let (past3, k) = memory::lemma_through(rest, c2, h, d, host, same, past2, m);
    if found is None {
        assert(h(d) is Done);
    }
    let files = found->0;
    let there = memory::now(host, past3);
    lemma_holds_on(first, here, there, kept);
    assert(memory::file(there, "package.json"@) == memory::file(here, "package.json"@));
    memory::lemma_same_end(h, d, then_files(files, 0, new), d, host, past3, k);
    assert(fresh_up_to(there, files, 0, new));
    lemma_files(d, host, same, past3, first, kept, files, 0, new, k);
    let (_, later) = memory::ends(f, c, host, past, n)->0;
    let last = memory::now(host, later);
    assert(members(last) == found);
    assert(alike(memory::file(first, "package.json"@), memory::file(last, "package.json"@)));
    if let Some((t, node)) = doc_of(first, "package.json"@) {
        if pnpm::version_in(node) is None && first_by(first, files, 0) is Some {
            lemma_first_new(first, last, kept, files, 0, new);
        }
    }
}

/// The version that is read after another one was written is that one.
proof fn lemma_round_trip(
    children: spec_fn(Cursor) -> Next<Result<Seq<Seq<char>>, ErrorView>>,
    members: spec_fn(spec_fn(AskView) -> Answer) -> Option<Seq<Seq<char>>>,
    kept: spec_fn(Seq<char>) -> bool,
    c: Cursor,
    d: Cursor,
    e: Cursor,
    host: spec_fn(Seq<AskView>, AskView) -> Answer,
    same: spec_fn(Seq<char>, Seq<char>) -> bool,
    past: Seq<AskView>,
    new: Seq<char>,
    n: nat,
    m: nat,
)
    requires
        json::is_faithful(),
        memory::remembers(host, same),
        conversation::waiting(c) && conversation::waiting(d) && conversation::waiting(e),
        d.sep == c.sep && e.sep == c.sep,
        fits(children, members, kept, c.sep),
        members(memory::now(host, past)) matches Some(files) ==> apart(same, kept, files),
        forall|p: Seq<char>| kept(p) ==> !#[trigger] same(p, "package.json"@),
        memory::ends(looked_up(children), c, host, past, n) matches Some((Ok(_), past2)) && (
        memory::ends(carried_out(children, new), d, host, past2, m) matches Some((Ok(_), _))),
    ensures
        ({
            let (_, past2) = memory::ends(looked_up(children), c, host, past, n)->0;
            let (_, past3) = memory::ends(carried_out(children, new), d, host, past2, m)->0;
            memory::gives(looked_up(children), e, host, past3, Ok(new))
        }),
{
    let f = looked_up(children);
    let first = memory::now(host, past);
    let (_, past2) = memory::ends(f, c, host, past, n)->0;
    let (_, past3) = memory::ends(carried_out(children, new), d, host, past2, m)->0;
    let (x, why) = lemma_read_talk(children, c, first, members(first));
    let g = conversation::settled(project_by(first, members(first)), why);
    memory::lemma_through(f, c, g, x, host, same, past, n);
    assert(g(x) is Done);
    lemma_write_ends(children, members, kept, d, host, same, past2, first, new, m);
    let last = memory::now(host, past3);
    let (y, cause) = lemma_read_talk(children, e, last, members(last));
    let end = conversation::settled(project_by(last, members(last)), cause);
    memory::lemma_gives(f, e, end, y, host, same, past3);
}

// ---------------------------------------------------------------------------
// pnpm and bun
// ---------------------------------------------------------------------------

/// The members of a pnpm workspace that a host lets find.
pub open spec fn pnpm_members_by(host: spec_fn(AskView) -> Answer, sep: char) -> Option<
    Seq<Seq<char>>,
> {
    if session::says_yes(host(AskOf::IsFile("pnpm-workspace.yaml"@))) {
        match memory::file(host, "pnpm-workspace.yaml"@) {
            Some(t) => workspace::members_by(
                host,
                sep,
                pnpm_workspace::patterns_in(t),
                0,
                Seq::empty(),
                "package.json"@,
            ),
            None => None,
        }
    } else {
        Some(Seq::empty())
    }
}

/// The members of a bun workspace that a host lets find.
pub open spec fn bun_members_by(host: spec_fn(AskView) -> Answer, sep: char) -> Option<
    Seq<Seq<char>>,
> {
    if session::says_yes(host(AskOf::IsFile("package.json"@))) {
        match doc_of(host, "package.json"@) {
            Some(doc) => workspace::members_by(
                host,
                sep,
                bun::patterns_in(doc.1),
                0,
                Seq::empty(),
                "package.json"@,
            ),
            None => None,
        }
    } else {
        Some(Seq::empty())
    }
}

spec fn pnpm_children() -> spec_fn(Cursor) -> Next<Result<Seq<Seq<char>>, ErrorView>> {
    |c: Cursor| pnpm::pnpm_children_step(c)
}

spec fn bun_children() -> spec_fn(Cursor) -> Next<Result<Seq<Seq<char>>, ErrorView>> {
    |c: Cursor| bun::bun_children_step(c)
}

/// The search in the file that is there.
spec fn pnpm_listed() -> spec_fn(Cursor) -> Next<Result<Seq<Seq<char>>, ErrorView>> {
    |c: Cursor|
        c.read("pnpm-workspace.yaml"@).and_ok(
            |t: Seq<char>, c: Cursor|
                workspace::children_step(c, pnpm_workspace::patterns_in(t), "package.json"@),
        )
}

spec fn bun_listed() -> spec_fn(Cursor) -> Next<Result<Seq<Seq<char>>, ErrorView>> {
    |c: Cursor|
        json::doc_step(c, "package.json"@).and_ok(
            |doc: (Seq<char>, Node), c: Cursor|
                workspace::children_step(c, bun::patterns_in(doc.1), "package.json"@),
        )
}

proof fn lemma_pnpm_finds(c: Cursor, host: spec_fn(AskView) -> Answer)
    requires
        conversation::waiting(c),
    ensures
        finds(pnpm_children(), c, host, pnpm_members_by(host, c.sep)),
{
    let (d, e) = lemma_pnpm_search(c, host);
    assert(pnpm_children() == (|c: Cursor| pnpm::pnpm_children_step(c)));
}

/// The search for the members of a pnpm workspace ends with those that the host
/// lets find.
pub proof fn lemma_pnpm_search(c: Cursor, host: spec_fn(AskView) -> Answer) -> (r: (
    Cursor,
    ErrorView,
))
    requires
        conversation::waiting(c),
    ensures
        conversation::waiting(r.0),
        r.0.sep == c.sep,
        conversation::reaches(
            |c: Cursor| pnpm::pnpm_children_step(c),
            c,
            conversation::settled(pnpm_members_by(host, c.sep), r.1),
            r.0,
            host,
        ),
{
    let f = |c: Cursor| pnpm::pnpm_children_step(c);
    let all = pnpm_members_by(host, c.sep);
    let q: AskView = AskOf::IsFile("pnpm-workspace.yaml"@);
    let c2 = conversation::told(c, host(q));
    conversation::lemma_told(c, host(q));
    if session::says_yes(host(q)) {
        let g = pnpm_listed();
        conversation::lemma_asks(f, g, c, host, q);
        let r: AskView = AskOf::Read("pnpm-workspace.yaml"@);
        let c3 = conversation::told(c2, host(r));
        conversation::lemma_told(c2, host(r));
        match memory::file(host, "pnpm-workspace.yaml"@) {
            Some(t) => {
                let patterns = pnpm_workspace::patterns_in(t);
                let h = workspace::children_flow(patterns, "package.json"@);
                conversation::lemma_asks(g, h, c2, host, r);
                conversation::lemma_reaches_on(f, c, g, c2, h, c3, host);
                let (d, e) = workspace::lemma_children_flow(c3, host, patterns, "package.json"@);
                let end = conversation::settled(all, e);
                conversation::lemma_reaches_on(f, c, h, c3, end, d, host);
                (d, e)
            },
            None => {
                let e = g(c2.with(seq![host(r)]))->Done_0->Err_0;
                let end = conversation::settled(all, e);
                conversation::lemma_asks(g, end, c2, host, r);
                conversation::lemma_reaches_on(f, c, g, c2, end, c3, host);
                (c3, e)
            },
        }
    } else {
        let e = arbitrary();
        conversation::lemma_asks(f, conversation::settled(all, e), c, host, q);
        (c2, e)
    }
}

proof fn lemma_bun_finds(c: Cursor, host: spec_fn(AskView) -> Answer)
    requires
        conversation::waiting(c),
    ensures
        finds(bun_children(), c, host, bun_members_by(host, c.sep)),
{
    let (d, e) = lemma_bun_search(c, host);
    assert(bun_children() == (|c: Cursor| bun::bun_children_step(c)));
}

/// The search for the members of a bun workspace ends with those that the host
/// lets find.
pub proof fn lemma_bun_search(c: Cursor, host: spec_fn(AskView) -> Answer) -> (r: (
    Cursor,
    ErrorView,
))
    requires
        conversation::waiting(c),
    ensures
        conversation::waiting(r.0),
        r.0.sep == c.sep,
        conversation::reaches(
            |c: Cursor| bun::bun_children_step(c),
            c,
            conversation::settled(bun_members_by(host, c.sep), r.1),
            r.0,
            host,
        ),
{
    let f = |c: Cursor| bun::bun_children_step(c);
    let all = bun_members_by(host, c.sep);
    let q: AskView = AskOf::IsFile("package.json"@);
    let c2 = conversation::told(c, host(q));
    conversation::lemma_told(c, host(q));
    if session::says_yes(host(q)) {
        let g = bun_listed();
        conversation::lemma_asks(f, g, c, host, q);
        let r: AskView = AskOf::Read("package.json"@);
        let c3 = conversation::told(c2, host(r));
        conversation::lemma_told(c2, host(r));
        match doc_of(host, "package.json"@) {
            Some(doc) => {
                let patterns = bun::patterns_in(doc.1);
                let h = workspace::children_flow(patterns, "package.json"@);
                conversation::lemma_asks(g, h, c2, host, r);
                conversation::lemma_reaches_on(f, c, g, c2, h, c3, host);
                let (d, e) = workspace::lemma_children_flow(c3, host, patterns, "package.json"@);
                let end = conversation::settled(all, e);
                conversation::lemma_reaches_on(f, c, h, c3, end, d, host);
                (d, e)
            },
            None => {
                let e = g(c2.with(seq![host(r)]))->Done_0->Err_0;
                let end = conversation::settled(all, e);
                conversation::lemma_asks(g, end, c2, host, r);
                conversation::lemma_reaches_on(f, c, g, c2, end, c3, host);
                (c3, e)
            },
        }
    } else {
        let e = arbitrary();
        conversation::lemma_asks(f, conversation::settled(all, e), c, host, q);
        (c2, e)
    }
}

/// Read the version of a pnpm project.
pub open spec fn pnpm_looked_up(pnpm: Pnpm) -> spec_fn(Cursor) -> Next<
    Result<Seq<char>, ErrorView>,
> {
    |c: Cursor| pnpm.read_step(c)
}

/// Write a version into a pnpm project.
pub open spec fn pnpm_carried_out(pnpm: Pnpm, new: Seq<char>) -> spec_fn(Cursor) -> Next<
    Result<(), ErrorView>,
> {
    |c: Cursor| pnpm.write_step(c, new)
}

/// Read the version of a bun project.
pub open spec fn bun_looked_up(bun: Bun) -> spec_fn(Cursor) -> Next<Result<Seq<char>, ErrorView>> {
    |c: Cursor| bun.read_step(c)
}

/// Write a version into a bun project.
pub open spec fn bun_carried_out(bun: Bun, new: Seq<char>) -> spec_fn(Cursor) -> Next<
    Result<(), ErrorView>,
> {
    |c: Cursor| bun.write_step(c, new)
}

/// A new version makes no difference to the members of a pnpm workspace.
proof fn lemma_pnpm_members_stay(
    a: spec_fn(AskView) -> Answer,
    b: spec_fn(AskView) -> Answer,
    kept: spec_fn(Seq<char>) -> bool,
    sep: char,
)
    requires
        holds_on(a, b, kept),
        kept("pnpm-workspace.yaml"@),
    ensures
        pnpm_members_by(a, sep) == pnpm_members_by(b, sep),
{
    let q: AskView = AskOf::IsFile("pnpm-workspace.yaml"@);
    assert(a(q) == b(q));
    assert(memory::file(b, "pnpm-workspace.yaml"@) == memory::file(a, "pnpm-workspace.yaml"@));
    if let Some(t) = memory::file(a, "pnpm-workspace.yaml"@) {
        workspace::lemma_members_same(
            a,
            b,
            sep,
            pnpm_workspace::patterns_in(t),
            0,
            Seq::empty(),
            "package.json"@,
        );
    }
}

/// A new version makes no difference to the members of a bun workspace.
proof fn lemma_bun_members_stay(
    a: spec_fn(AskView) -> Answer,
    b: spec_fn(AskView) -> Answer,
    kept: spec_fn(Seq<char>) -> bool,
    sep: char,
)
    requires
        holds_on(a, b, kept),
    ensures
        bun_members_by(a, sep) == bun_members_by(b, sep),
{
    let q: AskView = AskOf::IsFile("package.json"@);
    assert(a(q) == b(q));
    assert(alike(memory::file(a, "package.json"@), memory::file(b, "package.json"@)));
    reveal_strlit("version");
    reveal_strlit("workspaces");
    assert("version"@.len() != "workspaces"@.len());
    if let Some((t, node)) = doc_of(a, "package.json"@) {
        let (_, after) = doc_of(b, "package.json"@)->0;
        assert(data::field(after, "workspaces"@) == data::field(node, "workspaces"@));
        workspace::lemma_members_same(
            a,
            b,
            sep,
            bun::patterns_in(node),
            0,
            Seq::empty(),
            "package.json"@,
        );
    }
}

/// The version that is read from a pnpm project after another one was written is
/// that one, from a host that remembers what has been written: where a version
/// could be read before, and writing the new one succeeded. The file that lists
/// the members is none of those that are written.
pub proof fn law_pnpm_version_is_read(
    pnpm: Pnpm,
    c: Cursor,
    d: Cursor,
    e: Cursor,
    host: spec_fn(Seq<AskView>, AskView) -> Answer,
    same: spec_fn(Seq<char>, Seq<char>) -> bool,
    past: Seq<AskView>,
    new: Seq<char>,
    n: nat,
    m: nat,
)
    requires
        json::is_faithful(),
        memory::remembers(host, same),
        conversation::waiting(c) && conversation::waiting(d) && conversation::waiting(e),
        d.sep == c.sep && e.sep == c.sep,
        !same("pnpm-workspace.yaml"@, "package.json"@),
        pnpm_members_by(memory::now(host, past), c.sep) matches Some(files) ==> forall|i: int|
            0 <= i < files.len() ==> !same("pnpm-workspace.yaml"@, #[trigger] files[i]),
        memory::ends(pnpm_looked_up(pnpm), c, host, past, n) matches Some((Ok(_), past2)) && (
        memory::ends(pnpm_carried_out(pnpm, new), d, host, past2, m) matches Some((Ok(_), _))),
    ensures
        ({
            let (_, past2) = memory::ends(pnpm_looked_up(pnpm), c, host, past, n)->0;
            let (_, past3) = memory::ends(pnpm_carried_out(pnpm, new), d, host, past2, m)->0;
            memory::gives(pnpm_looked_up(pnpm), e, host, past3, Ok(new))
        }),
{
    let children = pnpm_children();
    let sep = c.sep;
    let members = |h: spec_fn(AskView) -> Answer| pnpm_members_by(h, sep);
    let kept = |p: Seq<char>| p == "pnpm-workspace.yaml"@;
    let r = looked_up(children);
    let w = carried_out(children, new);
    assert forall|x: Cursor| #[trigger] pnpm_looked_up(pnpm)(x) == r(x) by {
        assert(children == (|c: Cursor| pnpm::pnpm_children_step(c)));
    }
    assert forall|x: Cursor| #[trigger] pnpm_carried_out(pnpm, new)(x) == w(x) by {
        assert(children == (|c: Cursor| pnpm::pnpm_children_step(c)));
    }
    let (_, past2) = memory::ends(pnpm_looked_up(pnpm), c, host, past, n)->0;
    let (_, past3) = memory::ends(pnpm_carried_out(pnpm, new), d, host, past2, m)->0;
    memory::lemma_same_end(pnpm_looked_up(pnpm), c, r, c, host, past, n);
    memory::lemma_same_end(pnpm_carried_out(pnpm, new), d, w, d, host, past2, m);
    assert(fits(children, members, kept, sep)) by {
        assert forall|x: Cursor, h: spec_fn(AskView) -> Answer|
            conversation::waiting(x) && x.sep == sep implies #[trigger] finds(
            children,
            x,
            h,
            members(h),
        ) by {
            lemma_pnpm_finds(x, h);
        }
        assert forall|a: spec_fn(AskView) -> Answer, b: spec_fn(AskView) -> Answer| #[trigger]
            holds_on(a, b, kept) implies members(a) == members(b) by {
            lemma_pnpm_members_stay(a, b, kept, sep);
        }
    }
    lemma_round_trip(children, members, kept, c, d, e, host, same, past, new, n, m);
    assert forall|l: nat| #[trigger]
        memory::ends(pnpm_looked_up(pnpm), e, host, past3, l) == memory::ends(
        r,
        e,
        host,
        past3,
        l,
    ) by {
        memory::lemma_same_end(pnpm_looked_up(pnpm), e, r, e, host, past3, l);
    }
    let l = choose|l: nat| #[trigger] memory::ends(r, e, host, past3, l) is Some;
    assert(memory::ends(pnpm_looked_up(pnpm), e, host, past3, l) is Some);
}

/// The version that is read from a bun project after another one was written is
/// that one, from a host that remembers what has been written: where a version
/// could be read before, and writing the new one succeeded.
pub proof fn law_bun_version_is_read(
    bun: Bun,
    c: Cursor,
    d: Cursor,
    e: Cursor,
    host: spec_fn(Seq<AskView>, AskView) -> Answer,
    same: spec_fn(Seq<char>, Seq<char>) -> bool,
    past: Seq<AskView>,
    new: Seq<char>,
    n: nat,
    m: nat,
)
    requires
        json::is_faithful(),
        memory::remembers(host, same),
        conversation::waiting(c) && conversation::waiting(d) && conversation::waiting(e),
        d.sep == c.sep && e.sep == c.sep,
        memory::ends(bun_looked_up(bun), c, host, past, n) matches Some((Ok(_), past2)) && (
        memory::ends(bun_carried_out(bun, new), d, host, past2, m) matches Some((Ok(_), _))),
    ensures
        ({
            let (_, past2) = memory::ends(bun_looked_up(bun), c, host, past, n)->0;
            let (_, past3) = memory::ends(bun_carried_out(bun, new), d, host, past2, m)->0;
            memory::gives(bun_looked_up(bun), e, host, past3, Ok(new))
        }),
{
    let children = bun_children();
    let sep = c.sep;
    let members = |h: spec_fn(AskView) -> Answer| bun_members_by(h, sep);
    let kept = |p: Seq<char>| false;
    let r = looked_up(children);
    let w = carried_out(children, new);
    assert forall|x: Cursor| #[trigger] bun_looked_up(bun)(x) == r(x) by {
        assert(children == (|c: Cursor| bun::bun_children_step(c)));
    }
    assert forall|x: Cursor| #[trigger] bun_carried_out(bun, new)(x) == w(x) by {
        assert(children == (|c: Cursor| bun::bun_children_step(c)));
    }
    let (_, past2) = memory::ends(bun_looked_up(bun), c, host, past, n)->0;
    let (_, past3) = memory::ends(bun_carried_out(bun, new), d, host, past2, m)->0;
    memory::lemma_same_end(bun_looked_up(bun), c, r, c, host, past, n);
    memory::lemma_same_end(bun_carried_out(bun, new), d, w, d, host, past2, m);
    assert(fits(children, members, kept, sep)) by {
        assert forall|x: Cursor, h: spec_fn(AskView) -> Answer|
            conversation::waiting(x) && x.sep == sep implies #[trigger] finds(
            children,
            x,
            h,
            members(h),
        ) by {
            lemma_bun_finds(x, h);
        }
        assert forall|a: spec_fn(AskView) -> Answer, b: spec_fn(AskView) -> Answer| #[trigger]
            holds_on(a, b, kept) implies members(a) == members(b) by {
            lemma_bun_members_stay(a, b, kept, sep);
        }
    }
    lemma_round_trip(children, members, kept, c, d, e, host, same, past, new, n, m);
    assert forall|l: nat| #[trigger]
        memory::ends(bun_looked_up(bun), e, host, past3, l) == memory::ends(
        r,
        e,
        host,
        past3,
        l,
    ) by {
        memory::lemma_same_end(bun_looked_up(bun), e, r, e, host, past3, l);
    }
    let l = choose|l: nat| #[trigger] memory::ends(r, e, host, past3, l) is Some;
    assert(memory::ends(bun_looked_up(bun), e, host, past3, l) is Some);
}

// ---------------------------------------------------------------------------
// Every package
// ---------------------------------------------------------------------------

/// The version that stands in a `package.json`.
pub open spec fn version_text(node: Node) -> Option<Seq<char>> {
    match data::field(node, "version"@) {
        Some(Node::Text(version)) => Some(version),
        _ => None,
    }
}

/// The file is a `package.json` before and after, with the new version where it
/// had one, and with everything else as it was.
pub open spec fn is_renewed(
    first: spec_fn(AskView) -> Answer,
    last: spec_fn(AskView) -> Answer,
    path: Seq<char>,
    new: Seq<char>,
) -> bool {
    doc_of(first, path) matches Some(before) && (doc_of(last, path) matches Some(after)
        && version_text(after.1) == (if version_text(before.1) is Some {
        Some(new)
    } else {
        None
    }) && forall|k: Seq<char>|
        k != "version"@ ==> #[trigger] data::field(after.1, k) == data::field(before.1, k))
}

/// A version that is written goes into the main `package.json` and into those
/// of all members.
proof fn lemma_all_renewed(
    children: spec_fn(Cursor) -> Next<Result<Seq<Seq<char>>, ErrorView>>,
    members: spec_fn(spec_fn(AskView) -> Answer) -> Option<Seq<Seq<char>>>,
    kept: spec_fn(Seq<char>) -> bool,
    c: Cursor,
    host: spec_fn(Seq<AskView>, AskView) -> Answer,
    same: spec_fn(Seq<char>, Seq<char>) -> bool,
    past: Seq<AskView>,
    new: Seq<char>,
    n: nat,
)
    requires
        json::is_faithful(),
        memory::remembers(host, same),
        conversation::waiting(c),
        fits(children, members, kept, c.sep),
        members(memory::now(host, past)) matches Some(files) ==> apart(same, kept, files),
        forall|p: Seq<char>| kept(p) ==> !#[trigger] same(p, "package.json"@),
        memory::ends(carried_out(children, new), c, host, past, n) matches Some((Ok(_), _)),
    ensures
        ({
            let (_, later) = memory::ends(carried_out(children, new), c, host, past, n)->0;
            let first = memory::now(host, past);
            let last = memory::now(host, later);
            &&& is_renewed(first, last, "package.json"@, new)
            &&& members(first) matches Some(files) && forall|i: int|
                0 <= i < files.len() ==> is_renewed(first, last, #[trigger] files[i], new)
        }),
{
    let first = memory::now(host, past);
    let (_, later) = memory::ends(carried_out(children, new), c, host, past, n)->0;
    let last = memory::now(host, later);
    lemma_write_ends(children, members, kept, c, host, same, past, first, new, n);
    let files = members(first)->0;
    assert(alike(memory::file(first, "package.json"@), memory::file(last, "package.json"@)));
    assert forall|i: int| 0 <= i < files.len() implies is_renewed(
        first,
        last,
        #[trigger] files[i],
        new,
    ) by {
        assert(fresh(memory::file(last, files[i]), new));
        assert(alike(memory::file(first, files[i]), memory::file(last, files[i])));
    }
}

/// A version that is written into a pnpm project is written in lockstep: the
/// main `package.json` and that of every member have it then, if they had one
/// before, and nothing else in them changes.
pub proof fn law_pnpm_written_in_lockstep(
    pnpm: Pnpm,
    c: Cursor,
    host: spec_fn(Seq<AskView>, AskView) -> Answer,
    same: spec_fn(Seq<char>, Seq<char>) -> bool,
    past: Seq<AskView>,
    new: Seq<char>,
    n: nat,
)
    requires
        json::is_faithful(),
        memory::remembers(host, same),
        conversation::waiting(c),
        !same("pnpm-workspace.yaml"@, "package.json"@),
        pnpm_members_by(memory::now(host, past), c.sep) matches Some(files) ==> forall|i: int|
            0 <= i < files.len() ==> !same("pnpm-workspace.yaml"@, #[trigger] files[i]),
        memory::ends(pnpm_carried_out(pnpm, new), c, host, past, n) matches Some((Ok(_), _)),
    ensures
        ({
            let (_, later) = memory::ends(pnpm_carried_out(pnpm, new), c, host, past, n)->0;
            let first = memory::now(host, past);
            let last = memory::now(host, later);
            &&& is_renewed(first, last, "package.json"@, new)
            &&& pnpm_members_by(first, c.sep) matches Some(files) && forall|i: int|
                0 <= i < files.len() ==> is_renewed(first, last, #[trigger] files[i], new)
        }),
{
    let children = pnpm_children();
    let sep = c.sep;
    let members = |h: spec_fn(AskView) -> Answer| pnpm_members_by(h, sep);
    let kept = |p: Seq<char>| p == "pnpm-workspace.yaml"@;
    let w = carried_out(children, new);
    assert forall|x: Cursor| #[trigger] pnpm_carried_out(pnpm, new)(x) == w(x) by {
        assert(children == (|c: Cursor| pnpm::pnpm_children_step(c)));
    }
    memory::lemma_same_end(pnpm_carried_out(pnpm, new), c, w, c, host, past, n);
    assert(fits(children, members, kept, sep)) by {
        assert forall|x: Cursor, h: spec_fn(AskView) -> Answer|
            conversation::waiting(x) && x.sep == sep implies #[trigger] finds(
            children,
            x,
            h,
            members(h),
        ) by {
            lemma_pnpm_finds(x, h);
        }
        assert forall|a: spec_fn(AskView) -> Answer, b: spec_fn(AskView) -> Answer| #[trigger]
            holds_on(a, b, kept) implies members(a) == members(b) by {
            lemma_pnpm_members_stay(a, b, kept, sep);
        }
    }
    lemma_all_renewed(children, members, kept, c, host, same, past, new, n);
}

/// A version that is written into a bun project is written in lockstep: the
/// main `package.json` and that of every member have it then, if they had one
/// before, and nothing else in them changes.
pub proof fn law_bun_written_in_lockstep(
    bun: Bun,
    c: Cursor,
    host: spec_fn(Seq<AskView>, AskView) -> Answer,
    same: spec_fn(Seq<char>, Seq<char>) -> bool,
    past: Seq<AskView>,
    new: Seq<char>,
    n: nat,
)
    requires
        json::is_faithful(),
        memory::remembers(host, same),
        conversation::waiting(c),
        memory::ends(bun_carried_out(bun, new), c, host, past, n) matches Some((Ok(_), _)),
    ensures
        ({
            let (_, later) = memory::ends(bun_carried_out(bun, new), c, host, past, n)->0;
            let first = memory::now(host, past);
            let last = memory::now(host, later);
            &&& is_renewed(first, last, "package.json"@, new)
            &&& bun_members_by(first, c.sep) matches Some(files) && forall|i: int|
                0 <= i < files.len() ==> is_renewed(first, last, #[trigger] files[i], new)
        }),
{
    let children = bun_children();
    let sep = c.sep;
    let members = |h: spec_fn(AskView) -> Answer| bun_members_by(h, sep);
    let kept = |p: Seq<char>| false;
    let w = carried_out(children, new);
    assert forall|x: Cursor| #[trigger] bun_carried_out(bun, new)(x) == w(x) by {
        assert(children == (|c: Cursor| bun::bun_children_step(c)));
    }
    memory::lemma_same_end(bun_carried_out(bun, new), c, w, c, host, past, n);
    assert(fits(children, members, kept, sep)) by {
        assert forall|x: Cursor, h: spec_fn(AskView) -> Answer|
            conversation::waiting(x) && x.sep == sep implies #[trigger] finds(
            children,
            x,
            h,
            members(h),
        ) by {
            lemma_bun_finds(x, h);
        }
        assert forall|a: spec_fn(AskView) -> Answer, b: spec_fn(AskView) -> Answer| #[trigger]
            holds_on(a, b, kept) implies members(a) == members(b) by {
            lemma_bun_members_stay(a, b, kept, sep);
        }
    }
    lemma_all_renewed(children, members, kept, c, host, same, past, new, n);
}

// ---------------------------------------------------------------------------
// Where the version is read
// ---------------------------------------------------------------------------

/// The version that the `package.json` at `path` has, by the host.
pub open spec fn version_at(host: spec_fn(AskView) -> Answer, path: Seq<char>) -> Option<Seq<char>> {
    match doc_of(host, path) {
        Some(doc) => version_text(doc.1),
        None => None,
    }
}

/// The file at `k` is the first one with a version, and those before it can be
/// read.
pub open spec fn is_first_versioned(
    host: spec_fn(AskView) -> Answer,
    files: Seq<Seq<char>>,
    k: int,
) -> bool {
    &&& 0 <= k < files.len()
    &&& version_at(host, files[k]) is Some
    &&& forall|j: int|
        0 <= j < k ==> doc_of(host, #[trigger] files[j]) is Some && version_at(
            host,
            files[j],
        ) is None
}

proof fn lemma_first_by(host: spec_fn(AskView) -> Answer, files: Seq<Seq<char>>, i: int)
    requires
        0 <= i,
        forall|j: int|
            0 <= j < i && j < files.len() ==> doc_of(host, #[trigger] files[j]) is Some
                && version_at(host, files[j]) is None,
    ensures
        first_by(host, files, i) matches Some(v) ==> exists|k: int| #[trigger]
            is_first_versioned(host, files, k) && version_at(host, files[k]) == Some(v),
        forall|k: int| #[trigger] is_first_versioned(host, files, k) ==> first_by(host, files, i)
            == version_at(host, files[k]),
    decreases files.len() - i,
{
    if i < files.len() {
        if doc_of(host, files[i]) is Some {
            if version_at(host, files[i]) is Some {
                assert(is_first_versioned(host, files, i));
                assert forall|k: int| #[trigger] is_first_versioned(host, files, k) implies k
                    == i by {
                    if k > i {
                        assert(version_at(host, files[i]) is None);
                    }
                }
            } else {
                lemma_first_by(host, files, i + 1);
            }
        } else {
            assert forall|k: int| !#[trigger] is_first_versioned(host, files, k) by {
                if is_first_versioned(host, files, k) {
                    if k > i {
                        assert(doc_of(host, files[i]) is Some);
                    }
                }
            }
        }
    }
}

/// The version that is read is that of the main `package.json` or, if that has
/// none, of the first member that has one.
pub open spec fn is_read_where_it_stands(
    host: spec_fn(AskView) -> Answer,
    members: Option<Seq<Seq<char>>>,
    v: Result<Seq<char>, ErrorView>,
) -> bool {
    match doc_of(host, "package.json"@) {
        None => v is Err,
        Some(doc) => match version_text(doc.1) {
            Some(x) => v == Ok::<Seq<char>, ErrorView>(x),
            None => match members {
                None => v is Err,
                Some(files) => {
                    &&& v matches Ok(x) ==> exists|k: int| #[trigger]
                        is_first_versioned(host, files, k) && version_at(host, files[k]) == Some(x)
                    &&& forall|k: int| #[trigger]
                        is_first_versioned(host, files, k) ==> v == Ok::<Seq<char>, ErrorView>(
                            version_at(host, files[k])->0,
                        )
                },
            },
        },
    }
}

proof fn lemma_read_where(
    children: spec_fn(Cursor) -> Next<Result<Seq<Seq<char>>, ErrorView>>,
    c: Cursor,
    host: spec_fn(AskView) -> Answer,
    files: Option<Seq<Seq<char>>>,
    n: nat,
)
    requires
        conversation::waiting(c),
        forall|c2: Cursor|
            conversation::waiting(c2) && c2.sep == c.sep ==> #[trigger] finds(
                children,
                c2,
                host,
                files,
            ),
        conversation::stands(looked_up(children), c, host, n) is Done,
    ensures
        is_read_where_it_stands(
            host,
            files,
            conversation::stands(looked_up(children), c, host, n)->Done_0,
        ),
{
    let f = looked_up(children);
    let (d, e) = lemma_read_talk(children, c, host, files);
    let end = conversation::settled(project_by(host, files), e);
    let m = conversation::lemma_came_through(f, c, end, d, host, n);
    conversation::lemma_silent(end, d, host, m);
    if let Some(list) = files {
        lemma_first_by(host, list, 0);
    }
}

/// The version of a pnpm project is read where it stands.
pub proof fn law_pnpm_version_is_read_where_it_stands(
    pnpm: Pnpm,
    c: Cursor,
    host: spec_fn(AskView) -> Answer,
    n: nat,
)
    requires
        conversation::waiting(c),
        conversation::stands(pnpm_looked_up(pnpm), c, host, n) is Done,
    ensures
        is_read_where_it_stands(
            host,
            pnpm_members_by(host, c.sep),
            conversation::stands(pnpm_looked_up(pnpm), c, host, n)->Done_0,
        ),
{
    let children = pnpm_children();
    let f = pnpm_looked_up(pnpm);
    let r = looked_up(children);
    assert forall|more: Seq<Answer>| f(#[trigger] c.with(more)) == r(c.with(more)) by {
        assert(children == (|c: Cursor| pnpm::pnpm_children_step(c)));
    }
    conversation::lemma_same(f, r, c, host);
    let m = conversation::lemma_came_through(f, c, r, c, host, n);
    assert forall|c2: Cursor| conversation::waiting(c2) && c2.sep == c.sep implies #[trigger] finds(
        children,
        c2,
        host,
        pnpm_members_by(host, c.sep),
    ) by {
        lemma_pnpm_finds(c2, host);
    }
    lemma_read_where(children, c, host, pnpm_members_by(host, c.sep), m);
}

/// The version of a bun project is read where it stands.
pub proof fn law_bun_version_is_read_where_it_stands(
    bun: Bun,
    c: Cursor,
    host: spec_fn(AskView) -> Answer,
    n: nat,
)
    requires
        conversation::waiting(c),
        conversation::stands(bun_looked_up(bun), c, host, n) is Done,
    ensures
        is_read_where_it_stands(
            host,
            bun_members_by(host, c.sep),
            conversation::stands(bun_looked_up(bun), c, host, n)->Done_0,
        ),
{
    let children = bun_children();
    let f = bun_looked_up(bun);
    let r = looked_up(children);
    assert forall|more: Seq<Answer>| f(#[trigger] c.with(more)) == r(c.with(more)) by {
        assert(children == (|c: Cursor| bun::bun_children_step(c)));
    }
    conversation::lemma_same(f, r, c, host);
    let m = conversation::lemma_came_through(f, c, r, c, host, n);
    assert forall|c2: Cursor| conversation::waiting(c2) && c2.sep == c.sep implies #[trigger] finds(
        children,
        c2,
        host,
        bun_members_by(host, c.sep),
    ) by {
        lemma_bun_finds(c2, host);
    }
    lemma_read_where(children, c, host, bun_members_by(host, c.sep), m);
}

} // verus!
