//! Which versions a `bun.lock` gets.

use vstd::prelude::*;

use crate::backends::bun;
use crate::backends::bun_lock;
use crate::backends::package_roundtrip::bun_members_by;
use crate::backends::package_roundtrip::doc_of;
use crate::backends::package_roundtrip::lemma_bun_search;
use crate::backends::package_roundtrip::version_text;
use crate::conversation;
use crate::data::Node;
use crate::error::ErrorView;
use crate::memory;
use crate::paths;
use crate::session::Answer;
use crate::session::AskOf;
use crate::session::AskView;
use crate::session::Cursor;
use crate::session::Next;

verus! {

/// The key of a package in a `bun.lock`: the directory that its manifest is in,
/// with `/` between the names.
pub open spec fn key_of(path: Seq<char>, sep: char) -> Seq<char> {
    paths::slashed(paths::parent(path, sep))
}

/// The keys and versions of the members from the one at `i` on that have a
/// version and are not in the main directory; `None` if one cannot be read.
pub open spec fn member_versions(
    host: spec_fn(AskView) -> Answer,
    sep: char,
    members: Seq<Seq<char>>,
    i: int,
) -> Option<Seq<(Seq<char>, Seq<char>)>>
    decreases members.len() - i,
{
    if i >= members.len() {
        Some(Seq::empty())
    } else {
        let key = key_of(members[i], sep);
        match (doc_of(host, members[i]), member_versions(host, sep, members, i + 1)) {
            (_, Some(rest)) if key.len() == 0 => Some(rest),
            (Some(doc), Some(rest)) => match version_text(doc.1) {
                Some(version) => Some(seq![(key, version)] + rest),
                None => Some(rest),
            },
            _ => None,
        }
    }
}

/// The version of the main package, under the empty key, if it has one.
pub open spec fn root_version(host: spec_fn(AskView) -> Answer) -> Option<
    Seq<(Seq<char>, Seq<char>)>,
> {
    if host(AskOf::IsFile("package.json"@)) is Yes {
        match doc_of(host, "package.json"@) {
            Some(doc) => match version_text(doc.1) {
                Some(version) => Some(seq![(""@, version)]),
                None => Some(Seq::empty()),
            },
            None => None,
        }
    } else {
        Some(Seq::empty())
    }
}

/// A `bun.lock` into which these versions are put, one after the other.
pub open spec fn with_all(lock: Seq<char>, pairs: Seq<(Seq<char>, Seq<char>)>, i: int) -> Option<
    Seq<char>,
>
    decreases pairs.len() - i,
{
    if i >= pairs.len() {
        Some(lock)
    } else {
        match bun_lock::with_version(lock, pairs[i].0, pairs[i].1) {
            Ok(next) => with_all(next, pairs, i + 1),
            Err(_) => None,
        }
    }
}

/// All keys and versions of a workspace, the main package first.
pub open spec fn versions_by(host: spec_fn(AskView) -> Answer, sep: char) -> Option<
    Seq<(Seq<char>, Seq<char>)>,
> {
    match (root_version(host), bun_members_by(host, sep)) {
        (Some(root), Some(members)) => match member_versions(host, sep, members, 0) {
            Some(rest) => Some(root + rest),
            None => None,
        },
        _ => None,
    }
}

proof fn lemma_all_skip(
    lock: Seq<char>,
    first: Seq<(Seq<char>, Seq<char>)>,
    rest: Seq<(Seq<char>, Seq<char>)>,
    i: int,
)
    requires
        0 <= i,
    ensures
        with_all(lock, first + rest, first.len() + i) == with_all(lock, rest, i),
    decreases rest.len() - i,
{
    if i < rest.len() {
        assert((first + rest)[first.len() + i] == rest[i]);
        if let Ok(next) = bun_lock::with_version(lock, rest[i].0, rest[i].1) {
            lemma_all_skip(next, first, rest, i + 1);
        }
    }
}

spec fn members_flow(members: Seq<Seq<char>>, i: int, lock: Seq<char>) -> spec_fn(Cursor) -> Next<
    Result<Seq<char>, ErrorView>,
> {
    |c: Cursor| bun::lock_members_step(c, members, i, lock)
}

/// The lockfile with the versions of the members from the one at `i` on.
spec fn members_by(
    host: spec_fn(AskView) -> Answer,
    sep: char,
    members: Seq<Seq<char>>,
    i: int,
    lock: Seq<char>,
) -> Option<Seq<char>>
    decreases members.len() - i,
{
    if i >= members.len() {
        Some(lock)
    } else {
        let key = key_of(members[i], sep);
        if key.len() == 0 {
            members_by(host, sep, members, i + 1, lock)
        } else {
            match doc_of(host, members[i]) {
                Some(doc) => match version_text(doc.1) {
                    Some(version) => match bun_lock::with_version(lock, key, version) {
                        Ok(next) => members_by(host, sep, members, i + 1, next),
                        Err(_) => None,
                    },
                    None => members_by(host, sep, members, i + 1, lock),
                },
                None => None,
            }
        }
    }
}

/// What is put into the lockfile are the versions of the members.
proof fn lemma_members_by(
    host: spec_fn(AskView) -> Answer,
    sep: char,
    members: Seq<Seq<char>>,
    i: int,
    lock: Seq<char>,
)
    requires
        0 <= i,
    ensures
        member_versions(host, sep, members, i) matches Some(pairs) ==> members_by(
            host,
            sep,
            members,
            i,
            lock,
        ) == with_all(lock, pairs, 0),
    decreases members.len() - i,
{
    if i < members.len() {
        let key = key_of(members[i], sep);
        lemma_members_by(host, sep, members, i + 1, lock);
        if let Some(doc) = doc_of(host, members[i]) {
            if let Some(version) = version_text(doc.1) {
                if let Some(rest) = member_versions(host, sep, members, i + 1) {
                    if let Ok(next) = bun_lock::with_version(lock, key, version) {
                        lemma_members_by(host, sep, members, i + 1, next);
                        lemma_all_skip(next, seq![(key, version)], rest, 0);
                    }
                }
            }
        }
    }
}

proof fn lemma_members_talk(
    c: Cursor,
    host: spec_fn(AskView) -> Answer,
    members: Seq<Seq<char>>,
    i: int,
    lock: Seq<char>,
) -> (r: (Cursor, ErrorView))
    requires
        conversation::waiting(c),
        0 <= i,
    ensures
        conversation::waiting(r.0),
        conversation::reaches(
            members_flow(members, i, lock),
            c,
            conversation::settled(members_by(host, c.sep, members, i, lock), r.1),
            r.0,
            host,
        ),
    decreases members.len() - i,
{
    let f = members_flow(members, i, lock);
    let all = members_by(host, c.sep, members, i, lock);
    if i >= members.len() {
        let e = arbitrary();
        conversation::lemma_same(f, conversation::settled(all, e), c, host);
        (c, e)
    } else {
        let key = key_of(members[i], c.sep);
        if key.len() == 0 {
            let g = members_flow(members, i + 1, lock);
            conversation::lemma_same(f, g, c, host);
            let (d, e) = lemma_members_talk(c, host, members, i + 1, lock);
            conversation::lemma_reaches_on(f, c, g, c, conversation::settled(all, e), d, host);
            (d, e)
        } else {
            let q: AskView = AskOf::Read(members[i]);
            let a = host(q);
            let c2 = conversation::told(c, a);
            conversation::lemma_told(c, a);
            let next = match doc_of(host, members[i]) {
                Some(doc) => match version_text(doc.1) {
                    Some(version) => match bun_lock::with_version(lock, key, version) {
                        Ok(next) => Some(next),
                        Err(_) => None,
                    },
                    None => Some(lock),
                },
                None => None,
            };
            match next {
                Some(next) => {
                    let g = members_flow(members, i + 1, next);
                    conversation::lemma_asks(f, g, c, host, q);
                    let (d, e) = lemma_members_talk(c2, host, members, i + 1, next);
                    let end = conversation::settled(all, e);
                    conversation::lemma_reaches_on(f, c, g, c2, end, d, host);
                    (d, e)
                },
                None => {
                    let e = f(c.with(seq![a]))->Done_0->Err_0;
                    conversation::lemma_asks(f, conversation::settled(all, e), c, host, q);
                    (c2, e)
                },
            }
        }
    }
}

spec fn root_flow(lock: Seq<char>) -> spec_fn(Cursor) -> Next<Result<Seq<char>, ErrorView>> {
    |c: Cursor| bun::lock_root_step(c, lock)
}

/// The lockfile with the version of the main package.
spec fn root_by(host: spec_fn(AskView) -> Answer, lock: Seq<char>) -> Option<Seq<char>> {
    match root_version(host) {
        Some(pairs) => with_all(lock, pairs, 0),
        None => None,
    }
}

proof fn lemma_root_talk(c: Cursor, host: spec_fn(AskView) -> Answer, lock: Seq<char>) -> (r: (
    Cursor,
    ErrorView,
))
    requires
        conversation::waiting(c),
    ensures
        conversation::waiting(r.0),
        r.0.sep == c.sep,
        conversation::reaches(
            root_flow(lock),
            c,
            conversation::settled(root_by(host, lock), r.1),
            r.0,
            host,
        ),
{
    let f = root_flow(lock);
    let all = root_by(host, lock);
    let q: AskView = AskOf::IsFile("package.json"@);
    let c2 = conversation::told(c, host(q));
    conversation::lemma_told(c, host(q));
    if host(q) is Yes {
        let g = |c: Cursor|
            crate::json::doc_step(c, "package.json"@).and_ok(
                |doc: (Seq<char>, Node), c: Cursor|
                    match crate::backends::pnpm::version_in(doc.1) {
                        Some(version) => Next::Done(bun_lock::with_version(lock, ""@, version), c),
                        None => Next::Done(Ok(lock), c),
                    },
            );
        conversation::lemma_asks(f, g, c, host, q);
        let r: AskView = AskOf::Read("package.json"@);
        let c3 = conversation::told(c2, host(r));
        conversation::lemma_told(c2, host(r));
        let e = g(c2.with(seq![host(r)]))->Done_0->Err_0;
        let end = conversation::settled(all, e);
        if let Some(pairs) = root_version(host) {
            if pairs.len() > 0 {
                if let Ok(next) = bun_lock::with_version(lock, pairs[0].0, pairs[0].1) {
                    assert(with_all(next, pairs, 1) == Some(next));
                }
            }
        }
        conversation::lemma_asks(g, end, c2, host, r);
        conversation::lemma_reaches_on(f, c, g, c2, end, c3, host);
        (c3, e)
    } else {
        let e = arbitrary();
        conversation::lemma_asks(f, conversation::settled(all, e), c, host, q);
        (c2, e)
    }
}

/// Put the versions into the lockfile.
pub open spec fn syncing() -> spec_fn(Cursor) -> Next<Result<(), ErrorView>> {
    |c: Cursor| bun::sync_lock_step(c)
}

spec fn put_flow(lock: Seq<char>) -> spec_fn(Cursor) -> Next<Result<(), ErrorView>> {
    |c: Cursor| c.write("bun.lock"@, lock)
}

spec fn behind_members() -> spec_fn(Seq<char>, Cursor) -> Next<Result<(), ErrorView>> {
    |lock: Seq<char>, c: Cursor| put_flow(lock)(c)
}

spec fn behind_search(lock: Seq<char>) -> spec_fn(Seq<Seq<char>>, Cursor) -> Next<
    Result<(), ErrorView>,
> {
    |members: Seq<Seq<char>>, c: Cursor|
        bun::lock_members_step(c, members, 0, lock).and_ok(behind_members())
}

spec fn search_flow() -> spec_fn(Cursor) -> Next<Result<Seq<Seq<char>>, ErrorView>> {
    |c: Cursor| bun::bun_children_step(c)
}

spec fn behind_root() -> spec_fn(Seq<char>, Cursor) -> Next<Result<(), ErrorView>> {
    |lock: Seq<char>, c: Cursor| bun::bun_children_step(c).and_ok(behind_search(lock))
}

spec fn read_flow() -> spec_fn(Cursor) -> Next<Result<(), ErrorView>> {
    |c: Cursor|
        c.read("bun.lock"@).and_ok(
            |lock: Seq<char>, c: Cursor| bun::lock_root_step(c, lock).and_ok(behind_root()),
        )
}

proof fn lemma_sync(
    c: Cursor,
    host: spec_fn(AskView) -> Answer,
    lock: Seq<char>,
    pairs: Seq<(Seq<char>, Seq<char>)>,
    text: Seq<char>,
) -> (d: Cursor)
    requires
        conversation::waiting(c),
        host(AskOf::IsFile("bun.lock"@)) is Yes,
        memory::file(host, "bun.lock"@) == Some(lock),
        versions_by(host, c.sep) == Some(pairs),
        with_all(lock, pairs, 0) == Some(text),
    ensures
        conversation::waiting(d),
        conversation::reaches(syncing(), c, put_flow(text), d, host),
{
    let f = syncing();
    let q: AskView = AskOf::IsFile("bun.lock"@);
    let r: AskView = AskOf::Read("bun.lock"@);
    let c2 = conversation::told(c, host(q));
    let c3 = conversation::told(c2, host(r));
    conversation::lemma_told(c, host(q));
    conversation::lemma_told(c2, host(r));
    let g = read_flow();
    conversation::lemma_asks(f, g, c, host, q);
    let h = conversation::followed(root_flow(lock), behind_root());
    conversation::lemma_asks(g, h, c2, host, r);
    conversation::lemma_reaches_on(f, c, g, c2, h, c3, host);
    let (c4, e) = lemma_root_talk(c3, host, lock);
    let root = root_version(host)->0;
    let members = bun_members_by(host, c.sep)->0;
    let rest = member_versions(host, c.sep, members, 0)->0;
    lemma_prefix(lock, root, rest, 0);
    let mid = root_by(host, lock)->0;
    conversation::lemma_follows(root_flow(lock), behind_root(), c3, Some(mid), e, c4, host);
    let k = conversation::onward(behind_root(), Some(mid), e);
    conversation::lemma_reaches_on(f, c, h, c3, k, c4, host);
    let l = conversation::followed(search_flow(), behind_search(mid));
    conversation::lemma_same(k, l, c4, host);
    conversation::lemma_reaches_on(f, c, k, c4, l, c4, host);
    let (c5, e2) = lemma_bun_search(c4, host);
    conversation::lemma_follows(
        search_flow(),
        behind_search(mid),
        c4,
        Some(members),
        e2,
        c5,
        host,
    );
    let o = conversation::onward(behind_search(mid), Some(members), e2);
    conversation::lemma_reaches_on(f, c, l, c4, o, c5, host);
    let p = conversation::followed(members_flow(members, 0, mid), behind_members());
    conversation::lemma_same(o, p, c5, host);
    conversation::lemma_reaches_on(f, c, o, c5, p, c5, host);
    let (d, e3) = lemma_members_talk(c5, host, members, 0, mid);
    lemma_members_by(host, c.sep, members, 0, mid);
    conversation::lemma_follows(
        members_flow(members, 0, mid),
        behind_members(),
        c5,
        Some(text),
        e3,
        d,
        host,
    );
    let s = conversation::onward(behind_members(), Some(text), e3);
    conversation::lemma_reaches_on(f, c, p, c5, s, d, host);
    conversation::lemma_same(s, put_flow(text), d, host);
    conversation::lemma_reaches_on(f, c, s, d, put_flow(text), d, host);
    d
}

/// To put in all versions is to put in the first ones and then the others.
proof fn lemma_prefix(
    lock: Seq<char>,
    first: Seq<(Seq<char>, Seq<char>)>,
    rest: Seq<(Seq<char>, Seq<char>)>,
    i: int,
)
    requires
        0 <= i <= first.len(),
    ensures
        with_all(lock, first + rest, i) == (match with_all(lock, first, i) {
            Some(mid) => with_all(mid, rest, 0),
            None => None,
        }),
    decreases first.len() - i,
{
    if i < first.len() {
        assert((first + rest)[i] == first[i]);
        if let Ok(next) = bun_lock::with_version(lock, first[i].0, first[i].1) {
            lemma_prefix(next, first, rest, i + 1);
        }
    } else {
        lemma_all_skip(lock, first, rest, 0);
    }
}

/// A `bun.lock` gets the version of the main package, under the empty key, and
/// of each member that has one, under its directory, and nothing else is
/// written: where all can be read and put in, the text with all of them is.
pub proof fn law_lockfile_gets_all_versions(
    c: Cursor,
    host: spec_fn(AskView) -> Answer,
    lock: Seq<char>,
    pairs: Seq<(Seq<char>, Seq<char>)>,
    text: Seq<char>,
    n: nat,
)
    requires
        conversation::waiting(c),
        host(AskOf::IsFile("bun.lock"@)) is Yes,
        memory::file(host, "bun.lock"@) == Some(lock),
        versions_by(host, c.sep) == Some(pairs),
        with_all(lock, pairs, 0) == Some(text),
    ensures
        exists|m: nat|
            (#[trigger] conversation::stands(syncing(), c, host, m)) == Next::<
                Result<(), ErrorView>,
            >::Ask(AskOf::Write("bun.lock"@, text)),
        conversation::stands(syncing(), c, host, n) matches Next::Ask(q) ==> q.harmless() || q
            == AskOf::<Seq<char>, Seq<Seq<char>>>::Write("bun.lock"@, text),
{
    let f = syncing();
    let d = lemma_sync(c, host, lock, pairs, text);
    let m = conversation::lemma_will_end(f, c, put_flow(text), d, host);
    assert(conversation::stands(f, c, host, m) == put_flow(text)(d));
    let k = choose|k: nat| conversation::leads(f, c, put_flow(text), d, host, k);
    if n < k {
        assert(conversation::stands(f, c, host, n) is Ask);
    } else {
        let l = (n - k) as nat;
        conversation::lemma_leads(f, c, put_flow(text), d, host, k, l);
        let q: AskView = AskOf::Write("bun.lock"@, text);
        conversation::lemma_told(d, host(q));
        conversation::lemma_ends(put_flow(text), d, host, q, l);
        assert(k + l == n);
    }
}

/// Without a `bun.lock`, nothing is written.
pub proof fn law_no_lockfile_is_made(c: Cursor, host: spec_fn(AskView) -> Answer, n: nat)
    requires
        conversation::waiting(c),
        !(host(AskOf::IsFile("bun.lock"@)) is Yes),
    ensures
        conversation::stands(syncing(), c, host, n) matches Next::Ask(q) ==> q.harmless(),
        conversation::stands(syncing(), c, host, n) matches Next::Done(v, _) ==> v is Ok,
{
    let q: AskView = AskOf::IsFile("bun.lock"@);
    conversation::lemma_told(c, host(q));
    conversation::lemma_ends(syncing(), c, host, q, n);
}

} // verus!
