//! What publishing a pnpm project runs.

use vstd::prelude::*;

use crate::backend::Backend;
use crate::backends::bun_publish::login_ask;
use crate::backends::bun_publish::may_publish;
use crate::backends::package_roundtrip::doc_of;
use crate::backends::package_roundtrip::lemma_pnpm_search;
use crate::backends::package_roundtrip::pnpm_members_by;
use crate::backends::pnpm;
use crate::backends::pnpm::Pnpm;
use crate::conversation;
use crate::error::ErrorView;
use crate::memory;
use crate::session::Answer;
use crate::session::AskOf;
use crate::session::AskView;
use crate::session::Cursor;
use crate::session::Next;
use crate::text;

verus! {

/// Publish a pnpm project.
pub open spec fn publishing(pnpm: Pnpm) -> spec_fn(Cursor) -> Next<Result<(), ErrorView>> {
    |c: Cursor| pnpm.publish_step(c)
}

/// Show what publishing a pnpm project would run.
pub open spec fn showing(pnpm: Pnpm) -> spec_fn(Cursor) -> Next<
    Result<Option<Seq<char>>, ErrorView>,
> {
    |c: Cursor| pnpm.publish_preview_step(c)
}

/// Tell whether there is anything to publish.
pub open spec fn telling(pnpm: Pnpm) -> spec_fn(Cursor) -> Next<Result<bool, ErrorView>> {
    |c: Cursor| pnpm.publishable_step(c)
}

/// Does the registry know the user?
pub open spec fn whoami_ask() -> AskView {
    AskOf::Probe("pnpm"@, seq!["whoami"@])
}

/// Publish the package, or all of the workspace.
pub open spec fn publish_ask(members: Seq<Seq<char>>) -> AskView {
    AskOf::Run(
        ""@,
        "pnpm"@,
        if members.len() == 0 {
            seq!["publish"@, "--no-git-checks"@]
        } else {
            seq!["-r"@, "publish"@, "--no-git-checks"@]
        },
    )
}

spec fn run_flow() -> spec_fn(Seq<Seq<char>>, Cursor) -> Next<Result<(), ErrorView>> {
    |children: Seq<Seq<char>>, c: Cursor| c.run(""@, "pnpm"@, pnpm::publish_args(children))
}

spec fn search_flow() -> spec_fn(Cursor) -> Next<Result<Seq<Seq<char>>, ErrorView>> {
    |c: Cursor| pnpm::pnpm_children_step(c)
}

/// The members are looked for, and then the project is published.
proof fn lemma_publish(
    c: Cursor,
    host: spec_fn(Seq<AskView>, AskView) -> Answer,
    same: spec_fn(Seq<char>, Seq<char>) -> bool,
    past: Seq<AskView>,
    n: nat,
) -> (mid: Seq<AskView>)
    requires
        memory::remembers(host, same),
        conversation::waiting(c),
        memory::ends(
            conversation::followed(search_flow(), run_flow()),
            c,
            host,
            past,
            n,
        ) matches Some((Ok(_), _)),
    ensures
        memory::looked_on(past, mid),
        pnpm_members_by(memory::now(host, past), c.sep) matches Some(members) && memory::ends(
            conversation::followed(search_flow(), run_flow()),
            c,
            host,
            past,
            n,
        ) == Some((Ok::<(), ErrorView>(()), mid.push(publish_ask(members)))),
{
    let f = conversation::followed(search_flow(), run_flow());
    let here = memory::now(host, past);
    let (d, e) = lemma_pnpm_search(c, here);
    let found = pnpm_members_by(here, c.sep);
    conversation::lemma_follows(search_flow(), run_flow(), c, found, e, d, here);
    let g = conversation::onward(run_flow(), found, e);
    let (mid, m) = memory::lemma_through(f, c, g, d, host, same, past, n);
    match found {
        None => {
            assert(g(d) is Done);
        },
        Some(members) => {
            let q = publish_ask(members);
            let a = host(mid, q);
            let r = g(d.with(seq![a]))->Done_0;
            let h = |c: Cursor| Next::Done(r, c);
            conversation::lemma_told(d, a);
            memory::lemma_one(g, h, d, host, mid, q, m);
            assert(h(conversation::told(d, a)) is Done);
        },
    }
    mid
}

/// Publishing a pnpm project runs one `pnpm publish`, recursively if there are
/// members, and before it `npm login`, if the registry does not know the user.
pub proof fn law_published_at_once(
    pnpm: Pnpm,
    c: Cursor,
    host: spec_fn(Seq<AskView>, AskView) -> Answer,
    same: spec_fn(Seq<char>, Seq<char>) -> bool,
    past: Seq<AskView>,
    n: nat,
) -> (mid: Seq<AskView>)
    requires
        memory::remembers(host, same),
        conversation::waiting(c),
        memory::ends(publishing(pnpm), c, host, past, n) matches Some((Ok(_), _)),
    ensures
        ({
            let known = past.push(whoami_ask()) + (if host(past, whoami_ask()) is Yes {
                Seq::empty()
            } else {
                seq![
                    AskOf::Warn("not logged in to npm registry; running `npm login`"@),
                    login_ask(),
                ]
            });
            &&& memory::looked_on(known, mid)
            &&& pnpm_members_by(memory::now(host, known), c.sep) matches Some(members)
                && memory::ends(publishing(pnpm), c, host, past, n) == Some(
                (Ok::<(), ErrorView>(()), mid.push(publish_ask(members))),
            )
        }),
{
    let f = publishing(pnpm);
    let g = conversation::followed(search_flow(), run_flow());
    let q = whoami_ask();
    let a = host(past, q);
    let c2 = conversation::told(c, a);
    let past2 = past.push(q);
    conversation::lemma_told(c, a);
    let known = past2 + (if a is Yes {
        Seq::empty()
    } else {
        seq![AskOf::Warn("not logged in to npm registry; running `npm login`"@), login_ask()]
    });
    if a is Yes {
        memory::lemma_one(f, g, c, host, past, q, n);
        assert(known =~= past2);
        lemma_publish(c2, host, same, past2, (n - 1) as nat)
    } else if a is Failed {
        let e = f(c.with(seq![a]))->Done_0->Err_0;
        let h = |c: Cursor| Next::Done(Err::<(), ErrorView>(e), c);
        memory::lemma_one(f, h, c, host, past, q, n);
        assert(h(c2) is Done);
        past
    } else {
        let rest = |u: (), c: Cursor|
            pnpm::pnpm_children_step(c).and_ok(
                |children: Seq<Seq<char>>, c: Cursor|
                    c.run(""@, "pnpm"@, pnpm::publish_args(children)),
            );
        let run = |c: Cursor| c.run(""@, "npm"@, seq!["login"@]).and_ok(rest);
        let warn = |c: Cursor|
            c.warn("not logged in to npm registry; running `npm login`"@).and(
                |u: (), c: Cursor| c.run(""@, "npm"@, seq!["login"@]),
            ).and_ok(rest);
        memory::lemma_one(f, warn, c, host, past, q, n);
        let m = (n - 1) as nat;
        let w: AskView = AskOf::Warn("not logged in to npm registry; running `npm login`"@);
        let b = host(past2, w);
        let c3 = conversation::told(c2, b);
        let past3 = past2.push(w);
        conversation::lemma_told(c2, b);
        memory::lemma_one(warn, run, c2, host, past2, w, m);
        let l = (m - 1) as nat;
        let x = login_ask();
        let y = host(past3, x);
        let c4 = conversation::told(c3, y);
        let past4 = past3.push(x);
        conversation::lemma_told(c3, y);
        assert(known =~= past4);
        if y is Yes {
            memory::lemma_one(run, g, c3, host, past3, x, l);
            lemma_publish(c4, host, same, past4, (l - 1) as nat)
        } else {
            let e = run(c3.with(seq![y]))->Done_0->Err_0;
            let h = |c: Cursor| Next::Done(Err::<(), ErrorView>(e), c);
            memory::lemma_one(run, h, c3, host, past3, x, l);
            assert(h(c4) is Done);
            past
        }
    }
}

/// What comes of a step that goes by the members.
proof fn lemma_by_members<T>(
    f: spec_fn(Cursor) -> Next<Result<T, ErrorView>>,
    then_do: spec_fn(Seq<Seq<char>>, Cursor) -> Next<Result<T, ErrorView>>,
    c: Cursor,
    host: spec_fn(AskView) -> Answer,
    n: nat,
) -> (r: (Cursor, nat))
    requires
        conversation::waiting(c),
        forall|x: Cursor| #[trigger] f(x) == pnpm::pnpm_children_step(x).and_ok(then_do),
        conversation::stands(f, c, host, n) matches Next::Done(Ok(_), _),
    ensures
        conversation::waiting(r.0),
        pnpm_members_by(host, c.sep) matches Some(members) && conversation::stands(
            conversation::given(then_do, members),
            r.0,
            host,
            r.1,
        ) == conversation::stands(f, c, host, n),
{
    let g = conversation::followed(search_flow(), then_do);
    conversation::lemma_same(f, g, c, host);
    let (d, e) = lemma_pnpm_search(c, host);
    let found = pnpm_members_by(host, c.sep);
    conversation::lemma_follows(search_flow(), then_do, c, found, e, d, host);
    let h = conversation::onward(then_do, found, e);
    conversation::lemma_reaches_on(f, c, g, c, h, d, host);
    let m = conversation::lemma_came_through(f, c, h, d, host, n);
    if found is None {
        conversation::lemma_silent(h, d, host, m);
    }
    let k = conversation::given(then_do, found->0);
    conversation::lemma_same(h, k, d, host);
    let l = conversation::lemma_came_through(h, d, k, d, host, m);
    (d, l)
}

proof fn lemma_shown(members: Seq<Seq<char>>)
    ensures
        "pnpm "@ + text::joined(pnpm::publish_args(members), " "@) == (if members.len() == 0 {
            "pnpm publish --no-git-checks"@
        } else {
            "pnpm -r publish --no-git-checks"@
        }),
{
    reveal_strlit("pnpm ");
    reveal_strlit(" ");
    reveal_strlit("-r");
    reveal_strlit("publish");
    reveal_strlit("--no-git-checks");
    reveal_strlit("pnpm publish --no-git-checks");
    reveal_strlit("pnpm -r publish --no-git-checks");
    let one = seq!["publish"@];
    let two = seq!["publish"@, "--no-git-checks"@];
    let first = seq!["-r"@];
    let second = seq!["-r"@, "publish"@];
    let three = seq!["-r"@, "publish"@, "--no-git-checks"@];
    assert(two.drop_last() =~= one);
    assert(three.drop_last() =~= second);
    assert(second.drop_last() =~= first);
    assert(text::joined(one, " "@) == "publish"@);
    assert(text::joined(first, " "@) == "-r"@);
    assert(text::joined(second, " "@) == "-r"@ + " "@ + "publish"@);
    assert(text::joined(two, " "@) == "publish"@ + " "@ + "--no-git-checks"@);
    assert(text::joined(three, " "@) == "-r"@ + " "@ + "publish"@ + " "@ + "--no-git-checks"@);
    assert("pnpm "@ + text::joined(two, " "@) =~= "pnpm publish --no-git-checks"@);
    assert("pnpm "@ + text::joined(three, " "@) =~= "pnpm -r publish --no-git-checks"@);
}

/// What is shown of publishing a pnpm project is the command that it runs.
pub proof fn law_preview_shows_what_is_run(
    pnpm: Pnpm,
    c: Cursor,
    host: spec_fn(AskView) -> Answer,
    n: nat,
)
    requires
        conversation::waiting(c),
        conversation::stands(showing(pnpm), c, host, n) matches Next::Done(Ok(_), _),
    ensures
        pnpm_members_by(host, c.sep) matches Some(members) && (conversation::stands(
            showing(pnpm),
            c,
            host,
            n,
        ) matches Next::Done(Ok(shown), _) && shown == Some(
            if members.len() == 0 {
                "pnpm publish --no-git-checks"@
            } else {
                "pnpm -r publish --no-git-checks"@
            },
        )),
{
    let show = |children: Seq<Seq<char>>, c: Cursor|
        Next::Done(
            Ok::<_, ErrorView>(Some("pnpm "@ + text::joined(pnpm::publish_args(children), " "@))),
            c,
        );
    let (d, m) = lemma_by_members(showing(pnpm), show, c, host, n);
    let members = pnpm_members_by(host, c.sep)->0;
    conversation::lemma_silent(conversation::given(show, members), d, host, m);
    lemma_shown(members);
}

/// A pnpm workspace can be published; a single package can if it has a version
/// and is not private.
pub proof fn law_private_package_is_kept(
    pnpm: Pnpm,
    c: Cursor,
    host: spec_fn(AskView) -> Answer,
    n: nat,
)
    requires
        conversation::waiting(c),
        conversation::stands(telling(pnpm), c, host, n) matches Next::Done(Ok(_), _),
    ensures
        pnpm_members_by(host, c.sep) matches Some(members) && (conversation::stands(
            telling(pnpm),
            c,
            host,
            n,
        ) matches Next::Done(Ok(any), _) && (members.len() > 0 ==> any) && (members.len() == 0 ==> (
        doc_of(host, "package.json"@) matches Some(doc) && any == may_publish(doc.1)))),
{
    let tell = |children: Seq<Seq<char>>, c: Cursor|
        if children.len() == 0 {
            pnpm::publishable_one_step(c, "package.json"@)
        } else {
            Next::Done(Ok(true), c)
        };
    let (d, m) = lemma_by_members(telling(pnpm), tell, c, host, n);
    let members = pnpm_members_by(host, c.sep)->0;
    let h = conversation::given(tell, members);
    if members.len() == 0 {
        let q: AskView = AskOf::Read("package.json"@);
        conversation::lemma_told(d, host(q));
        conversation::lemma_ends(h, d, host, q, m);
    } else {
        conversation::lemma_silent(h, d, host, m);
    }
}

} // verus!
