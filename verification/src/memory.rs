//! Conversations with a host that remembers what has been written.

use vstd::prelude::*;

use crate::conversation;
use crate::session::Answer;
use crate::session::AskOf;
use crate::session::AskView;
use crate::session::Cursor;
use crate::session::Next;

verus! {

/// What comes of a step with at most `n` answers of a host that knows the
/// requests before each one: the value that it ends with, and all requests.
pub open spec fn ends<T>(
    f: spec_fn(Cursor) -> Next<T>,
    c: Cursor,
    host: spec_fn(Seq<AskView>, AskView) -> Answer,
    past: Seq<AskView>,
    n: nat,
) -> Option<(T, Seq<AskView>)>
    decreases n,
{
    match f(c) {
        Next::Done(v, _) => Some((v, past)),
        Next::Ask(q) => if n == 0 {
            None
        } else {
            ends(f, c.with(seq![host(past, q)]), host, past.push(q), (n - 1) as nat)
        },
    }
}

/// The text in an answer.
pub open spec fn text_in(a: Answer) -> Option<Seq<char>> {
    match a {
        Answer::Text(t) => Some(t@),
        _ => None,
    }
}

/// The host answers `q` behind the request `r` as before it: a look changes
/// nothing, and to write a file that can be read changes only what is read from
/// that file.
pub open spec fn goes_on(
    host: spec_fn(Seq<AskView>, AskView) -> Answer,
    same: spec_fn(Seq<char>, Seq<char>) -> bool,
    past: Seq<AskView>,
    r: AskView,
    q: AskView,
) -> bool {
    let before = host(past, q);
    let after = host(past.push(r), q);
    match r {
        AskOf::Write(path, t) => host(past, r) is Yes && host(past, AskOf::Read(path)) is Text ==> (
        match q {
            AskOf::Read(p) => if same(p, path) {
                text_in(after) == Some(t)
            } else {
                after == before
            },
            _ => after == before,
        }),
        _ => r.harmless() ==> after == before,
    }
}

/// Two names of one file give the same text.
pub open spec fn reads_alike(
    host: spec_fn(Seq<AskView>, AskView) -> Answer,
    same: spec_fn(Seq<char>, Seq<char>) -> bool,
    past: Seq<AskView>,
    p: Seq<char>,
    q: Seq<char>,
) -> bool {
    same(p, q) ==> text_in(host(past, AskOf::Read(p))) == text_in(
        host(past, AskOf::Read(q)),
    )
}

/// The host remembers what has been written: the text of a file is the last one
/// that was written to it, and everything else stays as it is. `same` tells
/// which paths lead to one file.
pub open spec fn remembers(
    host: spec_fn(Seq<AskView>, AskView) -> Answer,
    same: spec_fn(Seq<char>, Seq<char>) -> bool,
) -> bool {
    &&& forall|past: Seq<AskView>, r: AskView, q: AskView|
        q.harmless() ==> #[trigger] goes_on(host, same, past, r, q)
    &&& forall|past: Seq<AskView>, p: Seq<char>, q: Seq<char>| #[trigger]
        reads_alike(host, same, past, p, q)
    &&& forall|p: Seq<char>| #[trigger] same(p, p)
}

/// The host as it answers now.
pub open spec fn now(
    host: spec_fn(Seq<AskView>, AskView) -> Answer,
    past: Seq<AskView>,
) -> spec_fn(AskView) -> Answer {
    |q: AskView| host(past, q)
}

/// Two hosts that give the same looks.
pub open spec fn same_looks(
    a: spec_fn(AskView) -> Answer,
    b: spec_fn(AskView) -> Answer,
) -> bool {
    forall|q: AskView| q.harmless() ==> #[trigger] a(q) == b(q)
}

/// From `past` to `later` there were only looks.
pub open spec fn looked_on(past: Seq<AskView>, later: Seq<AskView>) -> bool {
    &&& past.len() <= later.len()
    &&& later.take(past.len() as int) == past
    &&& conversation::all_harmless(later.skip(past.len() as int))
}

/// The programs that are run, in their order.
pub open spec fn runs(asks: Seq<AskView>) -> Seq<AskView>
    decreases asks.len(),
{
    if asks.len() == 0 {
        Seq::empty()
    } else {
        runs(asks.drop_last()) + (if asks.last() is Run {
            seq![asks.last()]
        } else {
            Seq::empty()
        })
    }
}

/// The programs that are run behind a part of the requests.
pub proof fn lemma_runs(past: Seq<AskView>, more: Seq<AskView>)
    ensures
        runs(past + more) == runs(past) + runs(more),
    decreases more.len(),
{
    if more.len() == 0 {
        assert(past + more =~= past);
        assert(runs(past) + runs(more) =~= runs(past));
    } else {
        assert((past + more).drop_last() =~= past + more.drop_last());
        lemma_runs(past, more.drop_last());
        assert(runs(past + more) =~= runs(past) + runs(more));
    }
}

/// No program is run by looks.
pub proof fn lemma_looks_run_nothing(asks: Seq<AskView>)
    requires
        conversation::all_harmless(asks),
    ensures
        runs(asks) == Seq::<AskView>::empty(),
    decreases asks.len(),
{
    if asks.len() > 0 {
        assert(asks[asks.len() - 1].harmless());
        assert forall|i: int| 0 <= i < asks.drop_last().len() implies (
        #[trigger] asks.drop_last()[i]).harmless() by {
            assert(asks[i].harmless());
        }
        lemma_looks_run_nothing(asks.drop_last());
        assert(runs(asks) =~= Seq::empty());
    }
}

/// Two steps that are the same from here on come to the same.
pub proof fn lemma_same_end<T>(
    f: spec_fn(Cursor) -> Next<T>,
    c: Cursor,
    g: spec_fn(Cursor) -> Next<T>,
    d: Cursor,
    host: spec_fn(Seq<AskView>, AskView) -> Answer,
    past: Seq<AskView>,
    n: nat,
)
    requires
        forall|more: Seq<Answer>| f(c.with(more)) == g(#[trigger] d.with(more)),
    ensures
        ends(f, c, host, past, n) == ends(g, d, host, past, n),
    decreases n,
{
    assert(c.with(Seq::empty()) =~= c);
    assert(d.with(Seq::empty()) =~= d);
    assert(f(c) == g(d));
    if let Next::Ask(q) = f(c) {
        if n > 0 {
            let a = seq![host(past, q)];
            assert forall|more: Seq<Answer>|
                f(c.with(a).with(more)) == g(#[trigger] d.with(a).with(more)) by {
                assert(c.with(a).with(more) =~= c.with(a + more));
                assert(d.with(a).with(more) =~= d.with(a + more));
            }
            lemma_same_end(f, c.with(a), g, d.with(a), host, past.push(q), (n - 1) as nat);
        }
    }
}

/// A step goes on, behind the answer to its first request, as another one.
pub proof fn lemma_one<T>(
    f: spec_fn(Cursor) -> Next<T>,
    g: spec_fn(Cursor) -> Next<T>,
    c: Cursor,
    host: spec_fn(Seq<AskView>, AskView) -> Answer,
    past: Seq<AskView>,
    q: AskView,
    n: nat,
)
    requires
        f(c) == Next::<T>::Ask(q),
        ends(f, c, host, past, n) is Some,
        forall|more: Seq<Answer>|
            f(c.with(seq![host(past, q)] + more)) == g(
                #[trigger] conversation::told(c, host(past, q)).with(more),
            ),
    ensures
        n > 0,
        ends(f, c, host, past, n) == ends(
            g,
            conversation::told(c, host(past, q)),
            host,
            past.push(q),
            (n - 1) as nat,
        ),
{
    let a = seq![host(past, q)];
    let d = conversation::told(c, host(past, q));
    assert forall|more: Seq<Answer>| f(c.with(a).with(more)) == g(#[trigger] d.with(more)) by {
        assert(c.with(a).with(more) =~= c.with(a + more));
    }
    lemma_same_end(f, c.with(a), g, d, host, past.push(q), (n - 1) as nat);
}

/// Looks change nothing.
pub proof fn lemma_looks(
    host: spec_fn(Seq<AskView>, AskView) -> Answer,
    same: spec_fn(Seq<char>, Seq<char>) -> bool,
    past: Seq<AskView>,
    looks: Seq<AskView>,
)
    requires
        remembers(host, same),
        conversation::all_harmless(looks),
    ensures
        same_looks(now(host, past + looks), now(host, past)),
    decreases looks.len(),
{
    if looks.len() == 0 {
        assert(past + looks =~= past);
    } else {
        let r = looks.last();
        let fewer = looks.drop_last();
        assert forall|i: int| 0 <= i < fewer.len() implies (#[trigger] fewer[i]).harmless() by {
            assert(looks[i].harmless());
        }
        lemma_looks(host, same, past, fewer);
        assert(past + looks =~= (past + fewer).push(r));
        assert(looks[looks.len() - 1].harmless());
        assert forall|q: AskView| q.harmless() implies #[trigger] now(host, past + looks)(q)
            == now(host, past)(q) by {
            assert(goes_on(host, same, past + fewer, r, q));
            assert(now(host, past + fewer)(q) == now(host, past)(q));
        }
    }
}

/// A step with nothing but looks on its way goes on with the answers to them.
proof fn lemma_part_of_way<T>(
    f: spec_fn(Cursor) -> Next<T>,
    c: Cursor,
    host: spec_fn(Seq<AskView>, AskView) -> Answer,
    same: spec_fn(Seq<char>, Seq<char>) -> bool,
    past: Seq<AskView>,
    j: nat,
    n: nat,
)
    requires
        remembers(host, same),
        forall|k: nat|
            k < j ==> (#[trigger] conversation::stands(f, c, now(host, past), k) matches Next::Ask(
                q,
            ) && q.harmless()),
        n >= j,
    ensures
        ends(f, c, host, past, n) == ends(
            f,
            c.with(conversation::replies(f, c, now(host, past), j)),
            host,
            past + conversation::asked(f, c, now(host, past), j),
            (n - j) as nat,
        ),
    decreases j,
{
    let h = now(host, past);
    if j == 0 {
        assert(c.with(Seq::empty()) =~= c);
        assert(past + Seq::<AskView>::empty() =~= past);
    } else {
        let k = (j - 1) as nat;
        lemma_part_of_way(f, c, host, same, past, k, n);
        let before = conversation::replies(f, c, h, k);
        let asks = conversation::asked(f, c, h, k);
        conversation::lemma_way_is_harmless(f, c, h, k);
        lemma_looks(host, same, past, asks);
        assert(conversation::stands(f, c, h, k) is Ask);
        let q = conversation::stands(f, c, h, k)->Ask_0;
        assert(now(host, past + asks)(q) == h(q));
        assert(c.with(before).with(seq![h(q)]) =~= c.with(before.push(h(q))));
        assert((past + asks).push(q) =~= past + asks.push(q));
    }
}

/// A step goes on as what it leads to, and the host answers as before.
proof fn lemma_all_the_way<T>(
    f: spec_fn(Cursor) -> Next<T>,
    c: Cursor,
    g: spec_fn(Cursor) -> Next<T>,
    d: Cursor,
    host: spec_fn(Seq<AskView>, AskView) -> Answer,
    same: spec_fn(Seq<char>, Seq<char>) -> bool,
    past: Seq<AskView>,
    m: nat,
    n: nat,
) -> (later: Seq<AskView>)
    requires
        remembers(host, same),
        conversation::leads(f, c, g, d, now(host, past), m),
    ensures
        same_looks(now(host, later), now(host, past)),
        looked_on(past, later),
        ends(f, c, host, past, m + n) == ends(g, d, host, later, n),
{
    let h = now(host, past);
    lemma_part_of_way(f, c, host, same, past, m, m + n);
    conversation::lemma_way_is_harmless(f, c, h, m);
    let before = conversation::replies(f, c, h, m);
    let asks = conversation::asked(f, c, h, m);
    lemma_looks(host, same, past, asks);
    assert forall|more: Seq<Answer>| f(c.with(before).with(more)) == g(#[trigger] d.with(more)) by {
        assert(c.with(before).with(more) =~= c.with(before + more));
    }
    lemma_same_end(f, c.with(before), g, d, host, past + asks, n);
    assert((past + asks).take(past.len() as int) =~= past);
    assert((past + asks).skip(past.len() as int) =~= asks);
    past + asks
}

/// A step that has ended has come through what it leads to, and the host
/// answers as before.
pub proof fn lemma_through<T>(
    f: spec_fn(Cursor) -> Next<T>,
    c: Cursor,
    g: spec_fn(Cursor) -> Next<T>,
    d: Cursor,
    host: spec_fn(Seq<AskView>, AskView) -> Answer,
    same: spec_fn(Seq<char>, Seq<char>) -> bool,
    past: Seq<AskView>,
    n: nat,
) -> (r: (Seq<AskView>, nat))
    requires
        remembers(host, same),
        conversation::reaches(f, c, g, d, now(host, past)),
        ends(f, c, host, past, n) is Some,
    ensures
        same_looks(now(host, r.0), now(host, past)),
        looked_on(past, r.0),
        ends(f, c, host, past, n) == ends(g, d, host, r.0, r.1),
{
    let m = choose|m: nat| conversation::leads(f, c, g, d, now(host, past), m);
    if n < m {
        lemma_part_of_way(f, c, host, same, past, n, n);
        assert(conversation::stands(f, c, now(host, past), n) is Ask);
    }
    let k = (n - m) as nat;
    let later = lemma_all_the_way(f, c, g, d, host, same, past, m, k);
    assert(m + k == n);
    (later, k)
}

/// A step ends, and with this value.
pub open spec fn gives<T>(
    f: spec_fn(Cursor) -> Next<T>,
    c: Cursor,
    host: spec_fn(Seq<AskView>, AskView) -> Answer,
    past: Seq<AskView>,
    v: T,
) -> bool {
    &&& exists|n: nat| #[trigger] ends(f, c, host, past, n) is Some
    &&& forall|n: nat|
        (#[trigger] ends(f, c, host, past, n)) matches Some((w, _)) ==> w == v
}

/// A step that leads to an end gives the value of that end.
pub proof fn lemma_gives<T>(
    f: spec_fn(Cursor) -> Next<T>,
    c: Cursor,
    g: spec_fn(Cursor) -> Next<T>,
    d: Cursor,
    host: spec_fn(Seq<AskView>, AskView) -> Answer,
    same: spec_fn(Seq<char>, Seq<char>) -> bool,
    past: Seq<AskView>,
)
    requires
        remembers(host, same),
        conversation::reaches(f, c, g, d, now(host, past)),
        g(d) is Done,
    ensures
        gives(f, c, host, past, g(d)->Done_0),
{
    let m = choose|m: nat| conversation::leads(f, c, g, d, now(host, past), m);
    lemma_all_the_way(f, c, g, d, host, same, past, m, 0);
    assert(ends(f, c, host, past, m + 0) is Some);
    assert forall|n: nat| (#[trigger] ends(f, c, host, past, n)) is Some implies ends(
        f,
        c,
        host,
        past,
        n,
    ) matches Some((w, _)) && w == g(d)->Done_0 by {
        lemma_through(f, c, g, d, host, same, past, n);
    }
}

/// The text of the file at `path`, from this host.
pub open spec fn file(host: spec_fn(AskView) -> Answer, path: Seq<char>) -> Option<Seq<char>> {
    text_in(host(AskOf::Read(path)))
}

/// Two hosts that agree on everything but what is in the files.
pub open spec fn same_tree(a: spec_fn(AskView) -> Answer, b: spec_fn(AskView) -> Answer) -> bool {
    forall|q: AskView| q.harmless() && !(q is Read) ==> #[trigger] a(q) == b(q)
}

/// What a look does to what the host lets read: nothing.
pub proof fn lemma_looked(
    host: spec_fn(Seq<AskView>, AskView) -> Answer,
    same: spec_fn(Seq<char>, Seq<char>) -> bool,
    past: Seq<AskView>,
    q: AskView,
)
    requires
        remembers(host, same),
        q.harmless(),
    ensures
        same_looks(now(host, past.push(q)), now(host, past)),
{
    assert(seq![q][0].harmless());
    assert(past + seq![q] =~= past.push(q));
    lemma_looks(host, same, past, seq![q]);
}

/// Hosts that give the same looks have the same files.
pub proof fn lemma_same_files(a: spec_fn(AskView) -> Answer, b: spec_fn(AskView) -> Answer)
    requires
        same_looks(a, b),
    ensures
        same_tree(b, a),
        forall|p: Seq<char>| #[trigger] file(a, p) == file(b, p),
{
    assert forall|p: Seq<char>| #[trigger] file(a, p) == file(b, p) by {
        let q: AskView = AskOf::Read(p);
        assert(a(q) == b(q));
    }
    assert forall|q: AskView| q.harmless() && !(q is Read) implies #[trigger] b(q) == a(q) by {
        assert(a(q) == b(q));
    }
}

/// What a file that is written does to what the host lets read.
pub proof fn lemma_wrote(
    host: spec_fn(Seq<AskView>, AskView) -> Answer,
    same: spec_fn(Seq<char>, Seq<char>) -> bool,
    past: Seq<AskView>,
    path: Seq<char>,
    t: Seq<char>,
)
    requires
        remembers(host, same),
        host(past, AskOf::Write(path, t)) is Yes,
        file(now(host, past), path) is Some,
    ensures
        ({
            let before = now(host, past);
            let after = now(host, past.push(AskOf::Write(path, t)));
            &&& same_tree(before, after)
            &&& file(after, path) == Some(t)
            &&& forall|p: Seq<char>|
                #![trigger file(after, p)]
                if same(p, path) {
                    file(after, p) == Some(t) && file(before, p) == file(before, path)
                } else {
                    file(after, p) == file(before, p) && after(AskOf::Read(p)) == before(
                        AskOf::Read(p),
                    )
                }
        }),
{
    let r: AskView = AskOf::Write(path, t);
    let before = now(host, past);
    let after = now(host, past.push(r));
    assert forall|q: AskView| q.harmless() && !(q is Read) implies #[trigger] before(q) == after(
        q,
    ) by {
        assert(goes_on(host, same, past, r, q));
    }
    assert forall|p: Seq<char>|
        #![trigger file(after, p)]
        if same(p, path) {
            file(after, p) == Some(t) && file(before, p) == file(before, path)
        } else {
            file(after, p) == file(before, p) && after(AskOf::Read(p)) == before(AskOf::Read(p))
        } by {
        let q: AskView = AskOf::Read(p);
        assert(goes_on(host, same, past, r, q));
        assert(reads_alike(host, same, past, p, path));
    }
    assert(same(path, path));
}

} // verus!
