//! Conversations: what comes of a step when a host answers each of its
//! requests.

use vstd::prelude::*;

use crate::error::ErrorView;
use crate::session::Answer;
use crate::session::AskOf;
use crate::session::AskView;
use crate::session::Cursor;
use crate::session::Next;

verus! {

/// The answers to the first `n` requests of a step. It asks no more than it
/// needs to end.
pub open spec fn replies<T>(
    f: spec_fn(Cursor) -> Next<T>,
    c: Cursor,
    host: spec_fn(AskView) -> Answer,
    n: nat,
) -> Seq<Answer>
    decreases n,
{
    if n == 0 {
        Seq::empty()
    } else {
        let before = replies(f, c, host, (n - 1) as nat);
        match f(c.with(before)) {
            Next::Ask(q) => before.push(host(q)),
            Next::Done(_, _) => before,
        }
    }
}

/// The first `n` requests of a step.
pub open spec fn asked<T>(
    f: spec_fn(Cursor) -> Next<T>,
    c: Cursor,
    host: spec_fn(AskView) -> Answer,
    n: nat,
) -> Seq<AskView>
    decreases n,
{
    if n == 0 {
        Seq::empty()
    } else {
        let before = asked(f, c, host, (n - 1) as nat);
        match f(c.with(replies(f, c, host, (n - 1) as nat))) {
            Next::Ask(q) => before.push(q),
            Next::Done(_, _) => before,
        }
    }
}

/// How a step stands after `n` answers.
pub open spec fn stands<T>(
    f: spec_fn(Cursor) -> Next<T>,
    c: Cursor,
    host: spec_fn(AskView) -> Answer,
    n: nat,
) -> Next<T> {
    f(c.with(replies(f, c, host, n)))
}

/// The files that are to be written, in their order.
pub open spec fn written(asks: Seq<AskView>) -> Seq<Seq<char>>
    decreases asks.len(),
{
    if asks.len() == 0 {
        Seq::empty()
    } else {
        (match asks[0] {
            AskOf::Write(path, _) => seq![path],
            _ => Seq::empty(),
        }) + written(asks.skip(1))
    }
}

/// All answers have been used.
pub open spec fn waiting(c: Cursor) -> bool {
    c.at == c.answers.len()
}

/// The cursor with one more answer, which is used.
pub open spec fn told(c: Cursor, a: Answer) -> Cursor {
    c.with(seq![a]).past()
}

/// `f` comes to `g` after `m` answers, with nothing but looks on the way.
pub open spec fn leads<T>(
    f: spec_fn(Cursor) -> Next<T>,
    c: Cursor,
    g: spec_fn(Cursor) -> Next<T>,
    d: Cursor,
    host: spec_fn(AskView) -> Answer,
    m: nat,
) -> bool {
    &&& forall|n: nat|
        n < m ==> (#[trigger] stands(f, c, host, n) matches Next::Ask(q) && q.harmless())
    &&& forall|more: Seq<Answer>|
        f(c.with(replies(f, c, host, m) + more)) == g(#[trigger] d.with(more))
}

/// `f` comes to `g`, with nothing but looks on the way.
pub open spec fn reaches<T>(
    f: spec_fn(Cursor) -> Next<T>,
    c: Cursor,
    g: spec_fn(Cursor) -> Next<T>,
    d: Cursor,
    host: spec_fn(AskView) -> Answer,
) -> bool {
    exists|m: nat| leads(f, c, g, d, host, m)
}

/// What follows, given a value.
pub open spec fn given<V, T>(
    then_do: spec_fn(V, Cursor) -> Next<Result<T, ErrorView>>,
    v: V,
) -> spec_fn(Cursor) -> Next<Result<T, ErrorView>> {
    |c: Cursor| then_do(v, c)
}

/// What follows, given a value, or the end with an error where there is none.
pub open spec fn onward<V, T>(
    then_do: spec_fn(V, Cursor) -> Next<Result<T, ErrorView>>,
    v: Option<V>,
    e: ErrorView,
) -> spec_fn(Cursor) -> Next<Result<T, ErrorView>> {
    |c: Cursor|
        match v {
            Some(v) => then_do(v, c),
            None => Next::Done(Err(e), c),
        }
}

/// The end with a value, or with an error where there is none.
pub open spec fn settled<T>(v: Option<T>, e: ErrorView) -> spec_fn(Cursor) -> Next<
    Result<T, ErrorView>,
> {
    |c: Cursor|
        match v {
            Some(v) => Next::Done(Ok(v), c),
            None => Next::Done(Err(e), c),
        }
}

/// A step, then, unless it failed, what follows.
pub open spec fn followed<V, T>(
    f: spec_fn(Cursor) -> Next<Result<V, ErrorView>>,
    then_do: spec_fn(V, Cursor) -> Next<Result<T, ErrorView>>,
) -> spec_fn(Cursor) -> Next<Result<T, ErrorView>> {
    |c: Cursor| f(c).and_ok(then_do)
}

/// The answer to a request stands in front of those to the requests behind it.
pub proof fn lemma_told(c: Cursor, a: Answer)
    requires
        waiting(c),
    ensures
        waiting(told(c, a)),
        forall|more: Seq<Answer>|
            (#[trigger] told(c, a).with(more)) == c.with(seq![a] + more).past() && c.with(
                seq![a] + more,
            ).answered() && c.with(seq![a] + more).answer() == a,
        c.with(seq![a]).answered(),
        c.with(seq![a]).answer() == a,
{
    assert forall|more: Seq<Answer>|
        (#[trigger] told(c, a).with(more)) == c.with(seq![a] + more).past() by {
        assert(told(c, a).with(more) =~= c.with(seq![a] + more).past());
    }
}

/// A step that has ended asks nothing.
pub proof fn lemma_silent<T>(
    f: spec_fn(Cursor) -> Next<T>,
    c: Cursor,
    host: spec_fn(AskView) -> Answer,
    n: nat,
)
    requires
        f(c) is Done,
    ensures
        replies(f, c, host, n) == Seq::<Answer>::empty(),
        asked(f, c, host, n) == Seq::<AskView>::empty(),
        stands(f, c, host, n) == f(c),
    decreases n,
{
    assert(c.with(Seq::empty()) =~= c);
    if n > 0 {
        lemma_silent(f, c, host, (n - 1) as nat);
    }
}

/// A step that ends with the answer to its first request.
pub proof fn lemma_ends<T>(
    f: spec_fn(Cursor) -> Next<T>,
    c: Cursor,
    host: spec_fn(AskView) -> Answer,
    q: AskView,
    n: nat,
)
    requires
        f(c) == Next::<T>::Ask(q),
        f(c.with(seq![host(q)])) is Done,
    ensures
        n == 0 ==> stands(f, c, host, n) == Next::<T>::Ask(q),
        n > 0 ==> replies(f, c, host, n) == seq![host(q)],
        n > 0 ==> stands(f, c, host, n) == f(c.with(seq![host(q)])),
    decreases n,
{
    assert(c.with(Seq::empty()) =~= c);
    if n > 0 {
        lemma_ends(f, c, host, q, (n - 1) as nat);
        assert(Seq::<Answer>::empty().push(host(q)) =~= seq![host(q)]);
    }
}

/// A step goes on, behind the answer to its first request, as another one.
pub proof fn lemma_goes_on<T>(
    f: spec_fn(Cursor) -> Next<T>,
    g: spec_fn(Cursor) -> Next<T>,
    c: Cursor,
    host: spec_fn(AskView) -> Answer,
    q: AskView,
    n: nat,
)
    requires
        n > 0,
        f(c) == Next::<T>::Ask(q),
        forall|more: Seq<Answer>|
            f(c.with(seq![host(q)] + more)) == g(#[trigger] told(c, host(q)).with(more)),
    ensures
        replies(f, c, host, n) == seq![host(q)] + replies(
            g,
            told(c, host(q)),
            host,
            (n - 1) as nat,
        ),
        asked(f, c, host, n) == seq![q] + asked(g, told(c, host(q)), host, (n - 1) as nat),
        stands(f, c, host, n) == stands(g, told(c, host(q)), host, (n - 1) as nat),
    decreases n,
{
    let a = host(q);
    let d = told(c, a);
    if n == 1 {
        assert(c.with(Seq::empty()) =~= c);
        assert(replies(f, c, host, 0) =~= Seq::empty());
        assert(asked(f, c, host, 0) =~= Seq::empty());
        assert(replies(f, c, host, 1) =~= seq![a] + replies(g, d, host, 0));
        assert(asked(f, c, host, 1) =~= seq![q] + asked(g, d, host, 0));
    } else {
        let k = (n - 2) as nat;
        lemma_goes_on(f, g, c, host, q, (n - 1) as nat);
        let r = replies(g, d, host, k);
        assert(f(c.with(seq![a] + r)) == g(d.with(r)));
        assert(replies(f, c, host, n) =~= seq![a] + replies(g, d, host, (n - 1) as nat));
        assert(asked(f, c, host, n) =~= seq![q] + asked(g, d, host, (n - 1) as nat));
    }
    assert(f(c.with(seq![a] + replies(g, d, host, (n - 1) as nat))) == g(
        d.with(replies(g, d, host, (n - 1) as nat)),
    ));
}

/// The file of a first request, if it is one to write.
pub proof fn lemma_written_first(q: AskView, rest: Seq<AskView>)
    ensures
        written(seq![q] + rest) == (match q {
            AskOf::Write(path, _) => seq![path],
            _ => Seq::empty(),
        }) + written(rest),
{
    assert((seq![q] + rest).skip(1) =~= rest);
}

/// A request for a look leads on.
pub proof fn lemma_asks<T>(
    f: spec_fn(Cursor) -> Next<T>,
    g: spec_fn(Cursor) -> Next<T>,
    c: Cursor,
    host: spec_fn(AskView) -> Answer,
    q: AskView,
)
    requires
        f(c) == Next::<T>::Ask(q),
        q.harmless(),
        forall|more: Seq<Answer>|
            f(c.with(seq![host(q)] + more)) == g(#[trigger] told(c, host(q)).with(more)),
    ensures
        reaches(f, c, g, told(c, host(q)), host),
{
    assert(c.with(Seq::empty()) =~= c);
    assert(stands(f, c, host, 0) == Next::<T>::Ask(q));
    assert(replies(f, c, host, 0) =~= Seq::empty());
    assert(replies(f, c, host, 1) =~= seq![host(q)]);
    assert(leads(f, c, g, told(c, host(q)), host, 1));
}

/// Two steps that are the same from `c` on.
pub proof fn lemma_same<T>(
    f: spec_fn(Cursor) -> Next<T>,
    g: spec_fn(Cursor) -> Next<T>,
    c: Cursor,
    host: spec_fn(AskView) -> Answer,
)
    requires
        forall|more: Seq<Answer>| f(#[trigger] c.with(more)) == g(c.with(more)),
    ensures
        reaches(f, c, g, c, host),
{
    assert forall|more: Seq<Answer>|
        f(c.with(replies(f, c, host, 0) + more)) == g(#[trigger] c.with(more)) by {
        assert(replies(f, c, host, 0) + more =~= more);
    }
    assert(leads(f, c, g, c, host, 0));
}

/// What comes of a step is what comes of the one that it leads to.
pub proof fn lemma_leads<T>(
    f: spec_fn(Cursor) -> Next<T>,
    c: Cursor,
    g: spec_fn(Cursor) -> Next<T>,
    d: Cursor,
    host: spec_fn(AskView) -> Answer,
    m: nat,
    n: nat,
)
    requires
        leads(f, c, g, d, host, m),
    ensures
        replies(f, c, host, m + n) == replies(f, c, host, m) + replies(g, d, host, n),
        asked(f, c, host, m + n) == asked(f, c, host, m) + asked(g, d, host, n),
        stands(f, c, host, m + n) == stands(g, d, host, n),
    decreases n,
{
    let before = replies(f, c, host, m);
    if n == 0 {
        assert(before + Seq::<Answer>::empty() =~= before);
        assert(asked(f, c, host, m) + Seq::<AskView>::empty() =~= asked(f, c, host, m));
    } else {
        let k = (n - 1) as nat;
        lemma_leads(f, c, g, d, host, m, k);
        assert((m + n - 1) as nat == m + k);
        let r = replies(g, d, host, k);
        assert(f(c.with(before + r)) == g(d.with(r)));
        assert(replies(f, c, host, m + n) =~= before + replies(g, d, host, n));
        assert(asked(f, c, host, m + n) =~= asked(f, c, host, m) + asked(g, d, host, n));
    }
    let r = replies(g, d, host, n);
    assert(f(c.with(before + r)) == g(d.with(r)));
}

/// All requests are for looks.
pub open spec fn all_harmless(asks: Seq<AskView>) -> bool {
    forall|i: int| 0 <= i < asks.len() ==> (#[trigger] asks[i]).harmless()
}

/// On the way to what a step leads to, there are only looks, as many as
/// answers.
pub proof fn lemma_way_is_harmless<T>(
    f: spec_fn(Cursor) -> Next<T>,
    c: Cursor,
    host: spec_fn(AskView) -> Answer,
    m: nat,
)
    requires
        forall|n: nat|
            n < m ==> (#[trigger] stands(f, c, host, n) matches Next::Ask(q) && q.harmless()),
    ensures
        all_harmless(asked(f, c, host, m)),
    decreases m,
{
    if m > 0 {
        lemma_way_is_harmless(f, c, host, (m - 1) as nat);
        assert(stands(f, c, host, (m - 1) as nat) is Ask);
    }
}

proof fn lemma_written_later(looks: Seq<AskView>, rest: Seq<AskView>)
    requires
        all_harmless(looks),
    ensures
        written(looks + rest) == written(rest),
    decreases looks.len(),
{
    if looks.len() == 0 {
        assert(looks + rest =~= rest);
    } else {
        let first = looks[0];
        assert(looks + rest =~= seq![first] + (looks.skip(1) + rest));
        lemma_written_first(first, looks.skip(1) + rest);
        assert(first.harmless());
        lemma_written_later(looks.skip(1), rest);
        assert(Seq::<Seq<char>>::empty() + written(rest) =~= written(rest));
    }
}

pub proof fn lemma_reaches_on<T>(
    f: spec_fn(Cursor) -> Next<T>,
    c: Cursor,
    g: spec_fn(Cursor) -> Next<T>,
    d: Cursor,
    h: spec_fn(Cursor) -> Next<T>,
    e: Cursor,
    host: spec_fn(AskView) -> Answer,
)
    requires
        reaches(f, c, g, d, host),
        reaches(g, d, h, e, host),
    ensures
        reaches(f, c, h, e, host),
{
    let m = choose|m: nat| leads(f, c, g, d, host, m);
    let k = choose|k: nat| leads(g, d, h, e, host, k);
    assert forall|n: nat| n < m + k implies (#[trigger] stands(f, c, host, n) matches Next::Ask(q)
        && q.harmless()) by {
        if n >= m {
            lemma_leads(f, c, g, d, host, m, (n - m) as nat);
            assert(m + (n - m) as nat == n);
            assert(stands(g, d, host, (n - m) as nat) is Ask);
        }
    }
    lemma_leads(f, c, g, d, host, m, k);
    assert forall|more: Seq<Answer>|
        f(c.with(replies(f, c, host, m + k) + more)) == h(#[trigger] e.with(more)) by {
        let rest = replies(g, d, host, k) + more;
        assert(g(d.with(rest)) == h(e.with(more)));
        assert(f(c.with(replies(f, c, host, m) + rest)) == g(d.with(rest)));
        assert(replies(f, c, host, m + k) + more =~= replies(f, c, host, m) + rest);
    }
    assert(leads(f, c, h, e, host, m + k));
}

/// What follows a step has the same answers in front of it.
proof fn lemma_followed<V, T>(
    f: spec_fn(Cursor) -> Next<Result<V, ErrorView>>,
    then_do: spec_fn(V, Cursor) -> Next<Result<T, ErrorView>>,
    c: Cursor,
    host: spec_fn(AskView) -> Answer,
    m: nat,
    n: nat,
)
    requires
        n <= m,
        forall|k: nat|
            k < m ==> (#[trigger] stands(f, c, host, k) matches Next::Ask(q) && q.harmless()),
    ensures
        replies(followed(f, then_do), c, host, n) == replies(f, c, host, n),
        n < m ==> stands(followed(f, then_do), c, host, n) == Next::<Result<T, ErrorView>>::Ask(
            stands(f, c, host, n)->Ask_0,
        ),
    decreases n,
{
    if n < m {
        assert(stands(f, c, host, n) is Ask);
    }
    if n > 0 {
        let k = (n - 1) as nat;
        lemma_followed(f, then_do, c, host, m, k);
        assert(stands(f, c, host, k) is Ask);
    }
}

/// A step that leads to an end leads to what follows it.
pub proof fn lemma_follows<V, T>(
    f: spec_fn(Cursor) -> Next<Result<V, ErrorView>>,
    then_do: spec_fn(V, Cursor) -> Next<Result<T, ErrorView>>,
    c: Cursor,
    v: Option<V>,
    e: ErrorView,
    d: Cursor,
    host: spec_fn(AskView) -> Answer,
)
    requires
        reaches(f, c, settled(v, e), d, host),
    ensures
        reaches(followed(f, then_do), c, onward(then_do, v, e), d, host),
{
    let g = followed(f, then_do);
    let m = choose|m: nat| leads(f, c, settled(v, e), d, host, m);
    assert forall|n: nat| n < m implies (#[trigger] stands(g, c, host, n) matches Next::Ask(q)
        && q.harmless()) by {
        lemma_followed(f, then_do, c, host, m, n);
        assert(stands(f, c, host, n) is Ask);
    }
    lemma_followed(f, then_do, c, host, m, m);
    assert forall|more: Seq<Answer>|
        g(c.with(replies(g, c, host, m) + more)) == onward(then_do, v, e)(
            #[trigger] d.with(more),
        ) by {
        assert(f(c.with(replies(f, c, host, m) + more)) == settled(v, e)(d.with(more)));
    }
    assert(leads(g, c, onward(then_do, v, e), d, host, m));
}

/// The cursor with the first `k` of its answers.
pub open spec fn cut(c: Cursor, k: int) -> Cursor {
    Cursor { answers: c.answers.take(k), ..c }
}

/// A step that has ended has used no answers but those that it has passed, and
/// leaves the others alone.
pub open spec fn tight<T>(f: spec_fn(Cursor) -> Next<T>, c: Cursor) -> bool {
    f(c) matches Next::Done(v, c2) ==> {
        &&& c2.answers == c.answers
        &&& c2.sep == c.sep
        &&& c.at <= c2.at <= c.answers.len()
        &&& forall|k: int|
            c2.at <= k <= c.answers.len() ==> f(#[trigger] cut(c, k)) == Next::Done(v, cut(c2, k))
    }
}

/// Whatever the answers are, the step asks for looks alone and is tight.
pub open spec fn steady<T>(f: spec_fn(Cursor) -> Next<T>, c: Cursor) -> bool {
    forall|r: Seq<Answer>, more: Seq<Answer>|
        #![trigger c.with(r).with(more)]
        f(c.with(r)).calm() && tight(f, c.with(r)) && f(c.with(r)).kept(
            f(c.with(r).with(more)),
            more,
        )
}

/// Where a step still asks, it has asked before each answer.
proof fn lemma_asked_before<T>(
    f: spec_fn(Cursor) -> Next<T>,
    c: Cursor,
    host: spec_fn(AskView) -> Answer,
    n: nat,
    k: nat,
)
    requires
        stands(f, c, host, n) is Ask,
        k <= n,
    ensures
        stands(f, c, host, k) is Ask,
        replies(f, c, host, n).len() == n,
    decreases n,
{
    if n > 0 {
        let m = (n - 1) as nat;
        if stands(f, c, host, m) is Done {
            assert(replies(f, c, host, n) == replies(f, c, host, m));
        }
        lemma_asked_before(f, c, host, m, if k < n {
            k
        } else {
            m
        });
    }
}

/// A steady step that has ended leads to its end.
pub proof fn lemma_reached<T>(
    f: spec_fn(Cursor) -> Next<T>,
    c: Cursor,
    host: spec_fn(AskView) -> Answer,
    n: nat,
) -> (d: Cursor)
    requires
        waiting(c),
        steady(f, c),
        stands(f, c, host, n) is Done,
    ensures
        waiting(d),
        d.sep == c.sep,
        ({
            let v = stands(f, c, host, n)->Done_0;
            reaches(f, c, |x: Cursor| Next::Done(v, x), d, host)
        }),
    decreases n,
{
    let r = replies(f, c, host, n);
    let v = stands(f, c, host, n)->Done_0;
    let d = stands(f, c, host, n)->Done_1;
    let g = |x: Cursor| Next::Done(v, x);
    let none = Seq::<Answer>::empty();
    if n > 0 && stands(f, c, host, (n - 1) as nat) is Done {
        lemma_reached(f, c, host, (n - 1) as nat)
    } else {
        assert(c.with(r).with(none) =~= c.with(r));
        assert(tight(f, c.with(r)));
        if n > 0 {
            let m = (n - 1) as nat;
            lemma_asked_before(f, c, host, m, m);
            let before = replies(f, c, host, m);
            let k: int = c.answers.len() + m as int;
            assert(cut(c.with(r), k) =~= c.with(before));
            assert(d.at > k);
        }
        assert forall|k: nat| k < n implies (#[trigger] stands(f, c, host, k) matches Next::Ask(q)
            && q.harmless()) by {
            lemma_asked_before(f, c, host, (n - 1) as nat, k);
            let b = replies(f, c, host, k);
            assert(c.with(b).with(none) =~= c.with(b));
            assert(f(c.with(b)).calm());
        }
        assert forall|more: Seq<Answer>| f(c.with(r + more)) == g(#[trigger] d.with(more)) by {
            assert(c.with(r).with(more) =~= c.with(r + more));
        }
        assert(leads(f, c, g, d, host, n));
        d
    }
}

/// Two hosts that give the same answers to what a step asks lead it to the
/// same.
pub proof fn lemma_same_way<T>(
    f: spec_fn(Cursor) -> Next<T>,
    c: Cursor,
    g: spec_fn(Cursor) -> Next<T>,
    d: Cursor,
    a: spec_fn(AskView) -> Answer,
    b: spec_fn(AskView) -> Answer,
)
    requires
        reaches(f, c, g, d, a),
        forall|r: Seq<Answer>|
            (#[trigger] f(c.with(r))) matches Next::Ask(q) ==> a(q) == b(q),
    ensures
        reaches(f, c, g, d, b),
{
    let m = choose|m: nat| leads(f, c, g, d, a, m);
    assert forall|n: nat| #[trigger] replies(f, c, b, n) == replies(f, c, a, n) by {
        lemma_same_replies(f, c, a, b, n);
    }
    assert forall|n: nat| n < m implies (#[trigger] stands(f, c, b, n) matches Next::Ask(q)
        && q.harmless()) by {
        assert(replies(f, c, b, n) == replies(f, c, a, n));
        assert(stands(f, c, a, n) is Ask);
    }
    assert(replies(f, c, b, m) == replies(f, c, a, m));
    assert(leads(f, c, g, d, b, m));
}

proof fn lemma_same_replies<T>(
    f: spec_fn(Cursor) -> Next<T>,
    c: Cursor,
    a: spec_fn(AskView) -> Answer,
    b: spec_fn(AskView) -> Answer,
    n: nat,
)
    requires
        forall|r: Seq<Answer>|
            (#[trigger] f(c.with(r))) matches Next::Ask(q) ==> a(q) == b(q),
    ensures
        replies(f, c, b, n) == replies(f, c, a, n),
    decreases n,
{
    if n > 0 {
        lemma_same_replies(f, c, a, b, (n - 1) as nat);
    }
}

/// What has ended has come through what leads there.
pub proof fn lemma_came_through<T>(
    f: spec_fn(Cursor) -> Next<T>,
    c: Cursor,
    g: spec_fn(Cursor) -> Next<T>,
    d: Cursor,
    host: spec_fn(AskView) -> Answer,
    n: nat,
) -> (k: nat)
    requires
        reaches(f, c, g, d, host),
        stands(f, c, host, n) is Done,
    ensures
        stands(g, d, host, k) == stands(f, c, host, n),
        written(asked(g, d, host, k)) == written(asked(f, c, host, n)),
{
    let m = choose|m: nat| leads(f, c, g, d, host, m);
    assert(n >= m) by {
        assert(!(stands(f, c, host, n) is Ask));
    }
    let k = (n - m) as nat;
    lemma_leads(f, c, g, d, host, m, k);
    lemma_way_is_harmless(f, c, host, m);
    lemma_written_later(asked(f, c, host, m), asked(g, d, host, k));
    assert(m + k == n);
    k
}

/// What is led to ends as soon as it needs no answer.
pub proof fn lemma_will_end<T>(
    f: spec_fn(Cursor) -> Next<T>,
    c: Cursor,
    g: spec_fn(Cursor) -> Next<T>,
    d: Cursor,
    host: spec_fn(AskView) -> Answer,
) -> (n: nat)
    requires
        reaches(f, c, g, d, host),
    ensures
        stands(f, c, host, n) == g(d),
{
    let m = choose|m: nat| leads(f, c, g, d, host, m);
    lemma_leads(f, c, g, d, host, m, 0);
    assert(d.with(Seq::empty()) =~= d);
    m
}

/// A step, then what follows its value.
pub open spec fn continued<V, T>(
    f: spec_fn(Cursor) -> Next<V>,
    then_do: spec_fn(V, Cursor) -> Next<T>,
) -> spec_fn(Cursor) -> Next<T> {
    |c: Cursor| f(c).and(then_do)
}

proof fn lemma_continued<V, T>(
    f: spec_fn(Cursor) -> Next<V>,
    then_do: spec_fn(V, Cursor) -> Next<T>,
    c: Cursor,
    host: spec_fn(AskView) -> Answer,
    m: nat,
    n: nat,
)
    requires
        n <= m,
        forall|k: nat|
            k < m ==> (#[trigger] stands(f, c, host, k) matches Next::Ask(q) && q.harmless()),
    ensures
        replies(continued(f, then_do), c, host, n) == replies(f, c, host, n),
        n < m ==> stands(continued(f, then_do), c, host, n) == Next::<T>::Ask(
            stands(f, c, host, n)->Ask_0,
        ),
    decreases n,
{
    if n < m {
        assert(stands(f, c, host, n) is Ask);
    }
    if n > 0 {
        let k = (n - 1) as nat;
        lemma_continued(f, then_do, c, host, m, k);
        assert(stands(f, c, host, k) is Ask);
    }
}

/// A step that leads to an end leads to what follows its value.
pub proof fn lemma_then<V, T>(
    f: spec_fn(Cursor) -> Next<V>,
    then_do: spec_fn(V, Cursor) -> Next<T>,
    c: Cursor,
    v: V,
    d: Cursor,
    host: spec_fn(AskView) -> Answer,
)
    requires
        reaches(f, c, |x: Cursor| Next::Done(v, x), d, host),
    ensures
        reaches(continued(f, then_do), c, |x: Cursor| then_do(v, x), d, host),
{
    let end = |x: Cursor| Next::Done(v, x);
    let g = continued(f, then_do);
    let h = |x: Cursor| then_do(v, x);
    let m = choose|m: nat| leads(f, c, end, d, host, m);
    assert forall|n: nat| n < m implies (#[trigger] stands(g, c, host, n) matches Next::Ask(q)
        && q.harmless()) by {
        lemma_continued(f, then_do, c, host, m, n);
        assert(stands(f, c, host, n) is Ask);
    }
    lemma_continued(f, then_do, c, host, m, m);
    assert forall|more: Seq<Answer>|
        g(c.with(replies(g, c, host, m) + more)) == h(#[trigger] d.with(more)) by {
        assert(f(c.with(replies(f, c, host, m) + more)) == end(d.with(more)));
    }
    assert(leads(g, c, h, d, host, m));
}

} // verus!
