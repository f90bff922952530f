//! Ordering things so that each comes after what it depends on.

use vstd::prelude::*;

verus! {

/// `v` depends on `w`.
pub open spec fn needs(deps: Seq<Set<usize>>, v: int, w: int) -> bool {
    0 <= v < deps.len() && 0 <= w <= usize::MAX && deps[v].contains(w as usize)
}

/// `v` depends on a member of `s`.
pub open spec fn needs_some(deps: Seq<Set<usize>>, v: int, s: Set<int>) -> bool {
    exists|w: int| s.contains(w) && #[trigger] needs(deps, v, w)
}

/// Each member of `s` depends on a member of `s`.
pub open spec fn circular(deps: Seq<Set<usize>>, s: Set<int>) -> bool {
    forall|v: int| s.contains(v) ==> #[trigger] needs_some(deps, v, s)
}

/// `v` can never come after all that it depends on: it depends, directly or
/// not, on something that depends on itself.
pub open spec fn blocked(deps: Seq<Set<usize>>, v: int) -> bool {
    exists|s: Set<int>| #[trigger] s.contains(v) && circular(deps, s)
}

/// The first `k` entries of `order` have all of `wanted`.
pub open spec fn complete(order: Seq<usize>, k: int, wanted: Set<usize>) -> bool {
    forall|w: usize| #[trigger] wanted.contains(w) ==> order.take(k).contains(w)
}

/// The entry at `p` goes before the one at `q`: what it depends on is complete
/// earlier or, at the same point, its number is smaller.
pub open spec fn sooner(deps: Seq<Set<usize>>, order: Seq<usize>, p: int, q: int) -> bool {
    let a = deps[order[p] as int];
    let b = deps[order[q] as int];
    ||| exists|k: int|
        0 <= k <= order.len() && #[trigger] complete(order, k, a) && !complete(order, k, b)
    ||| {
        &&& forall|k: int|
            0 <= k <= order.len() ==> (#[trigger] complete(order, k, a) <==> complete(order, k, b))
        &&& order[p] < order[q]
    }
}

/// `list` has numbers below `n` only, and none of them twice.
pub open spec fn distinct_below(n: nat, list: Seq<usize>) -> bool {
    &&& list.no_duplicates()
    &&& forall|p: int| 0 <= p < list.len() ==> (#[trigger] list[p]) < n
}

/// `order` arranges all of `deps`: each comes after everything that it depends
/// on, as soon as that is complete, and by number where several become ready
/// at the same point.
pub open spec fn arranges(deps: Seq<Set<usize>>, order: Seq<usize>) -> bool {
    &&& order.len() == deps.len()
    &&& distinct_below(deps.len(), order)
    &&& forall|p: int|
        0 <= p < order.len() ==> #[trigger] complete(order, p, deps[order[p] as int])
    &&& forall|p: int, q: int| 0 <= p < q < order.len() ==> #[trigger] sooner(deps, order, p, q)
}

/// The blocked numbers below `n`, in ascending order.
pub open spec fn blocked_below(deps: Seq<Set<usize>>, n: int) -> Seq<usize>
    decreases n,
{
    if n <= 0 {
        Seq::empty()
    } else if blocked(deps, n - 1) {
        blocked_below(deps, n - 1).push((n - 1) as usize)
    } else {
        blocked_below(deps, n - 1)
    }
}

/// The arrangement of `deps`, where there is one.
pub open spec fn arrangement(deps: Seq<Set<usize>>) -> Seq<usize> {
    choose|order: Seq<usize>| arranges(deps, order)
}

/// The lists as sequences.
pub open spec fn lists(deps: Vec<Vec<usize>>) -> Seq<Seq<usize>> {
    Seq::new(deps@.len(), |v: int| deps@[v]@)
}

/// Every list holds numbers of lists, none of them twice.
pub open spec fn well_formed(deps: Seq<Seq<usize>>) -> bool {
    forall|v: int| 0 <= v < deps.len() ==> distinct_below(deps.len(), #[trigger] deps[v])
}

/// What the lists hold.
pub open spec fn sets(deps: Seq<Seq<usize>>) -> Seq<Set<usize>> {
    Seq::new(deps.len(), |v: int| deps[v].to_set())
}

// ---------------------------------------------------------------------------
// The order, entry by entry
// ---------------------------------------------------------------------------

/// How many entries of `order` it takes to have all of `wanted`.
spec fn ready_at(order: Seq<usize>, wanted: Seq<usize>) -> int
    decreases wanted.len(),
{
    if wanted.len() == 0 {
        0
    } else {
        let rest = ready_at(order, wanted.drop_last());
        let last = order.index_of(wanted.last()) + 1;
        if rest <= last {
            last
        } else {
            rest
        }
    }
}

/// The entry at `p` is ready before the one at `q` or, at the same point, its
/// number is smaller.
spec fn ranked(deps: Seq<Seq<usize>>, order: Seq<usize>, p: int, q: int) -> bool {
    let a = ready_at(order, deps[order[p] as int]);
    let b = ready_at(order, deps[order[q] as int]);
    a < b || (a == b && order[p] < order[q])
}

/// How many of `wanted` are not in `done`.
spec fn missing(wanted: Seq<usize>, done: Seq<usize>) -> nat
    decreases wanted.len(),
{
    if wanted.len() == 0 {
        0
    } else {
        missing(wanted.drop_last(), done) + if done.contains(wanted.last()) {
            0nat
        } else {
            1nat
        }
    }
}

proof fn lemma_missing_bound(wanted: Seq<usize>, done: Seq<usize>)
    ensures
        missing(wanted, done) <= wanted.len(),
        missing(wanted, done) == 0 <==> forall|w: usize| #[trigger]
            wanted.contains(w) ==> done.contains(w),
    decreases wanted.len(),
{
    if wanted.len() > 0 {
        let init = wanted.drop_last();
        lemma_missing_bound(init, done);
        assert(wanted =~= init.push(wanted.last()));
        if missing(wanted, done) == 0 {
            assert forall|w: usize| #[trigger] wanted.contains(w) implies done.contains(w) by {
                let i = choose|i: int| 0 <= i < wanted.len() && wanted[i] == w;
                if i < init.len() {
                    assert(init[i] == w);
                    assert(init.contains(w));
                }
            }
        }
        if forall|w: usize| #[trigger] wanted.contains(w) ==> done.contains(w) {
            assert(wanted.contains(wanted.last()));
            assert forall|w: usize| #[trigger] init.contains(w) implies done.contains(w) by {
                let i = choose|i: int| 0 <= i < init.len() && init[i] == w;
                assert(wanted[i] == w);
                assert(wanted.contains(w));
            }
        }
    }
}

/// One more that is done is one less that is missing, if it is wanted at all.
proof fn lemma_missing_step(wanted: Seq<usize>, done: Seq<usize>, u: usize)
    requires
        wanted.no_duplicates(),
        !done.contains(u),
    ensures
        missing(wanted, done) == missing(wanted, done.push(u)) + if wanted.contains(u) {
            1nat
        } else {
            0nat
        },
    decreases wanted.len(),
{
    if wanted.len() > 0 {
        let init = wanted.drop_last();
        let last = wanted.last();
        lemma_missing_step(init, done, u);
        assert(wanted =~= init.push(last));
        assert(done.push(u)[done.len() as int] == u);
        assert forall|w: usize| w != u implies (done.contains(w) <==> #[trigger] done.push(
            u,
        ).contains(w)) by {
            if done.contains(w) {
                let i = choose|i: int| 0 <= i < done.len() && done[i] == w;
                assert(done.push(u)[i] == w);
            }
            if done.push(u).contains(w) {
                let i = choose|i: int| 0 <= i < done.len() + 1 && done.push(u)[i] == w;
                assert(done[i] == w);
            }
        }
        if last == u {
            assert(!init.contains(u)) by {
                if init.contains(u) {
                    let i = choose|i: int| 0 <= i < init.len() && init[i] == u;
                    assert(wanted[i] == u);
                    assert(wanted[wanted.len() - 1] == u);
                }
            }
            assert(wanted[wanted.len() - 1] == u);
            assert(wanted.contains(u));
            assert(done.push(u).contains(u));
        } else {
            assert(wanted.contains(u) <==> init.contains(u)) by {
                if wanted.contains(u) {
                    let i = choose|i: int| 0 <= i < wanted.len() && wanted[i] == u;
                    assert(init[i] == u);
                }
                if init.contains(u) {
                    let i = choose|i: int| 0 <= i < init.len() && init[i] == u;
                    assert(wanted[i] == u);
                }
            }
        }
    }
}

/// What is put at the end leaves the place of the others as it is.
proof fn lemma_index_of_push(order: Seq<usize>, v: usize, w: usize)
    requires
        order.contains(w),
        order.no_duplicates(),
        !order.contains(v),
    ensures
        order.push(v).index_of(w) == order.index_of(w),
        0 <= order.index_of(w) < order.len(),
        order[order.index_of(w)] == w,
{
    let i = order.index_of(w);
    assert(order[i] == w) by {
        let j = choose|j: int| 0 <= j < order.len() && order[j] == w;
        assert(order[j] == w);
    }
    let more = order.push(v);
    assert(more[i] == w);
    let k = more.index_of(w);
    assert(0 <= k < more.len() && more[k] == w);
    if k < order.len() {
        assert(order[k] == w);
    } else {
        assert(v == w);
    }
}

/// What is put at the end leaves it as it is when something is complete.
proof fn lemma_ready_at_push(order: Seq<usize>, wanted: Seq<usize>, v: usize)
    requires
        order.no_duplicates(),
        !order.contains(v),
        forall|w: usize| #[trigger] wanted.contains(w) ==> order.contains(w),
    ensures
        ready_at(order.push(v), wanted) == ready_at(order, wanted),
    decreases wanted.len(),
{
    if wanted.len() > 0 {
        let init = wanted.drop_last();
        assert forall|w: usize| #[trigger] init.contains(w) implies order.contains(w) by {
            let i = choose|i: int| 0 <= i < init.len() && init[i] == w;
            assert(wanted[i] == w);
            assert(wanted.contains(w));
        }
        lemma_ready_at_push(order, init, v);
        assert(wanted[wanted.len() - 1] == wanted.last());
        assert(wanted.contains(wanted.last()));
        lemma_index_of_push(order, v, wanted.last());
    }
}

/// What is all among the first `head` entries is complete by then, and not
/// before its last one is there.
proof fn lemma_ready_at_bounds(order: Seq<usize>, wanted: Seq<usize>, head: int)
    requires
        order.no_duplicates(),
        0 <= head <= order.len(),
        forall|w: usize| #[trigger] wanted.contains(w) ==> order.take(head).contains(w),
    ensures
        0 <= ready_at(order, wanted) <= head,
        forall|w: usize| #[trigger]
            wanted.contains(w) ==> order.index_of(w) < ready_at(order, wanted),
        head > 0 && wanted.contains(order[head - 1]) ==> ready_at(order, wanted) == head,
    decreases wanted.len(),
{
    if wanted.len() > 0 {
        let init = wanted.drop_last();
        let last = wanted.last();
        assert forall|w: usize| #[trigger] init.contains(w) implies order.take(head).contains(
            w,
        ) by {
            let i = choose|i: int| 0 <= i < init.len() && init[i] == w;
            assert(wanted[i] == w);
            assert(wanted.contains(w));
        }
        lemma_ready_at_bounds(order, init, head);
        assert(wanted[wanted.len() - 1] == last);
        assert(wanted.contains(last));
        lemma_index_of_take(order, head, last);
        assert forall|w: usize| #[trigger] wanted.contains(w) implies order.index_of(w) < ready_at(
            order,
            wanted,
        ) by {
            let i = choose|i: int| 0 <= i < wanted.len() && wanted[i] == w;
            if i < init.len() {
                assert(init[i] == w);
                assert(init.contains(w));
            }
        }
        if head > 0 && wanted.contains(order[head - 1]) {
            let u = order[head - 1];
            let k = order.index_of(u);
            assert(order[k] == u) by {
                assert(order[head - 1] == u);
            }
            assert(k == head - 1);
        }
    }
}

proof fn lemma_index_of_take(order: Seq<usize>, head: int, w: usize)
    requires
        order.no_duplicates(),
        0 <= head <= order.len(),
        order.take(head).contains(w),
    ensures
        0 <= order.index_of(w) < head,
        order[order.index_of(w)] == w,
{
    let i = choose|i: int| 0 <= i < head && order.take(head)[i] == w;
    assert(order[i] == w);
    let k = order.index_of(w);
    assert(0 <= k < order.len() && order[k] == w);
    assert(k == i);
}

/// What has found its place is not blocked.
proof fn lemma_placed_is_free(deps: Seq<Set<usize>>, order: Seq<usize>, p: int, s: Set<int>)
    requires
        forall|q: int|
            0 <= q < order.len() ==> #[trigger] complete(order, q, deps[order[q] as int]),
        0 <= p < order.len(),
        circular(deps, s),
    ensures
        !s.contains(order[p] as int),
    decreases p,
{
    if s.contains(order[p] as int) {
        assert(needs_some(deps, order[p] as int, s));
        let w = choose|w: int| s.contains(w) && #[trigger] needs(deps, order[p] as int, w);
        assert(complete(order, p, deps[order[p] as int]));
        assert(order.take(p).contains(w as usize));
        let q = choose|q: int| 0 <= q < p && order.take(p)[q] == w as usize;
        assert(order[q] == w as usize);
        lemma_placed_is_free(deps, order, q, s);
    }
}

/// The queue of those that are ready: `order`, of which `head` entries have
/// been taken. `count` tells how many are missing for those from `next` on
/// without the last one taken, and for the others with it.
spec fn queued(
    deps: Seq<Seq<usize>>,
    order: Seq<usize>,
    head: int,
    count: Seq<usize>,
    next: int,
) -> bool {
    &&& distinct_below(deps.len(), order)
    &&& 0 <= head <= order.len()
    &&& count.len() == deps.len()
    &&& forall|v: int|
        0 <= v < next ==> #[trigger] count[v] == missing(deps[v], order.take(head))
    &&& forall|v: int|
        next <= v < deps.len() ==> #[trigger] count[v] == missing(deps[v], order.take(head - 1))
    &&& forall|v: int|
        0 <= v < deps.len() ==> (#[trigger] count[v] == 0 <==> order.contains(v as usize))
    &&& forall|p: int, w: usize|
        0 <= p < order.len() && #[trigger] deps[order[p] as int].contains(w) ==> order.take(
            head,
        ).contains(w) && order.take(p).contains(w)
    &&& forall|p: int, q: int| 0 <= p < q < order.len() ==> #[trigger] ranked(deps, order, p, q)
    &&& next < deps.len() ==> forall|p: int|
        0 <= p < order.len() && #[trigger] order[p] >= next ==> ready_at(
            order,
            deps[order[p] as int],
        ) < head
}

/// Arrange numbers so that each comes after those that it depends on, given
/// for each number the list of those. If that is impossible, the result is
/// the list of the numbers that are blocked.
pub fn arrange(deps: &Vec<Vec<usize>>) -> (r: Result<Vec<usize>, Vec<usize>>)
    requires
        well_formed(lists(*deps)),
    ensures
        match r {
            Ok(order) => blocked_below(sets(lists(*deps)), deps.len() as int).len() == 0
                && arranges(sets(lists(*deps)), order@) && order@ == arrangement(
                sets(lists(*deps)),
            ),
            Err(stuck) => stuck.len() > 0 && stuck@ == blocked_below(
                sets(lists(*deps)),
                deps.len() as int,
            ),
        },
{
    let ghost all = lists(*deps);
    let n: usize = deps.len();
    let mut count: Vec<usize> = Vec::new();
    let mut order: Vec<usize> = Vec::new();
    let mut i: usize = 0;
    while i < n
        invariant
            n == deps.len(),
            all == lists(*deps),
            well_formed(all),
            i <= n,
            count.len() == i,
            forall|v: int| 0 <= v < i ==> #[trigger] count@[v] == all[v].len(),
            distinct_below(all.len(), order@),
            forall|p: int| 0 <= p < order.len() ==> (#[trigger] order@[p]) < i,
            forall|p: int, q: int| 0 <= p < q < order.len() ==> order@[p] < order@[q],
            forall|v: int|
                0 <= v < i ==> (#[trigger] count@[v] == 0 <==> order@.contains(v as usize)),
        decreases n - i,
    {
        let ghost before = order@;
        count.push(deps[i].len());
        if deps[i].len() == 0 {
            order.push(i);
            proof {
                assert(order@[before.len() as int] == i);
                assert forall|v: int| 0 <= v < i implies (before.contains(v as usize)
                    <==> #[trigger] order@.contains(v as usize)) by {
                    if before.contains(v as usize) {
                        let k = choose|k: int| 0 <= k < before.len() && before[k] == v as usize;
                        assert(order@[k] == v as usize);
                    }
                    if order@.contains(v as usize) {
                        let k = choose|k: int| 0 <= k < order@.len() && order@[k] == v as usize;
                        assert(before[k] == v as usize);
                    }
                }
            }
        } else {
            proof {
                if order@.contains(i) {
                    let k = choose|k: int| 0 <= k < order@.len() && order@[k] == i;
                    assert(order@[k] < i);
                }
            }
        }
        assert(all[i as int] == deps@[i as int]@);
        i = i + 1;
    }
    proof {
        assert(order@.take(0) =~= Seq::empty());
        assert forall|v: int| 0 <= v < n implies #[trigger] count@[v] == missing(
            all[v],
            order@.take(0),
        ) by {
            lemma_missing_of_none(all[v]);
        }
        assert forall|p: int| 0 <= p < order@.len() implies #[trigger] all[order@[p] as int]
            =~= Seq::empty() by {
            assert(order@.contains(order@[p]));
            assert(count@[order@[p] as int] == 0);
        }
        assert forall|p: int, q: int| 0 <= p < q < order@.len() implies #[trigger] ranked(
            all,
            order@,
            p,
            q,
        ) by {
            assert(all[order@[p] as int] =~= Seq::empty());
            assert(all[order@[q] as int] =~= Seq::empty());
        }
        assert(queued(all, order@, 0, count@, n as int));
    }
    let mut head: usize = 0;
    while head < order.len()
        invariant
            n == deps.len(),
            all == lists(*deps),
            well_formed(all),
            queued(all, order@, head as int, count@, n as int),
        decreases n - head,
    {
        proof {
            lemma_distinct_fit(all.len(), order@);
        }
        let u: usize = order[head];
        head = head + 1;
        proof {
            lemma_queue_advances(all, order@, head as int, count@);
        }
        let mut v: usize = 0;
        while v < n
            invariant
                n == deps.len(),
                all == lists(*deps),
                well_formed(all),
                0 < head <= order.len(),
                u == order@[head - 1],
                v <= n,
                queued(all, order@, head as int, count@, v as int),
            decreases n - v,
        {
            let ghost old_order = order@;
            let ghost old_count = count@;
            assert(all[v as int] == deps@[v as int]@);
            let wanted = holds(&deps[v], u);
            proof {
                lemma_count_step(all, order@, head as int, count@, v as int);
            }
            if wanted {
                let left: usize = count[v] - 1;
                count.set(v, left);
                if left == 0 {
                    order.push(v);
                    proof {
                        lemma_queue_pushed(all, old_order, head as int, old_count, v as int);
                    }
                } else {
                    proof {
                        lemma_queue_kept(all, old_order, head as int, old_count, count@, v as int);
                    }
                }
            } else {
                proof {
                    assert(count@ =~= old_count.update(v as int, count@[v as int]));
                    lemma_queue_kept(all, old_order, head as int, old_count, count@, v as int);
                }
            }
            v = v + 1;
        }
    }
    proof {
        lemma_distinct_fit(all.len(), order@);
        assert(order@.take(head as int) =~= order@);
        assert forall|p: int| 0 <= p < order@.len() implies #[trigger] complete(
            order@,
            p,
            sets(all)[order@[p] as int],
        ) by {
            assert forall|w: usize| #[trigger] sets(all)[order@[p] as int].contains(
                w,
            ) implies order@.take(p).contains(w) by {
                assert(all[order@[p] as int].contains(w));
            }
        }
        assert forall|p: int, q: int| 0 <= p < q < order@.len() implies #[trigger] sooner(
            sets(all),
            order@,
            p,
            q,
        ) by {
            assert(ranked(all, order@, p, q));
            lemma_ranked_sooner(all, order@, p, q);
        }
        assert forall|v: int| 0 <= v < n implies (order@.contains(v as usize)
            <==> !#[trigger] blocked(sets(all), v)) by {
            lemma_placed_iff_free(all, order@, count@, v);
        }
    }
    if order.len() == n {
        proof {
            assert forall|v: int| 0 <= v < deps.len() implies !#[trigger] blocked(sets(all), v) by {
                lemma_in_permutation(all.len(), order@, v as usize);
            }
            lemma_none_blocked(sets(all), n as int);
            assert(arranges(sets(all), order@));
            law_arrangement_unique(sets(all), order@, arrangement(sets(all)));
        }
        return Ok(order);
    }
    let mut stuck: Vec<usize> = Vec::new();
    let mut v: usize = 0;
    while v < n
        invariant
            n == deps.len(),
            all == lists(*deps),
            count.len() == n,
            v <= n,
            forall|x: int| 0 <= x < n ==> (#[trigger] count@[x] == 0 <==> !blocked(sets(all), x)),
            stuck@ == blocked_below(sets(all), v as int),
        decreases n - v,
    {
        if count[v] > 0 {
            stuck.push(v);
        }
        v = v + 1;
    }
    proof {
        lemma_someone_missing(all, order@);
        let x = choose|x: usize| x < n && !order@.contains(x);
        assert(count@[x as int] != 0);
        lemma_some_blocked(sets(all), n as int, x as int);
    }
    Err(stuck)
}

/// Where nothing is blocked, nothing is listed.
proof fn lemma_none_blocked(deps: Seq<Set<usize>>, n: int)
    requires
        forall|v: int| 0 <= v < n ==> !#[trigger] blocked(deps, v),
    ensures
        blocked_below(deps, n).len() == 0,
    decreases n,
{
    if n > 0 {
        lemma_none_blocked(deps, n - 1);
    }
}

/// Where something is blocked, something is listed.
proof fn lemma_some_blocked(deps: Seq<Set<usize>>, n: int, v: int)
    requires
        0 <= v < n,
        blocked(deps, v),
    ensures
        blocked_below(deps, n).len() > 0,
    decreases n,
{
    if v < n - 1 {
        lemma_some_blocked(deps, n - 1, v);
    }
}

/// The list holds the number.
pub fn holds(list: &Vec<usize>, u: usize) -> (r: bool)
    ensures
        r == list@.contains(u),
{
    let mut i: usize = 0;
    while i < list.len()
        invariant
            i <= list.len(),
            forall|k: int| 0 <= k < i ==> list@[k] != u,
        decreases list.len() - i,
    {
        if list[i] == u {
            assert(list@[i as int] == u);
            return true;
        }
        i = i + 1;
    }
    false
}

proof fn lemma_missing_of_none(wanted: Seq<usize>)
    ensures
        missing(wanted, Seq::empty()) == wanted.len(),
    decreases wanted.len(),
{
    if wanted.len() > 0 {
        lemma_missing_of_none(wanted.drop_last());
    }
}

/// There are no more distinct numbers than numbers.
proof fn lemma_distinct_fit(n: nat, order: Seq<usize>)
    requires
        distinct_below(n, order),
    ensures
        order.len() <= n,
{
    let ints = order.map_values(|u: usize| u as int);
    vstd::set_lib::lemma_int_range(0, n as int);
    assert(ints.no_duplicates()) by {
        assert forall|i: int, j: int| 0 <= i < ints.len() && 0 <= j < ints.len() && i != j implies
            ints[i] != ints[j] by {
            assert(order[i] != order[j]);
        }
    }
    ints.unique_seq_to_set();
    assert forall|x: int| ints.to_set().contains(x) implies vstd::set_lib::set_int_range(
        0,
        n as int,
    ).contains(x) by {
        let i = choose|i: int| 0 <= i < ints.len() && ints[i] == x;
        assert(order[i] < n);
    }
    vstd::set_lib::lemma_len_subset(
        ints.to_set(),
        vstd::set_lib::set_int_range(0, n as int),
    );
}

/// If there are fewer entries than numbers, a number has no place.
proof fn lemma_someone_missing(deps: Seq<Seq<usize>>, order: Seq<usize>)
    requires
        distinct_below(deps.len(), order),
        order.len() != deps.len(),
        deps.len() <= usize::MAX,
    ensures
        exists|x: usize| x < deps.len() && !order.contains(x),
{
    if forall|x: usize| x < deps.len() ==> order.contains(x) {
        let back = Seq::new(deps.len(), |x: int| order.index_of(x as usize) as usize);
        let n = order.len();
        lemma_distinct_fit(deps.len(), order);
        assert forall|x: int| 0 <= x < deps.len() implies 0 <= #[trigger] order.index_of(x as usize)
            < n && order[order.index_of(x as usize)] == x as usize by {
            assert(order.contains(x as usize));
            let j = choose|j: int| 0 <= j < order.len() && order[j] == x as usize;
            assert(order[j] == x as usize);
        }
        assert(distinct_below(n, back)) by {
            assert forall|x: int, y: int|
                0 <= x < back.len() && 0 <= y < back.len() && x != y implies back[x] != back[y] by {
                assert(order[order.index_of(x as usize)] == x as usize);
                assert(order[order.index_of(y as usize)] == y as usize);
            }
        }
        lemma_distinct_fit(n, back);
    }
}

/// Taking one more from the queue: nothing has been counted off for it yet.
proof fn lemma_queue_advances(
    deps: Seq<Seq<usize>>,
    order: Seq<usize>,
    head: int,
    count: Seq<usize>,
)
    requires
        well_formed(deps),
        0 < head <= order.len(),
        queued(deps, order, head - 1, count, deps.len() as int),
    ensures
        queued(deps, order, head, count, 0),
{
    assert forall|p: int, w: usize|
        0 <= p < order.len() && #[trigger] deps[order[p] as int].contains(w) implies order.take(
        head,
    ).contains(w) && order.take(p).contains(w) by {
        let done = order.take(head - 1);
        let k = choose|k: int| 0 <= k < done.len() && done[k] == w;
        assert(order.take(head)[k] == w);
    }
    assert forall|p: int| 0 <= p < order.len() && #[trigger] order[p] >= 0 implies ready_at(
        order,
        deps[order[p] as int],
    ) < head by {
        lemma_ready_at_bounds(order, deps[order[p] as int], head - 1);
    }
}

/// Counting off the one just taken, for `v`.
proof fn lemma_count_step(
    deps: Seq<Seq<usize>>,
    order: Seq<usize>,
    head: int,
    count: Seq<usize>,
    v: int,
)
    requires
        well_formed(deps),
        0 < head <= order.len(),
        0 <= v < deps.len(),
        queued(deps, order, head, count, v),
    ensures
        count[v] == missing(deps[v], order.take(head)) + if deps[v].contains(order[head - 1]) {
            1nat
        } else {
            0nat
        },
{
    let u = order[head - 1];
    let done = order.take(head - 1);
    assert(!done.contains(u)) by {
        if done.contains(u) {
            let k = choose|k: int| 0 <= k < done.len() && done[k] == u;
            assert(order[k] == order[head - 1]);
        }
    }
    assert(order.take(head) =~= done.push(u));
    assert(distinct_below(deps.len(), deps[v]));
    lemma_missing_step(deps[v], done, u);
}

/// `v` was counted and does not become ready.
proof fn lemma_queue_kept(
    deps: Seq<Seq<usize>>,
    order: Seq<usize>,
    head: int,
    count: Seq<usize>,
    new_count: Seq<usize>,
    v: int,
)
    requires
        well_formed(deps),
        deps.len() <= usize::MAX,
        0 < head <= order.len(),
        0 <= v < deps.len(),
        queued(deps, order, head, count, v),
        new_count == count.update(v, new_count[v]),
        new_count[v] == missing(deps[v], order.take(head)),
        new_count[v] == 0 <==> count[v] == 0,
    ensures
        queued(deps, order, head, new_count, v + 1),
{
    assert forall|x: int| 0 <= x < deps.len() implies (#[trigger] new_count[x] == 0
        <==> order.contains(x as usize)) by {
        assert(count[x] == 0 <==> order.contains(x as usize));
    }
    assert forall|x: int| 0 <= x < v + 1 implies #[trigger] new_count[x] == missing(
        deps[x],
        order.take(head),
    ) by {
        if x != v {
            assert(count[x] == new_count[x]);
        }
    }
    assert forall|x: int| v + 1 <= x < deps.len() implies #[trigger] new_count[x] == missing(
        deps[x],
        order.take(head - 1),
    ) by {
        assert(count[x] == new_count[x]);
    }
}

/// `v` was counted and becomes ready.
proof fn lemma_queue_pushed(
    deps: Seq<Seq<usize>>,
    order: Seq<usize>,
    head: int,
    count: Seq<usize>,
    v: int,
)
    requires
        well_formed(deps),
        deps.len() <= usize::MAX,
        0 < head <= order.len(),
        0 <= v < deps.len(),
        queued(deps, order, head, count, v),
        deps[v].contains(order[head - 1]),
        count[v] == 1,
        missing(deps[v], order.take(head)) == 0,
    ensures
        queued(deps, order.push(v as usize), head, count.update(v, 0), v + 1),
{
    let more = order.push(v as usize);
    let new_count = count.update(v, 0);
    assert(!order.contains(v as usize)) by {
        assert(count[v] != 0);
    }
    assert(more.take(head) =~= order.take(head));
    assert(more.take(head - 1) =~= order.take(head - 1));
    assert(distinct_below(deps.len(), more)) by {
        assert forall|i: int, j: int| 0 <= i < more.len() && 0 <= j < more.len() && i != j implies
            more[i] != more[j] by {
            if i < order.len() {
                assert(order.contains(order[i]));
            }
            if j < order.len() {
                assert(order.contains(order[j]));
            }
        }
    }
    assert forall|x: int| 0 <= x < deps.len() implies (#[trigger] new_count[x] == 0
        <==> more.contains(x as usize)) by {
        assert(count[x] == 0 <==> order.contains(x as usize));
        if x == v {
            assert(more[order.len() as int] == v as usize);
        } else {
            assert(count[x] == new_count[x]);
            if order.contains(x as usize) {
                let k = choose|k: int| 0 <= k < order.len() && order[k] == x as usize;
                assert(more[k] == x as usize);
            }
            if more.contains(x as usize) {
                let k = choose|k: int| 0 <= k < more.len() && more[k] == x as usize;
                assert(order[k] == x as usize);
            }
        }
    }
    assert forall|x: int| 0 <= x < v + 1 implies #[trigger] new_count[x] == missing(
        deps[x],
        more.take(head),
    ) by {
        if x != v {
            assert(count[x] == new_count[x]);
        }
    }
    assert forall|x: int| v + 1 <= x < deps.len() implies #[trigger] new_count[x] == missing(
        deps[x],
        more.take(head - 1),
    ) by {
        assert(count[x] == new_count[x]);
    }
    lemma_missing_bound(deps[v], order.take(head));
    assert forall|p: int, w: usize|
        0 <= p < more.len() && #[trigger] deps[more[p] as int].contains(w) implies more.take(
        head,
    ).contains(w) && more.take(p).contains(w) by {
        if p < order.len() {
            assert(deps[order[p] as int].contains(w));
            assert(more.take(p) =~= order.take(p));
        } else {
            assert(more.take(p) =~= order);
            let k = choose|k: int| 0 <= k < head && order.take(head)[k] == w;
            assert(order[k] == w);
        }
    }
    // What was there before is complete at the same point as before.
    assert forall|p: int| 0 <= p < order.len() implies ready_at(
        more,
        deps[#[trigger] order[p] as int],
    ) == ready_at(order, deps[order[p] as int]) by {
        assert forall|w: usize| #[trigger] deps[order[p] as int].contains(
            w,
        ) implies order.contains(w) by {
            let k = choose|k: int| 0 <= k < head && order.take(head)[k] == w;
            assert(order[k] == w);
        }
        lemma_ready_at_push(order, deps[order[p] as int], v as usize);
    }
    // `v` is complete exactly now.
    assert(more[head - 1] == order[head - 1]);
    lemma_ready_at_bounds(more, deps[v], head);
    assert forall|p: int| 0 <= p < order.len() implies ready_at(
        order,
        deps[#[trigger] order[p] as int],
    ) <= head && (order[p] >= v ==> ready_at(order, deps[order[p] as int]) < head) by {
        lemma_ready_at_bounds(order, deps[order[p] as int], head);
    }
    assert forall|p: int, q: int| 0 <= p < q < more.len() implies #[trigger] ranked(
        deps,
        more,
        p,
        q,
    ) by {
        assert(more[p] == order[p]);
        if q < order.len() {
            assert(more[q] == order[q]);
            assert(ranked(deps, order, p, q));
        }
    }
    if v + 1 < deps.len() {
        assert forall|p: int| 0 <= p < more.len() && #[trigger] more[p] >= v + 1 implies ready_at(
            more,
            deps[more[p] as int],
        ) < head by {
            assert(more[p] == order[p]);
        }
    }
}

/// When the queue is empty, just those that are not blocked have a place.
proof fn lemma_placed_iff_free(
    deps: Seq<Seq<usize>>,
    order: Seq<usize>,
    count: Seq<usize>,
    v: int,
)
    requires
        well_formed(deps),
        deps.len() <= usize::MAX,
        0 <= v < deps.len(),
        queued(deps, order, order.len() as int, count, deps.len() as int),
    ensures
        order.contains(v as usize) <==> !blocked(sets(deps), v),
{
    assert(order.take(order.len() as int) =~= order);
    if order.contains(v as usize) {
        let p = choose|p: int| 0 <= p < order.len() && order[p] == v as usize;
        assert forall|q: int| 0 <= q < order.len() implies #[trigger] complete(
            order,
            q,
            sets(deps)[order[q] as int],
        ) by {
            assert forall|w: usize| #[trigger] sets(deps)[order[q] as int].contains(
                w,
            ) implies order.take(q).contains(w) by {
                assert(deps[order[q] as int].contains(w));
            }
        }
        if blocked(sets(deps), v) {
            let s = choose|s: Set<int>| #[trigger] s.contains(v) && circular(sets(deps), s);
            lemma_placed_is_free(sets(deps), order, p, s);
        }
    } else {
        let s = Set::new(|x: int| 0 <= x < deps.len() && !order.contains(x as usize));
        assert(circular(sets(deps), s)) by {
            assert forall|x: int| s.contains(x) implies #[trigger] needs_some(sets(deps), x, s) by {
                assert(count[x] != 0);
                lemma_missing_bound(deps[x], order);
                let w = choose|w: usize| #[trigger] deps[x].contains(w) && !order.contains(w);
                let i = choose|i: int| 0 <= i < deps[x].len() && deps[x][i] == w;
                assert(distinct_below(deps.len(), deps[x]));
                assert(deps[x][i] < deps.len());
                assert(s.contains(w as int));
                assert(needs(sets(deps), x, w as int));
            }
        }
        assert(s.contains(v));
    }
}

/// An arrangement holds every number.
proof fn lemma_in_permutation(n: nat, order: Seq<usize>, v: usize)
    requires
        order.len() == n,
        distinct_below(n, order),
        v < n,
    ensures
        order.contains(v),
        0 <= order.index_of(v) < order.len(),
        order[order.index_of(v)] == v,
{
    let ints = order.map_values(|u: usize| u as int);
    vstd::set_lib::lemma_int_range(0, n as int);
    assert(ints.no_duplicates()) by {
        assert forall|i: int, j: int| 0 <= i < ints.len() && 0 <= j < ints.len() && i != j implies
            ints[i] != ints[j] by {
            assert(order[i] != order[j]);
        }
    }
    ints.unique_seq_to_set();
    assert(ints.to_set().subset_of(vstd::set_lib::set_int_range(0, n as int))) by {
        assert forall|x: int| ints.to_set().contains(x) implies vstd::set_lib::set_int_range(
            0,
            n as int,
        ).contains(x) by {
            let i = choose|i: int| 0 <= i < ints.len() && ints[i] == x;
            assert(order[i] < n);
        }
    }
    vstd::set_lib::lemma_subset_equality(
        ints.to_set(),
        vstd::set_lib::set_int_range(0, n as int),
    );
    assert(ints.to_set().contains(v as int));
    let i = choose|i: int| 0 <= i < ints.len() && ints[i] == v as int;
    assert(order[i] == v);
}

/// A list is complete exactly from the point on where it is ready.
proof fn lemma_ready_at_complete(order: Seq<usize>, wanted: Seq<usize>, k: int)
    requires
        order.no_duplicates(),
        0 <= k <= order.len(),
        forall|w: usize| #[trigger] wanted.contains(w) ==> order.contains(w),
    ensures
        complete(order, k, wanted.to_set()) <==> ready_at(order, wanted) <= k,
{
    let n = order.len() as int;
    assert(order.take(n) =~= order);
    lemma_ready_at_bounds(order, wanted, n);
    if complete(order, k, wanted.to_set()) {
        assert forall|w: usize| #[trigger] wanted.contains(w) implies order.take(k).contains(w) by {
            assert(wanted.to_set().contains(w));
        }
        lemma_ready_at_bounds(order, wanted, k);
    }
    if ready_at(order, wanted) <= k {
        assert forall|w: usize| #[trigger] wanted.to_set().contains(w) implies order.take(
            k,
        ).contains(w) by {
            assert(wanted.contains(w));
            lemma_index_of_take(order, n, w);
            assert(order.take(k)[order.index_of(w)] == w);
        }
    }
}

/// What is ranked before goes sooner.
proof fn lemma_ranked_sooner(deps: Seq<Seq<usize>>, order: Seq<usize>, p: int, q: int)
    requires
        distinct_below(deps.len(), order),
        0 <= p < order.len(),
        0 <= q < order.len(),
        forall|i: int, w: usize|
            0 <= i < order.len() && #[trigger] deps[order[i] as int].contains(w)
                ==> order.contains(w),
        ranked(deps, order, p, q),
    ensures
        sooner(sets(deps), order, p, q),
{
    let a = deps[order[p] as int];
    let b = deps[order[q] as int];
    let n = order.len() as int;
    assert(order.take(n) =~= order);
    assert(sets(deps)[order[p] as int] == a.to_set());
    assert(sets(deps)[order[q] as int] == b.to_set());
    lemma_ready_at_bounds(order, a, n);
    assert forall|k: int| 0 <= k <= n implies (#[trigger] complete(order, k, a.to_set())
        <==> ready_at(order, a) <= k) by {
        lemma_ready_at_complete(order, a, k);
    }
    assert forall|k: int| 0 <= k <= n implies (#[trigger] complete(order, k, b.to_set())
        <==> ready_at(order, b) <= k) by {
        lemma_ready_at_complete(order, b, k);
    }
    if ready_at(order, a) < ready_at(order, b) {
        let k = ready_at(order, a);
        assert(complete(order, k, sets(deps)[order[p] as int]));
        assert(!complete(order, k, sets(deps)[order[q] as int]));
    }
}

/// There is at most one arrangement.
pub proof fn law_arrangement_unique(deps: Seq<Set<usize>>, a: Seq<usize>, b: Seq<usize>)
    requires
        arranges(deps, a),
        arranges(deps, b),
    ensures
        a == b,
{
    lemma_arrangements_agree(deps, a, b, a.len() as int);
    assert(a.take(a.len() as int) =~= a);
    assert(b.take(a.len() as int) =~= b);
}

proof fn lemma_arrangements_agree(deps: Seq<Set<usize>>, a: Seq<usize>, b: Seq<usize>, n: int)
    requires
        arranges(deps, a),
        arranges(deps, b),
        0 <= n <= a.len(),
    ensures
        a.take(n) == b.take(n),
    decreases n,
{
    if n > 0 {
        let p = n - 1;
        lemma_arrangements_agree(deps, a, b, p);
        if a[p] != b[p] {
            lemma_in_permutation(deps.len(), a, b[p]);
            lemma_in_permutation(deps.len(), b, a[p]);
            let i = a.index_of(b[p]);
            let j = b.index_of(a[p]);
            if i < p {
                assert(a.take(p)[i] == b.take(p)[i]);
                assert(b[i] == b[p]);
            }
            if j < p {
                assert(a.take(p)[j] == b.take(p)[j]);
                assert(a[j] == a[p]);
            }
            assert(sooner(deps, a, p, i));
            assert(sooner(deps, b, p, j));
            let x = deps[a[p] as int];
            let y = deps[b[p] as int];
            assert(complete(a, p, x));
            assert(complete(b, p, y));
            assert forall|k: int| 0 <= k <= a.len() implies (#[trigger] complete(a, k, x)
                <==> complete(b, k, x)) && (complete(a, k, y) <==> complete(b, k, y)) by {
                lemma_complete_common(a, b, p, k, x);
                lemma_complete_common(b, a, p, k, y);
            }
            assert forall|k: int| 0 <= k <= a.len() implies (#[trigger] complete(a, k, y)
                <==> complete(b, k, y)) by {
                lemma_complete_common(b, a, p, k, y);
            }
            assert forall|k: int| 0 <= k <= a.len() implies (#[trigger] complete(b, k, x)
                <==> complete(a, k, x)) by {
                lemma_complete_common(a, b, p, k, x);
            }
            assert forall|k: int| 0 <= k <= a.len() implies (#[trigger] complete(b, k, y)
                <==> complete(a, k, y)) by {
                lemma_complete_common(b, a, p, k, y);
            }
            lemma_no_cross(a, x, y);
        }
        assert(a.take(n) =~= a.take(p).push(a[p]));
        assert(b.take(n) =~= b.take(p).push(b[p]));
    }
}

/// Of two sets, each cannot be complete before the other.
proof fn lemma_no_cross(a: Seq<usize>, x: Set<usize>, y: Set<usize>)
    ensures
        forall|k: int, l: int|
            0 <= k <= a.len() && 0 <= l <= a.len() && #[trigger] complete(a, k, x) && !complete(
                a,
                k,
                y,
            ) && #[trigger] complete(a, l, y) ==> complete(a, l, x),
{
    assert forall|k: int, l: int|
        0 <= k <= a.len() && 0 <= l <= a.len() && #[trigger] complete(a, k, x) && !complete(
            a,
            k,
            y,
        ) && #[trigger] complete(a, l, y) implies complete(a, l, x) by {
        if l <= k {
            lemma_complete_grows(a, l, k, y);
        } else {
            lemma_complete_grows(a, k, l, x);
        }
    }
}

/// Everything that is depended on is there.
pub open spec fn closed_below(deps: Seq<Set<usize>>) -> bool {
    forall|v: int, w: usize|
        0 <= v < deps.len() && #[trigger] deps[v].contains(w) ==> w < deps.len()
}

/// There is an arrangement exactly where nothing is blocked.
pub proof fn law_arrangement_exists(deps: Seq<Set<usize>>)
    requires
        deps.len() <= usize::MAX,
        closed_below(deps),
    ensures
        blocked_below(deps, deps.len() as int).len() == 0 <==> exists|order: Seq<usize>|
            arranges(deps, order),
        blocked_below(deps, deps.len() as int).len() == 0 ==> arranges(deps, arrangement(deps)),
{
    if blocked_below(deps, deps.len() as int).len() == 0 {
        let order = lemma_built_up(deps, Seq::empty());
        assert(arranges(deps, order));
    }
    if exists|order: Seq<usize>| arranges(deps, order) {
        let order = choose|order: Seq<usize>| arranges(deps, order);
        assert forall|v: int| 0 <= v < deps.len() implies !#[trigger] blocked(deps, v) by {
            if blocked(deps, v) {
                let s = choose|s: Set<int>| #[trigger] s.contains(v) && circular(deps, s);
                lemma_in_permutation(deps.len(), order, v as usize);
                lemma_placed_is_free(deps, order, order.index_of(v as usize), s);
            }
        }
        lemma_none_blocked(deps, deps.len() as int);
    }
}

/// From where on `wanted` is complete, at `k` or later.
spec fn complete_from(order: Seq<usize>, wanted: Set<usize>, k: int) -> int
    decreases order.len() - k,
{
    if k >= order.len() || complete(order, k, wanted) {
        k
    } else {
        complete_from(order, wanted, k + 1)
    }
}

/// How many entries of `order` it takes until `wanted` is complete.
spec fn point(order: Seq<usize>, wanted: Set<usize>) -> int {
    complete_from(order, wanted, 0)
}

proof fn lemma_complete_from(order: Seq<usize>, wanted: Set<usize>, k: int)
    requires
        0 <= k <= order.len(),
    ensures
        k <= complete_from(order, wanted, k) <= order.len(),
        forall|l: int|
            k <= l < complete_from(order, wanted, k) ==> !#[trigger] complete(order, l, wanted),
        complete_from(order, wanted, k) < order.len() ==> complete(
            order,
            complete_from(order, wanted, k),
            wanted,
        ),
    decreases order.len() - k,
{
    if k < order.len() && !complete(order, k, wanted) {
        lemma_complete_from(order, wanted, k + 1);
    }
}

/// What is complete in the end is complete exactly from its point on.
proof fn lemma_point(order: Seq<usize>, wanted: Set<usize>)
    requires
        complete(order, order.len() as int, wanted),
    ensures
        0 <= point(order, wanted) <= order.len(),
        forall|k: int|
            0 <= k <= order.len() ==> (#[trigger] complete(order, k, wanted) <==> point(
                order,
                wanted,
            ) <= k),
{
    lemma_complete_from(order, wanted, 0);
    let p = point(order, wanted);
    assert forall|k: int| 0 <= k <= order.len() implies (#[trigger] complete(order, k, wanted)
        <==> p <= k) by {
        if p <= k {
            lemma_complete_grows(order, p, k, wanted);
        }
    }
}

/// One more entry changes nothing in what is complete already.
proof fn lemma_point_push(order: Seq<usize>, v: usize, wanted: Set<usize>)
    requires
        complete(order.push(v), (order.len() + 1) as int, wanted),
    ensures
        complete(order, order.len() as int, wanted) ==> point(order.push(v), wanted) == point(
            order,
            wanted,
        ),
        !complete(order, order.len() as int, wanted) ==> point(order.push(v), wanted)
            == order.len() + 1,
{
    let longer = order.push(v);
    assert forall|k: int| 0 <= k <= order.len() implies (#[trigger] complete(longer, k, wanted)
        <==> complete(order, k, wanted)) by {
        assert(longer.take(k) =~= order.take(k));
    }
    lemma_point(longer, wanted);
    if complete(order, order.len() as int, wanted) {
        lemma_point(order, wanted);
        let p = point(order, wanted);
        assert(complete(order, p, wanted));
        assert(complete(longer, p, wanted));
        if point(longer, wanted) < p {
            assert(complete(longer, point(longer, wanted), wanted));
            assert(complete(order, point(longer, wanted), wanted));
        }
    } else if point(longer, wanted) <= order.len() {
        let q = point(longer, wanted);
        assert(complete(longer, q, wanted));
        assert(complete(order, q, wanted));
        lemma_complete_grows(order, q, order.len() as int, wanted);
    }
}

/// `v` is to come before `w`.
spec fn earlier(deps: Seq<Set<usize>>, order: Seq<usize>, v: int, w: int) -> bool {
    let a = point(order, deps[v]);
    let b = point(order, deps[w]);
    a < b || (a == b && v < w)
}

/// `v` can be the next entry.
spec fn can_follow(deps: Seq<Set<usize>>, order: Seq<usize>, v: int) -> bool {
    &&& 0 <= v < deps.len()
    &&& !order.contains(v as usize)
    &&& complete(order, order.len() as int, deps[v])
}

/// The beginning of an arrangement: what can follow is to come later than what
/// is there.
spec fn begins(deps: Seq<Set<usize>>, order: Seq<usize>) -> bool {
    &&& distinct_below(deps.len(), order)
    &&& forall|p: int|
        0 <= p < order.len() ==> #[trigger] complete(order, p, deps[order[p] as int])
    &&& forall|p: int, q: int|
        0 <= p < q < order.len() ==> earlier(
            deps,
            order,
            #[trigger] order[p] as int,
            #[trigger] order[q] as int,
        )
    &&& forall|p: int, v: int|
        0 <= p < order.len() && #[trigger] can_follow(deps, order, v) ==> earlier(
            deps,
            order,
            #[trigger] order[p] as int,
            v,
        )
}

/// Of the numbers below `n` that can follow, the one that is to come first.
proof fn lemma_first_to_follow(deps: Seq<Set<usize>>, order: Seq<usize>, n: int) -> (r: Option<int>)
    requires
        0 <= n <= deps.len(),
    ensures
        match r {
            Some(v) => 0 <= v < n && can_follow(deps, order, v) && forall|w: int|
                0 <= w < n && w != v && #[trigger] can_follow(deps, order, w) ==> earlier(
                    deps,
                    order,
                    v,
                    w,
                ),
            None => forall|w: int| 0 <= w < n ==> !#[trigger] can_follow(deps, order, w),
        },
    decreases n,
{
    if n == 0 {
        None
    } else {
        let before = lemma_first_to_follow(deps, order, n - 1);
        let v = n - 1;
        if !can_follow(deps, order, v) {
            before
        } else {
            match before {
                None => Some(v),
                Some(u) => if earlier(deps, order, u, v) {
                    Some(u)
                } else {
                    Some(v)
                },
            }
        }
    }
}

/// Where nothing is blocked and not all is placed, something can follow.
proof fn lemma_something_follows(deps: Seq<Set<usize>>, order: Seq<usize>)
    requires
        deps.len() <= usize::MAX,
        closed_below(deps),
        distinct_below(deps.len(), order),
        order.len() < deps.len(),
        blocked_below(deps, deps.len() as int).len() == 0,
    ensures
        exists|v: int| can_follow(deps, order, v),
{
    let left = Set::new(|v: int| 0 <= v < deps.len() && !order.contains(v as usize));
    if forall|v: int| !can_follow(deps, order, v) {
        assert forall|v: int| left.contains(v) implies #[trigger] needs_some(deps, v, left) by {
            assert(!can_follow(deps, order, v));
            let w = choose|w: usize| #[trigger]
                deps[v].contains(w) && !order.take(order.len() as int).contains(w);
            assert(order.take(order.len() as int) =~= order);
            assert(left.contains(w as int));
            assert(needs(deps, v, w as int));
        }
        assert(circular(deps, left));
        let v = lemma_one_left(deps.len(), order);
        assert(left.contains(v));
        assert(blocked(deps, v));
        lemma_some_blocked(deps, deps.len() as int, v);
    }
}

/// A list that is too short lacks a number.
proof fn lemma_one_left(n: nat, order: Seq<usize>) -> (v: int)
    requires
        n <= usize::MAX,
        distinct_below(n, order),
        order.len() < n,
    ensures
        0 <= v < n,
        !order.contains(v as usize),
{
    if forall|v: int| 0 <= v < n ==> #[trigger] order.contains(v as usize) {
        let ints = order.map_values(|u: usize| u as int);
        vstd::set_lib::lemma_int_range(0, n as int);
        let all = vstd::set_lib::set_int_range(0, n as int);
        assert(all.subset_of(ints.to_set())) by {
            assert forall|x: int| all.contains(x) implies ints.to_set().contains(x) by {
                assert(order.contains(x as usize));
                let i = choose|i: int| 0 <= i < order.len() && order[i] == x as usize;
                assert(ints[i] == x);
            }
        }
        ints.lemma_cardinality_of_set();
        vstd::set_lib::lemma_len_subset(all, ints.to_set());
    }
    choose|v: int| 0 <= v < n && !#[trigger] order.contains(v as usize)
}

proof fn lemma_begins_push(deps: Seq<Set<usize>>, order: Seq<usize>, v: int)
    requires
        deps.len() <= usize::MAX,
        begins(deps, order),
        can_follow(deps, order, v),
        forall|w: int|
            w != v && #[trigger] can_follow(deps, order, w) ==> earlier(deps, order, v, w),
    ensures
        begins(deps, order.push(v as usize)),
{
    let longer = order.push(v as usize);
    let n = order.len() as int;
    assert(longer.no_duplicates()) by {
        assert forall|i: int, j: int| 0 <= i < j < longer.len() implies longer[i] != longer[j] by {
            if j == n {
                assert(order.contains(order[i]));
            } else {
                assert(order[i] != order[j]);
            }
        }
    }
    assert forall|p: int| 0 <= p < longer.len() implies (#[trigger] longer[p]) < deps.len() by {
        if p < n {
            assert(order[p] < deps.len());
        }
    }
    assert forall|p: int| 0 <= p < longer.len() implies #[trigger] complete(
        longer,
        p,
        deps[longer[p] as int],
    ) by {
        if p < n {
            assert(complete(order, p, deps[order[p] as int]));
        }
        assert(longer.take(p) =~= order.take(p));
    }
    // The points of what is placed are those that they were.
    assert forall|p: int| 0 <= p < longer.len() implies point(
        longer,
        deps[#[trigger] longer[p] as int],
    ) == point(order, deps[longer[p] as int]) && point(order, deps[longer[p] as int]) <= n by {
        let x = deps[longer[p] as int];
        assert(complete(longer, p, x));
        assert(longer.take(p) =~= order.take(p));
        assert(complete(order, p, x));
        lemma_complete_grows(order, p, n, x);
        lemma_complete_grows(longer, p, n + 1, x);
        lemma_point_push(order, v as usize, x);
        lemma_point(order, x);
    }
    assert forall|p: int, q: int| 0 <= p < q < longer.len() implies earlier(
        deps,
        longer,
        #[trigger] longer[p] as int,
        #[trigger] longer[q] as int,
    ) by {
        assert(longer[p] == order[p]);
        if q < n {
            assert(longer[q] == order[q]);
            assert(earlier(deps, order, order[p] as int, order[q] as int));
        } else {
            assert(earlier(deps, order, order[p] as int, v));
        }
    }
    assert forall|p: int, w: int|
        0 <= p < longer.len() && #[trigger] can_follow(deps, longer, w) implies earlier(
        deps,
        longer,
        #[trigger] longer[p] as int,
        w,
    ) by {
        lemma_point_push(order, v as usize, deps[w]);
        assert(!order.contains(w as usize)) by {
            if order.contains(w as usize) {
                let i = choose|i: int| 0 <= i < order.len() && order[i] == w as usize;
                assert(longer[i] == w as usize);
            }
        }
        assert(longer[n] == v as usize);
        assert(w != v);
        if complete(order, n, deps[w]) {
            assert(can_follow(deps, order, w));
            if p < n {
                assert(earlier(deps, order, order[p] as int, w));
            } else {
                assert(earlier(deps, order, v, w));
            }
        }
    }
}

/// The beginning of an arrangement goes on to a whole one.
proof fn lemma_built_up(deps: Seq<Set<usize>>, order: Seq<usize>) -> (r: Seq<usize>)
    requires
        deps.len() <= usize::MAX,
        closed_below(deps),
        blocked_below(deps, deps.len() as int).len() == 0,
        begins(deps, order),
    ensures
        arranges(deps, r),
    decreases deps.len() - order.len(),
{
    if order.len() < deps.len() {
        lemma_something_follows(deps, order);
        let first = lemma_first_to_follow(deps, order, deps.len() as int);
        let some = choose|v: int| can_follow(deps, order, v);
        assert(can_follow(deps, order, some));
        let v = first->0;
        lemma_begins_push(deps, order, v);
        lemma_built_up(deps, order.push(v as usize))
    } else {
        lemma_not_longer(deps.len(), order);
        let n = order.len() as int;
        assert forall|p: int, q: int| 0 <= p < q < order.len() implies #[trigger] sooner(
            deps,
            order,
            p,
            q,
        ) by {
            let a = deps[order[p] as int];
            let b = deps[order[q] as int];
            assert(complete(order, p, a));
            assert(complete(order, q, b));
            lemma_complete_grows(order, p, n, a);
            lemma_complete_grows(order, q, n, b);
            lemma_point(order, a);
            lemma_point(order, b);
            assert(earlier(deps, order, order[p] as int, order[q] as int));
            if point(order, a) < point(order, b) {
                let k = point(order, a);
                assert(complete(order, k, a));
                assert(!complete(order, k, b));
            }
        }
        order
    }
}

/// A list of different numbers below `n` is not longer than that.
proof fn lemma_not_longer(n: nat, order: Seq<usize>)
    requires
        distinct_below(n, order),
    ensures
        order.len() <= n,
{
    let ints = order.map_values(|u: usize| u as int);
    vstd::set_lib::lemma_int_range(0, n as int);
    assert(ints.no_duplicates()) by {
        assert forall|i: int, j: int| 0 <= i < ints.len() && 0 <= j < ints.len() && i != j implies
            ints[i] != ints[j] by {
            assert(order[i] != order[j]);
        }
    }
    ints.unique_seq_to_set();
    assert(ints.to_set().subset_of(vstd::set_lib::set_int_range(0, n as int))) by {
        assert forall|x: int| ints.to_set().contains(x) implies vstd::set_lib::set_int_range(
            0,
            n as int,
        ).contains(x) by {
            let i = choose|i: int| 0 <= i < ints.len() && ints[i] == x;
            assert(order[i] < n);
        }
    }
    vstd::set_lib::lemma_len_subset(ints.to_set(), vstd::set_lib::set_int_range(0, n as int));
}

/// What is complete stays complete.
proof fn lemma_complete_grows(a: Seq<usize>, k: int, l: int, x: Set<usize>)
    requires
        0 <= k <= l <= a.len(),
        complete(a, k, x),
    ensures
        complete(a, l, x),
{
    assert forall|w: usize| #[trigger] x.contains(w) implies a.take(l).contains(w) by {
        let i = choose|i: int| 0 <= i < k && a.take(k)[i] == w;
        assert(a.take(l)[i] == w);
    }
}

/// What is complete within a common beginning is complete at the same points.
proof fn lemma_complete_common(a: Seq<usize>, b: Seq<usize>, p: int, k: int, x: Set<usize>)
    requires
        a.len() == b.len(),
        0 <= p <= a.len(),
        0 <= k <= a.len(),
        a.take(p) == b.take(p),
        complete(a, p, x),
    ensures
        complete(a, k, x) <==> complete(b, k, x),
{
    assert(complete(b, p, x));
    if p <= k {
        lemma_complete_grows(a, p, k, x);
        lemma_complete_grows(b, p, k, x);
    } else {
        assert(a.take(k) =~= a.take(p).take(k));
        assert(b.take(k) =~= b.take(p).take(k));
    }
}

} // verus!
