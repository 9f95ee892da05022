//! Deferred acceptance: one side proposes in the order of its lists, the other
//! side accepts for the time being and trades up when a better proposer comes.

use vstd::prelude::*;
use crate::entry::{Entry, Side};
use crate::error::MatchError;
use crate::matching::{
    acceptable, best_for, blocks, covers, is_perfect, lemma_best_is_unique, lemma_complete_ranks,
    lemma_complete_ranks_known, lemma_pair_of, lemma_pair_of_members, lemma_mutual_wish_blocks,
    lemma_position_is_rank, lemma_rank_is_position, lemma_ranks_differ, pair_of, stable_matching,
    unblocked,
};
use crate::pairings::{find, would_switch, Pairing, Pairings};
use crate::preferences::{as_entries, is_ranking, ranks_all, Preferences, PreferencesView};
use crate::stability::{blocking_ensures, is_stable, lemma_check_repeats};

verus! {

/// Member `p` of the proposing side.
pub open spec fn suitor(sd: Side, p: u32) -> Entry {
    Entry::new(sd, p)
}

/// Member `a` of the accepting side.
pub open spec fn host(sd: Side, a: u32) -> Entry {
    Entry::new(sd.opposite(), a)
}

/// Whether some acceptor holds proposer `p`.
spec fn is_held(held: Seq<Option<u32>>, p: u32) -> bool {
    exists|a: int| 0 <= a < held.len() && #[trigger] held[a] == Some(p)
}

/// The number of acceptors below `upto` that hold no one.
spec fn count_open(held: Seq<Option<u32>>, upto: nat) -> nat
    decreases upto,
{
    if upto == 0 {
        0
    } else {
        count_open(held, (upto - 1) as nat) + if held[upto - 1].is_none() {
            1nat
        } else {
            0nat
        }
    }
}

/// How the count changes where one acceptor takes a proposer or changes it.
proof fn lemma_count_open_update(held: Seq<Option<u32>>, a: int, v: Option<u32>, upto: nat)
    requires
        0 <= a < held.len(),
        upto <= held.len(),
    ensures
        a >= upto ==> count_open(held.update(a, v), upto) == count_open(held, upto),
        a < upto && v.is_none() == held[a].is_none() ==> count_open(held.update(a, v), upto)
            == count_open(held, upto),
        a < upto && v.is_some() && held[a].is_none() ==> count_open(held.update(a, v), upto) + 1
            == count_open(held, upto),
    decreases upto,
{
    if upto > 0 {
        lemma_count_open_update(held, a, v, (upto - 1) as nat);
    }
}

/// Where no acceptor holds anyone, all are counted.
proof fn lemma_count_open_none(held: Seq<Option<u32>>, upto: nat)
    requires
        upto <= held.len(),
        forall|a: int| 0 <= a < upto ==> (#[trigger] held[a]).is_none(),
    ensures
        count_open(held, upto) == upto,
    decreases upto,
{
    if upto > 0 {
        lemma_count_open_none(held, (upto - 1) as nat);
    }
}

/// Where the count is zero, every acceptor holds someone.
proof fn lemma_count_open_zero(held: Seq<Option<u32>>, upto: nat)
    requires
        upto <= held.len(),
        count_open(held, upto) == 0,
    ensures
        forall|a: int| 0 <= a < upto ==> (#[trigger] held[a]).is_some(),
    decreases upto,
{
    if upto > 0 {
        lemma_count_open_zero(held, (upto - 1) as nat);
    }
}

/// Where the count is not zero, some acceptor holds no one.
proof fn lemma_count_open_some(held: Seq<Option<u32>>, upto: nat)
    requires
        upto <= held.len(),
        count_open(held, upto) > 0,
    ensures
        exists|a: int| 0 <= a < upto && (#[trigger] held[a]).is_none(),
    decreases upto,
{
    if upto > 0 {
        if held[upto - 1].is_none() {
        } else {
            lemma_count_open_some(held, (upto - 1) as nat);
        }
    }
}

/// Above every rank.
pub closed spec fn limit() -> nat {
    0x1_0000_0000
}

/// What acceptor `a` still has to gain: more than any rank while it holds no
/// one, else the rank of the proposer it holds.
pub closed spec fn cost(prefs: PreferencesView, sd: Side, a: int, h: Option<u32>) -> nat {
    match h {
        None => limit() + 1,
        Some(p) => if prefs.ranks(host(sd, a as u32), suitor(sd, p)) {
            prefs.rank(host(sd, a as u32), suitor(sd, p)) as nat
        } else {
            limit()
        },
    }
}

/// The sum of the costs of the acceptors below `upto`.
pub closed spec fn total_cost(prefs: PreferencesView, sd: Side, held: Seq<Option<u32>>, upto: nat) -> nat
    decreases upto,
{
    if upto == 0 {
        0
    } else {
        total_cost(prefs, sd, held, (upto - 1) as nat) + cost(prefs, sd, upto - 1, held[upto - 1])
    }
}

/// The sum falls where the cost of one acceptor falls.
proof fn lemma_total_cost_update(
    prefs: PreferencesView,
    sd: Side,
    held: Seq<Option<u32>>,
    a: int,
    v: Option<u32>,
    upto: nat,
)
    requires
        0 <= a < held.len(),
        upto <= held.len(),
        cost(prefs, sd, a, v) < cost(prefs, sd, a, held[a]),
    ensures
        a >= upto ==> total_cost(prefs, sd, held.update(a, v), upto) == total_cost(
            prefs,
            sd,
            held,
            upto,
        ),
        a < upto ==> total_cost(prefs, sd, held.update(a, v), upto) < total_cost(
            prefs,
            sd,
            held,
            upto,
        ),
    decreases upto,
{
    if upto > 0 {
        lemma_total_cost_update(prefs, sd, held, a, v, (upto - 1) as nat);
    }
}

/// The pairings and the proposers that the acceptors hold say the same, and
/// no proposer is held twice.
spec fn consistent(
    sd: Side,
    n: nat,
    m: Set<Pairing>,
    held: Seq<Option<u32>>,
    open: Seq<bool>,
) -> bool {
    &&& held.len() == n
    &&& open.len() == n
    &&& forall|a: int| 0 <= a < n ==> #[trigger] open[a] == held[a].is_none()
    &&& forall|a: int|
        0 <= a < n && (#[trigger] held[a]).is_some() ==> held[a].unwrap() < n && m.contains(
            pair_of(sd, held[a].unwrap(), a as u32),
        )
    &&& forall|q: Pairing| #[trigger]
        m.contains(q) ==> q.on(sd.opposite()).id() < n && held[q.on(sd.opposite()).id() as int]
            == Some(q.on(sd).id())
    &&& forall|a1: int, a2: int|
        0 <= a1 < n && 0 <= a2 < n && a1 != a2 && (#[trigger] held[a1]).is_some() ==> held[a1]
            != #[trigger] held[a2]
}

/// The proposers that wait, together with the one in hand, are those that no
/// acceptor holds, and there are as many of them as acceptors that hold no one.
spec fn queue_ok(n: nat, free: Seq<u32>, hand: Option<u32>, held: Seq<Option<u32>>) -> bool {
    &&& free.no_duplicates()
    &&& forall|i: int| 0 <= i < free.len() ==> #[trigger] free[i] < n
    &&& (hand matches Some(p) ==> p < n && !free.contains(p) && !is_held(held, p))
    &&& forall|p: u32|
        #![trigger free.contains(p)]
        #![trigger is_held(held, p)]
        p < n && hand != Some(p) ==> (free.contains(p) <==> !is_held(held, p))
    &&& free.len() + (if hand.is_some() {
        1nat
    } else {
        0nat
    }) == count_open(held, n)
}

/// Every proposer that is held ranks the acceptor that holds it.
spec fn courted(prefs: PreferencesView, sd: Side, held: Seq<Option<u32>>) -> bool {
    forall|a: int|
        0 <= a < held.len() && (#[trigger] held[a]).is_some() ==> prefs.ranks(
            suitor(sd, held[a].unwrap()),
            host(sd, a as u32),
        )
}

/// Every acceptor that a held proposer would rather be with holds someone it
/// likes better than that proposer.
spec fn settled(prefs: PreferencesView, sd: Side, held: Seq<Option<u32>>) -> bool {
    forall|a: int, a2: int|
        0 <= a < held.len() && 0 <= a2 < held.len() && (#[trigger] held[a]).is_some()
            && prefs.prefers(suitor(sd, held[a].unwrap()), host(sd, a2 as u32), host(sd, a as u32))
            ==> (#[trigger] held[a2]).is_some() && prefs.prefers(
            host(sd, a2 as u32),
            suitor(sd, held[a2].unwrap()),
            suitor(sd, held[a].unwrap()),
        )
}

/// No acceptor holds a proposer that it likes better than the partner some
/// stable matching gives it.
spec fn modest(prefs: PreferencesView, sd: Side, n: nat, held: Seq<Option<u32>>) -> bool {
    forall|other: Set<Pairing>, q2: Pairing|
        #![trigger stable_matching(other, prefs, n), other.contains(q2)]
        stable_matching(other, prefs, n) && other.contains(q2) && held[q2.on(
            sd.opposite(),
        ).id() as int].is_some() ==> !prefs.prefers(
            q2.on(sd.opposite()),
            suitor(sd, held[q2.on(sd.opposite()).id() as int].unwrap()),
            q2.on(sd),
        )
}

/// The first `k` candidates of `list` hold someone they like better than `p`.
spec fn turned_down(
    prefs: PreferencesView,
    sd: Side,
    held: Seq<Option<u32>>,
    p: u32,
    list: Seq<u32>,
    k: int,
) -> bool {
    forall|j: int|
        0 <= j < k ==> (#[trigger] list[j]) < held.len() && held[list[j] as int].is_some()
            && prefs.prefers(
            host(sd, list[j]),
            suitor(sd, held[list[j] as int].unwrap()),
            suitor(sd, p),
        )
}

/// All that holds of the run between two proposals.
spec fn state_ok(
    prefs: PreferencesView,
    sd: Side,
    n: nat,
    m: Set<Pairing>,
    open: Seq<bool>,
    held: Seq<Option<u32>>,
    free: Seq<u32>,
    hand: Option<u32>,
) -> bool {
    &&& consistent(sd, n, m, held, open)
    &&& queue_ok(n, free, hand, held)
    &&& courted(prefs, sd, held)
    &&& settled(prefs, sd, held)
    &&& modest(prefs, sd, n, held)
}

/// The pairings after acceptor `a` has taken proposer `p`.
spec fn pairs_after(sd: Side, m: Set<Pairing>, held: Seq<Option<u32>>, p: u32, a: u32) -> Set<
    Pairing,
> {
    (match held[a as int] {
        Some(q) => m.remove(pair_of(sd, q, a)),
        None => m,
    }).insert(pair_of(sd, p, a))
}

/// The waiting proposers after acceptor `a` has taken a proposer.
spec fn queue_after(free: Seq<u32>, held: Seq<Option<u32>>, a: u32) -> Seq<u32> {
    match held[a as int] {
        Some(q) => free.push(q),
        None => free,
    }
}

/// The pairings and what the acceptors hold still say the same after a step.
proof fn lemma_step_consistent(
    sd: Side,
    n: nat,
    m: Set<Pairing>,
    open: Seq<bool>,
    held: Seq<Option<u32>>,
    p: u32,
    a: u32,
)
    requires
        consistent(sd, n, m, held, open),
        a < n,
        p < n,
        !is_held(held, p),
    ensures
        consistent(
            sd,
            n,
            pairs_after(sd, m, held, p, a),
            held.update(a as int, Some(p)),
            open.update(a as int, false),
        ),
{
    let m2 = pairs_after(sd, m, held, p, a);
    let held2 = held.update(a as int, Some(p));
    let open2 = open.update(a as int, false);
    lemma_pair_of(sd, p, a);
    assert forall|x: int| 0 <= x < n && (#[trigger] held2[x]).is_some() implies held2[x].unwrap()
        < n && m2.contains(pair_of(sd, held2[x].unwrap(), x as u32)) by {
        if x != a {
            assert(held[x].is_some());
            lemma_pair_of(sd, held[x].unwrap(), x as u32);
            if held[a as int].is_some() {
                lemma_pair_of(sd, held[a as int].unwrap(), a);
            }
        }
    }
    assert forall|q: Pairing| #[trigger] m2.contains(q) implies q.on(sd.opposite()).id() < n
        && held2[q.on(sd.opposite()).id() as int] == Some(q.on(sd).id()) by {
        if q != pair_of(sd, p, a) {
            assert(m.contains(q));
            lemma_pair_of_members(sd, q);
            if q.on(sd.opposite()).id() == a {
                assert(held[a as int] == Some(q.on(sd).id()));
                assert(q == pair_of(sd, held[a as int].unwrap(), a));
            }
        }
    }
    assert forall|a1: int, a2: int|
        0 <= a1 < n && 0 <= a2 < n && a1 != a2 && (#[trigger] held2[a1]).is_some() implies held2[a1]
        != #[trigger] held2[a2] by {
        if a1 == a {
            assert(held[a2] != Some(p));
        } else if a2 == a {
            assert(held[a1] != Some(p));
        } else {
            assert(held[a1].is_some());
            assert(held[a1] != held[a2]);
        }
    }
    assert forall|x: int| 0 <= x < n implies #[trigger] open2[x] == held2[x].is_none() by {
        assert(open[x] == held[x].is_none());
    }
}

/// The waiting proposers are still those that no acceptor holds after a step.
proof fn lemma_step_queue(
    sd: Side,
    n: nat,
    m: Set<Pairing>,
    open: Seq<bool>,
    held: Seq<Option<u32>>,
    free: Seq<u32>,
    p: u32,
    a: u32,
)
    requires
        consistent(sd, n, m, held, open),
        queue_ok(n, free, Some(p), held),
        a < n,
    ensures
        queue_ok(n, queue_after(free, held, a), None, held.update(a as int, Some(p))),
{
    let held2 = held.update(a as int, Some(p));
    let free2 = queue_after(free, held, a);
    lemma_count_open_update(held, a as int, Some(p), n);
    assert(held2[a as int] == Some(p));
    assert(is_held(held2, p));
    match held[a as int] {
        None => {
            assert forall|x: u32| x < n implies (free2.contains(x) <==> !is_held(held2, x)) by {
                if x != p {
                    if is_held(held, x) {
                        let w = choose|w: int| 0 <= w < held.len() && #[trigger] held[w] == Some(x);
                        assert(held2[w] == Some(x));
                    }
                    if is_held(held2, x) {
                        let w = choose|w: int|
                            0 <= w < held2.len() && #[trigger] held2[w] == Some(x);
                        assert(held[w] == Some(x));
                    }
                }
            }
        },
        Some(q) => {
            assert(held[a as int].is_some());
            assert(q < n);
            assert(is_held(held, q));
            assert(q != p);
            assert(!free.contains(q));
            assert(free2 =~= free.push(q));
            assert(free2.no_duplicates());
            assert(free2[free.len() as int] == q);
            assert forall|x: u32| x < n implies (free2.contains(x) <==> !is_held(held2, x)) by {
                if x == q {
                    if is_held(held2, q) {
                        let w = choose|w: int|
                            0 <= w < held2.len() && #[trigger] held2[w] == Some(q);
                        assert(w != a);
                        assert(held[w] == Some(q));
                        assert(held[a as int].is_some());
                        assert(held[a as int] != held[w]);
                    }
                } else if x != p {
                    if is_held(held, x) {
                        let w = choose|w: int| 0 <= w < held.len() && #[trigger] held[w] == Some(x);
                        assert(held2[w] == Some(x));
                    }
                    if is_held(held2, x) {
                        let w = choose|w: int|
                            0 <= w < held2.len() && #[trigger] held2[w] == Some(x);
                        assert(held[w] == Some(x));
                    }
                    if free.contains(x) {
                        let i = choose|i: int| 0 <= i < free.len() && free[i] == x;
                        assert(free2[i] == x);
                    }
                    if free2.contains(x) {
                        let i = choose|i: int| 0 <= i < free2.len() && free2[i] == x;
                        assert(free[i] == x);
                    }
                } else {
                    if free2.contains(p) {
                        let i = choose|i: int| 0 <= i < free2.len() && free2[i] == p;
                        if i < free.len() {
                            assert(free[i] == p);
                        }
                    }
                }
            }
        },
    }
}

/// The proposer that was taken ranks the acceptor that took it.
proof fn lemma_step_courted(
    prefs: PreferencesView,
    sd: Side,
    held: Seq<Option<u32>>,
    p: u32,
    k: int,
    a: u32,
)
    requires
        prefs.wf(),
        courted(prefs, sd, held),
        prefs.knows(suitor(sd, p)),
        0 <= k < prefs.list(suitor(sd, p)).len(),
        prefs.list(suitor(sd, p))[k] == a,
        a < held.len(),
    ensures
        courted(prefs, sd, held.update(a as int, Some(p))),
        prefs.ranks(suitor(sd, p), host(sd, a)),
        prefs.rank(suitor(sd, p), host(sd, a)) == k,
{
    lemma_position_is_rank(prefs, suitor(sd, p), k);
    let held2 = held.update(a as int, Some(p));
    assert forall|x: int| 0 <= x < held2.len() && (#[trigger] held2[x]).is_some() implies prefs.ranks(
        suitor(sd, held2[x].unwrap()),
        host(sd, x as u32),
    ) by {
        if x != a {
            assert(held[x].is_some());
        }
    }
}

/// After a step, the acceptors that a held proposer would rather be with
/// still hold someone they like better.
proof fn lemma_step_settled(
    prefs: PreferencesView,
    sd: Side,
    held: Seq<Option<u32>>,
    p: u32,
    k: int,
    a: u32,
)
    requires
        prefs.wf(),
        held.len() <= u32::MAX,
        settled(prefs, sd, held),
        prefs.knows(suitor(sd, p)),
        0 <= k < prefs.list(suitor(sd, p)).len(),
        prefs.list(suitor(sd, p))[k] == a,
        a < held.len(),
        turned_down(prefs, sd, held, p, prefs.list(suitor(sd, p)), k),
        held[a as int] matches Some(q) ==> prefs.prefers(host(sd, a), suitor(sd, p), suitor(sd, q)),
    ensures
        settled(prefs, sd, held.update(a as int, Some(p))),
{
    let held2 = held.update(a as int, Some(p));
    let list = prefs.list(suitor(sd, p));
    lemma_position_is_rank(prefs, suitor(sd, p), k);
    assert forall|x: int, x2: int|
        0 <= x < held2.len() && 0 <= x2 < held2.len() && (#[trigger] held2[x]).is_some()
            && prefs.prefers(
            suitor(sd, held2[x].unwrap()),
            host(sd, x2 as u32),
            host(sd, x as u32),
        ) implies (#[trigger] held2[x2]).is_some() && prefs.prefers(
        host(sd, x2 as u32),
        suitor(sd, held2[x2].unwrap()),
        suitor(sd, held2[x].unwrap()),
    ) by {
        if x == a {
            let j = prefs.rank(suitor(sd, p), host(sd, x2 as u32));
            lemma_rank_is_position(prefs, suitor(sd, p), host(sd, x2 as u32));
            assert(j < k);
            assert(list[j] == x2);
            assert(held[list[j] as int].is_some());
            assert(x2 != a);
        } else {
            assert(held[x].is_some());
            assert(held[x2].is_some());
            if x2 == a {
                let q = held[a as int].unwrap();
                assert(prefs.prefers(host(sd, a), suitor(sd, p), suitor(sd, q)));
                assert(prefs.prefers(host(sd, a), suitor(sd, q), suitor(sd, held[x].unwrap())));
            }
        }
    }
}

/// After a step, still no acceptor holds a proposer that it likes better than
/// a partner that a stable matching gives it: else that matching would be
/// blocked.
proof fn lemma_step_modest(
    prefs: PreferencesView,
    sd: Side,
    n: nat,
    held: Seq<Option<u32>>,
    p: u32,
    k: int,
    a: u32,
)
    requires
        prefs.wf(),
        modest(prefs, sd, n, held),
        held.len() == n,
        prefs.knows(suitor(sd, p)),
        0 <= k < prefs.list(suitor(sd, p)).len(),
        prefs.list(suitor(sd, p))[k] == a,
        a < n,
        p < n,
        turned_down(prefs, sd, held, p, prefs.list(suitor(sd, p)), k),
    ensures
        modest(prefs, sd, n, held.update(a as int, Some(p))),
{
    let held2 = held.update(a as int, Some(p));
    let list = prefs.list(suitor(sd, p));
    let me = suitor(sd, p);
    lemma_position_is_rank(prefs, me, k);
    assert forall|other: Set<Pairing>, q2: Pairing|
        #![trigger stable_matching(other, prefs, n), other.contains(q2)]
        stable_matching(other, prefs, n) && other.contains(q2) && held2[q2.on(
            sd.opposite(),
        ).id() as int].is_some() implies !prefs.prefers(
        q2.on(sd.opposite()),
        suitor(sd, held2[q2.on(sd.opposite()).id() as int].unwrap()),
        q2.on(sd),
    ) by {
        let a0 = q2.on(sd.opposite()).id();
        lemma_pair_of_members(sd, q2);
        assert(q2.b < n && q2.r < n);
        if a0 != a {
            assert(held2[a0 as int] == held[a0 as int]);
        } else if prefs.prefers(q2.on(sd.opposite()), me, q2.on(sd)) {
            assert(q2.on(sd.opposite()) == host(sd, a));
            assert(me.id() < n);
            assert(covers(other, me));
            let q3 = choose|q3: Pairing| #[trigger] other.contains(q3) && q3.holds(me);
            lemma_pair_of_members(sd, q3);
            assert(q3.on(sd) == me);
            let there = q3.on(sd.opposite());
            assert(prefs.ranks(q3.b(), q3.r()) && prefs.ranks(q3.r(), q3.b()));
            assert(prefs.ranks(me, there));
            assert(q2.on(sd) != me);
            assert(q3 != q2);
            assert(there != host(sd, a)) by {
                if there == host(sd, a) {
                    assert(q3.b == q2.b || q3.r == q2.r);
                }
            }
            lemma_ranks_differ(prefs, me, there, host(sd, a));
            let j = prefs.rank(me, there);
            lemma_rank_is_position(prefs, me, there);
            if j < k {
                assert(list[j] == there.id());
                assert(held[list[j] as int].is_some());
                assert(there == host(sd, list[j]));
                assert(stable_matching(other, prefs, n) && other.contains(q3));
                assert(q3.on(sd.opposite()).id() == list[j]);
            } else {
                lemma_mutual_wish_blocks(other, prefs, sd, q3, q2);
            }
        }
    }
}

/// The acceptors have less to gain after a step.
proof fn lemma_step_cost(
    prefs: PreferencesView,
    sd: Side,
    held: Seq<Option<u32>>,
    p: u32,
    k: int,
    a: u32,
)
    requires
        prefs.wf(),
        a < held.len(),
        held[a as int] matches Some(q) ==> prefs.prefers(host(sd, a), suitor(sd, p), suitor(sd, q)),
    ensures
        total_cost(prefs, sd, held.update(a as int, Some(p)), held.len()) < total_cost(
            prefs,
            sd,
            held,
            held.len(),
        ),
{
    if prefs.ranks(host(sd, a), suitor(sd, p)) {
        lemma_rank_is_position(prefs, host(sd, a), suitor(sd, p));
        assert(is_ranking(prefs.lists(host(sd, a).side())[host(sd, a).id() as int]));
    }
    lemma_total_cost_update(prefs, sd, held, a as int, Some(p), held.len());
}

/// Acceptor `a`, at position `k` of the list of proposer `p`, takes `p`: it held
/// no one, or someone it likes less. What held before holds after, and the
/// acceptors have less to gain than before.
proof fn lemma_step(
    prefs: PreferencesView,
    sd: Side,
    n: nat,
    m: Set<Pairing>,
    open: Seq<bool>,
    held: Seq<Option<u32>>,
    free: Seq<u32>,
    p: u32,
    k: int,
    a: u32,
)
    requires
        prefs.wf(),
        n <= u32::MAX,
        state_ok(prefs, sd, n, m, open, held, free, Some(p)),
        prefs.knows(suitor(sd, p)),
        0 <= k < prefs.list(suitor(sd, p)).len(),
        prefs.list(suitor(sd, p))[k] == a,
        a < n,
        turned_down(prefs, sd, held, p, prefs.list(suitor(sd, p)), k),
        held[a as int] matches Some(q) ==> prefs.prefers(host(sd, a), suitor(sd, p), suitor(sd, q)),
    ensures
        state_ok(
            prefs,
            sd,
            n,
            pairs_after(sd, m, held, p, a),
            open.update(a as int, false),
            held.update(a as int, Some(p)),
            queue_after(free, held, a),
            None,
        ),
        total_cost(prefs, sd, held.update(a as int, Some(p)), n) < total_cost(prefs, sd, held, n),
{
    lemma_step_consistent(sd, n, m, open, held, p, a);
    lemma_step_queue(sd, n, m, open, held, free, p, a);
    lemma_step_courted(prefs, sd, held, p, k, a);
    lemma_step_settled(prefs, sd, held, p, k, a);
    lemma_step_modest(prefs, sd, n, held, p, k, a);
    lemma_step_cost(prefs, sd, held, p, k, a);
}

/// Before the first proposal: no pairings, every acceptor open, every proposer waiting.
proof fn lemma_start(prefs: PreferencesView, sd: Side, n: nat, free: Seq<u32>)
    requires
        n <= u32::MAX,
        free.len() == n,
        forall|i: int| 0 <= i < n ==> #[trigger] free[i] == n - 1 - i,
    ensures
        state_ok(
            prefs,
            sd,
            n,
            Set::empty(),
            Seq::new(n, |i: int| true),
            Seq::new(n, |i: int| None::<u32>),
            free,
            None,
        ),
{
    let held = Seq::new(n, |i: int| None::<u32>);
    lemma_count_open_none(held, n);
    assert forall|p: u32| p < n implies (free.contains(p) <==> !is_held(held, p)) by {
        assert(free[n - 1 - p] == p);
    }
}

/// After the last proposal: no proposer waits, so the pairings are a perfect
/// matching that no pair blocks and that is the best for the proposing side.
proof fn lemma_finish(
    prefs: PreferencesView,
    sd: Side,
    n: nat,
    m: Set<Pairing>,
    open: Seq<bool>,
    held: Seq<Option<u32>>,
)
    requires
        prefs.wf(),
        n <= u32::MAX,
        state_ok(prefs, sd, n, m, open, held, Seq::empty(), None),
    ensures
        is_perfect(m, n),
        unblocked(m, prefs),
        best_for(m, prefs, sd, n),
        forall|a: int| 0 <= a < n ==> (#[trigger] held[a]).is_some(),
        forall|p: u32| p < n ==> #[trigger] is_held(held, p),
{
    lemma_count_open_zero(held, n);
    let free = Seq::<u32>::empty();
    assert forall|p: u32| p < n implies #[trigger] is_held(held, p) by {
        assert(!free.contains(p));
    }
    assert forall|x: Pairing, y: Pairing|
        #![trigger m.contains(x), m.contains(y)]
        m.contains(x) && m.contains(y) && (x.b == y.b || x.r == y.r) implies x == y by {
        lemma_pair_of_members(sd, x);
        lemma_pair_of_members(sd, y);
        let ax = x.on(sd.opposite()).id() as int;
        let ay = y.on(sd.opposite()).id() as int;
        assert(held[ax] == Some(x.on(sd).id()));
        assert(held[ay] == Some(y.on(sd).id()));
        if ax != ay {
            assert(held[ax].is_some());
            assert(held[ax] != held[ay]);
        }
    }
    assert forall|q: Pairing| #[trigger] m.contains(q) implies q.b < n && q.r < n by {
        let a = q.on(sd.opposite()).id() as int;
        assert(held[a] == Some(q.on(sd).id()));
        assert(held[a].is_some());
    }
    assert forall|e: Entry| e.id() < n implies #[trigger] covers(m, e) by {
        if e.side() == sd {
            assert(is_held(held, e.id()));
            let a = choose|a: int| 0 <= a < held.len() && #[trigger] held[a] == Some(e.id());
            assert(held[a].is_some());
            lemma_pair_of(sd, e.id(), a as u32);
            assert(m.contains(pair_of(sd, e.id(), a as u32)));
        } else {
            let a = e.id() as int;
            assert(held[a].is_some());
            lemma_pair_of(sd, held[a].unwrap(), a as u32);
            assert(m.contains(pair_of(sd, held[a].unwrap(), a as u32)));
        }
    }
    assert forall|x: Pairing, y: Pairing|
        #![trigger m.contains(x), m.contains(y)]
        m.contains(x) && m.contains(y) implies !blocks(prefs, x, y) by {
        if blocks(prefs, x, y) {
            // the proposer of one of the two pairings wishes for the acceptor of the other
            let (mine, theirs) = match sd {
                Side::B => (x, y),
                Side::R => (y, x),
            };
            lemma_pair_of_members(sd, mine);
            lemma_pair_of_members(sd, theirs);
            let a = mine.on(sd.opposite()).id() as int;
            let a2 = theirs.on(sd.opposite()).id() as int;
            assert(held[a] == Some(mine.on(sd).id()));
            assert(held[a2] == Some(theirs.on(sd).id()));
            assert(held[a].is_some());
            assert(prefs.prefers(
                suitor(sd, held[a].unwrap()),
                host(sd, a2 as u32),
                host(sd, a as u32),
            ));
            assert(held[a2].is_some());
        }
    }
    assert forall|other: Set<Pairing>, q: Pairing, q2: Pairing|
        #![trigger stable_matching(other, prefs, n), m.contains(q), other.contains(q2)]
        stable_matching(other, prefs, n) && m.contains(q) && other.contains(q2) && q.on(sd)
            == q2.on(sd) implies !prefs.prefers(
        q.on(sd),
        q2.on(sd.opposite()),
        q.on(sd.opposite()),
    ) by {
        if prefs.prefers(q.on(sd), q2.on(sd.opposite()), q.on(sd.opposite())) {
            lemma_pair_of_members(sd, q);
            lemma_pair_of_members(sd, q2);
            let a = q.on(sd.opposite()).id() as int;
            let a2 = q2.on(sd.opposite()).id() as int;
            assert(q2.b < n && q2.r < n);
            assert(held[a] == Some(q.on(sd).id()));
            assert(held[a].is_some());
            assert(prefs.prefers(
                suitor(sd, held[a].unwrap()),
                host(sd, a2 as u32),
                host(sd, a as u32),
            ));
            assert(held[a2].is_some());
            assert(stable_matching(other, prefs, n) && other.contains(q2));
        }
    }
}

/// In a balanced structure the members of a perfect matching rank each other.
pub proof fn lemma_balanced_acceptable(m: Set<Pairing>, prefs: PreferencesView)
    requires
        prefs.balanced(),
        is_perfect(m, prefs.size()),
    ensures
        acceptable(m, prefs),
{
    assert forall|p: Pairing| #[trigger] m.contains(p) implies prefs.ranks(p.b(), p.r())
        && prefs.ranks(p.r(), p.b()) by {
        lemma_complete_ranks(prefs, p.b(), p.r());
        lemma_complete_ranks(prefs, p.r(), p.b());
    }
}

/// What becomes of proposer `p`, which has a list, as it goes down that list
/// from position `k`:
/// the acceptor that takes it, or the failure that ends the run. An acceptor
/// that holds no one takes it; one that holds a proposer takes it where it
/// would switch; a candidate that is no acceptor, or a rank that is not there,
/// is an unknown entry; the end of the list is no feasible match.
pub open spec fn proposal(
    prefs: PreferencesView,
    sd: Side,
    held: Seq<Option<u32>>,
    p: u32,
    k: nat,
) -> Result<u32, MatchError>
    decreases prefs.list(suitor(sd, p)).len() - k,
{
    let list = prefs.list(suitor(sd, p));
    if k >= list.len() {
        Err(MatchError::NoFeasibleMatch(suitor(sd, p)))
    } else {
        let a = list[k as int];
        if a >= held.len() {
            Err(MatchError::UnknownEntry(host(sd, a)))
        } else {
            match held[a as int] {
                None => Ok(a),
                Some(q) => match would_switch(prefs, pair_of(sd, q, a), suitor(sd, p)) {
                    Err(e) => Err(e),
                    Ok(true) => Ok(a),
                    Ok(false) => proposal(prefs, sd, held, p, k + 1),
                },
            }
        }
    }
}

/// The outcome of the run from the state in which acceptor `a` holds
/// `held[a]` and the proposers of `waiting` are unpaired: the proposers that
/// the acceptors hold in the end, or the failure. The proposer that is picked
/// is the last of `waiting`; one that is displaced goes to the end of `waiting`.
/// A proposer without a list has no one to propose to: no feasible match.
pub open spec fn outcome_from(
    prefs: PreferencesView,
    sd: Side,
    held: Seq<Option<u32>>,
    waiting: Seq<u32>,
) -> Result<Seq<Option<u32>>, MatchError>
    decreases total_cost(prefs, sd, held, held.len()),
    when prefs.wf()
    via outcome_from_decreases
{
    if waiting.len() == 0 {
        Ok(held)
    } else {
        let p = waiting.last();
        if !prefs.knows(suitor(sd, p)) {
            Err(MatchError::NoFeasibleMatch(suitor(sd, p)))
        } else {
            match proposal(prefs, sd, held, p, 0) {
                Err(e) => Err(e),
                Ok(a) => outcome_from(
                    prefs,
                    sd,
                    held.update(a as int, Some(p)),
                    match held[a as int] {
                        Some(q) => waiting.drop_last().push(q),
                        None => waiting.drop_last(),
                    },
                ),
            }
        }
    }
}

/// Every step of `outcome_from` leaves the acceptors less to gain.
#[via_fn]
proof fn outcome_from_decreases(
    prefs: PreferencesView,
    sd: Side,
    held: Seq<Option<u32>>,
    waiting: Seq<u32>,
) {
    if waiting.len() > 0 && prefs.knows(suitor(sd, waiting.last())) {
        let p = waiting.last();
        if proposal(prefs, sd, held, p, 0) is Ok {
            let a = proposal(prefs, sd, held, p, 0)->Ok_0;
            lemma_proposal_taken(prefs, sd, held, p, 0);
            lemma_step_cost(prefs, sd, held, p, 0, a);
        }
    }
}

/// The acceptor that takes a proposal held no one, or would switch.
proof fn lemma_proposal_taken(
    prefs: PreferencesView,
    sd: Side,
    held: Seq<Option<u32>>,
    p: u32,
    k: nat,
)
    requires
        proposal(prefs, sd, held, p, k) is Ok,
    ensures
        ({
            let a = proposal(prefs, sd, held, p, k)->Ok_0;
            &&& a < held.len()
            &&& held[a as int] matches Some(q) ==> prefs.prefers(
                host(sd, a),
                suitor(sd, p),
                suitor(sd, q),
            )
        }),
    decreases prefs.list(suitor(sd, p)).len() - k,
{
    let list = prefs.list(suitor(sd, p));
    if k < list.len() {
        let a = list[k as int];
        if a < held.len() {
            match held[a as int] {
                None => {},
                Some(q) => {
                    lemma_pair_of(sd, q, a);
                    match would_switch(prefs, pair_of(sd, q, a), suitor(sd, p)) {
                        Ok(false) => {
                            lemma_proposal_taken(prefs, sd, held, p, k + 1);
                        },
                        _ => {},
                    }
                },
            }
        }
    }
}

/// The pairings that stand for what the acceptors hold.
pub open spec fn pairs_held(sd: Side, held: Seq<Option<u32>>) -> Set<Pairing> {
    Set::new(
        |q: Pairing|
            exists|a: int|
                0 <= a < held.len() && (#[trigger] held[a]).is_some() && q == pair_of(
                    sd,
                    held[a].unwrap(),
                    a as u32,
                ),
    )
}

/// The outcome of the run for `prefs` with `sd` proposing: no acceptor holds
/// anyone at first, and the proposers wait with the lowest id last.
pub open spec fn run_model(prefs: PreferencesView, sd: Side) -> Result<
    Seq<Option<u32>>,
    MatchError,
> {
    outcome_from(
        prefs,
        sd,
        Seq::new(prefs.size(), |a: int| None::<u32>),
        Seq::new(prefs.size(), |i: int| (prefs.size() - 1 - i) as u32),
    )
}

/// What `run` promises of its outcome, for the structure `prefs` with `proposer`
/// proposing.
///
/// The outcome is that of `run_model`: the same pairings, or the same failure.
/// A matching that comes back pairs every member below the population size
/// exactly once, is blocked by no pair, and is the best for the proposing side
/// among the stable matchings. In a complete structure the outcome goes by the
/// counts of the two sides: with as many proposers as acceptors a matching comes
/// back, and it is stable; else there is no feasible match: with more
/// proposers, one of them runs out of candidates; with fewer, one of the
/// proposers below the population size has no list.
pub open spec fn run_ensures(
    prefs: PreferencesView,
    proposer: Side,
    outcome: Result<Pairings, MatchError>,
) -> bool {
    let n = prefs.size();
    let proposers = prefs.count(proposer);
    let acceptors = prefs.count(proposer.opposite());
    &&& match (outcome, run_model(prefs, proposer)) {
        (Ok(m), Ok(held)) => m@ == pairs_held(proposer, held),
        (Err(e), Err(modelled)) => e == modelled,
        _ => false,
    }
    &&& match outcome {
        Ok(m) => {
            &&& m.wf()
            &&& is_perfect(m@, n)
            &&& unblocked(m@, prefs)
            &&& best_for(m@, prefs, proposer, n)
            &&& prefs.complete() ==> proposers == acceptors
            &&& prefs.balanced() ==> stable_matching(m@, prefs, n) && is_stable(m.order(), prefs, n)
        },
        Err(MatchError::NoFeasibleMatch(who)) => {
            &&& who.side() == proposer
            &&& who.id() < n
            &&& prefs.complete() ==> proposers != acceptors
            &&& prefs.complete() ==> (proposers < acceptors <==> !prefs.knows(who))
        },
        Err(MatchError::UnknownEntry(_)) => !prefs.complete(),
        Err(MatchError::MalformedRecord(_)) => false,
    }
}

/// Computes a matching by deferred acceptance, with `proposer` as the side that
/// proposes. The members with an id below the population size take part on
/// both sides. While a proposer is unpaired, one is picked and goes down its
/// list: a candidate that is unpaired accepts; one that is paired and likes the
/// proposer better than its partner trades up, and that partner is unpaired
/// again. A proposer that has no list, or that reaches the end of its list,
/// fails the run with `NoFeasibleMatch`; a rank or a partner that is looked up
/// and not there fails it with `UnknownEntry`.
///
/// The proposer that is picked is the one that became unpaired last and, among
/// those that never were paired, the one with the lowest id. In a balanced
/// structure the matching does not depend on this choice.
pub fn run(prefs: &Preferences, proposer: Side) -> (outcome: Result<Pairings, MatchError>)
    ensures
        run_ensures(prefs@, proposer, outcome),
{
    proof {
        use_type_invariant(prefs);
    }
    let n = prefs.size();
    let acceptor = proposer.opposite();
    let ghost pv = prefs@;
    let mut free: Vec<u32> = Vec::new();
    let mut open: Vec<bool> = Vec::new();
    let mut i: u32 = n;
    while i > 0
        invariant
            i <= n,
            free@.len() == n - i,
            open@.len() == n - i,
            forall|j: int| 0 <= j < free@.len() ==> #[trigger] free@[j] == n - 1 - j,
            forall|j: int| 0 <= j < open@.len() ==> #[trigger] open@[j],
        decreases i,
    {
        i -= 1;
        free.push(i);
        open.push(true);
    }
    let mut pairings = Pairings::new(Vec::new());
    let ghost mut held: Seq<Option<u32>> = Seq::new(n as nat, |i: int| None::<u32>);
    let ghost goal = run_model(pv, proposer);
    proof {
        lemma_start(pv, proposer, n as nat, free@);
        assert(open@ =~= Seq::new(n as nat, |i: int| true));
        assert(pairings@ =~= Set::empty());
        assert(free@ =~= Seq::new(n as nat, |i: int| (n - 1 - i) as u32));
    }
    while free.len() > 0
        invariant
            pv == prefs@,
            pv.wf(),
            n == pv.size(),
            acceptor == proposer.opposite(),
            pairings.wf(),
            state_ok(pv, proposer, n as nat, pairings@, open@, held, free@, None),
            goal == run_model(pv, proposer),
            outcome_from(pv, proposer, held, free@) == goal,
        decreases total_cost(pv, proposer, held, n as nat),
    {
        let ghost cost0 = total_cost(pv, proposer, held, n as nat);
        let ghost free0 = free@;
        let p = free.pop().unwrap();
        let me = Entry::new(proposer, p);
        proof {
            assert(free0[free0.len() - 1] == p);
            assert(free@ =~= free0.drop_last());
            assert(free0.contains(p));
            assert(!free@.contains(p)) by {
                if free@.contains(p) {
                    let j = choose|j: int| 0 <= j < free@.len() && free@[j] == p;
                    assert(free0[j] == p);
                }
            }
            assert forall|x: u32| x < n && x != p implies (free@.contains(x) <==> !is_held(held, x)) by {
                if free0.contains(x) {
                    let j = choose|j: int| 0 <= j < free0.len() && free0[j] == x;
                    assert(free@[j] == x);
                }
                if free@.contains(x) {
                    let j = choose|j: int| 0 <= j < free@.len() && free@[j] == x;
                    assert(free0[j] == x);
                }
            }
            assert(queue_ok(n as nat, free@, Some(p), held));
        }
        let entries = match prefs.get_all(&me) {
            Ok(entries) => entries,
            Err(_) => {
                proof {
                    assert(outcome_from(pv, proposer, held, free0) == Err::<
                        Seq<Option<u32>>,
                        MatchError,
                    >(MatchError::NoFeasibleMatch(me)));
                }
                return Err(MatchError::NoFeasibleMatch(me));
            },
        };
        let ghost list = pv.list(me);
        let ghost held0 = held;
        let ghost rest = free@;
        let mut k: usize = 0;
        let mut placed = false;
        while k < entries.len() && !placed
            invariant
                pv == prefs@,
                pv.wf(),
                n == pv.size(),
                acceptor == proposer.opposite(),
                me == suitor(proposer, p),
                p < n,
                pv.knows(me),
                list == pv.list(me),
                entries@ == as_entries(acceptor, list),
                k <= entries.len(),
                pairings.wf(),
                goal == run_model(pv, proposer),
                free0.len() > 0,
                free0.last() == p,
                rest == free0.drop_last(),
                outcome_from(pv, proposer, held0, free0) == goal,
                !placed ==> held == held0 && free@ == rest && proposal(
                    pv,
                    proposer,
                    held,
                    p,
                    k as nat,
                ) == proposal(pv, proposer, held, p, 0),
                placed ==> outcome_from(pv, proposer, held, free@) == goal,
                !placed ==> state_ok(pv, proposer, n as nat, pairings@, open@, held, free@, Some(p))
                    && turned_down(pv, proposer, held, p, list, k as int) && total_cost(
                    pv,
                    proposer,
                    held,
                    n as nat,
                ) == cost0,
                placed ==> state_ok(pv, proposer, n as nat, pairings@, open@, held, free@, None)
                    && total_cost(pv, proposer, held, n as nat) < cost0,
            decreases entries.len() - k,
        {
            let candidate = entries[k];
            let a = candidate.id();
            proof {
                assert(candidate == host(proposer, list[k as int]));
                assert(a == list[k as int]);
                lemma_pair_of(proposer, p, a);
            }
            if a < n && open[a as usize] {
                proof {
                    assert(held[a as int].is_none());
                    lemma_step(pv, proposer, n as nat, pairings@, open@, held, free@, p, k as int, a);
                    assert(Pairing::from(me, candidate) == pair_of(proposer, p, a));
                }
                open.set(a as usize, false);
                pairings.add(Pairing::from(me, candidate));
                proof {
                    held = held.update(a as int, Some(p));
                }
                placed = true;
            } else {
                match pairings.with(&candidate) {
                    None => {
                        proof {
                            if a < n {
                                assert(open@[a as int] == held[a as int].is_none());
                                assert(held[a as int].is_some());
                                assert(pairings@.contains(
                                    pair_of(proposer, held[a as int].unwrap(), a),
                                ));
                                lemma_pair_of(proposer, held[a as int].unwrap(), a);
                            }
                            if pv.complete() {
                                lemma_position_is_rank(pv, me, k as int);
                                lemma_complete_ranks_known(pv, me, candidate);
                            }
                            assert(proposal(pv, proposer, held, p, k as nat) == Err::<
                                u32,
                                MatchError,
                            >(MatchError::UnknownEntry(candidate)));
                            assert(outcome_from(pv, proposer, held0, free0) == Err::<
                                Seq<Option<u32>>,
                                MatchError,
                            >(MatchError::UnknownEntry(candidate)));
                        }
                        return Err(MatchError::UnknownEntry(candidate));
                    },
                    Some(present) => {
                        proof {
                            lemma_pair_of_members(proposer, present);
                            assert(present.on(acceptor) == candidate);
                            assert(held[a as int] == Some(present.on(proposer).id()));
                            assert(held[a as int].is_some());
                        }
                        let ghost q = present.on(proposer).id();
                        proof {
                            assert(present == pair_of(proposer, q, a));
                        }
                        match present.prefers(&me, prefs) {
                            Err(e) => {
                                proof {
                                    if pv.complete() {
                                        lemma_position_is_rank(pv, me, k as int);
                                        lemma_complete_ranks_known(pv, me, candidate);
                                        lemma_complete_ranks(pv, candidate, me);
                                        assert(pv.ranks(suitor(proposer, q), host(proposer, a)));
                                        lemma_complete_ranks(pv, candidate, suitor(proposer, q));
                                    }
                                    assert(proposal(pv, proposer, held, p, k as nat) == Err::<
                                        u32,
                                        MatchError,
                                    >(e));
                                    assert(outcome_from(pv, proposer, held0, free0) == Err::<
                                        Seq<Option<u32>>,
                                        MatchError,
                                    >(e));
                                }
                                return Err(e);
                            },
                            Ok(false) => {
                                proof {
                                    assert(!is_held(held, p));
                                    assert(q != p);
                                    lemma_ranks_differ(
                                        pv,
                                        candidate,
                                        me,
                                        suitor(proposer, q),
                                    );
                                    assert(turned_down(pv, proposer, held, p, list, k + 1));
                                }
                            },
                            Ok(true) => {
                                proof {
                                    lemma_step(
                                        pv,
                                        proposer,
                                        n as nat,
                                        pairings@,
                                        open@,
                                        held,
                                        free@,
                                        p,
                                        k as int,
                                        a,
                                    );
                                    assert(Pairing::from(candidate, me) == pair_of(proposer, p, a));
                                    assert(present == pair_of(proposer, q, a));
                                    assert(find(pairings.order(), candidate) == Some(present));
                                    assert(open@ =~= open@.update(a as int, false));
                                }
                                match pairings.new_pairing(&candidate, me) {
                                    Some(displaced) => {
                                        free.push(displaced.id());
                                    },
                                    None => {},
                                }
                                proof {
                                    held = held.update(a as int, Some(p));
                                    assert(free@ =~= rest.push(q));
                                }
                                placed = true;
                            },
                        }
                    },
                }
            }
            k += 1;
        }
        if !placed {
            proof {
                if pv.complete() && pv.count(proposer) <= pv.count(acceptor) {
                    lemma_count_open_some(held, n as nat);
                    let a = choose|a: int| 0 <= a < n && (#[trigger] held[a]).is_none();
                    assert(ranks_all(pv.lists(me.side())[me.id() as int], pv.count(acceptor)));
                    assert(list.contains(a as u32));
                    let j = choose|j: int| 0 <= j < list.len() && list[j] == a as u32;
                    assert(held[list[j] as int].is_some());
                }
                assert(proposal(pv, proposer, held, p, k as nat) == Err::<u32, MatchError>(
                    MatchError::NoFeasibleMatch(me),
                ));
                assert(outcome_from(pv, proposer, held0, free0) == Err::<
                    Seq<Option<u32>>,
                    MatchError,
                >(MatchError::NoFeasibleMatch(me)));
            }
            return Err(MatchError::NoFeasibleMatch(me));
        }
    }
    proof {
        assert(free@ =~= Seq::empty());
        lemma_finish(pv, proposer, n as nat, pairings@, open@, held);
        assert(pairings@ =~= pairs_held(proposer, held)) by {
            assert forall|q: Pairing| pairings@.contains(q) implies pairs_held(
                proposer,
                held,
            ).contains(q) by {
                lemma_pair_of_members(proposer, q);
                let a = q.on(proposer.opposite()).id() as int;
                assert(held[a] == Some(q.on(proposer).id()));
                assert(held[a].is_some());
            }
        }
        if pv.complete() {
            if pv.count(proposer) > pv.count(acceptor) {
                let a = pv.count(acceptor) as int;
                assert(held[a].is_some());
                lemma_complete_ranks_known(
                    pv,
                    suitor(proposer, held[a].unwrap()),
                    host(proposer, a as u32),
                );
            }
            if pv.count(proposer) < pv.count(acceptor) {
                let p = pv.count(proposer) as u32;
                assert(is_held(held, p));
                let a = choose|a: int| 0 <= a < held.len() && #[trigger] held[a] == Some(p);
                assert(held[a].is_some());
            }
        }
        if pv.balanced() {
            lemma_balanced_acceptable(pairings@, pv);
            crate::stability::lemma_stable_matching_is_stable(pairings.order(), pv);
        }
    }
    Ok(pairings)
}

/// In a balanced structure the matching of deferred acceptance does not depend
/// on which unpaired proposer is picked at each step: it is the one stable
/// matching that is the best for the proposing side, and whatever else arrives
/// at such a matching arrives at the same.
pub proof fn lemma_outcome_is_the_best_stable_matching(
    prefs: PreferencesView,
    proposer: Side,
    outcome: Result<Pairings, MatchError>,
    other: Set<Pairing>,
)
    requires
        prefs.wf(),
        prefs.balanced(),
        run_ensures(prefs, proposer, outcome),
        stable_matching(other, prefs, prefs.size()),
        best_for(other, prefs, proposer, prefs.size()),
    ensures
        outcome is Ok,
        outcome.unwrap()@ == other,
{
    lemma_best_is_unique(outcome.unwrap()@, other, prefs, proposer, prefs.size());
}

/// In a balanced structure, the matching of deferred acceptance has no blocking
/// pair, whichever side proposed: the stability check of that matching comes
/// back with the empty set.
pub proof fn lemma_matcher_output_has_no_blocking_pair(
    prefs: PreferencesView,
    proposer: Side,
    outcome: Result<Pairings, MatchError>,
    found: Result<Pairings, MatchError>,
)
    requires
        prefs.wf(),
        prefs.balanced(),
        run_ensures(prefs, proposer, outcome),
        outcome matches Ok(m) ==> blocking_ensures(m.order(), prefs, found),
    ensures
        outcome is Ok,
        found is Ok,
        found.unwrap()@ == Set::<Pairing>::empty(),
{
    let m = outcome.unwrap();
    lemma_check_repeats(m.order(), prefs, found, found);
}

/// In a complete structure whose two sides differ in number, deferred
/// acceptance ends with no feasible match, whichever side proposes.
pub proof fn lemma_unequal_sides_have_no_feasible_match(
    prefs: PreferencesView,
    proposer: Side,
    outcome: Result<Pairings, MatchError>,
)
    requires
        prefs.complete(),
        prefs.b.len() != prefs.r.len(),
        run_ensures(prefs, proposer, outcome),
    ensures
        outcome matches Err(MatchError::NoFeasibleMatch(who)) && who.side() == proposer,
{
}

} // verus!
