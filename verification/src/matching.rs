//! What it means for a set of pairings to be a matching, to be stable, and to be
//! the best stable matching for one side.

use vstd::prelude::*;
use crate::entry::{Entry, Side};
use crate::pairings::Pairing;
use crate::preferences::PreferencesView;

verus! {

/// The pairing of member `p` of `side` with member `a` of the other side.
pub open spec fn pair_of(side: Side, p: u32, a: u32) -> Pairing {
    match side {
        Side::B => Pairing { b: p, r: a },
        Side::R => Pairing { b: a, r: p },
    }
}

/// Whether some pairing of `m` holds `e`.
pub open spec fn covers(m: Set<Pairing>, e: Entry) -> bool {
    exists|p: Pairing| #[trigger] m.contains(p) && p.holds(e)
}

/// No member is in two pairings.
pub open spec fn is_matching(m: Set<Pairing>) -> bool {
    forall|p: Pairing, q: Pairing|
        #![trigger m.contains(p), m.contains(q)]
        m.contains(p) && m.contains(q) && (p.b == q.b || p.r == q.r) ==> p == q
}

/// Every member with an id below `n`, on either side, is in exactly one
/// pairing, and no other member is in any.
pub open spec fn is_perfect(m: Set<Pairing>, n: nat) -> bool {
    &&& is_matching(m)
    &&& forall|p: Pairing| #[trigger] m.contains(p) ==> p.b < n && p.r < n
    &&& forall|e: Entry| e.id() < n ==> #[trigger] covers(m, e)
}

/// Whether the B of `x` and the R of `y` would both rather be with each other
/// than with the partners these pairings give them.
pub open spec fn blocks(prefs: PreferencesView, x: Pairing, y: Pairing) -> bool {
    &&& prefs.prefers(x.b(), y.r(), x.r())
    &&& prefs.prefers(y.r(), x.b(), y.b())
}

/// No B and R of `m` would both rather be with each other than with their partners.
pub open spec fn unblocked(m: Set<Pairing>, prefs: PreferencesView) -> bool {
    forall|x: Pairing, y: Pairing|
        #![trigger m.contains(x), m.contains(y)]
        m.contains(x) && m.contains(y) ==> !blocks(prefs, x, y)
}

/// Each member of each pairing of `m` ranks the other.
pub open spec fn acceptable(m: Set<Pairing>, prefs: PreferencesView) -> bool {
    forall|p: Pairing| #[trigger]
        m.contains(p) ==> prefs.ranks(p.b(), p.r()) && prefs.ranks(p.r(), p.b())
}

/// A stable matching of the populations of size `n`: perfect, between members
/// that rank each other, and blocked by no pair.
pub open spec fn stable_matching(m: Set<Pairing>, prefs: PreferencesView, n: nat) -> bool {
    &&& is_perfect(m, n)
    &&& acceptable(m, prefs)
    &&& unblocked(m, prefs)
}

/// No member of `side` could do better in any stable matching: whatever partner
/// a stable matching `other` gives it, it does not rank that partner before the
/// one that `m` gives it.
pub open spec fn best_for(m: Set<Pairing>, prefs: PreferencesView, side: Side, n: nat) -> bool {
    forall|other: Set<Pairing>, q: Pairing, q2: Pairing|
        #![trigger stable_matching(other, prefs, n), m.contains(q), other.contains(q2)]
        stable_matching(other, prefs, n) && m.contains(q) && other.contains(q2) && q.on(side)
            == q2.on(side) ==> !prefs.prefers(
            q.on(side),
            q2.on(side.opposite()),
            q.on(side.opposite()),
        )
}

/// A ranked candidate stands in the list at its rank.
pub proof fn lemma_rank_is_position(prefs: PreferencesView, subject: Entry, candidate: Entry)
    requires
        prefs.ranks(subject, candidate),
    ensures
        0 <= prefs.rank(subject, candidate) < prefs.list(subject).len(),
        prefs.list(subject)[prefs.rank(subject, candidate)] == candidate.id(),
{
}

/// The candidate at position `k` of a list is ranked, and `k` is its rank.
pub proof fn lemma_position_is_rank(prefs: PreferencesView, subject: Entry, k: int)
    requires
        prefs.wf(),
        prefs.knows(subject),
        0 <= k < prefs.list(subject).len(),
    ensures
        prefs.ranks(subject, Entry::new(subject.side().opposite(), prefs.list(subject)[k])),
        prefs.rank(subject, Entry::new(subject.side().opposite(), prefs.list(subject)[k])) == k,
{
    let list = prefs.list(subject);
    assert(crate::preferences::is_ranking(prefs.lists(subject.side())[subject.id() as int]));
    let c = Entry::new(subject.side().opposite(), list[k]);
    assert(c.id() == list[k]);
    assert(list.contains(list[k]));
    let j = list.index_of(list[k]);
    assert(list[j] == list[k]);
}

/// Two different candidates that a member ranks have different ranks.
pub proof fn lemma_ranks_differ(prefs: PreferencesView, subject: Entry, c1: Entry, c2: Entry)
    requires
        prefs.ranks(subject, c1),
        prefs.ranks(subject, c2),
        c1 != c2,
    ensures
        prefs.rank(subject, c1) != prefs.rank(subject, c2),
{
    lemma_rank_is_position(prefs, subject, c1);
    lemma_rank_is_position(prefs, subject, c2);
    assert(c1.side() == c2.side());
    assert(c1.id() != c2.id());
}

/// In a complete structure every known member ranks every known member of the
/// other side.
pub proof fn lemma_complete_ranks(prefs: PreferencesView, subject: Entry, candidate: Entry)
    requires
        prefs.complete(),
        prefs.knows(subject),
        prefs.knows(candidate),
        candidate.side() == subject.side().opposite(),
    ensures
        prefs.ranks(subject, candidate),
{
    let n = prefs.count(candidate.side());
    assert(crate::preferences::ranks_all(prefs.lists(subject.side())[subject.id() as int], n));
}

/// In a complete structure a member ranks known members only.
pub proof fn lemma_complete_ranks_known(prefs: PreferencesView, subject: Entry, candidate: Entry)
    requires
        prefs.complete(),
        prefs.ranks(subject, candidate),
    ensures
        prefs.knows(candidate),
{
    let n = prefs.count(candidate.side());
    assert(crate::preferences::ranks_all(prefs.lists(subject.side())[subject.id() as int], n));
    lemma_rank_is_position(prefs, subject, candidate);
}

/// The two members of `pair_of`.
pub proof fn lemma_pair_of(side: Side, p: u32, a: u32)
    ensures
        pair_of(side, p, a).on(side) == Entry::new(side, p),
        pair_of(side, p, a).on(side.opposite()) == Entry::new(side.opposite(), a),
        pair_of(side, p, a).holds(Entry::new(side, p)),
        pair_of(side, p, a).holds(Entry::new(side.opposite(), a)),
{
}

/// A pairing is the `pair_of` its two members.
pub proof fn lemma_pair_of_members(side: Side, q: Pairing)
    ensures
        q == pair_of(side, q.on(side).id(), q.on(side.opposite()).id()),
        q.on(side).side() == side,
        q.on(side.opposite()).side() == side.opposite(),
{
}

/// A member of `side` and a member of the other side that would both rather be
/// with each other than with their partners in `m` block `m`.
pub proof fn lemma_mutual_wish_blocks(
    m: Set<Pairing>,
    prefs: PreferencesView,
    side: Side,
    x: Pairing,
    y: Pairing,
)
    requires
        m.contains(x),
        m.contains(y),
        prefs.prefers(x.on(side), y.on(side.opposite()), x.on(side.opposite())),
        prefs.prefers(y.on(side.opposite()), x.on(side), y.on(side)),
    ensures
        !unblocked(m, prefs),
{
    match side {
        Side::B => {
            assert(blocks(prefs, x, y));
        },
        Side::R => {
            assert(blocks(prefs, y, x));
        },
    }
}

/// There is one best stable matching for a side at most.
pub proof fn lemma_best_is_unique(
    m1: Set<Pairing>,
    m2: Set<Pairing>,
    prefs: PreferencesView,
    side: Side,
    n: nat,
)
    requires
        prefs.wf(),
        stable_matching(m1, prefs, n),
        stable_matching(m2, prefs, n),
        best_for(m1, prefs, side, n),
        best_for(m2, prefs, side, n),
    ensures
        m1 == m2,
{
    assert forall|q: Pairing| m1.contains(q) implies m2.contains(q) by {
        lemma_same_partner(m1, m2, prefs, side, n, q);
    }
    assert forall|q: Pairing| m2.contains(q) implies m1.contains(q) by {
        lemma_same_partner(m2, m1, prefs, side, n, q);
    }
    assert(m1 =~= m2);
}

/// Two best stable matchings for a side give each member of it the same partner.
proof fn lemma_same_partner(
    m1: Set<Pairing>,
    m2: Set<Pairing>,
    prefs: PreferencesView,
    side: Side,
    n: nat,
    q: Pairing,
)
    requires
        prefs.wf(),
        stable_matching(m1, prefs, n),
        stable_matching(m2, prefs, n),
        best_for(m1, prefs, side, n),
        best_for(m2, prefs, side, n),
        m1.contains(q),
    ensures
        m2.contains(q),
{
    let e = q.on(side);
    assert(e.id() < n);
    assert(covers(m2, e));
    let q2 = choose|q2: Pairing| #[trigger] m2.contains(q2) && q2.holds(e);
    assert(q2.on(side) == e);
    let a1 = q.on(side.opposite());
    let a2 = q2.on(side.opposite());
    assert(prefs.ranks(e, a1) && prefs.ranks(e, a2)) by {
        assert(prefs.ranks(q.b(), q.r()) && prefs.ranks(q.r(), q.b()));
        assert(prefs.ranks(q2.b(), q2.r()) && prefs.ranks(q2.r(), q2.b()));
    }
    if a1 != a2 {
        lemma_ranks_differ(prefs, e, a1, a2);
        assert(stable_matching(m2, prefs, n) && m1.contains(q) && m2.contains(q2));
        assert(stable_matching(m1, prefs, n) && m2.contains(q2) && m1.contains(q));
        assert(!prefs.prefers(e, a2, a1));
        assert(!prefs.prefers(e, a1, a2));
        assert(false);
    }
    lemma_pair_of_members(side, q);
    lemma_pair_of_members(side, q2);
}

} // verus!
