//! Hall's marriage condition, decided by going through every subset of the B
//! population.

use vstd::prelude::*;
use std::collections::HashSet;
use crate::entry::Entry;
use crate::error::MatchError;
use crate::preferences::{Preferences, PreferencesView};

verus! {

broadcast use vstd::std_specs::hash::group_hash_axioms;

/// Whether B`i` belongs to the subset that the bits of `p` stand for.
pub open spec fn in_subset(p: u128, i: u32) -> bool {
    p & (1u128 << i) != 0
}

/// How many of the B ids below `n` belong to the subset `p`.
pub open spec fn subset_size(p: u128, n: nat) -> nat
    decreases n,
{
    if n == 0 {
        0
    } else {
        subset_size(p, (n - 1) as nat) + if in_subset(p, (n - 1) as u32) {
            1nat
        } else {
            0nat
        }
    }
}

/// Whether every B below `n` of the subset `p` has a list.
pub open spec fn all_known(prefs: PreferencesView, p: u128, n: nat) -> bool {
    forall|i: u32| i < n && #[trigger] in_subset(p, i) ==> i < prefs.b.len()
}

/// The R ids that the B ids below `n` of the subset `p` rank between them.
pub open spec fn neighbors(prefs: PreferencesView, p: u128, n: nat) -> Set<u32> {
    Set::new(
        |r: u32|
            exists|i: u32|
                i < n && #[trigger] in_subset(p, i) && i < prefs.b.len() && prefs.b[i as int].contains(
                    r,
                ),
    )
}

/// Whether the subset `p` of the B ids below `n` is known and has as many
/// neighbors as members, at least.
pub open spec fn passes(prefs: PreferencesView, p: u128, n: nat) -> bool {
    all_known(prefs, p, n) && subset_size(p, n) <= neighbors(prefs, p, n).len()
}

/// Whether `p` is the first subset of the B ids below `n` that does not pass.
pub open spec fn first_failing(prefs: PreferencesView, p: u128, n: nat) -> bool {
    &&& n < 128
    &&& p < (1u128 << (n as u32))
    &&& !passes(prefs, p, n)
    &&& forall|before: u128| before < p ==> #[trigger] passes(prefs, before, n)
}

/// Whether B`i` is the lowest member of the subset `p` that has no list.
pub open spec fn lowest_unknown(prefs: PreferencesView, p: u128, n: nat, i: u32) -> bool {
    &&& i < n
    &&& in_subset(p, i)
    &&& i >= prefs.b.len()
    &&& forall|j: u32| j < i && #[trigger] in_subset(p, j) ==> j < prefs.b.len()
}

/// What `halls_condition` answers for the structure `prefs`: yes where every
/// subset passes; no where the first subset that does not pass is known and
/// has too few neighbors; the lowest member without a list where that subset
/// is not known.
pub open spec fn halls_ensures(prefs: PreferencesView, answer: Result<bool, MatchError>) -> bool {
    let n = prefs.size();
    match answer {
        Ok(true) => forall|p: u128| p < (1u128 << (n as u32)) ==> #[trigger] passes(prefs, p, n),
        Ok(false) => exists|p: u128| #[trigger]
            first_failing(prefs, p, n) && all_known(prefs, p, n),
        Err(e) => exists|p: u128, i: u32|
            #![trigger first_failing(prefs, p, n), lowest_unknown(prefs, p, n, i)]
            first_failing(prefs, p, n) && lowest_unknown(prefs, p, n, i) && e
                == MatchError::UnknownEntry(Entry::B(i)),
    }
}

/// Puts the ids of `from` into `into`.
fn extend(into: &mut HashSet<u32>, from: &HashSet<u32>)
    ensures
        final(into)@ == old(into)@.union(from@),
{
    let ghost start = into@;
    let ghost mut seen: Seq<u32> = Seq::empty();
    proof {
        vstd::std_specs::hash::axiom_spec_hash_keys_iter(from);
    }
    for id in it: from.iter()
        invariant
            it.seq().unref().to_set() == from@,
            seen == it.seq().unref().take(it.index()),
            into@ == start.union(seen.to_set()),
            it.index() == it.seq().len() ==> seen.to_set() == from@,
    {
        proof {
            seen.lemma_push_to_set_commute(*id);
            assert(it.seq().unref().take(it.index() + 1) =~= seen.push(*id));
            assert(it.index() + 1 == it.seq().len() ==> it.seq().unref().take(it.index() + 1)
                =~= it.seq().unref());
            seen = seen.push(*id);
        }
        into.insert(*id);
        assert(into@ =~= start.union(seen.to_set()));
    }
}

/// Decides Hall's condition by brute force: every subset of the B ids below the
/// population size is gone through, in the order of the numbers whose bits
/// stand for the subsets, and its members are counted against the R ids that
/// they rank between them. The first subset with fewer neighbors than members
/// ends the search with no; a member without a list ends it with
/// `UnknownEntry`. The work doubles with every member: this is for small
/// populations. The subsets are numbered in 128 bits, so the size is below 128.
pub fn halls_condition(pref: &Preferences) -> (answer: Result<bool, MatchError>)
    requires
        pref@.size() < 128,
    ensures
        halls_ensures(pref@, answer),
{
    let n = pref.size();
    let ghost pv = pref@;
    let mut neighbor_set: HashSet<u32> = HashSet::with_capacity(n as usize);
    let limit: u128 = 1u128 << n;
    let mut p: u128 = 0;
    while p < limit
        invariant
            pv == pref@,
            n == pv.size(),
            n < 128,
            limit == 1u128 << n,
            p <= limit,
            forall|before: u128| before < p ==> #[trigger] passes(pv, before, n as nat),
        decreases limit - p,
    {
        let mut s_size: u32 = 0;
        neighbor_set.clear();
        let mut i: u32 = 0;
        proof {
            assert(neighbor_set@ =~= neighbors(pv, p, 0));
        }
        while i < n
            invariant
                pv == pref@,
                n == pv.size(),
                n < 128,
                i <= n,
                p < limit,
                limit == 1u128 << n,
                s_size == subset_size(p, i as nat),
                s_size <= i,
                neighbor_set@ == neighbors(pv, p, i as nat),
                all_known(pv, p, i as nat),
                forall|before: u128| before < p ==> #[trigger] passes(pv, before, n as nat),
            decreases n - i,
        {
            let ghost so_far = neighbor_set@;
            if p & (1u128 << i) != 0 {
                s_size += 1;
                match pref.get_all_hashset(&Entry::B(i)) {
                    Ok(candidates) => extend(&mut neighbor_set, &candidates),
                    Err(e) => {
                        proof {
                            assert(lowest_unknown(pv, p, n as nat, i));
                            assert(!all_known(pv, p, n as nat));
                            assert(first_failing(pv, p, n as nat));
                        }
                        return Err(e);
                    },
                }
            }
            proof {
                let list = pv.b[i as int];
                let next = neighbors(pv, p, (i + 1) as nat);
                assert forall|r: u32| neighbor_set@.contains(r) <==> next.contains(r) by {
                    if next.contains(r) {
                        let j = choose|j: u32|
                            j < i + 1 && #[trigger] in_subset(p, j) && j < pv.b.len()
                                && pv.b[j as int].contains(r);
                        if j < i {
                            assert(neighbors(pv, p, i as nat).contains(r));
                        }
                    }
                    if so_far.contains(r) {
                        let j = choose|j: u32|
                            j < i && #[trigger] in_subset(p, j) && j < pv.b.len()
                                && pv.b[j as int].contains(r);
                        assert(j < i + 1 && in_subset(p, j));
                    }
                    if in_subset(p, i) && list.contains(r) {
                        assert(i < i + 1 && in_subset(p, i) && i < pv.b.len());
                    }
                }
                assert(neighbor_set@ =~= next);
            }
            i += 1;
        }
        let halls = s_size as usize <= neighbor_set.len();
        if !halls {
            proof {
                assert(!passes(pv, p, n as nat));
                assert(first_failing(pv, p, n as nat));
            }
            return Ok(false);
        }
        p += 1;
    }
    Ok(true)
}

/// The number with bit `k` alone is below 2^n for `k` below `n`, and holds bit `k`.
proof fn lemma_bit_alone(k: u32, n: u32)
    by (bit_vector)
    requires
        k < n < 128,
    ensures
        (1u128 << k) < (1u128 << n),
        (1u128 << k) & (1u128 << k) != 0,
{
}

/// The number 2^n - 1 holds every bit below `n`.
proof fn lemma_bits_full(i: u32, n: u32)
    by (bit_vector)
    requires
        i < n < 128,
    ensures
        (((1u128 << n) - 1) as u128) < (1u128 << n),
        (((1u128 << n) - 1) as u128) & (1u128 << i) != 0,
{
}

/// Setting bit `k` in a number below 2^k leaves the bits below `k` as they are.
proof fn lemma_bit_added(p: u128, k: u32, i: u32)
    by (bit_vector)
    requires
        k < 127,
        p < (1u128 << k),
        i < k,
    ensures
        p < (1u128 << ((k + 1) as u32)),
        (p | (1u128 << k)) < (1u128 << ((k + 1) as u32)),
        p & (1u128 << k) == 0,
        (p | (1u128 << k)) & (1u128 << k) != 0,
        ((p | (1u128 << k)) & (1u128 << i) != 0) == (p & (1u128 << i) != 0),
{
}

/// A number below 2^k does not hold bit `k`; with bit `k` set it is below 2^(k+1).
proof fn lemma_bit_top(p: u128, k: u32)
    by (bit_vector)
    requires
        k < 127,
        p < (1u128 << k),
    ensures
        p < (1u128 << ((k + 1) as u32)),
        (p | (1u128 << k)) < (1u128 << ((k + 1) as u32)),
        p & (1u128 << k) == 0,
        (p | (1u128 << k)) & (1u128 << k) != 0,
{
}

/// Zero is below 2^0.
proof fn lemma_no_bits()
    by (bit_vector)
    ensures
        0u128 < (1u128 << 0u32),
{
}

/// Every set of B ids below `n` is the subset of some number below 2^n: the
/// search leaves no subset out.
pub proof fn lemma_every_subset_is_numbered(members: Set<u32>, n: u32) -> (p: u128)
    requires
        n < 128,
    ensures
        p < (1u128 << n),
        forall|i: u32| i < n ==> (#[trigger] in_subset(p, i) <==> members.contains(i)),
    decreases n,
{
    if n == 0 {
        lemma_no_bits();
        0
    } else {
        let k = (n - 1) as u32;
        let low = lemma_every_subset_is_numbered(members, k);
        lemma_bit_top(low, k);
        let p = if members.contains(k) {
            low | (1u128 << k)
        } else {
            low
        };
        assert forall|i: u32| i < n implies (#[trigger] in_subset(p, i) <==> members.contains(i)) by {
            if i < k {
                lemma_bit_added(low, k, i);
                assert(in_subset(low, i) <==> members.contains(i));
            }
        }
        p
    }
}

/// A subset of the ids below `n` has `n` members at most.
pub proof fn lemma_subset_size_bound(p: u128, n: nat)
    ensures
        subset_size(p, n) <= n,
    decreases n,
{
    if n > 0 {
        lemma_subset_size_bound(p, (n - 1) as nat);
    }
}

/// A subset that is not empty has a member.
proof fn lemma_subset_size_positive(p: u128, n: nat)
    requires
        subset_size(p, n) > 0,
        n <= u32::MAX,
    ensures
        exists|i: u32| i < n && #[trigger] in_subset(p, i),
    decreases n,
{
    if n > 0 {
        if in_subset(p, (n - 1) as u32) {
        } else {
            lemma_subset_size_positive(p, (n - 1) as nat);
        }
    }
}

/// The subset that holds every id below `n` has `n` members.
proof fn lemma_subset_size_full(p: u128, n: nat)
    requires
        n <= u32::MAX,
        forall|i: u32| i < n ==> #[trigger] in_subset(p, i),
    ensures
        subset_size(p, n) == n,
    decreases n,
{
    if n > 0 {
        lemma_subset_size_full(p, (n - 1) as nat);
        assert(in_subset(p, (n - 1) as u32));
    }
}

/// In a complete structure a subset with a known member has the whole R
/// population for its neighbors.
proof fn lemma_neighbors_of_complete(prefs: PreferencesView, p: u128, n: nat, i: u32)
    requires
        prefs.complete(),
        i < n,
        in_subset(p, i),
        i < prefs.b.len(),
    ensures
        neighbors(prefs, p, n).len() == prefs.r.len(),
{
    let list = prefs.b[i as int];
    assert(crate::preferences::ranks_all(list, prefs.r.len()));
    assert forall|r: u32| neighbors(prefs, p, n).contains(r) <==> list.to_set().contains(r) by {
        if neighbors(prefs, p, n).contains(r) {
            let j = choose|j: u32|
                j < n && #[trigger] in_subset(p, j) && j < prefs.b.len() && prefs.b[j as int].contains(
                    r,
                );
            let other = prefs.b[j as int];
            assert(crate::preferences::ranks_all(other, prefs.r.len()));
            let at = choose|at: int| 0 <= at < other.len() && other[at] == r;
            assert(other[at] < prefs.r.len());
            assert(list.contains(r));
        }
    }
    assert(neighbors(prefs, p, n) =~= list.to_set());
    list.unique_seq_to_set();
}

/// Where every member ranks the entire opposite side, Hall's condition is
/// answered with yes exactly if the two sides have equally many members.
pub proof fn lemma_halls_condition_of_complete(
    prefs: PreferencesView,
    answer: Result<bool, MatchError>,
)
    requires
        prefs.complete(),
        prefs.size() < 128,
        halls_ensures(prefs, answer),
    ensures
        (answer == Ok::<bool, MatchError>(true)) <==> prefs.b.len() == prefs.r.len(),
{
    let n = prefs.size();
    let nb = prefs.b.len();
    let nr = prefs.r.len();
    if nb == nr {
        assert forall|p: u128| #[trigger] passes(prefs, p, n) by {
            lemma_subset_size_bound(p, n);
            if subset_size(p, n) > 0 {
                lemma_subset_size_positive(p, n);
                let i = choose|i: u32| i < n && #[trigger] in_subset(p, i);
                lemma_neighbors_of_complete(prefs, p, n, i);
            }
        }
        match answer {
            Ok(true) => {},
            Ok(false) => {
                let p = choose|p: u128| #[trigger]
                    first_failing(prefs, p, n) && all_known(prefs, p, n);
                assert(passes(prefs, p, n));
            },
            Err(e) => {
                let (p, i) = choose|p: u128, i: u32|
                    #![trigger first_failing(prefs, p, n), lowest_unknown(prefs, p, n, i)]
                    first_failing(prefs, p, n) && lowest_unknown(prefs, p, n, i) && e
                        == MatchError::UnknownEntry(Entry::B(i));
                assert(passes(prefs, p, n));
            },
        }
    } else if nb > nr {
        let full = ((1u128 << (n as u32)) - 1) as u128;
        lemma_bits_full(0, n as u32);
        assert forall|i: u32| i < n implies #[trigger] in_subset(full, i) by {
            lemma_bits_full(i, n as u32);
        }
        lemma_subset_size_full(full, n);
        lemma_neighbors_of_complete(prefs, full, n, 0);
        assert(!passes(prefs, full, n));
    } else {
        let lone = 1u128 << (nb as u32);
        lemma_bit_alone(nb as u32, n as u32);
        assert(in_subset(lone, nb as u32));
        assert(!all_known(prefs, lone, n));
        assert(!passes(prefs, lone, n));
    }
}

} // verus!
