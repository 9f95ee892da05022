//! Blocking pairs: the pairs that would both rather be with each other than
//! with the partners a set of pairings gives them.

use vstd::prelude::*;
use crate::entry::Entry;
use crate::error::MatchError;
use crate::matching::{blocks, covers, lemma_complete_ranks, stable_matching};
use crate::pairings::{
    find, first_with, lemma_first_with_is_first, would_switch, Pairing, Pairings,
};
use crate::preferences::{Preferences, PreferencesView};

verus! {

/// Whether the B of pairing `p` and R`r2` block the pairings `s`: the B would
/// rather be with R`r2` than with its partner in `p`, and R`r2` would rather be
/// with that B than with its own partner, which is the first pairing of `s`
/// that holds R`r2`. An R is never set against itself. The answer is an error
/// where a rank is missing or, once the B is found willing, R`r2` has no pairing.
pub open spec fn challenge(s: Seq<Pairing>, prefs: PreferencesView, p: Pairing, r2: u32) -> Result<
    bool,
    MatchError,
> {
    if r2 == p.r {
        Ok(false)
    } else {
        match would_switch(prefs, p, Entry::R(r2)) {
            Err(e) => Err(e),
            Ok(false) => Ok(false),
            Ok(true) => match find(s, Entry::R(r2)) {
                None => Err(MatchError::UnknownEntry(Entry::R(r2))),
                Some(q) => would_switch(prefs, q, p.b()),
            },
        }
    }
}

/// Whether `(i, r)` comes before `(j, r2)` where the pairings are gone through
/// one by one and, for each, the R ids in rising order.
pub open spec fn comes_before(i: int, r: int, j: int, r2: int) -> bool {
    i < j || (i == j && r < r2)
}

/// Whether `q` is a blocking pair of the pairings `s` among the R ids below `n`.
pub open spec fn is_blocking(s: Seq<Pairing>, prefs: PreferencesView, n: nat, q: Pairing) -> bool {
    q.r < n && exists|i: int|
        0 <= i < s.len() && (#[trigger] s[i]).b == q.b && challenge(s, prefs, s[i], q.r) == Ok::<
            bool,
            MatchError,
        >(true)
}

/// The blocking pairs of the pairings `s` among the R ids below `n`.
pub open spec fn blocking_pairs(s: Seq<Pairing>, prefs: PreferencesView, n: nat) -> Set<Pairing> {
    Set::new(|q: Pairing| is_blocking(s, prefs, n, q))
}

/// Whether every challenge of the pairings `s` among the R ids below `n` has an answer.
pub open spec fn all_answered(s: Seq<Pairing>, prefs: PreferencesView, n: nat) -> bool {
    forall|i: int, r2: u32|
        0 <= i < s.len() && r2 < n ==> (#[trigger] challenge(s, prefs, s[i], r2)).is_ok()
}

/// Whether the challenge of `s[i]` by R`r2` is the first without an answer, and
/// fails with `e`.
pub open spec fn first_failure(
    s: Seq<Pairing>,
    prefs: PreferencesView,
    n: nat,
    i: int,
    r2: u32,
    e: MatchError,
) -> bool {
    &&& 0 <= i < s.len()
    &&& r2 < n
    &&& challenge(s, prefs, s[i], r2) == Err::<bool, MatchError>(e)
    &&& forall|j: int, r: u32|
        0 <= j < s.len() && r < n && comes_before(j, r as int, i, r2 as int) ==> (
        #[trigger] challenge(s, prefs, s[j], r)).is_ok()
}

/// Whether no pair blocks the pairings `s`: every challenge among the R ids
/// below `n` has an answer, and the answer is no.
pub open spec fn is_stable(s: Seq<Pairing>, prefs: PreferencesView, n: nat) -> bool {
    forall|i: int, r2: u32|
        0 <= i < s.len() && r2 < n ==> #[trigger] challenge(s, prefs, s[i], r2) == Ok::<
            bool,
            MatchError,
        >(false)
}

/// What `find_blocking_pairs` promises of what it found for the pairings `s`:
/// where every challenge has an answer, the blocking pairs, which are none
/// exactly where `s` is stable; else the error of the first challenge without
/// an answer.
pub open spec fn blocking_ensures(
    s: Seq<Pairing>,
    prefs: PreferencesView,
    found: Result<Pairings, MatchError>,
) -> bool {
    match found {
        Ok(blocking) => {
            &&& blocking.wf()
            &&& all_answered(s, prefs, prefs.size())
            &&& blocking@ == blocking_pairs(s, prefs, prefs.size())
            &&& blocking@.is_empty() == is_stable(s, prefs, prefs.size())
        },
        Err(e) => exists|i: int, r2: u32| first_failure(s, prefs, prefs.size(), i, r2, e),
    }
}

/// Lists the blocking pairs of `pairings`. Each pairing is set against every R
/// of the population but its own; no challenge is left out. Where a challenge
/// has no answer, the search ends with the error of the first such challenge.
/// The set that comes back is empty exactly where `pairings` is stable.
pub fn find_blocking_pairs(pairings: &Pairings, prefs: &Preferences) -> (found: Result<
    Pairings,
    MatchError,
>)
    requires
        pairings.wf(),
    ensures
        blocking_ensures(pairings.order(), prefs@, found),
{
    let all = pairings.get();
    let n = prefs.size();
    let ghost s = pairings.order();
    let ghost pv = prefs@;
    let mut blocking = Pairings::new(Vec::new());
    let mut i: usize = 0;
    while i < all.len()
        invariant
            i <= all.len(),
            all@ == s,
            s == pairings.order(),
            pv == prefs@,
            n == pv.size(),
            blocking.wf(),
            forall|j: int, r: u32|
                0 <= j < i && r < n ==> (#[trigger] challenge(s, pv, s[j], r)).is_ok(),
            forall|q: Pairing|
                blocking@.contains(q) <==> q.r < n && exists|j: int|
                    0 <= j < i && (#[trigger] s[j]).b == q.b && challenge(s, pv, s[j], q.r) == Ok::<
                        bool,
                        MatchError,
                    >(true),
        decreases all.len() - i,
    {
        let p = all[i];
        let mut r2: u32 = 0;
        while r2 < n
            invariant
                i < all.len(),
                r2 <= n,
                p == s[i as int],
                all@ == s,
                s == pairings.order(),
                pv == prefs@,
                n == pv.size(),
                blocking.wf(),
                forall|j: int, r: u32|
                    0 <= j < s.len() && r < n && comes_before(j, r as int, i as int, r2 as int) ==> (
                    #[trigger] challenge(s, pv, s[j], r)).is_ok(),
                forall|q: Pairing|
                    blocking@.contains(q) <==> q.r < n && exists|j: int|
                        0 <= j <= i && (#[trigger] s[j]).b == q.b && (j == i ==> q.r < r2)
                            && challenge(s, pv, s[j], q.r) == Ok::<bool, MatchError>(true),
            decreases n - r2,
        {
            let ghost before = blocking@;
            let mut blocks = false;
            if r2 != p.r {
                let rival = Entry::R(r2);
                match p.prefers(&rival, prefs) {
                    Err(e) => {
                        assert(first_failure(s, pv, n as nat, i as int, r2, e));
                        return Err(e);
                    },
                    Ok(false) => {},
                    Ok(true) => {
                        match pairings.with(&rival) {
                            None => {
                                let e = MatchError::UnknownEntry(rival);
                                assert(first_failure(s, pv, n as nat, i as int, r2, e));
                                return Err(e);
                            },
                            Some(q) => {
                                match q.prefers(&p.b(), prefs) {
                                    Err(e) => {
                                        assert(first_failure(s, pv, n as nat, i as int, r2, e));
                                        return Err(e);
                                    },
                                    Ok(yes) => {
                                        blocks = yes;
                                    },
                                }
                            },
                        }
                    },
                }
            }
            assert(challenge(s, pv, p, r2) == Ok::<bool, MatchError>(blocks));
            if blocks {
                blocking.add(Pairing::new(p.b, r2));
            }
            proof {
                let next = (r2 + 1) as u32;
                assert forall|q: Pairing|
                    blocking@.contains(q) <==> q.r < n && exists|j: int|
                        0 <= j <= i && (#[trigger] s[j]).b == q.b && (j == i ==> q.r < next)
                            && challenge(s, pv, s[j], q.r) == Ok::<bool, MatchError>(true) by {
                    let was = q.r < n && exists|j: int|
                        0 <= j <= i && (#[trigger] s[j]).b == q.b && (j == i ==> q.r < r2)
                            && challenge(s, pv, s[j], q.r) == Ok::<bool, MatchError>(true);
                    assert(before.contains(q) == was);
                    if blocking@.contains(q) {
                        if before.contains(q) {
                            let j = choose|j: int|
                                0 <= j <= i && (#[trigger] s[j]).b == q.b && (j == i ==> q.r < r2)
                                    && challenge(s, pv, s[j], q.r) == Ok::<bool, MatchError>(true);
                            assert(s[j].b == q.b && (j == i ==> q.r < next));
                        } else {
                            assert(q == Pairing::new(p.b, r2));
                            assert(s[i as int].b == q.b);
                        }
                    }
                    if q.r < n && exists|j: int|
                        0 <= j <= i && (#[trigger] s[j]).b == q.b && (j == i ==> q.r < next)
                            && challenge(s, pv, s[j], q.r) == Ok::<bool, MatchError>(true) {
                        let j = choose|j: int|
                            0 <= j <= i && (#[trigger] s[j]).b == q.b && (j == i ==> q.r < next)
                                && challenge(s, pv, s[j], q.r) == Ok::<bool, MatchError>(true);
                        if j == i && q.r == r2 {
                            assert(q == Pairing::new(p.b, r2));
                        } else {
                            assert(s[j].b == q.b && (j == i ==> q.r < r2));
                            assert(was);
                        }
                    }
                }
            }
            r2 += 1;
        }
        proof {
            assert forall|q: Pairing|
                blocking@.contains(q) <==> q.r < n && exists|j: int|
                    0 <= j < i + 1 && (#[trigger] s[j]).b == q.b && challenge(s, pv, s[j], q.r) == Ok::<
                        bool,
                        MatchError,
                    >(true) by {
                if blocking@.contains(q) {
                    let j = choose|j: int|
                        0 <= j <= i && (#[trigger] s[j]).b == q.b && (j == i ==> q.r < r2) && challenge(
                            s,
                            pv,
                            s[j],
                            q.r,
                        ) == Ok::<bool, MatchError>(true);
                    assert(s[j].b == q.b);
                }
                if q.r < n && exists|j: int|
                    0 <= j < i + 1 && (#[trigger] s[j]).b == q.b && challenge(s, pv, s[j], q.r) == Ok::<
                        bool,
                        MatchError,
                    >(true) {
                    let j = choose|j: int|
                        0 <= j < i + 1 && (#[trigger] s[j]).b == q.b && challenge(s, pv, s[j], q.r)
                            == Ok::<bool, MatchError>(true);
                    assert(s[j].b == q.b && (j == i ==> q.r < r2));
                }
            }
            assert forall|j: int, r: u32| 0 <= j < i + 1 && r < n implies (#[trigger] challenge(
                s,
                pv,
                s[j],
                r,
            )).is_ok() by {
                assert(comes_before(j, r as int, i as int, r2 as int));
            }
        }
        i += 1;
    }
    proof {
        assert(blocking@ =~= blocking_pairs(s, pv, n as nat)) by {
            assert forall|q: Pairing| blocking@.contains(q) <==> is_blocking(s, pv, n as nat, q) by {
                if blocking@.contains(q) {
                    let j = choose|j: int|
                        0 <= j < i && (#[trigger] s[j]).b == q.b && challenge(s, pv, s[j], q.r) == Ok::<
                            bool,
                            MatchError,
                        >(true);
                    assert(s[j].b == q.b);
                }
                if is_blocking(s, pv, n as nat, q) {
                    let j = choose|j: int|
                        0 <= j < s.len() && (#[trigger] s[j]).b == q.b && challenge(s, pv, s[j], q.r)
                            == Ok::<bool, MatchError>(true);
                    assert(s[j].b == q.b);
                }
            }
        }
        lemma_stable_iff_none_blocks(s, pv, n as nat);
    }
    Ok(blocking)
}

/// Where every challenge has an answer, the pairings are stable exactly if no
/// pair blocks them.
pub proof fn lemma_stable_iff_none_blocks(s: Seq<Pairing>, prefs: PreferencesView, n: nat)
    requires
        all_answered(s, prefs, n),
    ensures
        is_stable(s, prefs, n) == blocking_pairs(s, prefs, n).is_empty(),
{
    let found = blocking_pairs(s, prefs, n);
    if is_stable(s, prefs, n) {
        assert forall|q: Pairing| !found.contains(q) by {
            if is_blocking(s, prefs, n, q) {
                let j = choose|j: int|
                    0 <= j < s.len() && (#[trigger] s[j]).b == q.b && challenge(s, prefs, s[j], q.r)
                        == Ok::<bool, MatchError>(true);
                assert(challenge(s, prefs, s[j], q.r) == Ok::<bool, MatchError>(false));
            }
        }
        assert(found =~= Set::empty());
    } else {
        let (i, r2) = choose|i: int, r2: u32|
            0 <= i < s.len() && r2 < n && #[trigger] challenge(s, prefs, s[i], r2) != Ok::<
                bool,
                MatchError,
            >(false);
        assert(challenge(s, prefs, s[i], r2).is_ok());
        let q = Pairing::new(s[i].b, r2);
        assert(s[i].b == q.b);
        assert(is_blocking(s, prefs, n, q));
        assert(found.contains(q));
    }
}

/// In a balanced structure a stable matching stands every challenge: each has
/// an answer, and the answer is no.
pub proof fn lemma_stable_matching_is_stable(s: Seq<Pairing>, prefs: PreferencesView)
    requires
        prefs.wf(),
        prefs.balanced(),
        stable_matching(s.to_set(), prefs, prefs.size()),
    ensures
        is_stable(s, prefs, prefs.size()),
        all_answered(s, prefs, prefs.size()),
{
    let n = prefs.size();
    let m = s.to_set();
    assert forall|i: int, r2: u32| 0 <= i < s.len() && r2 < n implies #[trigger] challenge(
        s,
        prefs,
        s[i],
        r2,
    ) == Ok::<bool, MatchError>(false) by {
        let p = s[i];
        assert(m.contains(p));
        if r2 != p.r {
            let rival = Entry::R(r2);
            lemma_complete_ranks(prefs, p.b(), p.r());
            lemma_complete_ranks(prefs, p.b(), rival);
            if would_switch(prefs, p, rival) == Ok::<bool, MatchError>(true) {
                assert(covers(m, rival));
                let w = choose|w: Pairing| #[trigger] m.contains(w) && w.holds(rival);
                let j = choose|j: int| 0 <= j < s.len() && s[j] == w;
                lemma_first_with_is_first(s, rival);
                let at = first_with(s, rival);
                if at == s.len() {
                    assert(!s[j].holds(rival));
                }
                let q = s[at];
                assert(m.contains(q));
                assert(q.r == r2);
                lemma_complete_ranks(prefs, rival, q.b());
                lemma_complete_ranks(prefs, rival, p.b());
                if would_switch(prefs, q, p.b()) == Ok::<bool, MatchError>(true) {
                    assert(blocks(prefs, p, q));
                }
            }
        }
    }
}

/// Checking the same pairings twice gives the same: the same blocking pairs,
/// or the same error. For stable pairings both checks give the empty set.
pub proof fn lemma_check_repeats(
    s: Seq<Pairing>,
    prefs: PreferencesView,
    first: Result<Pairings, MatchError>,
    second: Result<Pairings, MatchError>,
)
    requires
        blocking_ensures(s, prefs, first),
        blocking_ensures(s, prefs, second),
    ensures
        match (first, second) {
            (Ok(a), Ok(b)) => a@ == b@,
            (Err(e1), Err(e2)) => e1 == e2,
            _ => false,
        },
        is_stable(s, prefs, prefs.size()) ==> first is Ok && first.unwrap()@ == Set::<
            Pairing,
        >::empty() && second is Ok && second.unwrap()@ == Set::<Pairing>::empty(),
{
    let n = prefs.size();
    if first is Err {
        let e1 = first->Err_0;
        let (i, r2) = choose|i: int, r2: u32| first_failure(s, prefs, n, i, r2, e1);
        assert(!challenge(s, prefs, s[i], r2).is_ok());
        if second is Err {
            let e2 = second->Err_0;
            let (j, r) = choose|j: int, r: u32| first_failure(s, prefs, n, j, r, e2);
            assert(!challenge(s, prefs, s[j], r).is_ok());
            if comes_before(i, r2 as int, j, r as int) {
            } else if comes_before(j, r as int, i, r2 as int) {
            }
        }
    } else if second is Err {
        let e2 = second->Err_0;
        let (j, r) = choose|j: int, r: u32| first_failure(s, prefs, n, j, r, e2);
        assert(!challenge(s, prefs, s[j], r).is_ok());
    }
    if is_stable(s, prefs, n) {
        assert forall|i: int, r2: u32| 0 <= i < s.len() && r2 < n implies (#[trigger] challenge(
            s,
            prefs,
            s[i],
            r2,
        )).is_ok() by {}
        assert(first.unwrap()@ =~= Set::<Pairing>::empty());
        assert(second.unwrap()@ =~= Set::<Pairing>::empty());
    }
}

} // verus!
