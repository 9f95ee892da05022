//! The ranking that every member holds over the opposite population.

use vstd::prelude::*;
use std::collections::HashSet;
use crate::entry::{Entry, Side};
use crate::error::MatchError;

verus! {

broadcast use vstd::std_specs::hash::group_hash_axioms;

/// The mathematical content of a [`Preferences`]: for each side, the list of
/// each member, most preferred candidate first. A candidate's rank is its
/// position in the list.
pub struct PreferencesView {
    pub b: Seq<Seq<u32>>,
    pub r: Seq<Seq<u32>>,
}

/// A list names no candidate twice and is short enough for its ranks to fit in `u32`.
pub open spec fn is_ranking(list: Seq<u32>) -> bool {
    list.no_duplicates() && list.len() <= u32::MAX
}

/// A list ranks each of the ids below `n` once, and nothing else.
pub open spec fn ranks_all(list: Seq<u32>, n: nat) -> bool {
    &&& list.len() == n
    &&& list.no_duplicates()
    &&& forall|i: int| 0 <= i < list.len() ==> list[i] < n
    &&& forall|id: u32| id < n ==> list.contains(id)
}

/// The ids of `list` as members of population `side`, in the same order.
pub open spec fn as_entries(side: Side, list: Seq<u32>) -> Seq<Entry> {
    Seq::new(list.len(), |i: int| Entry::new(side, list[i]))
}

impl PreferencesView {
    /// The lists of the members of one side, by id.
    pub open spec fn lists(self, side: Side) -> Seq<Seq<u32>> {
        match side {
            Side::B => self.b,
            Side::R => self.r,
        }
    }

    /// How many members of `side` have a list.
    pub open spec fn count(self, side: Side) -> nat {
        self.lists(side).len()
    }

    /// The population size: the larger of the two counts.
    pub open spec fn size(self) -> nat {
        if self.b.len() >= self.r.len() {
            self.b.len()
        } else {
            self.r.len()
        }
    }

    /// Whether `e` has a list.
    pub open spec fn knows(self, e: Entry) -> bool {
        e.id() < self.count(e.side())
    }

    /// The list of `e`, most preferred first.
    pub open spec fn list(self, e: Entry) -> Seq<u32> {
        self.lists(e.side())[e.id() as int]
    }

    /// Whether `subject` has a list and that list names `candidate`.
    pub open spec fn ranks(self, subject: Entry, candidate: Entry) -> bool {
        &&& self.knows(subject)
        &&& candidate.side() == subject.side().opposite()
        &&& self.list(subject).contains(candidate.id())
    }

    /// The rank that `subject` gives to `candidate`, 0 for the most preferred.
    /// Meaningful where `ranks(subject, candidate)` holds.
    pub open spec fn rank(self, subject: Entry, candidate: Entry) -> int {
        self.list(subject).index_of(candidate.id())
    }

    /// Whether `subject` ranks both candidates and puts `a` strictly before `b`.
    pub open spec fn prefers(self, subject: Entry, a: Entry, b: Entry) -> bool {
        &&& self.ranks(subject, a)
        &&& self.ranks(subject, b)
        &&& self.rank(subject, a) < self.rank(subject, b)
    }

    /// Every list is a ranking and the counts fit in `u32`.
    pub open spec fn wf(self) -> bool {
        &&& self.b.len() <= u32::MAX
        &&& self.r.len() <= u32::MAX
        &&& forall|i: int| 0 <= i < self.b.len() ==> is_ranking(#[trigger] self.b[i])
        &&& forall|i: int| 0 <= i < self.r.len() ==> is_ranking(#[trigger] self.r[i])
    }

    /// Every member ranks the entire opposite population.
    pub open spec fn complete(self) -> bool {
        &&& forall|i: int| 0 <= i < self.b.len() ==> ranks_all(#[trigger] self.b[i], self.r.len())
        &&& forall|i: int| 0 <= i < self.r.len() ==> ranks_all(#[trigger] self.r[i], self.b.len())
    }

    /// Complete, with as many members on one side as on the other.
    pub open spec fn balanced(self) -> bool {
        self.complete() && self.b.len() == self.r.len()
    }
}

/// The lists of a vector of lists.
pub open spec fn lists_view(lists: Vec<Vec<u32>>) -> Seq<Seq<u32>> {
    Seq::new(lists@.len(), |i: int| lists@[i]@)
}

/// For every member of the two populations, its ranking of the opposite side.
pub struct Preferences {
    b_lists: Vec<Vec<u32>>,
    r_lists: Vec<Vec<u32>>,
}

impl View for Preferences {
    type V = PreferencesView;

    /// The lists of the two sides.
    closed spec fn view(&self) -> PreferencesView {
        PreferencesView { b: lists_view(self.b_lists), r: lists_view(self.r_lists) }
    }
}

/// Whether no id occurs twice in `list`.
pub fn has_no_repeats(list: &Vec<u32>) -> (ok: bool)
    ensures
        ok == list@.no_duplicates(),
{
    let mut seen: HashSet<u32> = HashSet::new();
    let mut i: usize = 0;
    while i < list.len()
        invariant
            i <= list.len(),
            list@.take(i as int).no_duplicates(),
            seen@ == list@.take(i as int).to_set(),
        decreases list.len() - i,
    {
        let ghost before = list@.take(i as int);
        let fresh = seen.insert(list[i]);
        if !fresh {
            proof {
                assert(before.contains(list@[i as int]));
                let j = choose|j: int| 0 <= j < before.len() && before[j] == list@[i as int];
                assert(list@[j] == list@[i as int] && j != i);
            }
            return false;
        }
        proof {
            assert(list@.take(i + 1) =~= before.push(list@[i as int]));
            before.lemma_push_to_set_commute(list@[i as int]);
            assert(!before.contains(list@[i as int]));
        }
        i += 1;
    }
    assert(list@.take(i as int) =~= list@);
    true
}

/// Whether every list of `lists` is a ranking.
fn all_rankings(lists: &Vec<Vec<u32>>) -> (ok: bool)
    ensures
        ok == (forall|i: int| 0 <= i < lists@.len() ==> is_ranking(#[trigger] lists_view(*lists)[i])),
{
    let mut i: usize = 0;
    while i < lists.len()
        invariant
            i <= lists.len(),
            forall|j: int| 0 <= j < i ==> is_ranking(#[trigger] lists_view(*lists)[j]),
        decreases lists.len() - i,
    {
        if lists[i].len() > u32::MAX as usize || !has_no_repeats(&lists[i]) {
            assert(!is_ranking(lists_view(*lists)[i as int]));
            return false;
        }
        i += 1;
    }
    true
}

/// Whether the ranking `list` ranks each of the ids below `n` and nothing else.
fn ranks_whole(list: &Vec<u32>, n: usize) -> (ok: bool)
    requires
        is_ranking(list@),
    ensures
        ok == ranks_all(list@, n as nat),
{
    if list.len() != n {
        return false;
    }
    let mut marks: Vec<bool> = Vec::new();
    let mut c: usize = 0;
    while c < n
        invariant
            c <= n,
            marks.len() == c,
            forall|x: int| 0 <= x < c ==> !#[trigger] marks@[x],
        decreases n - c,
    {
        marks.push(false);
        c += 1;
    }
    let mut i: usize = 0;
    while i < n
        invariant
            i <= n,
            n <= u32::MAX,
            list.len() == n,
            marks.len() == n,
            forall|j: int| 0 <= j < i ==> list@[j] < n,
            forall|x: int|
                0 <= x < n ==> (#[trigger] marks@[x] <==> list@.take(i as int).contains(x as u32)),
        decreases n - i,
    {
        let id = list[i] as usize;
        if id >= n {
            return false;
        }
        let ghost before = marks@;
        marks.set(id, true);
        proof {
            let was = list@.take(i as int);
            let now = list@.take(i + 1);
            assert(now =~= was.push(list@[i as int]));
            assert forall|x: int| 0 <= x < n implies (#[trigger] marks@[x] <==> now.contains(
                x as u32,
            )) by {
                assert(before[x] <==> was.contains(x as u32));
                if was.contains(x as u32) {
                    let j = choose|j: int| 0 <= j < was.len() && was[j] == x as u32;
                    assert(now[j] == x as u32);
                }
                if now.contains(x as u32) {
                    let j = choose|j: int| 0 <= j < now.len() && now[j] == x as u32;
                    if j < i {
                        assert(was[j] == x as u32);
                    }
                }
                assert(now[i as int] == list@[i as int]);
            }
        }
        i += 1;
    }
    proof {
        assert(list@.take(i as int) =~= list@);
    }
    let mut x: usize = 0;
    while x < n
        invariant
            x <= n,
            n <= u32::MAX,
            marks.len() == n,
            forall|y: int| 0 <= y < n ==> (#[trigger] marks@[y] <==> list@.contains(y as u32)),
            forall|y: int| 0 <= y < x ==> marks@[y],
        decreases n - x,
    {
        if !marks[x] {
            assert(!list@.contains(x as u32));
            return false;
        }
        x += 1;
    }
    proof {
        assert forall|id: u32| id < n implies list@.contains(id) by {
            assert(marks@[id as int]);
        }
    }
    true
}

/// Whether every list of `lists` ranks each of the ids below `n` and nothing else.
fn all_rank_whole(lists: &Vec<Vec<u32>>, n: usize) -> (ok: bool)
    requires
        forall|i: int| 0 <= i < lists@.len() ==> is_ranking(#[trigger] lists_view(*lists)[i]),
    ensures
        ok == (forall|i: int|
            0 <= i < lists@.len() ==> ranks_all(#[trigger] lists_view(*lists)[i], n as nat)),
{
    let mut i: usize = 0;
    while i < lists.len()
        invariant
            i <= lists.len(),
            forall|j: int| 0 <= j < lists@.len() ==> is_ranking(#[trigger] lists_view(*lists)[j]),
            forall|j: int| 0 <= j < i ==> ranks_all(#[trigger] lists_view(*lists)[j], n as nat),
        decreases lists.len() - i,
    {
        proof {
            assert(is_ranking(lists_view(*lists)[i as int]));
        }
        if !ranks_whole(&lists[i], n) {
            assert(!ranks_all(lists_view(*lists)[i as int], n as nat));
            return false;
        }
        i += 1;
    }
    true
}

impl Preferences {
    /// What holds of every value of the type: its lists are rankings.
    #[verifier::type_invariant]
    pub open spec fn inv(&self) -> bool {
        self@.wf()
    }

    /// Builds the preferences from the lists of the two sides: `b_lists[i]` holds
    /// the R ids that B`i` ranks, most preferred first, and `r_lists[i]` the B
    /// ids that R`i` ranks. Fails where a list names an id twice or a length does
    /// not fit in `u32`.
    pub fn new(b_lists: Vec<Vec<u32>>, r_lists: Vec<Vec<u32>>) -> (made: Option<Preferences>)
        ensures
            made.is_some() == (PreferencesView {
                b: lists_view(b_lists),
                r: lists_view(r_lists),
            }).wf(),
            made matches Some(p) ==> p@.b == lists_view(b_lists) && p@.r == lists_view(r_lists),
    {
        if b_lists.len() > u32::MAX as usize || r_lists.len() > u32::MAX as usize {
            return None;
        }
        if !all_rankings(&b_lists) || !all_rankings(&r_lists) {
            return None;
        }
        Some(Preferences { b_lists, r_lists })
    }

    /// The number of members of `side` that have a list.
    pub fn count(&self, side: Side) -> (n: u32)
        ensures
            n == self@.count(side),
    {
        proof {
            use_type_invariant(self);
        }
        match side {
            Side::B => self.b_lists.len() as u32,
            Side::R => self.r_lists.len() as u32,
        }
    }

    /// The population size: the larger of the two counts.
    pub fn size(&self) -> (n: u32)
        ensures
            n == self@.size(),
    {
        let nb = self.count(Side::B);
        let nr = self.count(Side::R);
        if nb >= nr {
            nb
        } else {
            nr
        }
    }

    /// Whether every member ranks the entire opposite population.
    pub fn is_complete(&self) -> (ok: bool)
        ensures
            ok == self@.complete(),
    {
        proof {
            use_type_invariant(self);
        }
        all_rank_whole(&self.b_lists, self.r_lists.len()) && all_rank_whole(
            &self.r_lists,
            self.b_lists.len(),
        )
    }

    /// Whether the structure is complete and its two sides have equally many
    /// members: what deferred acceptance needs to pair everyone.
    pub fn is_balanced(&self) -> (ok: bool)
        ensures
            ok == self@.balanced(),
    {
        self.b_lists.len() == self.r_lists.len() && self.is_complete()
    }

    /// The list of a known member.
    fn list_of(&self, e: &Entry) -> (list: &Vec<u32>)
        requires
            self@.knows(*e),
        ensures
            list@ == self@.list(*e),
            is_ranking(list@),
    {
        proof {
            use_type_invariant(self);
            assert(is_ranking(self@.lists(e.side())[e.id() as int]));
        }
        match e {
            Entry::B(id) => &self.b_lists[*id as usize],
            Entry::R(id) => &self.r_lists[*id as usize],
        }
    }

    /// The rank that `k` gives to `v`, 0 for the most preferred. Fails with the
    /// entry that is not there: `k` where it has no list, else `v` where `k` does
    /// not rank it.
    pub fn get(&self, k: &Entry, v: &Entry) -> (found: Result<u32, MatchError>)
        ensures
            match found {
                Ok(rank) => self@.ranks(*k, *v) && rank == self@.rank(*k, *v),
                Err(e) => !self@.ranks(*k, *v) && e == MatchError::UnknownEntry(
                    if self@.knows(*k) {
                        *v
                    } else {
                        *k
                    },
                ),
            },
    {
        if k.id() >= self.count(k.side()) {
            return Err(MatchError::UnknownEntry(*k));
        }
        if v.side() != k.side().opposite() {
            return Err(MatchError::UnknownEntry(*v));
        }
        let list = self.list_of(k);
        let id = v.id();
        let mut i: usize = 0;
        while i < list.len()
            invariant
                i <= list.len(),
                is_ranking(list@),
                list@ == self@.list(*k),
                self@.knows(*k),
                v.side() == k.side().opposite(),
                id == v.id(),
                forall|j: int| 0 <= j < i ==> list@[j] != id,
            decreases list.len() - i,
        {
            if list[i] == id {
                proof {
                    assert(list@.contains(id));
                    let j = list@.index_of(id);
                    assert(list@[j] == list@[i as int]);
                }
                return Ok(i as u32);
            }
            i += 1;
        }
        Err(MatchError::UnknownEntry(*v))
    }

    /// The candidates that `k` ranks, most preferred first. Fails where `k` has
    /// no list.
    pub fn get_all(&self, k: &Entry) -> (found: Result<Vec<Entry>, MatchError>)
        ensures
            match found {
                Ok(entries) => self@.knows(*k) && entries@ == as_entries(
                    k.side().opposite(),
                    self@.list(*k),
                ),
                Err(e) => !self@.knows(*k) && e == MatchError::UnknownEntry(*k),
            },
    {
        if k.id() >= self.count(k.side()) {
            return Err(MatchError::UnknownEntry(*k));
        }
        let list = self.list_of(k);
        let side = k.side().opposite();
        let mut entries: Vec<Entry> = Vec::new();
        let mut i: usize = 0;
        while i < list.len()
            invariant
                i <= list.len(),
                entries@ == as_entries(side, list@.take(i as int)),
            decreases list.len() - i,
        {
            entries.push(Entry::new(side, list[i]));
            proof {
                assert(entries@ =~= as_entries(side, list@.take(i + 1)));
            }
            i += 1;
        }
        assert(list@.take(i as int) =~= list@);
        Ok(entries)
    }

    /// The ids of the candidates that `k` ranks, as a set without order. Fails
    /// where `k` has no list.
    pub fn get_all_hashset(&self, k: &Entry) -> (found: Result<HashSet<u32>, MatchError>)
        ensures
            match found {
                Ok(ids) => self@.knows(*k) && ids@ == self@.list(*k).to_set(),
                Err(e) => !self@.knows(*k) && e == MatchError::UnknownEntry(*k),
            },
    {
        if k.id() >= self.count(k.side()) {
            return Err(MatchError::UnknownEntry(*k));
        }
        let list = self.list_of(k);
        let mut ids: HashSet<u32> = HashSet::new();
        let mut i: usize = 0;
        while i < list.len()
            invariant
                i <= list.len(),
                ids@ == list@.take(i as int).to_set(),
            decreases list.len() - i,
        {
            ids.insert(list[i]);
            proof {
                let before = list@.take(i as int);
                assert(list@.take(i + 1) =~= before.push(list@[i as int]));
                before.lemma_push_to_set_commute(list@[i as int]);
            }
            i += 1;
        }
        proof {
            assert(list@.take(i as int) =~= list@);
        }
        Ok(ids)
    }
}

} // verus!
