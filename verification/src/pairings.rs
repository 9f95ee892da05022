//! Matched pairs, and sets of them.

use vstd::prelude::*;
use crate::entry::{Entry, Side};
use crate::error::MatchError;
use crate::preferences::{Preferences, PreferencesView};

verus! {

/// A B member and an R member taken together.
#[derive(Ord, PartialOrd, Eq, PartialEq, Hash, Copy, Clone, Debug, Structural)]
pub struct Pairing {
    pub b: u32,
    pub r: u32,
}

impl Pairing {
    /// The pairing of B`b` with R`r`, in contracts.
    pub open spec fn spec_new(b: u32, r: u32) -> Pairing {
        Pairing { b, r }
    }

    /// The pairing of B`b` with R`r`.
    #[verifier::when_used_as_spec(spec_new)]
    pub fn new(b: u32, r: u32) -> (p: Pairing)
        ensures
            p == Pairing::spec_new(b, r),
    {
        Self { b, r }
    }

    /// The pairing of two entries of different sides, whichever comes first, in
    /// contracts.
    pub open spec fn spec_from(e1: Entry, e2: Entry) -> Pairing {
        match e1 {
            Entry::B(b) => Pairing { b, r: e2.id() },
            Entry::R(r) => Pairing { b: e2.id(), r },
        }
    }

    /// The pairing of two entries, one of each side, given in either order.
    #[verifier::when_used_as_spec(spec_from)]
    pub fn from(e1: Entry, e2: Entry) -> (p: Pairing)
        requires
            e1.side() != e2.side(),
        ensures
            p == Pairing::spec_from(e1, e2),
            p.holds(e1),
            p.holds(e2),
    {
        match e1 {
            Entry::B(b) => Self::new(b, e2.id()),
            Entry::R(r) => Self::new(e2.id(), r),
        }
    }

    /// The B member of the pairing, in contracts.
    pub open spec fn spec_b(&self) -> Entry {
        Entry::B(self.b)
    }

    /// The B member of the pairing.
    #[verifier::when_used_as_spec(spec_b)]
    pub fn b(&self) -> (e: Entry)
        ensures
            e == self.spec_b(),
    {
        Entry::B(self.b)
    }

    /// The R member of the pairing, in contracts.
    pub open spec fn spec_r(&self) -> Entry {
        Entry::R(self.r)
    }

    /// The R member of the pairing.
    #[verifier::when_used_as_spec(spec_r)]
    pub fn r(&self) -> (e: Entry)
        ensures
            e == self.spec_r(),
    {
        Entry::R(self.r)
    }

    /// The member of the pairing that belongs to `side`, in contracts.
    pub open spec fn spec_on(&self, side: Side) -> Entry {
        match side {
            Side::B => Entry::B(self.b),
            Side::R => Entry::R(self.r),
        }
    }

    /// The member of the pairing that belongs to `side`.
    #[verifier::when_used_as_spec(spec_on)]
    pub fn on(&self, side: Side) -> (e: Entry)
        ensures
            e == self.spec_on(side),
    {
        match side {
            Side::B => Entry::B(self.b),
            Side::R => Entry::R(self.r),
        }
    }

    /// Whether `e` is one of the two members.
    pub open spec fn holds(&self, e: Entry) -> bool {
        self.spec_on(e.side()) == e
    }

    /// Whether the member opposite to `e` would rather be with `e` than with its
    /// present partner: for a B entry, whether this pairing's R ranks it before
    /// this pairing's B; for an R entry, whether this pairing's B ranks it before
    /// this pairing's R. The present partner's rank is looked up first, then that
    /// of `e`; the first lookup that fails gives the error.
    pub fn prefers(&self, e: &Entry, prefs: &Preferences) -> (better: Result<bool, MatchError>)
        ensures
            better == would_switch(prefs@, *self, *e),
    {
        let judge = self.on(e.side().opposite());
        let present = self.on(e.side());
        let held = match prefs.get(&judge, &present) {
            Ok(rank) => rank,
            Err(err) => {
                return Err(err);
            },
        };
        let offered = match prefs.get(&judge, e) {
            Ok(rank) => rank,
            Err(err) => {
                return Err(err);
            },
        };
        Ok(held > offered)
    }
}

/// The answer to whether the member of `p` opposite to `e`, the judge, would
/// rather be with `e` than with its present partner in `p`: yes where it ranks
/// `e` strictly before that partner. Where the judge has no list, the judge is
/// unknown; else the first of the present partner and `e` that it does not rank.
pub open spec fn would_switch(prefs: PreferencesView, p: Pairing, e: Entry) -> Result<
    bool,
    MatchError,
> {
    let judge = p.on(e.side().opposite());
    let present = p.on(e.side());
    if !prefs.knows(judge) {
        Err(MatchError::UnknownEntry(judge))
    } else if !prefs.ranks(judge, present) {
        Err(MatchError::UnknownEntry(present))
    } else if !prefs.ranks(judge, e) {
        Err(MatchError::UnknownEntry(e))
    } else {
        Ok(prefs.rank(judge, e) < prefs.rank(judge, present))
    }
}

/// The position in `s` of the first pairing that holds `e`; the length of `s`
/// where there is none.
pub open spec fn first_with(s: Seq<Pairing>, e: Entry) -> int
    decreases s.len(),
{
    if s.len() == 0 {
        0
    } else if s[0].holds(e) {
        0
    } else {
        1 + first_with(s.drop_first(), e)
    }
}

/// The first pairing of `s` that holds `e`.
pub open spec fn find(s: Seq<Pairing>, e: Entry) -> Option<Pairing> {
    if first_with(s, e) < s.len() {
        Some(s[first_with(s, e)])
    } else {
        None
    }
}

/// `s` without its first pairing that holds `e`.
pub open spec fn released(s: Seq<Pairing>, e: Entry) -> Seq<Pairing> {
    if first_with(s, e) < s.len() {
        s.remove(first_with(s, e))
    } else {
        s
    }
}

/// `s` with `p` at its end, unless `s` holds `p` already.
pub open spec fn joined(s: Seq<Pairing>, p: Pairing) -> Seq<Pairing> {
    if s.contains(p) {
        s
    } else {
        s.push(p)
    }
}

/// The pairings of `items` joined one after the other to `s`.
pub open spec fn joined_all(s: Seq<Pairing>, items: Seq<Pairing>) -> Seq<Pairing>
    decreases items.len(),
{
    if items.len() == 0 {
        s
    } else {
        joined(joined_all(s, items.drop_last()), items.last())
    }
}

/// `first_with` is the one position that holds `e` and has none before it that does.
pub proof fn lemma_first_with(s: Seq<Pairing>, e: Entry, i: int)
    requires
        0 <= i <= s.len(),
        forall|j: int| 0 <= j < i ==> !(#[trigger] s[j]).holds(e),
        i < s.len() ==> s[i].holds(e),
    ensures
        first_with(s, e) == i,
    decreases s.len(),
{
    if s.len() > 0 && i > 0 {
        let rest = s.drop_first();
        assert forall|j: int| 0 <= j < i - 1 implies !(#[trigger] rest[j]).holds(e) by {
            assert(rest[j] == s[j + 1]);
        }
        lemma_first_with(rest, e, i - 1);
        assert(!s[0].holds(e));
    }
}

/// What `first_with` finds: a position within the bounds, nothing before it
/// holds `e`, and the pairing there does.
pub proof fn lemma_first_with_is_first(s: Seq<Pairing>, e: Entry)
    ensures
        0 <= first_with(s, e) <= s.len(),
        forall|j: int| 0 <= j < first_with(s, e) ==> !(#[trigger] s[j]).holds(e),
        first_with(s, e) < s.len() ==> s[first_with(s, e)].holds(e),
    decreases s.len(),
{
    if s.len() > 0 && !s[0].holds(e) {
        let rest = s.drop_first();
        lemma_first_with_is_first(rest, e);
        assert forall|j: int| 0 <= j < first_with(s, e) implies !(#[trigger] s[j]).holds(e) by {
            if j > 0 {
                assert(rest[j - 1] == s[j]);
            }
        }
    }
}

/// A set of pairings. As a matching it pairs no member twice; as a list of
/// candidate pairs it may. The pairings are kept in the order in which they
/// came, which decides what `with` finds where several hold the same member.
#[derive(Debug)]
pub struct Pairings {
    items: Vec<Pairing>,
}

impl View for Pairings {
    type V = Set<Pairing>;

    /// The pairings as a set.
    open spec fn view(&self) -> Set<Pairing> {
        self.order().to_set()
    }
}

impl Pairings {
    /// The pairings in the order in which they came.
    pub closed spec fn order(&self) -> Seq<Pairing> {
        self.items@
    }

    /// No pairing is held twice.
    pub open spec fn wf(&self) -> bool {
        self.order().no_duplicates()
    }

    /// The set of the given pairings; one that is given twice counts once.
    pub fn new(pairings: Vec<Pairing>) -> (made: Pairings)
        ensures
            made.wf(),
            made.order() == joined_all(Seq::empty(), pairings@),
            made@ == pairings@.to_set(),
    {
        let mut made = Pairings { items: Vec::new() };
        let mut i: usize = 0;
        while i < pairings.len()
            invariant
                i <= pairings.len(),
                made.wf(),
                made.order() == joined_all(Seq::empty(), pairings@.take(i as int)),
                made@ == pairings@.take(i as int).to_set(),
            decreases pairings.len() - i,
        {
            made.add(pairings[i]);
            proof {
                let before = pairings@.take(i as int);
                assert(pairings@.take(i + 1) =~= before.push(pairings@[i as int]));
                assert(pairings@.take(i + 1).drop_last() =~= before);
                before.lemma_push_to_set_commute(pairings@[i as int]);
            }
            i += 1;
        }
        assert(pairings@.take(i as int) =~= pairings@);
        made
    }

    /// Whether `pairing` is in the set.
    pub fn contains(&self, pairing: &Pairing) -> (found: bool)
        ensures
            found == self@.contains(*pairing),
    {
        let mut i: usize = 0;
        while i < self.items.len()
            invariant
                i <= self.items.len(),
                forall|j: int| 0 <= j < i ==> self.items@[j] != *pairing,
            decreases self.items.len() - i,
        {
            if self.items[i].b == pairing.b && self.items[i].r == pairing.r {
                assert(self.order()[i as int] == *pairing);
                return true;
            }
            i += 1;
        }
        false
    }

    /// Puts `pairing` into the set.
    pub fn add(&mut self, pairing: Pairing)
        requires
            old(self).wf(),
        ensures
            final(self).wf(),
            final(self).order() == joined(old(self).order(), pairing),
            final(self)@ == old(self)@.insert(pairing),
    {
        if !self.contains(&pairing) {
            self.items.push(pairing);
            proof {
                assert(self.order() =~= old(self).order().push(pairing));
                old(self).order().lemma_push_to_set_commute(pairing);
            }
        } else {
            assert(self@ =~= old(self)@.insert(pairing));
        }
    }

    /// The pairings of the set, in the order in which they came.
    pub fn get(&self) -> (all: &Vec<Pairing>)
        ensures
            all@ == self.order(),
            all@.to_set() == self@,
    {
        &self.items
    }

    /// How many pairings the set holds.
    pub fn len(&self) -> (n: usize)
        requires
            self.wf(),
        ensures
            n == self.order().len(),
            n == self@.len(),
    {
        proof {
            self.order().unique_seq_to_set();
        }
        self.items.len()
    }

    /// The position of the first pairing that holds `e`.
    fn position_with(&self, e: &Entry) -> (at: Option<usize>)
        ensures
            match at {
                Some(i) => i == first_with(self.order(), *e) && i < self.order().len(),
                None => first_with(self.order(), *e) == self.order().len(),
            },
    {
        let mut i: usize = 0;
        while i < self.items.len()
            invariant
                i <= self.items.len(),
                forall|j: int| 0 <= j < i ==> !(#[trigger] self.items@[j]).holds(*e),
            decreases self.items.len() - i,
        {
            let p = &self.items[i];
            let here = match e {
                Entry::B(b) => p.b == *b,
                Entry::R(r) => p.r == *r,
            };
            if here {
                proof {
                    lemma_first_with(self.order(), *e, i as int);
                }
                return Some(i);
            }
            i += 1;
        }
        proof {
            lemma_first_with(self.order(), *e, i as int);
        }
        None
    }

    /// The pairing that holds `e`: the first that came, where there are several.
    pub fn with(&self, e: &Entry) -> (found: Option<Pairing>)
        ensures
            found == find(self.order(), *e),
            found matches Some(p) ==> self@.contains(p) && p.holds(*e),
            found.is_none() ==> forall|p: Pairing| self@.contains(p) ==> !p.holds(*e),
    {
        proof {
            lemma_first_with_is_first(self.order(), *e);
        }
        match self.position_with(e) {
            Some(i) => Some(self.items[i]),
            None => {
                assert forall|p: Pairing| self@.contains(p) implies !p.holds(*e) by {
                    let j = choose|j: int| 0 <= j < self.order().len() && self.order()[j] == p;
                    assert(!self.order()[j].holds(*e));
                }
                None
            },
        }
    }

    /// Pairs `maybe_was_paired` with `to_be_paired`. The pairing that held
    /// `maybe_was_paired` until now, if there was one, leaves the set, and its
    /// member on the side of `to_be_paired` is returned: the displaced partner.
    pub fn new_pairing(&mut self, maybe_was_paired: &Entry, to_be_paired: Entry) -> (displaced:
        Option<Entry>)
        requires
            old(self).wf(),
            maybe_was_paired.side() != to_be_paired.side(),
        ensures
            final(self).wf(),
            final(self).order() == joined(
                released(old(self).order(), *maybe_was_paired),
                Pairing::from(*maybe_was_paired, to_be_paired),
            ),
            final(self)@ == (match find(old(self).order(), *maybe_was_paired) {
                Some(p) => old(self)@.remove(p),
                None => old(self)@,
            }).insert(Pairing::from(*maybe_was_paired, to_be_paired)),
            displaced == match find(old(self).order(), *maybe_was_paired) {
                Some(p) => Some(p.on(to_be_paired.side())),
                None => None,
            },
    {
        let target = Pairing::from(*maybe_was_paired, to_be_paired);
        match self.position_with(maybe_was_paired) {
            Some(i) => {
                let left = self.items.remove(i);
                proof {
                    let before = old(self).order();
                    let after = before.remove(i as int);
                    assert forall|x: int, y: int|
                        0 <= x < after.len() && 0 <= y < after.len() && x != y implies after[x]
                        != after[y] by {
                        let x0 = if x < i { x } else { x + 1 };
                        let y0 = if y < i { y } else { y + 1 };
                        assert(after[x] == before[x0] && after[y] == before[y0]);
                    }
                    assert(after.to_set() =~= before.to_set().remove(left)) by {
                        let kept = before.to_set().remove(left);
                        assert forall|q: Pairing| after.to_set().contains(q) implies kept.contains(
                            q,
                        ) by {
                            let x = choose|x: int| 0 <= x < after.len() && after[x] == q;
                            let x0 = if x < i { x } else { x + 1 };
                            assert(before[x0] == q);
                        }
                        assert forall|q: Pairing| kept.contains(q) implies after.to_set().contains(
                            q,
                        ) by {
                            let x0 = choose|x0: int| 0 <= x0 < before.len() && before[x0] == q;
                            let x = if x0 < i { x0 } else { x0 - 1 };
                            assert(after[x] == q);
                        }
                    }
                }
                self.add(target);
                Some(left.on(to_be_paired.side()))
            },
            None => {
                self.add(target);
                None
            },
        }
    }

    /// Whether the two sets hold the same pairings.
    pub fn same_as(&self, other: &Pairings) -> (same: bool)
        ensures
            same == (self@ == other@),
    {
        if !self.within(other) {
            return false;
        }
        if !other.within(self) {
            return false;
        }
        assert(self@ =~= other@);
        true
    }

    /// Whether every pairing of this set is in `other`.
    fn within(&self, other: &Pairings) -> (all: bool)
        ensures
            all == self@.subset_of(other@),
    {
        let mut i: usize = 0;
        while i < self.items.len()
            invariant
                i <= self.items.len(),
                forall|j: int| 0 <= j < i ==> other@.contains(#[trigger] self.items@[j]),
            decreases self.items.len() - i,
        {
            if !other.contains(&self.items[i]) {
                assert(self@.contains(self.order()[i as int]));
                return false;
            }
            i += 1;
        }
        assert forall|p: Pairing| self@.contains(p) implies other@.contains(p) by {
            let j = choose|j: int| 0 <= j < self.order().len() && self.order()[j] == p;
            assert(other@.contains(self.items@[j]));
        }
        true
    }
}

impl PartialEq for Pairings {
    /// Two sets are equal where they hold the same pairings.
    fn eq(&self, other: &Pairings) -> (same: bool) {
        self.same_as(other)
    }
}

impl vstd::std_specs::cmp::PartialEqSpecImpl for Pairings {
    open spec fn obeys_eq_spec() -> bool {
        true
    }

    open spec fn eq_spec(&self, other: &Pairings) -> bool {
        self@ == other@
    }
}

} // verus!
