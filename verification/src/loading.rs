//! Preferences and pairings from comma-separated text.
//!
//! The text is cut into records and fields by the `csv` crate. What the fields
//! mean is decided here.

use vstd::prelude::*;
use crate::entry::{Entry, Side};
use crate::error::MatchError;
use crate::pairings::{joined_all, Pairing, Pairings};
use crate::preferences::{is_ranking, lists_view, Preferences, PreferencesView};
use crate::records::{
    fields_view, lemma_candidates_are_ranking, pairing_of, parse_pairing_row,
    parse_preference_row, preference_of,
};

verus! {

/// The error of the `csv` crate, `csv::Error`. It is carried from the reader
/// to the place where it is turned into `MalformedRecord`; nothing is said of
/// what it holds.
#[verifier::external_type_specification]
#[verifier::external_body]
pub struct ExCsvError(csv::Error);

/// The records that the `csv` crate reads from `text`, with the settings of
/// `read_records`: each record as its fields, or nothing where the reader gave
/// an error for it.
pub uninterp spec fn csv_records(text: Seq<u8>) -> Seq<Option<Seq<Seq<char>>>>;

/// Records as they were read: the fields of each, or nothing for a record that
/// could not be read.
pub open spec fn records_view<E>(rows: Vec<Result<Vec<Vec<char>>, E>>) -> Seq<
    Option<Seq<Seq<char>>>,
> {
    Seq::new(
        rows@.len(),
        |i: int|
            match rows@[i] {
                Ok(row) => Some(fields_view(row)),
                Err(_) => None,
            },
    )
}

/// Cuts `text` into records and fields with `csv::ReaderBuilder` and
/// `csv::Reader::records`: no header line, fields separated by commas, records
/// of any number of fields, no doubled quotes, fields trimmed of white space
/// on both sides. Every item that the reader gives comes back, in the order
/// of the text: a record as the characters of its fields, an error as it is.
/// The contract names what was read and says no more of it.
#[verifier::external_body]
fn read_records(text: &[u8]) -> (read: Vec<Result<Vec<Vec<char>>, csv::Error>>)
    ensures
        records_view(read) == csv_records(text@),
{
    let mut reader = csv::ReaderBuilder::new()
        .has_headers(false)
        .delimiter(b',')
        .flexible(true)
        .double_quote(false)
        .trim(csv::Trim::All)
        .from_reader(text);
    let fields = |record: csv::StringRecord| record.iter().map(|f| f.chars().collect()).collect();
    reader.records().map(|item| item.map(fields)).collect()
}

/// Whether `k` is the first place of `items` that holds nothing.
pub open spec fn first_gap<T>(items: Seq<Option<T>>, k: int) -> bool {
    &&& 0 <= k < items.len()
    &&& items[k].is_none()
    &&& forall|j: int| 0 <= j < k ==> (#[trigger] items[j]).is_some()
}

/// Whether every place of `items` holds something.
pub open spec fn no_gap<T>(items: Seq<Option<T>>) -> bool {
    forall|j: int| 0 <= j < items.len() ==> (#[trigger] items[j]).is_some()
}

/// What `items` holds, where it has no gap.
pub open spec fn filled<T>(items: Seq<Option<T>>) -> Seq<T> {
    Seq::new(items.len(), |i: int| items[i].unwrap())
}

/// For each record, the pairing that it stands for, if it was read and is a
/// pairing record.
pub open spec fn pairings_in(records: Seq<Option<Seq<Seq<char>>>>) -> Seq<Option<Pairing>> {
    Seq::new(
        records.len(),
        |i: int|
            match records[i] {
                Some(row) => pairing_of(row),
                None => None,
            },
    )
}

/// What loading pairings gives, for what the records stand for: the set of
/// their pairings, or `MalformedRecord` with the index of the first record
/// that stands for none.
pub open spec fn pairings_ensures(
    read: Seq<Option<Pairing>>,
    loaded: Result<Pairings, MatchError>,
) -> bool {
    match loaded {
        Ok(pairings) => {
            &&& no_gap(read)
            &&& pairings.wf()
            &&& pairings.order() == joined_all(Seq::empty(), filled(read))
            &&& pairings@ == filled(read).to_set()
        },
        Err(e) => exists|k: int|
            #[trigger] first_gap(read, k) && e == MatchError::MalformedRecord(k as usize),
    }
}

impl Pairings {
    /// The set of the pairings that the records stand for. A record that the
    /// reader could not read, with whatever error, counts as malformed.
    pub fn from_rows<E>(rows: &Vec<Result<Vec<Vec<char>>, E>>) -> (loaded: Result<
        Pairings,
        MatchError,
    >)
        ensures
            pairings_ensures(pairings_in(records_view(*rows)), loaded),
    {
        let ghost read = pairings_in(records_view(*rows));
        let mut found: Vec<Pairing> = Vec::new();
        let mut i: usize = 0;
        while i < rows.len()
            invariant
                i <= rows.len(),
                read == pairings_in(records_view(*rows)),
                forall|j: int| 0 <= j < i ==> (#[trigger] read[j]).is_some(),
                found@ == filled(read).take(i as int),
            decreases rows.len() - i,
        {
            let pairing = match &rows[i] {
                Ok(row) => parse_pairing_row(row),
                Err(_) => None,
            };
            match pairing {
                Some(p) => {
                    found.push(p);
                    proof {
                        assert(read[i as int] == Some(p));
                        assert(found@ =~= filled(read).take(i + 1));
                    }
                },
                None => {
                    proof {
                        assert(first_gap(read, i as int));
                    }
                    return Err(MatchError::MalformedRecord(i));
                },
            }
            i += 1;
        }
        proof {
            assert(filled(read).take(i as int) =~= filled(read));
        }
        Ok(Pairings::new(found))
    }

    /// The set of the pairings that a text of pairing records stands for.
    pub fn from_csv(text: &[u8]) -> (loaded: Result<Pairings, MatchError>)
        ensures
            pairings_ensures(pairings_in(csv_records(text@)), loaded),
    {
        let rows = read_records(text);
        Pairings::from_rows(&rows)
    }
}

/// For each record, the name and the list that it stands for, if it was read
/// and is a preference record.
pub open spec fn preferences_in(records: Seq<Option<Seq<Seq<char>>>>) -> Seq<
    Option<(Entry, Seq<u32>)>,
> {
    Seq::new(
        records.len(),
        |i: int|
            match records[i] {
                Some(row) => preference_of(row),
                None => None,
            },
    )
}

/// The names of what was read, in their order.
pub open spec fn names_of(read: Seq<Option<(Entry, Seq<u32>)>>) -> Seq<Entry> {
    Seq::new(read.len(), |i: int| read[i].unwrap().0)
}

/// The lists of what was read, in their order.
pub open spec fn lists_of(read: Seq<Option<(Entry, Seq<u32>)>>) -> Seq<Seq<u32>> {
    Seq::new(read.len(), |i: int| read[i].unwrap().1)
}

/// How many of the first `upto` names belong to `side`.
pub open spec fn count_side(names: Seq<Entry>, side: Side, upto: nat) -> nat
    decreases upto,
{
    if upto == 0 {
        0
    } else {
        count_side(names, side, (upto - 1) as nat) + if names[upto - 1].side() == side {
            1nat
        } else {
            0nat
        }
    }
}

/// Whether the names of each side are no more than fit in `u32`.
pub open spec fn counts_fit(names: Seq<Entry>) -> bool {
    &&& count_side(names, Side::B, names.len()) <= u32::MAX
    &&& count_side(names, Side::R, names.len()) <= u32::MAX
}

/// Whether name `i` fits: its id is below the number of names of its side, and
/// no earlier record has the same name. Where every name fits, the ids of each
/// side are those from 0 up to the number of its names.
pub open spec fn fits(names: Seq<Entry>, i: int) -> bool {
    &&& names[i].id() < count_side(names, names[i].side(), names.len())
    &&& forall|j: int| 0 <= j < i ==> #[trigger] names[j] != names[i]
}

/// Whether loading preferences fails at `k`: at the first record that stands
/// for nothing; else, where a side has more names than fit in `u32`, behind the
/// last record; else at the first record whose name does not fit.
pub open spec fn preferences_fail_at(read: Seq<Option<(Entry, Seq<u32>)>>, k: int) -> bool {
    let names = names_of(read);
    ||| first_gap(read, k)
    ||| no_gap(read) && !counts_fit(names) && k == read.len()
    ||| no_gap(read) && counts_fit(names) && 0 <= k < names.len() && !fits(names, k) && forall|
        j: int,
    |
        0 <= j < k ==> #[trigger] fits(names, j)
}

/// What loading preferences gives, for what the records stand for: where it
/// does not fail, the preferences in which every member that a record names has
/// the list of that record, and no other member has a list; else
/// `MalformedRecord` with the index at which it fails.
pub open spec fn preferences_ensures(
    read: Seq<Option<(Entry, Seq<u32>)>>,
    loaded: Result<Preferences, MatchError>,
) -> bool {
    let names = names_of(read);
    let lists = lists_of(read);
    match loaded {
        Ok(prefs) => {
            &&& no_gap(read)
            &&& counts_fit(names)
            &&& forall|i: int| 0 <= i < names.len() ==> #[trigger] fits(names, i)
            &&& prefs@.b.len() == count_side(names, Side::B, names.len())
            &&& prefs@.r.len() == count_side(names, Side::R, names.len())
            &&& forall|i: int|
                0 <= i < names.len() ==> prefs@.knows(#[trigger] names[i]) && prefs@.list(names[i])
                    == lists[i]
            &&& forall|e: Entry| #[trigger] prefs@.knows(e) ==> names.contains(e)
        },
        Err(e) => exists|k: int|
            #[trigger] preferences_fail_at(read, k) && e == MatchError::MalformedRecord(k as usize),
    }
}

/// How many of the first `upto` marks are set.
spec fn count_set(marks: Seq<bool>, upto: nat) -> nat
    decreases upto,
{
    if upto == 0 {
        0
    } else {
        count_set(marks, (upto - 1) as nat) + if marks[upto - 1] {
            1nat
        } else {
            0nat
        }
    }
}

/// No more marks are set than there are.
proof fn lemma_count_set_bound(marks: Seq<bool>, upto: nat)
    ensures
        count_set(marks, upto) <= upto,
    decreases upto,
{
    if upto > 0 {
        lemma_count_set_bound(marks, (upto - 1) as nat);
    }
}

/// Where no mark is set, the count is zero.
proof fn lemma_count_set_none(marks: Seq<bool>, upto: nat)
    requires
        upto <= marks.len(),
        forall|i: int| 0 <= i < upto ==> !#[trigger] marks[i],
    ensures
        count_set(marks, upto) == 0,
    decreases upto,
{
    if upto > 0 {
        lemma_count_set_none(marks, (upto - 1) as nat);
    }
}

/// Setting a mark that was not set adds one to the count.
proof fn lemma_count_set_mark(marks: Seq<bool>, at: int, upto: nat)
    requires
        0 <= at < marks.len(),
        upto <= marks.len(),
        !marks[at],
    ensures
        count_set(marks.update(at, true), upto) == count_set(marks, upto) + if at < upto {
            1nat
        } else {
            0nat
        },
    decreases upto,
{
    if upto > 0 {
        lemma_count_set_mark(marks, at, (upto - 1) as nat);
    }
}

/// Where the count is the number of marks, every mark is set.
proof fn lemma_count_set_all(marks: Seq<bool>, upto: nat)
    requires
        upto <= marks.len(),
        count_set(marks, upto) == upto,
    ensures
        forall|i: int| 0 <= i < upto ==> #[trigger] marks[i],
    decreases upto,
{
    if upto > 0 {
        lemma_count_set_bound(marks, (upto - 1) as nat);
        lemma_count_set_all(marks, (upto - 1) as nat);
    }
}

/// A copy of `list`.
fn copy_of(list: &Vec<u32>) -> (copy: Vec<u32>)
    ensures
        copy@ == list@,
{
    let mut copy: Vec<u32> = Vec::new();
    let mut i: usize = 0;
    while i < list.len()
        invariant
            i <= list.len(),
            copy@ == list@.take(i as int),
        decreases list.len() - i,
    {
        copy.push(list[i]);
        proof {
            assert(copy@ =~= list@.take(i + 1));
        }
        i += 1;
    }
    proof {
        assert(list@.take(i as int) =~= list@);
    }
    copy
}

/// Whether name `i` is of `side` and does not fit among `count` names of that side.
spec fn misfit(names: Seq<Entry>, side: Side, count: nat, i: int) -> bool {
    &&& names[i].side() == side
    &&& !(names[i].id() < count && forall|j: int| 0 <= j < i ==> #[trigger] names[j] != names[i])
}

/// Gives every member of `side` the list of the record that names it. Fails
/// with the index of the first record of that side whose name does not fit.
fn place(names: &Vec<Entry>, lists: &Vec<Vec<u32>>, side: Side, count: usize) -> (placed: Result<
    Vec<Vec<u32>>,
    usize,
>)
    requires
        names.len() == lists.len(),
        count == count_side(names@, side, names@.len()),
    ensures
        match placed {
            Ok(out) => {
                &&& out.len() == count
                &&& forall|i: int| 0 <= i < names.len() ==> !misfit(names@, side, count as nat, i)
                &&& forall|i: int|
                    0 <= i < names.len() && (#[trigger] names@[i]).side() == side ==> names@[i].id()
                        < count && lists_view(out)[names@[i].id() as int] == lists@[i]@
                &&& forall|id: u32| id < count ==> names@.contains(#[trigger] Entry::new(side, id))
            },
            Err(k) => {
                &&& k < names.len()
                &&& misfit(names@, side, count as nat, k as int)
                &&& forall|j: int| 0 <= j < k ==> !misfit(names@, side, count as nat, j)
            },
        },
{
    let mut out: Vec<Vec<u32>> = Vec::new();
    let mut marks: Vec<bool> = Vec::new();
    let mut c: usize = 0;
    while c < count
        invariant
            c <= count,
            out.len() == c,
            marks.len() == c,
            forall|id: int| 0 <= id < c ==> !#[trigger] marks@[id],
        decreases count - c,
    {
        out.push(Vec::new());
        marks.push(false);
        c += 1;
    }
    proof {
        lemma_count_set_none(marks@, count as nat);
    }
    let mut i: usize = 0;
    while i < names.len()
        invariant
            i <= names.len(),
            names.len() == lists.len(),
            count == count_side(names@, side, names@.len()),
            out.len() == count,
            marks.len() == count,
            count_set(marks@, count as nat) == count_side(names@, side, i as nat),
            forall|j: int| 0 <= j < i ==> !misfit(names@, side, count as nat, j),
            forall|j: int|
                0 <= j < i && (#[trigger] names@[j]).side() == side ==> names@[j].id() < count
                    && marks@[names@[j].id() as int] && lists_view(out)[names@[j].id() as int]
                    == lists@[j]@,
            forall|id: int|
                0 <= id < count && #[trigger] marks@[id] ==> exists|j: int|
                    0 <= j < i && #[trigger] names@[j] == Entry::new(side, id as u32),
        decreases names.len() - i,
    {
        let name = names[i];
        if name.side() == side {
            let id = name.id() as usize;
            if id >= count || marks[id] {
                proof {
                    if id < count {
                        let j = choose|j: int|
                            0 <= j < i && #[trigger] names@[j] == Entry::new(side, id as u32);
                        assert(names@[j] == names@[i as int]);
                    }
                    assert(misfit(names@, side, count as nat, i as int));
                }
                return Err(i);
            }
            let ghost before = marks@;
            let ghost held = lists_view(out);
            proof {
                lemma_count_set_mark(before, id as int, count as nat);
                assert forall|j: int| 0 <= j < i implies #[trigger] names@[j] != names@[i as int] by {
                    if names@[j] == names@[i as int] {
                        assert(names@[j].side() == side);
                        assert(before[names@[j].id() as int]);
                    }
                }
            }
            out.set(id, copy_of(&lists[i]));
            marks.set(id, true);
            proof {
                assert forall|j: int|
                    0 <= j < i + 1 && (#[trigger] names@[j]).side() == side implies names@[j].id()
                    < count && marks@[names@[j].id() as int] && lists_view(
                    out,
                )[names@[j].id() as int] == lists@[j]@ by {
                    if j < i {
                        assert(before[names@[j].id() as int]);
                        assert(names@[j].id() != id);
                        assert(held[names@[j].id() as int] == lists@[j]@);
                    }
                }
                assert forall|x: int| 0 <= x < count && #[trigger] marks@[x] implies exists|j: int|
                    0 <= j < i + 1 && #[trigger] names@[j] == Entry::new(side, x as u32) by {
                    if x == id {
                        assert(names@[i as int] == Entry::new(side, x as u32));
                    } else {
                        assert(before[x]);
                        let j = choose|j: int|
                            0 <= j < i && #[trigger] names@[j] == Entry::new(side, x as u32);
                        assert(0 <= j < i + 1 && names@[j] == Entry::new(side, x as u32));
                    }
                }
            }
        }
        i += 1;
    }
    proof {
        lemma_count_set_all(marks@, count as nat);
        assert forall|id: u32| id < count implies names@.contains(
            #[trigger] Entry::new(side, id),
        ) by {
            assert(marks@[id as int]);
            let j = choose|j: int|
                0 <= j < i && #[trigger] names@[j] == Entry::new(side, id as int as u32);
            assert(names@[j] == Entry::new(side, id));
        }
    }
    Ok(out)
}

impl Preferences {
    /// The preferences that the records stand for. A record that the reader
    /// could not read, with whatever error, counts as malformed.
    pub fn from_rows<E>(rows: &Vec<Result<Vec<Vec<char>>, E>>) -> (loaded: Result<
        Preferences,
        MatchError,
    >)
        ensures
            preferences_ensures(preferences_in(records_view(*rows)), loaded),
    {
        let ghost read = preferences_in(records_view(*rows));
        let mut names: Vec<Entry> = Vec::new();
        let mut lists: Vec<Vec<u32>> = Vec::new();
        let mut nb: usize = 0;
        let mut nr: usize = 0;
        let mut i: usize = 0;
        while i < rows.len()
            invariant
                i <= rows.len(),
                read == preferences_in(records_view(*rows)),
                forall|j: int| 0 <= j < i ==> (#[trigger] read[j]).is_some(),
                names@.len() == i,
                lists@.len() == i,
                names@ == names_of(read).take(i as int),
                lists_view(lists) == lists_of(read).take(i as int),
                nb == count_side(names@, Side::B, i as nat),
                nr == count_side(names@, Side::R, i as nat),
                nb <= i,
                nr <= i,
            decreases rows.len() - i,
        {
            let ghost names0 = names@;
            let ghost lists0 = lists@;
            let reading = match &rows[i] {
                Ok(row) => parse_preference_row(row),
                Err(_) => None,
            };
            match reading {
                Some((name, ids)) => {
                    match name.side() {
                        Side::B => {
                            nb += 1;
                        },
                        Side::R => {
                            nr += 1;
                        },
                    }
                    names.push(name);
                    lists.push(ids);
                    proof {
                        assert(read[i as int] == Some((name, ids@)));
                        assert(names@ =~= names_of(read).take(i + 1));
                        assert forall|j: int| 0 <= j < i + 1 implies lists_view(lists)[j]
                            == lists_of(read).take(i + 1)[j] by {
                            if j < i {
                                assert(lists@[j] == lists0[j]);
                                assert(lists_view(lists)[j] == lists_of(read).take(i as int)[j]);
                            }
                        }
                        assert(lists_view(lists) =~= lists_of(read).take(i + 1));
                        lemma_count_side_prefix(names0, names@, Side::B, i as nat);
                        lemma_count_side_prefix(names0, names@, Side::R, i as nat);
                    }
                },
                None => {
                    proof {
                        assert(first_gap(read, i as int));
                        assert(preferences_fail_at(read, i as int));
                    }
                    return Err(MatchError::MalformedRecord(i));
                },
            }
            i += 1;
        }
        proof {
            assert(names@ =~= names_of(read));
            assert(lists_view(lists) =~= lists_of(read));
        }
        if nb > u32::MAX as usize || nr > u32::MAX as usize {
            proof {
                assert(preferences_fail_at(read, i as int));
            }
            return Err(MatchError::MalformedRecord(i));
        }
        let placed_b = place(&names, &lists, Side::B, nb);
        let placed_r = place(&names, &lists, Side::R, nr);
        let first_misfit = match (&placed_b, &placed_r) {
            (Ok(_), Ok(_)) => None,
            (Err(k), Ok(_)) => Some(*k),
            (Ok(_), Err(k)) => Some(*k),
            (Err(k1), Err(k2)) => if *k1 < *k2 {
                Some(*k1)
            } else {
                Some(*k2)
            },
        };
        match first_misfit {
            Some(k) => {
                proof {
                    assert forall|j: int| 0 <= j < k implies !misfit(
                        names@,
                        (#[trigger] names@[j]).side(),
                        count_side(names@, names@[j].side(), names@.len()),
                        j,
                    ) by {
                        assert(!misfit(names@, Side::B, nb as nat, j));
                        assert(!misfit(names@, Side::R, nr as nat, j));
                    }
                    assert(misfit(names@, Side::B, nb as nat, k as int) || misfit(
                        names@,
                        Side::R,
                        nr as nat,
                        k as int,
                    ));
                    lemma_first_misfit(names@, k as int);
                    assert(preferences_fail_at(read, k as int));
                }
                return Err(MatchError::MalformedRecord(k));
            },
            None => {},
        }
        let b_lists = placed_b.unwrap();
        let r_lists = placed_r.unwrap();
        proof {
            let pv = PreferencesView { b: lists_view(b_lists), r: lists_view(r_lists) };
            assert forall|j: int| 0 <= j < names@.len() implies #[trigger] fits(names@, j) by {
                assert(!misfit(names@, Side::B, nb as nat, j));
                assert(!misfit(names@, Side::R, nr as nat, j));
            }
            assert forall|id: int| 0 <= id < pv.b.len() implies is_ranking(#[trigger] pv.b[id]) by {
                lemma_listed_is_ranking(records_view(*rows), lists_view(b_lists), Side::B, id);
            }
            assert forall|id: int| 0 <= id < pv.r.len() implies is_ranking(#[trigger] pv.r[id]) by {
                lemma_listed_is_ranking(records_view(*rows), lists_view(r_lists), Side::R, id);
            }
            assert(pv.wf());
        }
        let prefs = Preferences::new(b_lists, r_lists).unwrap();
        proof {
            assert forall|j: int| 0 <= j < names@.len() implies prefs@.knows(#[trigger] names@[j])
                && prefs@.list(names@[j]) == lists_of(read)[j] by {
                assert(!misfit(names@, Side::B, nb as nat, j));
                assert(!misfit(names@, Side::R, nr as nat, j));
                assert(lists_view(lists)[j] == lists@[j]@);
            }
            assert forall|e: Entry| #[trigger] prefs@.knows(e) implies names@.contains(e) by {
                assert(e == Entry::new(e.side(), e.id()));
            }
        }
        Ok(prefs)
    }

    /// The preferences that a text of preference records stands for.
    pub fn from_csv(text: &[u8]) -> (loaded: Result<Preferences, MatchError>)
        ensures
            preferences_ensures(preferences_in(csv_records(text@)), loaded),
    {
        let rows = read_records(text);
        Preferences::from_rows(&rows)
    }
}

/// The count over the first names does not change when names come behind them.
proof fn lemma_count_side_prefix(short: Seq<Entry>, long: Seq<Entry>, side: Side, upto: nat)
    requires
        upto <= short.len() <= long.len(),
        forall|j: int| 0 <= j < short.len() ==> short[j] == long[j],
    ensures
        count_side(short, side, upto) == count_side(long, side, upto),
    decreases upto,
{
    if upto > 0 {
        lemma_count_side_prefix(short, long, side, (upto - 1) as nat);
    }
}

/// The first name that does not fit on its own side is the first that does not fit.
proof fn lemma_first_misfit(names: Seq<Entry>, k: int)
    requires
        0 <= k < names.len(),
        misfit(names, names[k].side(), count_side(names, names[k].side(), names.len()), k),
        forall|j: int|
            0 <= j < k ==> !misfit(
                names,
                (#[trigger] names[j]).side(),
                count_side(names, names[j].side(), names.len()),
                j,
            ),
    ensures
        !fits(names, k),
        forall|j: int| 0 <= j < k ==> #[trigger] fits(names, j),
{
}

/// The list that was placed for an id is the list of a record, and so a ranking.
proof fn lemma_listed_is_ranking(
    records: Seq<Option<Seq<Seq<char>>>>,
    placed: Seq<Seq<u32>>,
    side: Side,
    id: int,
)
    requires
        no_gap(preferences_in(records)),
        0 <= id < placed.len() <= u32::MAX,
        names_of(preferences_in(records)).contains(Entry::new(side, id as u32)),
        forall|i: int|
            0 <= i < records.len() && (#[trigger] names_of(preferences_in(records))[i]).side()
                == side ==> names_of(preferences_in(records))[i].id() < placed.len()
                && placed[names_of(preferences_in(records))[i].id() as int] == lists_of(
                preferences_in(records),
            )[i],
    ensures
        is_ranking(placed[id]),
{
    let read = preferences_in(records);
    let names = names_of(read);
    let i = choose|i: int| 0 <= i < names.len() && names[i] == Entry::new(side, id as u32);
    assert(names[i].side() == side);
    assert(read[i].is_some());
    let fields = records[i].unwrap();
    let name = preference_of(fields).unwrap().0;
    lemma_candidates_are_ranking(fields.drop_first(), name.side().opposite());
}

} // verus!
