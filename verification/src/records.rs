//! The two record formats: preference records and pairing records.
//!
//! A record is a line of comma-separated fields. A member is written as its
//! side tag, `B` or `R`, followed by its id in decimal digits.

use vstd::prelude::*;
use std::collections::HashSet;
use crate::entry::{Entry, Side};
use crate::pairings::Pairing;
use crate::preferences::is_ranking;

verus! {

broadcast use vstd::std_specs::hash::group_hash_axioms;

/// Whether `c` is one of the ten decimal digits.
pub open spec fn is_digit(c: char) -> bool {
    48 <= c as u32 <= 57
}

/// The number that the digits of `s` stand for.
pub open spec fn digits_value(s: Seq<char>) -> nat
    decreases s.len(),
{
    if s.len() == 0 {
        0
    } else {
        digits_value(s.drop_last()) * 10 + (s.last() as u32 - 48) as nat
    }
}

/// Whether `s` holds nothing but digits.
pub open spec fn all_digits(s: Seq<char>) -> bool {
    forall|i: int| 0 <= i < s.len() ==> is_digit(#[trigger] s[i])
}

/// The id that `s` stands for: one or more digits, with a `+` in front or
/// not, of a value that fits in `u32`.
pub open spec fn number_of(s: Seq<char>) -> Option<u32> {
    let body = if s.len() > 0 && s[0] == '+' {
        s.drop_first()
    } else {
        s
    };
    if body.len() > 0 && all_digits(body) && digits_value(body) <= u32::MAX {
        Some(digits_value(body) as u32)
    } else {
        None
    }
}

/// The member that `s` stands for: a side tag and an id.
pub open spec fn entry_of(s: Seq<char>) -> Option<Entry> {
    if s.len() == 0 {
        None
    } else if s[0] == 'B' {
        match number_of(s.drop_first()) {
            Some(id) => Some(Entry::B(id)),
            None => None,
        }
    } else if s[0] == 'R' {
        match number_of(s.drop_first()) {
            Some(id) => Some(Entry::R(id)),
            None => None,
        }
    } else {
        None
    }
}

/// The length of `s` without the colons at its end.
pub open spec fn stripped_len(s: Seq<char>) -> nat
    decreases s.len(),
{
    if s.len() > 0 && s.last() == ':' {
        stripped_len(s.drop_last())
    } else {
        s.len()
    }
}

/// The member that the name `s` stands for: a member, with colons behind it or not.
pub open spec fn name_of(s: Seq<char>) -> Option<Entry> {
    entry_of(s.take(stripped_len(s) as int))
}

/// The digits at the start of a number stand for no more than the whole.
pub proof fn lemma_digits_prefix(s: Seq<char>, k: int)
    requires
        0 <= k <= s.len(),
    ensures
        digits_value(s.take(k)) <= digits_value(s),
    decreases s.len() - k,
{
    if k < s.len() {
        lemma_digits_prefix(s, k + 1);
        assert(s.take(k + 1).drop_last() =~= s.take(k));
    } else {
        assert(s.take(k) =~= s);
    }
}

/// Reads the id that the characters of `field` from `start` on stand for.
fn parse_number(field: &Vec<char>, start: usize, end: usize) -> (id: Option<u32>)
    requires
        start <= end <= field.len(),
    ensures
        id == number_of(field@.subrange(start as int, end as int)),
{
    let ghost s = field@.subrange(start as int, end as int);
    let mut at = start;
    if at < end && field[at] == '+' {
        at += 1;
    }
    let ghost body = field@.subrange(at as int, end as int);
    proof {
        if at > start {
            assert(s[0] == '+');
            assert(body =~= s.drop_first());
        } else {
            assert(body =~= s);
            if s.len() > 0 {
                assert(s[0] == field@[start as int]);
            }
        }
    }
    if at == end {
        return None;
    }
    let first = at;
    let mut value: u64 = 0;
    while at < end
        invariant
            start <= first <= at <= end <= field.len(),
            first < end,
            s == field@.subrange(start as int, end as int),
            body == field@.subrange(first as int, end as int),
            body == if s.len() > 0 && s[0] == '+' {
                s.drop_first()
            } else {
                s
            },
            all_digits(body.take(at - first)),
            value == digits_value(body.take(at - first)),
            value <= u32::MAX,
        decreases end - at,
    {
        let c = field[at] as u32;
        proof {
            assert(body[at - first] == field@[at as int]);
            assert(body.take(at - first + 1).drop_last() =~= body.take(at - first));
            assert(body.take(at - first + 1).last() == body[at - first]);
        }
        if c < 48 || c > 57 {
            assert(!is_digit(body[at - first]));
            return None;
        }
        value = value * 10 + (c - 48) as u64;
        if value > u32::MAX as u64 {
            proof {
                lemma_digits_prefix(body, at - first + 1);
            }
            return None;
        }
        proof {
            let now = body.take(at - first + 1);
            assert forall|i: int| 0 <= i < now.len() implies is_digit(#[trigger] now[i]) by {
                if i < at - first {
                    assert(body.take(at - first)[i] == now[i]);
                }
            }
        }
        at += 1;
    }
    proof {
        assert(body.take(at - first) =~= body);
    }
    Some(value as u32)
}

/// Reads the member that the first `end` characters of `field` stand for.
fn parse_entry_within(field: &Vec<char>, end: usize) -> (e: Option<Entry>)
    requires
        end <= field.len(),
    ensures
        e == entry_of(field@.take(end as int)),
{
    let ghost s = field@.take(end as int);
    if end == 0 {
        return None;
    }
    let tag = field[0];
    proof {
        assert(s[0] == tag);
        assert(s.drop_first() =~= field@.subrange(1, end as int));
    }
    if tag == 'B' {
        match parse_number(field, 1, end) {
            Some(id) => Some(Entry::B(id)),
            None => None,
        }
    } else if tag == 'R' {
        match parse_number(field, 1, end) {
            Some(id) => Some(Entry::R(id)),
            None => None,
        }
    } else {
        None
    }
}

/// Reads a member: its side tag, `B` or `R`, and its id in decimal digits.
pub fn parse_entry(field: &Vec<char>) -> (e: Option<Entry>)
    ensures
        e == entry_of(field@),
{
    proof {
        assert(field@.take(field@.len() as int) =~= field@);
    }
    parse_entry_within(field, field.len())
}

/// Reads a name: a member, with any number of colons behind it.
pub fn parse_name(field: &Vec<char>) -> (e: Option<Entry>)
    ensures
        e == name_of(field@),
{
    let mut end = field.len();
    proof {
        assert(field@.take(end as int) =~= field@);
    }
    while end > 0 && field[end - 1] == ':'
        invariant
            end <= field.len(),
            stripped_len(field@) == stripped_len(field@.take(end as int)),
        decreases end,
    {
        proof {
            assert(field@.take(end as int).drop_last() =~= field@.take(end - 1));
        }
        end -= 1;
    }
    parse_entry_within(field, end)
}

/// The fields of a record as sequences of characters.
pub open spec fn fields_view(row: Vec<Vec<char>>) -> Seq<Seq<char>> {
    Seq::new(row@.len(), |i: int| row@[i]@)
}

/// The pairing that a pairing record stands for: two names, one of each side,
/// in either order.
pub open spec fn pairing_of(fields: Seq<Seq<char>>) -> Option<Pairing> {
    if fields.len() != 2 {
        None
    } else {
        match (name_of(fields[0]), name_of(fields[1])) {
            (Some(e1), Some(e2)) => if e1.side() != e2.side() {
                Some(Pairing::from(e1, e2))
            } else {
                None
            },
            _ => None,
        }
    }
}

/// The ids that candidate fields stand for, in their order. An empty field is
/// passed over. Every other field is a member of `side` that no earlier field
/// names, and there are fewer fields than `u32` has values.
pub open spec fn candidates_of(fields: Seq<Seq<char>>, side: Side) -> Option<Seq<u32>>
    decreases fields.len(),
{
    if fields.len() == 0 {
        Some(Seq::empty())
    } else {
        match candidates_of(fields.drop_last(), side) {
            None => None,
            Some(ids) => if fields.last().len() == 0 {
                Some(ids)
            } else {
                match entry_of(fields.last()) {
                    Some(e) => if e.side() == side && !ids.contains(e.id()) && ids.len()
                        < u32::MAX {
                        Some(ids.push(e.id()))
                    } else {
                        None
                    },
                    None => None,
                }
            },
        }
    }
}

/// What a preference record stands for: the member that its first field names,
/// and the ids of the other side that the fields behind it rank, most preferred
/// first.
pub open spec fn preference_of(fields: Seq<Seq<char>>) -> Option<(Entry, Seq<u32>)> {
    if fields.len() == 0 {
        None
    } else {
        match name_of(fields[0]) {
            None => None,
            Some(name) => match candidates_of(fields.drop_first(), name.side().opposite()) {
                Some(ids) => Some((name, ids)),
                None => None,
            },
        }
    }
}

/// Reads a pairing record.
pub fn parse_pairing_row(row: &Vec<Vec<char>>) -> (p: Option<Pairing>)
    ensures
        p == pairing_of(fields_view(*row)),
{
    if row.len() != 2 {
        return None;
    }
    let e1 = match parse_name(&row[0]) {
        Some(e) => e,
        None => {
            return None;
        },
    };
    let e2 = match parse_name(&row[1]) {
        Some(e) => e,
        None => {
            return None;
        },
    };
    if e1.side() == e2.side() {
        return None;
    }
    Some(Pairing::from(e1, e2))
}

/// Reads a preference record.
pub fn parse_preference_row(row: &Vec<Vec<char>>) -> (read: Option<(Entry, Vec<u32>)>)
    ensures
        match read {
            Some((name, ids)) => preference_of(fields_view(*row)) == Some((name, ids@)),
            None => preference_of(fields_view(*row)).is_none(),
        },
{
    if row.len() == 0 {
        return None;
    }
    let name = match parse_name(&row[0]) {
        Some(e) => e,
        None => {
            return None;
        },
    };
    let side = name.side().opposite();
    let ghost fields = fields_view(*row).drop_first();
    let mut seen: HashSet<u32> = HashSet::new();
    let mut ids: Vec<u32> = Vec::new();
    let mut i: usize = 1;
    proof {
        assert(fields.take(0) =~= Seq::<Seq<char>>::empty());
    }
    while i < row.len()
        invariant
            1 <= i <= row.len(),
            fields == fields_view(*row).drop_first(),
            name_of(fields_view(*row)[0]) == Some(name),
            side == name.side().opposite(),
            candidates_of(fields.take(i - 1), side) == Some(ids@),
            seen@ == ids@.to_set(),
        decreases row.len() - i,
    {
        let field = &row[i];
        proof {
            assert(fields.take(i as int).drop_last() =~= fields.take(i - 1));
            assert(fields[i - 1] == fields_view(*row)[i as int]);
            assert(fields.take(i as int).last() == field@);
        }
        if field.len() > 0 {
            let e = match parse_entry(field) {
                Some(e) => e,
                None => {
                    proof {
                        lemma_candidates_fail(fields, i as int, side);
                    }
                    return None;
                },
            };
            if e.side() != side || ids.len() >= u32::MAX as usize || !seen.insert(e.id()) {
                proof {
                    lemma_candidates_fail(fields, i as int, side);
                }
                return None;
            }
            proof {
                ids@.lemma_push_to_set_commute(e.id());
            }
            ids.push(e.id());
        }
        i += 1;
    }
    proof {
        assert(fields.take(i - 1) =~= fields);
    }
    Some((name, ids))
}

/// Once the first `k` candidate fields cannot be read, the whole cannot.
proof fn lemma_candidates_fail(fields: Seq<Seq<char>>, k: int, side: Side)
    requires
        0 <= k <= fields.len(),
        candidates_of(fields.take(k), side).is_none(),
    ensures
        candidates_of(fields, side).is_none(),
    decreases fields.len() - k,
{
    if k < fields.len() {
        assert(fields.take(k + 1).drop_last() =~= fields.take(k));
        lemma_candidates_fail(fields, k + 1, side);
    } else {
        assert(fields.take(k) =~= fields);
    }
}

/// The candidates that were read name no id twice and are fewer than `u32` has values.
pub proof fn lemma_candidates_are_ranking(fields: Seq<Seq<char>>, side: Side)
    requires
        candidates_of(fields, side).is_some(),
    ensures
        is_ranking(candidates_of(fields, side).unwrap()),
    decreases fields.len(),
{
    if fields.len() > 0 {
        lemma_candidates_are_ranking(fields.drop_last(), side);
    }
}

} // verus!
