use stable_matching::entry::{Entry, Side};
use stable_matching::error::MatchError;
use stable_matching::pairings::{Pairing, Pairings};
use stable_matching::preferences::{has_no_repeats, Preferences};

fn pairs_of(pairings: &Pairings) -> Vec<(u32, u32)> {
    pairings.get().iter().map(|p| (p.b, p.r)).collect()
}

#[test]
fn entry_parts() {
    assert_eq!(Entry::B(3).id(), 3);
    assert_eq!(Entry::R(7).id(), 7);
    assert_eq!(Entry::B(3).side(), Side::B);
    assert_eq!(Entry::R(3).side(), Side::R);
    assert_eq!(Entry::new(Side::R, 4), Entry::R(4));
    assert_eq!(Entry::new(Side::B, 4), Entry::B(4));
    assert_eq!(Side::B.opposite(), Side::R);
    assert_eq!(Side::R.opposite(), Side::B);
    assert!(Entry::B(9) < Entry::R(0));
    assert!(Entry::B(1) < Entry::B(2));
}

#[test]
fn pairing_from_either_order() {
    assert_eq!(Pairing::from(Entry::B(1), Entry::R(2)), Pairing::new(1, 2));
    assert_eq!(Pairing::from(Entry::R(2), Entry::B(1)), Pairing::new(1, 2));
    let p = Pairing::new(4, 5);
    assert_eq!(p.b(), Entry::B(4));
    assert_eq!(p.r(), Entry::R(5));
    assert_eq!(p.on(Side::B), Entry::B(4));
    assert_eq!(p.on(Side::R), Entry::R(5));
}

#[test]
fn pairing_prefers_goes_by_rank() {
    let prefs = Preferences::new(
        vec![vec![0, 1, 2], vec![1, 2, 0], vec![2, 0, 1]],
        vec![vec![1, 2, 0], vec![2, 0, 1], vec![0, 1, 2]],
    )
    .unwrap();
    let p = Pairing::new(1, 2);
    // B1 ranks R1 first, R2 second, R0 last.
    assert_eq!(p.prefers(&Entry::R(1), &prefs), Ok(true));
    assert_eq!(p.prefers(&Entry::R(0), &prefs), Ok(false));
    assert_eq!(p.prefers(&Entry::R(2), &prefs), Ok(false));
    // R2 ranks B0 first, B1 second, B2 last.
    assert_eq!(p.prefers(&Entry::B(0), &prefs), Ok(true));
    assert_eq!(p.prefers(&Entry::B(2), &prefs), Ok(false));
    assert_eq!(p.prefers(&Entry::B(7), &prefs), Err(MatchError::UnknownEntry(Entry::B(7))));
    let far = Pairing::new(9, 2);
    assert_eq!(far.prefers(&Entry::R(0), &prefs), Err(MatchError::UnknownEntry(Entry::B(9))));
    assert_eq!(far.prefers(&Entry::B(0), &prefs), Err(MatchError::UnknownEntry(Entry::B(9))));
}

#[test]
fn pairings_count_each_pairing_once() {
    let set = Pairings::new(vec![Pairing::new(0, 1), Pairing::new(2, 3), Pairing::new(0, 1)]);
    assert_eq!(set.len(), 2);
    assert_eq!(pairs_of(&set), vec![(0, 1), (2, 3)]);
    assert!(set.contains(&Pairing::new(2, 3)));
    assert!(!set.contains(&Pairing::new(3, 2)));
}

#[test]
fn pairings_add_is_set_insertion() {
    let mut set = Pairings::new(vec![]);
    set.add(Pairing::new(1, 1));
    set.add(Pairing::new(0, 2));
    set.add(Pairing::new(1, 1));
    assert_eq!(pairs_of(&set), vec![(1, 1), (0, 2)]);
}

#[test]
fn pairings_with_finds_by_either_member() {
    let set = Pairings::new(vec![Pairing::new(0, 1), Pairing::new(2, 3)]);
    assert_eq!(set.with(&Entry::B(2)), Some(Pairing::new(2, 3)));
    assert_eq!(set.with(&Entry::R(1)), Some(Pairing::new(0, 1)));
    assert_eq!(set.with(&Entry::R(0)), None);
    assert_eq!(set.with(&Entry::B(3)), None);
    let twice = Pairings::new(vec![Pairing::new(1, 0), Pairing::new(1, 5)]);
    assert_eq!(twice.with(&Entry::B(1)), Some(Pairing::new(1, 0)));
}

#[test]
fn new_pairing_returns_the_displaced_partner() {
    let mut set = Pairings::new(vec![Pairing::new(0, 1), Pairing::new(2, 3)]);
    // R1 leaves B0 for B4.
    assert_eq!(set.new_pairing(&Entry::R(1), Entry::B(4)), Some(Entry::B(0)));
    assert_eq!(pairs_of(&set), vec![(2, 3), (4, 1)]);
    // B2 leaves R3 for R0.
    assert_eq!(set.new_pairing(&Entry::B(2), Entry::R(0)), Some(Entry::R(3)));
    assert_eq!(pairs_of(&set), vec![(4, 1), (2, 0)]);
    // R7 was not paired.
    assert_eq!(set.new_pairing(&Entry::R(7), Entry::B(8)), None);
    assert_eq!(pairs_of(&set), vec![(4, 1), (2, 0), (8, 7)]);
}

#[test]
fn new_pairing_of_the_same_two_keeps_them() {
    let mut set = Pairings::new(vec![Pairing::new(0, 1)]);
    assert_eq!(set.new_pairing(&Entry::R(1), Entry::B(0)), Some(Entry::B(0)));
    assert_eq!(pairs_of(&set), vec![(0, 1)]);
}

#[test]
fn same_as_is_set_equality() {
    let a = Pairings::new(vec![Pairing::new(0, 1), Pairing::new(2, 3)]);
    let b = Pairings::new(vec![Pairing::new(2, 3), Pairing::new(0, 1), Pairing::new(2, 3)]);
    let c = Pairings::new(vec![Pairing::new(0, 1)]);
    let d = Pairings::new(vec![Pairing::new(0, 1), Pairing::new(3, 2)]);
    assert!(a.same_as(&b));
    assert!(b.same_as(&a));
    assert!(!a.same_as(&c));
    assert!(!c.same_as(&a));
    assert!(!a.same_as(&d));
}

#[test]
fn preferences_rank_is_position() {
    let prefs = Preferences::new(
        vec![vec![2, 0, 1], vec![1, 2, 0]],
        vec![vec![1, 0], vec![0, 1], vec![0, 1]],
    )
    .unwrap();
    assert_eq!(prefs.size(), 3);
    assert_eq!(prefs.count(Side::B), 2);
    assert_eq!(prefs.count(Side::R), 3);
    assert_eq!(prefs.get(&Entry::B(0), &Entry::R(2)), Ok(0));
    assert_eq!(prefs.get(&Entry::B(0), &Entry::R(0)), Ok(1));
    assert_eq!(prefs.get(&Entry::B(0), &Entry::R(1)), Ok(2));
    assert_eq!(prefs.get(&Entry::R(2), &Entry::B(1)), Ok(1));
}

#[test]
fn preferences_unknown_lookups() {
    let prefs = Preferences::new(vec![vec![0]], vec![vec![0]]).unwrap();
    assert_eq!(
        prefs.get(&Entry::B(1), &Entry::R(0)),
        Err(MatchError::UnknownEntry(Entry::B(1)))
    );
    assert_eq!(
        prefs.get(&Entry::B(0), &Entry::R(4)),
        Err(MatchError::UnknownEntry(Entry::R(4)))
    );
    assert_eq!(
        prefs.get(&Entry::B(0), &Entry::B(0)),
        Err(MatchError::UnknownEntry(Entry::B(0)))
    );
    assert_eq!(prefs.get_all(&Entry::R(3)), Err(MatchError::UnknownEntry(Entry::R(3))));
}

#[test]
fn preferences_get_all_is_in_order_of_rank() {
    let prefs = Preferences::new(vec![vec![2, 0, 1]], vec![vec![0], vec![0], vec![0]]).unwrap();
    assert_eq!(
        prefs.get_all(&Entry::B(0)),
        Ok(vec![Entry::R(2), Entry::R(0), Entry::R(1)])
    );
    assert_eq!(prefs.get_all(&Entry::R(1)), Ok(vec![Entry::B(0)]));
}

#[test]
fn preferences_refuse_repeated_candidates() {
    assert!(Preferences::new(vec![vec![0, 1, 0]], vec![vec![0], vec![0]]).is_none());
    assert!(Preferences::new(vec![vec![0, 1]], vec![vec![0], vec![0, 0]]).is_none());
    assert!(Preferences::new(vec![vec![0, 1]], vec![vec![0], vec![0]]).is_some());
}

#[test]
fn no_repeats() {
    assert!(has_no_repeats(&vec![]));
    assert!(has_no_repeats(&vec![3, 1, 2]));
    assert!(!has_no_repeats(&vec![3, 1, 3]));
}

#[test]
fn preferences_get_all_hashset_has_the_ranked_ids() {
    let prefs = Preferences::new(vec![vec![2, 0], vec![1]], vec![vec![0], vec![1], vec![0]]).unwrap();
    let ids = prefs.get_all_hashset(&Entry::B(0)).unwrap();
    assert_eq!(ids.len(), 2);
    assert!(ids.contains(&2));
    assert!(ids.contains(&0));
    assert!(!ids.contains(&1));
    assert_eq!(
        prefs.get_all_hashset(&Entry::B(2)).err(),
        Some(MatchError::UnknownEntry(Entry::B(2)))
    );
}

#[test]
fn pairings_compare_as_sets() {
    let a = Pairings::new(vec![Pairing::new(0, 1), Pairing::new(2, 3)]);
    let b = Pairings::new(vec![Pairing::new(2, 3), Pairing::new(0, 1)]);
    let c = Pairings::new(vec![Pairing::new(2, 3)]);
    assert_eq!(a, b);
    assert_ne!(a, c);
    assert!(a == b);
    assert!(a != c);
}

#[test]
fn complete_and_balanced_structures() {
    let square = Preferences::new(vec![vec![0, 1], vec![1, 0]], vec![vec![1, 0], vec![0, 1]]).unwrap();
    assert!(square.is_complete());
    assert!(square.is_balanced());
    let uneven = Preferences::new(
        vec![vec![0, 1], vec![0, 1], vec![1, 0]],
        vec![vec![0, 1, 2], vec![2, 1, 0]],
    )
    .unwrap();
    assert!(uneven.is_complete());
    assert!(!uneven.is_balanced());
    let short = Preferences::new(vec![vec![0, 1], vec![0]], vec![vec![0, 1], vec![0, 1]]).unwrap();
    assert!(!short.is_complete());
    assert!(!short.is_balanced());
    let stray = Preferences::new(vec![vec![0, 2], vec![0, 1]], vec![vec![0, 1], vec![0, 1]]).unwrap();
    assert!(!stray.is_complete());
    let empty = Preferences::new(vec![], vec![]).unwrap();
    assert!(empty.is_complete());
    assert!(empty.is_balanced());
}
