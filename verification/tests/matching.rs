use stable_matching::entry::{Entry, Side};
use stable_matching::error::MatchError;
use stable_matching::hall::halls_condition;
use stable_matching::matcher::run;
use stable_matching::pairings::{Pairing, Pairings};
use stable_matching::preferences::Preferences;
use stable_matching::stability::find_blocking_pairs;

fn prefs(b: Vec<Vec<u32>>, r: Vec<Vec<u32>>) -> Preferences {
    Preferences::new(b, r).unwrap()
}

fn set_of(pairs: &[(u32, u32)]) -> Pairings {
    Pairings::new(pairs.iter().map(|&(b, r)| Pairing::new(b, r)).collect())
}

fn sorted(pairings: &Pairings) -> Vec<(u32, u32)> {
    let mut all: Vec<(u32, u32)> = pairings.get().iter().map(|p| (p.b, p.r)).collect();
    all.sort();
    all
}

#[test]
fn agreeing_preferences_pair_first_choices() {
    let p = prefs(vec![vec![0, 1], vec![1, 0]], vec![vec![0, 1], vec![1, 0]]);
    let m = run(&p, Side::B).unwrap();
    assert_eq!(sorted(&m), vec![(0, 0), (1, 1)]);
    assert!(m.same_as(&set_of(&[(0, 0), (1, 1)])));
    let blocking = find_blocking_pairs(&m, &p).unwrap();
    assert_eq!(blocking.len(), 0);
}

#[test]
fn unstable_candidate_has_one_blocking_pair() {
    let p = prefs(vec![vec![0, 1], vec![0, 1]], vec![vec![1, 0], vec![1, 0]]);
    let candidate = set_of(&[(0, 0), (1, 1)]);
    let blocking = find_blocking_pairs(&candidate, &p).unwrap();
    assert_eq!(sorted(&blocking), vec![(1, 0)]);
    assert!(blocking.same_as(&set_of(&[(1, 0)])));
}

#[test]
fn three_against_two_is_not_feasible() {
    let p = prefs(
        vec![vec![0, 1], vec![0, 1], vec![1, 0]],
        vec![vec![0, 1, 2], vec![2, 1, 0]],
    );
    // B0 takes R0, B1 is turned down by R0 and takes R1, and B2 displaces B1,
    // which then is turned down by both.
    assert_eq!(run(&p, Side::B).err(), Some(MatchError::NoFeasibleMatch(Entry::B(1))));
}

#[test]
fn two_against_three_is_not_feasible_either() {
    let p = prefs(
        vec![vec![0, 1], vec![0, 1], vec![1, 0]],
        vec![vec![0, 1, 2], vec![2, 1, 0]],
    );
    // R2 is below the population size and has no list.
    assert_eq!(run(&p, Side::R).err(), Some(MatchError::NoFeasibleMatch(Entry::R(2))));
}

#[test]
fn the_two_sides_can_get_different_matchings() {
    let p = prefs(vec![vec![0, 1], vec![1, 0]], vec![vec![1, 0], vec![0, 1]]);
    let by_b = run(&p, Side::B).unwrap();
    let by_r = run(&p, Side::R).unwrap();
    assert_eq!(sorted(&by_b), vec![(0, 0), (1, 1)]);
    assert_eq!(sorted(&by_r), vec![(0, 1), (1, 0)]);
    assert!(!by_b.same_as(&by_r));
    assert_eq!(find_blocking_pairs(&by_b, &p).unwrap().len(), 0);
    assert_eq!(find_blocking_pairs(&by_r, &p).unwrap().len(), 0);
}

#[test]
fn every_member_is_paired_exactly_once() {
    let p = prefs(
        vec![vec![1, 0, 3, 2], vec![1, 2, 0, 3], vec![1, 3, 2, 0], vec![0, 1, 2, 3]],
        vec![vec![3, 2, 1, 0], vec![0, 1, 2, 3], vec![2, 0, 3, 1], vec![1, 3, 0, 2]],
    );
    for side in [Side::B, Side::R] {
        let m = run(&p, side).unwrap();
        let all = sorted(&m);
        assert_eq!(all.len(), 4);
        let mut bs: Vec<u32> = all.iter().map(|x| x.0).collect();
        let mut rs: Vec<u32> = all.iter().map(|x| x.1).collect();
        bs.sort();
        rs.sort();
        assert_eq!(bs, vec![0, 1, 2, 3]);
        assert_eq!(rs, vec![0, 1, 2, 3]);
        assert_eq!(find_blocking_pairs(&m, &p).unwrap().len(), 0);
    }
}

#[test]
fn deferred_acceptance_trades_up() {
    // B0 and B1 both want R0 first; R0 likes B1 better, so B0 is displaced to R1.
    let p = prefs(vec![vec![0, 1], vec![0, 1]], vec![vec![1, 0], vec![1, 0]]);
    let m = run(&p, Side::B).unwrap();
    assert_eq!(sorted(&m), vec![(0, 1), (1, 0)]);
}

#[test]
fn three_by_three_proposer_optimal() {
    let p = prefs(
        vec![vec![0, 1, 2], vec![1, 2, 0], vec![2, 0, 1]],
        vec![vec![1, 2, 0], vec![2, 0, 1], vec![0, 1, 2]],
    );
    assert_eq!(sorted(&run(&p, Side::B).unwrap()), vec![(0, 0), (1, 1), (2, 2)]);
    assert_eq!(sorted(&run(&p, Side::R).unwrap()), vec![(0, 2), (1, 0), (2, 1)]);
}

#[test]
fn empty_populations_match_to_nothing() {
    let p = prefs(vec![], vec![]);
    let m = run(&p, Side::B).unwrap();
    assert_eq!(m.len(), 0);
    assert_eq!(halls_condition(&p), Ok(true));
}

#[test]
fn incomplete_list_can_run_out() {
    // B1 ranks R0 only, and R0 keeps B0.
    let p = prefs(vec![vec![0, 1], vec![0]], vec![vec![0, 1], vec![0, 1]]);
    assert_eq!(run(&p, Side::B).err(), Some(MatchError::NoFeasibleMatch(Entry::B(1))));
}

#[test]
fn checking_twice_gives_the_same() {
    let p = prefs(vec![vec![0, 1], vec![1, 0]], vec![vec![0, 1], vec![1, 0]]);
    let m = run(&p, Side::R).unwrap();
    let first = find_blocking_pairs(&m, &p).unwrap();
    let second = find_blocking_pairs(&m, &p).unwrap();
    assert_eq!(first.len(), 0);
    assert_eq!(second.len(), 0);
    assert_eq!(sorted(&m), vec![(0, 0), (1, 1)]);
}

#[test]
fn blocking_check_reports_missing_partner() {
    let p = prefs(vec![vec![0, 1], vec![0, 1]], vec![vec![1, 0], vec![1, 0]]);
    // B1 would rather be with R0, which has no pairing here.
    let candidate = set_of(&[(1, 1)]);
    assert_eq!(
        find_blocking_pairs(&candidate, &p).err(),
        Some(MatchError::UnknownEntry(Entry::R(0)))
    );
}

#[test]
fn blocking_check_reports_unknown_member() {
    let p = prefs(vec![vec![0]], vec![vec![0]]);
    let candidate = set_of(&[(5, 0)]);
    assert_eq!(find_blocking_pairs(&set_of(&[(0, 0)]), &p).unwrap().len(), 0);
    let wide = prefs(vec![vec![0, 1], vec![0, 1]], vec![vec![1, 0], vec![1, 0]]);
    assert_eq!(
        find_blocking_pairs(&candidate, &wide).err(),
        Some(MatchError::UnknownEntry(Entry::B(5)))
    );
}

#[test]
fn halls_condition_holds_for_equal_sides() {
    let p = prefs(
        vec![vec![0, 1, 2], vec![1, 2, 0], vec![2, 0, 1]],
        vec![vec![1, 2, 0], vec![2, 0, 1], vec![0, 1, 2]],
    );
    assert_eq!(halls_condition(&p), Ok(true));
}

#[test]
fn halls_condition_fails_for_more_b_than_r() {
    let p = prefs(
        vec![vec![0, 1], vec![0, 1], vec![1, 0]],
        vec![vec![0, 1, 2], vec![2, 1, 0]],
    );
    assert_eq!(halls_condition(&p), Ok(false));
}

#[test]
fn halls_condition_meets_unknown_b_for_fewer_b_than_r() {
    let p = prefs(
        vec![vec![0, 1, 2], vec![2, 1, 0]],
        vec![vec![0, 1], vec![0, 1], vec![1, 0]],
    );
    assert_eq!(halls_condition(&p), Err(MatchError::UnknownEntry(Entry::B(2))));
}

#[test]
fn halls_condition_counts_neighbors_of_partial_lists() {
    // B0 and B1 both rank R0 only: two members, one neighbor.
    let p = prefs(vec![vec![0], vec![0]], vec![vec![0, 1], vec![0, 1]]);
    assert_eq!(halls_condition(&p), Ok(false));
    // B0 ranks R0, B1 ranks R1: every subset has enough neighbors.
    let q = prefs(vec![vec![0], vec![1]], vec![vec![0], vec![1]]);
    assert_eq!(halls_condition(&q), Ok(true));
}

#[test]
fn an_acceptor_that_ranks_no_one_stops_the_second_proposer() {
    // B0 is picked first and R0, unpaired, takes it without a look at its list.
    // B1 comes next, and R0 is asked for the rank of B0, which it does not have.
    let p = prefs(vec![vec![0], vec![0]], vec![vec![], vec![]]);
    assert_eq!(run(&p, Side::B).err(), Some(MatchError::UnknownEntry(Entry::B(0))));
}

#[test]
fn a_candidate_beyond_the_population_is_unknown() {
    let p = prefs(vec![vec![7]], vec![vec![0]]);
    assert_eq!(run(&p, Side::B).err(), Some(MatchError::UnknownEntry(Entry::R(7))));
}

#[test]
fn partial_lists_that_suffice_give_a_matching() {
    let p = prefs(vec![vec![0], vec![1]], vec![vec![0], vec![1]]);
    assert_eq!(sorted(&run(&p, Side::B).unwrap()), vec![(0, 0), (1, 1)]);
    assert_eq!(sorted(&run(&p, Side::R).unwrap()), vec![(0, 0), (1, 1)]);
}
