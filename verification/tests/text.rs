use stable_matching::entry::{Entry, Side};
use stable_matching::error::MatchError;
use stable_matching::pairings::{Pairing, Pairings};
use stable_matching::preferences::Preferences;
use stable_matching::records::{
    parse_entry, parse_name, parse_pairing_row, parse_preference_row,
};

fn chars(s: &str) -> Vec<char> {
    s.chars().collect()
}

fn row(fields: &[&str]) -> Vec<Vec<char>> {
    fields.iter().map(|f| chars(f)).collect()
}

#[test]
fn entry_is_tag_and_number() {
    assert_eq!(parse_entry(&chars("B0")), Some(Entry::B(0)));
    assert_eq!(parse_entry(&chars("R17")), Some(Entry::R(17)));
    assert_eq!(parse_entry(&chars("B007")), Some(Entry::B(7)));
    assert_eq!(parse_entry(&chars("B+5")), Some(Entry::B(5)));
    assert_eq!(parse_entry(&chars("B4294967295")), Some(Entry::B(4294967295)));
}

#[test]
fn entry_refuses_what_is_not_tag_and_number() {
    assert_eq!(parse_entry(&chars("")), None);
    assert_eq!(parse_entry(&chars("B")), None);
    assert_eq!(parse_entry(&chars("B+")), None);
    assert_eq!(parse_entry(&chars("X3")), None);
    assert_eq!(parse_entry(&chars("b3")), None);
    assert_eq!(parse_entry(&chars("3")), None);
    assert_eq!(parse_entry(&chars("B3:")), None);
    assert_eq!(parse_entry(&chars("B-3")), None);
    assert_eq!(parse_entry(&chars("B3x")), None);
    assert_eq!(parse_entry(&chars("B 3")), None);
    assert_eq!(parse_entry(&chars("B4294967296")), None);
    assert_eq!(parse_entry(&chars("B99999999999999999999999999")), None);
}

#[test]
fn name_may_end_in_colons() {
    assert_eq!(parse_name(&chars("B3:")), Some(Entry::B(3)));
    assert_eq!(parse_name(&chars("R12::")), Some(Entry::R(12)));
    assert_eq!(parse_name(&chars("R12")), Some(Entry::R(12)));
    assert_eq!(parse_name(&chars(":")), None);
    assert_eq!(parse_name(&chars("B:3")), None);
}

#[test]
fn pairing_row_in_either_order() {
    assert_eq!(parse_pairing_row(&row(&["B1", "R2"])), Some(Pairing::new(1, 2)));
    assert_eq!(parse_pairing_row(&row(&["R2:", "B1:"])), Some(Pairing::new(1, 2)));
    assert_eq!(parse_pairing_row(&row(&["B1", "B2"])), None);
    assert_eq!(parse_pairing_row(&row(&["R1", "R2"])), None);
    assert_eq!(parse_pairing_row(&row(&["B1"])), None);
    assert_eq!(parse_pairing_row(&row(&["B1", "R2", ""])), None);
    assert_eq!(parse_pairing_row(&row(&["B1", "2"])), None);
}

#[test]
fn preference_row_lists_the_other_side() {
    assert_eq!(
        parse_preference_row(&row(&["B0:", "R2", "R0", "R1"])),
        Some((Entry::B(0), vec![2, 0, 1]))
    );
    assert_eq!(
        parse_preference_row(&row(&["R1", "B1", "B0", "", ""])),
        Some((Entry::R(1), vec![1, 0]))
    );
    assert_eq!(parse_preference_row(&row(&["R1", "", "B0"])), Some((Entry::R(1), vec![0])));
    assert_eq!(parse_preference_row(&row(&["R1"])), Some((Entry::R(1), vec![])));
}

#[test]
fn preference_row_refuses_bad_candidates() {
    assert_eq!(parse_preference_row(&row(&[])), None);
    assert_eq!(parse_preference_row(&row(&["B0", "B1"])), None);
    assert_eq!(parse_preference_row(&row(&["B0", "R1", "R1"])), None);
    assert_eq!(parse_preference_row(&row(&["B0", "R1:"])), None);
    assert_eq!(parse_preference_row(&row(&["B0", "R"])), None);
    assert_eq!(parse_preference_row(&row(&["Q0", "R1"])), None);
    assert_eq!(parse_preference_row(&row(&["B0", "R1", "x"])), None);
}

fn read(rows: &[&[&str]]) -> Vec<Result<Vec<Vec<char>>, ()>> {
    rows.iter().map(|r| Ok(row(r))).collect()
}

#[test]
fn preferences_from_rows_place_lists_by_name() {
    let rows = read(&[
        &["R1:", "B1", "B0"],
        &["B0:", "R0", "R1"],
        &["R0:", "B0", "B1"],
        &["B1:", "R1", "R0"],
    ]);
    let prefs = Preferences::from_rows(&rows).unwrap();
    assert_eq!(prefs.size(), 2);
    assert_eq!(prefs.get_all(&Entry::B(0)), Ok(vec![Entry::R(0), Entry::R(1)]));
    assert_eq!(prefs.get_all(&Entry::B(1)), Ok(vec![Entry::R(1), Entry::R(0)]));
    assert_eq!(prefs.get_all(&Entry::R(0)), Ok(vec![Entry::B(0), Entry::B(1)]));
    assert_eq!(prefs.get_all(&Entry::R(1)), Ok(vec![Entry::B(1), Entry::B(0)]));
}

#[test]
fn preferences_from_rows_report_the_failing_record() {
    let unreadable = read(&[&["B0", "R0"], &["R0", "R0"], &["zz"]]);
    assert_eq!(Preferences::from_rows(&unreadable).err(), Some(MatchError::MalformedRecord(1)));
    let mut broken = read(&[&["B0", "R0"], &["R0", "B0"]]);
    broken.push(Err(()));
    broken.push(Ok(row(&["B1", "R0"])));
    assert_eq!(Preferences::from_rows(&broken).err(), Some(MatchError::MalformedRecord(2)));
    let gap = read(&[&["B0", "R0"], &["B2", "R0"], &["R0", "B0"]]);
    assert_eq!(Preferences::from_rows(&gap).err(), Some(MatchError::MalformedRecord(1)));
    let twice = read(&[&["R0", "B0"], &["B0", "R0"], &["R0", "B0"]]);
    assert_eq!(Preferences::from_rows(&twice).err(), Some(MatchError::MalformedRecord(2)));
    let unreadable_after_gap = read(&[&["B1", "R0"], &["?"]]);
    assert_eq!(
        Preferences::from_rows(&unreadable_after_gap).err(),
        Some(MatchError::MalformedRecord(1))
    );
    let both_sides = read(&[&["R0", "B0"], &["B5", "R0"], &["R7", "B0"]]);
    assert_eq!(Preferences::from_rows(&both_sides).err(), Some(MatchError::MalformedRecord(1)));
    let r_first = read(&[&["B0", "R0"], &["R7", "B0"], &["B5", "R0"]]);
    assert_eq!(Preferences::from_rows(&r_first).err(), Some(MatchError::MalformedRecord(1)));
}

#[test]
fn preferences_from_rows_allow_unequal_sides() {
    let rows = read(&[
        &["B0", "R0", "R1"],
        &["B1", "R0", "R1"],
        &["B2", "R1", "R0"],
        &["R0", "B0", "B1", "B2"],
        &["R1", "B2", "B1", "B0"],
    ]);
    let prefs = Preferences::from_rows(&rows).unwrap();
    assert_eq!(prefs.count(Side::B), 3);
    assert_eq!(prefs.count(Side::R), 2);
    assert_eq!(prefs.size(), 3);
}

#[test]
fn preferences_from_csv_text() {
    let text = b"B0:, R0, R1\nB1:,R1 , R0,,\n\nR0:, B0, B1\nR1: ,B1,B0\n";
    let prefs = Preferences::from_csv(text).unwrap();
    assert_eq!(prefs.size(), 2);
    assert_eq!(prefs.get(&Entry::B(1), &Entry::R(1)), Ok(0));
    assert_eq!(prefs.get(&Entry::B(1), &Entry::R(0)), Ok(1));
    assert_eq!(prefs.get_all(&Entry::R(1)), Ok(vec![Entry::B(1), Entry::B(0)]));
}

#[test]
fn preferences_from_csv_refuses_bad_text() {
    assert_eq!(
        Preferences::from_csv(b"B0, R0\nR0, X0\n").err(),
        Some(MatchError::MalformedRecord(1))
    );
    assert_eq!(
        Preferences::from_csv(b"B0, R0\nR0, B0\n\xff\xfe, B0\n").err(),
        Some(MatchError::MalformedRecord(2))
    );
    assert!(Preferences::from_csv(b"").is_ok());
}

#[test]
fn pairings_from_rows() {
    let rows = read(&[&["B0", "R1"], &["R0:", "B1:"], &["B0", "R1"]]);
    let set = Pairings::from_rows(&rows).unwrap();
    assert_eq!(set.len(), 2);
    assert!(set.contains(&Pairing::new(0, 1)));
    assert!(set.contains(&Pairing::new(1, 0)));
    let bad = read(&[&["B0", "R1"], &["B0"]]);
    assert_eq!(Pairings::from_rows(&bad).err(), Some(MatchError::MalformedRecord(1)));
    let mut broken = read(&[&["B0", "R1"], &["R0:", "B1:"], &["B0", "R1"]]);
    broken.push(Err(()));
    assert_eq!(Pairings::from_rows(&broken).err(), Some(MatchError::MalformedRecord(3)));
}

#[test]
fn pairings_from_csv_text() {
    let set = Pairings::from_csv(b"B0, R1\n R0 ,B1\n").unwrap();
    assert_eq!(set.len(), 2);
    assert!(set.contains(&Pairing::new(0, 1)));
    assert!(set.contains(&Pairing::new(1, 0)));
    assert_eq!(
        Pairings::from_csv(b"B0, R1\nB1, R0, R2\n").err(),
        Some(MatchError::MalformedRecord(1))
    );
}

#[test]
fn entries_and_pairings_as_text() {
    assert_eq!(Entry::B(0).to_text(), "B0");
    assert_eq!(Entry::R(10).to_text(), "R10");
    assert_eq!(Entry::R(4294967295).to_text(), "R4294967295");
    assert_eq!(Entry::B(907).to_text(), "B907");
    assert_eq!(Pairing::new(3, 12).to_text(), "('B3', 'R12')");
}

#[test]
fn pairings_as_text() {
    assert_eq!(Pairings::new(vec![]).to_text(), "{}");
    let set = Pairings::new(vec![Pairing::new(0, 0), Pairing::new(1, 21)]);
    assert_eq!(set.to_text(), "{\n    ('B0', 'R0'),\n    ('B1', 'R21'),\n}");
}

#[test]
fn written_entries_read_back() {
    for e in [Entry::B(0), Entry::R(9), Entry::B(10), Entry::R(4294967295)] {
        let text: Vec<char> = e.to_text().chars().collect();
        assert_eq!(parse_entry(&text), Some(e));
    }
}
