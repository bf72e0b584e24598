use vote_counter::ballot::Ballot;
use vote_counter::candidates::Candidates;

fn prefs(b: &Ballot) -> Vec<usize> {
    b.iter().copied().collect()
}

#[test]
fn raw_ballot_is_ordered_by_rank() {
    let b = Ballot::from_raw_ballot(vec![Some(2), None, Some(1), Some(3)]).unwrap();
    assert_eq!(prefs(&b), vec![2, 0, 3]);
    assert_eq!(b.first_pref(), 2);
    assert_eq!(b.len(), 3);
    assert_eq!(b.at(2), 3);
}

#[test]
fn raw_ballot_with_gaps_in_ranks() {
    let b = Ballot::from_raw_ballot(vec![Some(7), Some(1), None]).unwrap();
    assert_eq!(prefs(&b), vec![1, 0]);
}

#[test]
fn duplicate_rank_is_rejected() {
    let raw = vec![Some(1), Some(2), Some(1)];
    let r = Ballot::from_raw_ballot(raw.clone());
    assert_eq!(r.unwrap_err(), raw);
}

#[test]
fn duplicate_rank_is_rejected_whatever_else_is_there() {
    let raw = vec![None, Some(4), Some(3), None, Some(4), Some(1)];
    assert_eq!(Ballot::from_raw_ballot(raw.clone()).unwrap_err(), raw);
}

#[test]
fn empty_preferences_are_rejected() {
    let raw: Vec<Option<usize>> = vec![None, None, None];
    assert_eq!(Ballot::from_raw_ballot(raw.clone()).unwrap_err(), raw);
    let none: Vec<Option<usize>> = Vec::new();
    assert!(Ballot::from_raw_ballot(none).is_err());
}

#[test]
fn remove_candidates_keeps_order() {
    let b = Ballot::new(vec![3, 1, 0, 2]);
    let r = Ballot::remove_candidates(b, &[1, 2]).unwrap();
    assert_eq!(prefs(&r), vec![3, 0]);
}

#[test]
fn remove_candidates_can_exhaust() {
    let b = Ballot::new(vec![1, 2]);
    assert!(Ballot::remove_candidates(b, &[2, 1, 0]).is_none());
}

#[test]
fn remove_nothing_keeps_everything() {
    let b = Ballot::new(vec![1, 0]);
    let r = Ballot::remove_candidates(b, &[]).unwrap();
    assert_eq!(prefs(&r), vec![1, 0]);
}

#[test]
fn candidates_lookup() {
    let c = Candidates::new(vec!["Ann".to_string(), "Bob".to_string()]);
    assert_eq!(c.len(), 2);
    assert_eq!(c.get(1), Some(&"Bob".to_string()));
    assert_eq!(c.get(2), None);
}
