use vote_counter::ballot::Ballot;
use vote_counter::ballot_box::{BallotBox, CountStatus};
use vote_counter::round::Threshold;
use vote_counter::candidates::Candidates;

fn ballot_box(names: &[&str], ballots: &[(u32, Vec<usize>)]) -> BallotBox {
    let candidates = Candidates::new(names.iter().map(|n| n.to_string()).collect());
    let mut bb = BallotBox::new(candidates);
    for (qty, prefs) in ballots {
        bb.push(Ballot::new(prefs.clone()), *qty);
    }
    bb
}

fn half() -> Threshold {
    Threshold { numerator: 1, denominator: 2 }
}

/// Runs rounds until a terminal state; returns the winner and the number of rounds.
fn run(bb: &mut BallotBox, threshold: Threshold) -> (Option<usize>, usize) {
    let mut rounds = 0;
    loop {
        rounds += 1;
        match bb.status(threshold) {
            CountStatus::Winner(w) => return (Some(w), rounds),
            CountStatus::Tie => return (None, rounds),
            CountStatus::Runoff(losers) => bb.runoff(losers),
            CountStatus::Promotion(leaders) => bb.promote(leaders),
        }
    }
}

#[test]
fn push_counts_first_preferences() {
    let bb = ballot_box(&["A", "B", "C"], &[(3, vec![0, 1]), (2, vec![1, 2]), (1, vec![2, 0])]);
    assert_eq!(bb.totals(), vec![3, 2, 1]);
    assert_eq!(bb.total_votes(), 6);
    assert_eq!(bb.remaining(), 3);
}

#[test]
fn candidates_without_votes_are_out_of_the_race() {
    let bb = ballot_box(&["A", "B", "C"], &[(2, vec![0, 1])]);
    assert_eq!(bb.remaining(), 1);
    assert_eq!(bb.totals(), vec![2, 0, 0]);
}

#[test]
fn empty_box_is_a_tie() {
    let bb = ballot_box(&["A", "B"], &[]);
    assert!(matches!(bb.status(half()), CountStatus::Tie));
    let nobody = ballot_box(&[], &[]);
    assert!(matches!(nobody.status(half()), CountStatus::Tie));
}

#[test]
fn share_exactly_at_threshold_wins() {
    let bb = ballot_box(&["A", "B", "C"], &[(3, vec![0, 1]), (2, vec![1, 2]), (1, vec![2, 0])]);
    assert!(matches!(bb.status(half()), CountStatus::Winner(0)));
}

#[test]
fn share_below_threshold_goes_to_runoff() {
    let bb = ballot_box(&["A", "B", "C"], &[(3, vec![0, 1]), (2, vec![1, 2]), (1, vec![2, 0])]);
    let two_thirds = Threshold { numerator: 2, denominator: 3 };
    match bb.status(two_thirds) {
        CountStatus::Runoff(losers) => assert_eq!(losers, vec![2]),
        other => panic!("unexpected {:?}", other),
    }
}

#[test]
fn zero_threshold_needs_a_sole_leader() {
    let bb = ballot_box(&["A", "B", "C"], &[(2, vec![0]), (2, vec![1]), (1, vec![2])]);
    let zero = Threshold { numerator: 0, denominator: 1 };
    match bb.status(zero) {
        CountStatus::Runoff(losers) => assert_eq!(losers, vec![2]),
        other => panic!("unexpected {:?}", other),
    }
}

#[test]
fn level_leaders_in_race_are_promoted() {
    let bb = ballot_box(&["A", "B", "C"], &[(2, vec![0, 1]), (2, vec![1, 2])]);
    match bb.status(half()) {
        CountStatus::Promotion(leaders) => assert_eq!(leaders, vec![0, 1]),
        other => panic!("unexpected {:?}", other),
    }
}

#[test]
fn all_fewest_are_run_off() {
    let bb = ballot_box(&["A", "B", "C", "D"], &[(5, vec![0]), (1, vec![1]), (1, vec![2]), (4, vec![3])]);
    match bb.status(half()) {
        CountStatus::Runoff(losers) => assert_eq!(losers, vec![1, 2]),
        other => panic!("unexpected {:?}", other),
    }
}

#[test]
fn status_twice_gives_the_same_outcome() {
    let bb = ballot_box(&["A", "B", "C"], &[(2, vec![0, 1]), (2, vec![1, 2]), (1, vec![2])]);
    let first = format!("{:?}", bb.status(half()));
    let second = format!("{:?}", bb.status(half()));
    assert_eq!(first, second);
}

#[test]
fn runoff_moves_votes_to_next_preference() {
    let mut bb = ballot_box(&["A", "B", "C"], &[(3, vec![0, 1]), (2, vec![1, 2]), (1, vec![2, 0])]);
    bb.runoff(vec![2]);
    assert_eq!(bb.totals(), vec![4, 2, 0]);
    assert_eq!(bb.total_votes(), 6);
    assert_eq!(bb.remaining(), 2);
}

#[test]
fn runoff_skips_eliminated_preferences() {
    let mut bb = ballot_box(&["A", "B", "C"], &[(3, vec![0]), (2, vec![1]), (1, vec![2, 1, 0])]);
    bb.runoff(vec![1]);
    assert_eq!(bb.totals(), vec![3, 0, 1]);
    bb.runoff(vec![2]);
    assert_eq!(bb.totals(), vec![4, 0, 0]);
    assert_eq!(bb.total_votes(), 4);
}

#[test]
fn exhausted_ballots_leave_the_count() {
    let mut bb = ballot_box(&["A", "B"], &[(3, vec![0]), (2, vec![1])]);
    bb.runoff(vec![1]);
    assert_eq!(bb.totals(), vec![3, 0]);
    assert_eq!(bb.total_votes(), 3);
}

#[test]
fn promotion_keeps_candidates_in_the_race() {
    let mut bb = ballot_box(&["A", "B"], &[(1, vec![0, 1]), (1, vec![1])]);
    bb.promote(vec![0, 1]);
    assert_eq!(bb.remaining(), 2);
    assert_eq!(bb.totals(), vec![0, 1]);
    assert_eq!(bb.total_votes(), 1);
}

#[test]
fn live_votes_never_exceed_pushed_votes() {
    let mut bb = ballot_box(
        &["A", "B", "C", "D"],
        &[(4, vec![0, 1, 2]), (3, vec![1, 3]), (3, vec![2, 1]), (2, vec![3, 0])],
    );
    let pushed = bb.total_votes();
    assert_eq!(pushed, 12);
    loop {
        assert!(bb.total_votes() <= pushed);
        match bb.status(Threshold { numerator: 3, denominator: 4 }) {
            CountStatus::Winner(_) | CountStatus::Tie => break,
            CountStatus::Runoff(losers) => bb.runoff(losers),
            CountStatus::Promotion(leaders) => bb.promote(leaders),
        }
    }
    assert!(bb.total_votes() <= pushed);
}

#[test]
fn count_ends_within_bound() {
    let ballots = vec![(1, vec![0, 1, 2]), (1, vec![1, 2, 0]), (1, vec![2, 0, 1]), (1, vec![0])];
    let lengths: usize = ballots.iter().map(|(q, b)| *q as usize * b.len()).sum();
    let mut bb = ballot_box(&["A", "B", "C"], &ballots);
    let (_, rounds) = run(&mut bb, Threshold { numerator: 1, denominator: 1 });
    assert!(rounds <= 3 + lengths);
}

#[test]
fn end_to_end_single_leader_wins() {
    let mut bb = ballot_box(&["A", "B", "C"], &[(3, vec![0, 1]), (2, vec![1, 2]), (1, vec![2, 0])]);
    let (winner, _) = run(&mut bb, half());
    assert_eq!(winner, Some(0));
    assert_eq!(bb.candidates.get(0), Some(&"A".to_string()));
}

#[test]
fn end_to_end_cycle_is_a_tie() {
    let mut bb = ballot_box(&["A", "B", "C"], &[(2, vec![0, 1]), (2, vec![1, 2]), (2, vec![2, 0])]);
    let (winner, _) = run(&mut bb, half());
    assert_eq!(winner, None);
}

#[test]
fn end_to_end_single_preferences_tie() {
    let mut bb = ballot_box(&["A", "B"], &[(1, vec![0]), (1, vec![1])]);
    match bb.status(half()) {
        CountStatus::Promotion(leaders) => {
            assert_eq!(leaders, vec![0, 1]);
            bb.promote(leaders);
        }
        other => panic!("unexpected {:?}", other),
    }
    assert_eq!(bb.totals(), vec![0, 0]);
    assert!(matches!(bb.status(half()), CountStatus::Tie));
}

#[test]
fn count_runs_to_the_winner() {
    let mut bb = ballot_box(&["A", "B", "C"], &[(3, vec![0, 1]), (2, vec![1, 2]), (1, vec![2, 0])]);
    assert_eq!(bb.count(half()), Some(0));
}

#[test]
fn count_after_runoff_elects_the_majority() {
    let mut bb = ballot_box(&["A", "B", "C"], &[(3, vec![0]), (3, vec![1]), (2, vec![2, 1])]);
    assert_eq!(bb.count(Threshold { numerator: 3, denominator: 5 }), Some(1));
    assert_eq!(bb.totals(), vec![3, 5, 0]);
}

#[test]
fn count_of_a_cycle_is_a_tie() {
    let mut bb = ballot_box(&["A", "B", "C"], &[(2, vec![0, 1]), (2, vec![1, 2]), (2, vec![2, 0])]);
    assert_eq!(bb.count(half()), None);
    assert_eq!(bb.total_votes(), 0);
}

#[test]
fn count_of_single_preferences_is_a_tie() {
    let mut bb = ballot_box(&["A", "B"], &[(1, vec![0]), (1, vec![1])]);
    assert_eq!(bb.count(half()), None);
}

#[test]
fn records_fill_the_box_and_rejects_come_back_with_rows() {
    let candidates = Candidates::new(vec!["A".to_string(), "B".to_string(), "C".to_string()]);
    let records = vec![
        vec![Some(1), Some(2), None],
        vec![None, None, None],
        vec![Some(2), None, Some(1)],
        vec![Some(1), Some(1), Some(2)],
        vec![None, Some(1), None],
    ];
    let (bb, invalid) = BallotBox::from_records(candidates, records);
    assert_eq!(bb.total_votes(), 3);
    assert_eq!(bb.totals(), vec![1, 1, 1]);
    assert_eq!(
        invalid,
        vec![(3, vec![None, None, None]), (5, vec![Some(1), Some(1), Some(2)])]
    );
}

#[test]
fn records_all_valid_reject_nothing() {
    let candidates = Candidates::new(vec!["A".to_string(), "B".to_string()]);
    let records = vec![vec![Some(1), Some(2)], vec![Some(2), Some(1)], vec![Some(1), None]];
    let (mut bb, invalid) = BallotBox::from_records(candidates, records);
    assert!(invalid.is_empty());
    assert_eq!(bb.totals(), vec![2, 1]);
    assert_eq!(bb.count(Threshold { numerator: 1, denominator: 2 }), Some(0));
}

#[test]
fn records_leave_candidates_without_first_choices_out_of_the_race() {
    let candidates = Candidates::new(vec!["A".to_string(), "B".to_string(), "C".to_string()]);
    let records = vec![vec![Some(1), Some(2), None], vec![Some(2), Some(1), Some(3)]];
    let (bb, invalid) = BallotBox::from_records(candidates, records);
    assert!(invalid.is_empty());
    assert_eq!(bb.remaining(), 2);
    assert_eq!(bb.totals(), vec![1, 1, 0]);
}

#[test]
fn promotion_needs_every_candidate_in_the_race_at_the_top() {
    // C holds no first preference, so it is out of the race: A and B are all
    // that is left, level at the top.
    let bb = ballot_box(&["A", "B", "C"], &[(2, vec![0, 2]), (2, vec![1, 2])]);
    match bb.status(Threshold { numerator: 1, denominator: 2 }) {
        CountStatus::Promotion(leaders) => assert_eq!(leaders, vec![0, 1]),
        other => panic!("unexpected {:?}", other),
    }
}

#[test]
fn count_of_a_decided_box_changes_nothing() {
    let mut bb = ballot_box(&["A", "B"], &[(3, vec![0, 1]), (1, vec![1])]);
    assert_eq!(bb.count(Threshold { numerator: 1, denominator: 2 }), Some(0));
    assert_eq!(bb.totals(), vec![3, 1]);
    assert_eq!(bb.total_votes(), 4);
}
