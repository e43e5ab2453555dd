use irv_ballots::ballot::{validate_ballot, Ballot, InvalidBallot, Vote, VoteTable};
use irv_ballots::election::ElectionResult;
use irv_ballots::model::{Item, NewUser, User};

const A: i32 = 1;
const B: i32 = 2;
const C: i32 = 3;
const V: i32 = 10;
const W: i32 = 11;

fn row(user_id: i32, item_id: i32, ordinal: i32) -> Vote {
    Vote { user_id, item_id, ordinal }
}

#[test]
fn resubmission_replaces_the_ballot() {
    let cands = vec![A, B, C];
    let mut t = VoteTable::new();
    assert_eq!(t.submit(V, vec![A, B], &cands), Ok(()));
    assert_eq!(t.submit(V, vec![B], &cands), Ok(()));
    assert_eq!(t.rows_for(V), vec![row(V, B, 0)]);
    assert_eq!(t.rows.len(), 1);
}

#[test]
fn duplicate_is_refused_without_change() {
    let cands = vec![A, B, C];
    let mut t = VoteTable::new();
    assert_eq!(t.submit(V, vec![C, B], &cands), Ok(()));
    assert_eq!(t.submit(V, vec![A, A], &cands), Err(InvalidBallot::Duplicate(A)));
    assert_eq!(t.rows_for(V), vec![row(V, C, 0), row(V, B, 1)]);
}

#[test]
fn unknown_candidate_is_refused() {
    let cands = vec![A, B];
    let mut t = VoteTable::new();
    assert_eq!(t.submit(V, vec![A, 9], &cands), Err(InvalidBallot::UnknownCandidate(9)));
    assert!(t.rows.is_empty());
    assert_eq!(validate_ballot(&vec![9, 9], &cands), Err(InvalidBallot::UnknownCandidate(9)));
    assert_eq!(validate_ballot(&vec![B, A, B], &cands), Err(InvalidBallot::Duplicate(B)));
    assert_eq!(validate_ballot(&vec![B, A], &cands), Ok(()));
}

#[test]
fn same_list_twice_is_one_submission() {
    let cands = vec![A, B, C];
    let mut once = VoteTable::new();
    once.submit(W, vec![A], &cands).unwrap();
    once.submit(V, vec![C, A], &cands).unwrap();
    let mut twice = once.clone();
    twice.submit(V, vec![C, A], &cands).unwrap();
    assert_eq!(once.rows, twice.rows);
    assert_eq!(twice.rows_for(V), vec![row(V, C, 0), row(V, A, 1)]);
}

#[test]
fn ordinals_follow_the_submitted_order() {
    let cands = vec![A, B, C];
    let mut t = VoteTable::new();
    t.submit(W, vec![B], &cands).unwrap();
    t.submit(V, vec![C, A, B], &cands).unwrap();
    assert_eq!(t.rows_for(V), vec![row(V, C, 0), row(V, A, 1), row(V, B, 2)]);
    assert_eq!(t.rows_for(W), vec![row(W, B, 0)]);
}

#[test]
fn empty_submission_withdraws_preferences() {
    let cands = vec![A, B];
    let mut t = VoteTable::new();
    t.submit(V, vec![A, B], &cands).unwrap();
    assert_eq!(t.submit(V, vec![], &cands), Ok(()));
    assert!(t.rows_for(V).is_empty());
}

#[test]
fn save_ballot_writes_ordinals() {
    let mut t = VoteTable { rows: vec![row(V, A, 0), row(W, A, 0), row(V, B, 1)] };
    assert_eq!(Vote::save_ballot(V, Ballot { votes: vec![B, C] }, &vec![A, B, C], &mut t), Ok(()));
    assert_eq!(t.rows, vec![row(W, A, 0), row(V, B, 0), row(V, C, 1)]);
}

#[test]
fn save_ballot_refuses_duplicate_and_keeps_rows() {
    let mut t = VoteTable { rows: vec![row(V, B, 0)] };
    let r = Vote::save_ballot(V, Ballot { votes: vec![A, A] }, &vec![A, B], &mut t);
    assert_eq!(r, Err(InvalidBallot::Duplicate(A)));
    assert_eq!(t.rows, vec![row(V, B, 0)]);
    let mut empty = VoteTable::new();
    let r = Vote::save_ballot(V, Ballot { votes: vec![A, A] }, &vec![A, B], &mut empty);
    assert_eq!(r, Err(InvalidBallot::Duplicate(A)));
    assert!(empty.rows.is_empty());
}

#[test]
fn save_ballot_refuses_withdrawn_candidate() {
    let mut t = VoteTable { rows: vec![row(V, B, 0)] };
    let r = Vote::save_ballot(V, Ballot { votes: vec![A, C] }, &vec![A, B], &mut t);
    assert_eq!(r, Err(InvalidBallot::UnknownCandidate(C)));
    assert_eq!(t.rows, vec![row(V, B, 0)]);
}

#[test]
fn run_election_groups_rows_by_voter() {
    let rows = vec![row(V, A, 0), row(V, B, 1), row(W, B, 0), row(12, A, 0)];
    assert_eq!(Vote::run_election(&rows, &vec![A, B]), ElectionResult::Winner(A));
}

#[test]
fn run_election_keeps_ties_and_degenerate_cases() {
    let rows = vec![row(V, B, 0), row(W, A, 0)];
    assert_eq!(Vote::run_election(&rows, &vec![A, B]), ElectionResult::Tie(vec![A, B]));
    assert_eq!(Vote::run_election(&Vec::new(), &vec![A, B]), ElectionResult::NoBallots);
    assert_eq!(Vote::run_election(&rows, &Vec::new()), ElectionResult::NoCandidates);
}

#[test]
fn items_marked_when_ranked() {
    let item = |id: i32| Item { id, title: format!("t{}", id), body: String::new(), done: false };
    let rows = vec![(item(1), Some(0)), (item(2), None), (item(3), Some(1))];
    let r = Item::for_user(rows);
    assert_eq!(r, vec![(item(1), true), (item(2), false), (item(3), true)]);
    let u = User { id: 1, username: NewUser { username: "ann".to_string() }.username };
    assert_eq!(u.username, "ann");
}
