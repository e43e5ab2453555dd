use irv_ballots::election::{tally, ElectionResult, EliminationPolicy};

const A: i32 = 1;
const B: i32 = 2;
const C: i32 = 3;

fn repeat(b: Vec<i32>, n: usize, into: &mut Vec<Vec<i32>>) {
    for _ in 0..n {
        into.push(b.clone());
    }
}

fn three_way() -> Vec<Vec<i32>> {
    let mut s = Vec::new();
    repeat(vec![A, B, C], 3, &mut s);
    repeat(vec![B, A, C], 2, &mut s);
    repeat(vec![C, B, A], 2, &mut s);
    s
}

#[test]
fn tied_last_places_leave_together() {
    let r = tally(&three_way(), &vec![A, B, C], EliminationPolicy::EliminateAllTied);
    assert_eq!(r, ElectionResult::Winner(A));
}

#[test]
fn lowest_id_policy_removes_one_candidate() {
    let r = tally(&three_way(), &vec![A, B, C], EliminationPolicy::EliminateLowestId);
    assert_eq!(r, ElectionResult::Winner(A));
}

#[test]
fn full_deadlock_is_a_tie() {
    let s = vec![vec![A], vec![B]];
    let r = tally(&s, &vec![A, B], EliminationPolicy::EliminateAllTied);
    assert_eq!(r, ElectionResult::Tie(vec![A, B]));
}

#[test]
fn lowest_id_policy_breaks_deadlock() {
    let s = vec![vec![A], vec![B]];
    let r = tally(&s, &vec![A, B], EliminationPolicy::EliminateLowestId);
    assert_eq!(r, ElectionResult::Winner(B));
}

#[test]
fn no_ballots() {
    let s: Vec<Vec<i32>> = Vec::new();
    let r = tally(&s, &vec![A, B], EliminationPolicy::EliminateAllTied);
    assert_eq!(r, ElectionResult::NoBallots);
}

#[test]
fn only_empty_ballots() {
    let s: Vec<Vec<i32>> = vec![vec![], vec![], vec![9]];
    let r = tally(&s, &vec![A, B], EliminationPolicy::EliminateAllTied);
    assert_eq!(r, ElectionResult::NoBallots);
}

#[test]
fn no_candidates() {
    let s = vec![vec![A]];
    let r = tally(&s, &Vec::new(), EliminationPolicy::EliminateAllTied);
    assert_eq!(r, ElectionResult::NoCandidates);
}

#[test]
fn single_candidate_wins_at_once() {
    let s = vec![vec![A]];
    assert_eq!(tally(&s, &vec![A], EliminationPolicy::EliminateAllTied), ElectionResult::Winner(A));
    let none: Vec<Vec<i32>> = Vec::new();
    assert_eq!(tally(&none, &vec![A], EliminationPolicy::EliminateAllTied), ElectionResult::Winner(A));
}

#[test]
fn first_round_majority_wins() {
    let s = vec![vec![B, A], vec![B], vec![A, B], vec![C, A], vec![B, C]];
    let r = tally(&s, &vec![A, B, C], EliminationPolicy::EliminateAllTied);
    assert_eq!(r, ElectionResult::Winner(B));
}

#[test]
fn exhausted_ballots_shrink_the_threshold() {
    let d = 4;
    let mut s = Vec::new();
    repeat(vec![A], 3, &mut s);
    repeat(vec![B], 3, &mut s);
    s.push(vec![C]);
    s.push(vec![d, B]);
    let r = tally(&s, &vec![A, B, C, d], EliminationPolicy::EliminateAllTied);
    assert_eq!(r, ElectionResult::Winner(B));
}

#[test]
fn withdrawn_entries_are_skipped() {
    let s = vec![vec![9, A], vec![9, B], vec![A]];
    let r = tally(&s, &vec![A, B], EliminationPolicy::EliminateAllTied);
    assert_eq!(r, ElectionResult::Winner(A));
}

#[test]
fn tally_is_deterministic() {
    let s = three_way();
    let cands = vec![A, B, C];
    let first = tally(&s, &cands, EliminationPolicy::EliminateAllTied);
    let second = tally(&s, &cands, EliminationPolicy::EliminateAllTied);
    assert_eq!(first, second);
    let tie = vec![vec![A], vec![B]];
    assert_eq!(
        tally(&tie, &vec![A, B], EliminationPolicy::EliminateAllTied),
        tally(&tie, &vec![A, B], EliminationPolicy::EliminateAllTied)
    );
}

#[test]
fn first_choices_decide_a_first_round_majority() {
    let s = vec![vec![B, A], vec![B, C], vec![A, B], vec![B], vec![C, A]];
    let reduced = vec![vec![B], vec![B], vec![A], vec![B], vec![C]];
    let cands = vec![A, B, C];
    assert_eq!(tally(&s, &cands, EliminationPolicy::EliminateAllTied), ElectionResult::Winner(B));
    assert_eq!(tally(&reduced, &cands, EliminationPolicy::EliminateAllTied), ElectionResult::Winner(B));
}
