//! Ballot lifecycle: one ordered ballot per voter, stored as ranked vote rows
//! and fully replaced on every submission.
use crate::election::{
    snapshot_view, tally, tally_outcome, ElectionResult, EliminationPolicy,
};
use itertools::Itertools;
use vstd::prelude::*;

verus! {

/// One ranked entry of a voter's ballot: `ordinal` is its 0-based rank.
#[derive(Clone, Copy, Debug, PartialEq, Eq, Structural)]
pub struct Vote {
    pub user_id: i32,
    pub item_id: i32,
    pub ordinal: i32,
}

/// A submitted ballot: candidate identifiers, most preferred first.
#[derive(Clone, Debug, PartialEq, Eq)]
pub struct Ballot {
    pub votes: Vec<i32>,
}

/// Why a submitted ballot was refused.
#[derive(Clone, Copy, Debug, PartialEq, Eq, Structural)]
pub enum InvalidBallot {
    /// The identifier is not an eligible candidate.
    UnknownCandidate(i32),
    /// The identifier appears more than once.
    Duplicate(i32),
}

/// The vote rows of every voter, in the order they were written.
#[derive(Clone, Debug)]
pub struct VoteTable {
    pub rows: Vec<Vote>,
}

/// The rows that store `ids` as the ballot of `uid`.
pub open spec fn ballot_rows(uid: i32, ids: Seq<i32>) -> Seq<Vote> {
    Seq::new(ids.len(), |i: int| Vote { user_id: uid, item_id: ids[i], ordinal: i as i32 })
}

/// The rows that belong to voters other than `uid`, in order.
pub open spec fn rows_without(rows: Seq<Vote>, uid: i32) -> Seq<Vote>
    decreases rows.len(),
{
    if rows.len() == 0 {
        Seq::empty()
    } else {
        let r = rows_without(rows.drop_last(), uid);
        if rows.last().user_id == uid {
            r
        } else {
            r.push(rows.last())
        }
    }
}

/// The rows that belong to `uid`, in order.
pub open spec fn rows_of(rows: Seq<Vote>, uid: i32) -> Seq<Vote>
    decreases rows.len(),
{
    if rows.len() == 0 {
        Seq::empty()
    } else {
        let r = rows_of(rows.drop_last(), uid);
        if rows.last().user_id == uid {
            r.push(rows.last())
        } else {
            r
        }
    }
}

/// The table after the ballot of `uid` is replaced by `ids`.
pub open spec fn replaced(rows: Seq<Vote>, uid: i32, ids: Seq<i32>) -> Seq<Vote> {
    rows_without(rows, uid) + ballot_rows(uid, ids)
}

/// The first fault of a submitted list, scanning from position `i`.
pub open spec fn problem_from(ids: Seq<i32>, cands: Seq<i32>, i: int) -> Option<InvalidBallot>
    decreases ids.len() - i,
{
    if i < 0 || i >= ids.len() {
        None
    } else if !cands.contains(ids[i]) {
        Some(InvalidBallot::UnknownCandidate(ids[i]))
    } else if ids.take(i).contains(ids[i]) {
        Some(InvalidBallot::Duplicate(ids[i]))
    } else {
        problem_from(ids, cands, i + 1)
    }
}

/// The first fault of a submitted list, if it has one.
pub open spec fn ballot_problem(ids: Seq<i32>, cands: Seq<i32>) -> Option<InvalidBallot> {
    problem_from(ids, cands, 0)
}

/// Vote rows, sorted by voter, grouped into one ballot per run of equal voter.
pub open spec fn group_runs(rows: Seq<Vote>) -> Seq<Seq<i32>>
    decreases rows.len(),
{
    if rows.len() == 0 {
        Seq::empty()
    } else {
        let g = group_runs(rows.drop_last());
        let v = rows.last();
        if rows.len() >= 2 && rows[rows.len() - 2].user_id == v.user_id {
            g.update(g.len() - 1, g.last().push(v.item_id))
        } else {
            g.push(seq![v.item_id])
        }
    }
}

/// Relies on itertools' `group_by`: consecutive rows with equal `user_id`
/// form one group, in order; each group is mapped to its `item_id`s.
#[verifier::external_body]
fn group_ballots(rows: &Vec<Vote>) -> (r: Vec<Vec<i32>>)
    ensures
        snapshot_view(r@) == group_runs(rows@),
{
    let groups = rows.iter().group_by(|v| v.user_id);
    let r: Vec<Vec<i32>> = groups.into_iter().map(|(_, g)| g.map(|v| v.item_id).collect()).collect();
    r
}

fn seen_before(ids: &Vec<i32>, i: usize) -> (r: bool)
    requires
        i < ids.len(),
    ensures
        r == ids@.take(i as int).contains(ids@[i as int]),
{
    let mut j: usize = 0;
    while j < i
        invariant
            j <= i < ids.len(),
            forall|k: int| 0 <= k < j ==> ids@[k] != ids@[i as int],
        decreases i - j,
    {
        if ids[j] == ids[i] {
            assert(ids@.take(i as int)[j as int] == ids@[i as int]);
            return true;
        }
        j += 1;
    }
    assert(!ids@.take(i as int).contains(ids@[i as int])) by {
        assert(forall|k: int| 0 <= k < i ==> ids@.take(i as int)[k] == ids@[k]);
    }
    false
}

fn is_candidate(cands: &Vec<i32>, x: i32) -> (r: bool)
    ensures
        r == cands@.contains(x),
{
    let mut i: usize = 0;
    while i < cands.len()
        invariant
            i <= cands.len(),
            forall|j: int| 0 <= j < i ==> cands@[j] != x,
        decreases cands.len() - i,
    {
        if cands[i] == x {
            assert(cands@[i as int] == x);
            return true;
        }
        i += 1;
    }
    false
}

/// Checks that every identifier is an eligible candidate and that none
/// repeats; reports the first fault in list order.
pub fn validate_ballot(ids: &Vec<i32>, candidates: &Vec<i32>) -> (r: Result<(), InvalidBallot>)
    ensures
        r == (match ballot_problem(ids@, candidates@) {
            Some(e) => Err(e),
            None => Ok(()),
        }),
{
    let mut i: usize = 0;
    while i < ids.len()
        invariant
            i <= ids.len(),
            ballot_problem(ids@, candidates@) == problem_from(ids@, candidates@, i as int),
        decreases ids.len() - i,
    {
        if !is_candidate(candidates, ids[i]) {
            return Err(InvalidBallot::UnknownCandidate(ids[i]));
        }
        if seen_before(ids, i) {
            return Err(InvalidBallot::Duplicate(ids[i]));
        }
        i += 1;
    }
    Ok(())
}

proof fn lemma_without_concat(a: Seq<Vote>, b: Seq<Vote>, uid: i32)
    ensures
        rows_without(a + b, uid) == rows_without(a, uid) + rows_without(b, uid),
    decreases b.len(),
{
    if b.len() == 0 {
        assert(a + b =~= a);
        assert(rows_without(a, uid) + rows_without(b, uid) =~= rows_without(a, uid));
    } else {
        assert((a + b).drop_last() =~= a + b.drop_last());
        lemma_without_concat(a, b.drop_last(), uid);
        if b.last().user_id != uid {
            assert(rows_without(a, uid) + rows_without(b.drop_last(), uid).push(b.last())
                =~= (rows_without(a, uid) + rows_without(b.drop_last(), uid)).push(b.last()));
        }
    }
}

proof fn lemma_of_concat(a: Seq<Vote>, b: Seq<Vote>, uid: i32)
    ensures
        rows_of(a + b, uid) == rows_of(a, uid) + rows_of(b, uid),
    decreases b.len(),
{
    if b.len() == 0 {
        assert(a + b =~= a);
        assert(rows_of(a, uid) + rows_of(b, uid) =~= rows_of(a, uid));
    } else {
        assert((a + b).drop_last() =~= a + b.drop_last());
        lemma_of_concat(a, b.drop_last(), uid);
        if b.last().user_id == uid {
            assert(rows_of(a, uid) + rows_of(b.drop_last(), uid).push(b.last())
                =~= (rows_of(a, uid) + rows_of(b.drop_last(), uid)).push(b.last()));
        }
    }
}

proof fn lemma_all_of_voter(rows: Seq<Vote>, uid: i32)
    requires
        forall|i: int| 0 <= i < rows.len() ==> rows[i].user_id == uid,
    ensures
        rows_without(rows, uid) == Seq::<Vote>::empty(),
        rows_of(rows, uid) == rows,
    decreases rows.len(),
{
    if rows.len() > 0 {
        lemma_all_of_voter(rows.drop_last(), uid);
        assert(rows.drop_last().push(rows.last()) =~= rows);
    }
}

proof fn lemma_none_of_voter(rows: Seq<Vote>, uid: i32)
    ensures
        rows_of(rows_without(rows, uid), uid) == Seq::<Vote>::empty(),
        rows_without(rows_without(rows, uid), uid) == rows_without(rows, uid),
    decreases rows.len(),
{
    if rows.len() > 0 {
        lemma_none_of_voter(rows.drop_last(), uid);
        let w = rows_without(rows.drop_last(), uid);
        if rows.last().user_id != uid {
            assert(w.push(rows.last()).drop_last() =~= w);
        }
    }
}

/// After a replacement, the voter's rows are exactly the new ballot's rows.
proof fn lemma_replaced_rows(rows: Seq<Vote>, uid: i32, ids: Seq<i32>)
    ensures
        rows_of(replaced(rows, uid, ids), uid) == ballot_rows(uid, ids),
        rows_without(replaced(rows, uid, ids), uid) == rows_without(rows, uid),
{
    let w = rows_without(rows, uid);
    let b = ballot_rows(uid, ids);
    lemma_of_concat(w, b, uid);
    lemma_without_concat(w, b, uid);
    lemma_none_of_voter(rows, uid);
    lemma_all_of_voter(b, uid);
    assert(Seq::<Vote>::empty() + b =~= b);
    assert(w + Seq::<Vote>::empty() =~= w);
}

/// Submitting the same list twice leaves the table as one submission does.
pub proof fn lemma_replacement_idempotent(rows: Seq<Vote>, uid: i32, ids: Seq<i32>)
    ensures
        replaced(replaced(rows, uid, ids), uid, ids) == replaced(rows, uid, ids),
{
    lemma_replaced_rows(rows, uid, ids);
}

/// After a replacement, the voter's stored rows carry the ordinals `0..n`, in
/// the submitted order, and the other voters' rows are untouched.
pub proof fn lemma_ordinals_dense(rows: Seq<Vote>, uid: i32, ids: Seq<i32>)
    requires
        ids.len() <= i32::MAX,
    ensures
        rows_of(replaced(rows, uid, ids), uid).len() == ids.len(),
        forall|i: int|
            0 <= i < ids.len() ==> rows_of(replaced(rows, uid, ids), uid)[i] == (Vote {
                user_id: uid,
                item_id: ids[i],
                ordinal: i as i32,
            }),
        forall|i: int|
            0 <= i < ids.len() ==> rows_of(replaced(rows, uid, ids), uid)[i].ordinal as int == i,
        rows_without(replaced(rows, uid, ids), uid) == rows_without(rows, uid),
{
    lemma_replaced_rows(rows, uid, ids);
}

impl VoteTable {
    /// An empty table.
    pub fn new() -> (r: VoteTable)
        ensures
            r.rows@ == Seq::<Vote>::empty(),
    {
        VoteTable { rows: Vec::new() }
    }

    /// The rows of `uid`, in the order they are stored.
    pub fn rows_for(&self, uid: i32) -> (r: Vec<Vote>)
        ensures
            r@ == rows_of(self.rows@, uid),
    {
        let mut r: Vec<Vote> = Vec::new();
        let mut i: usize = 0;
        while i < self.rows.len()
            invariant
                i <= self.rows.len(),
                r@ == rows_of(self.rows@.take(i as int), uid),
            decreases self.rows.len() - i,
        {
            assert(self.rows@.take(i as int + 1).drop_last() =~= self.rows@.take(i as int));
            if self.rows[i].user_id == uid {
                r.push(self.rows[i]);
            }
            i += 1;
        }
        assert(self.rows@.take(self.rows.len() as int) =~= self.rows@);
        r
    }

    /// Validates `ids` against `candidates` and, if it is valid, makes it the
    /// voter's only ballot; on a fault nothing changes.
    pub fn submit(&mut self, voter: i32, ids: Vec<i32>, candidates: &Vec<i32>) -> (r: Result<(), InvalidBallot>)
        requires
            ids.len() <= i32::MAX,
        ensures
            r == (match ballot_problem(ids@, candidates@) {
                Some(e) => Err(e),
                None => Ok(()),
            }),
            r is Ok ==> final(self).rows@ == replaced(old(self).rows@, voter, ids@),
            r is Ok ==> rows_of(final(self).rows@, voter) == ballot_rows(voter, ids@),
            r is Err ==> final(self).rows@ == old(self).rows@,
    {
        Vote::save_ballot(voter, Ballot { votes: ids }, candidates, self)
    }
}

impl Vote {
    /// Checks `ballot` against the eligible `candidates`; if it is valid,
    /// replaces every row of `uid` by the rows of `ballot`, whose entry at
    /// position `i` gets ordinal `i`. On a fault nothing is written.
    pub fn save_ballot(uid: i32, ballot: Ballot, candidates: &Vec<i32>, table: &mut VoteTable) -> (r: Result<(), InvalidBallot>)
        requires
            ballot.votes.len() <= i32::MAX,
        ensures
            r == (match ballot_problem(ballot.votes@, candidates@) {
                Some(e) => Err(e),
                None => Ok(()),
            }),
            r is Ok ==> final(table).rows@ == replaced(old(table).rows@, uid, ballot.votes@),
            r is Ok ==> rows_of(final(table).rows@, uid) == ballot_rows(uid, ballot.votes@),
            r is Err ==> final(table).rows@ == old(table).rows@,
    {
        match validate_ballot(&ballot.votes, candidates) {
            Err(e) => Err(e),
            Ok(()) => {
                let ghost ids = ballot.votes@;
                replace_rows(uid, ballot, table);
                proof {
                    lemma_replaced_rows(old(table).rows@, uid, ids);
                }
                Ok(())
            },
        }
    }

    /// Groups the vote rows, sorted by voter and then by ordinal, into one
    /// ballot per voter and tallies them over `candidates` with simultaneous
    /// last-place elimination.
    pub fn run_election(rows: &Vec<Vote>, candidates: &Vec<i32>) -> (r: ElectionResult)
        ensures
            r@ == tally_outcome(group_runs(rows@), candidates@, EliminationPolicy::EliminateAllTied),
    {
        let ballots = group_ballots(rows);
        tally(&ballots, candidates, EliminationPolicy::EliminateAllTied)
    }
}

/// Replaces every row of `uid` by the rows of `ballot`, whose entry at
/// position `i` gets ordinal `i`; the caller has checked the ballot.
fn replace_rows(uid: i32, ballot: Ballot, table: &mut VoteTable)
    requires
        ballot.votes.len() <= i32::MAX,
    ensures
        final(table).rows@ == replaced(old(table).rows@, uid, ballot.votes@),
{
    let ghost old_rows = table.rows@;
    let mut kept: Vec<Vote> = Vec::new();
    let mut i: usize = 0;
    while i < table.rows.len()
        invariant
            i <= table.rows.len(),
            table.rows@ == old_rows,
            kept@ == rows_without(old_rows.take(i as int), uid),
        decreases table.rows.len() - i,
    {
        assert(old_rows.take(i as int + 1).drop_last() =~= old_rows.take(i as int));
        if table.rows[i].user_id != uid {
            kept.push(table.rows[i]);
        }
        i += 1;
    }
    assert(old_rows.take(old_rows.len() as int) =~= old_rows);
    let ghost w = kept@;
    let ids = ballot.votes;
    let mut k: usize = 0;
    while k < ids.len()
        invariant
            k <= ids.len() <= i32::MAX,
            kept.len() == w.len() + k,
            forall|j: int| 0 <= j < w.len() ==> kept@[j] == w[j],
            forall|j: int|
                0 <= j < k ==> kept@[w.len() + j] == (Vote {
                    user_id: uid,
                    item_id: ids@[j],
                    ordinal: j as i32,
                }),
        decreases ids.len() - k,
    {
        kept.push(Vote { user_id: uid, item_id: ids[k], ordinal: k as i32 });
        k += 1;
    }
    assert(kept@ =~= replaced(old_rows, uid, ids@));
    table.rows = kept;
}

} // verus!
