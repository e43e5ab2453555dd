//! The election engine: a pure instant-runoff tally over a snapshot of ballots.
use vstd::prelude::*;

verus! {

/// How last place is removed in a round where no candidate holds a majority.
#[derive(Clone, Copy, Debug, PartialEq, Eq, Structural)]
pub enum EliminationPolicy {
    /// Every candidate tied at the minimum count leaves at once.
    EliminateAllTied,
    /// Only the lowest identifier among those tied at the minimum leaves.
    EliminateLowestId,
}

/// The mathematical value of an election result.
pub enum Outcome {
    Winner(i32),
    Tie(Seq<i32>),
    NoCandidates,
    NoBallots,
}

/// The result of a tally.
#[derive(Clone, Debug, PartialEq, Eq)]
pub enum ElectionResult {
    /// One candidate won, by majority or as the last one standing.
    Winner(i32),
    /// The listed candidates were deadlocked: eliminating last place would remove all of them.
    Tie(Vec<i32>),
    /// The candidate set was empty.
    NoCandidates,
    /// No ballot ranks any of the candidates.
    NoBallots,
}

impl View for ElectionResult {
    type V = Outcome;

    open spec fn view(&self) -> Outcome {
        match self {
            ElectionResult::Winner(c) => Outcome::Winner(*c),
            ElectionResult::Tie(v) => Outcome::Tie(v@),
            ElectionResult::NoCandidates => Outcome::NoCandidates,
            ElectionResult::NoBallots => Outcome::NoBallots,
        }
    }
}

/// A snapshot of ballots as sequences of candidate identifiers.
pub open spec fn snapshot_view(s: Seq<Vec<i32>>) -> Seq<Seq<i32>> {
    Seq::new(s.len(), |i: int| s[i]@)
}

/// The first entry of `b`, from position `i` on, that is still active.
pub open spec fn pref_from(b: Seq<i32>, active: Seq<i32>, i: int) -> Option<i32>
    decreases b.len() - i,
{
    if i < 0 || i >= b.len() {
        None
    } else if active.contains(b[i]) {
        Some(b[i])
    } else {
        pref_from(b, active, i + 1)
    }
}

/// A ballot's current preference: its highest-ranked active candidate, if any.
pub open spec fn preference(b: Seq<i32>, active: Seq<i32>) -> Option<i32> {
    pref_from(b, active, 0)
}

/// Among the first `n` ballots, how many currently prefer `c`.
pub open spec fn votes_upto(snap: Seq<Seq<i32>>, active: Seq<i32>, c: i32, n: int) -> nat
    decreases n,
{
    if n <= 0 {
        0
    } else {
        votes_upto(snap, active, c, n - 1) + if preference(snap[n - 1], active) == Some(c) {
            1nat
        } else {
            0nat
        }
    }
}

/// The current-preference count of `c` in a round over `active`.
pub open spec fn votes(snap: Seq<Seq<i32>>, active: Seq<i32>, c: i32) -> nat {
    votes_upto(snap, active, c, snap.len() as int)
}

/// Among the first `n` ballots, how many still express a preference.
pub open spec fn counted_upto(snap: Seq<Seq<i32>>, active: Seq<i32>, n: int) -> nat
    decreases n,
{
    if n <= 0 {
        0
    } else {
        counted_upto(snap, active, n - 1) + if preference(snap[n - 1], active) is Some {
            1nat
        } else {
            0nat
        }
    }
}

/// The number of ballots that are not exhausted in a round over `active`.
pub open spec fn counted(snap: Seq<Seq<i32>>, active: Seq<i32>) -> nat {
    counted_upto(snap, active, snap.len() as int)
}

/// The remaining-majority threshold for `counted` live ballots.
pub open spec fn threshold(counted: nat) -> nat {
    counted / 2 + 1
}

pub open spec fn has_majority(snap: Seq<Seq<i32>>, active: Seq<i32>, c: i32) -> bool {
    votes(snap, active, c) >= threshold(counted(snap, active))
}

/// The first active candidate, from position `k` on, that meets the threshold.
pub open spec fn majority_from(snap: Seq<Seq<i32>>, active: Seq<i32>, k: int) -> Option<i32>
    decreases active.len() - k,
{
    if k < 0 || k >= active.len() {
        None
    } else if has_majority(snap, active, active[k]) {
        Some(active[k])
    } else {
        majority_from(snap, active, k + 1)
    }
}

pub open spec fn majority_winner(snap: Seq<Seq<i32>>, active: Seq<i32>) -> Option<i32> {
    majority_from(snap, active, 0)
}

/// The least count among the first `n` active candidates (`n >= 1`).
pub open spec fn min_votes_upto(snap: Seq<Seq<i32>>, active: Seq<i32>, n: int) -> nat
    decreases n,
{
    if n <= 1 {
        votes(snap, active, active[0])
    } else {
        let m = min_votes_upto(snap, active, n - 1);
        let v = votes(snap, active, active[n - 1]);
        if v < m {
            v
        } else {
            m
        }
    }
}

/// The least current-preference count among the active candidates.
pub open spec fn min_votes(snap: Seq<Seq<i32>>, active: Seq<i32>) -> nat {
    min_votes_upto(snap, active, active.len() as int)
}

/// The first `n` entries of `xs` that satisfy `f`, in order.
pub open spec fn keep_upto(xs: Seq<i32>, f: spec_fn(i32) -> bool, n: int) -> Seq<i32>
    decreases n,
{
    if n <= 0 {
        Seq::empty()
    } else {
        let r = keep_upto(xs, f, n - 1);
        if f(xs[n - 1]) {
            r.push(xs[n - 1])
        } else {
            r
        }
    }
}

pub open spec fn keep(xs: Seq<i32>, f: spec_fn(i32) -> bool) -> Seq<i32> {
    keep_upto(xs, f, xs.len() as int)
}

/// The least entry among the first `n` entries of `xs` that satisfy `f`.
pub open spec fn lowest_upto(xs: Seq<i32>, f: spec_fn(i32) -> bool, n: int) -> Option<i32>
    decreases n,
{
    if n <= 0 {
        None
    } else {
        let r = lowest_upto(xs, f, n - 1);
        if f(xs[n - 1]) && (r is None || xs[n - 1] < r->0) {
            Some(xs[n - 1])
        } else {
            r
        }
    }
}

pub open spec fn above_count(snap: Seq<Seq<i32>>, active: Seq<i32>, m: nat) -> spec_fn(i32) -> bool {
    |c: i32| votes(snap, active, c) != m
}

pub open spec fn at_count(snap: Seq<Seq<i32>>, active: Seq<i32>, m: nat) -> spec_fn(i32) -> bool {
    |c: i32| votes(snap, active, c) == m
}

pub open spec fn other_than(l: i32) -> spec_fn(i32) -> bool {
    |c: i32| c != l
}

pub open spec fn referenced_by(snap: Seq<Seq<i32>>) -> spec_fn(i32) -> bool {
    |c: i32| exists|i: int| 0 <= i < snap.len() && snap[i].contains(c)
}

/// The candidates that remain after last place is eliminated under `policy`.
pub open spec fn survivors(snap: Seq<Seq<i32>>, active: Seq<i32>, policy: EliminationPolicy) -> Seq<i32> {
    let m = min_votes(snap, active);
    match policy {
        EliminationPolicy::EliminateAllTied => keep(active, above_count(snap, active, m)),
        EliminationPolicy::EliminateLowestId => match lowest_upto(
            active,
            at_count(snap, active, m),
            active.len() as int,
        ) {
            Some(l) => keep(active, other_than(l)),
            None => active,
        },
    }
}

/// The rounds of the runoff, from the active set `active` on.
pub open spec fn run_rounds(snap: Seq<Seq<i32>>, active: Seq<i32>, policy: EliminationPolicy) -> Outcome
    decreases active.len(),
{
    if active.len() == 0 {
        Outcome::NoCandidates
    } else if active.len() == 1 {
        Outcome::Winner(active[0])
    } else {
        match majority_winner(snap, active) {
            Some(c) => Outcome::Winner(c),
            None => {
                let next = survivors(snap, active, policy);
                if next.len() == 0 || next.len() >= active.len() {
                    Outcome::Tie(active)
                } else {
                    run_rounds(snap, next, policy)
                }
            },
        }
    }
}

/// The result of an election over the ballots `snap` and the candidates `cands`.
pub open spec fn tally_outcome(snap: Seq<Seq<i32>>, cands: Seq<i32>, policy: EliminationPolicy) -> Outcome {
    if cands.len() == 0 {
        Outcome::NoCandidates
    } else if cands.len() == 1 {
        Outcome::Winner(cands[0])
    } else if counted(snap, cands) == 0 {
        Outcome::NoBallots
    } else {
        run_rounds(snap, keep(cands, referenced_by(snap)), policy)
    }
}

proof fn lemma_pref_found(b: Seq<i32>, active: Seq<i32>, i: int)
    requires
        0 <= i,
    ensures
        pref_from(b, active, i) matches Some(c) ==> active.contains(c) && b.contains(c),
        (forall|j: int| i <= j < b.len() ==> !active.contains(#[trigger] b[j])) ==> pref_from(
            b,
            active,
            i,
        ) is None,
    decreases b.len() - i,
{
    if i < b.len() {
        lemma_pref_found(b, active, i + 1);
        if active.contains(b[i]) {
            assert(b.contains(b[i]));
        }
    }
}

proof fn lemma_pref_agree(b: Seq<i32>, a1: Seq<i32>, a2: Seq<i32>, i: int)
    requires
        0 <= i,
        forall|j: int| i <= j < b.len() ==> (a1.contains(#[trigger] b[j]) <==> a2.contains(b[j])),
    ensures
        pref_from(b, a1, i) == pref_from(b, a2, i),
    decreases b.len() - i,
{
    if i < b.len() {
        lemma_pref_agree(b, a1, a2, i + 1);
    }
}

proof fn lemma_counts_agree(s1: Seq<Seq<i32>>, a1: Seq<i32>, s2: Seq<Seq<i32>>, a2: Seq<i32>, c: i32, n: int)
    requires
        n <= s1.len(),
        n <= s2.len(),
        forall|i: int| 0 <= i < n ==> preference(#[trigger] s1[i], a1) == preference(s2[i], a2),
    ensures
        votes_upto(s1, a1, c, n) == votes_upto(s2, a2, c, n),
        counted_upto(s1, a1, n) == counted_upto(s2, a2, n),
    decreases n,
{
    if n > 0 {
        lemma_counts_agree(s1, a1, s2, a2, c, n - 1);
    }
}

proof fn lemma_two_counts(snap: Seq<Seq<i32>>, active: Seq<i32>, c: i32, d: i32, n: int)
    ensures
        votes_upto(snap, active, c, n) <= counted_upto(snap, active, n),
        c != d ==> votes_upto(snap, active, c, n) + votes_upto(snap, active, d, n) <= counted_upto(
            snap,
            active,
            n,
        ),
    decreases n,
{
    if n > 0 {
        lemma_two_counts(snap, active, c, d, n - 1);
    }
}

proof fn lemma_vote_witness(snap: Seq<Seq<i32>>, active: Seq<i32>, c: i32, n: int)
    requires
        votes_upto(snap, active, c, n) > 0,
    ensures
        exists|i: int| 0 <= i < n && preference(#[trigger] snap[i], active) == Some(c),
    decreases n,
{
    if n > 0 {
        if preference(snap[n - 1], active) != Some(c) {
            lemma_vote_witness(snap, active, c, n - 1);
        }
    }
}

proof fn lemma_majority_scan(snap: Seq<Seq<i32>>, active: Seq<i32>, k: int, j: int)
    requires
        0 <= k <= j < active.len(),
        has_majority(snap, active, active[j]),
    ensures
        majority_from(snap, active, k) matches Some(d) ==> has_majority(snap, active, d),
        majority_from(snap, active, k) is Some,
    decreases j - k,
{
    if k < j {
        lemma_majority_scan(snap, active, k + 1, j);
    }
}

proof fn lemma_keep_contains(xs: Seq<i32>, f: spec_fn(i32) -> bool, n: int, x: i32)
    requires
        0 <= n <= xs.len(),
    ensures
        keep_upto(xs, f, n).contains(x) <==> (f(x) && xs.take(n).contains(x)),
    decreases n,
{
    if n > 0 {
        lemma_keep_contains(xs, f, n - 1, x);
        let r = keep_upto(xs, f, n - 1);
        assert(xs.take(n) =~= xs.take(n - 1).push(xs[n - 1]));
        if f(xs[n - 1]) {
            let rp = r.push(xs[n - 1]);
            assert(rp.contains(x) <==> (r.contains(x) || x == xs[n - 1])) by {
                if rp.contains(x) {
                    let i = choose|i: int| 0 <= i < rp.len() && rp[i] == x;
                    if i < r.len() {
                        assert(r[i] == x);
                    }
                }
                if r.contains(x) {
                    let i = choose|i: int| 0 <= i < r.len() && r[i] == x;
                    assert(rp[i] == x);
                }
                if x == xs[n - 1] {
                    assert(rp[r.len() as int] == x);
                }
            }
        }
        assert(xs.take(n).contains(x) <==> (xs.take(n - 1).contains(x) || x == xs[n - 1])) by {
            let t = xs.take(n - 1);
            if xs.take(n).contains(x) {
                let i = choose|i: int| 0 <= i < n && xs.take(n)[i] == x;
                if i < n - 1 {
                    assert(t[i] == x);
                }
            }
            if t.contains(x) {
                let i = choose|i: int| 0 <= i < t.len() && t[i] == x;
                assert(xs.take(n)[i] == x);
            }
            if x == xs[n - 1] {
                assert(xs.take(n)[n - 1] == x);
            }
        }
    }
}

proof fn lemma_min_below(snap: Seq<Seq<i32>>, active: Seq<i32>, n: int, j: int)
    requires
        0 <= j < n <= active.len(),
    ensures
        min_votes_upto(snap, active, n) <= votes(snap, active, active[j]),
    decreases n,
{
    if n > 1 && j < n - 1 {
        lemma_min_below(snap, active, n - 1, j);
    }
}

proof fn lemma_min_attained(snap: Seq<Seq<i32>>, active: Seq<i32>, n: int)
    requires
        1 <= n <= active.len(),
    ensures
        exists|j: int|
            0 <= j < n && #[trigger] votes(snap, active, active[j]) == min_votes_upto(snap, active, n),
    decreases n,
{
    if n > 1 {
        lemma_min_attained(snap, active, n - 1);
        let v = votes(snap, active, active[n - 1]);
        if v < min_votes_upto(snap, active, n - 1) {
            assert(votes(snap, active, active[n - 1]) == min_votes_upto(snap, active, n));
        }
    } else {
        assert(votes(snap, active, active[0]) == min_votes_upto(snap, active, n));
    }
}

proof fn lemma_lowest(xs: Seq<i32>, f: spec_fn(i32) -> bool, n: int, j: int)
    requires
        0 <= j < n <= xs.len(),
        f(xs[j]),
    ensures
        lowest_upto(xs, f, n) matches Some(l) && f(l) && l <= xs[j],
    decreases n,
{
    if j < n - 1 {
        lemma_lowest(xs, f, n - 1, j);
    } else if n > 1 {
        lemma_lowest_found(xs, f, n - 1);
    }
}

proof fn lemma_lowest_found(xs: Seq<i32>, f: spec_fn(i32) -> bool, n: int)
    ensures
        lowest_upto(xs, f, n) matches Some(l) ==> f(l),
    decreases n,
{
    if n > 0 {
        lemma_lowest_found(xs, f, n - 1);
    }
}

proof fn lemma_first_round_agrees(snap: Seq<Seq<i32>>, cands: Seq<i32>)
    ensures
        forall|i: int|
            0 <= i < snap.len() ==> preference(#[trigger] snap[i], cands) == preference(
                snap[i],
                first_round(snap, cands),
            ),
{
    let f = referenced_by(snap);
    let act = first_round(snap, cands);
    assert(cands.take(cands.len() as int) =~= cands);
    assert forall|i: int| 0 <= i < snap.len() implies preference(#[trigger] snap[i], cands)
        == preference(snap[i], act) by {
        assert forall|j: int| 0 <= j < snap[i].len() implies (cands.contains(#[trigger] snap[i][j])
            <==> act.contains(snap[i][j])) by {
            lemma_keep_contains(cands, f, cands.len() as int, snap[i][j]);
            assert(snap[i].contains(snap[i][j]));
        }
        lemma_pref_agree(snap[i], cands, act, 0);
    }
}

/// Each ballot reduced to its current preference over `active`, or to
/// nothing where it has none.
pub open spec fn first_choices(snap: Seq<Seq<i32>>, active: Seq<i32>) -> Seq<Seq<i32>> {
    Seq::new(
        snap.len(),
        |i: int|
            match preference(snap[i], active) {
                Some(x) => seq![x],
                None => Seq::empty(),
            },
    )
}

/// With a first-round majority no lower preference matters: the tally of
/// the ballots cut down to their first-round choices has the same winner.
pub proof fn lemma_majority_ignores_lower_choices(
    snap: Seq<Seq<i32>>,
    cands: Seq<i32>,
    policy: EliminationPolicy,
    c: i32,
)
    requires
        cands.contains(c),
        has_majority(snap, first_round(snap, cands), c),
    ensures
        tally_outcome(snap, cands, policy) == Outcome::Winner(c),
        tally_outcome(first_choices(snap, first_round(snap, cands)), cands, policy)
            == Outcome::Winner(c),
{
    let n = snap.len() as int;
    let act = first_round(snap, cands);
    let s2 = first_choices(snap, act);
    lemma_first_round_agrees(snap, cands);
    lemma_counts_agree(snap, cands, snap, act, c, n);
    lemma_majority_wins(snap, cands, policy, c);
    assert(cands.take(cands.len() as int) =~= cands);
    assert forall|i: int| 0 <= i < n implies preference(#[trigger] s2[i], cands) == preference(
        snap[i],
        cands,
    ) by {
        lemma_pref_found(snap[i], act, 0);
        match preference(snap[i], act) {
            Some(x) => {
                lemma_keep_contains(cands, referenced_by(snap), cands.len() as int, x);
                assert(s2[i] == seq![x]);
                assert(s2[i][0] == x);
            },
            None => {},
        }
    }
    lemma_counts_agree(s2, cands, snap, cands, c, n);
    lemma_majority_wins(s2, cands, policy, c);
}

/// Majority correctness: a candidate whose first-round count meets the
/// remaining-majority threshold wins the election, before any elimination.
pub proof fn lemma_majority_wins(snap: Seq<Seq<i32>>, cands: Seq<i32>, policy: EliminationPolicy, c: i32)
    requires
        cands.contains(c),
        has_majority(snap, cands, c),
    ensures
        tally_outcome(snap, cands, policy) == Outcome::Winner(c),
{
    if cands.len() >= 2 {
        let n = snap.len() as int;
        lemma_two_counts(snap, cands, c, c, n);
        let f = referenced_by(snap);
        let act = keep(cands, f);
        assert(cands.take(cands.len() as int) =~= cands);
        lemma_vote_witness(snap, cands, c, n);
        let i = choose|i: int| 0 <= i < n && preference(#[trigger] snap[i], cands) == Some(c);
        lemma_pref_found(snap[i], cands, 0);
        lemma_keep_contains(cands, f, cands.len() as int, c);
        assert(act.contains(c));
        lemma_first_round_agrees(snap, cands);
        lemma_counts_agree(snap, cands, snap, act, c, n);
        assert(has_majority(snap, act, c));
        let j = choose|j: int| 0 <= j < act.len() && act[j] == c;
        if act.len() >= 2 {
            lemma_majority_scan(snap, act, 0, j);
            let d = majority_winner(snap, act)->0;
            lemma_two_counts(snap, act, c, d, n);
        }
    }
}

/// Exhaustion exclusion: a ballot none of whose entries is active has no
/// current preference, adds nothing to `counted` and nothing to any count.
pub proof fn lemma_exhausted_not_counted(snap: Seq<Seq<i32>>, b: Seq<i32>, active: Seq<i32>)
    requires
        forall|j: int| 0 <= j < b.len() ==> !active.contains(#[trigger] b[j]),
    ensures
        preference(b, active) is None,
        counted(snap.push(b), active) == counted(snap, active),
        forall|c: i32| votes(snap.push(b), active, c) == votes(snap, active, c),
{
    lemma_pref_found(b, active, 0);
    let s2 = snap.push(b);
    let n = snap.len() as int;
    assert(forall|i: int| 0 <= i < n ==> #[trigger] s2[i] == snap[i]);
    lemma_counts_agree(s2, active, snap, active, 0, n);
    assert forall|c: i32| votes(s2, active, c) == votes(snap, active, c) by {
        lemma_counts_agree(s2, active, snap, active, c, n);
    }
}

/// Elimination correctness: the minimum is a lower bound on every active
/// count and is reached; under simultaneous elimination exactly the
/// candidates at the minimum leave, and under lowest-identifier elimination
/// exactly one candidate at the minimum leaves.
pub proof fn lemma_elimination(snap: Seq<Seq<i32>>, active: Seq<i32>, policy: EliminationPolicy)
    requires
        active.len() >= 1,
    ensures
        forall|c: i32| active.contains(c) ==> min_votes(snap, active) <= votes(snap, active, c),
        exists|c: i32| active.contains(c) && votes(snap, active, c) == min_votes(snap, active),
        policy == EliminationPolicy::EliminateAllTied ==> forall|c: i32|
            survivors(snap, active, policy).contains(c) <==> (active.contains(c) && votes(
                snap,
                active,
                c,
            ) != min_votes(snap, active)),
        policy == EliminationPolicy::EliminateLowestId ==> exists|l: i32|
            active.contains(l) && votes(snap, active, l) == min_votes(snap, active) && forall|c: i32|
                survivors(snap, active, policy).contains(c) <==> (active.contains(c) && c != l),
{
    let n = active.len() as int;
    let m = min_votes(snap, active);
    assert(active.take(n) =~= active);
    assert forall|c: i32| active.contains(c) implies m <= votes(snap, active, c) by {
        let j = choose|j: int| 0 <= j < n && active[j] == c;
        lemma_min_below(snap, active, n, j);
    }
    lemma_min_attained(snap, active, n);
    let j = choose|j: int| 0 <= j < n && #[trigger] votes(snap, active, active[j]) == m;
    assert(active.contains(active[j]));
    match policy {
        EliminationPolicy::EliminateAllTied => {
            assert forall|c: i32| survivors(snap, active, policy).contains(c) <==> (active.contains(c)
                && votes(snap, active, c) != m) by {
                lemma_keep_contains(active, above_count(snap, active, m), n, c);
            }
        },
        EliminationPolicy::EliminateLowestId => {
            let g = at_count(snap, active, m);
            lemma_lowest(active, g, n, j);
            let l = lowest_upto(active, g, n)->0;
            lemma_lowest_in(active, g, n);
            assert forall|c: i32| survivors(snap, active, policy).contains(c) <==> (active.contains(c)
                && c != l) by {
                lemma_keep_contains(active, other_than(l), n, c);
            }
        },
    }
}

proof fn lemma_lowest_in(xs: Seq<i32>, f: spec_fn(i32) -> bool, n: int)
    requires
        0 <= n <= xs.len(),
    ensures
        lowest_upto(xs, f, n) matches Some(l) ==> xs.contains(l),
    decreases n,
{
    if n > 0 {
        lemma_lowest_in(xs, f, n - 1);
        assert(xs.contains(xs[n - 1]));
    }
}

/// Elimination never removes a candidate that holds a strict majority.
pub proof fn lemma_majority_survives(snap: Seq<Seq<i32>>, active: Seq<i32>, policy: EliminationPolicy, c: i32)
    requires
        active.no_duplicates(),
        active.len() >= 2,
        active.contains(c),
        has_majority(snap, active, c),
    ensures
        survivors(snap, active, policy).contains(c),
{
    let d = if active[0] != c {
        active[0]
    } else {
        active[1]
    };
    assert(active.contains(d));
    lemma_two_counts(snap, active, c, d, snap.len() as int);
    lemma_elimination(snap, active, policy);
    assert(votes(snap, active, d) < votes(snap, active, c));
}

/// `active` is the active set of a round that the runoff from `start` reaches.
pub open spec fn reaches(snap: Seq<Seq<i32>>, start: Seq<i32>, active: Seq<i32>, policy: EliminationPolicy) -> bool
    decreases start.len(),
{
    start == active || (start.len() >= 2 && majority_winner(snap, start) is None && {
        let next = survivors(snap, start, policy);
        0 < next.len() < start.len() && reaches(snap, next, active, policy)
    })
}

/// The active set of the first round of a tally.
pub open spec fn first_round(snap: Seq<Seq<i32>>, cands: Seq<i32>) -> Seq<i32> {
    keep(cands, referenced_by(snap))
}

/// From a round that it reaches, the runoff ends as it would if it started there.
pub proof fn lemma_reached_round(snap: Seq<Seq<i32>>, start: Seq<i32>, active: Seq<i32>, policy: EliminationPolicy)
    requires
        reaches(snap, start, active, policy),
    ensures
        run_rounds(snap, start, policy) == run_rounds(snap, active, policy),
    decreases start.len(),
{
    if start != active {
        lemma_reached_round(snap, survivors(snap, start, policy), active, policy);
    }
}

proof fn lemma_reached_next(snap: Seq<Seq<i32>>, start: Seq<i32>, active: Seq<i32>, policy: EliminationPolicy)
    requires
        reaches(snap, start, active, policy),
        active.len() >= 2,
        majority_winner(snap, active) is None,
        0 < survivors(snap, active, policy).len() < active.len(),
    ensures
        reaches(snap, start, survivors(snap, active, policy), policy),
    decreases start.len(),
{
    if start != active {
        lemma_reached_next(snap, survivors(snap, start, policy), active, policy);
    } else {
        let next = survivors(snap, active, policy);
        assert(reaches(snap, next, next, policy));
    }
}

/// Remaining majority in any round: when a round that a tally reaches has a
/// candidate whose count meets the threshold of that round's non-exhausted
/// ballots, that candidate wins; so it was never eliminated before.
pub proof fn lemma_majority_in_reached_round(
    snap: Seq<Seq<i32>>,
    cands: Seq<i32>,
    active: Seq<i32>,
    policy: EliminationPolicy,
    c: i32,
)
    requires
        cands.len() >= 2,
        counted(snap, cands) > 0,
        reaches(snap, first_round(snap, cands), active, policy),
        active.contains(c),
        has_majority(snap, active, c),
    ensures
        tally_outcome(snap, cands, policy) == Outcome::Winner(c),
{
    lemma_reached_round(snap, first_round(snap, cands), active, policy);
    let j = choose|j: int| 0 <= j < active.len() && active[j] == c;
    if active.len() >= 2 {
        lemma_majority_scan(snap, active, 0, j);
        let d = majority_winner(snap, active)->0;
        lemma_two_counts(snap, active, c, d, snap.len() as int);
    }
}

/// Elimination in any round: in a round that the runoff reaches with no
/// majority, simultaneous elimination leads on to exactly the active
/// candidates above the minimum count; where it would remove them all, the
/// run ends in a tie over that round's active set.
pub proof fn lemma_elimination_in_reached_round(
    snap: Seq<Seq<i32>>,
    start: Seq<i32>,
    active: Seq<i32>,
)
    requires
        reaches(snap, start, active, EliminationPolicy::EliminateAllTied),
        active.len() >= 2,
        majority_winner(snap, active) is None,
    ensures
        forall|c: i32|
            survivors(snap, active, EliminationPolicy::EliminateAllTied).contains(c) <==> (
            active.contains(c) && votes(snap, active, c) != min_votes(snap, active)),
        0 < survivors(snap, active, EliminationPolicy::EliminateAllTied).len() < active.len()
            ==> reaches(snap, start, survivors(snap, active, EliminationPolicy::EliminateAllTied), EliminationPolicy::EliminateAllTied),
        survivors(snap, active, EliminationPolicy::EliminateAllTied).len() == 0 ==> run_rounds(
            snap,
            start,
            EliminationPolicy::EliminateAllTied,
        ) == Outcome::Tie(active),
{
    let p = EliminationPolicy::EliminateAllTied;
    lemma_elimination(snap, active, p);
    lemma_reached_round(snap, start, active, p);
    if 0 < survivors(snap, active, p).len() < active.len() {
        lemma_reached_next(snap, start, active, p);
    }
}

fn contains_id(xs: &Vec<i32>, x: i32) -> (r: bool)
    ensures
        r == xs@.contains(x),
{
    let mut i: usize = 0;
    while i < xs.len()
        invariant
            i <= xs.len(),
            forall|j: int| 0 <= j < i ==> xs@[j] != x,
        decreases xs.len() - i,
    {
        if xs[i] == x {
            assert(xs@[i as int] == x);
            return true;
        }
        i += 1;
    }
    false
}

fn first_preference(b: &Vec<i32>, active: &Vec<i32>) -> (r: Option<i32>)
    ensures
        r == preference(b@, active@),
{
    let mut i: usize = 0;
    while i < b.len()
        invariant
            i <= b.len(),
            pref_from(b@, active@, 0) == pref_from(b@, active@, i as int),
        decreases b.len() - i,
    {
        if contains_id(active, b[i]) {
            return Some(b[i]);
        }
        i += 1;
    }
    None
}

fn round_preferences(snapshot: &Vec<Vec<i32>>, active: &Vec<i32>) -> (r: Vec<Option<i32>>)
    ensures
        r.len() == snapshot.len(),
        forall|i: int| 0 <= i < r.len() ==> r@[i] == preference(snapshot@[i]@, active@),
{
    let mut r: Vec<Option<i32>> = Vec::new();
    let mut i: usize = 0;
    while i < snapshot.len()
        invariant
            i <= snapshot.len(),
            r.len() == i,
            forall|j: int| 0 <= j < i ==> r@[j] == preference(snapshot@[j]@, active@),
        decreases snapshot.len() - i,
    {
        let p = first_preference(&snapshot[i], active);
        r.push(p);
        i += 1;
    }
    r
}

fn count_for(snapshot: &Vec<Vec<i32>>, active: &Vec<i32>, prefs: &Vec<Option<i32>>, c: i32) -> (r: usize)
    requires
        prefs.len() == snapshot.len(),
        forall|i: int| 0 <= i < prefs.len() ==> prefs@[i] == preference(snapshot@[i]@, active@),
    ensures
        r == votes(snapshot_view(snapshot@), active@, c),
        r <= snapshot.len(),
{
    let ghost snap = snapshot_view(snapshot@);
    let mut r: usize = 0;
    let mut i: usize = 0;
    while i < prefs.len()
        invariant
            i <= prefs.len(),
            prefs.len() == snapshot.len(),
            forall|j: int| 0 <= j < prefs.len() ==> prefs@[j] == preference(snapshot@[j]@, active@),
            snap == snapshot_view(snapshot@),
            r <= i,
            r == votes_upto(snap, active@, c, i as int),
        decreases prefs.len() - i,
    {
        assert(snap[i as int] == snapshot@[i as int]@);
        match prefs[i] {
            Some(p) => {
                if p == c {
                    r += 1;
                }
            },
            None => {},
        }
        i += 1;
    }
    r
}

fn count_live(snapshot: &Vec<Vec<i32>>, active: &Vec<i32>, prefs: &Vec<Option<i32>>) -> (r: usize)
    requires
        prefs.len() == snapshot.len(),
        forall|i: int| 0 <= i < prefs.len() ==> prefs@[i] == preference(snapshot@[i]@, active@),
    ensures
        r == counted(snapshot_view(snapshot@), active@),
        r <= snapshot.len(),
{
    let ghost snap = snapshot_view(snapshot@);
    let mut r: usize = 0;
    let mut i: usize = 0;
    while i < prefs.len()
        invariant
            i <= prefs.len(),
            prefs.len() == snapshot.len(),
            forall|j: int| 0 <= j < prefs.len() ==> prefs@[j] == preference(snapshot@[j]@, active@),
            snap == snapshot_view(snapshot@),
            r <= i,
            r == counted_upto(snap, active@, i as int),
        decreases prefs.len() - i,
    {
        assert(snap[i as int] == snapshot@[i as int]@);
        if prefs[i].is_some() {
            r += 1;
        }
        i += 1;
    }
    r
}

fn round_counts(snapshot: &Vec<Vec<i32>>, active: &Vec<i32>, prefs: &Vec<Option<i32>>) -> (r: Vec<usize>)
    requires
        prefs.len() == snapshot.len(),
        forall|i: int| 0 <= i < prefs.len() ==> prefs@[i] == preference(snapshot@[i]@, active@),
    ensures
        r.len() == active.len(),
        forall|k: int|
            0 <= k < r.len() ==> r@[k] == votes(snapshot_view(snapshot@), active@, active@[k]),
{
    let mut r: Vec<usize> = Vec::new();
    let mut k: usize = 0;
    while k < active.len()
        invariant
            k <= active.len(),
            r.len() == k,
            prefs.len() == snapshot.len(),
            forall|i: int| 0 <= i < prefs.len() ==> prefs@[i] == preference(snapshot@[i]@, active@),
            forall|j: int|
                0 <= j < k ==> r@[j] == votes(snapshot_view(snapshot@), active@, active@[j]),
        decreases active.len() - k,
    {
        let n = count_for(snapshot, active, prefs, active[k]);
        r.push(n);
        k += 1;
    }
    r
}

fn least_count(active: &Vec<i32>, counts: &Vec<usize>, Ghost(snap): Ghost<Seq<Seq<i32>>>) -> (m: usize)
    requires
        active.len() >= 1,
        counts.len() == active.len(),
        forall|k: int| 0 <= k < counts.len() ==> counts@[k] == votes(snap, active@, active@[k]),
    ensures
        m == min_votes(snap, active@),
{
    let mut m = counts[0];
    let mut k: usize = 1;
    while k < counts.len()
        invariant
            1 <= k <= counts.len(),
            counts.len() == active.len(),
            forall|j: int| 0 <= j < counts.len() ==> counts@[j] == votes(snap, active@, active@[j]),
            m == min_votes_upto(snap, active@, k as int),
        decreases counts.len() - k,
    {
        if counts[k] < m {
            m = counts[k];
        }
        k += 1;
    }
    m
}

fn eliminate_last(active: &Vec<i32>, counts: &Vec<usize>, policy: EliminationPolicy, Ghost(snap): Ghost<Seq<Seq<i32>>>) -> (r: Vec<i32>)
    requires
        active.len() >= 1,
        counts.len() == active.len(),
        forall|k: int| 0 <= k < counts.len() ==> counts@[k] == votes(snap, active@, active@[k]),
    ensures
        r@ == survivors(snap, active@, policy),
{
    let m = least_count(active, counts, Ghost(snap));
    let ghost a = active@;
    let mut r: Vec<i32> = Vec::new();
    match policy {
        EliminationPolicy::EliminateAllTied => {
            let ghost f = above_count(snap, a, m as nat);
            let mut k: usize = 0;
            while k < active.len()
                invariant
                    k <= active.len(),
                    a == active@,
                    counts.len() == active.len(),
                    forall|j: int| 0 <= j < counts.len() ==> counts@[j] == votes(snap, a, a[j]),
                    f == above_count(snap, a, m as nat),
                    r@ == keep_upto(a, f, k as int),
                decreases active.len() - k,
            {
                if counts[k] != m {
                    r.push(active[k]);
                }
                k += 1;
            }
        },
        EliminationPolicy::EliminateLowestId => {
            let ghost g = at_count(snap, a, m as nat);
            let mut low: Option<i32> = None;
            let mut k: usize = 0;
            while k < active.len()
                invariant
                    k <= active.len(),
                    a == active@,
                    counts.len() == active.len(),
                    forall|j: int| 0 <= j < counts.len() ==> counts@[j] == votes(snap, a, a[j]),
                    g == at_count(snap, a, m as nat),
                    low == lowest_upto(a, g, k as int),
                decreases active.len() - k,
            {
                if counts[k] == m {
                    match low {
                        Some(l) => {
                            if active[k] < l {
                                low = Some(active[k]);
                            }
                        },
                        None => {
                            low = Some(active[k]);
                        },
                    }
                }
                k += 1;
            }
            match low {
                Some(l) => {
                    let ghost f = other_than(l);
                    let mut k: usize = 0;
                    while k < active.len()
                        invariant
                            k <= active.len(),
                            a == active@,
                            f == other_than(l),
                            r@ == keep_upto(a, f, k as int),
                        decreases active.len() - k,
                    {
                        if active[k] != l {
                            r.push(active[k]);
                        }
                        k += 1;
                    }
                },
                None => {
                    r = active.clone();
                },
            }
        },
    }
    r
}

fn is_referenced(snapshot: &Vec<Vec<i32>>, c: i32) -> (r: bool)
    ensures
        r == referenced_by(snapshot_view(snapshot@))(c),
{
    let ghost snap = snapshot_view(snapshot@);
    let mut i: usize = 0;
    while i < snapshot.len()
        invariant
            i <= snapshot.len(),
            snap == snapshot_view(snapshot@),
            forall|j: int| 0 <= j < i ==> !snap[j].contains(c),
        decreases snapshot.len() - i,
    {
        if contains_id(&snapshot[i], c) {
            assert(snap[i as int].contains(c));
            return true;
        }
        i += 1;
    }
    false
}

fn referenced_candidates(snapshot: &Vec<Vec<i32>>, candidates: &Vec<i32>) -> (r: Vec<i32>)
    ensures
        r@ == keep(candidates@, referenced_by(snapshot_view(snapshot@))),
{
    let ghost f = referenced_by(snapshot_view(snapshot@));
    let mut r: Vec<i32> = Vec::new();
    let mut k: usize = 0;
    while k < candidates.len()
        invariant
            k <= candidates.len(),
            f == referenced_by(snapshot_view(snapshot@)),
            r@ == keep_upto(candidates@, f, k as int),
        decreases candidates.len() - k,
    {
        if is_referenced(snapshot, candidates[k]) {
            r.push(candidates[k]);
        }
        k += 1;
    }
    r
}

fn runoff(snapshot: &Vec<Vec<i32>>, start: Vec<i32>, policy: EliminationPolicy) -> (r: ElectionResult)
    ensures
        r@ == run_rounds(snapshot_view(snapshot@), start@, policy),
{
    let ghost snap = snapshot_view(snapshot@);
    let mut active = start;
    loop
        invariant
            snap == snapshot_view(snapshot@),
            run_rounds(snap, active@, policy) == run_rounds(snap, start@, policy),
        decreases active.len(),
    {
        if active.len() == 0 {
            return ElectionResult::NoCandidates;
        }
        if active.len() == 1 {
            return ElectionResult::Winner(active[0]);
        }
        let prefs = round_preferences(snapshot, &active);
        let counts = round_counts(snapshot, &active, &prefs);
        let live = count_live(snapshot, &active, &prefs);
        let mut k: usize = 0;
        while k < active.len()
            invariant
                k <= active.len(),
                active.len() >= 2,
                snap == snapshot_view(snapshot@),
                run_rounds(snap, active@, policy) == run_rounds(snap, start@, policy),
                counts.len() == active.len(),
                forall|j: int| 0 <= j < counts.len() ==> counts@[j] == votes(snap, active@, active@[j]),
                live == counted(snap, active@),
                majority_from(snap, active@, 0) == majority_from(snap, active@, k as int),
            decreases active.len() - k,
        {
            if counts[k] >= live / 2 + 1 {
                assert(has_majority(snap, active@, active@[k as int]));
                return ElectionResult::Winner(active[k]);
            }
            k += 1;
        }
        let next = eliminate_last(&active, &counts, policy, Ghost(snap));
        if next.len() == 0 || next.len() >= active.len() {
            return ElectionResult::Tie(active);
        }
        active = next;
    }
}

/// Runs an instant-runoff election in remaining-majority mode.
///
/// Each ballot lists candidate identifiers, most preferred first; `candidates`
/// are the eligible ones. Entries that are not candidates are never a
/// preference. The rounds start from the candidates that some ballot ranks.
pub fn tally(snapshot: &Vec<Vec<i32>>, candidates: &Vec<i32>, policy: EliminationPolicy) -> (r: ElectionResult)
    ensures
        r@ == tally_outcome(snapshot_view(snapshot@), candidates@, policy),
{
    if candidates.len() == 0 {
        return ElectionResult::NoCandidates;
    }
    if candidates.len() == 1 {
        return ElectionResult::Winner(candidates[0]);
    }
    let prefs = round_preferences(snapshot, candidates);
    let live = count_live(snapshot, candidates, &prefs);
    if live == 0 {
        return ElectionResult::NoBallots;
    }
    let start = referenced_candidates(snapshot, candidates);
    runoff(snapshot, start, policy)
}

} // verus!
