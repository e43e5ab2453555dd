//! The records that surround the election: voters and candidate items.
use vstd::prelude::*;

verus! {

/// A registered voter.
#[derive(Clone, Debug, PartialEq, Eq)]
pub struct User {
    pub id: i32,
    pub username: String,
}

/// A name under which a voter signs in.
#[derive(Clone, Debug, PartialEq, Eq)]
pub struct NewUser {
    pub username: String,
}

/// A candidate; `done` marks one that is withdrawn from voting.
#[derive(Clone, Debug, PartialEq, Eq)]
pub struct Item {
    pub id: i32,
    pub title: String,
    pub body: String,
    pub done: bool,
}

/// Each item paired with whether the voter's ballot ranks it.
pub open spec fn ranked_marks(rows: Seq<(Item, Option<i32>)>) -> Seq<(Item, bool)> {
    Seq::new(rows.len(), |i: int| (rows[i].0, rows[i].1 is Some))
}

impl Item {
    /// Given the eligible items, each with the ordinal the voter gave it (if
    /// any), in display order, marks the ones the voter ranked.
    pub fn for_user(rows: Vec<(Item, Option<i32>)>) -> (r: Vec<(Item, bool)>)
        ensures
            r@ == ranked_marks(rows@),
    {
        let ghost orig = rows@;
        let mut rows = rows;
        let mut out: Vec<(Item, bool)> = Vec::new();
        while rows.len() > 0
            invariant
                out.len() + rows.len() == orig.len(),
                rows@ == orig.subrange(out.len() as int, orig.len() as int),
                forall|j: int| 0 <= j < out.len() ==> out@[j] == (orig[j].0, orig[j].1 is Some),
            decreases rows.len(),
        {
            let (item, ordinal) = rows.remove(0);
            out.push((item, ordinal.is_some()));
        }
        assert(out@ =~= ranked_marks(orig));
        out
    }
}

} // verus!
