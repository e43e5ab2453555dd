//! Ranked-choice ballots: storage of one ordered ballot per voter and an
//! instant-runoff tally with a remaining-majority threshold.

pub mod election;
pub mod ballot;
pub mod model;
