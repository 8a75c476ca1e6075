//! The record shapes of the persistence layer: one row per voter's
//! participation in a poll, and one row per ranking position of a vote.
//!
//! The counting engine never reads storage itself; it is handed plain
//! `(ballot id, value)` pairs extracted from `VoteRanking` rows.

use vstd::prelude::*;

verus! {

/// A voter's participation in one poll.
pub struct PollVoter {
    pub id: i32,
    pub poll: i32,
    pub user: i32,
    pub voted: bool,
}

/// One ranking position of one voter's ballot: either a candidate
/// option or a special value, at the given rank.
pub struct VoteRanking {
    pub id: i32,
    pub poll_voter: i32,
    pub option: Option<i32>,
    pub special_value: Option<i32>,
    pub ranking: i32,
}

} // verus!
