use vstd::prelude::*;

verus! {

/// One voter's ranked ballot: three pairwise-distinct, non-self choices.
#[derive(Clone, Copy, Debug, PartialEq, Eq, Structural)]
pub struct Ballot {
    pub voter_id: i32,
    pub first_choice_id: i32,
    pub second_choice_id: i32,
    pub third_choice_id: i32,
    pub submitted_at: i64,
}

/// Why a ballot submission or a tabulation request was rejected.
#[derive(Clone, Copy, Debug, PartialEq, Eq, Structural)]
pub enum VoteError {
    /// A ballot arrived while the voting window was shut.
    VotingClosed,
    /// Tabulation was requested while the window still accepts ballots.
    VotingOpen,
    /// A choice names the voter personally.
    SelfVote,
    /// The three choices are not pairwise distinct.
    DuplicateChoice,
    /// The voter or a choice is not an eligible roster member.
    NotFound,
}

/// One tally-and-decide cycle of the runoff loop.
#[derive(Clone, Debug)]
pub struct RcvRound {
    /// 1-based position of this round.
    pub round_number: usize,
    /// (candidate id, vote count) for every candidate active at the start of
    /// the round, sorted by count descending, ties by id ascending.
    pub tallies: Vec<(i32, i32)>,
    /// Candidate ids removed at the end of this round; empty if a winner was
    /// declared instead.
    pub eliminated: Vec<i32>,
    /// The winner declared this round, if any.
    pub winner: Option<i32>,
}

/// A complete tabulation: the declared winner, if any, and every round played.
#[derive(Clone, Debug)]
pub struct RcvResult {
    pub winner_id: Option<i32>,
    pub rounds: Vec<RcvRound>,
}

} // verus!
