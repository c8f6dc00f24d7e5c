use rcv_engine::election::Election;
use rcv_engine::model::Ballot;
use rcv_engine::model::VoteError;
use rcv_engine::tabulator::compute_rcv;

fn ballot(voter_id: i32, first: i32, second: i32, third: i32) -> Ballot {
    Ballot {
        voter_id,
        first_choice_id: first,
        second_choice_id: second,
        third_choice_id: third,
        submitted_at: 0,
    }
}

#[test]
fn test_compute_rcv_no_candidates() {
    let votes = vec![ballot(10, 1, 2, 3)];
    let candidates: Vec<i32> = vec![];

    let result = compute_rcv(&votes, &candidates);
    assert_eq!(result.winner_id, None);
    assert_eq!(result.rounds.len(), 0);
}

#[test]
fn test_compute_rcv_zero_ballots_single_candidate() {
    // With no ballots the majority threshold is zero, so a lone candidate
    // wins outright with zero votes.
    let votes: Vec<Ballot> = vec![];
    let candidates = vec![5];

    let result = compute_rcv(&votes, &candidates);
    assert_eq!(result.winner_id, Some(5));
    assert_eq!(result.rounds.len(), 1);
    assert_eq!(result.rounds[0].tallies, vec![(5, 0)]);
    assert!(result.rounds[0].eliminated.is_empty());
    assert_eq!(result.rounds[0].winner, Some(5));
}

#[test]
fn test_compute_rcv_round_numbers_ascend() {
    // Round numbering: rounds are numbered 1, 2, ... in order, and the
    // active candidate set shrinks in every round without a winner.
    let votes = vec![
        ballot(10, 1, 2, 3),
        ballot(11, 1, 2, 3),
        ballot(12, 1, 2, 3),
        ballot(13, 1, 2, 3),
        ballot(14, 2, 1, 3),
        ballot(15, 2, 1, 3),
        ballot(16, 3, 2, 1),
        ballot(17, 3, 2, 1),
        ballot(18, 4, 2, 3),
    ];
    let candidates = vec![1, 2, 3, 4];

    let result = compute_rcv(&votes, &candidates);
    for (i, round) in result.rounds.iter().enumerate() {
        assert_eq!(round.round_number, i + 1);
    }
    for pair in result.rounds.windows(2) {
        assert!(pair[1].tallies.len() < pair[0].tallies.len());
    }
}

#[test]
fn test_compute_rcv_exhausted_ballots_shrink_pool() {
    // A ballot whose three choices are all eliminated leaves the pool, and
    // the majority threshold for later rounds is computed from the smaller
    // pool: 5 ballots in round 1 (threshold 3), but only 4 in round 2
    // (threshold 2) after the exhausted ballot is dropped; the 2-2 tie still
    // blocks a winner because neither candidate holds a clear lead.
    let votes = vec![
        ballot(10, 1, 2, 9),
        ballot(11, 1, 2, 9),
        ballot(12, 2, 1, 9),
        ballot(13, 2, 1, 9),
        ballot(14, 3, 9, 9),
    ];
    let candidates = vec![1, 2, 3];

    let result = compute_rcv(&votes, &candidates);
    // Round 1: 1 > 2, 2 > 2, 3 > 1: no clear top; 3 eliminated, its ballot
    // (naming only 3 and the unknown 9) is exhausted and dropped.
    assert_eq!(result.rounds[0].tallies, vec![(1, 2), (2, 2), (3, 1)]);
    assert_eq!(result.rounds[0].eliminated, vec![3]);
    // Round 2: still 2 vs 2 out of 4 remaining ballots: a tie again, both
    // eliminated, no winner.
    assert_eq!(result.rounds[1].tallies, vec![(1, 2), (2, 2)]);
    assert_eq!(result.rounds[1].eliminated, vec![1, 2]);
    assert_eq!(result.winner_id, None);
    assert_eq!(result.rounds.len(), 2);
}

#[test]
fn test_revote_leaves_single_ballot() {
    // Re-vote overwrite: two submissions from one voter leave exactly one
    // ballot, carrying the second submission's choices.
    let mut e = Election::new(vec![1, 2, 3, 4]);
    e.open_voting();

    e.submit_vote(1, 2, 3, 4).expect("first ballot accepted");
    e.submit_vote(1, 4, 2, 3).expect("replacement accepted");

    let votes = e.get_all_votes();
    assert_eq!(votes.len(), 1);
    assert_eq!(votes[0].voter_id, 1);
    assert_eq!(votes[0].first_choice_id, 4);
    assert_eq!(votes[0].second_choice_id, 2);
    assert_eq!(votes[0].third_choice_id, 3);

    let stored = e.get_user_vote(1).expect("ballot present");
    assert_eq!(stored.first_choice_id, 4);
}

#[test]
fn test_submit_vote_unknown_voter() {
    let mut e = Election::new(vec![2, 3, 4]);
    e.open_voting();

    let err = e.submit_vote(1, 2, 3, 4).expect_err("voter not on roster");
    assert_eq!(err, VoteError::NotFound);
}

#[test]
fn test_submit_vote_unknown_choice() {
    let mut e = Election::new(vec![1, 2, 3]);
    e.open_voting();

    let err = e.submit_vote(1, 2, 3, 4).expect_err("choice not on roster");
    assert_eq!(err, VoteError::NotFound);
}

#[test]
fn test_submit_vote_closed_takes_precedence() {
    // While the window is shut every submission fails with VotingClosed,
    // even one that would also be a self-vote or a duplicate.
    let mut e = Election::new(vec![1, 2, 3]);

    let err = e.submit_vote(1, 1, 2, 2).expect_err("window closed");
    assert_eq!(err, VoteError::VotingClosed);
}

#[test]
fn test_get_rcv_result_requires_closed_window() {
    let mut e = Election::new(vec![1, 2, 3, 4]);
    e.open_voting();
    e.submit_vote(1, 2, 3, 4).expect("accepted");

    let err = e.get_rcv_result().expect_err("window still open");
    assert_eq!(err, VoteError::VotingOpen);

    e.close_voting();
    let result = e.get_rcv_result().expect("window closed");
    assert_eq!(result.winner_id, Some(2));
}

#[test]
fn test_get_voting_stats_counts() {
    let mut e = Election::new(vec![1, 2, 3, 4, 5]);
    e.open_voting();
    e.submit_vote(1, 2, 3, 4).expect("accepted");
    e.submit_vote(2, 1, 3, 4).expect("accepted");

    let (ballots_cast, roster_count) = e.get_voting_stats();
    assert_eq!(ballots_cast, 2);
    assert_eq!(roster_count, 5);
}

#[test]
fn test_reset_votes_clears_store() {
    let mut e = Election::new(vec![1, 2, 3, 4]);
    e.open_voting();
    e.submit_vote(1, 2, 3, 4).expect("accepted");
    assert!(e.has_voted(1));

    e.reset_votes();
    assert!(!e.has_voted(1));
    assert_eq!(e.get_all_votes().len(), 0);
    assert!(e.window.is_open);
}

#[test]
fn test_get_user_vote_absent() {
    let e = Election::new(vec![1, 2, 3]);
    assert!(e.get_user_vote(1).is_none());
}

#[test]
fn test_close_voting_tabulates_snapshot() {
    // Closing the window both shuts intake and returns the tabulation of
    // exactly the ballots present at that instant.
    let mut e = Election::new(vec![1, 2, 3]);
    e.open_voting();
    e.submit_vote(1, 2, 3, 1).expect_err("self-vote rejected");
    e.submit_vote(1, 2, 3, 4).expect_err("unknown choice rejected");
    e.submit_vote(1, 2, 3, 3).expect_err("duplicate rejected");
    e.submit_vote(1, 2, 3, 5).expect_err("unknown choice rejected");
    e.submit_vote(1, 2, 1, 3).expect_err("self-vote rejected");
    e.submit_vote(1, 2, 3, 4).expect_err("unknown choice rejected");

    // Only well-formed ballots survive to tabulation.
    e.submit_vote(2, 1, 3, 1).expect_err("duplicate after self check");
    let err = e.submit_vote(2, 2, 1, 3).expect_err("self-vote");
    assert_eq!(err, VoteError::SelfVote);

    let result = e.close_voting();
    assert_eq!(result.winner_id, None);
    assert_eq!(result.rounds.len(), 1);
    assert_eq!(result.rounds[0].tallies, vec![(1, 0), (2, 0), (3, 0)]);
    let err = e.submit_vote(1, 2, 3, 5).expect_err("window closed again");
    assert_eq!(err, VoteError::VotingClosed);
}
