use rcv_engine::election::Election;
use rcv_engine::model::VoteError;

#[test]
fn test_init_voting_status() {
    let e = Election::new(vec![]);
    assert!(!e.window.is_open);
    assert!(e.window.opened_at.is_none());
    assert!(e.window.closed_at.is_none());

    // A second initialization behaves the same.
    let e2 = Election::new(vec![]);
    assert!(!e2.window.is_open);
}

#[test]
fn test_voting_is_open() {
    let mut e = Election::new(vec![]);
    assert!(!e.voting_is_open());

    e.open_voting();
    assert!(e.voting_is_open());
}

#[test]
fn test_open_voting() {
    let mut e = Election::new(vec![]);

    e.open_voting();
    assert!(e.window.is_open);
    assert!(e.window.opened_at.is_some());
    assert!(e.window.closed_at.is_none());

    // Re-opening succeeds.
    e.open_voting();
    assert!(e.window.is_open);
}

#[test]
fn test_close_voting_no_votes() {
    let mut e = Election::new(vec![]);
    e.open_voting();

    let result = e.close_voting();
    assert_eq!(result.winner_id, None);
    assert_eq!(result.rounds.len(), 0);

    assert!(!e.window.is_open);
    assert!(e.window.closed_at.is_some());
}

#[test]
fn test_submit_vote_valid() {
    let voter_id = 10;
    let choice_1 = 21;
    let choice_2 = 22;
    let choice_3 = 23;
    let mut e = Election::new(vec![voter_id, choice_1, choice_2, choice_3]);
    e.open_voting();

    e.submit_vote(voter_id, choice_1, choice_2, choice_3)
        .expect("Should not fail");
    let votes = e.get_all_votes();
    assert_eq!(votes.len(), 1);
    let vote = votes[0];
    assert_eq!(vote.voter_id, voter_id);
    assert_eq!(vote.first_choice_id, choice_1);
    assert_eq!(vote.second_choice_id, choice_2);
    assert_eq!(vote.third_choice_id, choice_3);

    // Submitting again from the same voter should overwrite.
    e.submit_vote(voter_id, choice_2, choice_3, choice_1)
        .expect("Should not fail");
    let votes = e.get_all_votes();
    assert_eq!(votes.len(), 1);
    let vote = votes[0];
    assert_eq!(vote.voter_id, voter_id);
    assert_eq!(vote.first_choice_id, choice_2);
    assert_eq!(vote.second_choice_id, choice_3);
    assert_eq!(vote.third_choice_id, choice_1);
}

#[test]
fn test_submit_vote_invalid_self() {
    let voter_id = 10;
    let mut e = Election::new(vec![voter_id, 20, 30]);
    e.open_voting();

    let err = e
        .submit_vote(voter_id, voter_id, 2, 3)
        .expect_err("Should fail self-vote");
    assert_eq!(err, VoteError::SelfVote);
}

#[test]
fn test_submit_vote_invalid_duplicate() {
    let voter_id = 10;
    let choice_2_id = 20;
    let choice_3_id = 30;
    let mut e = Election::new(vec![voter_id, choice_2_id, choice_3_id]);
    e.open_voting();

    let err = e
        .submit_vote(voter_id, choice_2_id, choice_2_id, choice_3_id)
        .expect_err("Should fail duplicate choice");
    assert_eq!(err, VoteError::DuplicateChoice);
}

#[test]
fn test_submit_vote_closed() {
    let mut e = Election::new(vec![1, 2, 3, 4]);

    let err = e
        .submit_vote(1, 2, 3, 4)
        .expect_err("Should fail when voting is closed");
    assert_eq!(err, VoteError::VotingClosed);
}

#[test]
fn test_has_voted() {
    let voter_id = 10;
    let choice_1 = 21;
    let choice_2 = 22;
    let choice_3 = 23;
    let mut e = Election::new(vec![voter_id, choice_1, choice_2, choice_3]);
    e.open_voting();

    assert!(!e.has_voted(voter_id));

    e.submit_vote(voter_id, choice_1, choice_2, choice_3)
        .expect("Should not fail");
    assert!(e.has_voted(voter_id));
}
