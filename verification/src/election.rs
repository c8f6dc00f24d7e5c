use vstd::prelude::*;

use crate::clock;
use crate::model::Ballot;
use crate::model::RcvResult;
use crate::model::VoteError;
use crate::tabulator;
use crate::window::VotingWindow;

verus! {

/// Whether some ballot of `bs` belongs to voter `v`.
pub open spec fn has_ballot(bs: Seq<Ballot>, v: i32) -> bool {
    exists|i: int| 0 <= i < bs.len() && (#[trigger] bs[i]).voter_id == v
}

/// The ballots of `bs` that do not belong to voter `v`, in their original
/// order.
pub open spec fn ballots_without_voter(bs: Seq<Ballot>, v: i32) -> Seq<Ballot>
    decreases bs.len(),
{
    if bs.len() == 0 {
        Seq::empty()
    } else {
        let rest = ballots_without_voter(bs.drop_last(), v);
        if bs.last().voter_id == v {
            rest
        } else {
            rest.push(bs.last())
        }
    }
}

/// The ballots of `bs` that belong to voter `v`, in their original order.
pub open spec fn ballots_of_voter(bs: Seq<Ballot>, v: i32) -> Seq<Ballot>
    decreases bs.len(),
{
    if bs.len() == 0 {
        Seq::empty()
    } else {
        let rest = ballots_of_voter(bs.drop_last(), v);
        if bs.last().voter_id == v {
            rest.push(bs.last())
        } else {
            rest
        }
    }
}

/// No two ballots of `bs` belong to the same voter.
pub open spec fn one_ballot_per_voter(bs: Seq<Ballot>) -> bool {
    forall|i: int, j: int|
        0 <= i < j < bs.len() ==> (#[trigger] bs[i]).voter_id != (#[trigger] bs[j]).voter_id
}

proof fn lemma_without_voter_snoc(bs: Seq<Ballot>, b: Ballot, v: i32)
    ensures
        ballots_without_voter(bs.push(b), v) == if b.voter_id == v {
            ballots_without_voter(bs, v)
        } else {
            ballots_without_voter(bs, v).push(b)
        },
{
    assert(bs.push(b).drop_last() =~= bs);
    assert(bs.push(b).last() == b);
}

proof fn lemma_of_voter_snoc(bs: Seq<Ballot>, b: Ballot, v: i32)
    ensures
        ballots_of_voter(bs.push(b), v) == if b.voter_id == v {
            ballots_of_voter(bs, v).push(b)
        } else {
            ballots_of_voter(bs, v)
        },
{
    assert(bs.push(b).drop_last() =~= bs);
    assert(bs.push(b).last() == b);
}

/// Discarding a voter's ballots keeps everything else: the survivors carry
/// other voters' ids, they all come from `bs`, and one-ballot-per-voter is
/// preserved.
proof fn lemma_without_voter_props(bs: Seq<Ballot>, v: i32)
    ensures
        forall|k: int|
            0 <= k < ballots_without_voter(bs, v).len() ==> (#[trigger] ballots_without_voter(
                bs,
                v,
            )[k]).voter_id != v,
        forall|x: Ballot| #[trigger] ballots_without_voter(bs, v).contains(x) ==> bs.contains(x),
        one_ballot_per_voter(bs) ==> one_ballot_per_voter(ballots_without_voter(bs, v)),
        ballots_without_voter(bs, v).len() <= bs.len(),
    decreases bs.len(),
{
    if bs.len() > 0 {
        let prior = bs.drop_last();
        let rest = ballots_without_voter(prior, v);
        let res = ballots_without_voter(bs, v);
        lemma_without_voter_props(prior, v);
        assert forall|x: Ballot| #[trigger] res.contains(x) implies bs.contains(x) by {
            let i = choose|i: int| 0 <= i < res.len() && res[i] == x;
            if i < rest.len() {
                assert(rest[i] == x);
                assert(rest.contains(x));
                let k = choose|k: int| 0 <= k < prior.len() && prior[k] == x;
                assert(bs[k] == x);
            } else {
                assert(x == bs.last());
                assert(bs[bs.len() - 1] == x);
            }
        }
        if one_ballot_per_voter(bs) {
            assert forall|i: int, j: int| 0 <= i < j < res.len() implies (#[trigger] res[i]).voter_id
                != (#[trigger] res[j]).voter_id by {
                if bs.last().voter_id != v && j == res.len() - 1 {
                    // The appended last ballot's voter cannot recur in `rest`.
                    assert(rest[i] == res[i]);
                    assert(rest.contains(res[i]));
                    let k = choose|k: int| 0 <= k < prior.len() && prior[k] == res[i];
                    assert(bs[k] == res[i]);
                    assert(bs[k].voter_id != bs[bs.len() - 1].voter_id);
                }
            }
        }
    }
}

/// Discarding a voter's ballots from a store that holds none of them changes
/// nothing.
proof fn lemma_without_voter_noop(bs: Seq<Ballot>, v: i32)
    requires
        forall|k: int| 0 <= k < bs.len() ==> (#[trigger] bs[k]).voter_id != v,
    ensures
        ballots_without_voter(bs, v) == bs,
    decreases bs.len(),
{
    if bs.len() > 0 {
        lemma_without_voter_noop(bs.drop_last(), v);
        assert(ballots_without_voter(bs, v) =~= bs);
    }
}

/// Selecting a voter's ballots from a store that holds none of them yields
/// nothing.
proof fn lemma_of_voter_empty(bs: Seq<Ballot>, v: i32)
    requires
        forall|k: int| 0 <= k < bs.len() ==> (#[trigger] bs[k]).voter_id != v,
    ensures
        ballots_of_voter(bs, v).len() == 0,
    decreases bs.len(),
{
    if bs.len() > 0 {
        lemma_of_voter_empty(bs.drop_last(), v);
    }
}

/// Resubmission replaces: when a voter's ballot is replaced by `b1` and then
/// by `b2`, the store is exactly as if only `b2` had been submitted, and the
/// voter's ballots in it are exactly `b2`.
pub proof fn lemma_resubmission_replaces(bs: Seq<Ballot>, b1: Ballot, b2: Ballot)
    requires
        b1.voter_id == b2.voter_id,
    ensures
        ballots_without_voter(ballots_without_voter(bs, b1.voter_id).push(b1), b2.voter_id).push(
            b2,
        ) == ballots_without_voter(bs, b2.voter_id).push(b2),
        ballots_of_voter(ballots_without_voter(bs, b2.voter_id).push(b2), b2.voter_id) == seq![b2],
{
    let v = b2.voter_id;
    lemma_without_voter_props(bs, v);
    lemma_without_voter_snoc(ballots_without_voter(bs, v), b1, v);
    lemma_without_voter_noop(ballots_without_voter(bs, v), v);
    lemma_of_voter_snoc(ballots_without_voter(bs, v), b2, v);
    lemma_of_voter_empty(ballots_without_voter(bs, v), v);
    assert(ballots_of_voter(ballots_without_voter(bs, v).push(b2), v) =~= seq![b2]);
}

/// The election coordinator: the voting window, the roster of currently
/// eligible participant ids, and the ballot store, holding at most one
/// ballot per voter.
pub struct Election {
    pub window: VotingWindow,
    pub roster: Vec<i32>,
    pub ballots: Vec<Ballot>,
}

impl Election {
    /// Well-formedness: roster ids are unique and no voter holds two ballots.
    pub open spec fn wf(self) -> bool {
        &&& self.roster@.no_duplicates()
        &&& one_ballot_per_voter(self.ballots@)
    }

    /// The exact rejection, if any, that a submission receives, checked in
    /// order: shut window, ineligible voter, self-vote, repeated choice,
    /// ineligible choice.
    pub open spec fn submit_rejection(
        self,
        voter_id: i32,
        first: i32,
        second: i32,
        third: i32,
    ) -> Option<VoteError> {
        if !self.window.is_open {
            Some(VoteError::VotingClosed)
        } else if !self.roster@.contains(voter_id) {
            Some(VoteError::NotFound)
        } else if first == voter_id || second == voter_id || third == voter_id {
            Some(VoteError::SelfVote)
        } else if first == second || first == third || second == third {
            Some(VoteError::DuplicateChoice)
        } else if !self.roster@.contains(first) || !self.roster@.contains(second)
            || !self.roster@.contains(third) {
            Some(VoteError::NotFound)
        } else {
            None
        }
    }

    /// Creates an election over the given roster of eligible participant
    /// ids: the window starts closed and no ballots are stored.
    pub fn new(roster: Vec<i32>) -> (e: Election)
        requires
            roster@.no_duplicates(),
        ensures
            e.wf(),
            e.roster@ == roster@,
            e.ballots@.len() == 0,
            !e.window.is_open,
            e.window.opened_at is None,
            e.window.closed_at is None,
    {
        Election { window: VotingWindow::new(), roster, ballots: Vec::new() }
    }

    /// True iff voting is currently open.
    pub fn voting_is_open(&self) -> (r: bool)
        ensures
            r == self.window.is_open,
    {
        self.window.is_open
    }

    /// Opens the voting window, enabling ballot intake; always succeeds and
    /// is idempotent.
    pub fn open_voting(&mut self)
        requires
            old(self).wf(),
        ensures
            final(self).wf(),
            final(self).window.is_open,
            final(self).window.opened_at is Some,
            final(self).window.closed_at is None,
            final(self).roster@ == old(self).roster@,
            final(self).ballots@ == old(self).ballots@,
    {
        let now = clock::now_timestamp();
        self.window.open(now);
    }

    /// Closes the voting window and tabulates the ballots present at that
    /// instant; always succeeds and is idempotent.
    pub fn close_voting(&mut self) -> (r: RcvResult)
        requires
            old(self).wf(),
            old(self).ballots@.len() <= 0x7fff_ffff,
        ensures
            final(self).wf(),
            !final(self).window.is_open,
            final(self).window.closed_at is Some,
            final(self).window.opened_at == old(self).window.opened_at,
            final(self).roster@ == old(self).roster@,
            final(self).ballots@ == old(self).ballots@,
            tabulator::rcv_ok(final(self).ballots@, final(self).roster@, r),
    {
        let now = clock::now_timestamp();
        self.window.close(now);
        tabulator::compute_rcv(&self.ballots, &self.roster)
    }

    /// Validates and stores a ballot: on success the voter's prior ballot,
    /// if any, is atomically replaced; on rejection nothing changes, and the
    /// error is exactly what `submit_rejection` names for these inputs.
    pub fn submit_vote(&mut self, voter_id: i32, first: i32, second: i32, third: i32) -> (r:
        Result<(), VoteError>)
        requires
            old(self).wf(),
        ensures
            final(self).wf(),
            final(self).window == old(self).window,
            final(self).roster@ == old(self).roster@,
            match r {
                Ok(_) => {
                    &&& old(self).submit_rejection(voter_id, first, second, third) is None
                    &&& exists|stamp: i64|
                        final(self).ballots@ == ballots_without_voter(
                            old(self).ballots@,
                            voter_id,
                        ).push(
                            (Ballot {
                                voter_id,
                                first_choice_id: first,
                                second_choice_id: second,
                                third_choice_id: third,
                                submitted_at: stamp,
                            }),
                        )
                },
                Err(e) => {
                    &&& old(self).submit_rejection(voter_id, first, second, third) == Some(e)
                    &&& *final(self) == *old(self)
                },
            },
    {
        if !self.window.is_open {
            return Err(VoteError::VotingClosed);
        }
        if !tabulator::vec_contains(&self.roster, voter_id) {
            return Err(VoteError::NotFound);
        }
        if first == voter_id || second == voter_id || third == voter_id {
            return Err(VoteError::SelfVote);
        }
        if first == second || first == third || second == third {
            return Err(VoteError::DuplicateChoice);
        }
        if !tabulator::vec_contains(&self.roster, first) || !tabulator::vec_contains(
            &self.roster,
            second,
        ) || !tabulator::vec_contains(&self.roster, third) {
            return Err(VoteError::NotFound);
        }
        let stamp = clock::now_timestamp();
        let b = Ballot {
            voter_id,
            first_choice_id: first,
            second_choice_id: second,
            third_choice_id: third,
            submitted_at: stamp,
        };
        let ghost bs = self.ballots@;
        let mut kept: Vec<Ballot> = Vec::new();
        let mut i: usize = 0;
        while i < self.ballots.len()
            invariant
                0 <= i <= self.ballots@.len(),
                self.ballots@ == bs,
                kept@ == ballots_without_voter(bs.subrange(0, i as int), voter_id),
            decreases self.ballots@.len() - i,
        {
            proof {
                assert(bs.subrange(0, i + 1) =~= bs.subrange(0, i as int).push(bs[i as int]));
                lemma_without_voter_snoc(bs.subrange(0, i as int), bs[i as int], voter_id);
            }
            if self.ballots[i].voter_id != voter_id {
                kept.push(self.ballots[i]);
            }
            i = i + 1;
        }
        proof {
            assert(bs.subrange(0, bs.len() as int) =~= bs);
        }
        kept.push(b);
        self.ballots = kept;
        proof {
            lemma_without_voter_props(bs, voter_id);
            assert(self.ballots@ == ballots_without_voter(bs, voter_id).push(b));
            assert(one_ballot_per_voter(self.ballots@)) by {
                let res = self.ballots@;
                let rest = ballots_without_voter(bs, voter_id);
                assert forall|p: int, q: int| 0 <= p < q < res.len() implies (
                #[trigger] res[p]).voter_id != (#[trigger] res[q]).voter_id by {
                    if q == res.len() - 1 {
                        assert(res[p] == rest[p]);
                        assert(rest[p].voter_id != voter_id);
                    }
                }
            }
        }
        Ok(())
    }

    /// True iff a ballot currently exists for `voter_id`.
    pub fn has_voted(&self, voter_id: i32) -> (r: bool)
        ensures
            r == has_ballot(self.ballots@, voter_id),
    {
        let mut i: usize = 0;
        while i < self.ballots.len()
            invariant
                0 <= i <= self.ballots@.len(),
                forall|k: int| 0 <= k < i ==> (#[trigger] self.ballots@[k]).voter_id != voter_id,
            decreases self.ballots@.len() - i,
        {
            if self.ballots[i].voter_id == voter_id {
                return true;
            }
            i = i + 1;
        }
        false
    }

    /// The ballot currently stored for `user_id`, if any.
    pub fn get_user_vote(&self, user_id: i32) -> (r: Option<Ballot>)
        requires
            self.wf(),
        ensures
            match r {
                Some(b) => self.ballots@.contains(b) && b.voter_id == user_id,
                None => !has_ballot(self.ballots@, user_id),
            },
    {
        let mut i: usize = 0;
        while i < self.ballots.len()
            invariant
                0 <= i <= self.ballots@.len(),
                forall|k: int| 0 <= k < i ==> (#[trigger] self.ballots@[k]).voter_id != user_id,
            decreases self.ballots@.len() - i,
        {
            if self.ballots[i].voter_id == user_id {
                return Some(self.ballots[i]);
            }
            i = i + 1;
        }
        None
    }

    /// A copy of every stored ballot, in submission-store order.
    pub fn get_all_votes(&self) -> (r: Vec<Ballot>)
        ensures
            r@ == self.ballots@,
    {
        tabulator::copy_ballots(&self.ballots)
    }

    /// Clears the ballot store; the window and roster are untouched.
    pub fn reset_votes(&mut self)
        requires
            old(self).wf(),
        ensures
            final(self).wf(),
            final(self).ballots@.len() == 0,
            final(self).roster@ == old(self).roster@,
            final(self).window == old(self).window,
    {
        self.ballots = Vec::new();
    }

    /// Returns the pair (ballots cast, active roster count).
    pub fn get_voting_stats(&self) -> (r: (usize, usize))
        ensures
            r.0 == self.ballots@.len(),
            r.1 == self.roster@.len(),
    {
        (self.ballots.len(), self.roster.len())
    }

    /// Tabulates the stored ballots over the current roster, rejecting the
    /// request while the window is still open.
    pub fn get_rcv_result(&self) -> (r: Result<RcvResult, VoteError>)
        requires
            self.wf(),
            self.ballots@.len() <= 0x7fff_ffff,
        ensures
            match r {
                Ok(res) => !self.window.is_open && tabulator::rcv_ok(
                    self.ballots@,
                    self.roster@,
                    res,
                ),
                Err(e) => self.window.is_open && e == VoteError::VotingOpen,
            },
    {
        if self.window.is_open {
            return Err(VoteError::VotingOpen);
        }
        Ok(tabulator::compute_rcv(&self.ballots, &self.roster))
    }
}

/// A submission while the window is shut is always rejected as
/// `VotingClosed`, whatever else the ballot looks like.
pub proof fn lemma_closed_always_rejected(
    e: Election,
    voter_id: i32,
    first: i32,
    second: i32,
    third: i32,
)
    requires
        !e.window.is_open,
    ensures
        e.submit_rejection(voter_id, first, second, third) == Some(VoteError::VotingClosed),
{
}

/// While the window is open, an eligible voter naming themselves among the
/// choices is always rejected as `SelfVote`.
pub proof fn lemma_self_vote_rejected(
    e: Election,
    voter_id: i32,
    first: i32,
    second: i32,
    third: i32,
)
    requires
        e.window.is_open,
        e.roster@.contains(voter_id),
        first == voter_id || second == voter_id || third == voter_id,
    ensures
        e.submit_rejection(voter_id, first, second, third) == Some(VoteError::SelfVote),
{
}

/// While the window is open, an eligible voter repeating a choice is always
/// rejected as `DuplicateChoice`, provided no choice names the voter.
pub proof fn lemma_duplicate_rejected(
    e: Election,
    voter_id: i32,
    first: i32,
    second: i32,
    third: i32,
)
    requires
        e.window.is_open,
        e.roster@.contains(voter_id),
        first != voter_id && second != voter_id && third != voter_id,
        first == second || first == third || second == third,
    ensures
        e.submit_rejection(voter_id, first, second, third) == Some(VoteError::DuplicateChoice),
{
}

} // verus!
