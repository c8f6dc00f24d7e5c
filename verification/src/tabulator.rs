use vstd::prelude::*;

use crate::model::Ballot;
use crate::model::RcvResult;
use crate::model::RcvRound;

verus! {

// ---------------------------------------------------------------------------
// The mathematical model of one round of instant-runoff tabulation.
// ---------------------------------------------------------------------------

/// The highest-ranked choice of `b`, in the fixed order first -> second ->
/// third, that is still an active candidate; `None` if the ballot is
/// exhausted for this round.
pub open spec fn top_choice(b: Ballot, active: Seq<i32>) -> Option<i32> {
    if active.contains(b.first_choice_id) {
        Some(b.first_choice_id)
    } else if active.contains(b.second_choice_id) {
        Some(b.second_choice_id)
    } else if active.contains(b.third_choice_id) {
        Some(b.third_choice_id)
    } else {
        None
    }
}

/// How many ballots of `pool` currently count for candidate `c`.
pub open spec fn tally(pool: Seq<Ballot>, active: Seq<i32>, c: i32) -> int
    decreases pool.len(),
{
    if pool.len() == 0 {
        0
    } else {
        tally(pool.drop_last(), active, c) + if top_choice(pool.last(), active) == Some(c) {
            1int
        } else {
            0int
        }
    }
}

/// The ballots of `pool` that still rank at least one active candidate, in
/// their original order.
pub open spec fn surviving_ballots(pool: Seq<Ballot>, active: Seq<i32>) -> Seq<Ballot>
    decreases pool.len(),
{
    if pool.len() == 0 {
        Seq::empty()
    } else {
        let rest = surviving_ballots(pool.drop_last(), active);
        if top_choice(pool.last(), active) is Some {
            rest.push(pool.last())
        } else {
            rest
        }
    }
}

/// The candidates of `active` that are not in `eliminated`, in their
/// original order.
pub open spec fn remaining_candidates(active: Seq<i32>, eliminated: Seq<i32>) -> Seq<i32>
    decreases active.len(),
{
    if active.len() == 0 {
        Seq::empty()
    } else {
        let rest = remaining_candidates(active.drop_last(), eliminated);
        if eliminated.contains(active.last()) {
            rest
        } else {
            rest.push(active.last())
        }
    }
}

/// The candidate ids of the entries of `t` whose count equals `m`, in the
/// order they stand in `t`.
pub open spec fn min_tally_ids(t: Seq<(i32, i32)>, m: i32) -> Seq<i32>
    decreases t.len(),
{
    if t.len() == 0 {
        Seq::empty()
    } else {
        let rest = min_tally_ids(t.drop_last(), m);
        if t.last().1 == m {
            rest.push(t.last().0)
        } else {
            rest
        }
    }
}

/// Display order of tally entries: count descending, ties by id ascending.
pub open spec fn tally_precedes(a: (i32, i32), b: (i32, i32)) -> bool {
    a.1 > b.1 || (a.1 == b.1 && a.0 < b.0)
}

/// Some entry of `t` carries candidate id `c`.
pub open spec fn has_entry_for(t: Seq<(i32, i32)>, c: i32) -> bool {
    exists|k: int| 0 <= k < t.len() && (#[trigger] t[k]).0 == c
}

/// `c` stands among the first `j` entries of `active`.
pub open spec fn id_among(active: Seq<i32>, j: int, c: i32) -> bool {
    exists|l: int| 0 <= l < j && #[trigger] active[l] == c
}

/// `t` is the round snapshot for `pool` and `active`: one entry per active
/// candidate carrying its exact tally, sorted by count descending with ties
/// broken by candidate id ascending.
pub open spec fn tallies_ok(t: Seq<(i32, i32)>, pool: Seq<Ballot>, active: Seq<i32>) -> bool {
    &&& t.len() == active.len()
    &&& forall|k: int| 0 <= k < t.len() ==> active.contains((#[trigger] t[k]).0)
    &&& forall|k: int| 0 <= k < t.len() ==> (#[trigger] t[k]).1 as int == tally(
        pool,
        active,
        t[k].0,
    )
    &&& forall|l: int| 0 <= l < active.len() ==> has_entry_for(t, #[trigger] active[l])
    &&& forall|k1: int, k2: int|
        0 <= k1 < k2 < t.len() ==> (#[trigger] t[k1]).0 != (#[trigger] t[k2]).0
    &&& forall|k1: int, k2: int|
        0 <= k1 < k2 < t.len() ==> tally_precedes(#[trigger] t[k1], #[trigger] t[k2])
}

/// The minimum count needed to win outright against a ballot pool of
/// `pool_len` ballots.
pub open spec fn majority_threshold(pool_len: int) -> int {
    if pool_len > 0 {
        (pool_len + 1) / 2
    } else {
        0
    }
}

/// Whether the snapshot `t` declares a winner: the top candidate reaches the
/// majority threshold and holds a clear lead over the runner-up.
pub open spec fn round_won(t: Seq<(i32, i32)>, pool_len: int) -> bool {
    &&& t.len() > 0
    &&& t[0].1 as int >= majority_threshold(pool_len)
    &&& (t.len() < 2 || t[1].1 < t[0].1)
}

/// `r` is exactly the round the algorithm plays against `pool` and `active`,
/// numbered `number`: correct snapshot, then either a declared winner (the
/// sorted snapshot's head) or the simultaneous elimination of every candidate
/// tied at the minimum count.
pub open spec fn round_ok(r: RcvRound, pool: Seq<Ballot>, active: Seq<i32>, number: int) -> bool {
    let t = r.tallies@;
    &&& r.round_number as int == number
    &&& tallies_ok(t, pool, active)
    &&& if round_won(t, pool.len() as int) {
        &&& r.winner == Some(t[0].0)
        &&& r.eliminated@.len() == 0
    } else {
        &&& r.winner is None
        &&& r.eliminated@ == min_tally_ids(t, t[t.len() - 1].1)
    }
}

/// The candidates still active at the start of round `i` (0-based): the
/// initial candidates minus everything eliminated in rounds `0 .. i`.
pub open spec fn active_at(candidates: Seq<i32>, rounds: Seq<RcvRound>, i: int) -> Seq<i32>
    decreases i,
{
    if i <= 0 {
        candidates
    } else {
        remaining_candidates(active_at(candidates, rounds, i - 1), rounds[i - 1].eliminated@)
    }
}

/// The ballot pool at the start of round `i` (0-based): the initial ballots,
/// shrunk after every earlier round to those not yet fully exhausted.
pub open spec fn pool_at(
    ballots: Seq<Ballot>,
    candidates: Seq<i32>,
    rounds: Seq<RcvRound>,
    i: int,
) -> Seq<Ballot>
    decreases i,
{
    if i <= 0 {
        ballots
    } else {
        surviving_ballots(
            pool_at(ballots, candidates, rounds, i - 1),
            active_at(candidates, rounds, i),
        )
    }
}

/// `r` is the complete tabulation of `ballots` over `candidates`: every round
/// conforms to `round_ok` against the evolving pool and candidate set, a
/// winner is declared only in the final round, and the tabulation ends
/// exactly when a winner emerges or no candidate is left.
pub open spec fn rcv_ok(ballots: Seq<Ballot>, candidates: Seq<i32>, r: RcvResult) -> bool {
    let rounds = r.rounds@;
    let n = rounds.len() as int;
    &&& (candidates.len() == 0 ==> n == 0 && r.winner_id is None)
    &&& (candidates.len() > 0 ==> n >= 1)
    &&& (forall|i: int| 0 <= i < n ==> #[trigger] active_at(candidates, rounds, i).len() > 0)
    &&& (forall|i: int|
        0 <= i < n ==> round_ok(
            #[trigger] rounds[i],
            pool_at(ballots, candidates, rounds, i),
            active_at(candidates, rounds, i),
            i + 1,
        ))
    &&& (forall|i: int| 0 <= i < n - 1 ==> (#[trigger] rounds[i]).winner is None)
    &&& (match r.winner_id {
        Some(w) => n > 0 && rounds[n - 1].winner == Some(w),
        None => n == 0 || (rounds[n - 1].winner is None && active_at(
            candidates,
            rounds,
            n,
        ).len() == 0),
    })
}

// ---------------------------------------------------------------------------
// Unfolding lemmas for the recursive definitions above.
// ---------------------------------------------------------------------------

proof fn lemma_tally_snoc(pool: Seq<Ballot>, b: Ballot, active: Seq<i32>, c: i32)
    ensures
        tally(pool.push(b), active, c) == tally(pool, active, c) + if top_choice(b, active)
            == Some(c) {
            1int
        } else {
            0int
        },
{
    assert(pool.push(b).drop_last() =~= pool);
    assert(pool.push(b).last() == b);
}

proof fn lemma_surviving_snoc(pool: Seq<Ballot>, b: Ballot, active: Seq<i32>)
    ensures
        surviving_ballots(pool.push(b), active) == if top_choice(b, active) is Some {
            surviving_ballots(pool, active).push(b)
        } else {
            surviving_ballots(pool, active)
        },
{
    assert(pool.push(b).drop_last() =~= pool);
    assert(pool.push(b).last() == b);
}

proof fn lemma_remaining_snoc(active: Seq<i32>, c: i32, eliminated: Seq<i32>)
    ensures
        remaining_candidates(active.push(c), eliminated) == if eliminated.contains(c) {
            remaining_candidates(active, eliminated)
        } else {
            remaining_candidates(active, eliminated).push(c)
        },
{
    assert(active.push(c).drop_last() =~= active);
    assert(active.push(c).last() == c);
}

proof fn lemma_min_ids_snoc(t: Seq<(i32, i32)>, e: (i32, i32), m: i32)
    ensures
        min_tally_ids(t.push(e), m) == if e.1 == m {
            min_tally_ids(t, m).push(e.0)
        } else {
            min_tally_ids(t, m)
        },
{
    assert(t.push(e).drop_last() =~= t);
    assert(t.push(e).last() == e);
}

/// Dropping eliminated candidates never grows the candidate list.
proof fn lemma_remaining_len(active: Seq<i32>, eliminated: Seq<i32>)
    ensures
        remaining_candidates(active, eliminated).len() <= active.len(),
    decreases active.len(),
{
    if active.len() > 0 {
        lemma_remaining_len(active.drop_last(), eliminated);
    }
}

/// Every candidate kept by an elimination step was active before it and is
/// not among the eliminated; distinctness is preserved.
proof fn lemma_remaining_props(active: Seq<i32>, eliminated: Seq<i32>)
    ensures
        forall|x: i32|
            #[trigger] remaining_candidates(active, eliminated).contains(x) ==> active.contains(x)
                && !eliminated.contains(x),
        active.no_duplicates() ==> remaining_candidates(active, eliminated).no_duplicates(),
    decreases active.len(),
{
    if active.len() > 0 {
        let prior = active.drop_last();
        let rest = remaining_candidates(prior, eliminated);
        let res = remaining_candidates(active, eliminated);
        lemma_remaining_props(prior, eliminated);
        assert forall|x: i32| #[trigger] res.contains(x) implies active.contains(x)
            && !eliminated.contains(x) by {
            let i = choose|i: int| 0 <= i < res.len() && res[i] == x;
            if i < rest.len() {
                assert(rest[i] == x);
                assert(rest.contains(x));
                let k = choose|k: int| 0 <= k < prior.len() && prior[k] == x;
                assert(active[k] == x);
            } else {
                assert(x == active.last());
                assert(active[active.len() - 1] == x);
            }
        }
        if active.no_duplicates() {
            assert forall|i: int, k: int|
                0 <= i < res.len() && 0 <= k < res.len() && i != k implies res[i] != res[k] by {
                if !eliminated.contains(active.last()) {
                    // The appended last candidate cannot recur inside `rest`.
                    if res[i] == active.last() && i < rest.len() {
                        assert(rest.contains(res[i]));
                        let w = choose|w: int| 0 <= w < prior.len() && prior[w] == active.last();
                        assert(active[w] == active[active.len() - 1]);
                    }
                    if res[k] == active.last() && k < rest.len() {
                        assert(rest.contains(res[k]));
                        let w = choose|w: int| 0 <= w < prior.len() && prior[w] == active.last();
                        assert(active[w] == active[active.len() - 1]);
                    }
                }
            }
        }
    }
}

/// An elimination that removes at least one active candidate strictly
/// shrinks the candidate list.
proof fn lemma_remaining_strict(active: Seq<i32>, eliminated: Seq<i32>, w: i32)
    requires
        active.contains(w),
        eliminated.contains(w),
    ensures
        remaining_candidates(active, eliminated).len() < active.len(),
    decreases active.len(),
{
    if eliminated.contains(active.last()) {
        lemma_remaining_len(active.drop_last(), eliminated);
    } else {
        let i = choose|i: int| 0 <= i < active.len() && active[i] == w;
        assert(active.drop_last()[i] == w);
        lemma_remaining_strict(active.drop_last(), eliminated, w);
    }
}

/// Dropping exhausted ballots never grows the pool.
proof fn lemma_surviving_len(pool: Seq<Ballot>, active: Seq<i32>)
    ensures
        surviving_ballots(pool, active).len() <= pool.len(),
    decreases pool.len(),
{
    if pool.len() > 0 {
        lemma_surviving_len(pool.drop_last(), active);
    }
}

/// The candidate set and ballot pool at a round are unchanged by appending
/// later rounds to the history.
proof fn lemma_state_prefix(
    ballots: Seq<Ballot>,
    candidates: Seq<i32>,
    rounds: Seq<RcvRound>,
    r: RcvRound,
    i: int,
)
    requires
        0 <= i <= rounds.len(),
    ensures
        active_at(candidates, rounds.push(r), i) == active_at(candidates, rounds, i),
        pool_at(ballots, candidates, rounds.push(r), i) == pool_at(ballots, candidates, rounds, i),
    decreases i,
{
    if i > 0 {
        lemma_state_prefix(ballots, candidates, rounds, r, i - 1);
        assert(rounds.push(r)[i - 1] == rounds[i - 1]);
    }
}

/// Two conforming snapshots for the same pool and candidates agree at every
/// position: the strict display order leaves no freedom.
proof fn lemma_tallies_unique_at(
    t1: Seq<(i32, i32)>,
    t2: Seq<(i32, i32)>,
    pool: Seq<Ballot>,
    active: Seq<i32>,
    k: int,
)
    requires
        tallies_ok(t1, pool, active),
        tallies_ok(t2, pool, active),
        0 <= k < t1.len(),
    ensures
        t1[k] == t2[k],
    decreases k,
{
    assert(active.contains(t1[k].0));
    let l = choose|l: int| 0 <= l < active.len() && active[l] == t1[k].0;
    assert(has_entry_for(t2, active[l]));
    let m = choose|m: int| 0 <= m < t2.len() && t2[m].0 == t1[k].0;
    assert(t2[m].1 == t1[k].1);
    if m < k {
        lemma_tallies_unique_at(t1, t2, pool, active, m);
        assert(t1[m].0 == t1[k].0);
        assert(false);
    } else if m > k {
        assert(active.contains(t2[k].0));
        let l2 = choose|l2: int| 0 <= l2 < active.len() && active[l2] == t2[k].0;
        assert(has_entry_for(t1, active[l2]));
        let m2 = choose|m2: int| 0 <= m2 < t1.len() && t1[m2].0 == t2[k].0;
        assert(t1[m2].1 == t2[k].1);
        if m2 < k {
            lemma_tallies_unique_at(t1, t2, pool, active, m2);
            assert(t2[m2].0 == t2[k].0);
            assert(false);
        } else if m2 == k {
            assert(t2[m].0 == t2[k].0);
            assert(false);
        } else {
            // A cycle in the strict order: t1[k] before t1[m2] == t2[k]
            // before t2[m] == t1[k].
            assert(tally_precedes(t1[k], t1[m2]));
            assert(tally_precedes(t2[k], t2[m]));
            assert(false);
        }
    }
}

/// A round snapshot is unique: the contract's requirements on one round's
/// tallies admit exactly one sequence.
proof fn lemma_tallies_unique(
    t1: Seq<(i32, i32)>,
    t2: Seq<(i32, i32)>,
    pool: Seq<Ballot>,
    active: Seq<i32>,
)
    requires
        tallies_ok(t1, pool, active),
        tallies_ok(t2, pool, active),
    ensures
        t1 == t2,
{
    assert forall|k: int| 0 <= k < t1.len() implies t1[k] == t2[k] by {
        lemma_tallies_unique_at(t1, t2, pool, active, k);
    }
    assert(t1 =~= t2);
}

/// Appending a conforming round to a conforming history yields a conforming
/// history, and steps the candidate set and ballot pool one round forward.
proof fn lemma_extend_history(
    votes: Seq<Ballot>,
    candidates: Seq<i32>,
    rounds: Seq<RcvRound>,
    round: RcvRound,
)
    requires
        forall|i: int|
            0 <= i < rounds.len() ==> #[trigger] active_at(candidates, rounds, i).len() > 0,
        forall|i: int|
            0 <= i < rounds.len() ==> round_ok(
                #[trigger] rounds[i],
                pool_at(votes, candidates, rounds, i),
                active_at(candidates, rounds, i),
                i + 1,
            ),
        active_at(candidates, rounds, rounds.len() as int).len() > 0,
        round_ok(
            round,
            pool_at(votes, candidates, rounds, rounds.len() as int),
            active_at(candidates, rounds, rounds.len() as int),
            rounds.len() as int + 1,
        ),
    ensures
        forall|i: int|
            0 <= i < rounds.len() as int + 1 ==> #[trigger] active_at(
                candidates,
                rounds.push(round),
                i,
            ).len() > 0,
        forall|i: int|
            0 <= i < rounds.len() as int + 1 ==> round_ok(
                #[trigger] rounds.push(round)[i],
                pool_at(votes, candidates, rounds.push(round), i),
                active_at(candidates, rounds.push(round), i),
                i + 1,
            ),
        active_at(candidates, rounds.push(round), rounds.len() as int + 1) == remaining_candidates(
            active_at(candidates, rounds, rounds.len() as int),
            round.eliminated@,
        ),
        pool_at(votes, candidates, rounds.push(round), rounds.len() as int + 1) == surviving_ballots(
            pool_at(votes, candidates, rounds, rounds.len() as int),
            active_at(candidates, rounds.push(round), rounds.len() as int + 1),
        ),
{
    let rs = rounds.push(round);
    let ln = rounds.len() as int;
    assert(rs[ln] == round);
    assert forall|i: int| 0 <= i < ln + 1 implies #[trigger] active_at(
        candidates,
        rs,
        i,
    ).len() > 0 by {
        lemma_state_prefix(votes, candidates, rounds, round, i);
    }
    assert forall|i: int| 0 <= i < ln + 1 implies round_ok(
        #[trigger] rs[i],
        pool_at(votes, candidates, rs, i),
        active_at(candidates, rs, i),
        i + 1,
    ) by {
        lemma_state_prefix(votes, candidates, rounds, round, i);
        if i < ln {
            assert(rs[i] == rounds[i]);
        }
    }
    lemma_state_prefix(votes, candidates, rounds, round, ln);
}

/// The last snapshot entry always belongs to the eliminated set of its round:
/// it carries the minimum count.
proof fn lemma_min_ids_has_last(t: Seq<(i32, i32)>)
    requires
        t.len() > 0,
    ensures
        min_tally_ids(t, t[t.len() - 1].1).contains(t[t.len() - 1].0),
{
    let m = t[t.len() - 1].1;
    let res = min_tally_ids(t, m);
    assert(res == min_tally_ids(t.drop_last(), m).push(t.last().0));
    assert(res[res.len() - 1] == t.last().0);
}

// ---------------------------------------------------------------------------
// Executable helpers.
// ---------------------------------------------------------------------------

/// Linear membership test on a candidate vector.
pub(crate) fn vec_contains(v: &Vec<i32>, x: i32) -> (r: bool)
    ensures
        r == v@.contains(x),
{
    let mut j: usize = 0;
    while j < v.len()
        invariant
            0 <= j <= v@.len(),
            forall|k: int| 0 <= k < j ==> v@[k] != x,
        decreases v@.len() - j,
    {
        if v[j] == x {
            return true;
        }
        j = j + 1;
    }
    false
}

/// The executable counterpart of `top_choice`.
fn top_choice_exec(b: &Ballot, active: &Vec<i32>) -> (r: Option<i32>)
    ensures
        r == top_choice(*b, active@),
{
    if vec_contains(active, b.first_choice_id) {
        Some(b.first_choice_id)
    } else if vec_contains(active, b.second_choice_id) {
        Some(b.second_choice_id)
    } else if vec_contains(active, b.third_choice_id) {
        Some(b.third_choice_id)
    } else {
        None
    }
}

/// Counts the ballots of `pool` whose top active choice is `c`.
fn count_tally(pool: &Vec<Ballot>, active: &Vec<i32>, c: i32) -> (cnt: i32)
    requires
        pool@.len() <= 0x7fff_ffff,
    ensures
        cnt as int == tally(pool@, active@, c),
        0 <= cnt <= pool@.len(),
{
    let mut cnt: i32 = 0;
    let mut i: usize = 0;
    while i < pool.len()
        invariant
            0 <= i <= pool@.len(),
            pool@.len() <= 0x7fff_ffff,
            cnt as int == tally(pool@.subrange(0, i as int), active@, c),
            0 <= cnt <= i,
        decreases pool@.len() - i,
    {
        let tc = top_choice_exec(&pool[i], active);
        proof {
            assert(pool@.subrange(0, i + 1) =~= pool@.subrange(0, i as int).push(pool@[i as int]));
            lemma_tally_snoc(pool@.subrange(0, i as int), pool@[i as int], active@, c);
        }
        match tc {
            Some(x) => {
                if x == c {
                    cnt = cnt + 1;
                }
            },
            None => {},
        }
        i = i + 1;
    }
    proof {
        assert(pool@.subrange(0, pool@.len() as int) =~= pool@);
    }
    cnt
}

/// Builds the round snapshot for `pool` and `active`: one entry per active
/// candidate with its exact tally, kept sorted by inserting each entry at its
/// display position.
fn sorted_tallies(pool: &Vec<Ballot>, active: &Vec<i32>) -> (t: Vec<(i32, i32)>)
    requires
        active@.no_duplicates(),
        pool@.len() <= 0x7fff_ffff,
    ensures
        tallies_ok(t@, pool@, active@),
{
    let mut t: Vec<(i32, i32)> = Vec::new();
    let mut j: usize = 0;
    while j < active.len()
        invariant
            0 <= j <= active@.len(),
            active@.no_duplicates(),
            pool@.len() <= 0x7fff_ffff,
            t@.len() == j,
            forall|k: int|
                0 <= k < t@.len() ==> (#[trigger] t@[k]).1 as int == tally(
                    pool@,
                    active@,
                    t@[k].0,
                ),
            forall|l: int| 0 <= l < j ==> has_entry_for(t@, #[trigger] active@[l]),
            forall|k: int| 0 <= k < t@.len() ==> id_among(active@, j as int, (#[trigger] t@[k]).0),
            forall|k1: int, k2: int|
                0 <= k1 < k2 < t@.len() ==> tally_precedes(#[trigger] t@[k1], #[trigger] t@[k2]),
        decreases active@.len() - j,
    {
        let c = active[j];
        let cnt = count_tally(pool, active, c);
        let mut p: usize = 0;
        while p < t.len() && (t[p].1 > cnt || (t[p].1 == cnt && t[p].0 < c))
            invariant
                0 <= p <= t@.len(),
                forall|k: int| 0 <= k < p ==> tally_precedes(#[trigger] t@[k], (c, cnt)),
            decreases t@.len() - p,
        {
            p = p + 1;
        }
        let ghost told = t@;
        let ghost pp = p as int;
        proof {
            // The entry being inserted is strictly ordered after everything
            // before position `p` and strictly before everything from `p` on.
            if pp < told.len() {
                // `c` is not yet among the collected ids, so the tie-break on
                // ids decides strictly.
                assert(id_among(active@, j as int, told[pp].0));
                let l = choose|l: int| 0 <= l < j && active@[l] == told[pp].0;
                assert(active@[l] != active@[j as int]);
                assert(tally_precedes((c, cnt), told[pp]));
            }
            assert forall|k: int| pp <= k < told.len() implies tally_precedes(
                (c, cnt),
                #[trigger] told[k],
            ) by {
                if k > pp {
                    assert(tally_precedes(told[pp], told[k]));
                }
            }
        }
        t.insert(p, (c, cnt));
        proof {
            told.insert_ensures(pp, (c, cnt));
            assert(t@ == told.insert(pp, (c, cnt)));
            // Exact counts, entry by entry.
            assert forall|k: int| 0 <= k < t@.len() implies (#[trigger] t@[k]).1 as int == tally(
                pool@,
                active@,
                t@[k].0,
            ) by {
                if k < pp {
                    assert(t@[k] == told[k]);
                } else if k > pp {
                    assert(t@[k] == told[k - 1]);
                }
            }
            // Every processed candidate keeps an entry.
            assert forall|l: int| 0 <= l < j + 1 implies has_entry_for(
                t@,
                #[trigger] active@[l],
            ) by {
                if l == j {
                    assert(t@[pp].0 == active@[l]);
                } else {
                    assert(has_entry_for(told, active@[l]));
                    let k = choose|k: int| 0 <= k < told.len() && told[k].0 == active@[l];
                    if k < pp {
                        assert(t@[k].0 == active@[l]);
                    } else {
                        assert(t@[k + 1].0 == active@[l]);
                    }
                }
            }
            // Every entry's id comes from the processed prefix.
            assert forall|k: int| 0 <= k < t@.len() implies id_among(
                active@,
                j + 1,
                (#[trigger] t@[k]).0,
            ) by {
                if k < pp {
                    assert(id_among(active@, j as int, told[k].0));
                    let l = choose|l: int| 0 <= l < j && active@[l] == told[k].0;
                    assert(active@[l] == t@[k].0);
                } else if k == pp {
                    assert(active@[j as int] == t@[k].0);
                } else {
                    assert(id_among(active@, j as int, told[k - 1].0));
                    let l = choose|l: int| 0 <= l < j && active@[l] == told[k - 1].0;
                    assert(active@[l] == t@[k].0);
                }
            }
            // Sortedness is preserved around the insertion point.
            assert forall|k1: int, k2: int| 0 <= k1 < k2 < t@.len() implies tally_precedes(
                #[trigger] t@[k1],
                #[trigger] t@[k2],
            ) by {
                if k1 < pp {
                    assert(t@[k1] == told[k1]);
                } else if k1 > pp {
                    assert(t@[k1] == told[k1 - 1]);
                }
                if k2 < pp {
                    assert(t@[k2] == told[k2]);
                } else if k2 > pp {
                    assert(t@[k2] == told[k2 - 1]);
                }
            }
        }
        j = j + 1;
    }
    proof {
        // The collected ids are active candidates, and sortedness together
        // with exact counts rules out a repeated id.
        assert forall|k: int| 0 <= k < t@.len() implies active@.contains(
            (#[trigger] t@[k]).0,
        ) by {
            assert(id_among(active@, active@.len() as int, t@[k].0));
        }
        assert forall|k1: int, k2: int| 0 <= k1 < k2 < t@.len() implies (#[trigger] t@[k1]).0 != (
        #[trigger] t@[k2]).0 by {
            if t@[k1].0 == t@[k2].0 {
                assert(t@[k1].1 as int == tally(pool@, active@, t@[k1].0));
                assert(t@[k2].1 as int == tally(pool@, active@, t@[k2].0));
                assert(tally_precedes(t@[k1], t@[k2]));
            }
        }
    }
    t
}

/// Copies a candidate list.
fn copy_ids(v: &Vec<i32>) -> (r: Vec<i32>)
    ensures
        r@ == v@,
{
    let mut r: Vec<i32> = Vec::new();
    let mut i: usize = 0;
    while i < v.len()
        invariant
            0 <= i <= v@.len(),
            r@ == v@.subrange(0, i as int),
        decreases v@.len() - i,
    {
        r.push(v[i]);
        proof {
            assert(v@.subrange(0, i + 1) =~= v@.subrange(0, i as int).push(v@[i as int]));
        }
        i = i + 1;
    }
    proof {
        assert(v@.subrange(0, v@.len() as int) =~= v@);
    }
    r
}

/// Copies a ballot list.
pub(crate) fn copy_ballots(v: &Vec<Ballot>) -> (r: Vec<Ballot>)
    ensures
        r@ == v@,
{
    let mut r: Vec<Ballot> = Vec::new();
    let mut i: usize = 0;
    while i < v.len()
        invariant
            0 <= i <= v@.len(),
            r@ == v@.subrange(0, i as int),
        decreases v@.len() - i,
    {
        r.push(v[i]);
        proof {
            assert(v@.subrange(0, i + 1) =~= v@.subrange(0, i as int).push(v@[i as int]));
        }
        i = i + 1;
    }
    proof {
        assert(v@.subrange(0, v@.len() as int) =~= v@);
    }
    r
}

/// Keeps the candidates of `active` that are not in `eliminated`.
fn filter_candidates(active: &Vec<i32>, eliminated: &Vec<i32>) -> (r: Vec<i32>)
    ensures
        r@ == remaining_candidates(active@, eliminated@),
{
    let mut r: Vec<i32> = Vec::new();
    let mut i: usize = 0;
    while i < active.len()
        invariant
            0 <= i <= active@.len(),
            r@ == remaining_candidates(active@.subrange(0, i as int), eliminated@),
        decreases active@.len() - i,
    {
        let keep = !vec_contains(eliminated, active[i]);
        proof {
            assert(active@.subrange(0, i + 1) =~= active@.subrange(0, i as int).push(
                active@[i as int],
            ));
            lemma_remaining_snoc(active@.subrange(0, i as int), active@[i as int], eliminated@);
        }
        if keep {
            r.push(active[i]);
        }
        i = i + 1;
    }
    proof {
        assert(active@.subrange(0, active@.len() as int) =~= active@);
    }
    r
}

/// Keeps the ballots of `pool` that still rank an active candidate.
fn filter_pool(pool: &Vec<Ballot>, active: &Vec<i32>) -> (r: Vec<Ballot>)
    ensures
        r@ == surviving_ballots(pool@, active@),
{
    let mut r: Vec<Ballot> = Vec::new();
    let mut i: usize = 0;
    while i < pool.len()
        invariant
            0 <= i <= pool@.len(),
            r@ == surviving_ballots(pool@.subrange(0, i as int), active@),
        decreases pool@.len() - i,
    {
        let keep = top_choice_exec(&pool[i], active).is_some();
        proof {
            assert(pool@.subrange(0, i + 1) =~= pool@.subrange(0, i as int).push(pool@[i as int]));
            lemma_surviving_snoc(pool@.subrange(0, i as int), pool@[i as int], active@);
        }
        if keep {
            r.push(pool[i]);
        }
        i = i + 1;
    }
    proof {
        assert(pool@.subrange(0, pool@.len() as int) =~= pool@);
    }
    r
}

/// Collects the ids of the snapshot entries whose count equals `m`.
fn collect_min_ids(t: &Vec<(i32, i32)>, m: i32) -> (r: Vec<i32>)
    ensures
        r@ == min_tally_ids(t@, m),
{
    let mut r: Vec<i32> = Vec::new();
    let mut i: usize = 0;
    while i < t.len()
        invariant
            0 <= i <= t@.len(),
            r@ == min_tally_ids(t@.subrange(0, i as int), m),
        decreases t@.len() - i,
    {
        proof {
            assert(t@.subrange(0, i + 1) =~= t@.subrange(0, i as int).push(t@[i as int]));
            lemma_min_ids_snoc(t@.subrange(0, i as int), t@[i as int], m);
        }
        if t[i].1 == m {
            r.push(t[i].0);
        }
        i = i + 1;
    }
    proof {
        assert(t@.subrange(0, t@.len() as int) =~= t@);
    }
    r
}

/// Tabulates `votes` by instant-runoff elimination over the initially
/// eligible `candidates` and returns the full round-by-round result.
///
/// Callers pass `candidates` with unique ids; the ballot count is bounded so
/// that every tally fits the snapshot's count field.
pub fn compute_rcv(votes: &Vec<Ballot>, candidates: &Vec<i32>) -> (r: RcvResult)
    requires
        candidates@.no_duplicates(),
        votes@.len() <= 0x7fff_ffff,
    ensures
        rcv_ok(votes@, candidates@, r),
{
    if candidates.len() == 0 {
        return RcvResult { winner_id: None, rounds: Vec::new() };
    }
    let mut active: Vec<i32> = copy_ids(candidates);
    let mut pool: Vec<Ballot> = copy_ballots(votes);
    let mut rounds: Vec<RcvRound> = Vec::new();
    while active.len() > 0
        invariant
            candidates@.no_duplicates(),
            votes@.len() <= 0x7fff_ffff,
            candidates@.len() > 0,
            active@.no_duplicates(),
            active@ == active_at(candidates@, rounds@, rounds@.len() as int),
            pool@ == pool_at(votes@, candidates@, rounds@, rounds@.len() as int),
            pool@.len() <= votes@.len(),
            rounds@.len() == 0 ==> active@ == candidates@,
            rounds@.len() + active@.len() <= candidates@.len(),
            forall|i: int|
                0 <= i < rounds@.len() ==> #[trigger] active_at(candidates@, rounds@, i).len() > 0,
            forall|i: int|
                0 <= i < rounds@.len() ==> round_ok(
                    #[trigger] rounds@[i],
                    pool_at(votes@, candidates@, rounds@, i),
                    active_at(candidates@, rounds@, i),
                    i + 1,
                ),
            forall|i: int| 0 <= i < rounds@.len() ==> (#[trigger] rounds@[i]).winner is None,
        decreases active@.len(),
    {
        let t = sorted_tallies(&pool, &active);
        let total = pool.len();
        let threshold: i32 = if total > 0 {
            proof {
                assert((total + 1) / 2 <= 0x7fff_ffff);
            }
            ((total + 1) / 2) as i32
        } else {
            0
        };
        let top_count = t[0].1;
        let clear = t.len() < 2 || t[1].1 < top_count;
        // Every earlier round eliminated a candidate, so the next round
        // number stays below the candidate count.
        let cap = candidates.len();
        proof {
            assert(rounds@.len() < cap);
        }
        let number = rounds.len() + 1;
        proof {
            assert(threshold as int == majority_threshold(pool@.len() as int));
        }
        if top_count >= threshold && clear {
            let w = t[0].0;
            let round = RcvRound {
                round_number: number,
                tallies: t,
                eliminated: Vec::new(),
                winner: Some(w),
            };
            let ghost old_rounds = rounds@;
            proof {
                assert(round_won(round.tallies@, pool@.len() as int));
                assert(round_ok(round, pool@, active@, old_rounds.len() as int + 1));
                lemma_extend_history(votes@, candidates@, old_rounds, round);
            }
            rounds.push(round);
            return RcvResult { winner_id: Some(w), rounds };
        }
        let min_count = t[t.len() - 1].1;
        let elim = collect_min_ids(&t, min_count);
        let new_active = filter_candidates(&active, &elim);
        let round = RcvRound { round_number: number, tallies: t, eliminated: elim, winner: None };
        let ghost old_rounds = rounds@;
        let ghost old_active = active@;
        let ghost old_pool = pool@;
        proof {
            assert(!round_won(round.tallies@, old_pool.len() as int));
            assert(round_ok(round, old_pool, old_active, old_rounds.len() as int + 1));
            lemma_extend_history(votes@, candidates@, old_rounds, round);
            lemma_min_ids_has_last(round.tallies@);
            let wl = round.tallies@[round.tallies@.len() - 1].0;
            assert(old_active.contains(wl));
            lemma_remaining_strict(old_active, round.eliminated@, wl);
            lemma_remaining_props(old_active, round.eliminated@);
            lemma_surviving_len(old_pool, remaining_candidates(old_active, round.eliminated@));
        }
        rounds.push(round);
        active = new_active;
        let new_pool = filter_pool(&pool, &active);
        pool = new_pool;
    }
    proof {
        assert(rounds@.len() > 0);
        assert(active_at(candidates@, rounds@, rounds@.len() as int).len() == 0);
    }
    RcvResult { winner_id: None, rounds }
}

/// Two conforming tabulations of the same ballots and candidates agree on
/// round `i` and on the state it starts from.
proof fn lemma_rounds_agree(
    ballots: Seq<Ballot>,
    candidates: Seq<i32>,
    r1: RcvResult,
    r2: RcvResult,
    i: int,
)
    requires
        rcv_ok(ballots, candidates, r1),
        rcv_ok(ballots, candidates, r2),
        0 <= i,
        i < r1.rounds@.len(),
        i < r2.rounds@.len(),
    ensures
        active_at(candidates, r1.rounds@, i) == active_at(candidates, r2.rounds@, i),
        pool_at(ballots, candidates, r1.rounds@, i) == pool_at(ballots, candidates, r2.rounds@, i),
        r1.rounds@[i].round_number == r2.rounds@[i].round_number,
        r1.rounds@[i].tallies@ == r2.rounds@[i].tallies@,
        r1.rounds@[i].eliminated@ == r2.rounds@[i].eliminated@,
        r1.rounds@[i].winner == r2.rounds@[i].winner,
    decreases i,
{
    let rs1 = r1.rounds@;
    let rs2 = r2.rounds@;
    if i > 0 {
        lemma_rounds_agree(ballots, candidates, r1, r2, i - 1);
    }
    let active = active_at(candidates, rs1, i);
    let pool = pool_at(ballots, candidates, rs1, i);
    assert(active_at(candidates, rs2, i) == active);
    assert(pool_at(ballots, candidates, rs2, i) == pool);
    assert(round_ok(rs1[i], pool, active, i + 1));
    assert(round_ok(rs2[i], pool, active, i + 1));
    lemma_tallies_unique(rs1[i].tallies@, rs2[i].tallies@, pool, active);
    if !round_won(rs1[i].tallies@, pool.len() as int) {
        assert(rs1[i].eliminated@ == rs2[i].eliminated@);
    } else {
        assert(rs1[i].eliminated@ =~= rs2[i].eliminated@);
    }
}

/// The tabulation contract is deterministic: any two results that conform to
/// `rcv_ok` for the same ballots and candidates declare the same winner and
/// play identical rounds.
pub proof fn lemma_rcv_deterministic(
    ballots: Seq<Ballot>,
    candidates: Seq<i32>,
    r1: RcvResult,
    r2: RcvResult,
)
    requires
        rcv_ok(ballots, candidates, r1),
        rcv_ok(ballots, candidates, r2),
    ensures
        r1.winner_id == r2.winner_id,
        r1.rounds@.len() == r2.rounds@.len(),
        forall|i: int|
            0 <= i < r1.rounds@.len() ==> {
                let a = #[trigger] r1.rounds@[i];
                let b = #[trigger] r2.rounds@[i];
                &&& a.round_number == b.round_number
                &&& a.tallies@ == b.tallies@
                &&& a.eliminated@ == b.eliminated@
                &&& a.winner == b.winner
            },
{
    let rs1 = r1.rounds@;
    let rs2 = r2.rounds@;
    let n1 = rs1.len() as int;
    let n2 = rs2.len() as int;
    if candidates.len() == 0 {
        assert(n1 == 0 && n2 == 0);
    } else {
        if n1 < n2 {
            // The shorter run must have ended, yet the longer run still had
            // active candidates to play round n1 with.
            lemma_rounds_agree(ballots, candidates, r1, r2, n1 - 1);
            assert(rs2[n1 - 1].winner is None);
            assert(rs1[n1 - 1].winner is None);
            assert(r1.winner_id is None);
            assert(active_at(candidates, rs1, n1).len() == 0);
            assert(active_at(candidates, rs2, n1) == active_at(candidates, rs1, n1));
            assert(active_at(candidates, rs2, n1).len() > 0);
            assert(false);
        }
        if n2 < n1 {
            lemma_rounds_agree(ballots, candidates, r1, r2, n2 - 1);
            assert(rs1[n2 - 1].winner is None);
            assert(rs2[n2 - 1].winner is None);
            assert(r2.winner_id is None);
            assert(active_at(candidates, rs2, n2).len() == 0);
            assert(active_at(candidates, rs1, n2) == active_at(candidates, rs2, n2));
            assert(active_at(candidates, rs1, n2).len() > 0);
            assert(false);
        }
        assert(n1 == n2);
        assert forall|i: int| 0 <= i < n1 implies {
            let a = #[trigger] rs1[i];
            let b = #[trigger] rs2[i];
            &&& a.round_number == b.round_number
            &&& a.tallies@ == b.tallies@
            &&& a.eliminated@ == b.eliminated@
            &&& a.winner == b.winner
        } by {
            lemma_rounds_agree(ballots, candidates, r1, r2, i);
        }
        assert(rs1[n1 - 1].winner == rs2[n1 - 1].winner);
        match r1.winner_id {
            Some(w) => {
                assert(rs2[n1 - 1].winner == Some(w));
                if r2.winner_id is None {
                    assert(rs2[n2 - 1].winner is None);
                    assert(false);
                }
            },
            None => {
                assert(rs1[n1 - 1].winner is None);
                if r2.winner_id is Some {
                    assert(rs2[n2 - 1].winner is Some);
                    assert(false);
                }
            },
        }
    }
}

/// Round numbering and progress, for any conforming tabulation: rounds are
/// numbered 1, 2, ... in order; the active candidate set never grows from
/// one round to the next; and it strictly shrinks across every round that
/// does not declare a winner.
pub proof fn lemma_round_progression(ballots: Seq<Ballot>, candidates: Seq<i32>, r: RcvResult)
    requires
        rcv_ok(ballots, candidates, r),
    ensures
        forall|i: int|
            0 <= i < r.rounds@.len() ==> (#[trigger] r.rounds@[i]).round_number as int == i + 1,
        forall|i: int|
            0 <= i < r.rounds@.len() ==> #[trigger] active_at(candidates, r.rounds@, i + 1).len()
                <= active_at(candidates, r.rounds@, i).len(),
        forall|i: int|
            0 <= i < r.rounds@.len() && r.rounds@[i].winner is None ==> #[trigger] active_at(
                candidates,
                r.rounds@,
                i + 1,
            ).len() < active_at(candidates, r.rounds@, i).len(),
{
    let rounds = r.rounds@;
    assert forall|i: int| 0 <= i < rounds.len() implies #[trigger] active_at(
        candidates,
        rounds,
        i + 1,
    ).len() <= active_at(candidates, rounds, i).len() by {
        assert(round_ok(
            rounds[i],
            pool_at(ballots, candidates, rounds, i),
            active_at(candidates, rounds, i),
            i + 1,
        ));
        lemma_remaining_len(active_at(candidates, rounds, i), rounds[i].eliminated@);
    }
    assert forall|i: int| 0 <= i < rounds.len() && rounds[i].winner is None implies #[trigger] active_at(
        candidates,
        rounds,
        i + 1,
    ).len() < active_at(candidates, rounds, i).len() by {
        let active = active_at(candidates, rounds, i);
        let pool = pool_at(ballots, candidates, rounds, i);
        let t = rounds[i].tallies@;
        assert(round_ok(rounds[i], pool, active, i + 1));
        assert(!round_won(t, pool.len() as int));
        assert(t.len() == active.len() > 0);
        lemma_min_ids_has_last(t);
        assert(active.contains(t[t.len() - 1].0));
        lemma_remaining_strict(active, rounds[i].eliminated@, t[t.len() - 1].0);
    }
}

} // verus!

