//! Fleet safety decisions: one ballot over a warp of up to 32 drones.
use crate::ternary::Trit;
use vstd::prelude::*;

verus! {

/// What each drone votes on each round.
#[derive(Debug, Clone, Copy, PartialEq, Eq, Structural)]
pub enum DroneVote {
    ContinueMission,
    Regroup,
    AbortReturn,
}

impl DroneVote {
    /// The vote as a ternary weight: continue +1, regroup 0, abort -1.
    pub fn to_trit(self) -> (t: Trit)
        ensures
            t == (match self {
                DroneVote::ContinueMission => Trit::Pos,
                DroneVote::Regroup => Trit::Zero,
                DroneVote::AbortReturn => Trit::Neg,
            }),
    {
        match self {
            DroneVote::ContinueMission => Trit::Pos,
            DroneVote::Regroup => Trit::Zero,
            DroneVote::AbortReturn => Trit::Neg,
        }
    }
}

/// The fleet-level directive produced by a ballot.
#[derive(Debug, Clone, Copy, PartialEq, Eq, Structural)]
pub enum FleetDirective {
    ContinueMission,
    Regroup,
    AbortReturn,
}

/// How many of `votes` are `vote`.
pub open spec fn tally(votes: Seq<DroneVote>, vote: DroneVote) -> nat
    decreases votes.len(),
{
    if votes.len() == 0 {
        0
    } else {
        tally(votes.drop_last(), vote) + (if votes.last() == vote {
            1nat
        } else {
            0
        })
    }
}

/// The votes that a ballot counts: those of the first 32 threads.
pub open spec fn polled(votes: Seq<DroneVote>) -> Seq<DroneVote> {
    if votes.len() <= 32 {
        votes
    } else {
        votes.take(32)
    }
}

/// The outcome of a ballot: abort where at least a third of the drones vote for it,
/// otherwise regroup where more drones vote for that than for going on.
pub open spec fn ballot_outcome(votes: Seq<DroneVote>) -> FleetDirective {
    if 3 * tally(votes, DroneVote::AbortReturn) >= votes.len() {
        FleetDirective::AbortReturn
    } else if tally(votes, DroneVote::Regroup) > tally(votes, DroneVote::ContinueMission) {
        FleetDirective::Regroup
    } else {
        FleetDirective::ContinueMission
    }
}

/// Bit `i` of a mask.
spec fn bit(mask: u32, i: u32) -> bool {
    (mask >> i) & 1 == 1
}

/// How many of the lowest `n` bits of a mask are set.
spec fn ones(mask: u32, n: nat) -> nat
    decreases n,
{
    if n == 0 {
        0
    } else {
        ones(mask, (n - 1) as nat) + (if bit(mask, (n - 1) as u32) {
            1nat
        } else {
            0
        })
    }
}

proof fn lemma_set_bit(mask: u32, i: u32, j: u32)
    requires
        i < 32,
        j < 32,
    ensures
        bit(mask | (1u32 << i), j) == (i == j || bit(mask, j)),
{
    assert(((mask | (1u32 << i)) >> j) & 1 == 1 <==> (i == j || (mask >> j) & 1 == 1))
        by (bit_vector)
        requires
            i < 32,
            j < 32,
    ;
}

proof fn lemma_bit_of_difference(a: u32, b: u32, i: u32)
    requires
        i < 32,
    ensures
        bit(a & !b, i) == (bit(a, i) && !bit(b, i)),
{
    assert(((a & !b) >> i) & 1 == 1 <==> ((a >> i) & 1 == 1 && (b >> i) & 1 != 1))
        by (bit_vector)
        requires
            i < 32,
    ;
}

/// A mask that marks the threads voting `vote` has as many bits set as there are such
/// votes.
proof fn lemma_ones_is_tally(mask: u32, votes: Seq<DroneVote>, vote: DroneVote, n: nat)
    requires
        n <= 32,
        votes.len() <= 32,
        forall|i: u32|
            i < 32 ==> #[trigger] bit(mask, i) == (i < votes.len() && votes[i as int] == vote),
    ensures
        ones(mask, n) == tally(
            votes.take(
                if n <= votes.len() {
                    n as int
                } else {
                    votes.len() as int
                },
            ),
            vote,
        ),
    decreases n,
{
    if n > 0 {
        lemma_ones_is_tally(mask, votes, vote, (n - 1) as nat);
        assert(bit(mask, (n - 1) as u32) == (n - 1 < votes.len() && votes[n - 1] == vote));
        if n <= votes.len() {
            assert(votes.take(n as int).drop_last() =~= votes.take(n - 1));
        }
    }
}

proof fn lemma_ones_of_prefix(mask: u32, len: nat, n: nat)
    requires
        n <= 32,
        forall|i: u32| i < 32 ==> #[trigger] bit(mask, i) == (i < len),
    ensures
        ones(mask, n) == if n <= len {
            n
        } else {
            len
        },
    decreases n,
{
    if n > 0 {
        lemma_ones_of_prefix(mask, len, (n - 1) as nat);
        assert(bit(mask, (n - 1) as u32) == (n - 1 < len));
    }
}

/// The number of set bits in a mask.
fn count_ones(mask: u32) -> (n: u32)
    ensures
        n == ones(mask, 32),
        n <= 32,
{
    let mut n: u32 = 0;
    let mut i: u32 = 0;
    while i < 32
        invariant
            i <= 32,
            n == ones(mask, i as nat),
            n <= i,
        decreases 32 - i,
    {
        if (mask >> i) & 1 == 1 {
            n = n + 1;
        }
        i = i + 1;
    }
    n
}

/// Ballot masks, one bit per thread.
#[derive(Debug, Clone, Copy)]
struct BallotResult {
    /// Bit set where a thread takes part.
    active: u32,
    /// Bit set where a thread takes part and does not vote to abort.
    positive: u32,
    /// Bit set where a thread votes to continue.
    continue_mask: u32,
}

impl BallotResult {
    /// The masks record the vote of thread `i`, or that there is none.
    spec fn records_thread(self, votes: Seq<DroneVote>, i: u32) -> bool {
        &&& bit(self.active, i) == (i < votes.len())
        &&& bit(self.positive, i) == (i < votes.len() && votes[i as int]
            != DroneVote::AbortReturn)
        &&& bit(self.continue_mask, i) == (i < votes.len() && votes[i as int]
            == DroneVote::ContinueMission)
    }

    /// The masks record exactly the given votes.
    spec fn records(self, votes: Seq<DroneVote>) -> bool {
        forall|i: u32| i < 32 ==> #[trigger] self.records_thread(votes, i)
    }

    fn collect(votes: &[DroneVote]) -> (result: Self)
        ensures
            result.records(polled(votes@)),
    {
        let mut result = BallotResult { active: 0, positive: 0, continue_mask: 0 };
        let mut i: u32 = 0;
        assert forall|j: u32| j < 32 implies !#[trigger] bit(0, j) by {
            assert((0u32 >> j) & 1 != 1) by (bit_vector);
        }
        assert(result.records(votes@.take(0)));
        while i < 32 && (i as usize) < votes.len()
            invariant
                i <= 32,
                i <= votes@.len(),
                result.records(votes@.take(i as int)),
            decreases 32 - i,
        {
            let mark: u32 = 1u32 << i;
            let before = result;
            let vote: DroneVote = votes[i as usize];
            result.active = result.active | mark;
            match vote {
                DroneVote::ContinueMission => {
                    result.positive = result.positive | mark;
                    result.continue_mask = result.continue_mask | mark;
                },
                DroneVote::Regroup => {
                    result.positive = result.positive | mark;
                },
                DroneVote::AbortReturn => {},
            }
            proof {
                let seen = votes@.take(i as int);
                let now = votes@.take(i + 1);
                assert forall|j: u32| j < 32 implies #[trigger] result.records_thread(now, j) by {
                    assert(before.records_thread(seen, j));
                    lemma_set_bit(before.active, i, j);
                    lemma_set_bit(before.positive, i, j);
                    lemma_set_bit(before.continue_mask, i, j);
                }
            }
            i = i + 1;
        }
        assert(votes@.take(i as int) =~= polled(votes@));
        result
    }

    fn directive(self) -> (directive: FleetDirective)
        ensures
            forall|votes: Seq<DroneVote>|
                votes.len() <= 32 && #[trigger] self.records(votes) ==> directive
                    == ballot_outcome(votes),
    {
        let n_active: u32 = count_ones(self.active);
        let n_continue: u32 = count_ones(self.continue_mask);
        let n_abort: u32 = count_ones(self.active & !self.positive);
        let n_regroup: u32 = count_ones(self.positive & !self.continue_mask);
        proof {
            assert forall|votes: Seq<DroneVote>|
                votes.len() <= 32 && #[trigger] self.records(votes) implies {
                &&& n_active == votes.len()
                &&& n_continue == tally(votes, DroneVote::ContinueMission)
                &&& n_abort == tally(votes, DroneVote::AbortReturn)
                &&& n_regroup == tally(votes, DroneVote::Regroup)
            } by {
                self.lemma_counts(votes);
            }
        }
        // Abort wins at a third of the drones: safety first.
        if n_abort * 3 >= n_active {
            FleetDirective::AbortReturn
        } else if n_regroup > n_continue {
            FleetDirective::Regroup
        } else {
            FleetDirective::ContinueMission
        }
    }

    proof fn lemma_counts(self, votes: Seq<DroneVote>)
        requires
            votes.len() <= 32,
            self.records(votes),
        ensures
            ones(self.active, 32) == votes.len(),
            ones(self.continue_mask, 32) == tally(votes, DroneVote::ContinueMission),
            ones(self.active & !self.positive, 32) == tally(votes, DroneVote::AbortReturn),
            ones(self.positive & !self.continue_mask, 32) == tally(votes, DroneVote::Regroup),
    {
        let aborts = self.active & !self.positive;
        let regroups = self.positive & !self.continue_mask;
        assert forall|i: u32| i < 32 implies #[trigger] bit(aborts, i) == (i < votes.len()
            && votes[i as int] == DroneVote::AbortReturn) by {
            assert(self.records_thread(votes, i));
            lemma_bit_of_difference(self.active, self.positive, i);
        }
        assert forall|i: u32| i < 32 implies #[trigger] bit(regroups, i) == (i < votes.len()
            && votes[i as int] == DroneVote::Regroup) by {
            assert(self.records_thread(votes, i));
            lemma_bit_of_difference(self.positive, self.continue_mask, i);
        }
        assert forall|i: u32| i < 32 implies #[trigger] bit(self.continue_mask, i) == (i
            < votes.len() && votes[i as int] == DroneVote::ContinueMission) by {
            assert(self.records_thread(votes, i));
        }
        assert forall|i: u32| i < 32 implies #[trigger] bit(self.active, i) == (i < votes.len()) by {
            assert(self.records_thread(votes, i));
        }
        lemma_ones_of_prefix(self.active, votes.len(), 32);
        lemma_ones_is_tally(aborts, votes, DroneVote::AbortReturn, 32);
        lemma_ones_is_tally(regroups, votes, DroneVote::Regroup, 32);
        lemma_ones_is_tally(self.continue_mask, votes, DroneVote::ContinueMission, 32);
        assert(votes.take(votes.len() as int) =~= votes);
    }
}

/// Simulated cycles per ballot: 8 to set up and 4 for each of two passes.
pub const BALLOT_CYCLES: u64 = 16;

/// A warp of up to 32 drones voting on a fleet directive.
#[derive(Debug)]
pub struct DroneWarp {
    pub warp_id: u32,
    /// One vote per thread.
    pub votes: Vec<DroneVote>,
    pub last_directive: Option<FleetDirective>,
    /// Simulated cycles spent on ballots.
    pub cycles: u64,
}

impl DroneWarp {
    /// A warp of `size` threads, 32 at most, all voting to continue.
    pub fn new(warp_id: u32, size: usize) -> (warp: Self)
        ensures
            warp.warp_id == warp_id,
            warp.votes@ == Seq::new(
                if size <= 32 {
                    size as nat
                } else {
                    32
                },
                |i: int| DroneVote::ContinueMission,
            ),
            warp.last_directive is None,
            warp.cycles == 0,
    {
        let n: usize = if size <= 32 { size } else { 32 };
        let mut votes: Vec<DroneVote> = Vec::new();
        let mut i: usize = 0;
        while i < n
            invariant
                i <= n,
                votes@ == Seq::new(i as nat, |k: int| DroneVote::ContinueMission),
            decreases n - i,
        {
            votes.push(DroneVote::ContinueMission);
            i = i + 1;
            assert(votes@ =~= Seq::new(i as nat, |k: int| DroneVote::ContinueMission));
        }
        DroneWarp { warp_id, votes, last_directive: None, cycles: 0 }
    }

    /// Sets one thread's vote; threads that do not exist have none.
    pub fn set_vote(&mut self, thread: usize, vote: DroneVote)
        ensures
            final(self).votes@ == (if thread < old(self).votes@.len() {
                old(self).votes@.update(thread as int, vote)
            } else {
                old(self).votes@
            }),
            final(self).warp_id == old(self).warp_id,
            final(self).last_directive == old(self).last_directive,
            final(self).cycles == old(self).cycles,
    {
        if thread < self.votes.len() {
            self.votes.set(thread, vote);
        }
    }

    /// Runs one ballot.
    pub fn execute_ballot(&mut self) -> (directive: FleetDirective)
        requires
            old(self).cycles + BALLOT_CYCLES <= u64::MAX,
        ensures
            directive == ballot_outcome(polled(old(self).votes@)),
            ({
                let n: int = if old(self).votes@.len() <= 32 {
                    old(self).votes@.len() as int
                } else {
                    32
                };
                let votes = old(self).votes@.take(n).to_multiset();
                let abort = 3 * votes.count(DroneVote::AbortReturn) >= n;
                let more_regroup = votes.count(DroneVote::Regroup) > votes.count(
                    DroneVote::ContinueMission,
                );
                &&& directive == FleetDirective::AbortReturn <==> abort
                &&& directive == FleetDirective::Regroup <==> !abort && more_regroup
                &&& directive == FleetDirective::ContinueMission <==> !abort && !more_regroup
            }),
            final(self).last_directive == Some(directive),
            final(self).cycles == old(self).cycles + BALLOT_CYCLES,
            final(self).votes@ == old(self).votes@,
            final(self).warp_id == old(self).warp_id,
    {
        self.cycles = self.cycles + BALLOT_CYCLES;
        let result = BallotResult::collect(self.votes.as_slice());
        let directive = result.directive();
        self.last_directive = Some(directive);
        proof {
            ballot_follows_the_counts(polled(self.votes@));
            late_votes_are_ignored(self.votes@, self.votes@);
            assert(self.votes@.take(self.votes@.len() as int) =~= self.votes@);
        }
        directive
    }
}

proof fn lemma_tally_is_multiset_count(votes: Seq<DroneVote>, vote: DroneVote)
    ensures
        tally(votes, vote) == votes.to_multiset().count(vote),
    decreases votes.len(),
{
    broadcast use vstd::seq_lib::group_to_multiset_ensures;

    if votes.len() > 0 {
        lemma_tally_is_multiset_count(votes.drop_last(), vote);
        assert(votes =~= votes.drop_last().push(votes.last()));
    }
}

proof fn lemma_tally_after_update(
    votes: Seq<DroneVote>,
    thread: int,
    cast: DroneVote,
    vote: DroneVote,
)
    requires
        0 <= thread < votes.len(),
    ensures
        tally(votes.update(thread, cast), vote) + (if votes[thread] == vote {
            1nat
        } else {
            0
        }) == tally(votes, vote) + (if cast == vote {
            1nat
        } else {
            0
        }),
    decreases votes.len(),
{
    let changed = votes.update(thread, cast);
    if thread == votes.len() - 1 {
        assert(changed.drop_last() =~= votes.drop_last());
    } else {
        assert(changed.drop_last() =~= votes.drop_last().update(thread, cast));
        lemma_tally_after_update(votes.drop_last(), thread, cast, vote);
    }
}

/// Every drone's vote is counted once.
pub proof fn tallies_partition_the_votes(votes: Seq<DroneVote>)
    ensures
        tally(votes, DroneVote::ContinueMission) + tally(votes, DroneVote::Regroup) + tally(
            votes,
            DroneVote::AbortReturn,
        ) == votes.len(),
    decreases votes.len(),
{
    if votes.len() > 0 {
        tallies_partition_the_votes(votes.drop_last());
    }
}

/// A ballot does not depend on which drone casts which vote.
pub proof fn ballot_ignores_order(left: Seq<DroneVote>, right: Seq<DroneVote>)
    requires
        left.to_multiset() == right.to_multiset(),
    ensures
        ballot_outcome(left) == ballot_outcome(right),
{
    lemma_tally_is_multiset_count(left, DroneVote::ContinueMission);
    lemma_tally_is_multiset_count(left, DroneVote::Regroup);
    lemma_tally_is_multiset_count(left, DroneVote::AbortReturn);
    lemma_tally_is_multiset_count(right, DroneVote::ContinueMission);
    lemma_tally_is_multiset_count(right, DroneVote::Regroup);
    lemma_tally_is_multiset_count(right, DroneVote::AbortReturn);
    tallies_partition_the_votes(left);
    tallies_partition_the_votes(right);
}

/// A fleet that agrees gets what it votes for.
pub proof fn unanimous_ballot_is_followed(votes: Seq<DroneVote>, vote: DroneVote)
    requires
        votes.len() > 0,
        forall|i: int| 0 <= i < votes.len() ==> #[trigger] votes[i] == vote,
    ensures
        ballot_outcome(votes) == (match vote {
            DroneVote::ContinueMission => FleetDirective::ContinueMission,
            DroneVote::Regroup => FleetDirective::Regroup,
            DroneVote::AbortReturn => FleetDirective::AbortReturn,
        }),
{
    lemma_unanimous_tally(votes, vote);
    tallies_partition_the_votes(votes);
}

proof fn lemma_unanimous_tally(votes: Seq<DroneVote>, vote: DroneVote)
    requires
        forall|i: int| 0 <= i < votes.len() ==> #[trigger] votes[i] == vote,
    ensures
        tally(votes, vote) == votes.len(),
    decreases votes.len(),
{
    if votes.len() > 0 {
        assert forall|i: int| 0 <= i < votes.drop_last().len() implies #[trigger]
        votes.drop_last()[i] == vote by {
            assert(votes[i] == vote);
        }
        lemma_unanimous_tally(votes.drop_last(), vote);
        assert(votes[votes.len() - 1] == vote);
    }
}

/// One more vote to abort never lifts an abort.
pub proof fn more_abort_votes_keep_an_abort(votes: Seq<DroneVote>, thread: int)
    requires
        0 <= thread < votes.len(),
        ballot_outcome(votes) == FleetDirective::AbortReturn,
    ensures
        ballot_outcome(votes.update(thread, DroneVote::AbortReturn))
            == FleetDirective::AbortReturn,
{
    lemma_tally_after_update(votes, thread, DroneVote::AbortReturn, DroneVote::AbortReturn);
}

/// What a ballot gives, by the numbers of votes: an abort exactly where the votes for it
/// make up at least a third, otherwise a regroup exactly where it has more votes than going
/// on, otherwise going on.
pub proof fn ballot_follows_the_counts(votes: Seq<DroneVote>)
    ensures
        ({
            let counts = votes.to_multiset();
            let abort = 3 * counts.count(DroneVote::AbortReturn) >= votes.len();
            let more_regroup = counts.count(DroneVote::Regroup) > counts.count(
                DroneVote::ContinueMission,
            );
            &&& ballot_outcome(votes) == FleetDirective::AbortReturn <==> abort
            &&& ballot_outcome(votes) == FleetDirective::Regroup <==> !abort && more_regroup
            &&& ballot_outcome(votes) == FleetDirective::ContinueMission <==> !abort
                && !more_regroup
        }),
{
    lemma_tally_is_multiset_count(votes, DroneVote::ContinueMission);
    lemma_tally_is_multiset_count(votes, DroneVote::Regroup);
    lemma_tally_is_multiset_count(votes, DroneVote::AbortReturn);
}

/// Below a third, votes to abort decide nothing: two ballots without an abort that agree on
/// the votes to regroup and to go on have the same outcome, however many abort.
pub proof fn few_abort_votes_decide_nothing(left: Seq<DroneVote>, right: Seq<DroneVote>)
    requires
        3 * left.to_multiset().count(DroneVote::AbortReturn) < left.len(),
        3 * right.to_multiset().count(DroneVote::AbortReturn) < right.len(),
        left.to_multiset().count(DroneVote::Regroup) == right.to_multiset().count(
            DroneVote::Regroup,
        ),
        left.to_multiset().count(DroneVote::ContinueMission) == right.to_multiset().count(
            DroneVote::ContinueMission,
        ),
    ensures
        ballot_outcome(left) == ballot_outcome(right),
        ballot_outcome(left) != FleetDirective::AbortReturn,
{
    ballot_follows_the_counts(left);
    ballot_follows_the_counts(right);
}

/// A ballot polls the first 32 votes, all of them where there are no more, and votes behind
/// these change nothing.
pub proof fn late_votes_are_ignored(left: Seq<DroneVote>, right: Seq<DroneVote>)
    requires
        left.len() >= 32 && right.len() >= 32 || left.len() == right.len(),
        forall|i: int| 0 <= i < 32 && i < left.len() ==> #[trigger] left[i] == right[i],
    ensures
        left.len() <= 32 ==> polled(left) == left,
        left.len() >= 32 ==> polled(left) == left.take(32),
        polled(left) == polled(right),
{
    assert(left.len() == 32 ==> left.take(32) =~= left);
    assert(left.len() <= 32 ==> left.take(left.len() as int) =~= left);
    assert(polled(left) =~= polled(right));
}

/// A tally is the number of threads that cast the vote.
pub proof fn tallies_count_threads(votes: Seq<DroneVote>, vote: DroneVote)
    ensures
        tally(votes, vote) == Set::new(|i: int| 0 <= i < votes.len() && votes[i] == vote).len(),
        Set::new(|i: int| 0 <= i < votes.len() && votes[i] == vote).finite(),
    decreases votes.len(),
{
    let threads = Set::new(|i: int| 0 <= i < votes.len() && votes[i] == vote);
    if votes.len() == 0 {
        assert(threads =~= Set::empty());
    } else {
        let rest = votes.drop_last();
        let fewer = Set::new(|i: int| 0 <= i < rest.len() && rest[i] == vote);
        tallies_count_threads(rest, vote);
        if votes.last() == vote {
            assert(threads =~= fewer.insert(votes.len() - 1));
        } else {
            assert(threads =~= fewer);
        }
    }
}

} // verus!
