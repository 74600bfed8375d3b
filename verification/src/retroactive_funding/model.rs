//! The operations of retroactive funding in the model: what each one requires of the stored
//! entries, what it leaves behind, and what it asks of the host.
use super::{
    EvalCriteria, ProjectRecord, RFError, RFEvent, RFState, RFView, RetroRound, RoundStatus,
};
use crate::address::Address;
use crate::amounts::{clamped, sum};
use crate::invocation::{Action, Transfer};
use crate::shares::{paid, settled, share};
use vstd::prelude::*;

verus! {

impl RFState {
    /// The id that the next round gets.
    pub open spec fn next_id(self) -> u64 {
        match self.round_ctr {
            Some(id) => id,
            None => 0,
        }
    }

    /// The projects nominated in the round, in order.
    pub open spec fn projects_of(self, round_id: u64) -> Seq<Address> {
        if self.projects.contains_key(round_id) {
            self.projects[round_id]
        } else {
            Seq::empty()
        }
    }

    /// All votes cast in the round.
    pub open spec fn total_votes_of(self, round_id: u64) -> int {
        if self.total_votes.contains_key(round_id) {
            self.total_votes[round_id] as int
        } else {
            0
        }
    }

    /// The votes of the round's projects, in the order of the projects.
    pub open spec fn votes_of(self, round_id: u64) -> Seq<int> {
        self.projects_of(round_id).map_values(|p: Address| self.records[(round_id, p)].votes as int)
    }

    /// Whether each project of the round has its record.
    pub open spec fn all_recorded(self, round_id: u64) -> bool {
        forall|i: int|
            0 <= i < self.projects_of(round_id).len() ==> self.records.contains_key(
                (round_id, #[trigger] self.projects_of(round_id)[i]),
            )
    }
}

/// Whether a project with these metrics meets the criteria.
pub open spec fn eligible(criteria: EvalCriteria, tip_volume: i128, unique_tippers: u32) -> bool {
    &&& tip_volume >= criteria.min_tip_volume
    &&& unique_tippers >= criteria.min_unique_tippers
}

/// What one of `count` projects is due of the reward pool: its part by votes, or an equal part
/// where nobody voted.
pub open spec fn reward_due(pool: int, votes: int, total: int, count: int) -> int {
    if total > 0 {
        share(pool, votes, total)
    } else {
        pool / count
    }
}

/// What all projects but the last are due.
pub open spec fn reward_dues(pool: int, votes: Seq<int>, total: int) -> Seq<int> {
    votes.drop_last().map_values(|v: int| reward_due(pool, v, total, votes.len() as int))
}

/// How the reward pool is split among projects with the given votes: in proportion to the votes,
/// or equally where nobody voted. The last project also gets what rounding leaves over.
pub open spec fn rewards(pool: int, votes: Seq<int>, total: int) -> Seq<int> {
    if votes.len() == 0 {
        Seq::empty()
    } else {
        settled(pool, reward_dues(pool, votes, total))
    }
}

/// The numbers that the split computes are of votes that are not negative, and fit in an `i128`.
pub open spec fn split_in_range(pool: int, votes: Seq<int>, total: int) -> bool {
    &&& total > 0 ==> forall|i: int|
        0 <= i < votes.len() - 1 ==> 0 <= #[trigger] votes[i] && pool * votes[i] <= i128::MAX
    &&& votes.len() > 0 ==> sum(reward_dues(pool, votes, total)) <= i128::MAX
}

/// There is a pool to split, and the numbers that the split computes are in range.
pub open spec fn distribution_in_range(s: RFState, round_id: u64) -> bool {
    let pool = s.rounds[round_id].reward_pool as int;
    0 < pool && split_in_range(pool, s.votes_of(round_id), s.total_votes_of(round_id))
}

/// The records after the projects have been given their rewards.
pub open spec fn rewarded(
    records: Map<(u64, Address), ProjectRecord>,
    round_id: u64,
    projects: Seq<Address>,
    amounts: Seq<int>,
) -> Map<(u64, Address), ProjectRecord>
    decreases projects.len(),
{
    if projects.len() == 0 {
        records
    } else {
        let earlier = rewarded(records, round_id, projects.drop_last(), amounts.drop_last());
        let key = (round_id, projects.last());
        earlier.insert(key, ProjectRecord { reward: amounts.last() as i128, ..earlier[key] })
    }
}

/// What the distribution does for one project: it pays the reward and publishes it.
pub open spec fn project_payout(
    contract: Address,
    token: Address,
    round_id: u64,
    project: Address,
    votes: i128,
    amount: int,
) -> Seq<Action<RFEvent>> {
    let reward = amount as i128;
    let event = RFEvent::Rewarded { round_id, project, votes, reward };
    if amount > 0 {
        let payment = Transfer { token, from: contract, to: project, amount: reward };
        seq![Action::Transfer(payment), Action::Publish(event)]
    } else {
        seq![Action::Publish(event)]
    }
}

/// What the distribution does for the projects, one after the other.
pub open spec fn payouts(
    contract: Address,
    token: Address,
    round_id: u64,
    projects: Seq<Address>,
    votes: Seq<int>,
    amounts: Seq<int>,
) -> Seq<Action<RFEvent>>
    decreases projects.len(),
{
    if projects.len() == 0 {
        Seq::empty()
    } else {
        payouts(
            contract,
            token,
            round_id,
            projects.drop_last(),
            votes.drop_last(),
            amounts.drop_last(),
        ) + project_payout(
            contract,
            token,
            round_id,
            projects.last(),
            votes.last() as i128,
            amounts.last(),
        )
    }
}

/// Opening a round.
pub open spec fn create_round_step(
    env: RFView,
    admin: Address,
    token: Address,
    reward_pool: i128,
    criteria: EvalCriteria,
    voting_start: u64,
    voting_end: u64,
) -> Result<(RFView, u64), RFError> {
    if reward_pool <= 0 || voting_end <= voting_start {
        Err(RFError::InvalidAmount)
    } else {
        let round_id = env.storage.next_id();
        let round = RetroRound {
            round_id,
            admin,
            token,
            reward_pool,
            criteria,
            voting_start,
            voting_end,
            status: RoundStatus::Nominations,
        };
        let storage = RFState {
            round_ctr: Some((round_id + 1) as u64),
            rounds: env.storage.rounds.insert(round_id, round),
            ..env.storage
        };
        let deposit = Transfer { token, from: admin, to: env.contract, amount: reward_pool };
        let event = RFEvent::New { round_id, admin, token, reward_pool };
        Ok(
            (
                env.leaving(storage, seq![Action::Transfer(deposit), Action::Publish(event)]),
                round_id,
            ),
        )
    }
}

/// Nominating a project.
pub open spec fn nominate_project_step(
    env: RFView,
    round_id: u64,
    project: Address,
    tip_volume: i128,
    unique_tippers: u32,
    impact_description: String,
) -> Result<(RFView, ()), RFError> {
    let s = env.storage;
    let round = s.rounds[round_id];
    if !s.rounds.contains_key(round_id) {
        Err(RFError::RoundNotFound)
    } else if round.status != RoundStatus::Nominations {
        Err(RFError::InvalidStatus)
    } else if !eligible(round.criteria, tip_volume, unique_tippers) {
        Err(RFError::ProjectNotEligible)
    } else if s.records.contains_key((round_id, project)) {
        Err(RFError::ProjectAlreadyNominated)
    } else {
        let record = ProjectRecord {
            project,
            round_id,
            tip_volume,
            unique_tippers,
            impact_description,
            votes: 0,
            reward: 0,
        };
        let storage = RFState {
            records: s.records.insert((round_id, project), record),
            projects: s.projects.insert(round_id, s.projects_of(round_id).push(project)),
            ..s
        };
        let event = RFEvent::Nominated { round_id, project, tip_volume, unique_tippers };
        Ok((env.leaving(storage, seq![Action::Publish(event)]), ()))
    }
}

/// Opening the vote.
pub open spec fn open_voting_step(env: RFView, admin: Address, round_id: u64) -> Result<
    (RFView, ()),
    RFError,
> {
    let round = env.storage.rounds[round_id];
    if !env.storage.rounds.contains_key(round_id) {
        Err(RFError::RoundNotFound)
    } else if round.admin != admin {
        Err(RFError::Unauthorized)
    } else if round.status != RoundStatus::Nominations {
        Err(RFError::InvalidStatus)
    } else {
        let storage = RFState {
            rounds: env.storage.rounds.insert(
                round_id,
                RetroRound { status: RoundStatus::Voting, ..round },
            ),
            ..env.storage
        };
        Ok((env.leaving(storage, seq![Action::Publish(RFEvent::VotingOpened { round_id })]), ()))
    }
}

/// Voting for a project.
pub open spec fn cast_vote_step(
    env: RFView,
    voter: Address,
    round_id: u64,
    project: Address,
    weight: i128,
) -> Result<(RFView, ()), RFError> {
    let s = env.storage;
    let round = s.rounds[round_id];
    if weight <= 0 {
        Err(RFError::InvalidAmount)
    } else if !s.rounds.contains_key(round_id) {
        Err(RFError::RoundNotFound)
    } else if round.status != RoundStatus::Voting {
        Err(RFError::VotingNotOpen)
    } else if !(round.voting_start <= env.timestamp <= round.voting_end) {
        Err(RFError::VotingNotOpen)
    } else if s.voted.contains_key((round_id, voter)) {
        Err(RFError::AlreadyVoted)
    } else if !s.records.contains_key((round_id, project)) {
        Err(RFError::ProjectNotFound)
    } else {
        let record = s.records[(round_id, project)];
        let storage = RFState {
            voted: s.voted.insert((round_id, voter), true),
            records: s.records.insert(
                (round_id, project),
                ProjectRecord { votes: clamped(record.votes + weight) as i128, ..record },
            ),
            total_votes: s.total_votes.insert(
                round_id,
                clamped(s.total_votes_of(round_id) + weight) as i128,
            ),
            ..s
        };
        let event = RFEvent::VoteCast { round_id, voter, project, weight };
        Ok((env.leaving(storage, seq![Action::Publish(event)]), ()))
    }
}

/// Closing a round and paying it out.
pub open spec fn finalize_and_distribute_step(
    env: RFView,
    admin: Address,
    round_id: u64,
) -> Result<(RFView, ()), RFError> {
    let s = env.storage;
    let round = s.rounds[round_id];
    if !s.rounds.contains_key(round_id) {
        Err(RFError::RoundNotFound)
    } else if round.admin != admin {
        Err(RFError::Unauthorized)
    } else if round.status != RoundStatus::Voting {
        Err(RFError::InvalidStatus)
    } else if env.timestamp <= round.voting_end {
        Err(RFError::VotingNotEnded)
    } else if !s.all_recorded(round_id) {
        Err(RFError::ProjectNotFound)
    } else {
        let projects = s.projects_of(round_id);
        let votes = s.votes_of(round_id);
        let amounts = rewards(round.reward_pool as int, votes, s.total_votes_of(round_id));
        let storage = RFState {
            rounds: s.rounds.insert(
                round_id,
                RetroRound { status: RoundStatus::Finalized, ..round },
            ),
            records: rewarded(s.records, round_id, projects, amounts),
            ..s
        };
        let done = RFEvent::Done { round_id, distributed: paid(amounts) as i128 };
        Ok(
            (
                env.leaving(
                    storage,
                    payouts(env.contract, round.token, round_id, projects, votes, amounts).push(
                        Action::Publish(done),
                    ),
                ),
                (),
            ),
        )
    }
}

} // verus!
