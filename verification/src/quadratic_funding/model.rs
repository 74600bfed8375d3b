//! The operations of quadratic funding in the model: what each one requires of the stored
//! entries, what it leaves behind, and what it asks of the host.
use super::{
    sqrt_scaled, Contribution, FundingRound, QFError, QFEvent, QFState, QFView, RoundStatus,
};
use crate::address::Address;
use crate::amounts::{clamped, sum};
use crate::invocation::{Action, Transfer};
use crate::shares::{paid, settled, share};
use vstd::prelude::*;

verus! {

impl QFState {
    /// The id that the next round gets.
    pub open spec fn next_id(self) -> u64 {
        match self.round_ctr {
            Some(id) => id,
            None => 0,
        }
    }

    /// The projects of the round, in the order of their first contribution.
    pub open spec fn projects_of(self, round_id: u64) -> Seq<Address> {
        if self.projects.contains_key(round_id) {
            self.projects[round_id]
        } else {
            Seq::empty()
        }
    }

    /// Those who contributed to the project in the round, in order.
    pub open spec fn contributors_of(self, round_id: u64, project: Address) -> Seq<Address> {
        if self.contributors.contains_key((round_id, project)) {
            self.contributors[(round_id, project)]
        } else {
            Seq::empty()
        }
    }

    /// The sum of the scaled square roots of the contributions to the project in the round.
    pub open spec fn sqrt_sum_of(self, round_id: u64, project: Address) -> int {
        if self.sqrt_sums.contains_key((round_id, project)) {
            self.sqrt_sums[(round_id, project)] as int
        } else {
            0
        }
    }

    /// The weight of the project in the round.
    pub open spec fn weight_of(self, round_id: u64, project: Address) -> int {
        weight(self.sqrt_sum_of(round_id, project))
    }

    /// The weights of the round's projects, in the order of the projects.
    pub open spec fn weights_of(self, round_id: u64) -> Seq<int> {
        self.projects_of(round_id).map_values(|p: Address| self.weight_of(round_id, p))
    }
}

/// The weight that a sum of scaled square roots gives: its square, in units of `1 / PRECISION²`.
pub open spec fn weight(sqrt_sum: int) -> int {
    sqrt_sum * sqrt_sum
}

/// What a project of the given weight is due of the matching pool.
pub open spec fn match_due(pool: int, weight: int, total: int) -> int {
    if total > 0 {
        share(pool, weight, total)
    } else {
        0
    }
}

/// What all projects but the last are due.
pub open spec fn match_dues(pool: int, weights: Seq<int>) -> Seq<int> {
    weights.drop_last().map_values(|w: int| match_due(pool, w, sum(weights)))
}

/// How the matching pool is split among projects of the given weights: in proportion to the
/// weights, where the last project also gets what rounding leaves over.
pub open spec fn match_amounts(pool: int, weights: Seq<int>) -> Seq<int> {
    if weights.len() == 0 {
        Seq::empty()
    } else {
        settled(pool, match_dues(pool, weights))
    }
}

/// The lists that a contribution extends are not full.
pub open spec fn contribution_in_range(s: QFState, round_id: u64, project: Address) -> bool {
    &&& s.projects_of(round_id).contains(project) || s.projects_of(round_id).len() < u32::MAX
    &&& s.contributors_of(round_id, project).len() < u32::MAX
}

/// There is a pool to split.
pub open spec fn distribution_in_range(s: QFState, round_id: u64) -> bool {
    0 < s.rounds[round_id].matching_pool
}

/// The contributions of the given contributors to the project, paid back out of the contract in
/// order.
pub open spec fn refunds(
    s: QFState,
    contract: Address,
    token: Address,
    round_id: u64,
    project: Address,
    contributors: Seq<Address>,
) -> Seq<Action<QFEvent>>
    decreases contributors.len(),
{
    if contributors.len() == 0 {
        Seq::empty()
    } else {
        let earlier = refunds(s, contract, token, round_id, project, contributors.drop_last());
        let to = contributors.last();
        let key = (round_id, project, to);
        if s.contributions.contains_key(key) {
            let amount = s.contributions[key].amount;
            earlier.push(Action::Transfer(Transfer { token, from: contract, to, amount }))
        } else {
            earlier
        }
    }
}

/// What the distribution does for one project: it pays the match, returns the contributions, and
/// publishes the match.
pub open spec fn project_payout(
    s: QFState,
    contract: Address,
    token: Address,
    round_id: u64,
    project: Address,
    amount: int,
) -> Seq<Action<QFEvent>> {
    let match_amount = amount as i128;
    let matched = if amount > 0 {
        seq![
            Action::Transfer(
                Transfer { token, from: contract, to: project, amount: match_amount },
            ),
        ]
    } else {
        Seq::empty()
    };
    let contributors = s.contributors_of(round_id, project);
    let returned = refunds(s, contract, token, round_id, project, contributors);
    (matched + returned).push(
        Action::Publish(QFEvent::Distributed { round_id, project, match_amount }),
    )
}

/// What the distribution does for the projects, one after the other.
pub open spec fn payouts(
    s: QFState,
    contract: Address,
    token: Address,
    round_id: u64,
    projects: Seq<Address>,
    amounts: Seq<int>,
) -> Seq<Action<QFEvent>>
    decreases projects.len(),
{
    if projects.len() == 0 {
        Seq::empty()
    } else {
        payouts(s, contract, token, round_id, projects.drop_last(), amounts.drop_last())
            + project_payout(s, contract, token, round_id, projects.last(), amounts.last())
    }
}

/// Opening a round.
pub open spec fn create_round_step(
    env: QFView,
    admin: Address,
    token: Address,
    matching_pool: i128,
    duration_seconds: u64,
) -> Result<(QFView, u64), QFError> {
    if matching_pool <= 0 || duration_seconds == 0 {
        Err(QFError::InvalidAmount)
    } else {
        let round_id = env.storage.next_id();
        let end = env.timestamp + duration_seconds;
        let round = FundingRound {
            round_id,
            admin,
            token,
            matching_pool,
            start_time: env.timestamp,
            end_time: if end > u64::MAX {
                u64::MAX
            } else {
                end as u64
            },
            status: RoundStatus::Active,
            total_contributions: 0,
        };
        let storage = QFState {
            round_ctr: Some((round_id + 1) as u64),
            rounds: env.storage.rounds.insert(round_id, round),
            ..env.storage
        };
        let deposit = Transfer { token, from: admin, to: env.contract, amount: matching_pool };
        let event = QFEvent::New { round_id, admin, token, matching_pool };
        Ok(
            (
                env.leaving(storage, seq![Action::Transfer(deposit), Action::Publish(event)]),
                round_id,
            ),
        )
    }
}

/// Contributing to a project.
pub open spec fn contribute_step(
    env: QFView,
    contributor: Address,
    round_id: u64,
    project: Address,
    amount: i128,
) -> Result<(QFView, ()), QFError> {
    let s = env.storage;
    let round = s.rounds[round_id];
    if amount <= 0 {
        Err(QFError::InvalidAmount)
    } else if !s.rounds.contains_key(round_id) {
        Err(QFError::RoundNotFound)
    } else if round.status != RoundStatus::Active {
        Err(QFError::RoundNotActive)
    } else if env.timestamp > round.end_time {
        Err(QFError::RoundEnded)
    } else if s.contributions.contains_key((round_id, project, contributor)) {
        Err(QFError::AlreadyContributed)
    } else {
        let projects = s.projects_of(round_id);
        let storage = QFState {
            projects: if projects.contains(project) {
                s.projects
            } else {
                s.projects.insert(round_id, projects.push(project))
            },
            contributors: s.contributors.insert(
                (round_id, project),
                s.contributors_of(round_id, project).push(contributor),
            ),
            sqrt_sums: s.sqrt_sums.insert(
                (round_id, project),
                clamped(
                    s.sqrt_sum_of(round_id, project) + sqrt_scaled(amount as int),
                ) as i128,
            ),
            contributions: s.contributions.insert(
                (round_id, project, contributor),
                Contribution { contributor, project, amount, round_id },
            ),
            rounds: s.rounds.insert(
                round_id,
                FundingRound {
                    total_contributions: clamped(round.total_contributions + amount) as i128,
                    ..round
                },
            ),
            ..s
        };
        let deposit = Transfer {
            token: round.token,
            from: contributor,
            to: env.contract,
            amount,
        };
        let event = QFEvent::Contributed { round_id, contributor, project, amount };
        Ok((env.leaving(storage, seq![Action::Transfer(deposit), Action::Publish(event)]), ()))
    }
}

/// Closing a round.
pub open spec fn finalize_round_step(env: QFView, admin: Address, round_id: u64) -> Result<
    (QFView, ()),
    QFError,
> {
    let round = env.storage.rounds[round_id];
    if !env.storage.rounds.contains_key(round_id) {
        Err(QFError::RoundNotFound)
    } else if round.admin != admin {
        Err(QFError::Unauthorized)
    } else if round.status != RoundStatus::Active {
        Err(QFError::RoundNotActive)
    } else if env.timestamp < round.end_time {
        Err(QFError::RoundNotEnded)
    } else {
        let storage = QFState {
            rounds: env.storage.rounds.insert(
                round_id,
                FundingRound { status: RoundStatus::Finalized, ..round },
            ),
            ..env.storage
        };
        Ok((env.leaving(storage, seq![Action::Publish(QFEvent::Finalized { round_id })]), ()))
    }
}

/// Paying out a round.
pub open spec fn distribute_matching_step(env: QFView, admin: Address, round_id: u64) -> Result<
    (QFView, ()),
    QFError,
> {
    let s = env.storage;
    let round = s.rounds[round_id];
    if !s.rounds.contains_key(round_id) {
        Err(QFError::RoundNotFound)
    } else if round.admin != admin {
        Err(QFError::Unauthorized)
    } else if round.status != RoundStatus::Finalized {
        Err(QFError::RoundNotFinalized)
    } else {
        let amounts = match_amounts(round.matching_pool as int, s.weights_of(round_id));
        let storage = QFState {
            rounds: s.rounds.insert(
                round_id,
                FundingRound { status: RoundStatus::Distributed, ..round },
            ),
            ..s
        };
        let projects = s.projects_of(round_id);
        let done = QFEvent::Done { round_id, distributed: paid(amounts) as i128 };
        Ok(
            (
                env.leaving(
                    storage,
                    payouts(s, env.contract, round.token, round_id, projects, amounts).push(
                        Action::Publish(done),
                    ),
                ),
                (),
            ),
        )
    }
}

/// What the project would be matched with if the round were paid out now, but for what rounding
/// leaves over.
pub open spec fn match_estimate(s: QFState, round_id: u64, project: Address) -> int {
    let total = sum(s.weights_of(round_id));
    if !s.rounds.contains_key(round_id) || total == 0 || !s.projects_of(round_id).contains(
        project,
    ) {
        0
    } else {
        share(s.rounds[round_id].matching_pool as int, s.weight_of(round_id, project), total)
    }
}

/// Where there is something to estimate, there is a pool to split.
pub open spec fn estimate_in_range(s: QFState, round_id: u64, project: Address) -> bool {
    s.rounds.contains_key(round_id) && sum(s.weights_of(round_id)) != 0 && s.projects_of(
        round_id,
    ).contains(project) ==> 0 < s.rounds[round_id].matching_pool
}

} // verus!
