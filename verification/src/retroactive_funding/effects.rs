//! What each operation of retroactive funding takes, what it refuses and why, and what it leaves
//! behind, in terms of its arguments and of the stored entries.
use super::laws::{lemma_listed_are_recorded, lemma_rewarded_elsewhere, Operation};
use super::model::{
    cast_vote_step, create_round_step, distribution_in_range, finalize_and_distribute_step,
    nominate_project_step, open_voting_step, payouts, project_payout, reward_dues, rewarded,
    rewards,
};
use super::payout_laws::{
    law_only_products_overflow, law_pool_is_paid_out, lemma_rewarded_at,
};
use super::{
    lemma_rewarded_keeps, EvalCriteria, ProjectRecord, RFError, RFEvent, RFState, RFView,
    RetroRound, RoundStatus,
};
use crate::address::Address;
use crate::amounts::{lemma_sum_bounds, sum};
use crate::invocation::{Action, Transfer};
use crate::shares::{lemma_settled_sum, paid};
use vstd::prelude::*;

verus! {

/// A round is opened whenever there is a pool and a window to vote in, and for no other reason
/// refused. It gets the next id and the terms that were asked for. The admin is asked for the pool,
/// the opening is published, and nothing else changes.
pub proof fn law_rounds_open(
    env: RFView,
    admin: Address,
    token: Address,
    reward_pool: i128,
    criteria: EvalCriteria,
    voting_start: u64,
    voting_end: u64,
)
    ensures
        ({
            let step = create_round_step(
                env,
                admin,
                token,
                reward_pool,
                criteria,
                voting_start,
                voting_end,
            );
            &&& step is Ok <==> 0 < reward_pool && voting_start < voting_end
            &&& step is Err ==> step->Err_0 == RFError::InvalidAmount
            &&& step is Ok ==> {
                let s = env.storage;
                let after = step->Ok_0.0;
                let id = step->Ok_0.1;
                let t = after.storage;
                let round = t.rounds[id];
                &&& s.round_ctr is None ==> id == 0
                &&& s.round_ctr is Some ==> id == s.round_ctr->0
                &&& id < u64::MAX ==> t.round_ctr == Some((id + 1) as u64)
                &&& t.rounds == s.rounds.insert(id, round)
                &&& round.round_id == id
                &&& round.admin == admin
                &&& round.token == token
                &&& round.reward_pool == reward_pool
                &&& round.criteria == criteria
                &&& round.voting_start == voting_start
                &&& round.voting_end == voting_end
                &&& round.status == RoundStatus::Nominations
                &&& t.records == s.records
                &&& t.projects == s.projects
                &&& t.total_votes == s.total_votes
                &&& t.voted == s.voted
                &&& after.contract == env.contract
                &&& after.timestamp == env.timestamp
                &&& after.actions == env.actions.push(
                    Action::Transfer(
                        Transfer { token, from: admin, to: env.contract, amount: reward_pool },
                    ),
                ).push(Action::Publish(RFEvent::New { round_id: id, admin, token, reward_pool }))
            }
        }),
{
    let step = create_round_step(
        env,
        admin,
        token,
        reward_pool,
        criteria,
        voting_start,
        voting_end,
    );
    if step is Ok {
        let id = step->Ok_0.1;
        assert(step->Ok_0.0.actions =~= env.actions.push(
            Action::Transfer(
                Transfer { token, from: admin, to: env.contract, amount: reward_pool },
            ),
        ).push(Action::Publish(RFEvent::New { round_id: id, admin, token, reward_pool })));
    }
}

/// A project is nominated if and only if the round takes nominations, the metrics reach the bounds
/// of its criteria, and the project is not nominated yet. Otherwise this is refused for the first
/// of these that fails. The project gets a record with the metrics, no votes and no reward, and
/// comes last in the list of the round; the nomination is published, and nothing else changes.
pub proof fn law_nominations_are_taken(
    env: RFView,
    round_id: u64,
    project: Address,
    tip_volume: i128,
    unique_tippers: u32,
    impact_description: String,
)
    ensures
        ({
            let s = env.storage;
            let step = nominate_project_step(
                env,
                round_id,
                project,
                tip_volume,
                unique_tippers,
                impact_description,
            );
            let stored = s.rounds.contains_key(round_id);
            let round = s.rounds[round_id];
            let open = round.status == RoundStatus::Nominations;
            let enough = round.criteria.min_tip_volume <= tip_volume
                && round.criteria.min_unique_tippers <= unique_tippers;
            let nominated = s.records.contains_key((round_id, project));
            let listed = if s.projects.contains_key(round_id) {
                s.projects[round_id]
            } else {
                Seq::empty()
            };
            &&& step is Ok <==> stored && open && enough && !nominated
            &&& !stored ==> step == Err::<(RFView, ()), RFError>(RFError::RoundNotFound)
            &&& stored && !open ==> step == Err::<(RFView, ()), RFError>(RFError::InvalidStatus)
            &&& stored && open && !enough ==> step == Err::<(RFView, ()), RFError>(
                RFError::ProjectNotEligible,
            )
            &&& stored && open && enough && nominated ==> step == Err::<(RFView, ()), RFError>(
                RFError::ProjectAlreadyNominated,
            )
            &&& step is Ok ==> step->Ok_0.0 == (RFView {
                storage: RFState {
                    records: s.records.insert(
                        (round_id, project),
                        ProjectRecord {
                            project,
                            round_id,
                            tip_volume,
                            unique_tippers,
                            impact_description,
                            votes: 0,
                            reward: 0,
                        },
                    ),
                    projects: s.projects.insert(round_id, listed.push(project)),
                    ..s
                },
                actions: env.actions.push(
                    Action::Publish(
                        RFEvent::Nominated { round_id, project, tip_volume, unique_tippers },
                    ),
                ),
                ..env
            })
        }),
{
    let step = nominate_project_step(
        env,
        round_id,
        project,
        tip_volume,
        unique_tippers,
        impact_description,
    );
    if step is Ok {
        assert(step->Ok_0.0.actions =~= env.actions.push(
            Action::Publish(RFEvent::Nominated { round_id, project, tip_volume, unique_tippers }),
        ));
    }
}

/// The vote is opened if and only if the admin of the round asks for it and the round takes
/// nominations. Otherwise this is refused for the first of these that fails. Opening the vote
/// changes the status, publishes it, and does nothing else.
pub proof fn law_votes_open(env: RFView, admin: Address, round_id: u64)
    ensures
        ({
            let s = env.storage;
            let step = open_voting_step(env, admin, round_id);
            let stored = s.rounds.contains_key(round_id);
            let round = s.rounds[round_id];
            let open = round.status == RoundStatus::Nominations;
            &&& step is Ok <==> stored && round.admin == admin && open
            &&& !stored ==> step == Err::<(RFView, ()), RFError>(RFError::RoundNotFound)
            &&& stored && round.admin != admin ==> step == Err::<(RFView, ()), RFError>(
                RFError::Unauthorized,
            )
            &&& stored && round.admin == admin && !open ==> step == Err::<(RFView, ()), RFError>(
                RFError::InvalidStatus,
            )
            &&& step is Ok ==> step->Ok_0.0 == (RFView {
                storage: RFState {
                    rounds: s.rounds.insert(
                        round_id,
                        RetroRound { status: RoundStatus::Voting, ..round },
                    ),
                    ..s
                },
                actions: env.actions.push(Action::Publish(RFEvent::VotingOpened { round_id })),
                ..env
            })
        }),
{
    let step = open_voting_step(env, admin, round_id);
    if step is Ok {
        assert(step->Ok_0.0.actions =~= env.actions.push(
            Action::Publish(RFEvent::VotingOpened { round_id }),
        ));
    }
}

/// A vote is accepted if and only if its weight is positive, the vote of the round is open, the
/// time is within the window, ends included, the voter has not voted in the round, and the project
/// is nominated. Otherwise it is refused for the first of these that fails.
pub proof fn law_votes_are_accepted(
    env: RFView,
    voter: Address,
    round_id: u64,
    project: Address,
    weight: i128,
)
    ensures
        ({
            let s = env.storage;
            let step = cast_vote_step(env, voter, round_id, project, weight);
            let stored = s.rounds.contains_key(round_id);
            let round = s.rounds[round_id];
            let open = round.status == RoundStatus::Voting && round.voting_start <= env.timestamp
                && env.timestamp <= round.voting_end;
            let has_voted = s.voted.contains_key((round_id, voter));
            let nominated = s.records.contains_key((round_id, project));
            &&& step is Ok <==> 0 < weight && stored && open && !has_voted && nominated
            &&& weight <= 0 ==> step == Err::<(RFView, ()), RFError>(RFError::InvalidAmount)
            &&& 0 < weight && !stored ==> step == Err::<(RFView, ()), RFError>(
                RFError::RoundNotFound,
            )
            &&& 0 < weight && stored && !open ==> step == Err::<(RFView, ()), RFError>(
                RFError::VotingNotOpen,
            )
            &&& 0 < weight && stored && open && has_voted ==> step == Err::<(RFView, ()), RFError>(
                RFError::AlreadyVoted,
            )
            &&& 0 < weight && stored && open && !has_voted && !nominated ==> step == Err::<
                (RFView, ()),
                RFError,
            >(RFError::ProjectNotFound)
        }),
{
}

/// A vote that is accepted counts: the votes of the project and all votes of the round grow by its
/// weight, as far as an `i128` can tell, and it is noted that the voter has voted. The vote is
/// published, and nothing else changes.
pub proof fn law_votes_count(
    env: RFView,
    voter: Address,
    round_id: u64,
    project: Address,
    weight: i128,
)
    requires
        cast_vote_step(env, voter, round_id, project, weight) is Ok,
    ensures
        ({
            let s = env.storage;
            let after = cast_vote_step(env, voter, round_id, project, weight)->Ok_0.0;
            let t = after.storage;
            let before = s.records[(round_id, project)];
            let later = t.records[(round_id, project)];
            let votes = before.votes + weight;
            let total = weight + if s.total_votes.contains_key(round_id) {
                s.total_votes[round_id] as int
            } else {
                0
            };
            &&& t.records == s.records.insert((round_id, project), later)
            &&& later == (ProjectRecord { votes: later.votes, ..before })
            &&& votes <= i128::MAX ==> later.votes == votes
            &&& votes > i128::MAX ==> later.votes == i128::MAX
            &&& t.total_votes == s.total_votes.insert(round_id, t.total_votes[round_id])
            &&& total <= i128::MAX ==> t.total_votes[round_id] == total
            &&& total > i128::MAX ==> t.total_votes[round_id] == i128::MAX
            &&& t.voted == s.voted.insert((round_id, voter), true)
            &&& t.rounds == s.rounds
            &&& t.projects == s.projects
            &&& t.round_ctr == s.round_ctr
            &&& after.contract == env.contract
            &&& after.timestamp == env.timestamp
            &&& after.actions == env.actions.push(
                Action::Publish(RFEvent::VoteCast { round_id, voter, project, weight }),
            )
        }),
{
    let after = cast_vote_step(env, voter, round_id, project, weight)->Ok_0.0;
    assert(after.actions =~= env.actions.push(
        Action::Publish(RFEvent::VoteCast { round_id, voter, project, weight }),
    ));
}

/// A round is paid out if and only if its admin asks for it, its vote was opened and the window is
/// over, and each project that is listed has its record. Otherwise this is refused for the first of
/// these that fails. Of what is stored, the payout changes the status, and the rewards in the
/// records of the listed projects, and nothing else.
pub proof fn law_rounds_are_paid_out(env: RFView, admin: Address, round_id: u64)
    ensures
        ({
            let s = env.storage;
            let step = finalize_and_distribute_step(env, admin, round_id);
            let stored = s.rounds.contains_key(round_id);
            let round = s.rounds[round_id];
            let voting = round.status == RoundStatus::Voting;
            let over = round.voting_end < env.timestamp;
            let recorded = s.projects.contains_key(round_id) ==> forall|i: int|
                0 <= i < s.projects[round_id].len() ==> s.records.contains_key(
                    (round_id, #[trigger] s.projects[round_id][i]),
                );
            &&& step is Ok <==> stored && round.admin == admin && voting && over && recorded
            &&& !stored ==> step == Err::<(RFView, ()), RFError>(RFError::RoundNotFound)
            &&& stored && round.admin != admin ==> step == Err::<(RFView, ()), RFError>(
                RFError::Unauthorized,
            )
            &&& stored && round.admin == admin && !voting ==> step == Err::<(RFView, ()), RFError>(
                RFError::InvalidStatus,
            )
            &&& stored && round.admin == admin && voting && !over ==> step == Err::<
                (RFView, ()),
                RFError,
            >(RFError::VotingNotEnded)
            &&& stored && round.admin == admin && voting && over && !recorded ==> step == Err::<
                (RFView, ()),
                RFError,
            >(RFError::ProjectNotFound)
            &&& step is Ok ==> {
                let after = step->Ok_0.0;
                let t = after.storage;
                &&& after == (RFView {
                    storage: RFState {
                        rounds: s.rounds.insert(
                            round_id,
                            RetroRound { status: RoundStatus::Finalized, ..round },
                        ),
                        records: t.records,
                        ..s
                    },
                    actions: after.actions,
                    ..env
                })
                &&& t.records.dom() == s.records.dom()
                &&& forall|k: (u64, Address)| #[trigger]
                    s.records.contains_key(k) ==> t.records[k] == (ProjectRecord {
                        reward: t.records[k].reward,
                        ..s.records[k]
                    })
                &&& forall|k: (u64, Address)| #[trigger]
                    s.records.contains_key(k) && (k.0 != round_id || !s.projects.contains_key(
                        round_id,
                    ) || !s.projects[round_id].contains(k.1)) ==> t.records[k] == s.records[k]
            }
        }),
{
    let s = env.storage;
    let step = finalize_and_distribute_step(env, admin, round_id);
    if step is Ok {
        let projects = s.projects_of(round_id);
        let amounts = rewards(
            s.rounds[round_id].reward_pool as int,
            s.votes_of(round_id),
            s.total_votes_of(round_id),
        );
        let t = step->Ok_0.0.storage;
        lemma_rewarded_keeps(s.records, round_id, projects, amounts);
        lemma_rewarded_elsewhere(s.records, round_id, projects, amounts);
        assert forall|k: (u64, Address)| #[trigger]
            s.records.contains_key(k) && (k.0 != round_id || !s.projects.contains_key(round_id)
                || !s.projects[round_id].contains(k.1)) implies t.records[k] == s.records[k] by {
            assert(rewarded(s.records, round_id, projects, amounts)[(k.0, k.1)] == s.records[(
                k.0,
                k.1,
            )]);
        }
    }
}

/// Where the entries fit together and no project's share is too large to compute, the round can be
/// paid out.
pub proof fn law_rounds_can_be_split(s: RFState, round_id: u64)
    requires
        s.valid(),
        s.rounds.contains_key(round_id),
        s.projects.contains_key(round_id) ==> {
            let projects = s.projects[round_id];
            &&& projects.len() <= u32::MAX
            &&& forall|i: int|
                0 <= i < projects.len() - 1 ==> s.rounds[round_id].reward_pool * s.records[(
                    round_id,
                    #[trigger] projects[i],
                )].votes <= i128::MAX
        },
    ensures
        distribution_in_range(s, round_id),
{
    assert(s.round_valid(round_id));
    let votes = s.votes_of(round_id);
    assert forall|i: int| 0 <= i < votes.len() - 1 implies s.rounds[round_id].reward_pool
        * #[trigger] votes[i] <= i128::MAX by {
        let p = s.projects[round_id][i];
        assert(s.rounds[round_id].reward_pool * s.records[(round_id, p)].votes <= i128::MAX);
    }
    law_only_products_overflow(s, round_id);
}

/// Where the entries fit together, the calls that are in range include all but those for which no
/// id is left, and payouts in which the share of a project is too large to compute.
pub proof fn law_calls_out_of_range(env: RFView, operation: Operation)
    ensures
        ({
            let s = env.storage;
            match operation {
                Operation::CreateRound { .. } => operation.in_range(env) <==> s.round_ctr != Some(
                    u64::MAX,
                ),
                Operation::FinalizeAndDistribute { round_id, .. } => s.valid() && (
                s.projects.contains_key(round_id) ==> {
                    let projects = s.projects[round_id];
                    &&& projects.len() <= u32::MAX
                    &&& forall|i: int|
                        0 <= i < projects.len() - 1 ==> s.rounds[round_id].reward_pool * s.records[(
                            round_id,
                            #[trigger] projects[i],
                        )].votes <= i128::MAX
                }) ==> operation.in_range(env),
                _ => operation.in_range(env),
            }
        }),
{
    let s = env.storage;
    if let Operation::FinalizeAndDistribute { round_id, .. } = operation {
        if s.valid() && s.rounds.contains_key(round_id) && (s.projects.contains_key(round_id) ==> {
            let projects = s.projects[round_id];
            &&& projects.len() <= u32::MAX
            &&& forall|i: int|
                0 <= i < projects.len() - 1 ==> s.rounds[round_id].reward_pool * s.records[(
                    round_id,
                    #[trigger] projects[i],
                )].votes <= i128::MAX
        }) {
            law_rounds_can_be_split(s, round_id);
        }
    }
}

/// The amounts split the pool among projects with the given votes, out of all votes: they add up
/// to the pool, and each but the last is the exact part of its votes, rounded down, or an equal
/// part where nobody voted.
pub open spec fn is_split(pool: int, votes: Seq<int>, total: int, amounts: Seq<int>) -> bool {
    &&& amounts.len() == votes.len()
    &&& sum(amounts) == pool
    &&& forall|j: int|
        0 <= j < amounts.len() - 1 ==> if total > 0 {
            &&& #[trigger] amounts[j] * total <= pool * votes[j]
            &&& pool * votes[j] < (amounts[j] + 1) * total
        } else {
            &&& amounts[j] * amounts.len() <= pool
            &&& pool < (amounts[j] + 1) * amounts.len()
        }
}

/// There is only one way to split a pool by votes.
proof fn lemma_split_unique(pool: int, votes: Seq<int>, total: int, amounts: Seq<int>)
    requires
        0 < votes.len(),
        is_split(pool, votes, total, amounts),
    ensures
        amounts == rewards(pool, votes, total),
{
    let split = rewards(pool, votes, total);
    let n = votes.len() as int;
    lemma_settled_sum(pool, reward_dues(pool, votes, total));
    assert forall|j: int| 0 <= j < n - 1 implies #[trigger] amounts[j] == split[j] by {
        let a = amounts[j];
        let b = split[j];
        assert(votes.drop_last()[j] == votes[j]);
        if total > 0 {
            let product = pool * votes[j];
            assert(a == b) by (nonlinear_arith)
                requires
                    b == product / total,
                    a * total <= product,
                    product < (a + 1) * total,
                    0 < total,
            ;
        } else {
            assert(a == b) by (nonlinear_arith)
                requires
                    b == pool / n,
                    a * n <= pool,
                    pool < (a + 1) * n,
                    0 < n,
            ;
        }
    }
    assert(amounts.drop_last() =~= split.drop_last());
    assert(amounts[n - 1] == split[n - 1]);
    assert(amounts =~= split);
}

/// What is done for a project: it is paid its reward where there is one, and its votes and its
/// reward are published.
pub open spec fn project_actions(
    s: RFState,
    contract: Address,
    round_id: u64,
    project: Address,
    amount: int,
) -> Seq<Action<RFEvent>> {
    let payment = Action::<RFEvent>::Transfer(
        Transfer {
            token: s.rounds[round_id].token,
            from: contract,
            to: project,
            amount: amount as i128,
        },
    );
    let event = Action::Publish(
        RFEvent::Rewarded {
            round_id,
            project,
            votes: s.records[(round_id, project)].votes,
            reward: amount as i128,
        },
    );
    if amount > 0 {
        seq![payment, event]
    } else {
        seq![event]
    }
}

/// What is done for each of the projects.
pub open spec fn actions_by_project(
    s: RFState,
    contract: Address,
    round_id: u64,
    projects: Seq<Address>,
    amounts: Seq<int>,
) -> Seq<Seq<Action<RFEvent>>> {
    Seq::new(
        projects.len(),
        |j: int| project_actions(s, contract, round_id, projects[j], amounts[j]),
    )
}

/// A payout does what is to be done for one project after the other.
proof fn lemma_payouts_by_project(
    s: RFState,
    contract: Address,
    round_id: u64,
    projects: Seq<Address>,
    votes: Seq<int>,
    amounts: Seq<int>,
)
    requires
        projects.len() == votes.len() == amounts.len(),
        forall|j: int|
            0 <= j < projects.len() ==> #[trigger] votes[j] == s.records[(
                round_id,
                projects[j],
            )].votes,
    ensures
        payouts(contract, s.rounds[round_id].token, round_id, projects, votes, amounts)
            == actions_by_project(s, contract, round_id, projects, amounts).flatten_alt(),
    decreases projects.len(),
{
    let token = s.rounds[round_id].token;
    let blocks = actions_by_project(s, contract, round_id, projects, amounts);
    if projects.len() > 0 {
        let n = projects.len() as int;
        let rest = projects.drop_last();
        let less = amounts.drop_last();
        let fewer = votes.drop_last();
        assert forall|j: int| 0 <= j < rest.len() implies #[trigger] fewer[j] == s.records[(
            round_id,
            rest[j],
        )].votes by {
            assert(fewer[j] == votes[j] && rest[j] == projects[j]);
        }
        lemma_payouts_by_project(s, contract, round_id, rest, fewer, less);
        assert(votes[n - 1] == s.records[(round_id, projects[n - 1])].votes);
        assert(project_payout(
            contract,
            token,
            round_id,
            projects.last(),
            votes.last() as i128,
            amounts.last(),
        ) =~= project_actions(s, contract, round_id, projects.last(), amounts.last()));
        assert(blocks.drop_last() =~= actions_by_project(s, contract, round_id, rest, less));
        assert(blocks.last() == project_actions(
            s,
            contract,
            round_id,
            projects.last(),
            amounts.last(),
        ));
    }
}

/// All votes of the listed projects, as far as an `i128` can tell.
pub open spec fn votes_in_all(votes: Seq<int>) -> int {
    if sum(votes) <= i128::MAX {
        sum(votes)
    } else {
        i128::MAX as int
    }
}

/// The payout of a round gives each project its part of the pool by its own votes. With the
/// amounts that split the pool by the votes in the records of the projects, the actions that the
/// payout adds are, for one project after the other in the order of the round, the payment of its
/// amount and the event that tells its votes and its amount, and at the end the event that tells
/// what was distributed. The amount of each project is noted in its record as its reward. This
/// leaves out amounts that an `i128` cannot hold.
pub proof fn law_payout_splits_the_pool(
    env: RFView,
    admin: Address,
    round_id: u64,
    votes: Seq<int>,
    amounts: Seq<int>,
)
    requires
        env.storage.valid(),
        finalize_and_distribute_step(env, admin, round_id) is Ok,
        env.storage.projects.contains_key(round_id),
        0 < env.storage.projects[round_id].len(),
        votes.len() == env.storage.projects[round_id].len(),
        forall|j: int|
            0 <= j < votes.len() ==> #[trigger] votes[j] == env.storage.records[(
                round_id,
                env.storage.projects[round_id][j],
            )].votes,
        is_split(
            env.storage.rounds[round_id].reward_pool as int,
            votes,
            votes_in_all(votes),
            amounts,
        ),
        forall|j: int|
            0 <= j < amounts.len() ==> i128::MIN <= #[trigger] amounts[j] <= i128::MAX,
    ensures
        ({
            let s = env.storage;
            let pool = s.rounds[round_id].reward_pool;
            let projects = s.projects[round_id];
            let after = finalize_and_distribute_step(env, admin, round_id)->Ok_0.0;
            let done = after.actions.last();
            &&& after.actions.drop_last() == env.actions + actions_by_project(
                s,
                env.contract,
                round_id,
                projects,
                amounts,
            ).flatten()
            &&& 0 < after.actions.len()
            &&& done is Publish
            &&& done->Publish_0 is Done
            &&& done->Publish_0->Done_round_id == round_id
            &&& done->Publish_0->distributed == sum(
                amounts.map_values(
                    |a: int|
                        if a > 0 {
                            a
                        } else {
                            0
                        },
                ),
            ) as i128
            &&& sum(votes) <= i128::MAX ==> done->Publish_0->distributed == pool
            &&& forall|i: int|
                0 <= i < projects.len() ==> after.storage.records[(
                    round_id,
                    #[trigger] projects[i],
                )].reward == amounts[i]
            &&& sum(votes) <= i128::MAX ==> forall|i: int|
                0 <= i < amounts.len() ==> 0 <= #[trigger] amounts[i] <= pool
        }),
{
    let s = env.storage;
    let round = s.rounds[round_id];
    let projects = s.projects[round_id];
    let after = finalize_and_distribute_step(env, admin, round_id)->Ok_0.0;
    let blocks = actions_by_project(s, env.contract, round_id, projects, amounts);
    assert(s.round_valid(round_id));
    assert(votes =~= s.votes_of(round_id));
    lemma_listed_are_recorded(s, round_id);
    assert(s.total_votes_of(round_id) == votes_in_all(votes));
    lemma_split_unique(round.reward_pool as int, votes, votes_in_all(votes), amounts);
    lemma_payouts_by_project(s, env.contract, round_id, projects, votes, amounts);
    blocks.lemma_flatten_and_flatten_alt_are_equivalent();
    assert(after.actions.drop_last() =~= env.actions + blocks.flatten());
    lemma_paid_adds_up(amounts);
    assert forall|i: int| 0 <= i < projects.len() implies after.storage.records[(
        round_id,
        #[trigger] projects[i],
    )].reward == amounts[i] by {
        lemma_rewarded_at(s.records, round_id, projects, amounts, i);
    }
    if sum(votes) <= i128::MAX {
        law_pool_is_paid_out(s, round_id);
        lemma_sum_bounds(amounts);
    }
}

/// What is paid is the sum of the amounts that are positive.
proof fn lemma_paid_adds_up(amounts: Seq<int>)
    ensures
        paid(amounts) == sum(
            amounts.map_values(
                |a: int|
                    if a > 0 {
                        a
                    } else {
                        0
                    },
            ),
        ),
    decreases amounts.len(),
{
    let positive = amounts.map_values(
        |a: int|
            if a > 0 {
                a
            } else {
                0
            },
    );
    if amounts.len() > 0 {
        lemma_paid_adds_up(amounts.drop_last());
        assert(positive.drop_last() =~= amounts.drop_last().map_values(
            |a: int|
                if a > 0 {
                    a
                } else {
                    0
                },
        ));
    }
}

/// The payout of a round without projects publishes that nothing was distributed, and does nothing
/// else.
pub proof fn law_nothing_to_pay(env: RFView, admin: Address, round_id: u64)
    requires
        finalize_and_distribute_step(env, admin, round_id) is Ok,
        env.storage.projects.contains_key(round_id) ==> env.storage.projects[round_id].len() == 0,
    ensures
        finalize_and_distribute_step(env, admin, round_id)->Ok_0.0.actions == env.actions.push(
            Action::Publish(RFEvent::Done { round_id, distributed: 0 }),
        ),
{
    let after = finalize_and_distribute_step(env, admin, round_id)->Ok_0.0;
    assert(after.actions =~= env.actions.push(
        Action::Publish(RFEvent::Done { round_id, distributed: 0 }),
    ));
}

} // verus!
