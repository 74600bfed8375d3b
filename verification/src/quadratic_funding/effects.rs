//! What each operation of quadratic funding takes, what it refuses and why, and what it leaves
//! behind, in terms of its arguments and of the stored entries.
use super::laws::{law_projects_have_weight, lemma_roots_are_floor_roots, Operation};
use super::model::{
    contribute_step, contribution_in_range, create_round_step, distribute_matching_step,
    distribution_in_range, estimate_in_range, finalize_round_step, match_amounts, match_dues,
    match_estimate, payouts, project_payout,
};
use super::payout_laws::{
    contributed, law_pool_is_paid_out, lemma_listed_have_contributed, lemma_payouts_return,
    lemma_refunds, lemma_split, matches_of,
};
use super::{
    lemma_weights_not_negative, Contribution, FundingRound, QFError, QFEvent, QFState,
    QFView, RoundStatus, PRECISION,
};
use crate::address::Address;
use crate::amounts::{lemma_sum_bounds, lemma_sum_zeros, sum};
use crate::invocation::{lemma_moved_concat, moved, Action, Transfer};
use crate::shares::lemma_settled_sum;
use crate::sqrt::{is_floor_sqrt, lemma_floor_sqrt_unique};
use vstd::prelude::*;

verus! {

/// A round is opened whenever there is a pool and a duration, and for no other reason refused. It
/// gets the next id, the terms that were asked for, and the time of the ledger as its start; it
/// ends after the duration. The admin is asked for the pool, the opening is published, and nothing
/// else changes.
pub proof fn law_rounds_open(
    env: QFView,
    admin: Address,
    token: Address,
    matching_pool: i128,
    duration_seconds: u64,
)
    ensures
        ({
            let step = create_round_step(env, admin, token, matching_pool, duration_seconds);
            &&& step is Ok <==> 0 < matching_pool && 0 < duration_seconds
            &&& step is Err ==> step->Err_0 == QFError::InvalidAmount
            &&& step is Ok ==> {
                let s = env.storage;
                let after = step->Ok_0.0;
                let id = step->Ok_0.1;
                let t = after.storage;
                let round = t.rounds[id];
                &&& s.round_ctr is None ==> id == 0
                &&& s.round_ctr is Some ==> id == s.round_ctr->0
                &&& id < u64::MAX ==> t.round_ctr == Some((id + 1) as u64)
                &&& t.rounds == s.rounds.insert(id, round)
                &&& round.round_id == id
                &&& round.admin == admin
                &&& round.token == token
                &&& round.matching_pool == matching_pool
                &&& round.start_time == env.timestamp
                &&& env.timestamp + duration_seconds <= u64::MAX ==> round.end_time
                    == env.timestamp + duration_seconds
                &&& env.timestamp + duration_seconds > u64::MAX ==> round.end_time == u64::MAX
                &&& round.status == RoundStatus::Active
                &&& round.total_contributions == 0
                &&& t.contributions == s.contributions
                &&& t.sqrt_sums == s.sqrt_sums
                &&& t.contributors == s.contributors
                &&& t.projects == s.projects
                &&& after.contract == env.contract
                &&& after.timestamp == env.timestamp
                &&& after.actions == env.actions.push(
                    Action::Transfer(
                        Transfer { token, from: admin, to: env.contract, amount: matching_pool },
                    ),
                ).push(Action::Publish(QFEvent::New { round_id: id, admin, token, matching_pool }))
            }
        }),
{
    let step = create_round_step(env, admin, token, matching_pool, duration_seconds);
    if step is Ok {
        let id = step->Ok_0.1;
        assert(step->Ok_0.0.actions =~= env.actions.push(
            Action::Transfer(
                Transfer { token, from: admin, to: env.contract, amount: matching_pool },
            ),
        ).push(Action::Publish(QFEvent::New { round_id: id, admin, token, matching_pool })));
    }
}

/// A contribution is taken, to whatever project, if and only if it is positive, the round is
/// active and not over, and the address has not contributed to the project in the round. Otherwise
/// it is refused for the first of these that fails.
pub proof fn law_contributions_are_taken(
    env: QFView,
    contributor: Address,
    round_id: u64,
    project: Address,
    amount: i128,
)
    ensures
        ({
            let s = env.storage;
            let step = contribute_step(env, contributor, round_id, project, amount);
            let stored = s.rounds.contains_key(round_id);
            let round = s.rounds[round_id];
            let active = round.status == RoundStatus::Active;
            let given = s.contributions.contains_key((round_id, project, contributor));
            &&& step is Ok <==> 0 < amount && stored && active && env.timestamp <= round.end_time
                && !given
            &&& amount <= 0 ==> step == Err::<(QFView, ()), QFError>(QFError::InvalidAmount)
            &&& 0 < amount && !stored ==> step == Err::<(QFView, ()), QFError>(
                QFError::RoundNotFound,
            )
            &&& 0 < amount && stored && !active ==> step == Err::<(QFView, ()), QFError>(
                QFError::RoundNotActive,
            )
            &&& 0 < amount && stored && active && round.end_time < env.timestamp ==> step == Err::<
                (QFView, ()),
                QFError,
            >(QFError::RoundEnded)
            &&& 0 < amount && stored && active && env.timestamp <= round.end_time && given ==> step
                == Err::<(QFView, ()), QFError>(QFError::AlreadyContributed)
        }),
{
}

/// A contribution that is taken is stored with its amount, its contributor comes last in the list
/// of the project, the project is listed in the round, after those that were there if it is new,
/// and the sum of roots grows by the root of the amount, as the sum of the round does by the
/// amount. The contributor is asked for the amount, the contribution is published, and nothing
/// else changes.
pub proof fn law_contributions_are_recorded(
    env: QFView,
    contributor: Address,
    round_id: u64,
    project: Address,
    amount: i128,
    root: int,
)
    requires
        contribute_step(env, contributor, round_id, project, amount) is Ok,
        0 <= root,
        root * root <= amount * PRECISION * PRECISION,
        amount * PRECISION * PRECISION < (root + 1) * (root + 1),
    ensures
        ({
            let s = env.storage;
            let after = contribute_step(env, contributor, round_id, project, amount)->Ok_0.0;
            let t = after.storage;
            let round = s.rounds[round_id];
            let later = t.rounds[round_id];
            let listed = if s.projects.contains_key(round_id) {
                s.projects[round_id]
            } else {
                Seq::empty()
            };
            let contributors = if s.contributors.contains_key((round_id, project)) {
                s.contributors[(round_id, project)]
            } else {
                Seq::empty()
            };
            let roots = root + if s.sqrt_sums.contains_key((round_id, project)) {
                s.sqrt_sums[(round_id, project)] as int
            } else {
                0
            };
            let total = round.total_contributions + amount;
            &&& t.contributions == s.contributions.insert(
                (round_id, project, contributor),
                Contribution { contributor, project, amount, round_id },
            )
            &&& t.contributors == s.contributors.insert(
                (round_id, project),
                contributors.push(contributor),
            )
            &&& listed.contains(project) ==> t.projects == s.projects
            &&& !listed.contains(project) ==> t.projects == s.projects.insert(
                round_id,
                listed.push(project),
            )
            &&& t.sqrt_sums.contains_key((round_id, project))
            &&& t.sqrt_sums == s.sqrt_sums.insert(
                (round_id, project),
                t.sqrt_sums[(round_id, project)],
            )
            &&& roots <= i128::MAX ==> t.sqrt_sums[(round_id, project)] == roots
            &&& roots > i128::MAX ==> t.sqrt_sums[(round_id, project)] == i128::MAX
            &&& t.rounds == s.rounds.insert(round_id, later)
            &&& later == (FundingRound { total_contributions: later.total_contributions, ..round })
            &&& total <= i128::MAX ==> later.total_contributions == total
            &&& total > i128::MAX ==> later.total_contributions == i128::MAX
            &&& t.round_ctr == s.round_ctr
            &&& after.contract == env.contract
            &&& after.timestamp == env.timestamp
            &&& after.actions == env.actions.push(
                Action::Transfer(
                    Transfer {
                        token: round.token,
                        from: contributor,
                        to: env.contract,
                        amount,
                    },
                ),
            ).push(
                Action::Publish(QFEvent::Contributed { round_id, contributor, project, amount }),
            )
        }),
{
    let s = env.storage;
    let after = contribute_step(env, contributor, round_id, project, amount)->Ok_0.0;
    assert(is_floor_sqrt(amount * PRECISION * PRECISION, root));
    lemma_floor_sqrt_unique(amount * PRECISION * PRECISION, root);
    assert(after.actions =~= env.actions.push(
        Action::Transfer(
            Transfer {
                token: s.rounds[round_id].token,
                from: contributor,
                to: env.contract,
                amount,
            },
        ),
    ).push(Action::Publish(QFEvent::Contributed { round_id, contributor, project, amount })));
}

/// A round is closed if and only if its admin asks for it, it is active, and its end has come.
/// Otherwise this is refused for the first of these that fails. Closing changes the status,
/// publishes it, and does nothing else.
pub proof fn law_rounds_close(env: QFView, admin: Address, round_id: u64)
    ensures
        ({
            let s = env.storage;
            let step = finalize_round_step(env, admin, round_id);
            let stored = s.rounds.contains_key(round_id);
            let round = s.rounds[round_id];
            let active = round.status == RoundStatus::Active;
            &&& step is Ok <==> stored && round.admin == admin && active && round.end_time
                <= env.timestamp
            &&& !stored ==> step == Err::<(QFView, ()), QFError>(QFError::RoundNotFound)
            &&& stored && round.admin != admin ==> step == Err::<(QFView, ()), QFError>(
                QFError::Unauthorized,
            )
            &&& stored && round.admin == admin && !active ==> step == Err::<(QFView, ()), QFError>(
                QFError::RoundNotActive,
            )
            &&& stored && round.admin == admin && active && env.timestamp < round.end_time ==> step
                == Err::<(QFView, ()), QFError>(QFError::RoundNotEnded)
            &&& step is Ok ==> step->Ok_0.0 == (QFView {
                storage: QFState {
                    rounds: s.rounds.insert(
                        round_id,
                        FundingRound { status: RoundStatus::Finalized, ..round },
                    ),
                    ..s
                },
                actions: env.actions.push(Action::Publish(QFEvent::Finalized { round_id })),
                ..env
            })
        }),
{
    let step = finalize_round_step(env, admin, round_id);
    if step is Ok {
        assert(step->Ok_0.0.actions =~= env.actions.push(
            Action::Publish(QFEvent::Finalized { round_id }),
        ));
    }
}

/// A round is paid out if and only if its admin asks for it and it is closed and not yet paid out.
/// Otherwise this is refused for the first of these that fails. Of what is stored, the payout
/// changes the status and nothing else.
pub proof fn law_rounds_are_paid_out(env: QFView, admin: Address, round_id: u64)
    ensures
        ({
            let s = env.storage;
            let step = distribute_matching_step(env, admin, round_id);
            let stored = s.rounds.contains_key(round_id);
            let round = s.rounds[round_id];
            let closed = round.status == RoundStatus::Finalized;
            &&& step is Ok <==> stored && round.admin == admin && closed
            &&& !stored ==> step == Err::<(QFView, ()), QFError>(QFError::RoundNotFound)
            &&& stored && round.admin != admin ==> step == Err::<(QFView, ()), QFError>(
                QFError::Unauthorized,
            )
            &&& stored && round.admin == admin && !closed ==> step == Err::<(QFView, ()), QFError>(
                QFError::RoundNotFinalized,
            )
            &&& step is Ok ==> step->Ok_0.0 == (QFView {
                storage: QFState {
                    rounds: s.rounds.insert(
                        round_id,
                        FundingRound { status: RoundStatus::Distributed, ..round },
                    ),
                    ..s
                },
                actions: step->Ok_0.0.actions,
                ..env
            })
        }),
{
}

/// A contribution finds room unless a list that it extends has as many items as a list can have.
pub proof fn law_room_for_contributions(s: QFState, round_id: u64, project: Address)
    ensures
        contribution_in_range(s, round_id, project) <==> {
            &&& s.projects.contains_key(round_id) ==> s.projects[round_id].contains(project)
                || s.projects[round_id].len() < u32::MAX
            &&& s.contributors.contains_key((round_id, project)) ==> s.contributors[(
                round_id,
                project,
            )].len() < u32::MAX
        },
{
}

/// The calls that are in range are all but those for which no id is left or a list is full.
pub proof fn law_calls_out_of_range(env: QFView, operation: Operation)
    ensures
        ({
            let s = env.storage;
            operation.in_range(env) <==> match operation {
                Operation::CreateRound { .. } => s.round_ctr != Some(u64::MAX),
                Operation::Contribute { round_id, project, .. } => {
                    &&& s.projects.contains_key(round_id) ==> s.projects[round_id].contains(project)
                        || s.projects[round_id].len() < u32::MAX
                    &&& s.contributors.contains_key((round_id, project)) ==> s.contributors[(
                        round_id,
                        project,
                    )].len() < u32::MAX
                },
                _ => true,
            }
        }),
{
}

/// Where the entries fit together, every round can be paid out and every match estimated.
pub proof fn law_every_round_can_be_split(s: QFState, round_id: u64, project: Address)
    requires
        s.valid(),
    ensures
        s.rounds.contains_key(round_id) ==> distribution_in_range(s, round_id),
        estimate_in_range(s, round_id, project),
{
    assert(s.round_valid(round_id));
}

/// The numbers are the square roots of the contributions to the project, in units of
/// `1 / PRECISION` and rounded down, in the order of the contributors.
pub open spec fn are_roots(
    s: QFState,
    round_id: u64,
    project: Address,
    roots: Seq<int>,
) -> bool {
    let contributors = s.contributors[(round_id, project)];
    &&& roots.len() == contributors.len()
    &&& forall|k: int|
        0 <= k < roots.len() ==> {
            let scaled = s.contributions[(round_id, project, contributors[k])].amount * PRECISION
                * PRECISION;
            &&& 0 <= #[trigger] roots[k]
            &&& roots[k] * roots[k] <= scaled
            &&& scaled < (roots[k] + 1) * (roots[k] + 1)
        }
}

/// The amounts split the pool by the weights: they add up to the pool, and each but the last is
/// the exact part of its weight, rounded down.
pub open spec fn is_split(pool: int, weights: Seq<int>, amounts: Seq<int>) -> bool {
    &&& amounts.len() == weights.len()
    &&& sum(amounts) == pool
    &&& forall|j: int|
        0 <= j < amounts.len() - 1 ==> {
            &&& #[trigger] amounts[j] * sum(weights) <= pool * weights[j]
            &&& pool * weights[j] < (amounts[j] + 1) * sum(weights)
        }
}

/// The squares of the sums of the roots.
pub open spec fn squares(roots: Seq<Seq<int>>) -> Seq<int> {
    roots.map_values(|r: Seq<int>| sum(r) * sum(r))
}

/// The roots of the contributions give the weights.
proof fn lemma_weights_are_squares(s: QFState, round_id: u64, roots: Seq<Seq<int>>)
    requires
        s.valid(),
        s.projects.contains_key(round_id),
        roots.len() == s.projects[round_id].len(),
        forall|j: int|
            0 <= j < roots.len() ==> are_roots(
                s,
                round_id,
                s.projects[round_id][j],
                #[trigger] roots[j],
            ),
    ensures
        s.weights_of(round_id) == squares(roots),
{
    let projects = s.projects[round_id];
    assert forall|j: int| 0 <= j < roots.len() implies s.weights_of(round_id)[j]
        == #[trigger] squares(roots)[j] by {
        let p = projects[j];
        let own = roots[j];
        assert(projects.contains(p));
        assert(s.project_valid(round_id, p));
        assert(are_roots(s, round_id, p, roots[j]));
        assert(s.contributors_of(round_id, p) == s.contributors[(round_id, p)]);
        lemma_roots_are_floor_roots(s, round_id, p);
        assert forall|k: int| 0 <= k < own.len() implies own[k] == #[trigger] s.roots_of(
            round_id,
            p,
        )[k] by {
            let scaled = s.contributions[(
                round_id,
                p,
                s.contributors[(round_id, p)][k],
            )].amount * PRECISION * PRECISION;
            assert(0 <= own[k]);
            assert(is_floor_sqrt(scaled, own[k]));
            lemma_floor_sqrt_unique(scaled, own[k]);
            lemma_floor_sqrt_unique(scaled, s.roots_of(round_id, p)[k]);
        }
        assert(own =~= s.roots_of(round_id, p));
    }
    assert(s.weights_of(round_id) =~= squares(roots));
}

/// There is only one way to split a pool by weights.
proof fn lemma_split_unique(pool: int, weights: Seq<int>, amounts: Seq<int>)
    requires
        0 < pool,
        0 < weights.len(),
        0 < sum(weights),
        forall|j: int| 0 <= j < weights.len() ==> 0 <= #[trigger] weights[j],
        is_split(pool, weights, amounts),
    ensures
        amounts == match_amounts(pool, weights),
{
    let split = match_amounts(pool, weights);
    let total = sum(weights);
    let n = weights.len() as int;
    lemma_split(pool, weights);
    lemma_settled_sum(pool, match_dues(pool, weights));
    assert forall|j: int| 0 <= j < n - 1 implies #[trigger] amounts[j] == split[j] by {
        let a = amounts[j];
        let b = split[j];
        let product = pool * weights[j];
        assert(a == b) by (nonlinear_arith)
            requires
                b == product / total,
                a * total <= product,
                product < (a + 1) * total,
                0 < total,
        ;
    }
    assert(amounts.drop_last() =~= split.drop_last());
    assert(amounts[n - 1] == split[n - 1]);
    assert(amounts =~= split);
}

/// What is done for a project: it is paid its amount where there is one, each contribution to it
/// is returned to the contributor in the order of the contributors, and the amount is published.
pub open spec fn project_actions(
    s: QFState,
    contract: Address,
    round_id: u64,
    project: Address,
    amount: int,
) -> Seq<Action<QFEvent>> {
    let token = s.rounds[round_id].token;
    let contributors = s.contributors[(round_id, project)];
    let payment = Action::<QFEvent>::Transfer(
        Transfer { token, from: contract, to: project, amount: amount as i128 },
    );
    let handed_back = Seq::new(
        contributors.len(),
        |k: int|
            Action::<QFEvent>::Transfer(
                Transfer {
                    token,
                    from: contract,
                    to: contributors[k],
                    amount: s.contributions[(round_id, project, contributors[k])].amount,
                },
            ),
    );
    let event = Action::Publish(
        QFEvent::Distributed { round_id, project, match_amount: amount as i128 },
    );
    if amount > 0 {
        seq![payment] + handed_back + seq![event]
    } else {
        handed_back + seq![event]
    }
}

/// What is done for each of the projects.
pub open spec fn actions_by_project(
    s: QFState,
    contract: Address,
    round_id: u64,
    projects: Seq<Address>,
    amounts: Seq<int>,
) -> Seq<Seq<Action<QFEvent>>> {
    Seq::new(
        projects.len(),
        |j: int| project_actions(s, contract, round_id, projects[j], amounts[j]),
    )
}

/// A payout does what is to be done for one project after the other.
proof fn lemma_payouts_by_project(
    s: QFState,
    contract: Address,
    round_id: u64,
    projects: Seq<Address>,
    amounts: Seq<int>,
)
    requires
        s.valid(),
        projects.len() == amounts.len(),
        forall|j: int|
            0 <= j < projects.len() ==> s.contributors.contains_key(
                (round_id, #[trigger] projects[j]),
            ),
    ensures
        payouts(s, contract, s.rounds[round_id].token, round_id, projects, amounts)
            == actions_by_project(s, contract, round_id, projects, amounts).flatten_alt(),
    decreases projects.len(),
{
    let token = s.rounds[round_id].token;
    let blocks = actions_by_project(s, contract, round_id, projects, amounts);
    if projects.len() > 0 {
        let rest = projects.drop_last();
        let less = amounts.drop_last();
        let p = projects.last();
        assert(p == projects[projects.len() - 1]);
        assert(s.contributors.contains_key((round_id, projects[projects.len() - 1])));
        let contributors = s.contributors[(round_id, p)];
        lemma_listed_have_contributed(s, round_id, p);
        lemma_refunds(s, contract, token, round_id, p, contributors);
        assert(project_payout(s, contract, token, round_id, p, amounts.last()) =~= project_actions(
            s,
            contract,
            round_id,
            p,
            amounts.last(),
        ));
        assert forall|j: int| 0 <= j < rest.len() implies s.contributors.contains_key(
            (round_id, #[trigger] rest[j]),
        ) by {
            assert(rest[j] == projects[j]);
        }
        lemma_payouts_by_project(s, contract, round_id, rest, less);
        assert(blocks.drop_last() =~= actions_by_project(s, contract, round_id, rest, less));
        assert(blocks.last() == project_actions(s, contract, round_id, p, amounts.last()));
    }
}

/// The projects of a valid round have lists of contributors.
proof fn lemma_listed_have_lists(s: QFState, round_id: u64)
    requires
        s.valid(),
        s.projects.contains_key(round_id),
    ensures
        forall|j: int|
            0 <= j < s.projects[round_id].len() ==> s.contributors.contains_key(
                (round_id, #[trigger] s.projects[round_id][j]),
            ),
{
    let projects = s.projects[round_id];
    assert forall|j: int| 0 <= j < projects.len() implies s.contributors.contains_key(
        (round_id, #[trigger] projects[j]),
    ) by {
        assert(projects.contains(projects[j]));
        assert(s.project_valid(round_id, projects[j]));
    }
}

/// The weights of a valid round with projects add up to something.
proof fn lemma_total_positive(s: QFState, round_id: u64)
    requires
        s.valid(),
        s.projects.contains_key(round_id),
        0 < s.projects[round_id].len(),
    ensures
        0 < sum(s.weights_of(round_id)),
        forall|j: int|
            0 <= j < s.weights_of(round_id).len() ==> 0 <= #[trigger] s.weights_of(round_id)[j],
{
    let p = s.projects[round_id][0];
    lemma_weights_not_negative(s, round_id);
    lemma_sum_bounds(s.weights_of(round_id));
    assert(s.projects_of(round_id).contains(p));
    law_projects_have_weight(s, round_id, p);
    assert(s.weights_of(round_id)[0] == s.weight_of(round_id, p));
}

/// The payout of a round gives each project its part of the pool, by the square of the sum of the
/// square roots of its own contributions, and each contributor of the project the contribution.
/// With the roots of the contributions and the amounts that split the pool by the squares of their
/// sums, the actions that the payout adds are, for one project after the other in the order of the
/// round, the payment of its amount, the return of its contributions and the event that tells its
/// amount, and at the end the event that tells that the pool was distributed.
pub proof fn law_payout_splits_the_pool(
    env: QFView,
    admin: Address,
    round_id: u64,
    roots: Seq<Seq<int>>,
    amounts: Seq<int>,
)
    requires
        env.storage.valid(),
        distribute_matching_step(env, admin, round_id) is Ok,
        env.storage.projects.contains_key(round_id),
        0 < env.storage.projects[round_id].len(),
        roots.len() == env.storage.projects[round_id].len(),
        forall|j: int|
            0 <= j < roots.len() ==> are_roots(
                env.storage,
                round_id,
                env.storage.projects[round_id][j],
                #[trigger] roots[j],
            ),
        is_split(
            env.storage.rounds[round_id].matching_pool as int,
            squares(roots),
            amounts,
        ),
    ensures
        ({
            let s = env.storage;
            let pool = s.rounds[round_id].matching_pool;
            let projects = s.projects[round_id];
            &&& forall|i: int| 0 <= i < amounts.len() ==> 0 <= #[trigger] amounts[i] <= pool
            &&& distribute_matching_step(env, admin, round_id)->Ok_0.0.actions == (env.actions
                + actions_by_project(s, env.contract, round_id, projects, amounts).flatten()).push(
                Action::Publish(QFEvent::Done { round_id, distributed: pool }),
            )
        }),
{
    let s = env.storage;
    let round = s.rounds[round_id];
    let projects = s.projects[round_id];
    let blocks = actions_by_project(s, env.contract, round_id, projects, amounts);
    assert(s.round_valid(round_id));
    lemma_weights_are_squares(s, round_id, roots);
    lemma_total_positive(s, round_id);
    lemma_split_unique(round.matching_pool as int, s.weights_of(round_id), amounts);
    law_pool_is_paid_out(s, round_id);
    lemma_sum_bounds(amounts);
    lemma_listed_have_lists(s, round_id);
    lemma_payouts_by_project(s, env.contract, round_id, projects, amounts);
    blocks.lemma_flatten_and_flatten_alt_are_equivalent();
    assert(distribute_matching_step(env, admin, round_id)->Ok_0.0.actions =~= (env.actions
        + blocks.flatten()).push(
        Action::Publish(QFEvent::Done { round_id, distributed: round.matching_pool }),
    ));
}

/// The payout of a round without projects publishes that nothing was distributed, and does nothing
/// else.
pub proof fn law_nothing_to_pay(env: QFView, admin: Address, round_id: u64)
    requires
        distribute_matching_step(env, admin, round_id) is Ok,
        env.storage.projects.contains_key(round_id) ==> env.storage.projects[round_id].len() == 0,
    ensures
        distribute_matching_step(env, admin, round_id)->Ok_0.0.actions == env.actions.push(
            Action::Publish(QFEvent::Done { round_id, distributed: 0 }),
        ),
{
    let after = distribute_matching_step(env, admin, round_id)->Ok_0.0;
    assert(after.actions =~= env.actions.push(
        Action::Publish(QFEvent::Done { round_id, distributed: 0 }),
    ));
}

/// The payout brings to a project its part of the pool, on top of what the project itself
/// contributed in the round.
pub proof fn law_projects_get_their_match(
    env: QFView,
    admin: Address,
    round_id: u64,
    roots: Seq<Seq<int>>,
    amounts: Seq<int>,
    i: int,
)
    requires
        env.storage.valid(),
        distribute_matching_step(env, admin, round_id) is Ok,
        env.storage.projects.contains_key(round_id),
        0 <= i < env.storage.projects[round_id].len(),
        env.storage.projects[round_id][i] != env.contract,
        roots.len() == env.storage.projects[round_id].len(),
        forall|j: int|
            0 <= j < roots.len() ==> are_roots(
                env.storage,
                round_id,
                env.storage.projects[round_id][j],
                #[trigger] roots[j],
            ),
        is_split(
            env.storage.rounds[round_id].matching_pool as int,
            squares(roots),
            amounts,
        ),
    ensures
        ({
            let s = env.storage;
            let projects = s.projects[round_id];
            let token = s.rounds[round_id].token;
            let account = projects[i];
            let after = distribute_matching_step(env, admin, round_id)->Ok_0.0;
            moved(after.actions, token, account) - moved(env.actions, token, account) == amounts[i]
                + sum(projects.map_values(|p: Address| contributed(s, round_id, p, account)))
        }),
{
    let s = env.storage;
    let round = s.rounds[round_id];
    let projects = s.projects[round_id];
    let account = projects[i];
    let after = distribute_matching_step(env, admin, round_id)->Ok_0.0;
    assert(s.round_valid(round_id));
    lemma_weights_are_squares(s, round_id, roots);
    lemma_total_positive(s, round_id);
    lemma_split_unique(round.matching_pool as int, s.weights_of(round_id), amounts);
    law_pool_is_paid_out(s, round_id);
    lemma_sum_bounds(amounts);
    let all = payouts(s, env.contract, round.token, round_id, projects, amounts);
    lemma_payouts_return(s, env.contract, round.token, round_id, projects, amounts, account);
    assert(projects[i] == account);
    assert(after.actions.drop_last() =~= env.actions + all);
    lemma_moved_concat(env.actions, all, round.token, account);
    lemma_single_match(projects, amounts, account, i);
}

/// Of distinct projects, one is matched once.
proof fn lemma_single_match(projects: Seq<Address>, amounts: Seq<int>, account: Address, i: int)
    requires
        projects.len() == amounts.len(),
        projects.no_duplicates(),
        0 <= i < projects.len(),
        projects[i] == account,
    ensures
        sum(matches_of(projects, amounts, account)) == if amounts[i] > 0 {
            amounts[i]
        } else {
            0
        },
    decreases projects.len(),
{
    let all = matches_of(projects, amounts, account);
    let rest = projects.drop_last();
    let n = projects.len() as int;
    assert(all.drop_last() =~= matches_of(rest, amounts.drop_last(), account));
    if i < n - 1 {
        assert(rest[i] == account);
        assert(rest.no_duplicates());
        assert(projects[n - 1] != projects[i]);
        lemma_single_match(rest, amounts.drop_last(), account, i);
    } else {
        assert forall|j: int| 0 <= j < all.drop_last().len() implies #[trigger] all.drop_last()[j]
            == 0 by {
            assert(projects[j] != projects[n - 1]);
        }
        lemma_sum_zeros(all.drop_last());
    }
}

/// The estimate for a project of the round is its exact part of the pool, rounded down, by the
/// square of the sum of the square roots of its own contributions out of the squares of all
/// projects of the round.
pub proof fn law_estimate_follows_contributions(
    s: QFState,
    round_id: u64,
    roots: Seq<Seq<int>>,
    i: int,
)
    requires
        s.valid(),
        s.rounds.contains_key(round_id),
        s.projects.contains_key(round_id),
        0 <= i < s.projects[round_id].len(),
        roots.len() == s.projects[round_id].len(),
        forall|j: int|
            0 <= j < roots.len() ==> are_roots(
                s,
                round_id,
                s.projects[round_id][j],
                #[trigger] roots[j],
            ),
    ensures
        ({
            let pool = s.rounds[round_id].matching_pool;
            let estimate = match_estimate(s, round_id, s.projects[round_id][i]);
            let own = sum(roots[i]) * sum(roots[i]);
            &&& estimate * sum(squares(roots)) <= pool * own
            &&& pool * own < (estimate + 1) * sum(squares(roots))
        }),
{
    let pool = s.rounds[round_id].matching_pool as int;
    let p = s.projects[round_id][i];
    lemma_weights_are_squares(s, round_id, roots);
    lemma_total_positive(s, round_id);
    assert(s.projects_of(round_id).contains(p));
    assert(s.weights_of(round_id)[i] == s.weight_of(round_id, p));
    assert(squares(roots)[i] == sum(roots[i]) * sum(roots[i]));
    let total = sum(squares(roots));
    let product = pool * (sum(roots[i]) * sum(roots[i]));
    assert((product / total) * total <= product < (product / total + 1) * total)
        by (nonlinear_arith)
        requires
            0 < total,
    ;
}

/// There is nothing to expect from a round that is not stored, or for a project that is not listed
/// in it.
pub proof fn law_estimate_of_the_unknown(s: QFState, round_id: u64, project: Address)
    requires
        !s.rounds.contains_key(round_id) || !s.projects.contains_key(round_id)
            || !s.projects[round_id].contains(project),
    ensures
        match_estimate(s, round_id, project) == 0,
{
}

} // verus!
