//! What holds of the payout of a round.
use super::laws::{lemma_listed_are_recorded, Operation};
use super::model::{
    finalize_and_distribute_step, payouts, project_payout, reward_dues, rewarded, rewards,
    split_in_range,
};
use super::{ProjectRecord, RFEvent, RFState, RFView, RoundStatus};
use crate::address::Address;
use crate::amounts::{lemma_sum_bounds, sum};
use crate::invocation::{inflow, lemma_outflow_concat, outflow, Action, Transfer};
use crate::shares::{
    lemma_dues_in_range, lemma_dues_short_of_exact, lemma_dues_within_pool, lemma_paid_is_sum,
    lemma_settled_sum, lemma_share_grows, paid, share,
};
use vstd::prelude::*;

verus! {

/// Equal parts add up to their number times the part.
proof fn lemma_equal_parts(dues: Seq<int>, part: int)
    requires
        forall|i: int| 0 <= i < dues.len() ==> #[trigger] dues[i] == part,
    ensures
        sum(dues) == dues.len() * part,
    decreases dues.len(),
{
    if dues.len() > 0 {
        let rest = dues.drop_last();
        assert forall|i: int| 0 <= i < rest.len() implies #[trigger] rest[i] == part by {
            assert(rest[i] == dues[i]);
        }
        lemma_equal_parts(rest, part);
        assert(dues[dues.len() - 1] == part);
        assert((rest.len() + 1) * part == rest.len() * part + part) by (nonlinear_arith);
    } else {
        assert(0 * part == 0) by (nonlinear_arith);
    }
}

/// What is known of the split of a pool among projects whose votes have not saturated.
proof fn lemma_split(pool: int, votes: Seq<int>)
    requires
        0 < pool,
        0 < votes.len(),
        forall|i: int| 0 <= i < votes.len() ==> 0 <= #[trigger] votes[i],
        sum(votes) <= i128::MAX,
    ensures
        ({
            let amounts = rewards(pool, votes, sum(votes));
            let dues = reward_dues(pool, votes, sum(votes));
            &&& amounts.len() == votes.len()
            &&& 0 <= sum(dues) <= pool
            &&& forall|i: int| 0 <= i < dues.len() ==> #[trigger] amounts[i] == dues[i]
            &&& amounts.last() == pool - sum(dues)
            &&& forall|i: int| 0 <= i < amounts.len() ==> 0 <= #[trigger] amounts[i]
        }),
{
    let total = sum(votes);
    let parts = votes.drop_last();
    let dues = reward_dues(pool, votes, total);
    let n = votes.len() as int;
    lemma_sum_bounds(votes);
    assert forall|i: int| 0 <= i < parts.len() implies 0 <= #[trigger] parts[i] by {
        assert(parts[i] == votes[i]);
    }
    assert(0 <= votes[n - 1]);
    if total > 0 {
        lemma_dues_within_pool(pool, parts, total, dues);
    } else {
        let part = pool / n;
        assert forall|i: int| 0 <= i < dues.len() implies #[trigger] dues[i] == part by {}
        lemma_equal_parts(dues, part);
        assert(0 <= part && 0 <= (n - 1) * part <= pool) by (nonlinear_arith)
            requires
                part == pool / n,
                0 < pool,
                1 <= n,
        ;
    }
    let amounts = rewards(pool, votes, total);
    assert forall|i: int| 0 <= i < amounts.len() implies 0 <= #[trigger] amounts[i] by {
        if i < dues.len() {
            assert(amounts[i] == dues[i]);
        }
    }
}

/// Where the entries fit together, only the products of pool and votes can be out of range.
pub proof fn law_only_products_overflow(s: RFState, round_id: u64)
    requires
        s.valid(),
        s.rounds.contains_key(round_id),
        ({
            let votes = s.votes_of(round_id);
            forall|i: int|
                0 <= i < votes.len() - 1 ==> s.rounds[round_id].reward_pool * #[trigger] votes[i]
                    <= i128::MAX
        }),
        s.votes_of(round_id).len() <= u32::MAX,
    ensures
        split_in_range(
            s.rounds[round_id].reward_pool as int,
            s.votes_of(round_id),
            s.total_votes_of(round_id),
        ),
{
    let votes = s.votes_of(round_id);
    let pool = s.rounds[round_id].reward_pool as int;
    let total = s.total_votes_of(round_id);
    assert(s.round_valid(round_id));
    lemma_listed_are_recorded(s, round_id);
    if votes.len() > 0 {
        if sum(votes) <= i128::MAX {
            lemma_split(pool, votes);
        } else {
            let parts = votes.drop_last();
            let dues = reward_dues(pool, votes, total);
            assert forall|i: int| 0 <= i < parts.len() implies 0 <= #[trigger] parts[i] && pool
                * parts[i] <= i128::MAX by {
                assert(parts[i] == votes[i]);
            }
            lemma_dues_in_range(pool, parts, total, dues, dues.len() as int);
            assert(dues.take(dues.len() as int) =~= dues);
        }
    }
}

/// The reward pool is paid out to the last unit, in amounts that are not negative, as long as
/// there is a project and the votes do not saturate. A round without projects pays nothing.
pub proof fn law_pool_is_paid_out(s: RFState, round_id: u64)
    requires
        s.valid(),
        s.rounds.contains_key(round_id),
        sum(s.votes_of(round_id)) <= i128::MAX,
    ensures
        ({
            let pool = s.rounds[round_id].reward_pool as int;
            let amounts = rewards(pool, s.votes_of(round_id), s.total_votes_of(round_id));
            &&& amounts.len() == s.projects_of(round_id).len()
            &&& forall|i: int| 0 <= i < amounts.len() ==> 0 <= #[trigger] amounts[i]
            &&& amounts.len() > 0 ==> sum(amounts) == pool && paid(amounts) == pool
            &&& amounts.len() == 0 ==> paid(amounts) == 0
        }),
{
    let pool = s.rounds[round_id].reward_pool as int;
    let votes = s.votes_of(round_id);
    assert(s.round_valid(round_id));
    lemma_listed_are_recorded(s, round_id);
    if votes.len() > 0 {
        lemma_split(pool, votes);
        lemma_settled_sum(pool, reward_dues(pool, votes, sum(votes)));
        lemma_paid_is_sum(rewards(pool, votes, sum(votes)));
    }
}

/// The pool is split in proportion to the votes: each project but the last gets its exact part
/// rounded down, and the last gets at least that, and less than one unit more for each of the
/// others.
pub proof fn law_split_in_proportion(pool: int, votes: Seq<int>, i: int)
    requires
        0 < pool,
        0 <= i < votes.len(),
        forall|j: int| 0 <= j < votes.len() ==> 0 <= #[trigger] votes[j],
        0 < sum(votes) <= i128::MAX,
    ensures
        ({
            let exact = share(pool, votes[i], sum(votes));
            let amount = rewards(pool, votes, sum(votes))[i];
            &&& i < votes.len() - 1 ==> amount == exact
            &&& i == votes.len() - 1 ==> exact <= amount < exact + votes.len()
        }),
{
    lemma_split(pool, votes);
    let n = votes.len() as int;
    let total = sum(votes);
    let parts = votes.drop_last();
    let dues = reward_dues(pool, votes, total);
    assert forall|j: int| 0 <= j < dues.len() implies #[trigger] dues[j] == share(
        pool,
        parts[j],
        total,
    ) by {}
    if i == n - 1 {
        let v = votes.last();
        let d = sum(dues);
        let k = dues.len() as int;
        let last = pool - d;
        let exact = share(pool, v, total);
        assert(v == votes[n - 1]);
        lemma_dues_short_of_exact(pool, parts, total, dues);
        let all = votes.map_values(|w: int| share(pool, w, total));
        lemma_dues_within_pool(pool, votes, total, all);
        assert(all.drop_last() =~= dues);
        assert(pool * sum(parts) == pool * total - pool * v) by (nonlinear_arith)
            requires
                sum(parts) == total - v,
        ;
        assert(last - k <= exact) by (nonlinear_arith)
            requires
                pool * total - pool * v <= (d + k) * total,
                last == pool - d,
                exact == pool * v / total,
                0 < total,
        {
            assert((last - k) * total <= pool * v);
            assert((exact + 1) * total > pool * v);
        }
    }
}

/// A project with no fewer votes gets no smaller a reward, wherever it is listed after the other.
pub proof fn law_more_votes_no_less_reward(pool: int, votes: Seq<int>, i: int, j: int)
    requires
        0 < pool,
        0 <= i < j < votes.len(),
        forall|k: int| 0 <= k < votes.len() ==> 0 <= #[trigger] votes[k],
        0 < sum(votes) <= i128::MAX,
    ensures
        votes[i] <= votes[j] ==> rewards(pool, votes, sum(votes))[i] <= rewards(
            pool,
            votes,
            sum(votes),
        )[j],
        votes[j] <= votes[i] && j < votes.len() - 1 ==> rewards(pool, votes, sum(votes))[j]
            <= rewards(pool, votes, sum(votes))[i],
{
    law_split_in_proportion(pool, votes, i);
    law_split_in_proportion(pool, votes, j);
    if votes[i] <= votes[j] {
        lemma_share_grows(pool, votes[i], votes[j], sum(votes));
    } else {
        lemma_share_grows(pool, votes[j], votes[i], sum(votes));
    }
}

/// Where nobody voted, the pool is split equally, and the last project also gets the remainder.
pub proof fn law_equal_split_without_votes(pool: int, votes: Seq<int>, i: int)
    requires
        0 < pool,
        0 <= i < votes.len(),
    ensures
        ({
            let n = votes.len() as int;
            let amount = rewards(pool, votes, 0)[i];
            &&& i < n - 1 ==> amount == pool / n
            &&& i == n - 1 ==> amount == pool / n + pool % n
        }),
{
    let n = votes.len() as int;
    let dues = reward_dues(pool, votes, 0);
    let part = pool / n;
    assert forall|j: int| 0 <= j < dues.len() implies #[trigger] dues[j] == part by {}
    lemma_equal_parts(dues, part);
    if i == n - 1 {
        assert(pool - (n - 1) * part == part + pool % n) by (nonlinear_arith)
            requires
                part == pool / n,
                0 < n,
        ;
    }
}

/// The outflow of the payouts is what is paid of the amounts.
proof fn lemma_payouts(
    contract: Address,
    token: Address,
    r: u64,
    projects: Seq<Address>,
    votes: Seq<int>,
    amounts: Seq<int>,
)
    requires
        projects.len() == amounts.len() == votes.len(),
        forall|i: int| 0 <= i < amounts.len() ==> #[trigger] amounts[i] <= i128::MAX,
    ensures
        outflow(payouts(contract, token, r, projects, votes, amounts), contract) == paid(amounts),
    decreases projects.len(),
{
    if projects.len() > 0 {
        let rest = projects.drop_last();
        let less = amounts.drop_last();
        assert forall|i: int| 0 <= i < less.len() implies #[trigger] less[i] <= i128::MAX by {
            assert(less[i] == amounts[i]);
        }
        lemma_payouts(contract, token, r, rest, votes.drop_last(), less);
        let amount = amounts.last();
        assert(amount == amounts[amounts.len() - 1]);
        let own = project_payout(
            contract,
            token,
            r,
            projects.last(),
            votes.last() as i128,
            amount,
        );
        lemma_outflow_concat(
            payouts(contract, token, r, rest, votes.drop_last(), less),
            own,
            contract,
        );
        reveal_with_fuel(outflow, 3);
        if amount > 0 {
            assert(own.drop_last() =~= seq![own[0]]);
            assert(seq![own[0]].drop_last() =~= Seq::<Action<RFEvent>>::empty());
        } else {
            assert(own.drop_last() =~= Seq::<Action<RFEvent>>::empty());
        }
    }
}

/// A distribution pays the reward pool out of the contract, no more and no less, as long as there
/// is a project and the votes do not saturate.
pub proof fn law_payout_balances(env: RFView, admin: Address, round_id: u64)
    requires
        env.storage.valid(),
        finalize_and_distribute_step(env, admin, round_id) is Ok,
        0 < env.storage.projects_of(round_id).len(),
        sum(env.storage.votes_of(round_id)) <= i128::MAX,
    ensures
        outflow(
            finalize_and_distribute_step(env, admin, round_id)->Ok_0.0.actions,
            env.contract,
        ) == outflow(env.actions, env.contract) + env.storage.rounds[round_id].reward_pool,
{
    let s = env.storage;
    let round = s.rounds[round_id];
    let votes = s.votes_of(round_id);
    let amounts = rewards(round.reward_pool as int, votes, s.total_votes_of(round_id));
    let projects = s.projects_of(round_id);
    let after = finalize_and_distribute_step(env, admin, round_id)->Ok_0.0;
    law_pool_is_paid_out(s, round_id);
    lemma_sum_bounds(amounts);
    lemma_payouts(env.contract, round.token, round_id, projects, votes, amounts);
    let paid_out = payouts(env.contract, round.token, round_id, projects, votes, amounts);
    assert(after.actions.drop_last() =~= env.actions + paid_out);
    lemma_outflow_concat(env.actions, paid_out, env.contract);
}

/// What the contract holds for a round: the reward pool, until it is paid out.
pub open spec fn held(s: RFState, round_id: u64) -> int {
    if s.rounds.contains_key(round_id) && s.rounds[round_id].status != RoundStatus::Finalized {
        s.rounds[round_id].reward_pool as int
    } else {
        0
    }
}

/// The contract holds for a round what was paid into it: opening a round brings in what is then
/// held, nominating and voting move nothing, and the payout takes out all that is held. This
/// leaves out the payout of a round without projects, whose pool stays, and of one whose votes
/// saturate.
pub proof fn law_held_is_what_was_paid_in(env: RFView, operation: Operation)
    requires
        env.storage.valid(),
        operation.in_range(env),
        operation.refusal(env) is None,
        operation is FinalizeAndDistribute ==> {
            let round_id = operation.round(env.storage);
            &&& 0 < env.storage.projects_of(round_id).len()
            &&& sum(env.storage.votes_of(round_id)) <= i128::MAX
        },
    ensures
        ({
            let after = operation.after(env);
            let round_id = operation.round(env.storage);
            let before_held = held(env.storage, round_id);
            let after_held = held(after.storage, round_id);
            match operation {
                Operation::FinalizeAndDistribute { .. } => {
                    &&& outflow(after.actions, env.contract) == outflow(env.actions, env.contract)
                        + before_held
                    &&& after_held == 0
                },
                _ => inflow(after.actions, env.contract) == inflow(env.actions, env.contract)
                    + after_held - before_held,
            }
        }),
{
    let s = env.storage;
    let round_id = operation.round(s);
    let actions = operation.after(env).actions;
    reveal_with_fuel(inflow, 3);
    assert(s.round_valid(round_id));
    match operation {
        Operation::CreateRound { .. } => {
            assert(actions.drop_last().drop_last() =~= env.actions);
        },
        Operation::FinalizeAndDistribute { admin, .. } => {
            law_payout_balances(env, admin, round_id);
        },
        _ => {
            assert(actions.drop_last() =~= env.actions);
        },
    }
}

/// Each project is given the reward of its place in the list.
pub(crate) proof fn lemma_rewarded_at(
    records: Map<(u64, Address), ProjectRecord>,
    round_id: u64,
    projects: Seq<Address>,
    amounts: Seq<int>,
    i: int,
)
    requires
        0 <= i < projects.len() == amounts.len(),
        projects.no_duplicates(),
    ensures
        rewarded(records, round_id, projects, amounts)[(round_id, projects[i])].reward
            == amounts[i] as i128,
    decreases projects.len(),
{
    let rest = projects.drop_last();
    if i < rest.len() {
        assert(rest[i] == projects[i]);
        assert(amounts.drop_last()[i] == amounts[i]);
        assert(rest.no_duplicates());
        assert(projects[i] != projects[projects.len() - 1]);
        lemma_rewarded_at(records, round_id, rest, amounts.drop_last(), i);
    }
}

/// A distribution records with each project the reward that it is paid.
pub proof fn law_rewards_are_recorded(env: RFView, admin: Address, round_id: u64, i: int)
    requires
        env.storage.valid(),
        finalize_and_distribute_step(env, admin, round_id) is Ok,
        0 <= i < env.storage.projects_of(round_id).len(),
        sum(env.storage.votes_of(round_id)) <= i128::MAX,
    ensures
        ({
            let s = env.storage;
            let after = finalize_and_distribute_step(env, admin, round_id)->Ok_0.0;
            let project = s.projects_of(round_id)[i];
            let amount = rewards(
                s.rounds[round_id].reward_pool as int,
                s.votes_of(round_id),
                s.total_votes_of(round_id),
            )[i];
            &&& after.storage.records[(round_id, project)].reward == amount
            &&& amount > 0 ==> after.actions.contains(
                Action::Transfer(
                    Transfer {
                        token: s.rounds[round_id].token,
                        from: env.contract,
                        to: project,
                        amount: amount as i128,
                    },
                ),
            )
        }),
{
    let s = env.storage;
    let round = s.rounds[round_id];
    let votes = s.votes_of(round_id);
    let amounts = rewards(round.reward_pool as int, votes, s.total_votes_of(round_id));
    let projects = s.projects_of(round_id);
    let after = finalize_and_distribute_step(env, admin, round_id)->Ok_0.0;
    assert(s.round_valid(round_id));
    law_pool_is_paid_out(s, round_id);
    lemma_sum_bounds(amounts);
    lemma_rewarded_at(s.records, round_id, projects, amounts, i);
    if amounts[i] > 0 {
        lemma_payout_has_reward(
            env.contract,
            round.token,
            round_id,
            projects,
            votes,
            amounts,
            i,
        );
        let all = payouts(env.contract, round.token, round_id, projects, votes, amounts);
        let payment = Action::<RFEvent>::Transfer(
            Transfer {
                token: round.token,
                from: env.contract,
                to: projects[i],
                amount: amounts[i] as i128,
            },
        );
        let k = choose|k: int| 0 <= k < all.len() && all[k] == payment;
        assert(after.actions[env.actions.len() + k] == payment);
    }
}

/// The payouts hold the payment of each positive reward.
proof fn lemma_payout_has_reward(
    contract: Address,
    token: Address,
    r: u64,
    projects: Seq<Address>,
    votes: Seq<int>,
    amounts: Seq<int>,
    i: int,
)
    requires
        0 <= i < projects.len() == amounts.len(),
        amounts[i] > 0,
    ensures
        payouts(contract, token, r, projects, votes, amounts).contains(
            Action::<RFEvent>::Transfer(
                Transfer {
                    token,
                    from: contract,
                    to: projects[i],
                    amount: amounts[i] as i128,
                },
            ),
        ),
    decreases projects.len(),
{
    let payment = Action::<RFEvent>::Transfer(
        Transfer { token, from: contract, to: projects[i], amount: amounts[i] as i128 },
    );
    let rest = projects.drop_last();
    let less = amounts.drop_last();
    let earlier = payouts(contract, token, r, rest, votes.drop_last(), less);
    let all = payouts(contract, token, r, projects, votes, amounts);
    if i < rest.len() {
        assert(rest[i] == projects[i] && less[i] == amounts[i]);
        lemma_payout_has_reward(contract, token, r, rest, votes.drop_last(), less, i);
        let k = choose|k: int| 0 <= k < earlier.len() && earlier[k] == payment;
        assert(all[k] == payment);
    } else {
        assert(all[earlier.len() as int] == payment);
    }
}

} // verus!
