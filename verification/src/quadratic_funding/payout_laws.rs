//! What holds of the payout of a round, and of the weights behind it.
use super::laws::{
    law_projects_have_weight, lemma_contribute_valid, lemma_sqrt_scaled_sign, Operation,
};
use super::model::{
    distribute_matching_step, match_amounts, match_due, match_dues, match_estimate, payouts,
    project_payout, refunds, weight,
};
use super::{
    lemma_match_dues_sum, lemma_weights_not_negative, sqrt_scaled, QFEvent, QFState, QFView,
    RoundStatus, PRECISION,
};
use crate::address::Address;
use crate::amounts::{lemma_sum_bounds, lemma_sum_zeros, sum};
use crate::invocation::{
    inflow, lemma_moved_concat, lemma_outflow_concat, moved, outflow, Action, Transfer,
};
use crate::shares::{
    lemma_dues_short_of_exact, lemma_dues_within_pool, lemma_paid_is_sum, lemma_settled_sum,
    lemma_share_grows, paid, share,
};
use crate::sqrt::{floor_sqrt, lemma_floor_sqrt_exists, lemma_floor_sqrt_unique};
use vstd::prelude::*;

verus! {

/// What is known of the split of a pool among projects of the given weights.
pub(crate) proof fn lemma_split(pool: int, weights: Seq<int>)
    requires
        0 < pool,
        0 < weights.len(),
        forall|i: int| 0 <= i < weights.len() ==> 0 <= #[trigger] weights[i],
    ensures
        match_amounts(pool, weights).len() == weights.len(),
        0 <= sum(match_dues(pool, weights)) <= pool,
        forall|i: int|
            0 <= i < weights.len() - 1 ==> #[trigger] match_amounts(pool, weights)[i] == match_due(
                pool,
                weights[i],
                sum(weights),
            ),
        match_amounts(pool, weights).last() == pool - sum(match_dues(pool, weights)),
        forall|i: int|
            0 <= i < weights.len() ==> 0 <= #[trigger] match_amounts(pool, weights)[i],
{
    let dues = match_dues(pool, weights);
    lemma_match_dues_sum(pool, weights);
    let amounts = match_amounts(pool, weights);
    assert forall|i: int| 0 <= i < weights.len() implies 0 <= #[trigger] amounts[i] by {
        if i < dues.len() {
            assert(amounts[i] == dues[i]);
        }
    }
}

/// The matching pool is paid out to the last unit, in amounts that are not negative, as long as
/// there is a project. A round without projects pays nothing.
pub proof fn law_pool_is_paid_out(s: QFState, round_id: u64)
    requires
        s.valid(),
        s.rounds.contains_key(round_id),
    ensures
        ({
            let pool = s.rounds[round_id].matching_pool as int;
            let amounts = match_amounts(pool, s.weights_of(round_id));
            &&& amounts.len() == s.projects_of(round_id).len()
            &&& forall|i: int| 0 <= i < amounts.len() ==> 0 <= #[trigger] amounts[i]
            &&& amounts.len() > 0 ==> sum(amounts) == pool && paid(amounts) == pool
            &&& amounts.len() == 0 ==> paid(amounts) == 0
        }),
{
    let pool = s.rounds[round_id].matching_pool as int;
    let weights = s.weights_of(round_id);
    assert(s.round_valid(round_id));
    if weights.len() > 0 {
        lemma_weights_not_negative(s, round_id);
        lemma_split(pool, weights);
        lemma_settled_sum(pool, match_dues(pool, weights));
        lemma_paid_is_sum(match_amounts(pool, weights));
    }
}

/// The pool is split in proportion to the weights: each project but the last gets its exact part
/// rounded down, and the last gets at least that, and less than one unit more for each of the
/// others.
pub proof fn law_split_in_proportion(pool: int, weights: Seq<int>, i: int)
    requires
        0 < pool,
        0 <= i < weights.len(),
        forall|j: int| 0 <= j < weights.len() ==> 0 <= #[trigger] weights[j],
        0 < sum(weights),
    ensures
        ({
            let exact = share(pool, weights[i], sum(weights));
            let amount = match_amounts(pool, weights)[i];
            &&& i < weights.len() - 1 ==> amount == exact
            &&& i == weights.len() - 1 ==> exact <= amount < exact + weights.len()
        }),
{
    lemma_split(pool, weights);
    let n = weights.len() as int;
    if i == n - 1 {
        let parts = weights.drop_last();
        let dues = match_dues(pool, weights);
        let total = sum(weights);
        let w = weights.last();
        let d = sum(dues);
        let k = dues.len() as int;
        let last = pool - d;
        let exact = share(pool, w, total);
        assert(w == weights[n - 1]);
        assert forall|j: int| 0 <= j < dues.len() implies #[trigger] dues[j] == share(
            pool,
            parts[j],
            total,
        ) by {}
        assert forall|j: int| 0 <= j < parts.len() implies 0 <= #[trigger] parts[j] by {
            assert(parts[j] == weights[j]);
        }
        lemma_dues_short_of_exact(pool, parts, total, dues);
        lemma_all_dues(pool, weights);
        assert(pool * sum(parts) == pool * total - pool * w) by (nonlinear_arith)
            requires
                sum(parts) == total - w,
        ;
        assert(last - k <= exact) by (nonlinear_arith)
            requires
                pool * total - pool * w <= (d + k) * total,
                last == pool - d,
                exact == pool * w / total,
                0 < total,
        {
            assert((last - k) * total <= pool * w);
            assert((exact + 1) * total > pool * w);
        }
    }
}

/// The exact parts of all projects, rounded down, add up to no more than the pool.
proof fn lemma_all_dues(pool: int, weights: Seq<int>)
    requires
        0 < pool,
        0 < weights.len(),
        forall|j: int| 0 <= j < weights.len() ==> 0 <= #[trigger] weights[j],
        0 < sum(weights),
    ensures
        sum(match_dues(pool, weights)) + share(pool, weights.last(), sum(weights)) <= pool,
{
    let total = sum(weights);
    let all = weights.map_values(|w: int| share(pool, w, total));
    lemma_dues_within_pool(pool, weights, total, all);
    assert(all.drop_last() =~= match_dues(pool, weights));
}

/// A project of no smaller weight gets no smaller a match, wherever it is listed after the other.
pub proof fn law_more_weight_no_less_match(pool: int, weights: Seq<int>, i: int, j: int)
    requires
        0 < pool,
        0 <= i < j < weights.len(),
        forall|k: int| 0 <= k < weights.len() ==> 0 <= #[trigger] weights[k],
        0 < sum(weights),
    ensures
        weights[i] <= weights[j] ==> match_amounts(pool, weights)[i] <= match_amounts(
            pool,
            weights,
        )[j],
        weights[j] <= weights[i] && j < weights.len() - 1 ==> match_amounts(pool, weights)[j]
            <= match_amounts(pool, weights)[i],
{
    law_split_in_proportion(pool, weights, i);
    law_split_in_proportion(pool, weights, j);
    if weights[i] <= weights[j] {
        lemma_share_grows(pool, weights[i], weights[j], sum(weights));
    } else {
        lemma_share_grows(pool, weights[j], weights[i], sum(weights));
    }
}

/// The estimate for a project is what the project is paid out of the pool, except that the last
/// project of the round is also paid what rounding leaves over.
pub proof fn law_estimate_is_what_is_paid(s: QFState, round_id: u64, i: int)
    requires
        s.valid(),
        s.rounds.contains_key(round_id),
        0 <= i < s.projects_of(round_id).len(),
    ensures
        ({
            let n = s.projects_of(round_id).len();
            let estimate = match_estimate(s, round_id, s.projects_of(round_id)[i]);
            let amount = match_amounts(
                s.rounds[round_id].matching_pool as int,
                s.weights_of(round_id),
            )[i];
            &&& i < n - 1 ==> estimate == amount
            &&& i == n - 1 ==> estimate <= amount < estimate + n
            &&& n == 1 ==> estimate == s.rounds[round_id].matching_pool
        }),
{
    let weights = s.weights_of(round_id);
    let pool = s.rounds[round_id].matching_pool as int;
    let project = s.projects_of(round_id)[i];
    assert(s.round_valid(round_id));
    lemma_weights_not_negative(s, round_id);
    assert(s.projects_of(round_id).contains(project));
    assert(weights[i] == s.weight_of(round_id, project));
    law_projects_have_weight(s, round_id, project);
    lemma_sum_bounds(weights);
    law_split_in_proportion(pool, weights, i);
    if weights.len() == 1 {
        assert(sum(weights.drop_last()) == 0);
        vstd::arithmetic::div_mod::lemma_div_by_multiple(pool, weights[0]);
    }
}

/// The outflow of refunds is what the contributors gave, and each of them is paid.
pub(crate) proof fn lemma_refunds(
    s: QFState,
    contract: Address,
    token: Address,
    r: u64,
    p: Address,
    contributors: Seq<Address>,
)
    requires
        forall|i: int|
            0 <= i < contributors.len() ==> s.contributions.contains_key(
                (r, p, #[trigger] contributors[i]),
            ),
    ensures
        outflow(refunds(s, contract, token, r, p, contributors), contract) == sum(
            contributors.map_values(|c: Address| s.contributions[(r, p, c)].amount as int),
        ),
        refunds(s, contract, token, r, p, contributors).len() == contributors.len(),
        forall|i: int|
            0 <= i < contributors.len() ==> #[trigger] refunds(
                s,
                contract,
                token,
                r,
                p,
                contributors,
            )[i] == Action::<QFEvent>::Transfer(
                Transfer {
                    token,
                    from: contract,
                    to: contributors[i],
                    amount: s.contributions[(r, p, contributors[i])].amount,
                },
            ),
    decreases contributors.len(),
{
    let amounts = contributors.map_values(
        |c: Address| s.contributions[(r, p, c)].amount as int,
    );
    if contributors.len() > 0 {
        let rest = contributors.drop_last();
        assert forall|i: int| 0 <= i < rest.len() implies s.contributions.contains_key(
            (r, p, #[trigger] rest[i]),
        ) by {
            assert(rest[i] == contributors[i]);
        }
        lemma_refunds(s, contract, token, r, p, rest);
        assert(s.contributions.contains_key((r, p, contributors[contributors.len() - 1])));
        let earlier = refunds(s, contract, token, r, p, rest);
        let all = refunds(s, contract, token, r, p, contributors);
        assert(all.drop_last() =~= earlier);
        assert(amounts.drop_last() =~= rest.map_values(
            |c: Address| s.contributions[(r, p, c)].amount as int,
        ));
        assert forall|i: int| 0 <= i < contributors.len() implies #[trigger] all[i] == Action::<
            QFEvent,
        >::Transfer(
            Transfer {
                token,
                from: contract,
                to: contributors[i],
                amount: s.contributions[(r, p, contributors[i])].amount,
            },
        ) by {
            if i < rest.len() {
                assert(all[i] == earlier[i]);
                assert(rest[i] == contributors[i]);
            }
        }
    }
}

/// The outflow of the payouts is what is paid of the amounts and what was given to the projects.
proof fn lemma_payouts(
    s: QFState,
    contract: Address,
    token: Address,
    r: u64,
    projects: Seq<Address>,
    amounts: Seq<int>,
)
    requires
        s.valid(),
        projects.len() == amounts.len(),
        forall|i: int| 0 <= i < amounts.len() ==> #[trigger] amounts[i] <= i128::MAX,
    ensures
        outflow(payouts(s, contract, token, r, projects, amounts), contract) == paid(amounts) + sum(
            projects.map_values(|p: Address| sum(s.amounts_of(r, p))),
        ),
    decreases projects.len(),
{
    let given = projects.map_values(|p: Address| sum(s.amounts_of(r, p)));
    if projects.len() > 0 {
        let rest = projects.drop_last();
        let less = amounts.drop_last();
        assert forall|i: int| 0 <= i < less.len() implies #[trigger] less[i] <= i128::MAX by {
            assert(less[i] == amounts[i]);
        }
        lemma_payouts(s, contract, token, r, rest, less);
        assert(given.drop_last() =~= rest.map_values(|p: Address| sum(s.amounts_of(r, p))));
        let p = projects.last();
        let amount = amounts.last();
        assert(amount == amounts[amounts.len() - 1]);
        let contributors = s.contributors_of(r, p);
        lemma_listed_have_contributed(s, r, p);
        lemma_refunds(s, contract, token, r, p, contributors);
        let earlier = payouts(s, contract, token, r, rest, less);
        let own = project_payout(s, contract, token, r, p, amount);
        lemma_outflow_concat(earlier, own, contract);
        let returned = refunds(s, contract, token, r, p, contributors);
        let payment = Action::<QFEvent>::Transfer(
            Transfer { token, from: contract, to: p, amount: amount as i128 },
        );
        if amount > 0 {
            assert(own.drop_last() =~= seq![payment] + returned);
            lemma_outflow_concat(seq![payment], returned, contract);
            assert(seq![payment].drop_last() =~= Seq::<Action<QFEvent>>::empty());
            assert(outflow(seq![payment], contract) == amount) by {
                reveal_with_fuel(outflow, 2);
            }
        } else {
            assert(own.drop_last() =~= returned);
        }
    }
}

/// Whoever is listed as a contributor has a contribution.
pub(crate) proof fn lemma_listed_have_contributed(s: QFState, r: u64, p: Address)
    requires
        s.valid(),
    ensures
        forall|i: int|
            0 <= i < s.contributors_of(r, p).len() ==> s.contributions.contains_key(
                (r, p, #[trigger] s.contributors_of(r, p)[i]),
            ),
{
    let cs = s.contributors_of(r, p);
    assert forall|i: int| 0 <= i < cs.len() implies s.contributions.contains_key(
        (r, p, #[trigger] cs[i]),
    ) by {
        assert(s.contribution_valid(r, p, cs[i]));
        assert(cs.contains(cs[i]));
    }
}

/// A distribution pays out of the contract what the round brought into it and no more: the
/// matching pool, as long as there is a project, and the contributions.
pub proof fn law_payout_balances(env: QFView, admin: Address, round_id: u64)
    requires
        env.storage.valid(),
        distribute_matching_step(env, admin, round_id) is Ok,
        0 < env.storage.projects_of(round_id).len(),
    ensures
        ({
            let s = env.storage;
            let after = distribute_matching_step(env, admin, round_id)->Ok_0.0;
            let given = sum(s.given_in(round_id));
            &&& outflow(after.actions, env.contract) == outflow(env.actions, env.contract)
                + s.rounds[round_id].matching_pool + given
            &&& given <= i128::MAX ==> given == s.rounds[round_id].total_contributions
        }),
{
    let s = env.storage;
    let round = s.rounds[round_id];
    let amounts = match_amounts(round.matching_pool as int, s.weights_of(round_id));
    let projects = s.projects_of(round_id);
    let after = distribute_matching_step(env, admin, round_id)->Ok_0.0;
    assert(s.round_valid(round_id));
    law_pool_is_paid_out(s, round_id);
    lemma_sum_bounds(amounts);
    lemma_payouts(s, env.contract, round.token, round_id, projects, amounts);
    let paid_out = payouts(s, env.contract, round.token, round_id, projects, amounts);
    assert(after.actions.drop_last() =~= env.actions + paid_out);
    lemma_outflow_concat(env.actions, paid_out, env.contract);
    assert forall|i: int| 0 <= i < s.given_in(round_id).len() implies 0
        <= #[trigger] s.given_in(round_id)[i] by {
        lemma_amounts_not_negative(s, round_id, projects[i]);
    }
    lemma_sum_bounds(s.given_in(round_id));
}

/// What the contract holds for a round: the pool and the contributions, until it is paid out.
pub open spec fn held(s: QFState, round_id: u64) -> int {
    if s.rounds.contains_key(round_id) && s.rounds[round_id].status != RoundStatus::Distributed {
        s.rounds[round_id].matching_pool + sum(s.given_in(round_id))
    } else {
        0
    }
}

/// The contract holds for a round what was paid into it: opening a round and contributing bring in
/// by how much more is held, closing it moves nothing, and the payout takes out all that is held.
/// This leaves out the payout of a round without projects, whose pool stays.
pub proof fn law_held_is_what_was_paid_in(env: QFView, operation: Operation)
    requires
        env.storage.valid(),
        operation.in_range(env),
        operation.refusal(env) is None,
        operation is DistributeMatching ==> 0 < env.storage.projects_of(
            operation.round(env.storage),
        ).len(),
    ensures
        ({
            let after = operation.after(env);
            let round_id = operation.round(env.storage);
            let before_held = held(env.storage, round_id);
            let after_held = held(after.storage, round_id);
            match operation {
                Operation::DistributeMatching { .. } => {
                    &&& outflow(after.actions, env.contract) == outflow(env.actions, env.contract)
                        + before_held
                    &&& after_held == 0
                },
                _ => inflow(after.actions, env.contract) == inflow(env.actions, env.contract)
                    + after_held - before_held,
            }
        }),
{
    let s = env.storage;
    let t = operation.after(env).storage;
    let round_id = operation.round(s);
    let actions = operation.after(env).actions;
    reveal_with_fuel(inflow, 3);
    assert(s.round_valid(round_id));
    match operation {
        Operation::CreateRound { .. } => {
            assert(actions.drop_last().drop_last() =~= env.actions);
            assert(t.given_in(round_id) =~= Seq::<int>::empty());
        },
        Operation::Contribute { contributor, project, amount, .. } => {
            assert(actions.drop_last().drop_last() =~= env.actions);
            lemma_contribute_valid(env, contributor, round_id, project, amount);
        },
        Operation::FinalizeRound { .. } => {
            assert(actions.drop_last() =~= env.actions);
            assert(t.given_in(round_id) =~= s.given_in(round_id));
        },
        Operation::DistributeMatching { admin, .. } => {
            law_payout_balances(env, admin, round_id);
        },
    }
}

/// What was given to a project is not negative.
proof fn lemma_amounts_not_negative(s: QFState, r: u64, p: Address)
    requires
        s.valid(),
    ensures
        0 <= sum(s.amounts_of(r, p)),
{
    let cs = s.contributors_of(r, p);
    assert forall|i: int| 0 <= i < cs.len() implies 0 <= #[trigger] s.amounts_of(r, p)[i] by {
        assert(s.contribution_valid(r, p, cs[i]));
        assert(cs.contains(cs[i]));
    }
    lemma_sum_bounds(s.amounts_of(r, p));
}

/// Every contribution to a project of the round is paid back to its contributor when the round is
/// paid out.
pub proof fn law_contributions_come_back(
    env: QFView,
    admin: Address,
    round_id: u64,
    project: Address,
    contributor: Address,
)
    requires
        env.storage.valid(),
        distribute_matching_step(env, admin, round_id) is Ok,
        env.storage.contributions.contains_key((round_id, project, contributor)),
    ensures
        distribute_matching_step(env, admin, round_id)->Ok_0.0.actions.contains(
            Action::Transfer(
                Transfer {
                    token: env.storage.rounds[round_id].token,
                    from: env.contract,
                    to: contributor,
                    amount: env.storage.contributions[(round_id, project, contributor)].amount,
                },
            ),
        ),
{
    let s = env.storage;
    let round = s.rounds[round_id];
    let amounts = match_amounts(round.matching_pool as int, s.weights_of(round_id));
    let projects = s.projects_of(round_id);
    assert(s.contribution_valid(round_id, project, contributor));
    assert(s.project_valid(round_id, project));
    let i = choose|i: int| 0 <= i < projects.len() && projects[i] == project;
    lemma_payout_has_refund(
        s,
        env.contract,
        round.token,
        round_id,
        projects,
        amounts,
        i,
        contributor,
    );
    let all = payouts(s, env.contract, round.token, round_id, projects, amounts);
    let refund = Action::<QFEvent>::Transfer(
        Transfer {
            token: round.token,
            from: env.contract,
            to: contributor,
            amount: s.contributions[(round_id, project, contributor)].amount,
        },
    );
    let k = choose|k: int| 0 <= k < all.len() && all[k] == refund;
    let after = distribute_matching_step(env, admin, round_id)->Ok_0.0.actions;
    assert(after[env.actions.len() + k] == refund);
}

/// The payouts hold the refund of each contributor to each project.
proof fn lemma_payout_has_refund(
    s: QFState,
    contract: Address,
    token: Address,
    r: u64,
    projects: Seq<Address>,
    amounts: Seq<int>,
    i: int,
    c: Address,
)
    requires
        s.valid(),
        0 <= i < projects.len(),
        s.contributions.contains_key((r, projects[i], c)),
    ensures
        payouts(s, contract, token, r, projects, amounts).contains(
            Action::<QFEvent>::Transfer(
                Transfer {
                    token,
                    from: contract,
                    to: c,
                    amount: s.contributions[(r, projects[i], c)].amount,
                },
            ),
        ),
    decreases projects.len(),
{
    let p = projects[i];
    let refund = Action::<QFEvent>::Transfer(
        Transfer { token, from: contract, to: c, amount: s.contributions[(r, p, c)].amount },
    );
    let rest = projects.drop_last();
    let earlier = payouts(s, contract, token, r, rest, amounts.drop_last());
    let all = payouts(s, contract, token, r, projects, amounts);
    if i < rest.len() {
        assert(rest[i] == p);
        lemma_payout_has_refund(s, contract, token, r, rest, amounts.drop_last(), i, c);
        let k = choose|k: int| 0 <= k < earlier.len() && earlier[k] == refund;
        assert(all[k] == refund);
    } else {
        let cs = s.contributors_of(r, p);
        assert(s.contribution_valid(r, p, c));
        let j = choose|j: int| 0 <= j < cs.len() && cs[j] == c;
        lemma_listed_have_contributed(s, r, p);
        lemma_refunds(s, contract, token, r, p, cs);
        let returned = refunds(s, contract, token, r, p, cs);
        let own = project_payout(s, contract, token, r, p, amounts.last());
        let skip: int = if amounts.last() > 0 {
            1
        } else {
            0
        };
        assert(returned[j] == refund);
        assert(own[skip + j] == refund);
        assert(all[earlier.len() + skip + j] == refund);
    }
}

/// What the account contributed to the project in the round.
pub open spec fn contributed(s: QFState, round_id: u64, project: Address, account: Address) -> int {
    if s.contributions.contains_key((round_id, project, account)) {
        s.contributions[(round_id, project, account)].amount as int
    } else {
        0
    }
}

/// What the account contributed to each project of the round, in the order of the projects.
pub open spec fn given_by(s: QFState, round_id: u64, account: Address) -> Seq<int> {
    s.projects_of(round_id).map_values(|p: Address| contributed(s, round_id, p, account))
}

/// Contributors get back all that they gave and no more: the payout of a round brings to an
/// account, other than the contract and the projects, the sum of what it contributed in the round.
pub proof fn law_contributions_come_back_in_full(
    env: QFView,
    admin: Address,
    round_id: u64,
    account: Address,
)
    requires
        env.storage.valid(),
        distribute_matching_step(env, admin, round_id) is Ok,
        account != env.contract,
        !env.storage.projects_of(round_id).contains(account),
    ensures
        ({
            let token = env.storage.rounds[round_id].token;
            let after = distribute_matching_step(env, admin, round_id)->Ok_0.0;
            moved(after.actions, token, account) - moved(env.actions, token, account) == sum(
                given_by(env.storage, round_id, account),
            )
        }),
        forall|p: Address| #[trigger]
            env.storage.contributions.contains_key((round_id, p, account))
                ==> env.storage.projects_of(round_id).contains(p),
{
    let s = env.storage;
    let round = s.rounds[round_id];
    let amounts = match_amounts(round.matching_pool as int, s.weights_of(round_id));
    let projects = s.projects_of(round_id);
    let after = distribute_matching_step(env, admin, round_id)->Ok_0.0;
    let all = payouts(s, env.contract, round.token, round_id, projects, amounts);
    assert(s.round_valid(round_id));
    law_pool_is_paid_out(s, round_id);
    lemma_sum_bounds(amounts);
    lemma_payouts_return(s, env.contract, round.token, round_id, projects, amounts, account);
    assert forall|j: int| 0 <= j < projects.len() implies #[trigger] matches_of(
        projects,
        amounts,
        account,
    )[j] == 0 by {
        assert(projects.contains(projects[j]));
    }
    lemma_sum_zeros(matches_of(projects, amounts, account));
    assert(after.actions.drop_last() =~= env.actions + all);
    lemma_moved_concat(env.actions, all, round.token, account);
    assert forall|p: Address| #[trigger]
        s.contributions.contains_key((round_id, p, account)) implies projects.contains(p) by {
        assert(s.contribution_valid(round_id, p, account));
        assert(s.project_valid(round_id, p));
    }
}

/// What the account is paid as a project, by the places of the projects.
pub open spec fn matches_of(projects: Seq<Address>, amounts: Seq<int>, account: Address) -> Seq<
    int,
> {
    Seq::new(
        projects.len(),
        |j: int|
            if projects[j] == account && amounts[j] > 0 {
                amounts[j]
            } else {
                0
            },
    )
}

/// The payout of a list of projects brings to an account what it contributed to them, and what it
/// is matched with as a project.
pub(crate) proof fn lemma_payouts_return(
    s: QFState,
    contract: Address,
    token: Address,
    r: u64,
    projects: Seq<Address>,
    amounts: Seq<int>,
    account: Address,
)
    requires
        s.valid(),
        account != contract,
        projects.len() == amounts.len(),
        forall|j: int| 0 <= j < amounts.len() ==> #[trigger] amounts[j] <= i128::MAX,
    ensures
        moved(payouts(s, contract, token, r, projects, amounts), token, account) == sum(
            projects.map_values(|p: Address| contributed(s, r, p, account)),
        ) + sum(matches_of(projects, amounts, account)),
    decreases projects.len(),
{
    let given = projects.map_values(|p: Address| contributed(s, r, p, account));
    if projects.len() > 0 {
        let rest = projects.drop_last();
        let p = projects.last();
        assert(projects[projects.len() - 1] == p);
        assert(amounts[amounts.len() - 1] == amounts.last());
        assert forall|j: int| 0 <= j < amounts.drop_last().len() implies
            #[trigger] amounts.drop_last()[j] <= i128::MAX by {
            assert(amounts.drop_last()[j] == amounts[j]);
        }
        lemma_payouts_return(s, contract, token, r, rest, amounts.drop_last(), account);
        assert(matches_of(projects, amounts, account).drop_last() =~= matches_of(
            rest,
            amounts.drop_last(),
            account,
        ));
        assert(given.drop_last() =~= rest.map_values(
            |p: Address| contributed(s, r, p, account),
        ));
        let contributors = s.contributors_of(r, p);
        assert(s.project_valid(r, p));
        assert(s.contribution_valid(r, p, account));
        lemma_refunds_return(s, contract, token, r, p, contributors, account);
        let own = project_payout(s, contract, token, r, p, amounts.last());
        let returned = refunds(s, contract, token, r, p, contributors);
        lemma_moved_concat(
            payouts(s, contract, token, r, rest, amounts.drop_last()),
            own,
            token,
            account,
        );
        let payment = Action::<QFEvent>::Transfer(
            Transfer { token, from: contract, to: p, amount: amounts.last() as i128 },
        );
        if amounts.last() > 0 {
            assert(own.drop_last() =~= seq![payment] + returned);
            lemma_moved_concat(seq![payment], returned, token, account);
            assert(seq![payment].drop_last() =~= Seq::<Action<QFEvent>>::empty());
            assert(moved(seq![payment], token, account) == if p == account {
                amounts.last()
            } else {
                0
            }) by {
                reveal_with_fuel(moved, 2);
            }
        } else {
            assert(own.drop_last() =~= returned);
        }
    }
}

/// The refunds of a project bring to an account what it contributed to the project.
proof fn lemma_refunds_return(
    s: QFState,
    contract: Address,
    token: Address,
    r: u64,
    p: Address,
    contributors: Seq<Address>,
    account: Address,
)
    requires
        account != contract,
        contributors.no_duplicates(),
    ensures
        moved(refunds(s, contract, token, r, p, contributors), token, account)
            == if contributors.contains(account) {
            contributed(s, r, p, account)
        } else {
            0
        },
    decreases contributors.len(),
{
    if contributors.len() > 0 {
        let rest = contributors.drop_last();
        let last = contributors.last();
        assert(contributors[contributors.len() - 1] == last);
        assert(rest.no_duplicates());
        lemma_refunds_return(s, contract, token, r, p, rest, account);
        if rest.contains(account) {
            let i = choose|i: int| 0 <= i < rest.len() && rest[i] == account;
            assert(contributors[i] == account);
            assert(last != account);
        } else if contributors.contains(account) {
            let i = choose|i: int| 0 <= i < contributors.len() && contributors[i] == account;
            assert(i < rest.len() ==> rest[i] == account);
        }
        let all = refunds(s, contract, token, r, p, contributors);
        if s.contributions.contains_key((r, p, last)) {
            assert(all.drop_last() =~= refunds(s, contract, token, r, p, rest));
        }
    }
}

/// Two contributions have together a larger square root than a single one of the same amount.
proof fn lemma_split_contribution(a: int, b: int)
    requires
        0 < a,
        0 < b,
    ensures
        sqrt_scaled(a + b) < sqrt_scaled(a) + sqrt_scaled(b),
{
    let x = a * PRECISION * PRECISION;
    let y = b * PRECISION * PRECISION;
    let r = sqrt_scaled(a);
    let q = sqrt_scaled(b);
    let t = sqrt_scaled(a + b);
    assert((a + b) * PRECISION * PRECISION == x + y);
    lemma_floor_sqrt_exists(x);
    lemma_floor_sqrt_exists(y);
    lemma_floor_sqrt_exists(x + y);
    lemma_sqrt_scaled_sign(a);
    lemma_sqrt_scaled_sign(b);
    assert(t < r + q) by (nonlinear_arith)
        requires
            t * t <= x + y,
            x < (r + 1) * (r + 1),
            y < (q + 1) * (q + 1),
            3 <= r,
            3 <= q,
            0 <= t,
    {
        assert((r - 1) * (q - 1) >= 4);
        assert((r + q) * (r + q) == r * r + q * q + 2 * (r * q));
        assert((r + 1) * (r + 1) + (q + 1) * (q + 1) == r * r + q * q + 2 * (r + q + 1));
        assert(r * q >= r + q + 1);
        assert(t * t < (r + q) * (r + q));
    }
}

/// Many small contributions weigh more than a large one: the square roots of several amounts add
/// up to more than the square root of their sum, so that a project that has them weighs more than
/// one that has their sum from a single contributor.
pub proof fn law_many_small_outweigh_one_large(amounts: Seq<int>)
    requires
        0 < amounts.len(),
        forall|i: int| 0 <= i < amounts.len() ==> 0 < #[trigger] amounts[i],
    ensures
        ({
            let roots = sum(amounts.map_values(|a: int| sqrt_scaled(a)));
            &&& amounts.len() == 1 ==> weight(roots) == weight(sqrt_scaled(sum(amounts)))
            &&& amounts.len() > 1 ==> weight(roots) > weight(sqrt_scaled(sum(amounts)))
        }),
{
    let roots = sum(amounts.map_values(|a: int| sqrt_scaled(a)));
    let whole = sqrt_scaled(sum(amounts));
    lemma_many_small_roots(amounts);
    lemma_sqrt_scaled_sign(sum(amounts));
    if amounts.len() > 1 {
        assert(roots * roots > whole * whole) by (nonlinear_arith)
            requires
                roots > whole,
                0 <= whole,
        ;
    }
}

/// The square roots of several amounts add up to more than the square root of their sum.
proof fn lemma_many_small_roots(amounts: Seq<int>)
    requires
        0 < amounts.len(),
        forall|i: int| 0 <= i < amounts.len() ==> 0 < #[trigger] amounts[i],
    ensures
        ({
            let roots = sum(amounts.map_values(|a: int| sqrt_scaled(a)));
            &&& amounts.len() == 1 ==> roots == sqrt_scaled(sum(amounts))
            &&& amounts.len() > 1 ==> roots > sqrt_scaled(sum(amounts))
        }),
    decreases amounts.len(),
{
    let roots = amounts.map_values(|a: int| sqrt_scaled(a));
    let rest = amounts.drop_last();
    assert(roots.drop_last() =~= rest.map_values(|a: int| sqrt_scaled(a)));
    assert(amounts.last() == amounts[amounts.len() - 1]);
    if amounts.len() > 1 {
        assert forall|i: int| 0 <= i < rest.len() implies 0 < #[trigger] rest[i] by {
            assert(rest[i] == amounts[i]);
        }
        lemma_many_small_roots(rest);
        lemma_sum_bounds(rest);
        assert(rest[0] <= sum(rest));
        lemma_split_contribution(sum(rest), amounts.last());
    } else {
        assert(rest =~= Seq::<int>::empty());
        assert(roots.drop_last() =~= Seq::<int>::empty());
        assert(sum(amounts) == amounts.last());
        assert(sum(roots) == roots.last());
    }
}

/// The fixed-point sum of the square roots is the sum of the square roots to within one unit of
/// `1 / PRECISION` for each of them: however much finer the unit in which the roots are taken, the
/// sum of the finer roots lies within that range.
pub proof fn law_roots_are_true_to_the_unit(amounts: Seq<int>, finer: int)
    requires
        0 < finer,
        forall|i: int| 0 <= i < amounts.len() ==> 0 < #[trigger] amounts[i],
    ensures
        ({
            let roots = sum(amounts.map_values(|a: int| sqrt_scaled(a)));
            let fine = sum(
                amounts.map_values(
                    |a: int| floor_sqrt(a * (PRECISION * finer) * (PRECISION * finer)),
                ),
            );
            &&& roots * finer <= fine
            &&& 0 < amounts.len() ==> fine < (roots + amounts.len()) * finer
        }),
    decreases amounts.len(),
{
    let roots = amounts.map_values(|a: int| sqrt_scaled(a));
    let fines = amounts.map_values(
        |a: int| floor_sqrt(a * (PRECISION * finer) * (PRECISION * finer)),
    );
    if amounts.len() > 0 {
        let rest = amounts.drop_last();
        assert forall|i: int| 0 <= i < rest.len() implies 0 < #[trigger] rest[i] by {
            assert(rest[i] == amounts[i]);
        }
        law_roots_are_true_to_the_unit(rest, finer);
        assert(roots.drop_last() =~= rest.map_values(|a: int| sqrt_scaled(a)));
        assert(fines.drop_last() =~= rest.map_values(
            |a: int| floor_sqrt(a * (PRECISION * finer) * (PRECISION * finer)),
        ));
        assert(amounts.last() == amounts[amounts.len() - 1]);
        lemma_finer_root(amounts.last(), finer);
        let before = sum(roots.drop_last());
        let r = roots.last();
        let n = rest.len() as int;
        assert((before + r) * finer == before * finer + r * finer) by (nonlinear_arith);
        assert((before + r + (n + 1)) * finer == (before + n) * finer + (r + 1) * finer)
            by (nonlinear_arith);
        assert(rest.len() == 0 ==> before == 0 && sum(fines.drop_last()) == 0);
        assert(0 * finer == 0) by (nonlinear_arith);
    } else {
        assert(0 * finer == 0) by (nonlinear_arith);
    }
}

/// A root taken in finer units lies within one of the coarser units.
proof fn lemma_finer_root(a: int, finer: int)
    requires
        0 < a,
        0 < finer,
    ensures
        ({
            let fine = floor_sqrt(a * (PRECISION * finer) * (PRECISION * finer));
            sqrt_scaled(a) * finer <= fine < (sqrt_scaled(a) + 1) * finer
        }),
{
    let n = a * PRECISION * PRECISION;
    let m = a * (PRECISION * finer) * (PRECISION * finer);
    let r = sqrt_scaled(a);
    let f = floor_sqrt(m);
    assert(m == n * (finer * finer) && 0 <= m) by (nonlinear_arith)
        requires
            n == a * PRECISION * PRECISION,
            m == a * (PRECISION * finer) * (PRECISION * finer),
            0 < a,
            0 < finer,
    ;
    lemma_floor_sqrt_exists(n);
    lemma_floor_sqrt_exists(m);
    let low = r * finer;
    let high = (r + 1) * finer;
    assert(low * low <= m < high * high) by (nonlinear_arith)
        requires
            low == r * finer,
            high == (r + 1) * finer,
            m == n * (finer * finer),
            r * r <= n < (r + 1) * (r + 1),
            0 < finer,
    {
        assert(low * low == (r * r) * (finer * finer));
        assert(high * high == ((r + 1) * (r + 1)) * (finer * finer));
        assert(0 < finer * finer);
    }
    assert(0 <= low && 0 <= high) by (nonlinear_arith)
        requires
            low == r * finer,
            high == (r + 1) * finer,
            0 <= r,
            0 < finer,
    ;
    assert(low <= f < high) by (nonlinear_arith)
        requires
            low * low <= m < high * high,
            f * f <= m < (f + 1) * (f + 1),
            0 <= f,
            0 <= low,
            0 <= high,
    ;
}

/// Contributions of perfect squares weigh exactly the square of the sum of their roots.
pub proof fn law_squares_weigh_exactly(roots: Seq<int>)
    requires
        forall|i: int| 0 <= i < roots.len() ==> 0 <= #[trigger] roots[i],
    ensures
        weight(sum(roots.map_values(|k: int| sqrt_scaled(k * k)))) == sum(roots) * sum(roots)
            * PRECISION * PRECISION,
{
    lemma_sqrt_of_squares(roots);
    let k = sum(roots);
    assert((k * PRECISION) * (k * PRECISION) == k * k * PRECISION * PRECISION)
        by (nonlinear_arith);
}

/// The scaled square roots of perfect squares are exact.
proof fn lemma_sqrt_of_squares(roots: Seq<int>)
    requires
        forall|i: int| 0 <= i < roots.len() ==> 0 <= #[trigger] roots[i],
    ensures
        sum(roots.map_values(|k: int| sqrt_scaled(k * k))) == sum(roots) * PRECISION,
    decreases roots.len(),
{
    let scaled = roots.map_values(|k: int| sqrt_scaled(k * k));
    if roots.len() > 0 {
        let rest = roots.drop_last();
        assert forall|i: int| 0 <= i < rest.len() implies 0 <= #[trigger] rest[i] by {
            assert(rest[i] == roots[i]);
        }
        lemma_sqrt_of_squares(rest);
        assert(scaled.drop_last() =~= rest.map_values(|k: int| sqrt_scaled(k * k)));
        let k = roots.last();
        assert(k == roots[roots.len() - 1]);
        let n = k * k * PRECISION * PRECISION;
        let r = k * PRECISION;
        if k > 0 {
            assert(k * k > 0) by (nonlinear_arith)
                requires
                    k > 0,
            ;
            assert(r * r == n && n < (r + 1) * (r + 1)) by (nonlinear_arith)
                requires
                    n == k * k * PRECISION * PRECISION,
                    r == k * PRECISION,
                    k > 0,
            ;
            lemma_floor_sqrt_unique(n, r);
        } else {
            assert(k * k == 0) by (nonlinear_arith)
                requires
                    k == 0,
            ;
        }
    }
}

} // verus!
