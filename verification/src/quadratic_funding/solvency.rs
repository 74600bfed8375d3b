//! The contract has at least the tokens that it holds for its rounds.
use super::laws::{
    after_calls, law_empty_is_valid, law_operations_keep_valid, lemma_contribute_valid,
    nothing_stored, Call, Operation,
};
use super::model::{distribute_matching_step, match_amounts, payouts, project_payout, refunds};
use super::payout_laws::{held, law_payout_balances};
use super::{QFState, QFView};
use crate::address::Address;
use crate::amounts::{lemma_sum_push, lemma_sum_update, sum};
use crate::invocation::{
    lemma_moved_concat, lemma_outflow_concat, lemma_pays_out, moved, pays_out, Action,
};
use vstd::prelude::*;

verus! {

/// What the contract holds of the token for the round.
pub open spec fn held_of(s: QFState, token: Address, round_id: u64) -> int {
    if s.rounds.contains_key(round_id) && s.rounds[round_id].token == token {
        held(s, round_id)
    } else {
        0
    }
}

/// What the contract holds of the token for each round, in the order of the rounds.
pub open spec fn holdings(s: QFState, token: Address) -> Seq<int> {
    Seq::new(s.next_id() as nat, |i: int| held_of(s, token, i as u64))
}

impl Operation {
    /// Those who pay in, and the project, are not the contract itself.
    pub open spec fn from_outside(self, contract: Address) -> bool {
        match self {
            Operation::CreateRound { admin, .. } => admin != contract,
            Operation::Contribute { contributor, project, .. } => contributor != contract && project
                != contract,
            _ => true,
        }
    }
}

impl QFState {
    /// The contract itself is neither a project nor a contributor.
    pub open spec fn without(self, contract: Address) -> bool {
        forall|r: u64, p: Address, c: Address| #[trigger]
            self.contributions.contains_key((r, p, c)) ==> p != contract && c != contract
    }
}

/// The calls come from outside, and the ids and lists that they extend are not used up.
pub open spec fn calls_ordinary(contract: Address, storage: QFState, calls: Seq<Call>) -> bool
    decreases calls.len(),
{
    calls.len() > 0 ==> {
        let earlier = calls.drop_last();
        let operation = calls.last().operation;
        let env = calls.last().start(contract, after_calls(contract, storage, earlier));
        &&& calls_ordinary(contract, storage, earlier)
        &&& operation.in_range(env)
        &&& operation.from_outside(contract)
    }
}

/// What the contract has of the token after the calls, if it had nothing before.
pub open spec fn balance(
    contract: Address,
    storage: QFState,
    calls: Seq<Call>,
    token: Address,
) -> int
    decreases calls.len(),
{
    if calls.len() == 0 {
        0
    } else {
        let earlier = calls.drop_last();
        let env = calls.last().start(contract, after_calls(contract, storage, earlier));
        balance(contract, storage, earlier, token) + moved(
            calls.last().operation.after(env).actions,
            token,
            contract,
        )
    }
}

/// The contributions are paid back to others than the contract.
proof fn lemma_refunds_pay_out(
    s: QFState,
    contract: Address,
    token: Address,
    r: u64,
    p: Address,
    contributors: Seq<Address>,
)
    requires
        s.without(contract),
    ensures
        pays_out(refunds(s, contract, token, r, p, contributors), token, contract),
    decreases contributors.len(),
{
    if contributors.len() > 0 {
        lemma_refunds_pay_out(s, contract, token, r, p, contributors.drop_last());
    }
}

/// A payout pays others than the contract.
proof fn lemma_payouts_pay_out(
    s: QFState,
    contract: Address,
    token: Address,
    r: u64,
    projects: Seq<Address>,
    amounts: Seq<int>,
)
    requires
        s.without(contract),
        !projects.contains(contract),
    ensures
        pays_out(payouts(s, contract, token, r, projects, amounts), token, contract),
    decreases projects.len(),
{
    if projects.len() > 0 {
        let rest = projects.drop_last();
        let p = projects.last();
        assert(projects[projects.len() - 1] == p);
        if rest.contains(contract) {
            let i = choose|i: int| 0 <= i < rest.len() && rest[i] == contract;
            assert(projects[i] == contract);
        }
        lemma_payouts_pay_out(s, contract, token, r, rest, amounts.drop_last());
        lemma_refunds_pay_out(s, contract, token, r, p, s.contributors_of(r, p));
        let returned = refunds(s, contract, token, r, p, s.contributors_of(r, p));
        let own = project_payout(s, contract, token, r, p, amounts.last());
        let shift: int = if amounts.last() > 0 {
            1
        } else {
            0
        };
        assert forall|i: int| 0 <= i < own.len() implies (
        #[trigger] own[i] matches Action::Transfer(transfer) ==> {
            &&& transfer.token == token
            &&& transfer.from == contract
            &&& transfer.to != contract
        }) by {
            if shift <= i < shift + returned.len() {
                assert(own[i] == returned[i - shift]);
            }
        }
    }
}

/// Replacing what is held for one round changes what is held in all by the difference.
proof fn lemma_one_round_changes(s: QFState, t: QFState, token: Address, round_id: u64)
    requires
        t.next_id() == s.next_id(),
        round_id < s.next_id(),
        forall|r: u64| r != round_id ==> #[trigger] held_of(t, token, r) == held_of(s, token, r),
    ensures
        sum(holdings(t, token)) == sum(holdings(s, token)) + held_of(t, token, round_id) - held_of(
            s,
            token,
            round_id,
        ),
{
    let before = holdings(s, token);
    let after = held_of(t, token, round_id);
    assert(holdings(t, token) =~= before.update(round_id as int, after));
    lemma_sum_update(before, round_id as int, after);
}

/// A payout moves no more out of the contract than is held for the round.
proof fn lemma_distribution_covered(env: QFView, admin: Address, round_id: u64, token: Address)
    requires
        env.storage.valid(),
        env.storage.without(env.contract),
        distribute_matching_step(env, admin, round_id) is Ok,
    ensures
        ({
            let after = distribute_matching_step(env, admin, round_id)->Ok_0.0;
            moved(after.actions, token, env.contract) - moved(env.actions, token, env.contract)
                >= sum(holdings(after.storage, token)) - sum(holdings(env.storage, token))
        }),
{
    let s = env.storage;
    let round = s.rounds[round_id];
    let after = distribute_matching_step(env, admin, round_id)->Ok_0.0;
    let t = after.storage;
    let projects = s.projects_of(round_id);
    let amounts = match_amounts(round.matching_pool as int, s.weights_of(round_id));
    let paid_out = payouts(s, env.contract, round.token, round_id, projects, amounts);
    assert(s.round_valid(round_id));
    assert forall|r: u64| r != round_id implies #[trigger] held_of(t, token, r) == held_of(
        s,
        token,
        r,
    ) by {
        assert(t.given_in(r) =~= s.given_in(r));
    }
    lemma_one_round_changes(s, t, token, round_id);
    if projects.contains(env.contract) {
        let cs = s.contributors_of(round_id, env.contract);
        assert(s.project_valid(round_id, env.contract));
        assert(s.contribution_valid(round_id, env.contract, cs[0]));
        assert(cs.contains(cs[0]));
        assert(s.contributions.contains_key((round_id, env.contract, cs[0])));
    }
    lemma_payouts_pay_out(s, env.contract, round.token, round_id, projects, amounts);
    lemma_pays_out(paid_out, round.token, env.contract, token);
    assert(after.actions.drop_last() =~= env.actions + paid_out);
    lemma_moved_concat(env.actions, paid_out, token, env.contract);
    if projects.len() > 0 {
        law_payout_balances(env, admin, round_id);
        lemma_outflow_concat(env.actions, paid_out, env.contract);
    } else {
        assert(s.given_in(round_id) =~= Seq::<int>::empty());
    }
}

/// An operation brings into the contract at least by how much more it then holds for its rounds.
pub proof fn law_operations_are_covered(env: QFView, operation: Operation, token: Address)
    requires
        env.storage.valid(),
        env.storage.without(env.contract),
        operation.in_range(env),
        operation.from_outside(env.contract),
    ensures
        operation.after(env).storage.without(env.contract),
        moved(operation.after(env).actions, token, env.contract) - moved(
            env.actions,
            token,
            env.contract,
        ) >= sum(holdings(operation.after(env).storage, token)) - sum(
            holdings(env.storage, token),
        ),
{
    let s = env.storage;
    let t = operation.after(env).storage;
    let round_id = operation.round(s);
    let actions = operation.after(env).actions;
    assert(s.round_valid(round_id));
    reveal_with_fuel(moved, 3);
    if operation.refusal(env) is None {
        match operation {
            Operation::CreateRound { .. } => {
                assert(actions.drop_last().drop_last() =~= env.actions);
                assert(t.given_in(round_id) =~= Seq::<int>::empty());
                assert forall|i: int| 0 <= i < s.next_id() implies #[trigger] holdings(t, token)[i]
                    == holdings(s, token)[i] by {
                    assert(t.given_in(i as u64) =~= s.given_in(i as u64));
                }
                let own = held_of(t, token, round_id);
                assert(holdings(t, token) =~= holdings(s, token).push(own));
                lemma_sum_push(holdings(s, token), own);
            },
            Operation::Contribute { contributor, project, amount, .. } => {
                assert(actions.drop_last().drop_last() =~= env.actions);
                lemma_contribute_valid(env, contributor, round_id, project, amount);
                assert forall|r: u64| r != round_id implies #[trigger] held_of(t, token, r)
                    == held_of(s, token, r) by {
                    assert(t.given_in(r) == s.given_in(r));
                }
                lemma_one_round_changes(s, t, token, round_id);
            },
            Operation::FinalizeRound { .. } => {
                assert(actions.drop_last() =~= env.actions);
                assert forall|r: u64| #[trigger] held_of(t, token, r) == held_of(s, token, r) by {
                    assert(t.given_in(r) =~= s.given_in(r));
                }
                assert(holdings(t, token) =~= holdings(s, token));
            },
            Operation::DistributeMatching { admin, .. } => {
                lemma_distribution_covered(env, admin, round_id, token);
            },
        }
    }
}

/// Whatever calls are made from the start on, the contract has at least the tokens that it holds
/// for its rounds. It has more where the pool of a round without projects has stayed with it. This
/// leaves out calls by which the contract would pay itself.
pub proof fn law_contract_has_what_it_holds(contract: Address, calls: Seq<Call>, token: Address)
    requires
        calls_ordinary(contract, nothing_stored(), calls),
    ensures
        balance(contract, nothing_stored(), calls, token) >= sum(
            holdings(after_calls(contract, nothing_stored(), calls), token),
        ),
{
    lemma_covered_over_calls(contract, calls, token);
}

/// The induction behind the law.
proof fn lemma_covered_over_calls(contract: Address, calls: Seq<Call>, token: Address)
    requires
        calls_ordinary(contract, nothing_stored(), calls),
    ensures
        after_calls(contract, nothing_stored(), calls).valid(),
        after_calls(contract, nothing_stored(), calls).without(contract),
        balance(contract, nothing_stored(), calls, token) >= sum(
            holdings(after_calls(contract, nothing_stored(), calls), token),
        ),
    decreases calls.len(),
{
    if calls.len() == 0 {
        law_empty_is_valid();
        assert(holdings(nothing_stored(), token) =~= Seq::<int>::empty());
    } else {
        let earlier = calls.drop_last();
        lemma_covered_over_calls(contract, earlier, token);
        let env = calls.last().start(contract, after_calls(contract, nothing_stored(), earlier));
        law_operations_keep_valid(env, calls.last().operation);
        law_operations_are_covered(env, calls.last().operation, token);
    }
}

} // verus!
