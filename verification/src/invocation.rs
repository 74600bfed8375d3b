//! What one invocation of the contract sees and does.
use crate::address::Address;
use vstd::prelude::*;

verus! {

/// A payment of `amount` units of `token`.
#[derive(Copy, Clone, Debug, PartialEq, Eq)]
pub struct Transfer {
    pub token: Address,
    pub from: Address,
    pub to: Address,
    pub amount: i128,
}

/// Something that the host is to do before the invocation ends.
#[derive(Debug, PartialEq, Eq)]
pub enum Action<E> {
    Transfer(Transfer),
    Publish(E),
}

/// The environment of one invocation.
pub struct Invocation<S, E> {
    /// The handle on the host.
    pub host: soroban_sdk::Env,
    /// The address of the contract itself.
    pub contract: Address,
    /// The time of the ledger, in seconds.
    pub timestamp: u64,
    /// The stored entries.
    pub storage: S,
    /// What the host is to do, in order.
    pub actions: Vec<Action<E>>,
}

/// The model of an environment.
#[verifier::ext_equal]
pub struct InvocationView<S, E> {
    pub contract: Address,
    pub timestamp: u64,
    pub storage: S,
    pub actions: Seq<Action<E>>,
}

impl<S: View, E> View for Invocation<S, E> {
    type V = InvocationView<S::V, E>;

    open spec fn view(&self) -> InvocationView<S::V, E> {
        InvocationView {
            contract: self.contract,
            timestamp: self.timestamp,
            storage: self.storage@,
            actions: self.actions@,
        }
    }
}

impl<S: View, E> Invocation<S, E> {
    /// The environment at the start of an invocation, when nothing has been asked of the host.
    pub fn new(
        host: soroban_sdk::Env,
        contract: Address,
        timestamp: u64,
        storage: S,
    ) -> (r: Invocation<S, E>)
        ensures
            r@ == (InvocationView {
                contract,
                timestamp,
                storage: storage@,
                actions: Seq::<Action<E>>::empty(),
            }),
    {
        Invocation { host, contract, timestamp, storage, actions: Vec::new() }
    }
}

impl<S, E> InvocationView<S, E> {
    /// The environment after an operation that leaves `storage` behind and asks for `actions`.
    pub open spec fn leaving(self, storage: S, actions: Seq<Action<E>>) -> InvocationView<S, E> {
        InvocationView { storage, actions: self.actions + actions, ..self }
    }
}

/// What the actions pay out of the given address.
pub open spec fn outflow<E>(actions: Seq<Action<E>>, from: Address) -> int
    decreases actions.len(),
{
    if actions.len() == 0 {
        0
    } else {
        outflow(actions.drop_last(), from) + match actions.last() {
            Action::Transfer(transfer) => if transfer.from == from {
                transfer.amount as int
            } else {
                0
            },
            Action::Publish(_) => 0,
        }
    }
}

/// What the actions pay to the given address.
pub open spec fn inflow<E>(actions: Seq<Action<E>>, to: Address) -> int
    decreases actions.len(),
{
    if actions.len() == 0 {
        0
    } else {
        inflow(actions.drop_last(), to) + match actions.last() {
            Action::Transfer(transfer) => if transfer.to == to {
                transfer.amount as int
            } else {
                0
            },
            Action::Publish(_) => 0,
        }
    }
}

/// By how much the actions change what the account has of the token.
pub open spec fn moved<E>(actions: Seq<Action<E>>, token: Address, account: Address) -> int
    decreases actions.len(),
{
    if actions.len() == 0 {
        0
    } else {
        moved(actions.drop_last(), token, account) + match actions.last() {
            Action::Transfer(transfer) => if transfer.token == token {
                (if transfer.to == account {
                    transfer.amount as int
                } else {
                    0
                }) - (if transfer.from == account {
                    transfer.amount as int
                } else {
                    0
                })
            } else {
                0
            },
            Action::Publish(_) => 0,
        }
    }
}

/// The actions only pay the token out of the account, to others.
pub open spec fn pays_out<E>(actions: Seq<Action<E>>, token: Address, account: Address) -> bool {
    forall|i: int|
        0 <= i < actions.len() ==> (#[trigger] actions[i] matches Action::Transfer(transfer) ==> {
            &&& transfer.token == token
            &&& transfer.from == account
            &&& transfer.to != account
        })
}

/// What two sequences of actions move is the sum of what each of them moves.
pub proof fn lemma_moved_concat<E>(
    a: Seq<Action<E>>,
    b: Seq<Action<E>>,
    token: Address,
    account: Address,
)
    ensures
        moved(a + b, token, account) == moved(a, token, account) + moved(b, token, account),
    decreases b.len(),
{
    if b.len() == 0 {
        assert(a + b =~= a);
    } else {
        lemma_moved_concat(a, b.drop_last(), token, account);
        assert((a + b).drop_last() =~= a + b.drop_last());
    }
}

/// Actions that only pay a token out take from the account what flows out of it, and nothing of
/// any other token.
pub proof fn lemma_pays_out<E>(
    actions: Seq<Action<E>>,
    token: Address,
    account: Address,
    other: Address,
)
    requires
        pays_out(actions, token, account),
    ensures
        moved(actions, token, account) == -outflow(actions, account),
        other != token ==> moved(actions, other, account) == 0,
    decreases actions.len(),
{
    if actions.len() > 0 {
        let rest = actions.drop_last();
        assert forall|i: int| 0 <= i < rest.len() implies (
        #[trigger] rest[i] matches Action::Transfer(transfer) ==> {
            &&& transfer.token == token
            &&& transfer.from == account
            &&& transfer.to != account
        }) by {
            assert(rest[i] == actions[i]);
        }
        lemma_pays_out(rest, token, account, other);
        assert(actions.last() == actions[actions.len() - 1]);
    }
}

/// The outflow of two sequences of actions is the sum of their outflows.
pub proof fn lemma_outflow_concat<E>(a: Seq<Action<E>>, b: Seq<Action<E>>, from: Address)
    ensures
        outflow(a + b, from) == outflow(a, from) + outflow(b, from),
    decreases b.len(),
{
    if b.len() == 0 {
        assert(a + b =~= a);
    } else {
        lemma_outflow_concat(a, b.drop_last(), from);
        assert((a + b).drop_last() =~= a + b.drop_last());
    }
}

/// An operation of the contract in the model: the environment and the value that it leaves, or
/// the error with which it is refused.
pub open spec fn follows<S, E, T, X>(
    before: InvocationView<S, E>,
    step: Result<(InvocationView<S, E>, T), X>,
    after: InvocationView<S, E>,
    result: Result<T, X>,
) -> bool {
    match step {
        Ok((env, value)) => after == env && result == Ok::<T, X>(value),
        Err(error) => after == before && result == Err::<T, X>(error),
    }
}

/// What is done and answered is what the operation leaves: an operation that is not refused leaves
/// its environment behind and answers with its value, and one that is refused leaves everything as
/// it was and answers with the error.
pub proof fn law_outcome_is_that_of_the_operation<S, E, T, X>(
    before: InvocationView<S, E>,
    step: Result<(InvocationView<S, E>, T), X>,
    after: InvocationView<S, E>,
    result: Result<T, X>,
)
    requires
        follows(before, step, after, result),
    ensures
        result is Ok <==> step is Ok,
        step is Ok ==> after == step->Ok_0.0 && result->Ok_0 == step->Ok_0.1,
        step is Err ==> after == before && result->Err_0 == step->Err_0,
{
}

} // verus!
