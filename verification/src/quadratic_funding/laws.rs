//! What holds of quadratic funding as a whole.
use super::model::{
    contribute_step, contribution_in_range, create_round_step, distribute_matching_step,
    finalize_round_step,
};
use super::{
    lemma_root_bound, sqrt_scaled, FundingRound, QFError, QFState, QFView, RoundStatus, PRECISION,
    ROOT_BOUND,
};
use crate::address::Address;
use crate::amounts::{clamped, lemma_sum_bounds, lemma_sum_push, lemma_sum_update, sum};
use crate::invocation::InvocationView;
use crate::sqrt::{is_floor_sqrt, lemma_floor_sqrt_exists};
use vstd::prelude::*;

verus! {

/// An operation with its arguments.
pub enum Operation {
    CreateRound { admin: Address, token: Address, matching_pool: i128, duration_seconds: u64 },
    Contribute { contributor: Address, round_id: u64, project: Address, amount: i128 },
    FinalizeRound { admin: Address, round_id: u64 },
    DistributeMatching { admin: Address, round_id: u64 },
}

impl Operation {
    /// The environment after the operation. A refused operation changes nothing.
    pub open spec fn after(self, env: QFView) -> QFView {
        match self {
            Operation::CreateRound { admin, token, matching_pool, duration_seconds } => {
                match create_round_step(env, admin, token, matching_pool, duration_seconds) {
                    Ok((after, _)) => after,
                    Err(_) => env,
                }
            },
            Operation::Contribute { contributor, round_id, project, amount } => {
                match contribute_step(env, contributor, round_id, project, amount) {
                    Ok((after, _)) => after,
                    Err(_) => env,
                }
            },
            Operation::FinalizeRound { admin, round_id } => {
                match finalize_round_step(env, admin, round_id) {
                    Ok((after, _)) => after,
                    Err(_) => env,
                }
            },
            Operation::DistributeMatching { admin, round_id } => {
                match distribute_matching_step(env, admin, round_id) {
                    Ok((after, _)) => after,
                    Err(_) => env,
                }
            },
        }
    }

    /// The ids and lists that the operation extends are not used up.
    pub open spec fn in_range(self, env: QFView) -> bool {
        match self {
            Operation::CreateRound { .. } => env.storage.next_id() < u64::MAX,
            Operation::Contribute { round_id, project, .. } => contribution_in_range(
                env.storage,
                round_id,
                project,
            ),
            Operation::FinalizeRound { .. } => true,
            Operation::DistributeMatching { .. } => true,
        }
    }
}

/// An operation at a time of the ledger.
pub struct Call {
    pub timestamp: u64,
    pub operation: Operation,
}

impl Call {
    /// The environment in which the call starts.
    pub open spec fn start(self, contract: Address, storage: QFState) -> QFView {
        InvocationView { contract, timestamp: self.timestamp, storage, actions: Seq::empty() }
    }

    /// What is stored after the call.
    pub open spec fn after(self, contract: Address, storage: QFState) -> QFState {
        self.operation.after(self.start(contract, storage)).storage
    }
}

/// What is stored after the calls, made one after the other.
pub open spec fn after_calls(contract: Address, storage: QFState, calls: Seq<Call>) -> QFState
    decreases calls.len(),
{
    if calls.len() == 0 {
        storage
    } else {
        calls.last().after(contract, after_calls(contract, storage, calls.drop_last()))
    }
}

/// The ids and lists that the calls extend are not used up.
pub open spec fn calls_in_range(contract: Address, storage: QFState, calls: Seq<Call>) -> bool
    decreases calls.len(),
{
    calls.len() > 0 ==> {
        let earlier = calls.drop_last();
        &&& calls_in_range(contract, storage, earlier)
        &&& calls.last().operation.in_range(
            calls.last().start(contract, after_calls(contract, storage, earlier)),
        )
    }
}

/// What is stored before the first operation.
pub open spec fn nothing_stored() -> QFState {
    QFState {
        round_ctr: None,
        rounds: Map::empty(),
        contributions: Map::empty(),
        sqrt_sums: Map::empty(),
        contributors: Map::empty(),
        projects: Map::empty(),
    }
}

impl QFState {
    /// The amounts contributed to the project in the round, in the order of the contributors.
    pub open spec fn amounts_of(self, round_id: u64, project: Address) -> Seq<int> {
        self.contributors_of(round_id, project).map_values(
            |c: Address| self.contributions[(round_id, project, c)].amount as int,
        )
    }

    /// The scaled square roots of these amounts.
    pub open spec fn roots_of(self, round_id: u64, project: Address) -> Seq<int> {
        self.contributors_of(round_id, project).map_values(
            |c: Address| sqrt_scaled(self.contributions[(round_id, project, c)].amount as int),
        )
    }

    /// What each project of the round was given, in the order of the projects.
    pub open spec fn given_in(self, round_id: u64) -> Seq<int> {
        self.projects_of(round_id).map_values(|p: Address| sum(self.amounts_of(round_id, p)))
    }

    /// The entries of the round fit together: its projects are distinct, and its record has the
    /// id under which it is stored, a pool, and the sum of what was contributed.
    pub open spec fn round_valid(self, round_id: u64) -> bool {
        let round = self.rounds[round_id];
        &&& self.projects_of(round_id).no_duplicates()
        &&& self.projects_of(round_id).len() > 0 ==> self.rounds.contains_key(round_id)
        &&& self.rounds.contains_key(round_id) ==> {
            &&& round_id < self.next_id()
            &&& round.round_id == round_id
            &&& round.matching_pool > 0
            &&& round.total_contributions == clamped(sum(self.given_in(round_id)))
        }
    }

    /// The entries of the project fit together: it is a project of the round if it has
    /// contributors, the contributors are distinct and are those with a contribution, and the
    /// stored sum of square roots is that of their contributions.
    pub open spec fn project_valid(self, round_id: u64, project: Address) -> bool {
        let contributors = self.contributors_of(round_id, project);
        &&& contributors.no_duplicates()
        &&& self.projects_of(round_id).contains(project) <==> contributors.len() > 0
        &&& contributors.len() <= u32::MAX
        &&& self.sqrt_sum_of(round_id, project) == sum(self.roots_of(round_id, project))
    }

    /// The entry of the contributor is there if the contributor is listed, and says what it is
    /// stored under.
    pub open spec fn contribution_valid(self, round_id: u64, project: Address, c: Address) -> bool {
        let key = (round_id, project, c);
        &&& self.contributions.contains_key(key) <==> self.contributors_of(
            round_id,
            project,
        ).contains(c)
        &&& self.contributions.contains_key(key) ==> {
            &&& self.contributions[key].round_id == round_id
            &&& self.contributions[key].project == project
            &&& self.contributions[key].contributor == c
            &&& 0 < self.contributions[key].amount
        }
    }

    /// The stored entries fit together.
    pub open spec fn valid(self) -> bool {
        &&& forall|r: u64| #[trigger] self.round_valid(r)
        &&& forall|r: u64, p: Address| #[trigger] self.project_valid(r, p)
        &&& forall|r: u64, p: Address, c: Address| #[trigger] self.contribution_valid(r, p, c)
    }
}

/// A scaled square root is not negative, and is positive for a positive amount.
pub proof fn lemma_sqrt_scaled_sign(amount: int)
    ensures
        0 <= sqrt_scaled(amount),
        amount > 0 ==> PRECISION <= sqrt_scaled(amount),
{
    if amount > 0 {
        let n = amount * PRECISION * PRECISION;
        lemma_floor_sqrt_exists(n);
        let r = sqrt_scaled(amount);
        assert(PRECISION <= r) by (nonlinear_arith)
            requires
                0 <= r,
                n < (r + 1) * (r + 1),
                n >= PRECISION * PRECISION,
        ;
    }
}

/// The scaled square root of an `i128` is within bounds.
proof fn lemma_sqrt_scaled_bound(amount: int)
    requires
        amount <= i128::MAX,
    ensures
        sqrt_scaled(amount) < ROOT_BOUND,
{
    if amount > 0 {
        lemma_floor_sqrt_exists(amount * PRECISION * PRECISION);
        lemma_root_bound(amount * PRECISION * PRECISION, sqrt_scaled(amount));
    }
}

/// Numbers within a bound add up to no more than their number times the bound.
proof fn lemma_sum_within(s: Seq<int>, bound: int)
    requires
        forall|i: int| 0 <= i < s.len() ==> #[trigger] s[i] <= bound,
    ensures
        sum(s) <= s.len() * bound,
    decreases s.len(),
{
    if s.len() > 0 {
        let rest = s.drop_last();
        assert forall|i: int| 0 <= i < rest.len() implies #[trigger] rest[i] <= bound by {
            assert(rest[i] == s[i]);
        }
        lemma_sum_within(rest, bound);
        assert(s[s.len() - 1] <= bound);
        assert((rest.len() + 1) * bound == rest.len() * bound + bound) by (nonlinear_arith);
    } else {
        assert(0 * bound == 0) by (nonlinear_arith);
    }
}

/// The square roots of a project's contributions add up to an `i128`.
proof fn lemma_roots_bound(s: QFState, r: u64, p: Address)
    ensures
        sum(s.roots_of(r, p)) <= s.contributors_of(r, p).len() * ROOT_BOUND,
{
    let roots = s.roots_of(r, p);
    let cs = s.contributors_of(r, p);
    assert forall|i: int| 0 <= i < roots.len() implies #[trigger] roots[i] <= ROOT_BOUND by {
        lemma_sqrt_scaled_bound(s.contributions[(r, p, cs[i])].amount as int);
    }
    lemma_sum_within(roots, ROOT_BOUND as int);
}

/// Nothing stored fits together.
pub proof fn law_empty_is_valid()
    ensures
        nothing_stored().valid(),
{
    let s = nothing_stored();
    assert forall|r: u64| #[trigger] s.round_valid(r) by {}
    assert forall|r: u64, p: Address| #[trigger] s.project_valid(r, p) by {
        assert(s.roots_of(r, p) =~= Seq::<int>::empty());
    }
}

/// Where a later state has the same contributors and contributions of a project, its amounts and
/// roots are the same.
proof fn lemma_same_project(s: QFState, t: QFState, r: u64, p: Address)
    requires
        s.valid(),
        t.contributors_of(r, p) == s.contributors_of(r, p),
        forall|c: Address|
            s.contributions.contains_key((r, p, c)) ==> t.contributions[(r, p, c)]
                == #[trigger] s.contributions[(r, p, c)],
    ensures
        t.amounts_of(r, p) == s.amounts_of(r, p),
        t.roots_of(r, p) == s.roots_of(r, p),
{
    let cs = s.contributors_of(r, p);
    assert forall|i: int| 0 <= i < cs.len() implies t.contributions[(r, p, #[trigger] cs[i])]
        == s.contributions[(r, p, cs[i])] by {
        assert(s.contribution_valid(r, p, cs[i]));
        assert(cs.contains(cs[i]));
    }
    assert(t.amounts_of(r, p) =~= s.amounts_of(r, p));
    assert(t.roots_of(r, p) =~= s.roots_of(r, p));
}

/// What was given to the projects of a round, and to each project, is not negative.
proof fn lemma_given_not_negative(s: QFState, r: u64)
    requires
        s.valid(),
    ensures
        forall|p: Address| 0 <= #[trigger] sum(s.amounts_of(r, p)),
        forall|p: Address| 0 <= #[trigger] sum(s.roots_of(r, p)),
        forall|i: int| 0 <= i < s.given_in(r).len() ==> 0 <= #[trigger] s.given_in(r)[i],
        0 <= sum(s.given_in(r)),
{
    assert forall|p: Address|
        0 <= #[trigger] sum(s.amounts_of(r, p)) && 0 <= sum(s.roots_of(r, p)) by {
        let cs = s.contributors_of(r, p);
        assert forall|i: int| 0 <= i < cs.len() implies 0 <= #[trigger] s.amounts_of(r, p)[i] by {
            assert(s.contribution_valid(r, p, cs[i]));
            assert(cs.contains(cs[i]));
        }
        assert forall|i: int| 0 <= i < cs.len() implies 0 <= #[trigger] s.roots_of(r, p)[i] by {
            lemma_sqrt_scaled_sign(s.contributions[(r, p, cs[i])].amount as int);
        }
        lemma_sum_bounds(s.amounts_of(r, p));
        lemma_sum_bounds(s.roots_of(r, p));
    }
    assert forall|p: Address| 0 <= #[trigger] sum(s.roots_of(r, p)) by {
        assert(0 <= sum(s.amounts_of(r, p)));
    }
    lemma_sum_bounds(s.given_in(r));
}

/// A contribution keeps the entries fitting together, and adds to what was given in the round.
pub(crate) proof fn lemma_contribute_valid(
    env: QFView,
    contributor: Address,
    round_id: u64,
    project: Address,
    amount: i128,
)
    requires
        env.storage.valid(),
        contribution_in_range(env.storage, round_id, project),
        contribute_step(env, contributor, round_id, project, amount) is Ok,
    ensures
        contribute_step(env, contributor, round_id, project, amount)->Ok_0.0.storage.valid(),
        sum(
            contribute_step(env, contributor, round_id, project, amount)->Ok_0.0.storage.given_in(
                round_id,
            ),
        ) == sum(env.storage.given_in(round_id)) + amount,
        forall|r: u64|
            r != round_id ==> #[trigger] contribute_step(
                env,
                contributor,
                round_id,
                project,
                amount,
            )->Ok_0.0.storage.given_in(r) == env.storage.given_in(r),
{
    let s = env.storage;
    let t = contribute_step(env, contributor, round_id, project, amount)->Ok_0.0.storage;
    let before = s.contributors_of(round_id, project);
    assert(s.contribution_valid(round_id, project, contributor));
    assert(s.project_valid(round_id, project));
    assert(s.round_valid(round_id));
    assert(t.contributors_of(round_id, project) == before.push(contributor));

    assert forall|r: u64, p: Address, c: Address| #[trigger] t.contribution_valid(r, p, c) by {
        assert(s.contribution_valid(r, p, c));
        if r == round_id && p == project {
            let after = before.push(contributor);
            assert(after[before.len() as int] == contributor);
            if before.contains(c) {
                let i = choose|i: int| 0 <= i < before.len() && before[i] == c;
                assert(after[i] == c);
            }
            if after.contains(c) && c != contributor {
                let i = choose|i: int| 0 <= i < after.len() && after[i] == c;
                assert(before[i] == c);
            }
        }
    }
    assert forall|r: u64, p: Address| (r != round_id || p != project) implies {
        &&& #[trigger] t.contributors_of(r, p) == s.contributors_of(r, p)
        &&& t.amounts_of(r, p) == s.amounts_of(r, p)
        &&& t.roots_of(r, p) == s.roots_of(r, p)
    } by {
        lemma_same_project(s, t, r, p);
    }
    let amounts = s.amounts_of(round_id, project);
    let roots = s.roots_of(round_id, project);
    assert(t.amounts_of(round_id, project) =~= amounts.push(amount as int)
        && t.roots_of(round_id, project) =~= roots.push(sqrt_scaled(amount as int))) by {
        assert forall|i: int| 0 <= i < before.len() implies #[trigger] before[i] != contributor by {
            assert(before.contains(before[i]));
        }
    }
    lemma_sum_push(amounts, amount as int);
    lemma_sum_push(roots, sqrt_scaled(amount as int));
    lemma_given_not_negative(s, round_id);
    lemma_sqrt_scaled_sign(amount as int);
    lemma_sqrt_scaled_bound(amount as int);
    lemma_roots_bound(s, round_id, project);

    let listed = s.projects_of(round_id);
    assert forall|r: u64, p: Address| #[trigger] t.project_valid(r, p) by {
        assert(s.project_valid(r, p));
        if r == round_id {
            if p == project {
                if !listed.contains(project) {
                    assert(listed.push(project)[listed.len() as int] == project);
                }
                assert(0 <= sum(roots));
            } else if !listed.contains(project) {
                if listed.contains(p) {
                    let i = choose|i: int| 0 <= i < listed.len() && listed[i] == p;
                    assert(listed.push(project)[i] == p);
                }
                if listed.push(project).contains(p) {
                    let i = choose|i: int|
                        0 <= i < listed.len() + 1 && listed.push(project)[i] == p;
                    assert(listed[i] == p);
                }
            }
        }
    }
    let given = s.given_in(round_id);
    if listed.contains(project) {
        let k = choose|k: int| 0 <= k < listed.len() && listed[k] == project;
        assert(t.given_in(round_id) =~= given.update(k, given[k] + amount));
        lemma_sum_update(given, k, given[k] + amount);
    } else {
        assert(before.len() == 0);
        assert(amounts =~= Seq::<int>::empty());
        assert forall|i: int| 0 <= i < listed.len() implies #[trigger] listed[i] != project by {
            assert(listed.contains(listed[i]));
        }
        assert(t.given_in(round_id) =~= given.push(amount as int));
        lemma_sum_push(given, amount as int);
    }
    assert forall|r: u64| r != round_id implies #[trigger] t.given_in(r) == s.given_in(r) by {
        assert(t.given_in(r) =~= s.given_in(r));
    }
    assert forall|r: u64| #[trigger] t.round_valid(r) by {
        assert(s.round_valid(r));
        if r != round_id {
            assert(t.given_in(r) == s.given_in(r));
        }
    }
}

/// Opening a round keeps the entries fitting together.
proof fn lemma_create_round_valid(
    env: QFView,
    admin: Address,
    token: Address,
    matching_pool: i128,
    duration_seconds: u64,
)
    requires
        env.storage.valid(),
        env.storage.next_id() < u64::MAX,
        create_round_step(env, admin, token, matching_pool, duration_seconds) is Ok,
    ensures
        create_round_step(
            env,
            admin,
            token,
            matching_pool,
            duration_seconds,
        )->Ok_0.0.storage.valid(),
{
    let s = env.storage;
    let t = create_round_step(
        env,
        admin,
        token,
        matching_pool,
        duration_seconds,
    )->Ok_0.0.storage;
    lemma_same_lists(s, t);
    let id = s.next_id();
    assert forall|r: u64| #[trigger] t.round_valid(r) by {
        assert(s.round_valid(r));
        if r == id {
            assert(t.given_in(id) =~= Seq::<int>::empty());
        }
    }
}

/// Where only the records of rounds differ, contributions and projects still fit together, and
/// what was given is the same.
proof fn lemma_same_lists(s: QFState, t: QFState)
    requires
        s.valid(),
        t.contributions == s.contributions,
        t.sqrt_sums == s.sqrt_sums,
        t.contributors == s.contributors,
        t.projects == s.projects,
    ensures
        forall|r: u64, p: Address| #[trigger] t.project_valid(r, p),
        forall|r: u64, p: Address, c: Address| #[trigger] t.contribution_valid(r, p, c),
        forall|r: u64| #[trigger] t.given_in(r) == s.given_in(r),
        forall|r: u64| #[trigger] t.projects_of(r) == s.projects_of(r),
{
    assert forall|r: u64, p: Address| #[trigger] t.project_valid(r, p) by {
        assert(s.project_valid(r, p));
        assert(t.roots_of(r, p) =~= s.roots_of(r, p));
    }
    assert forall|r: u64, p: Address, c: Address| #[trigger] t.contribution_valid(r, p, c) by {
        assert(s.contribution_valid(r, p, c));
    }
    assert forall|r: u64| #[trigger] t.given_in(r) == s.given_in(r) by {
        assert forall|p: Address| #[trigger] t.amounts_of(r, p) == s.amounts_of(r, p) by {
            assert(t.amounts_of(r, p) =~= s.amounts_of(r, p));
        }
        assert(t.given_in(r) =~= s.given_in(r));
    }
}

/// Where a record changes in its status alone, the entries still fit together.
proof fn lemma_new_status_valid(s: QFState, round_id: u64, status: RoundStatus)
    requires
        s.valid(),
        s.rounds.contains_key(round_id),
    ensures
        (QFState {
            rounds: s.rounds.insert(round_id, FundingRound { status, ..s.rounds[round_id] }),
            ..s
        }).valid(),
{
    let t = QFState {
        rounds: s.rounds.insert(round_id, FundingRound { status, ..s.rounds[round_id] }),
        ..s
    };
    lemma_same_lists(s, t);
    assert forall|r: u64| #[trigger] t.round_valid(r) by {
        assert(s.round_valid(r));
    }
}

/// Every operation keeps the entries fitting together.
pub proof fn law_operations_keep_valid(env: QFView, operation: Operation)
    requires
        env.storage.valid(),
        operation.in_range(env),
    ensures
        operation.after(env).storage.valid(),
{
    match operation {
        Operation::CreateRound { admin, token, matching_pool, duration_seconds } => {
            if create_round_step(env, admin, token, matching_pool, duration_seconds) is Ok {
                lemma_create_round_valid(env, admin, token, matching_pool, duration_seconds);
            }
        },
        Operation::Contribute { contributor, round_id, project, amount } => {
            if contribute_step(env, contributor, round_id, project, amount) is Ok {
                lemma_contribute_valid(env, contributor, round_id, project, amount);
            }
        },
        Operation::FinalizeRound { admin, round_id } => {
            if finalize_round_step(env, admin, round_id) is Ok {
                lemma_new_status_valid(env.storage, round_id, RoundStatus::Finalized);
            }
        },
        Operation::DistributeMatching { admin, round_id } => {
            if distribute_matching_step(env, admin, round_id) is Ok {
                lemma_new_status_valid(env.storage, round_id, RoundStatus::Distributed);
            }
        },
    }
}

/// Whatever calls are made from the start on, the entries fit together.
pub proof fn law_reachable_is_valid(contract: Address, calls: Seq<Call>)
    requires
        calls_in_range(contract, nothing_stored(), calls),
    ensures
        after_calls(contract, nothing_stored(), calls).valid(),
    decreases calls.len(),
{
    if calls.len() == 0 {
        law_empty_is_valid();
    } else {
        let earlier = calls.drop_last();
        law_reachable_is_valid(contract, earlier);
        law_operations_keep_valid(
            calls.last().start(contract, after_calls(contract, nothing_stored(), earlier)),
            calls.last().operation,
        );
    }
}

/// How far along a status is.
pub open spec fn rank(status: RoundStatus) -> int {
    match status {
        RoundStatus::Active => 0,
        RoundStatus::Finalized => 1,
        RoundStatus::Distributed => 2,
    }
}

/// A later record of the same round: nothing has changed but the status, which has not gone back,
/// and the sum of the contributions, which has not shrunk.
pub open spec fn advanced(before: FundingRound, after: FundingRound) -> bool {
    &&& after == (FundingRound {
        status: after.status,
        total_contributions: after.total_contributions,
        ..before
    })
    &&& rank(before.status) <= rank(after.status)
    &&& before.total_contributions <= after.total_contributions
    &&& before.status != RoundStatus::Active ==> before.total_contributions
        == after.total_contributions
}

/// No operation loses a round, changes its terms, or takes its status back.
pub proof fn law_rounds_advance(env: QFView, operation: Operation, round_id: u64)
    requires
        env.storage.valid(),
        env.storage.rounds.contains_key(round_id),
    ensures
        operation.after(env).storage.rounds.contains_key(round_id),
        advanced(
            env.storage.rounds[round_id],
            operation.after(env).storage.rounds[round_id],
        ),
{
    assert(env.storage.round_valid(round_id));
}

/// However many calls are made, no round is lost, changes its terms, or goes back.
pub proof fn law_rounds_advance_over_calls(
    contract: Address,
    storage: QFState,
    calls: Seq<Call>,
    round_id: u64,
)
    requires
        storage.valid(),
        calls_in_range(contract, storage, calls),
        storage.rounds.contains_key(round_id),
    ensures
        after_calls(contract, storage, calls).valid(),
        after_calls(contract, storage, calls).rounds.contains_key(round_id),
        advanced(
            storage.rounds[round_id],
            after_calls(contract, storage, calls).rounds[round_id],
        ),
    decreases calls.len(),
{
    if calls.len() > 0 {
        let earlier = calls.drop_last();
        law_rounds_advance_over_calls(contract, storage, earlier, round_id);
        let env = calls.last().start(contract, after_calls(contract, storage, earlier));
        law_rounds_advance(env, calls.last().operation, round_id);
        law_operations_keep_valid(env, calls.last().operation);
    }
}

/// A round is paid out once: whatever calls come after a distribution, distributing again is
/// refused.
pub proof fn law_distributed_once(
    env: QFView,
    admin: Address,
    round_id: u64,
    calls: Seq<Call>,
    later: QFView,
    again: Address,
)
    requires
        env.storage.valid(),
        distribute_matching_step(env, admin, round_id) is Ok,
        calls_in_range(
            env.contract,
            distribute_matching_step(env, admin, round_id)->Ok_0.0.storage,
            calls,
        ),
        later.storage == after_calls(
            env.contract,
            distribute_matching_step(env, admin, round_id)->Ok_0.0.storage,
            calls,
        ),
    ensures
        distribute_matching_step(later, again, round_id) == Err::<(QFView, ()), QFError>(
            if again == admin {
                QFError::RoundNotFinalized
            } else {
                QFError::Unauthorized
            },
        ),
{
    lemma_new_status_valid(env.storage, round_id, RoundStatus::Distributed);
    law_rounds_advance_over_calls(
        env.contract,
        distribute_matching_step(env, admin, round_id)->Ok_0.0.storage,
        calls,
        round_id,
    );
}

/// A closed round stays closed: whatever calls come after its finalization, contributing to it is
/// refused.
pub proof fn law_closed_to_contributions(
    env: QFView,
    admin: Address,
    round_id: u64,
    calls: Seq<Call>,
    later: QFView,
    contributor: Address,
    project: Address,
    amount: i128,
)
    requires
        env.storage.valid(),
        finalize_round_step(env, admin, round_id) is Ok,
        calls_in_range(
            env.contract,
            finalize_round_step(env, admin, round_id)->Ok_0.0.storage,
            calls,
        ),
        later.storage == after_calls(
            env.contract,
            finalize_round_step(env, admin, round_id)->Ok_0.0.storage,
            calls,
        ),
    ensures
        contribute_step(later, contributor, round_id, project, amount) == Err::<
            (QFView, ()),
            QFError,
        >(
            if amount <= 0 {
                QFError::InvalidAmount
            } else {
                QFError::RoundNotActive
            },
        ),
{
    lemma_new_status_valid(env.storage, round_id, RoundStatus::Finalized);
    law_rounds_advance_over_calls(
        env.contract,
        finalize_round_step(env, admin, round_id)->Ok_0.0.storage,
        calls,
        round_id,
    );
}

/// No operation changes or removes a contribution.
pub proof fn law_contributions_stand(
    env: QFView,
    operation: Operation,
    key: (u64, Address, Address),
)
    requires
        env.storage.contributions.contains_key(key),
    ensures
        operation.after(env).storage.contributions.contains_key(key),
        operation.after(env).storage.contributions[key] == env.storage.contributions[key],
{
}

/// However many calls are made, no contribution changes or goes.
pub proof fn law_contributions_stand_over_calls(
    contract: Address,
    storage: QFState,
    calls: Seq<Call>,
    key: (u64, Address, Address),
)
    requires
        storage.contributions.contains_key(key),
    ensures
        after_calls(contract, storage, calls).contributions.contains_key(key),
        after_calls(contract, storage, calls).contributions[key] == storage.contributions[key],
    decreases calls.len(),
{
    if calls.len() > 0 {
        let earlier = calls.drop_last();
        law_contributions_stand_over_calls(contract, storage, earlier, key);
        law_contributions_stand(
            calls.last().start(contract, after_calls(contract, storage, earlier)),
            calls.last().operation,
            key,
        );
    }
}

/// An address contributes at most once to a project in a round: after a contribution, whatever
/// calls come in between, another one is refused. While the round is open for contributions, the
/// reason is that there is one already.
pub proof fn law_one_contribution_per_address(
    env: QFView,
    contributor: Address,
    round_id: u64,
    project: Address,
    amount: i128,
    calls: Seq<Call>,
    later: QFView,
    again: i128,
)
    requires
        contribute_step(env, contributor, round_id, project, amount) is Ok,
        later.storage == after_calls(
            env.contract,
            contribute_step(env, contributor, round_id, project, amount)->Ok_0.0.storage,
            calls,
        ),
    ensures
        contribute_step(later, contributor, round_id, project, again) is Err,
        again > 0 && later.storage.rounds.contains_key(round_id)
            && later.storage.rounds[round_id].status == RoundStatus::Active && later.timestamp
            <= later.storage.rounds[round_id].end_time ==> contribute_step(
            later,
            contributor,
            round_id,
            project,
            again,
        ) == Err::<(QFView, ()), QFError>(QFError::AlreadyContributed),
{
    law_contributions_stand_over_calls(
        env.contract,
        contribute_step(env, contributor, round_id, project, amount)->Ok_0.0.storage,
        calls,
        (round_id, project, contributor),
    );
}

/// Rounds are numbered in order: a new round gets the number after that of the last one, and
/// takes the place of none.
pub proof fn law_rounds_numbered_in_order(
    env: QFView,
    admin: Address,
    token: Address,
    matching_pool: i128,
    duration_seconds: u64,
)
    requires
        env.storage.valid(),
        env.storage.next_id() < u64::MAX,
        create_round_step(env, admin, token, matching_pool, duration_seconds) is Ok,
    ensures
        ({
            let (after, id) = create_round_step(
                env,
                admin,
                token,
                matching_pool,
                duration_seconds,
            )->Ok_0;
            &&& id == env.storage.next_id()
            &&& after.storage.next_id() == id + 1
            &&& !env.storage.rounds.contains_key(id)
            &&& after.storage.rounds.contains_key(id)
            &&& after.storage.rounds.remove(id) == env.storage.rounds
        }),
{
    let (after, id) = create_round_step(
        env,
        admin,
        token,
        matching_pool,
        duration_seconds,
    )->Ok_0;
    assert(env.storage.round_valid(id));
    assert(after.storage.rounds.remove(id) =~= env.storage.rounds);
}

/// The weight of a project is the square of the sum of the square roots of its contributions,
/// where each root is taken in units of `1 / PRECISION`.
pub proof fn law_weights_follow_contributions(s: QFState, round_id: u64, project: Address)
    requires
        s.valid(),
    ensures
        ({
            let amounts = s.amounts_of(round_id, project);
            let roots = s.roots_of(round_id, project);
            &&& s.weight_of(round_id, project) == sum(roots) * sum(roots)
            &&& roots.len() == amounts.len()
            &&& forall|i: int|
                0 <= i < roots.len() ==> is_floor_sqrt(
                    amounts[i] * PRECISION * PRECISION,
                    #[trigger] roots[i],
                )
        }),
{
    assert(s.project_valid(round_id, project));
    lemma_roots_are_floor_roots(s, round_id, project);
}

/// The roots of a project are the square roots of its contributions.
pub(crate) proof fn lemma_roots_are_floor_roots(s: QFState, round_id: u64, project: Address)
    requires
        s.valid(),
    ensures
        forall|i: int|
            0 <= i < s.roots_of(round_id, project).len() ==> is_floor_sqrt(
                s.amounts_of(round_id, project)[i] * PRECISION * PRECISION,
                #[trigger] s.roots_of(round_id, project)[i],
            ),
{
    let roots = s.roots_of(round_id, project);
    let contributors = s.contributors_of(round_id, project);
    assert forall|i: int| 0 <= i < roots.len() implies is_floor_sqrt(
        s.amounts_of(round_id, project)[i] * PRECISION * PRECISION,
        #[trigger] roots[i],
    ) by {
        assert(s.contribution_valid(round_id, project, contributors[i]));
        assert(contributors.contains(contributors[i]));
        lemma_floor_sqrt_exists(s.amounts_of(round_id, project)[i] * PRECISION * PRECISION);
    }
}

/// Every project of a round has a weight.
pub proof fn law_projects_have_weight(s: QFState, round_id: u64, project: Address)
    requires
        s.valid(),
    ensures
        0 <= s.weight_of(round_id, project),
        s.projects_of(round_id).contains(project) <==> 0 < s.weight_of(round_id, project),
{
    let roots = s.roots_of(round_id, project);
    let contributors = s.contributors_of(round_id, project);
    assert(s.project_valid(round_id, project));
    lemma_given_not_negative(s, round_id);
    assert(0 <= sum(roots));
    if contributors.len() > 0 {
        assert forall|i: int| 0 <= i < roots.len() implies 0 <= #[trigger] roots[i] by {
            lemma_sqrt_scaled_sign(
                s.contributions[(round_id, project, contributors[i])].amount as int,
            );
        }
        lemma_sum_bounds(roots);
        assert(s.contribution_valid(round_id, project, contributors[0]));
        assert(contributors.contains(contributors[0]));
        lemma_sqrt_scaled_sign(
            s.contributions[(round_id, project, contributors[0])].amount as int,
        );
        assert(0 < roots[0] <= sum(roots));
        assert(0 < sum(roots) * sum(roots)) by (nonlinear_arith)
            requires
                0 < sum(roots),
        ;
    } else {
        assert(roots =~= Seq::<int>::empty());
    }
}

} // verus!
