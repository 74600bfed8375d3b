//! What holds of retroactive funding as a whole.
use super::model::{
    cast_vote_step, create_round_step, eligible, finalize_and_distribute_step,
    nominate_project_step, open_voting_step, rewarded, rewards, split_in_range,
};
use super::{
    lemma_rewarded_keeps, EvalCriteria, ProjectRecord, RFError, RFState, RFView, RetroRound,
    RoundStatus,
};
use crate::address::Address;
use crate::amounts::{clamped, lemma_sum_bounds, lemma_sum_push, lemma_sum_update, sum};
use crate::invocation::InvocationView;
use vstd::prelude::*;

verus! {

/// An operation with its arguments.
pub enum Operation {
    CreateRound {
        admin: Address,
        token: Address,
        reward_pool: i128,
        criteria: EvalCriteria,
        voting_start: u64,
        voting_end: u64,
    },
    NominateProject {
        round_id: u64,
        project: Address,
        tip_volume: i128,
        unique_tippers: u32,
        impact_description: String,
    },
    OpenVoting { admin: Address, round_id: u64 },
    CastVote { voter: Address, round_id: u64, project: Address, weight: i128 },
    FinalizeAndDistribute { admin: Address, round_id: u64 },
}

impl Operation {
    /// The environment after the operation. A refused operation changes nothing.
    pub open spec fn after(self, env: RFView) -> RFView {
        match self {
            Operation::CreateRound {
                admin,
                token,
                reward_pool,
                criteria,
                voting_start,
                voting_end,
            } => {
                match create_round_step(
                    env,
                    admin,
                    token,
                    reward_pool,
                    criteria,
                    voting_start,
                    voting_end,
                ) {
                    Ok((after, _)) => after,
                    Err(_) => env,
                }
            },
            Operation::NominateProject {
                round_id,
                project,
                tip_volume,
                unique_tippers,
                impact_description,
            } => {
                match nominate_project_step(
                    env,
                    round_id,
                    project,
                    tip_volume,
                    unique_tippers,
                    impact_description,
                ) {
                    Ok((after, _)) => after,
                    Err(_) => env,
                }
            },
            Operation::OpenVoting { admin, round_id } => {
                match open_voting_step(env, admin, round_id) {
                    Ok((after, _)) => after,
                    Err(_) => env,
                }
            },
            Operation::CastVote { voter, round_id, project, weight } => {
                match cast_vote_step(env, voter, round_id, project, weight) {
                    Ok((after, _)) => after,
                    Err(_) => env,
                }
            },
            Operation::FinalizeAndDistribute { admin, round_id } => {
                match finalize_and_distribute_step(env, admin, round_id) {
                    Ok((after, _)) => after,
                    Err(_) => env,
                }
            },
        }
    }

    /// The numbers that the operation computes are in range.
    pub open spec fn in_range(self, env: RFView) -> bool {
        match self {
            Operation::CreateRound { .. } => env.storage.next_id() < u64::MAX,
            Operation::FinalizeAndDistribute { round_id, .. } => env.storage.rounds.contains_key(
                round_id,
            ) ==> split_in_range(
                env.storage.rounds[round_id].reward_pool as int,
                env.storage.votes_of(round_id),
                env.storage.total_votes_of(round_id),
            ),
            _ => true,
        }
    }
}

/// An operation at a time of the ledger.
pub struct Call {
    pub timestamp: u64,
    pub operation: Operation,
}

impl Call {
    /// The environment in which the call starts.
    pub open spec fn start(self, contract: Address, storage: RFState) -> RFView {
        InvocationView { contract, timestamp: self.timestamp, storage, actions: Seq::empty() }
    }

    /// What is stored after the call.
    pub open spec fn after(self, contract: Address, storage: RFState) -> RFState {
        self.operation.after(self.start(contract, storage)).storage
    }
}

/// What is stored after the calls, made one after the other.
pub open spec fn after_calls(contract: Address, storage: RFState, calls: Seq<Call>) -> RFState
    decreases calls.len(),
{
    if calls.len() == 0 {
        storage
    } else {
        calls.last().after(contract, after_calls(contract, storage, calls.drop_last()))
    }
}

/// The numbers that the calls compute are in range.
pub open spec fn calls_in_range(contract: Address, storage: RFState, calls: Seq<Call>) -> bool
    decreases calls.len(),
{
    calls.len() > 0 ==> {
        let earlier = calls.drop_last();
        &&& calls_in_range(contract, storage, earlier)
        &&& calls.last().operation.in_range(
            calls.last().start(contract, after_calls(contract, storage, earlier)),
        )
    }
}

/// What is stored before the first operation.
pub open spec fn nothing_stored() -> RFState {
    RFState {
        round_ctr: None,
        rounds: Map::empty(),
        records: Map::empty(),
        projects: Map::empty(),
        total_votes: Map::empty(),
        voted: Map::empty(),
    }
}

impl RFState {
    /// The entries of the round fit together: its projects are distinct, its record has the id
    /// under which it is stored, a pool and a voting window, and all votes are the sum of the
    /// votes of the projects.
    pub open spec fn round_valid(self, round_id: u64) -> bool {
        let round = self.rounds[round_id];
        &&& self.projects_of(round_id).no_duplicates()
        &&& self.total_votes_of(round_id) == clamped(sum(self.votes_of(round_id)))
        &&& self.projects_of(round_id).len() > 0 ==> self.rounds.contains_key(round_id)
        &&& self.rounds.contains_key(round_id) ==> {
            &&& round_id < self.next_id()
            &&& round.round_id == round_id
            &&& round.reward_pool > 0
            &&& round.voting_start < round.voting_end
        }
    }

    /// The entry of the project is there if the project is listed, says what it is stored under,
    /// and meets the criteria of the round. Before the round is closed it has no reward.
    pub open spec fn record_valid(self, round_id: u64, project: Address) -> bool {
        let record = self.records[(round_id, project)];
        &&& self.records.contains_key((round_id, project)) <==> self.projects_of(
            round_id,
        ).contains(project)
        &&& self.records.contains_key((round_id, project)) ==> {
            &&& record.project == project
            &&& record.round_id == round_id
            &&& 0 <= record.votes
            &&& eligible(
                self.rounds[round_id].criteria,
                record.tip_volume,
                record.unique_tippers,
            )
            &&& self.rounds[round_id].status != RoundStatus::Finalized ==> record.reward == 0
        }
    }

    /// Votes are cast in rounds that exist.
    pub open spec fn voter_valid(self, round_id: u64, voter: Address) -> bool {
        self.voted.contains_key((round_id, voter)) ==> self.rounds.contains_key(round_id)
    }

    /// The stored entries fit together.
    pub open spec fn valid(self) -> bool {
        &&& forall|r: u64| #[trigger] self.round_valid(r)
        &&& forall|r: u64, p: Address| #[trigger] self.record_valid(r, p)
        &&& forall|r: u64, v: Address| #[trigger] self.voter_valid(r, v)
    }
}

/// Nothing stored fits together.
pub proof fn law_empty_is_valid()
    ensures
        nothing_stored().valid(),
{
    let s = nothing_stored();
    assert forall|r: u64| #[trigger] s.round_valid(r) by {
        assert(s.votes_of(r) =~= Seq::<int>::empty());
    }
}

/// The listed projects of a round that is valid have their records.
pub proof fn lemma_listed_are_recorded(s: RFState, r: u64)
    requires
        s.valid(),
    ensures
        s.all_recorded(r),
        forall|i: int| 0 <= i < s.votes_of(r).len() ==> 0 <= #[trigger] s.votes_of(r)[i],
        0 <= sum(s.votes_of(r)),
{
    let ps = s.projects_of(r);
    assert forall|i: int| 0 <= i < ps.len() implies s.records.contains_key((r, #[trigger] ps[i]))
        && 0 <= s.records[(r, ps[i])].votes by {
        assert(s.record_valid(r, ps[i]));
        assert(ps.contains(ps[i]));
    }
    lemma_sum_bounds(s.votes_of(r));
}

/// Opening a round keeps the entries fitting together.
proof fn lemma_create_round_valid(
    env: RFView,
    admin: Address,
    token: Address,
    reward_pool: i128,
    criteria: EvalCriteria,
    voting_start: u64,
    voting_end: u64,
)
    requires
        env.storage.valid(),
        env.storage.next_id() < u64::MAX,
        create_round_step(
            env,
            admin,
            token,
            reward_pool,
            criteria,
            voting_start,
            voting_end,
        ) is Ok,
    ensures
        create_round_step(
            env,
            admin,
            token,
            reward_pool,
            criteria,
            voting_start,
            voting_end,
        )->Ok_0.0.storage.valid(),
{
    let s = env.storage;
    let t = create_round_step(
        env,
        admin,
        token,
        reward_pool,
        criteria,
        voting_start,
        voting_end,
    )->Ok_0.0.storage;
    let id = s.next_id();
    assert(s.round_valid(id));
    assert forall|r: u64| #[trigger] t.round_valid(r) by {
        assert(s.round_valid(r));
        assert(t.votes_of(r) =~= s.votes_of(r));
    }
    assert forall|r: u64, p: Address| #[trigger] t.record_valid(r, p) by {
        assert(s.record_valid(r, p));
    }
    assert forall|r: u64, v: Address| #[trigger] t.voter_valid(r, v) by {
        assert(s.voter_valid(r, v));
    }
}

/// Nominating a project keeps the entries fitting together.
proof fn lemma_nominate_valid(
    env: RFView,
    round_id: u64,
    project: Address,
    tip_volume: i128,
    unique_tippers: u32,
    impact_description: String,
)
    requires
        env.storage.valid(),
        nominate_project_step(
            env,
            round_id,
            project,
            tip_volume,
            unique_tippers,
            impact_description,
        ) is Ok,
    ensures
        nominate_project_step(
            env,
            round_id,
            project,
            tip_volume,
            unique_tippers,
            impact_description,
        )->Ok_0.0.storage.valid(),
{
    let s = env.storage;
    let t = nominate_project_step(
        env,
        round_id,
        project,
        tip_volume,
        unique_tippers,
        impact_description,
    )->Ok_0.0.storage;
    let listed = s.projects_of(round_id);
    let longer = listed.push(project);
    assert(s.record_valid(round_id, project));
    assert forall|i: int| 0 <= i < listed.len() implies #[trigger] listed[i] != project by {
        assert(listed.contains(listed[i]));
    }
    assert forall|r: u64| #[trigger] t.round_valid(r) by {
        assert(s.round_valid(r));
        if r == round_id {
            assert(t.votes_of(r) =~= s.votes_of(r).push(0));
            lemma_sum_push(s.votes_of(r), 0);
        } else {
            assert(t.votes_of(r) =~= s.votes_of(r));
        }
    }
    assert forall|r: u64, p: Address| #[trigger] t.record_valid(r, p) by {
        assert(s.record_valid(r, p));
        if r == round_id {
            assert(longer[listed.len() as int] == project);
            if listed.contains(p) {
                let i = choose|i: int| 0 <= i < listed.len() && listed[i] == p;
                assert(longer[i] == p);
            }
            if longer.contains(p) && p != project {
                let i = choose|i: int| 0 <= i < longer.len() && longer[i] == p;
                assert(listed[i] == p);
            }
        }
    }
    assert forall|r: u64, v: Address| #[trigger] t.voter_valid(r, v) by {
        assert(s.voter_valid(r, v));
    }
}

/// Opening the vote keeps the entries fitting together.
proof fn lemma_open_voting_valid(env: RFView, admin: Address, round_id: u64)
    requires
        env.storage.valid(),
        open_voting_step(env, admin, round_id) is Ok,
    ensures
        open_voting_step(env, admin, round_id)->Ok_0.0.storage.valid(),
{
    let s = env.storage;
    let t = open_voting_step(env, admin, round_id)->Ok_0.0.storage;
    assert forall|r: u64| #[trigger] t.round_valid(r) by {
        assert(s.round_valid(r));
        assert(t.votes_of(r) =~= s.votes_of(r));
    }
    assert forall|r: u64, p: Address| #[trigger] t.record_valid(r, p) by {
        assert(s.record_valid(r, p));
    }
    assert forall|r: u64, v: Address| #[trigger] t.voter_valid(r, v) by {
        assert(s.voter_valid(r, v));
    }
}

/// Voting keeps the entries fitting together.
proof fn lemma_cast_vote_valid(
    env: RFView,
    voter: Address,
    round_id: u64,
    project: Address,
    weight: i128,
)
    requires
        env.storage.valid(),
        cast_vote_step(env, voter, round_id, project, weight) is Ok,
    ensures
        cast_vote_step(env, voter, round_id, project, weight)->Ok_0.0.storage.valid(),
{
    let s = env.storage;
    let t = cast_vote_step(env, voter, round_id, project, weight)->Ok_0.0.storage;
    let listed = s.projects_of(round_id);
    assert(s.record_valid(round_id, project));
    assert forall|r: u64| #[trigger] t.round_valid(r) by {
        assert(s.round_valid(r));
        if r == round_id {
            let k = choose|k: int| 0 <= k < listed.len() && listed[k] == project;
            let votes = s.votes_of(r);
            let new = t.records[(r, project)].votes as int;
            assert(t.votes_of(r) =~= votes.update(k, new));
            lemma_sum_update(votes, k, new);
            lemma_listed_are_recorded(s, r);
            lemma_sum_bounds(votes);
            assert(votes[k] <= sum(votes));
        } else {
            assert(t.votes_of(r) =~= s.votes_of(r));
        }
    }
    assert forall|r: u64, p: Address| #[trigger] t.record_valid(r, p) by {
        assert(s.record_valid(r, p));
    }
    assert forall|r: u64, v: Address| #[trigger] t.voter_valid(r, v) by {
        assert(s.voter_valid(r, v));
    }
}

/// Paying out a round keeps the entries fitting together.
proof fn lemma_finalize_valid(env: RFView, admin: Address, round_id: u64)
    requires
        env.storage.valid(),
        finalize_and_distribute_step(env, admin, round_id) is Ok,
    ensures
        finalize_and_distribute_step(env, admin, round_id)->Ok_0.0.storage.valid(),
{
    let s = env.storage;
    let t = finalize_and_distribute_step(env, admin, round_id)->Ok_0.0.storage;
    let projects = s.projects_of(round_id);
    let amounts = rewards(
        s.rounds[round_id].reward_pool as int,
        s.votes_of(round_id),
        s.total_votes_of(round_id),
    );
    lemma_rewarded_keeps(s.records, round_id, projects, amounts);
    lemma_rewarded_elsewhere(s.records, round_id, projects, amounts);
    assert forall|r: u64| #[trigger] t.round_valid(r) by {
        assert(s.round_valid(r));
        lemma_listed_are_recorded(s, r);
        let ps = s.projects_of(r);
        assert forall|i: int| 0 <= i < ps.len() implies t.records[(r, #[trigger] ps[i])].votes
            == s.records[(r, ps[i])].votes by {
            assert(s.records.contains_key((r, ps[i])));
        }
        assert(t.votes_of(r) =~= s.votes_of(r));
    }
    assert forall|r: u64, p: Address| #[trigger] t.record_valid(r, p) by {
        assert(s.record_valid(r, p));
        assert(t.records.dom().contains((r, p)) == s.records.dom().contains((r, p)));
    }
    assert forall|r: u64, v: Address| #[trigger] t.voter_valid(r, v) by {
        assert(s.voter_valid(r, v));
    }
}

/// Giving rewards in a round leaves the records of other rounds alone.
pub(crate) proof fn lemma_rewarded_elsewhere(
    records: Map<(u64, Address), ProjectRecord>,
    round_id: u64,
    projects: Seq<Address>,
    amounts: Seq<int>,
)
    ensures
        forall|r: u64, p: Address|
            r != round_id || !projects.contains(p) ==> (#[trigger] rewarded(
                records,
                round_id,
                projects,
                amounts,
            )[(r, p)]) == records[(r, p)],
    decreases projects.len(),
{
    if projects.len() > 0 {
        let rest = projects.drop_last();
        lemma_rewarded_elsewhere(records, round_id, rest, amounts.drop_last());
        assert forall|r: u64, p: Address|
            r != round_id || !projects.contains(p) implies (#[trigger] rewarded(
            records,
            round_id,
            projects,
            amounts,
        )[(r, p)]) == records[(r, p)] by {
            if rest.contains(p) {
                let i = choose|i: int| 0 <= i < rest.len() && rest[i] == p;
                assert(projects[i] == p);
            }
            assert(projects[projects.len() - 1] == projects.last());
            assert(rewarded(records, round_id, rest, amounts.drop_last())[(r, p)] == records[(
                r,
                p,
            )]);
        }
    }
}

/// Every operation keeps the entries fitting together.
pub proof fn law_operations_keep_valid(env: RFView, operation: Operation)
    requires
        env.storage.valid(),
        operation.in_range(env),
    ensures
        operation.after(env).storage.valid(),
{
    match operation {
        Operation::CreateRound {
            admin,
            token,
            reward_pool,
            criteria,
            voting_start,
            voting_end,
        } => {
            if create_round_step(
                env,
                admin,
                token,
                reward_pool,
                criteria,
                voting_start,
                voting_end,
            ) is Ok {
                lemma_create_round_valid(
                    env,
                    admin,
                    token,
                    reward_pool,
                    criteria,
                    voting_start,
                    voting_end,
                );
            }
        },
        Operation::NominateProject {
            round_id,
            project,
            tip_volume,
            unique_tippers,
            impact_description,
        } => {
            if nominate_project_step(
                env,
                round_id,
                project,
                tip_volume,
                unique_tippers,
                impact_description,
            ) is Ok {
                lemma_nominate_valid(
                    env,
                    round_id,
                    project,
                    tip_volume,
                    unique_tippers,
                    impact_description,
                );
            }
        },
        Operation::OpenVoting { admin, round_id } => {
            if open_voting_step(env, admin, round_id) is Ok {
                lemma_open_voting_valid(env, admin, round_id);
            }
        },
        Operation::CastVote { voter, round_id, project, weight } => {
            if cast_vote_step(env, voter, round_id, project, weight) is Ok {
                lemma_cast_vote_valid(env, voter, round_id, project, weight);
            }
        },
        Operation::FinalizeAndDistribute { admin, round_id } => {
            if finalize_and_distribute_step(env, admin, round_id) is Ok {
                lemma_finalize_valid(env, admin, round_id);
            }
        },
    }
}

/// Whatever calls are made from the start on, the entries fit together.
pub proof fn law_reachable_is_valid(contract: Address, calls: Seq<Call>)
    requires
        calls_in_range(contract, nothing_stored(), calls),
    ensures
        after_calls(contract, nothing_stored(), calls).valid(),
    decreases calls.len(),
{
    if calls.len() == 0 {
        law_empty_is_valid();
    } else {
        let earlier = calls.drop_last();
        law_reachable_is_valid(contract, earlier);
        law_operations_keep_valid(
            calls.last().start(contract, after_calls(contract, nothing_stored(), earlier)),
            calls.last().operation,
        );
    }
}

/// How far along a status is.
pub open spec fn rank(status: RoundStatus) -> int {
    match status {
        RoundStatus::Nominations => 0,
        RoundStatus::Voting => 1,
        RoundStatus::Finalized => 2,
    }
}

/// A later record of the same round: nothing has changed but the status, which has not gone back.
pub open spec fn advanced(before: RetroRound, after: RetroRound) -> bool {
    &&& after == (RetroRound { status: after.status, ..before })
    &&& rank(before.status) <= rank(after.status)
}

/// No operation loses a round, changes its terms, or takes its status back.
pub proof fn law_rounds_advance(env: RFView, operation: Operation, round_id: u64)
    requires
        env.storage.valid(),
        env.storage.rounds.contains_key(round_id),
    ensures
        operation.after(env).storage.rounds.contains_key(round_id),
        advanced(env.storage.rounds[round_id], operation.after(env).storage.rounds[round_id]),
{
    assert(env.storage.round_valid(round_id));
}

/// However many calls are made, no round is lost, changes its terms, or goes back.
pub proof fn law_rounds_advance_over_calls(
    contract: Address,
    storage: RFState,
    calls: Seq<Call>,
    round_id: u64,
)
    requires
        storage.valid(),
        calls_in_range(contract, storage, calls),
        storage.rounds.contains_key(round_id),
    ensures
        after_calls(contract, storage, calls).valid(),
        after_calls(contract, storage, calls).rounds.contains_key(round_id),
        advanced(storage.rounds[round_id], after_calls(contract, storage, calls).rounds[round_id]),
    decreases calls.len(),
{
    if calls.len() > 0 {
        let earlier = calls.drop_last();
        law_rounds_advance_over_calls(contract, storage, earlier, round_id);
        let env = calls.last().start(contract, after_calls(contract, storage, earlier));
        law_rounds_advance(env, calls.last().operation, round_id);
        law_operations_keep_valid(env, calls.last().operation);
    }
}

/// A round is paid out once: whatever calls come after a distribution, distributing again is
/// refused.
pub proof fn law_distributed_once(
    env: RFView,
    admin: Address,
    round_id: u64,
    calls: Seq<Call>,
    later: RFView,
    again: Address,
)
    requires
        env.storage.valid(),
        finalize_and_distribute_step(env, admin, round_id) is Ok,
        calls_in_range(
            env.contract,
            finalize_and_distribute_step(env, admin, round_id)->Ok_0.0.storage,
            calls,
        ),
        later.storage == after_calls(
            env.contract,
            finalize_and_distribute_step(env, admin, round_id)->Ok_0.0.storage,
            calls,
        ),
    ensures
        finalize_and_distribute_step(later, again, round_id) == Err::<(RFView, ()), RFError>(
            if again == admin {
                RFError::InvalidStatus
            } else {
                RFError::Unauthorized
            },
        ),
{
    lemma_finalize_valid(env, admin, round_id);
    law_rounds_advance_over_calls(
        env.contract,
        finalize_and_distribute_step(env, admin, round_id)->Ok_0.0.storage,
        calls,
        round_id,
    );
}

/// Nominations end with the opening of the vote: whatever calls come after it, nominating is
/// refused.
pub proof fn law_closed_to_nominations(
    env: RFView,
    admin: Address,
    round_id: u64,
    calls: Seq<Call>,
    later: RFView,
    project: Address,
    tip_volume: i128,
    unique_tippers: u32,
    impact_description: String,
)
    requires
        env.storage.valid(),
        open_voting_step(env, admin, round_id) is Ok,
        calls_in_range(
            env.contract,
            open_voting_step(env, admin, round_id)->Ok_0.0.storage,
            calls,
        ),
        later.storage == after_calls(
            env.contract,
            open_voting_step(env, admin, round_id)->Ok_0.0.storage,
            calls,
        ),
    ensures
        nominate_project_step(
            later,
            round_id,
            project,
            tip_volume,
            unique_tippers,
            impact_description,
        ) == Err::<(RFView, ()), RFError>(RFError::InvalidStatus),
{
    lemma_open_voting_valid(env, admin, round_id);
    law_rounds_advance_over_calls(
        env.contract,
        open_voting_step(env, admin, round_id)->Ok_0.0.storage,
        calls,
        round_id,
    );
}

/// No operation forgets that an address has voted.
pub proof fn law_votes_stand(env: RFView, operation: Operation, key: (u64, Address))
    requires
        env.storage.voted.contains_key(key),
    ensures
        operation.after(env).storage.voted.contains_key(key),
{
}

/// However many calls are made, it is not forgotten that an address has voted.
pub proof fn law_votes_stand_over_calls(
    contract: Address,
    storage: RFState,
    calls: Seq<Call>,
    key: (u64, Address),
)
    requires
        storage.voted.contains_key(key),
    ensures
        after_calls(contract, storage, calls).voted.contains_key(key),
    decreases calls.len(),
{
    if calls.len() > 0 {
        let earlier = calls.drop_last();
        law_votes_stand_over_calls(contract, storage, earlier, key);
        law_votes_stand(
            calls.last().start(contract, after_calls(contract, storage, earlier)),
            calls.last().operation,
            key,
        );
    }
}

/// An address votes at most once in a round: after a vote, whatever calls come in between,
/// another one is refused, for whichever project. While the vote is open, the reason is that
/// there is one already.
pub proof fn law_one_vote_per_address(
    env: RFView,
    voter: Address,
    round_id: u64,
    project: Address,
    weight: i128,
    calls: Seq<Call>,
    later: RFView,
    other: Address,
    again: i128,
)
    requires
        cast_vote_step(env, voter, round_id, project, weight) is Ok,
        later.storage == after_calls(
            env.contract,
            cast_vote_step(env, voter, round_id, project, weight)->Ok_0.0.storage,
            calls,
        ),
    ensures
        cast_vote_step(later, voter, round_id, other, again) is Err,
        ({
            let round = later.storage.rounds[round_id];
            again > 0 && later.storage.rounds.contains_key(round_id) && round.status
                == RoundStatus::Voting && round.voting_start <= later.timestamp
                <= round.voting_end
        }) ==> cast_vote_step(later, voter, round_id, other, again) == Err::<
            (RFView, ()),
            RFError,
        >(RFError::AlreadyVoted),
{
    law_votes_stand_over_calls(
        env.contract,
        cast_vote_step(env, voter, round_id, project, weight)->Ok_0.0.storage,
        calls,
        (round_id, voter),
    );
}

/// Rounds are numbered in order: a new round gets the number after that of the last one, and
/// takes the place of none.
pub proof fn law_rounds_numbered_in_order(
    env: RFView,
    admin: Address,
    token: Address,
    reward_pool: i128,
    criteria: EvalCriteria,
    voting_start: u64,
    voting_end: u64,
)
    requires
        env.storage.valid(),
        env.storage.next_id() < u64::MAX,
        create_round_step(
            env,
            admin,
            token,
            reward_pool,
            criteria,
            voting_start,
            voting_end,
        ) is Ok,
    ensures
        ({
            let (after, id) = create_round_step(
                env,
                admin,
                token,
                reward_pool,
                criteria,
                voting_start,
                voting_end,
            )->Ok_0;
            &&& id == env.storage.next_id()
            &&& after.storage.next_id() == id + 1
            &&& !env.storage.rounds.contains_key(id)
            &&& after.storage.rounds.contains_key(id)
            &&& after.storage.rounds.remove(id) == env.storage.rounds
        }),
{
    let (after, id) = create_round_step(
        env,
        admin,
        token,
        reward_pool,
        criteria,
        voting_start,
        voting_end,
    )->Ok_0;
    assert(env.storage.round_valid(id));
    assert(after.storage.rounds.remove(id) =~= env.storage.rounds);
}

/// All votes of a round are the votes of its projects, as far as an `i128` can tell.
pub proof fn law_votes_add_up(s: RFState, round_id: u64)
    requires
        s.valid(),
    ensures
        s.total_votes_of(round_id) == clamped(sum(s.votes_of(round_id))),
{
    assert(s.round_valid(round_id));
}

/// The weights of the votes for the project that were accepted in the round, in the order of the
/// calls.
pub open spec fn votes_cast(
    contract: Address,
    storage: RFState,
    calls: Seq<Call>,
    round_id: u64,
    project: Address,
) -> Seq<int>
    decreases calls.len(),
{
    if calls.len() == 0 {
        Seq::empty()
    } else {
        let earlier = calls.drop_last();
        let cast = votes_cast(contract, storage, earlier, round_id, project);
        let env = calls.last().start(contract, after_calls(contract, storage, earlier));
        match calls.last().operation {
            Operation::CastVote { voter, round_id: r, project: p, weight } => if r == round_id && p
                == project && cast_vote_step(env, voter, r, p, weight) is Ok {
                cast.push(weight as int)
            } else {
                cast
            },
            _ => cast,
        }
    }
}

/// The votes of a project are those that were cast for it: whatever calls are made from the start
/// on, its record has the sum of the weights of the accepted votes for it, as far as an `i128` can
/// tell. A project without a record has none.
pub proof fn law_votes_are_those_cast(
    contract: Address,
    calls: Seq<Call>,
    round_id: u64,
    project: Address,
)
    ensures
        ({
            let s = after_calls(contract, nothing_stored(), calls);
            let cast = votes_cast(contract, nothing_stored(), calls, round_id, project);
            &&& forall|i: int| 0 <= i < cast.len() ==> 0 < #[trigger] cast[i]
            &&& s.records.contains_key((round_id, project)) ==> s.records[(
                round_id,
                project,
            )].votes == clamped(sum(cast))
            &&& !s.records.contains_key((round_id, project)) ==> cast.len() == 0
        }),
    decreases calls.len(),
{
    if calls.len() > 0 {
        let earlier = calls.drop_last();
        law_votes_are_those_cast(contract, earlier, round_id, project);
        let s = after_calls(contract, nothing_stored(), earlier);
        let cast = votes_cast(contract, nothing_stored(), earlier, round_id, project);
        let env = calls.last().start(contract, s);
        lemma_sum_bounds(cast);
        match calls.last().operation {
            Operation::CastVote { weight, .. } => {
                lemma_sum_push(cast, weight as int);
            },
            Operation::FinalizeAndDistribute { admin, round_id: r } => {
                if finalize_and_distribute_step(env, admin, r) is Ok {
                    let amounts = rewards(
                        s.rounds[r].reward_pool as int,
                        s.votes_of(r),
                        s.total_votes_of(r),
                    );
                    lemma_rewarded_keeps(s.records, r, s.projects_of(r), amounts);
                    let t = after_calls(contract, nothing_stored(), calls);
                    assert(t.records.dom() == s.records.dom());
                    assert(t.records.contains_key((round_id, project)) == s.records.contains_key(
                        (round_id, project),
                    ));
                }
            },
            _ => {},
        }
    }
}

/// The projects of a round are those with a record, each listed once, and each meets the round's
/// criteria.
pub proof fn law_nominees_are_eligible(s: RFState, round_id: u64, project: Address)
    requires
        s.valid(),
    ensures
        s.projects_of(round_id).no_duplicates(),
        s.projects_of(round_id).contains(project) <==> s.records.contains_key((round_id, project)),
        s.records.contains_key((round_id, project)) ==> eligible(
            s.rounds[round_id].criteria,
            s.records[(round_id, project)].tip_volume,
            s.records[(round_id, project)].unique_tippers,
        ),
{
    assert(s.round_valid(round_id));
    assert(s.record_valid(round_id, project));
}

} // verus!
