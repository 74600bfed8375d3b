//! Which stored entries the operations of retroactive funding read and write.
use super::laws::Operation;
use super::model::{
    cast_vote_step, create_round_step, finalize_and_distribute_step, nominate_project_step,
    open_voting_step, rewarded, rewards,
};
use super::{ProjectRecord, RFError, RFKey, RFState, RFStorage, RFView};
use crate::address::Address;
use crate::invocation::InvocationView;
use crate::table::same_at;
use vstd::prelude::*;

verus! {

impl RFKey {
    /// The round that the entry belongs to.
    pub open spec fn round(self) -> Option<u64> {
        match self {
            RFKey::RoundCtr => None,
            RFKey::Round(id) => Some(id),
            RFKey::Project(id, _) => Some(id),
            RFKey::RoundProjects(id) => Some(id),
            RFKey::RoundTotalVotes(id) => Some(id),
            RFKey::HasVoted(id, _) => Some(id),
        }
    }
}

impl RFState {
    /// The two states have the same stored under the key.
    pub open spec fn agrees(self, other: RFState, key: RFKey) -> bool {
        match key {
            RFKey::RoundCtr => self.round_ctr == other.round_ctr,
            RFKey::Round(id) => same_at(self.rounds, other.rounds, id),
            RFKey::Project(id, p) => same_at(self.records, other.records, (id, p)),
            RFKey::RoundProjects(id) => same_at(self.projects, other.projects, id),
            RFKey::RoundTotalVotes(id) => same_at(self.total_votes, other.total_votes, id),
            RFKey::HasVoted(id, v) => same_at(self.voted, other.voted, (id, v)),
        }
    }

    /// The two states have the same stored under each of the keys.
    pub open spec fn agrees_on(self, other: RFState, keys: Seq<RFKey>) -> bool {
        forall|i: int| 0 <= i < keys.len() ==> #[trigger] self.agrees(other, keys[i])
    }
}

/// What a nomination reads and writes.
pub open spec fn nomination_keys(round_id: u64, project: Address) -> Seq<RFKey> {
    seq![
        RFKey::Round(round_id),
        RFKey::Project(round_id, project),
        RFKey::RoundProjects(round_id),
    ]
}

/// What a vote reads and writes.
pub open spec fn vote_keys(round_id: u64, voter: Address, project: Address) -> Seq<RFKey> {
    seq![
        RFKey::Round(round_id),
        RFKey::HasVoted(round_id, voter),
        RFKey::Project(round_id, project),
        RFKey::RoundTotalVotes(round_id),
    ]
}

/// The records of the round's projects.
pub open spec fn record_keys(s: RFState, round_id: u64) -> Seq<RFKey> {
    s.projects_of(round_id).map_values(|p: Address| RFKey::Project(round_id, p))
}

/// What the payout of a round reads and writes.
pub open spec fn distribution_keys(s: RFState, round_id: u64) -> Seq<RFKey> {
    seq![
        RFKey::Round(round_id),
        RFKey::RoundTotalVotes(round_id),
        RFKey::RoundProjects(round_id),
    ] + record_keys(s, round_id)
}

/// The keys of the entries that a nomination reads and writes.
pub fn list_nomination_keys(round_id: u64, project: Address) -> (r: Vec<RFKey>)
    ensures
        r@ == nomination_keys(round_id, project),
        r@ == seq![
            RFKey::Round(round_id),
            RFKey::Project(round_id, project),
            RFKey::RoundProjects(round_id),
        ],
{
    let r: Vec<RFKey> = vec![
        RFKey::Round(round_id),
        RFKey::Project(round_id, project),
        RFKey::RoundProjects(round_id),
    ];
    assert(r@ =~= nomination_keys(round_id, project));
    r
}

/// The keys of the entries that a vote reads and writes.
pub fn list_vote_keys(round_id: u64, voter: Address, project: Address) -> (r: Vec<RFKey>)
    ensures
        r@ == vote_keys(round_id, voter, project),
        r@ == seq![
            RFKey::Round(round_id),
            RFKey::HasVoted(round_id, voter),
            RFKey::Project(round_id, project),
            RFKey::RoundTotalVotes(round_id),
        ],
{
    let r: Vec<RFKey> = vec![
        RFKey::Round(round_id),
        RFKey::HasVoted(round_id, voter),
        RFKey::Project(round_id, project),
        RFKey::RoundTotalVotes(round_id),
    ];
    assert(r@ =~= vote_keys(round_id, voter, project));
    r
}

/// The keys of the entries that the payout of a round reads and writes, as far as the storage at
/// hand tells. The projects are among what is read, so the list can grow once they are known.
pub fn list_distribution_keys(storage: &RFStorage, round_id: u64) -> (r: Vec<RFKey>)
    ensures
        r@ == distribution_keys(storage@, round_id),
{
    let projects: Vec<Address> = match storage.projects.get(&round_id) {
        Some(list) => list.to_vec(),
        None => Vec::new(),
    };
    let mut keys: Vec<RFKey> = vec![
        RFKey::Round(round_id),
        RFKey::RoundTotalVotes(round_id),
        RFKey::RoundProjects(round_id),
    ];
    let ghost all = distribution_keys(storage@, round_id);
    let mut i: usize = 0;
    assert(keys@ =~= all.take(3));
    while i < projects.len()
        invariant
            i <= projects.len(),
            projects@ == storage@.projects_of(round_id),
            all == distribution_keys(storage@, round_id),
            keys@ == all.take(3 + i),
        decreases projects.len() - i,
    {
        keys.push(RFKey::Project(round_id, projects[i]));
        i += 1;
        assert(keys@ =~= all.take(3 + i));
    }
    assert(all.take(3 + i) =~= all);
    keys
}

impl Operation {
    /// Why the operation is refused, where it is.
    pub open spec fn refusal(self, env: RFView) -> Option<RFError> {
        match self {
            Operation::CreateRound {
                admin,
                token,
                reward_pool,
                criteria,
                voting_start,
                voting_end,
            } => {
                create_round_step(
                    env,
                    admin,
                    token,
                    reward_pool,
                    criteria,
                    voting_start,
                    voting_end,
                ).err()
            },
            Operation::NominateProject {
                round_id,
                project,
                tip_volume,
                unique_tippers,
                impact_description,
            } => {
                nominate_project_step(
                    env,
                    round_id,
                    project,
                    tip_volume,
                    unique_tippers,
                    impact_description,
                ).err()
            },
            Operation::OpenVoting { admin, round_id } => {
                open_voting_step(env, admin, round_id).err()
            },
            Operation::CastVote { voter, round_id, project, weight } => {
                cast_vote_step(env, voter, round_id, project, weight).err()
            },
            Operation::FinalizeAndDistribute { admin, round_id } => {
                finalize_and_distribute_step(env, admin, round_id).err()
            },
        }
    }

    /// The round that the operation is about.
    pub open spec fn round(self, s: RFState) -> u64 {
        match self {
            Operation::CreateRound { .. } => s.next_id(),
            Operation::NominateProject { round_id, .. } => round_id,
            Operation::OpenVoting { round_id, .. } => round_id,
            Operation::CastVote { round_id, .. } => round_id,
            Operation::FinalizeAndDistribute { round_id, .. } => round_id,
        }
    }

    /// The entries on which the outcome of the operation rests.
    pub open spec fn keys(self, s: RFState) -> Seq<RFKey> {
        match self {
            Operation::CreateRound { .. } => seq![RFKey::RoundCtr],
            Operation::NominateProject { round_id, project, .. } => nomination_keys(
                round_id,
                project,
            ),
            Operation::OpenVoting { round_id, .. } => seq![RFKey::Round(round_id)],
            Operation::CastVote { voter, round_id, project, .. } => vote_keys(
                round_id,
                voter,
                project,
            ),
            Operation::FinalizeAndDistribute { round_id, .. } => distribution_keys(s, round_id),
        }
    }

    /// The entries that the operation can change.
    pub open spec fn written(self, s: RFState) -> Seq<RFKey> {
        match self {
            Operation::CreateRound { .. } => seq![RFKey::RoundCtr, RFKey::Round(s.next_id())],
            Operation::NominateProject { round_id, project, .. } => seq![
                RFKey::Project(round_id, project),
                RFKey::RoundProjects(round_id),
            ],
            Operation::OpenVoting { round_id, .. } => seq![RFKey::Round(round_id)],
            Operation::CastVote { voter, round_id, project, .. } => seq![
                RFKey::HasVoted(round_id, voter),
                RFKey::Project(round_id, project),
                RFKey::RoundTotalVotes(round_id),
            ],
            Operation::FinalizeAndDistribute { round_id, .. } => seq![RFKey::Round(round_id)]
                + record_keys(s, round_id),
        }
    }
}

/// Records of projects that are not in the list stay as they are.
proof fn lemma_unlisted_keep(
    records: Map<(u64, Address), ProjectRecord>,
    round_id: u64,
    projects: Seq<Address>,
    amounts: Seq<int>,
    key: (u64, Address),
)
    requires
        key.0 != round_id || !projects.contains(key.1),
    ensures
        same_at(rewarded(records, round_id, projects, amounts), records, key),
    decreases projects.len(),
{
    if projects.len() > 0 {
        let rest = projects.drop_last();
        assert(projects[projects.len() - 1] == projects.last());
        if rest.contains(key.1) {
            let i = choose|i: int| 0 <= i < rest.len() && rest[i] == key.1;
            assert(projects[i] == key.1);
        }
        lemma_unlisted_keep(records, round_id, rest, amounts.drop_last(), key);
    }
}

/// An operation changes only what it is said to write.
pub proof fn law_rest_is_unchanged(env: RFView, operation: Operation, key: RFKey)
    requires
        !operation.written(env.storage).contains(key),
    ensures
        operation.after(env).storage.agrees(env.storage, key),
{
    let s = env.storage;
    let keys = operation.written(s);
    assert(forall|i: int| 0 <= i < keys.len() ==> key != #[trigger] keys[i]);
    match operation {
        Operation::CreateRound { .. } => {
            assert(key != keys[0] && key != keys[1]);
        },
        Operation::NominateProject { .. } => {
            assert(key != keys[0] && key != keys[1]);
        },
        Operation::OpenVoting { .. } => {
            assert(key != keys[0]);
        },
        Operation::CastVote { .. } => {
            assert(key != keys[0] && key != keys[1] && key != keys[2]);
        },
        Operation::FinalizeAndDistribute { round_id, .. } => {
            assert(key != keys[0]);
            let projects = s.projects_of(round_id);
            let amounts = rewards(
                s.rounds[round_id].reward_pool as int,
                s.votes_of(round_id),
                s.total_votes_of(round_id),
            );
            if let RFKey::Project(id, p) = key {
                if id == round_id && projects.contains(p) {
                    let i = choose|i: int| 0 <= i < projects.len() && projects[i] == p;
                    assert(keys[1 + i] == key);
                }
                lemma_unlisted_keep(s.records, round_id, projects, amounts, (id, p));
            }
        },
    }
}

/// An operation on one round leaves the entries of all other rounds as they are.
pub proof fn law_other_rounds_are_unchanged(env: RFView, operation: Operation, key: RFKey)
    requires
        key.round() is Some,
        key.round() != Some(operation.round(env.storage)),
    ensures
        operation.after(env).storage.agrees(env.storage, key),
{
    law_rest_is_unchanged(env, operation, key);
}

/// Rewards given to the same records leave the same records.
proof fn lemma_same_rewarded(
    a: Map<(u64, Address), ProjectRecord>,
    b: Map<(u64, Address), ProjectRecord>,
    round_id: u64,
    projects: Seq<Address>,
    amounts: Seq<int>,
    key: (u64, Address),
)
    requires
        a.contains_key(key),
        same_at(a, b, key),
    ensures
        rewarded(a, round_id, projects, amounts).contains_key(key),
        same_at(
            rewarded(a, round_id, projects, amounts),
            rewarded(b, round_id, projects, amounts),
            key,
        ),
    decreases projects.len(),
{
    if projects.len() > 0 {
        lemma_same_rewarded(
            a,
            b,
            round_id,
            projects.drop_last(),
            amounts.drop_last(),
            key,
        );
    }
}

/// The outcome of an operation rests only on the entries that it is said to read: with the same
/// entries there, whatever else is stored, it is refused for the same reason or asks the host for
/// the same, and leaves the same in what it writes.
pub proof fn law_outcome_rests_on_keys(env: RFView, other: RFState, operation: Operation)
    requires
        env.storage.agrees_on(other, operation.keys(env.storage)),
    ensures
        ({
            let elsewhere = InvocationView { storage: other, ..env };
            let after = operation.after(env);
            let after_elsewhere = operation.after(elsewhere);
            &&& operation.refusal(elsewhere) == operation.refusal(env)
            &&& after_elsewhere.actions == after.actions
            &&& operation.refusal(env) is None ==> after.storage.agrees_on(
                after_elsewhere.storage,
                operation.written(env.storage),
            )
        }),
{
    let s = env.storage;
    let keys = operation.keys(s);
    match operation {
        Operation::CreateRound { .. } => {
            assert(s.agrees(other, keys[0]));
        },
        Operation::NominateProject { round_id, .. } => {
            assert(s.agrees(other, keys[0]) && s.agrees(other, keys[1]) && s.agrees(
                other,
                keys[2],
            ));
            assert(s.projects_of(round_id) == other.projects_of(round_id));
        },
        Operation::OpenVoting { .. } => {
            assert(s.agrees(other, keys[0]));
        },
        Operation::CastVote { round_id, .. } => {
            assert(s.agrees(other, keys[0]) && s.agrees(other, keys[1]) && s.agrees(other, keys[2])
                && s.agrees(other, keys[3]));
            assert(s.total_votes_of(round_id) == other.total_votes_of(round_id));
        },
        Operation::FinalizeAndDistribute { admin, round_id } => {
            lemma_same_distribution(env, other, admin, round_id);
        },
    }
}

/// The outcome of a payout rests on the entries that it reads.
proof fn lemma_same_distribution(env: RFView, other: RFState, admin: Address, round_id: u64)
    requires
        env.storage.agrees_on(other, distribution_keys(env.storage, round_id)),
    ensures
        ({
            let elsewhere = InvocationView { storage: other, ..env };
            let step = finalize_and_distribute_step(env, admin, round_id);
            let step_elsewhere = finalize_and_distribute_step(elsewhere, admin, round_id);
            &&& step is Ok == step_elsewhere is Ok
            &&& step is Err ==> step->Err_0 == step_elsewhere->Err_0
            &&& step is Ok ==> {
                &&& step->Ok_0.0.actions == step_elsewhere->Ok_0.0.actions
                &&& step->Ok_0.0.storage.agrees_on(
                    step_elsewhere->Ok_0.0.storage,
                    seq![RFKey::Round(round_id)] + record_keys(env.storage, round_id),
                )
            }
        }),
{
    let s = env.storage;
    let keys = distribution_keys(s, round_id);
    let records = record_keys(s, round_id);
    let projects = s.projects_of(round_id);
    let elsewhere: RFView = InvocationView { storage: other, ..env };
    assert(s.agrees(other, keys[0]) && s.agrees(other, keys[1]) && s.agrees(other, keys[2]));
    assert(other.projects_of(round_id) == projects);
    assert forall|i: int| 0 <= i < projects.len() implies same_at(
        s.records,
        other.records,
        (round_id, #[trigger] projects[i]),
    ) by {
        assert(keys[3 + i] == RFKey::Project(round_id, projects[i]));
        assert(s.agrees(other, keys[3 + i]));
    }
    assert(s.all_recorded(round_id) == other.all_recorded(round_id));
    assert(s.total_votes_of(round_id) == other.total_votes_of(round_id));
    if s.all_recorded(round_id) {
        assert(s.votes_of(round_id) =~= other.votes_of(round_id));
    }
    let step = finalize_and_distribute_step(env, admin, round_id);
    let step_elsewhere = finalize_and_distribute_step(elsewhere, admin, round_id);
    if step is Ok {
        let amounts = rewards(
            s.rounds[round_id].reward_pool as int,
            s.votes_of(round_id),
            s.total_votes_of(round_id),
        );
        let after = step->Ok_0.0.storage;
        let after_elsewhere = step_elsewhere->Ok_0.0.storage;
        let written = seq![RFKey::Round(round_id)] + records;
        assert forall|i: int| 0 <= i < written.len() implies #[trigger] after.agrees(
            after_elsewhere,
            written[i],
        ) by {
            if i > 0 {
                let p = projects[i - 1];
                assert(written[i] == RFKey::Project(round_id, p));
                lemma_same_rewarded(
                    s.records,
                    other.records,
                    round_id,
                    projects,
                    amounts,
                    (round_id, p),
                );
            } else {
                assert(written[0] == RFKey::Round(round_id));
            }
        }
    }
}

} // verus!
