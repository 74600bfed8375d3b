//! Which stored entries the operations of quadratic funding read and write.
use super::laws::Operation;
use super::model::{
    contribute_step, create_round_step, distribute_matching_step, finalize_round_step,
    match_amounts, match_estimate, payouts, project_payout, refunds,
};
use super::{QFError, QFKey, QFState, QFStorage, QFView};
use crate::address::Address;
use crate::invocation::InvocationView;
use crate::table::same_at;
use vstd::prelude::*;

verus! {

impl QFKey {
    /// The round that the entry belongs to.
    pub open spec fn round(self) -> Option<u64> {
        match self {
            QFKey::RoundCtr => None,
            QFKey::Round(id) => Some(id),
            QFKey::RoundProjects(id) => Some(id),
            QFKey::ProjectSqrtSum(id, _) => Some(id),
            QFKey::ProjectContributors(id, _) => Some(id),
            QFKey::Contribution(id, _, _) => Some(id),
        }
    }
}

impl QFState {
    /// The two states have the same stored under the key.
    pub open spec fn agrees(self, other: QFState, key: QFKey) -> bool {
        match key {
            QFKey::RoundCtr => self.round_ctr == other.round_ctr,
            QFKey::Round(id) => same_at(self.rounds, other.rounds, id),
            QFKey::RoundProjects(id) => same_at(self.projects, other.projects, id),
            QFKey::ProjectSqrtSum(id, p) => same_at(self.sqrt_sums, other.sqrt_sums, (id, p)),
            QFKey::ProjectContributors(id, p) => same_at(
                self.contributors,
                other.contributors,
                (id, p),
            ),
            QFKey::Contribution(id, p, c) => same_at(
                self.contributions,
                other.contributions,
                (id, p, c),
            ),
        }
    }

    /// The two states have the same stored under each of the keys.
    pub open spec fn agrees_on(self, other: QFState, keys: Seq<QFKey>) -> bool {
        forall|i: int| 0 <= i < keys.len() ==> #[trigger] self.agrees(other, keys[i])
    }
}

/// What a contribution reads and writes.
pub open spec fn contribution_keys(round_id: u64, project: Address, contributor: Address) -> Seq<
    QFKey,
> {
    seq![
        QFKey::Round(round_id),
        QFKey::Contribution(round_id, project, contributor),
        QFKey::RoundProjects(round_id),
        QFKey::ProjectContributors(round_id, project),
        QFKey::ProjectSqrtSum(round_id, project),
    ]
}

/// What is read to weigh the projects of a round.
pub open spec fn estimate_keys(s: QFState, round_id: u64) -> Seq<QFKey> {
    seq![QFKey::Round(round_id), QFKey::RoundProjects(round_id)] + s.projects_of(
        round_id,
    ).map_values(|p: Address| QFKey::ProjectSqrtSum(round_id, p))
}

/// What is read to return the contributions to a project.
pub open spec fn refund_keys(s: QFState, round_id: u64, project: Address) -> Seq<QFKey> {
    seq![QFKey::ProjectContributors(round_id, project)] + s.contributors_of(
        round_id,
        project,
    ).map_values(|c: Address| QFKey::Contribution(round_id, project, c))
}

/// What is read to return the contributions to the projects.
pub open spec fn refunds_keys(s: QFState, round_id: u64, projects: Seq<Address>) -> Seq<QFKey>
    decreases projects.len(),
{
    if projects.len() == 0 {
        Seq::empty()
    } else {
        refunds_keys(s, round_id, projects.drop_last()) + refund_keys(s, round_id, projects.last())
    }
}

/// What is read to pay out a round.
pub open spec fn distribution_keys(s: QFState, round_id: u64) -> Seq<QFKey> {
    estimate_keys(s, round_id) + refunds_keys(s, round_id, s.projects_of(round_id))
}

/// The keys of the entries that a contribution reads and writes.
pub fn list_contribution_keys(round_id: u64, project: Address, contributor: Address) -> (r: Vec<
    QFKey,
>)
    ensures
        r@ == contribution_keys(round_id, project, contributor),
        r@ == seq![
            QFKey::Round(round_id),
            QFKey::Contribution(round_id, project, contributor),
            QFKey::RoundProjects(round_id),
            QFKey::ProjectContributors(round_id, project),
            QFKey::ProjectSqrtSum(round_id, project),
        ],
{
    let r: Vec<QFKey> = vec![
        QFKey::Round(round_id),
        QFKey::Contribution(round_id, project, contributor),
        QFKey::RoundProjects(round_id),
        QFKey::ProjectContributors(round_id, project),
        QFKey::ProjectSqrtSum(round_id, project),
    ];
    assert(r@ =~= contribution_keys(round_id, project, contributor));
    r
}

/// The keys of the entries that an estimate reads, as far as the storage at hand tells. The
/// projects are among what is read, so the list can grow once they are known.
pub fn list_estimate_keys(storage: &QFStorage, round_id: u64) -> (r: Vec<QFKey>)
    ensures
        r@ == estimate_keys(storage@, round_id),
{
    let projects: Vec<Address> = storage.listed_projects(round_id);
    let mut keys: Vec<QFKey> = vec![QFKey::Round(round_id), QFKey::RoundProjects(round_id)];
    let ghost all = estimate_keys(storage@, round_id);
    let mut i: usize = 0;
    assert(keys@ =~= all.take(2));
    while i < projects.len()
        invariant
            i <= projects.len(),
            projects@ == storage@.projects_of(round_id),
            all == estimate_keys(storage@, round_id),
            keys@ == all.take(2 + i),
        decreases projects.len() - i,
    {
        keys.push(QFKey::ProjectSqrtSum(round_id, projects[i]));
        i += 1;
        assert(keys@ =~= all.take(2 + i));
    }
    assert(all.take(2 + i) =~= all);
    keys
}

/// The keys of the entries that the payout of a round reads, as far as the storage at hand tells.
/// The projects and their contributors are among what is read, so the list can grow once they are
/// known.
pub fn list_distribution_keys(storage: &QFStorage, round_id: u64) -> (r: Vec<QFKey>)
    ensures
        r@ == distribution_keys(storage@, round_id),
{
    let mut keys: Vec<QFKey> = list_estimate_keys(storage, round_id);
    let projects: Vec<Address> = storage.listed_projects(round_id);
    let ghost first = keys@;
    let mut i: usize = 0;
    assert(projects@.take(0) =~= Seq::<Address>::empty());
    assert(keys@ =~= first + refunds_keys(storage@, round_id, projects@.take(0)));
    while i < projects.len()
        invariant
            i <= projects.len(),
            projects@ == storage@.projects_of(round_id),
            keys@ == first + refunds_keys(storage@, round_id, projects@.take(i as int)),
        decreases projects.len() - i,
    {
        let project: Address = projects[i];
        let contributors: Vec<Address> = match storage.contributors.get(&(round_id, project)) {
            Some(list) => list.to_vec(),
            None => Vec::new(),
        };
        let ghost earlier = keys@;
        let ghost own = refund_keys(storage@, round_id, project);
        keys.push(QFKey::ProjectContributors(round_id, project));
        let mut j: usize = 0;
        assert(keys@ =~= earlier + own.take(1));
        while j < contributors.len()
            invariant
                j <= contributors.len(),
                contributors@ == storage@.contributors_of(round_id, project),
                own == refund_keys(storage@, round_id, project),
                keys@ == earlier + own.take(1 + j),
            decreases contributors.len() - j,
        {
            keys.push(QFKey::Contribution(round_id, project, contributors[j]));
            j += 1;
            assert(keys@ =~= earlier + own.take(1 + j));
        }
        assert(own.take(1 + j) =~= own);
        i += 1;
        proof {
            let next = projects@.take(i as int);
            assert(next.drop_last() =~= projects@.take(i - 1));
            assert(keys@ =~= first + refunds_keys(storage@, round_id, next));
        }
    }
    assert(projects@.take(i as int) =~= projects@);
    keys
}

impl Operation {
    /// Why the operation is refused, where it is.
    pub open spec fn refusal(self, env: QFView) -> Option<QFError> {
        match self {
            Operation::CreateRound { admin, token, matching_pool, duration_seconds } => {
                create_round_step(env, admin, token, matching_pool, duration_seconds).err()
            },
            Operation::Contribute { contributor, round_id, project, amount } => {
                contribute_step(env, contributor, round_id, project, amount).err()
            },
            Operation::FinalizeRound { admin, round_id } => {
                finalize_round_step(env, admin, round_id).err()
            },
            Operation::DistributeMatching { admin, round_id } => {
                distribute_matching_step(env, admin, round_id).err()
            },
        }
    }

    /// The round that the operation is about.
    pub open spec fn round(self, s: QFState) -> u64 {
        match self {
            Operation::CreateRound { .. } => s.next_id(),
            Operation::Contribute { round_id, .. } => round_id,
            Operation::FinalizeRound { round_id, .. } => round_id,
            Operation::DistributeMatching { round_id, .. } => round_id,
        }
    }

    /// The entries on which the outcome of the operation rests.
    pub open spec fn keys(self, s: QFState) -> Seq<QFKey> {
        match self {
            Operation::CreateRound { .. } => seq![QFKey::RoundCtr],
            Operation::Contribute { contributor, round_id, project, .. } => contribution_keys(
                round_id,
                project,
                contributor,
            ),
            Operation::FinalizeRound { round_id, .. } => seq![QFKey::Round(round_id)],
            Operation::DistributeMatching { round_id, .. } => distribution_keys(s, round_id),
        }
    }

    /// The entries that the operation can change.
    pub open spec fn written(self, s: QFState) -> Seq<QFKey> {
        match self {
            Operation::CreateRound { .. } => seq![QFKey::RoundCtr, QFKey::Round(s.next_id())],
            Operation::Contribute { contributor, round_id, project, .. } => contribution_keys(
                round_id,
                project,
                contributor,
            ),
            Operation::FinalizeRound { round_id, .. } => seq![QFKey::Round(round_id)],
            Operation::DistributeMatching { round_id, .. } => seq![QFKey::Round(round_id)],
        }
    }
}

/// An operation changes only what it is said to write.
pub proof fn law_rest_is_unchanged(env: QFView, operation: Operation, key: QFKey)
    requires
        !operation.written(env.storage).contains(key),
    ensures
        operation.after(env).storage.agrees(env.storage, key),
{
    let keys = operation.written(env.storage);
    assert(forall|i: int| 0 <= i < keys.len() ==> key != #[trigger] keys[i]);
    match operation {
        Operation::CreateRound { .. } => {
            assert(key != keys[0] && key != keys[1]);
        },
        Operation::Contribute { .. } => {
            assert(key != keys[0] && key != keys[1] && key != keys[2] && key != keys[3] && key
                != keys[4]);
        },
        Operation::FinalizeRound { .. } => {
            assert(key != keys[0]);
        },
        Operation::DistributeMatching { .. } => {
            assert(key != keys[0]);
        },
    }
}

/// An operation on one round leaves the entries of all other rounds as they are.
pub proof fn law_other_rounds_are_unchanged(env: QFView, operation: Operation, key: QFKey)
    requires
        key.round() is Some,
        key.round() != Some(operation.round(env.storage)),
    ensures
        operation.after(env).storage.agrees(env.storage, key),
{
    law_rest_is_unchanged(env, operation, key);
}

/// Agreement on a longer list of keys is agreement on its parts.
proof fn lemma_agrees_on_parts(s: QFState, t: QFState, a: Seq<QFKey>, b: Seq<QFKey>)
    requires
        s.agrees_on(t, a + b),
    ensures
        s.agrees_on(t, a),
        s.agrees_on(t, b),
{
    assert forall|i: int| 0 <= i < a.len() implies #[trigger] s.agrees(t, a[i]) by {
        assert((a + b)[i] == a[i]);
    }
    assert forall|i: int| 0 <= i < b.len() implies #[trigger] s.agrees(t, b[i]) by {
        assert((a + b)[a.len() + i] == b[i]);
    }
}

/// What the entries behind an estimate tell.
proof fn lemma_same_weights(s: QFState, t: QFState, r: u64)
    requires
        s.agrees_on(t, estimate_keys(s, r)),
    ensures
        same_at(s.rounds, t.rounds, r),
        t.projects_of(r) == s.projects_of(r),
        forall|i: int|
            0 <= i < s.projects_of(r).len() ==> s.weight_of(r, #[trigger] s.projects_of(r)[i])
                == t.weight_of(r, s.projects_of(r)[i]),
        t.weights_of(r) == s.weights_of(r),
{
    let projects = s.projects_of(r);
    let sums = projects.map_values(|p: Address| QFKey::ProjectSqrtSum(r, p));
    let head = seq![QFKey::Round(r), QFKey::RoundProjects(r)];
    lemma_agrees_on_parts(s, t, head, sums);
    assert(s.agrees(t, head[0]) && s.agrees(t, head[1]));
    assert forall|i: int| 0 <= i < projects.len() implies s.weight_of(r, #[trigger] projects[i])
        == t.weight_of(r, projects[i]) by {
        assert(s.agrees(t, sums[i]));
    }
    assert(t.weights_of(r) =~= s.weights_of(r));
}

/// The contributions that are paid back rest on the entries of the project.
proof fn lemma_same_refunds(
    s: QFState,
    t: QFState,
    contract: Address,
    token: Address,
    r: u64,
    p: Address,
    contributors: Seq<Address>,
)
    requires
        forall|i: int|
            0 <= i < contributors.len() ==> s.agrees(
                t,
                QFKey::Contribution(r, p, #[trigger] contributors[i]),
            ),
    ensures
        refunds(s, contract, token, r, p, contributors) == refunds(
            t,
            contract,
            token,
            r,
            p,
            contributors,
        ),
    decreases contributors.len(),
{
    if contributors.len() > 0 {
        let rest = contributors.drop_last();
        assert forall|i: int| 0 <= i < rest.len() implies s.agrees(
            t,
            QFKey::Contribution(r, p, #[trigger] rest[i]),
        ) by {
            assert(rest[i] == contributors[i]);
        }
        lemma_same_refunds(s, t, contract, token, r, p, rest);
        assert(s.agrees(t, QFKey::Contribution(r, p, contributors[contributors.len() - 1])));
    }
}

/// What is paid to a list of projects rests on their entries.
proof fn lemma_same_payouts(
    s: QFState,
    t: QFState,
    contract: Address,
    token: Address,
    r: u64,
    projects: Seq<Address>,
    amounts: Seq<int>,
)
    requires
        s.agrees_on(t, refunds_keys(s, r, projects)),
    ensures
        payouts(s, contract, token, r, projects, amounts) == payouts(
            t,
            contract,
            token,
            r,
            projects,
            amounts,
        ),
    decreases projects.len(),
{
    if projects.len() > 0 {
        let rest = projects.drop_last();
        let p = projects.last();
        let own = refund_keys(s, r, p);
        lemma_agrees_on_parts(s, t, refunds_keys(s, r, rest), own);
        lemma_same_payouts(s, t, contract, token, r, rest, amounts.drop_last());
        let contributors = s.contributors_of(r, p);
        assert(s.agrees(t, own[0]));
        assert forall|i: int| 0 <= i < contributors.len() implies s.agrees(
            t,
            QFKey::Contribution(r, p, #[trigger] contributors[i]),
        ) by {
            assert(own[1 + i] == QFKey::Contribution(r, p, contributors[i]));
            assert(s.agrees(t, own[1 + i]));
        }
        lemma_same_refunds(s, t, contract, token, r, p, contributors);
        assert(project_payout(s, contract, token, r, p, amounts.last()) == project_payout(
            t,
            contract,
            token,
            r,
            p,
            amounts.last(),
        ));
    }
}

/// The outcome of an operation rests only on the entries that it is said to read: with the same
/// entries there, whatever else is stored, it is refused for the same reason or asks the host for
/// the same, and leaves the same in what it writes.
pub proof fn law_outcome_rests_on_keys(env: QFView, other: QFState, operation: Operation)
    requires
        env.storage.agrees_on(other, operation.keys(env.storage)),
    ensures
        ({
            let elsewhere = InvocationView { storage: other, ..env };
            let after = operation.after(env);
            let after_elsewhere = operation.after(elsewhere);
            &&& operation.refusal(elsewhere) == operation.refusal(env)
            &&& after_elsewhere.actions == after.actions
            &&& operation.refusal(env) is None ==> after.storage.agrees_on(
                after_elsewhere.storage,
                operation.written(env.storage),
            )
        }),
{
    let s = env.storage;
    let keys = operation.keys(s);
    match operation {
        Operation::CreateRound { .. } => {
            assert(s.agrees(other, keys[0]));
        },
        Operation::Contribute { round_id, project, .. } => {
            assert(s.agrees(other, keys[0]) && s.agrees(other, keys[1]) && s.agrees(other, keys[2])
                && s.agrees(other, keys[3]) && s.agrees(other, keys[4]));
            assert(s.projects_of(round_id) == other.projects_of(round_id));
            assert(s.contributors_of(round_id, project) == other.contributors_of(
                round_id,
                project,
            ));
            assert(s.sqrt_sum_of(round_id, project) == other.sqrt_sum_of(round_id, project));
        },
        Operation::FinalizeRound { .. } => {
            assert(s.agrees(other, keys[0]));
        },
        Operation::DistributeMatching { round_id, .. } => {
            let projects = s.projects_of(round_id);
            lemma_agrees_on_parts(
                s,
                other,
                estimate_keys(s, round_id),
                refunds_keys(s, round_id, projects),
            );
            lemma_same_weights(s, other, round_id);
            if s.rounds.contains_key(round_id) {
                let amounts = match_amounts(
                    s.rounds[round_id].matching_pool as int,
                    s.weights_of(round_id),
                );
                lemma_same_payouts(
                    s,
                    other,
                    env.contract,
                    s.rounds[round_id].token,
                    round_id,
                    projects,
                    amounts,
                );
            }
        },
    }
}

/// An estimate rests only on the entries that it is said to read.
pub proof fn law_estimate_rests_on_keys(s: QFState, other: QFState, round_id: u64, project: Address)
    requires
        s.agrees_on(other, estimate_keys(s, round_id)),
    ensures
        match_estimate(other, round_id, project) == match_estimate(s, round_id, project),
{
    lemma_same_weights(s, other, round_id);
    let projects = s.projects_of(round_id);
    if projects.contains(project) {
        let i = choose|i: int| 0 <= i < projects.len() && projects[i] == project;
        assert(s.weight_of(round_id, projects[i]) == other.weight_of(round_id, projects[i]));
    }
}

} // verus!
