//! Retroactive funding of public goods.
//!
//! A round rewards projects for what they have already done. The admin opens a round with a
//! reward pool and the criteria for taking part. Projects that meet the criteria are nominated.
//! During the voting window each voter votes for one project, with a weight. When the window has
//! closed, the admin closes the round, and the pool is split among the projects in proportion to
//! their votes.
use crate::address::{Address, AddressList};
use crate::amounts::{lemma_sum_bounds, lemma_sum_take, lemma_sums_in_order, saturating_add, sum};
use crate::invocation::{follows, Action, Invocation, InvocationView, Transfer};
use crate::shares::{lemma_paid_take, paid};
use crate::table::Table;
use vstd::prelude::*;

pub mod checked;
pub mod effects;
pub mod keys;
pub mod laws;
pub mod model;
pub mod payout_laws;
pub mod solvency;

use model::{
    cast_vote_step, create_round_step, distribution_in_range, finalize_and_distribute_step,
    nominate_project_step, open_voting_step, payouts, reward_dues, rewarded, rewards,
    split_in_range,
};

verus! {

/// Where an entry is stored.
#[derive(Copy, Clone, Debug, PartialEq, Eq, Structural)]
pub enum RFKey {
    /// The record of a round, by its id.
    Round(u64),
    /// The id of the next round.
    RoundCtr,
    /// The record of a nominated project, by round and project.
    Project(u64, Address),
    /// The projects nominated in a round, by its id.
    RoundProjects(u64),
    /// All votes cast in a round, by its id.
    RoundTotalVotes(u64),
    /// Whether an address has voted, by round and voter.
    HasVoted(u64, Address),
}

/// How far a round has come.
#[derive(Copy, Clone, Debug, PartialEq, Eq, Structural)]
pub enum RoundStatus {
    Nominations,
    Voting,
    Finalized,
}

/// What a project must have reached to be nominated.
#[derive(Debug, PartialEq, Eq)]
pub struct EvalCriteria {
    pub min_tip_volume: i128,
    pub min_unique_tippers: u32,
    pub description: String,
}

impl Clone for EvalCriteria {
    fn clone(&self) -> (r: EvalCriteria)
        ensures
            r == *self,
    {
        EvalCriteria {
            min_tip_volume: self.min_tip_volume,
            min_unique_tippers: self.min_unique_tippers,
            description: self.description.clone(),
        }
    }
}

/// A round of retroactive funding.
#[derive(Debug, PartialEq, Eq)]
pub struct RetroRound {
    pub round_id: u64,
    pub admin: Address,
    pub token: Address,
    pub reward_pool: i128,
    pub criteria: EvalCriteria,
    pub voting_start: u64,
    pub voting_end: u64,
    pub status: RoundStatus,
}

impl Clone for RetroRound {
    fn clone(&self) -> (r: RetroRound)
        ensures
            r == *self,
    {
        RetroRound {
            round_id: self.round_id,
            admin: self.admin,
            token: self.token,
            reward_pool: self.reward_pool,
            criteria: self.criteria.clone(),
            voting_start: self.voting_start,
            voting_end: self.voting_end,
            status: self.status,
        }
    }
}

impl View for RetroRound {
    type V = RetroRound;

    open spec fn view(&self) -> RetroRound {
        *self
    }
}

/// A nominated project: its metrics, its votes and its reward.
#[derive(Debug, PartialEq, Eq)]
pub struct ProjectRecord {
    pub project: Address,
    pub round_id: u64,
    pub tip_volume: i128,
    pub unique_tippers: u32,
    pub impact_description: String,
    pub votes: i128,
    pub reward: i128,
}

impl Clone for ProjectRecord {
    fn clone(&self) -> (r: ProjectRecord)
        ensures
            r == *self,
    {
        ProjectRecord {
            project: self.project,
            round_id: self.round_id,
            tip_volume: self.tip_volume,
            unique_tippers: self.unique_tippers,
            impact_description: self.impact_description.clone(),
            votes: self.votes,
            reward: self.reward,
        }
    }
}

impl View for ProjectRecord {
    type V = ProjectRecord;

    open spec fn view(&self) -> ProjectRecord {
        *self
    }
}

/// Why an operation is refused.
#[derive(Copy, Clone, Debug, PartialEq, Eq, PartialOrd, Ord, Structural)]
pub enum RFError {
    RoundNotFound,
    InvalidStatus,
    VotingNotOpen,
    AlreadyVoted,
    InvalidAmount,
    Unauthorized,
    ProjectNotEligible,
    ProjectAlreadyNominated,
    ProjectNotFound,
    VotingNotEnded,
}

impl RFError {
    /// The number under which the error is known outside the contract.
    pub open spec fn spec_code(self) -> u32 {
        match self {
            RFError::RoundNotFound => 210,
            RFError::InvalidStatus => 211,
            RFError::VotingNotOpen => 212,
            RFError::AlreadyVoted => 213,
            RFError::InvalidAmount => 214,
            RFError::Unauthorized => 215,
            RFError::ProjectNotEligible => 216,
            RFError::ProjectAlreadyNominated => 217,
            RFError::ProjectNotFound => 218,
            RFError::VotingNotEnded => 219,
        }
    }

    /// The number under which the error is known outside the contract.
    pub fn code(self) -> (r: u32)
        ensures
            r == self.spec_code(),
    {
        match self {
            RFError::RoundNotFound => 210,
            RFError::InvalidStatus => 211,
            RFError::VotingNotOpen => 212,
            RFError::AlreadyVoted => 213,
            RFError::InvalidAmount => 214,
            RFError::Unauthorized => 215,
            RFError::ProjectNotEligible => 216,
            RFError::ProjectAlreadyNominated => 217,
            RFError::ProjectNotFound => 218,
            RFError::VotingNotEnded => 219,
        }
    }
}

/// What the contract tells the outside about a round.
#[derive(Copy, Clone, Debug, PartialEq, Eq, Structural)]
pub enum RFEvent {
    New { round_id: u64, admin: Address, token: Address, reward_pool: i128 },
    Nominated { round_id: u64, project: Address, tip_volume: i128, unique_tippers: u32 },
    VotingOpened { round_id: u64 },
    VoteCast { round_id: u64, voter: Address, project: Address, weight: i128 },
    Rewarded { round_id: u64, project: Address, votes: i128, reward: i128 },
    Done { round_id: u64, distributed: i128 },
}

impl RFEvent {
    /// The topic under which the event is published.
    pub open spec fn spec_topic(self) -> Seq<char> {
        match self {
            RFEvent::New { .. } => "rf_new"@,
            RFEvent::Nominated { .. } => "rf_nom"@,
            RFEvent::VotingOpened { .. } => "rf_vote"@,
            RFEvent::VoteCast { .. } => "rf_cast"@,
            RFEvent::Rewarded { .. } => "rf_dist"@,
            RFEvent::Done { .. } => "rf_done"@,
        }
    }

    /// The topic under which the event is published.
    pub fn topic(&self) -> (r: &'static str)
        ensures
            r@ == self.spec_topic(),
    {
        match self {
            RFEvent::New { .. } => "rf_new",
            RFEvent::Nominated { .. } => "rf_nom",
            RFEvent::VotingOpened { .. } => "rf_vote",
            RFEvent::VoteCast { .. } => "rf_cast",
            RFEvent::Rewarded { .. } => "rf_dist",
            RFEvent::Done { .. } => "rf_done",
        }
    }
}

/// The stored entries of retroactive funding.
pub struct RFStorage {
    pub round_ctr: Option<u64>,
    pub rounds: Table<u64, RetroRound>,
    pub records: Table<(u64, Address), ProjectRecord>,
    pub projects: Table<u64, AddressList>,
    pub total_votes: Table<u64, i128>,
    pub voted: Table<(u64, Address), bool>,
}

/// The model of the stored entries.
#[verifier::ext_equal]
pub struct RFState {
    pub round_ctr: Option<u64>,
    pub rounds: Map<u64, RetroRound>,
    pub records: Map<(u64, Address), ProjectRecord>,
    pub projects: Map<u64, Seq<Address>>,
    pub total_votes: Map<u64, i128>,
    pub voted: Map<(u64, Address), bool>,
}

impl View for RFStorage {
    type V = RFState;

    open spec fn view(&self) -> RFState {
        RFState {
            round_ctr: self.round_ctr,
            rounds: self.rounds@,
            records: self.records@,
            projects: self.projects@,
            total_votes: self.total_votes@,
            voted: self.voted@,
        }
    }
}

/// An invocation of retroactive funding.
pub type RFInvocation = Invocation<RFStorage, RFEvent>;

/// The model of an invocation of retroactive funding.
pub type RFView = InvocationView<RFState, RFEvent>;

impl RFStorage {
    /// Storage in which nothing is stored.
    pub fn new() -> (r: RFStorage)
        ensures
            r@ == (RFState {
                round_ctr: None,
                rounds: Map::empty(),
                records: Map::empty(),
                projects: Map::empty(),
                total_votes: Map::empty(),
                voted: Map::empty(),
            }),
    {
        RFStorage {
            round_ctr: None,
            rounds: Table::new(),
            records: Table::new(),
            projects: Table::new(),
            total_votes: Table::new(),
            voted: Table::new(),
        }
    }

    /// All votes cast in the round.
    fn total(&self, round_id: u64) -> (r: i128)
        ensures
            r == self@.total_votes_of(round_id),
    {
        match self.total_votes.get(&round_id) {
            Some(total) => *total,
            None => 0,
        }
    }
}

/// Creates a round and asks the admin to deposit the reward pool. Returns the round's id.
pub fn create_round(
    env: &mut RFInvocation,
    admin: &Address,
    token: &Address,
    reward_pool: i128,
    criteria: EvalCriteria,
    voting_start: u64,
    voting_end: u64,
) -> (r: Result<u64, RFError>)
    requires
        create_round_step(
            old(env)@,
            *admin,
            *token,
            reward_pool,
            criteria,
            voting_start,
            voting_end,
        ) is Ok ==> old(env)@.storage.next_id() < u64::MAX,
    ensures
        follows(
            old(env)@,
            create_round_step(
                old(env)@,
                *admin,
                *token,
                reward_pool,
                criteria,
                voting_start,
                voting_end,
            ),
            final(env)@,
            r,
        ),
{
    if reward_pool <= 0 || voting_end <= voting_start {
        return Err(RFError::InvalidAmount);
    }
    let ghost wanted = criteria;
    let round_id: u64 = match env.storage.round_ctr {
        Some(id) => id,
        None => 0,
    };
    env.storage.round_ctr = Some(round_id + 1);
    env.actions.push(
        Action::Transfer(
            Transfer { token: *token, from: *admin, to: env.contract, amount: reward_pool },
        ),
    );
    env.storage.rounds.set(
        round_id,
        RetroRound {
            round_id,
            admin: *admin,
            token: *token,
            reward_pool,
            criteria,
            voting_start,
            voting_end,
            status: RoundStatus::Nominations,
        },
    );
    env.actions.push(
        Action::Publish(RFEvent::New { round_id, admin: *admin, token: *token, reward_pool }),
    );
    assert(env@.actions =~= create_round_step(
        old(env)@,
        *admin,
        *token,
        reward_pool,
        wanted,
        voting_start,
        voting_end,
    )->Ok_0.0.actions);
    Ok(round_id)
}

/// Whether the project can be nominated, or why that is refused.
fn admit_nomination(
    env: &RFInvocation,
    round_id: u64,
    project: &Address,
    tip_volume: i128,
    unique_tippers: u32,
    described: Ghost<String>,
) -> (r: Result<(), RFError>)
    ensures
        match nominate_project_step(
            env@,
            round_id,
            *project,
            tip_volume,
            unique_tippers,
            described@,
        ) {
            Ok(_) => r == Ok::<(), RFError>(()),
            Err(error) => r == Err::<(), RFError>(error),
        },
{
    let round: &RetroRound = match env.storage.rounds.get(&round_id) {
        Some(round) => round,
        None => return Err(RFError::RoundNotFound),
    };
    if round.status != RoundStatus::Nominations {
        return Err(RFError::InvalidStatus);
    }
    if tip_volume < round.criteria.min_tip_volume || unique_tippers
        < round.criteria.min_unique_tippers {
        return Err(RFError::ProjectNotEligible);
    }
    if env.storage.records.has(&(round_id, *project)) {
        return Err(RFError::ProjectAlreadyNominated);
    }
    Ok(())
}

/// Nominates a project for the round, with the metrics of its impact.
pub fn nominate_project(
    env: &mut RFInvocation,
    round_id: u64,
    project: &Address,
    tip_volume: i128,
    unique_tippers: u32,
    impact_description: String,
) -> (r: Result<(), RFError>)
    requires
        nominate_project_step(
            old(env)@,
            round_id,
            *project,
            tip_volume,
            unique_tippers,
            impact_description,
        ) is Ok ==> old(env)@.storage.projects_of(round_id).len() < u32::MAX,
    ensures
        follows(
            old(env)@,
            nominate_project_step(
                old(env)@,
                round_id,
                *project,
                tip_volume,
                unique_tippers,
                impact_description,
            ),
            final(env)@,
            r,
        ),
{
    let ghost described = impact_description;
    if let Err(error) = admit_nomination(
        env,
        round_id,
        project,
        tip_volume,
        unique_tippers,
        Ghost(impact_description),
    ) {
        return Err(error);
    }
    env.storage.records.set(
        (round_id, *project),
        ProjectRecord {
            project: *project,
            round_id,
            tip_volume,
            unique_tippers,
            impact_description,
            votes: 0,
            reward: 0,
        },
    );
    let mut projects: AddressList = match env.storage.projects.get(&round_id) {
        Some(list) => list.copied(),
        None => AddressList::new(&env.host),
    };
    projects.push_back(*project);
    env.storage.projects.set(round_id, projects);
    env.actions.push(
        Action::Publish(
            RFEvent::Nominated { round_id, project: *project, tip_volume, unique_tippers },
        ),
    );
    assert(env@.actions =~= nominate_project_step(
        old(env)@,
        round_id,
        *project,
        tip_volume,
        unique_tippers,
        described,
    )->Ok_0.0.actions);
    Ok(())
}

/// Ends the nominations and opens the vote. Only the round's admin can do this.
pub fn open_voting(env: &mut RFInvocation, admin: &Address, round_id: u64) -> (r: Result<
    (),
    RFError,
>)
    ensures
        follows(old(env)@, open_voting_step(old(env)@, *admin, round_id), final(env)@, r),
{
    let mut round: RetroRound = match env.storage.rounds.get(&round_id) {
        Some(round) => round.clone(),
        None => return Err(RFError::RoundNotFound),
    };
    if round.admin != *admin {
        return Err(RFError::Unauthorized);
    }
    if round.status != RoundStatus::Nominations {
        return Err(RFError::InvalidStatus);
    }
    round.status = RoundStatus::Voting;
    env.storage.rounds.set(round_id, round);
    env.actions.push(Action::Publish(RFEvent::VotingOpened { round_id }));
    assert(env@.actions =~= open_voting_step(old(env)@, *admin, round_id)->Ok_0.0.actions);
    Ok(())
}

/// Votes for a project with the given weight. A voter has one vote in a round.
pub fn cast_vote(
    env: &mut RFInvocation,
    voter: &Address,
    round_id: u64,
    project: &Address,
    weight: i128,
) -> (r: Result<(), RFError>)
    ensures
        follows(
            old(env)@,
            cast_vote_step(old(env)@, *voter, round_id, *project, weight),
            final(env)@,
            r,
        ),
{
    if weight <= 0 {
        return Err(RFError::InvalidAmount);
    }
    let round: &RetroRound = match env.storage.rounds.get(&round_id) {
        Some(round) => round,
        None => return Err(RFError::RoundNotFound),
    };
    if round.status != RoundStatus::Voting {
        return Err(RFError::VotingNotOpen);
    }
    let now: u64 = env.timestamp;
    if now < round.voting_start || now > round.voting_end {
        return Err(RFError::VotingNotOpen);
    }
    if env.storage.voted.has(&(round_id, *voter)) {
        return Err(RFError::AlreadyVoted);
    }
    let mut record: ProjectRecord = match env.storage.records.get(&(round_id, *project)) {
        Some(record) => record.clone(),
        None => return Err(RFError::ProjectNotFound),
    };
    env.storage.voted.set((round_id, *voter), true);
    record.votes = saturating_add(record.votes, weight);
    env.storage.records.set((round_id, *project), record);
    let total: i128 = env.storage.total(round_id);
    env.storage.total_votes.set(round_id, saturating_add(total, weight));
    env.actions.push(
        Action::Publish(RFEvent::VoteCast { round_id, voter: *voter, project: *project, weight }),
    );
    assert(env@.actions =~= cast_vote_step(
        old(env)@,
        *voter,
        round_id,
        *project,
        weight,
    )->Ok_0.0.actions);
    Ok(())
}

/// The votes of the given projects, or none where one of them has no record.
fn collect_votes(storage: &RFStorage, round_id: u64, projects: &Vec<Address>) -> (r: Option<
    Vec<i128>,
>)
    requires
        projects@ == storage@.projects_of(round_id),
    ensures
        r is Some <==> storage@.all_recorded(round_id),
        r matches Some(votes) ==> votes@.map_values(|v: i128| v as int) == storage@.votes_of(
            round_id,
        ),
{
    let mut votes: Vec<i128> = Vec::new();
    let mut i: usize = 0;
    while i < projects.len()
        invariant
            i <= projects.len(),
            projects@ == storage@.projects_of(round_id),
            votes.len() == i,
            forall|j: int|
                0 <= j < i ==> storage@.records.contains_key((round_id, #[trigger] projects@[j])),
            forall|j: int|
                0 <= j < i ==> #[trigger] votes@[j] == storage@.records[(
                    round_id,
                    projects@[j],
                )].votes,
        decreases projects.len() - i,
    {
        match storage.records.get(&(round_id, projects[i])) {
            Some(record) => votes.push(record.votes),
            None => return None,
        }
        i += 1;
    }
    assert(votes@.map_values(|v: i128| v as int) =~= storage@.votes_of(round_id));
    Some(votes)
}

/// Giving rewards changes nothing else in the records.
pub(crate) proof fn lemma_rewarded_keeps(
    records: Map<(u64, Address), ProjectRecord>,
    round_id: u64,
    projects: Seq<Address>,
    amounts: Seq<int>,
)
    requires
        forall|i: int|
            0 <= i < projects.len() ==> records.contains_key((round_id, #[trigger] projects[i])),
    ensures
        rewarded(records, round_id, projects, amounts).dom() == records.dom(),
        forall|k: (u64, Address)|
            records.contains_key(k) ==> (
            #[trigger] rewarded(records, round_id, projects, amounts)[k]) == (ProjectRecord {
                reward: rewarded(records, round_id, projects, amounts)[k].reward,
                ..records[k]
            }),
    decreases projects.len(),
{
    if projects.len() > 0 {
        let rest = projects.drop_last();
        assert forall|i: int| 0 <= i < rest.len() implies records.contains_key(
            (round_id, #[trigger] rest[i]),
        ) by {
            assert(rest[i] == projects[i]);
        }
        lemma_rewarded_keeps(records, round_id, rest, amounts.drop_last());
        assert(records.contains_key((round_id, projects[projects.len() - 1])));
        assert(rewarded(records, round_id, projects, amounts).dom() =~= records.dom());
    }
}

/// What is known of the dues up to the `i`-th project.
proof fn lemma_reward_dues(pool: int, votes: Seq<int>, total: int, i: int)
    requires
        0 < pool <= i128::MAX,
        0 <= i < votes.len(),
        split_in_range(pool, votes, total),
    ensures
        ({
            let dues = reward_dues(pool, votes, total);
            &&& forall|j: int| 0 <= j < dues.len() ==> 0 <= #[trigger] dues[j] <= i128::MAX
            &&& 0 <= sum(dues.take(i)) <= i128::MAX
            &&& i < dues.len() ==> 0 <= sum(dues.take(i + 1)) <= i128::MAX
            &&& total > 0 && i < votes.len() - 1 ==> 0 <= pool * votes[i] <= i128::MAX
        }),
{
    let dues = reward_dues(pool, votes, total);
    let count = votes.len() as int;
    assert forall|j: int| 0 <= j < dues.len() implies 0 <= #[trigger] dues[j] by {
        assert(votes.drop_last()[j] == votes[j]);
        if total > 0 {
            let product = pool * votes[j];
            assert(0 <= product) by (nonlinear_arith)
                requires
                    product == pool * votes[j],
                    0 < pool,
                    0 <= votes[j],
            ;
            assert(0 <= product / total) by (nonlinear_arith)
                requires
                    0 <= product,
                    0 < total,
            ;
        } else {
            assert(0 <= pool / count) by (nonlinear_arith)
                requires
                    0 < pool,
                    0 < count,
            ;
        }
    }
    lemma_sum_bounds(dues);
    lemma_sums_in_order(dues, i);
    if i < dues.len() {
        lemma_sums_in_order(dues, i + 1);
    }
    if total > 0 && i < votes.len() - 1 {
        assert(0 <= pool * votes[i]) by (nonlinear_arith)
            requires
                0 < pool,
                0 <= votes[i],
        ;
    }
}

/// The round that is to be paid out, its projects and their votes, or why that is refused.
fn admit_distribution(env: &RFInvocation, admin: &Address, round_id: u64) -> (r: Result<
    (RetroRound, Vec<Address>, Vec<i128>),
    RFError,
>)
    ensures
        match finalize_and_distribute_step(env@, *admin, round_id) {
            Ok(_) => r matches Ok((round, projects, votes)) && {
                &&& round == env@.storage.rounds[round_id]
                &&& projects@ == env@.storage.projects_of(round_id)
                &&& votes@.map_values(|v: i128| v as int) == env@.storage.votes_of(round_id)
            },
            Err(error) => r matches Err(e) && e == error,
        },
{
    let round: RetroRound = match env.storage.rounds.get(&round_id) {
        Some(round) => round.clone(),
        None => return Err(RFError::RoundNotFound),
    };
    if round.admin != *admin {
        return Err(RFError::Unauthorized);
    }
    if round.status != RoundStatus::Voting {
        return Err(RFError::InvalidStatus);
    }
    if env.timestamp <= round.voting_end {
        return Err(RFError::VotingNotEnded);
    }
    let projects: Vec<Address> = get_round_projects(env, round_id);
    match collect_votes(&env.storage, round_id, &projects) {
        Some(votes) => Ok((round, projects, votes)),
        None => Err(RFError::ProjectNotFound),
    }
}

/// Closes a round whose voting window is over, and splits the reward pool among the projects in
/// proportion to their votes. Only the round's admin can do this, once.
pub fn finalize_and_distribute(env: &mut RFInvocation, admin: &Address, round_id: u64) -> (r:
    Result<(), RFError>)
    requires
        finalize_and_distribute_step(old(env)@, *admin, round_id) is Ok ==> distribution_in_range(
            old(env)@.storage,
            round_id,
        ),
    ensures
        follows(
            old(env)@,
            finalize_and_distribute_step(old(env)@, *admin, round_id),
            final(env)@,
            r,
        ),
{
    let (mut round, projects, votes) = match admit_distribution(env, admin, round_id) {
        Ok(admitted) => admitted,
        Err(error) => return Err(error),
    };
    let total: i128 = env.storage.total(round_id);
    let pool: i128 = round.reward_pool;
    let token: Address = round.token;
    let count: usize = projects.len();
    let mut distributed: i128 = 0;

    let ghost before = env@;
    let ghost vs = before.storage.votes_of(round_id);
    let ghost dues = reward_dues(pool as int, vs, total as int);
    let ghost amounts = rewards(pool as int, vs, total as int);
    let mut i: usize = 0;
    assert(projects@.take(0) =~= Seq::<Address>::empty());
    while i < count
        invariant
            i <= count,
            count == projects@.len() == vs.len() == votes@.len() == amounts.len(),
            projects@ == before.storage.projects_of(round_id),
            vs == before.storage.votes_of(round_id),
            votes@.map_values(|v: i128| v as int) == vs,
            before.storage.all_recorded(round_id),
            0 < pool,
            split_in_range(pool as int, vs, total as int),
            dues == reward_dues(pool as int, vs, total as int),
            amounts == rewards(pool as int, vs, total as int),
            distributed == paid(amounts.take(i as int)),
            i < count ==> distributed == sum(dues.take(i as int)),
            env@ == before.leaving(
                RFState {
                    records: rewarded(
                        before.storage.records,
                        round_id,
                        projects@.take(i as int),
                        amounts.take(i as int),
                    ),
                    ..before.storage
                },
                payouts(
                    before.contract,
                    token,
                    round_id,
                    projects@.take(i as int),
                    vs.take(i as int),
                    amounts.take(i as int),
                ),
            ),
        decreases count - i,
    {
        let project: Address = projects[i];
        proof {
            assert(vs[i as int] == votes@[i as int]);
            lemma_reward_dues(pool as int, vs, total as int, i as int);
            assert forall|j: int| 0 <= j < projects@.take(i as int).len() implies
                before.storage.records.contains_key(
                (round_id, #[trigger] projects@.take(i as int)[j]),
            ) by {
                assert(projects@.take(i as int)[j] == projects@[j]);
            }
            lemma_rewarded_keeps(
                before.storage.records,
                round_id,
                projects@.take(i as int),
                amounts.take(i as int),
            );
            assert(before.storage.records.contains_key((round_id, projects@[i as int])));
        }
        let mut record: ProjectRecord = match env.storage.records.get(&(round_id, project)) {
            Some(record) => record.clone(),
            None => return Err(RFError::ProjectNotFound),
        };
        let reward: i128 = if i == count - 1 {
            assert(dues.take(i as int) =~= dues);
            pool - distributed
        } else if total > 0 {
            (pool * record.votes) / total
        } else {
            pool / (count as i128)
        };
        assert(reward == amounts[i as int]);
        proof {
            lemma_paid_take(amounts, i as int);
            if i < count - 1 {
                lemma_sum_take(dues, i as int);
            }
        }
        if reward > 0 {
            env.actions.push(
                Action::Transfer(
                    Transfer { token, from: env.contract, to: project, amount: reward },
                ),
            );
            distributed = distributed + reward;
        }
        record.reward = reward;
        let project_votes: i128 = record.votes;
        env.storage.records.set((round_id, project), record);
        env.actions.push(
            Action::Publish(
                RFEvent::Rewarded { round_id, project, votes: project_votes, reward },
            ),
        );
        i += 1;
        proof {
            assert(projects@.take(i as int).drop_last() =~= projects@.take(i - 1));
            assert(vs.take(i as int).drop_last() =~= vs.take(i - 1));
            assert(amounts.take(i as int).drop_last() =~= amounts.take(i - 1));
            assert(env@.actions =~= before.actions + payouts(
                before.contract,
                token,
                round_id,
                projects@.take(i as int),
                vs.take(i as int),
                amounts.take(i as int),
            ));
        }
    }
    proof {
        assert(projects@.take(i as int) =~= projects@);
        assert(vs.take(i as int) =~= vs);
        assert(amounts.take(i as int) =~= amounts);
    }
    round.status = RoundStatus::Finalized;
    env.storage.rounds.set(round_id, round);
    env.actions.push(Action::Publish(RFEvent::Done { round_id, distributed }));
    assert(env@.actions =~= finalize_and_distribute_step(
        old(env)@,
        *admin,
        round_id,
    )->Ok_0.0.actions);
    Ok(())
}

/// The record of the round.
pub fn get_round(env: &RFInvocation, round_id: u64) -> (r: Option<RetroRound>)
    ensures
        r == (if env@.storage.rounds.contains_key(round_id) {
            Some(env@.storage.rounds[round_id])
        } else {
            None
        }),
{
    match env.storage.rounds.get(&round_id) {
        Some(round) => Some(round.clone()),
        None => None,
    }
}

/// The record of the project in the round.
pub fn get_project(env: &RFInvocation, round_id: u64, project: &Address) -> (r: Option<
    ProjectRecord,
>)
    ensures
        r == (if env@.storage.records.contains_key((round_id, *project)) {
            Some(env@.storage.records[(round_id, *project)])
        } else {
            None
        }),
{
    match env.storage.records.get(&(round_id, *project)) {
        Some(record) => Some(record.clone()),
        None => None,
    }
}

/// The projects nominated in the round, in order.
pub fn get_round_projects(env: &RFInvocation, round_id: u64) -> (r: Vec<Address>)
    ensures
        r@ == env@.storage.projects_of(round_id),
        env@.storage.projects.contains_key(round_id) ==> r@ == env@.storage.projects[round_id],
        !env@.storage.projects.contains_key(round_id) ==> r@.len() == 0,
{
    match env.storage.projects.get(&round_id) {
        Some(list) => list.to_vec(),
        None => Vec::new(),
    }
}

/// Whether the voter has voted in the round.
pub fn has_voted(env: &RFInvocation, round_id: u64, voter: &Address) -> (r: bool)
    ensures
        r == env@.storage.voted.contains_key((round_id, *voter)),
{
    env.storage.voted.has(&(round_id, *voter))
}

} // verus!
