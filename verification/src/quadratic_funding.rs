//! Quadratic funding.
//!
//! A round matches the contributions to its projects out of a pool. Contributions count by their
//! square roots, so that many small ones weigh more than a large one of the same amount: the pool
//! is split in proportion to (Σ√contribution)² of each project. An address can contribute once to
//! each project of a round. When the round is paid out, the projects get the pool, and the
//! contributors get their contributions back.
use crate::address::{Address, AddressList};
use crate::amounts::{
    lemma_sum_bounds, lemma_sum_take, lemma_sum_zeros, lemma_sums_in_order, saturating_add, sum,
};
use crate::invocation::{follows, Action, Invocation, InvocationView, Transfer};
use crate::shares::{lemma_dues_within_pool, lemma_paid_take, paid};
use crate::sqrt::{floor_sqrt, is_floor_sqrt, lemma_floor_sqrt_unique, lemma_newton_step};
use crate::table::Table;
use crate::wide::{wide_bound, Wide};
use vstd::prelude::*;

pub mod checked;
pub mod effects;
pub mod keys;
pub mod laws;
pub mod model;
pub mod payout_laws;
pub mod solvency;

use model::{
    contribute_step, contribution_in_range, create_round_step, distribute_matching_step,
    distribution_in_range, estimate_in_range, finalize_round_step, match_amounts, match_dues,
    match_estimate, payouts, refunds, weight,
};

verus! {

/// Where an entry is stored.
#[derive(Copy, Clone, Debug, PartialEq, Eq, Structural)]
pub enum QFKey {
    /// The record of a round, by its id.
    Round(u64),
    /// The id of the next round.
    RoundCtr,
    /// A contribution, by round, project and contributor.
    Contribution(u64, Address, Address),
    /// The sum of the scaled square roots of a project's contributions, by round and project.
    ProjectSqrtSum(u64, Address),
    /// The contributors to a project, by round and project.
    ProjectContributors(u64, Address),
    /// The projects of a round, by its id.
    RoundProjects(u64),
}

/// How far a round has come.
#[derive(Copy, Clone, Debug, PartialEq, Eq, Structural)]
pub enum RoundStatus {
    Active,
    Finalized,
    Distributed,
}

/// A round of quadratic funding.
#[derive(Copy, Clone, Debug, PartialEq, Eq, Structural)]
pub struct FundingRound {
    pub round_id: u64,
    pub admin: Address,
    pub token: Address,
    pub matching_pool: i128,
    pub start_time: u64,
    pub end_time: u64,
    pub status: RoundStatus,
    pub total_contributions: i128,
}

impl View for FundingRound {
    type V = FundingRound;

    open spec fn view(&self) -> FundingRound {
        *self
    }
}

/// What an address contributed to a project in a round.
#[derive(Copy, Clone, Debug, PartialEq, Eq, Structural)]
pub struct Contribution {
    pub contributor: Address,
    pub project: Address,
    pub amount: i128,
    pub round_id: u64,
}

impl View for Contribution {
    type V = Contribution;

    open spec fn view(&self) -> Contribution {
        *self
    }
}

/// Why an operation is refused.
#[derive(Copy, Clone, Debug, PartialEq, Eq, PartialOrd, Ord, Structural)]
pub enum QFError {
    RoundNotFound,
    RoundNotActive,
    RoundNotFinalized,
    AlreadyDistributed,
    RoundEnded,
    RoundNotEnded,
    AlreadyContributed,
    InvalidAmount,
    Unauthorized,
    ProjectNotRegistered,
}

impl QFError {
    /// The number under which the error is known outside the contract.
    pub open spec fn spec_code(self) -> u32 {
        match self {
            QFError::RoundNotFound => 200,
            QFError::RoundNotActive => 201,
            QFError::RoundNotFinalized => 202,
            QFError::AlreadyDistributed => 203,
            QFError::RoundEnded => 204,
            QFError::RoundNotEnded => 205,
            QFError::AlreadyContributed => 206,
            QFError::InvalidAmount => 207,
            QFError::Unauthorized => 208,
            QFError::ProjectNotRegistered => 209,
        }
    }

    /// The number under which the error is known outside the contract.
    pub fn code(self) -> (r: u32)
        ensures
            r == self.spec_code(),
    {
        match self {
            QFError::RoundNotFound => 200,
            QFError::RoundNotActive => 201,
            QFError::RoundNotFinalized => 202,
            QFError::AlreadyDistributed => 203,
            QFError::RoundEnded => 204,
            QFError::RoundNotEnded => 205,
            QFError::AlreadyContributed => 206,
            QFError::InvalidAmount => 207,
            QFError::Unauthorized => 208,
            QFError::ProjectNotRegistered => 209,
        }
    }
}

/// What the contract tells the outside about a round.
#[derive(Copy, Clone, Debug, PartialEq, Eq, Structural)]
pub enum QFEvent {
    New { round_id: u64, admin: Address, token: Address, matching_pool: i128 },
    Contributed { round_id: u64, contributor: Address, project: Address, amount: i128 },
    Finalized { round_id: u64 },
    Distributed { round_id: u64, project: Address, match_amount: i128 },
    Done { round_id: u64, distributed: i128 },
}

impl QFEvent {
    /// The topic under which the event is published.
    pub open spec fn spec_topic(self) -> Seq<char> {
        match self {
            QFEvent::New { .. } => "qf_new"@,
            QFEvent::Contributed { .. } => "qf_con"@,
            QFEvent::Finalized { .. } => "qf_fin"@,
            QFEvent::Distributed { .. } => "qf_dist"@,
            QFEvent::Done { .. } => "qf_done"@,
        }
    }

    /// The topic under which the event is published.
    pub fn topic(&self) -> (r: &'static str)
        ensures
            r@ == self.spec_topic(),
    {
        match self {
            QFEvent::New { .. } => "qf_new",
            QFEvent::Contributed { .. } => "qf_con",
            QFEvent::Finalized { .. } => "qf_fin",
            QFEvent::Distributed { .. } => "qf_dist",
            QFEvent::Done { .. } => "qf_done",
        }
    }
}

/// The stored entries of quadratic funding.
pub struct QFStorage {
    pub round_ctr: Option<u64>,
    pub rounds: Table<u64, FundingRound>,
    pub contributions: Table<(u64, Address, Address), Contribution>,
    pub sqrt_sums: Table<(u64, Address), i128>,
    pub contributors: Table<(u64, Address), AddressList>,
    pub projects: Table<u64, AddressList>,
}

/// The model of the stored entries.
#[verifier::ext_equal]
pub struct QFState {
    pub round_ctr: Option<u64>,
    pub rounds: Map<u64, FundingRound>,
    pub contributions: Map<(u64, Address, Address), Contribution>,
    pub sqrt_sums: Map<(u64, Address), i128>,
    pub contributors: Map<(u64, Address), Seq<Address>>,
    pub projects: Map<u64, Seq<Address>>,
}

impl View for QFStorage {
    type V = QFState;

    open spec fn view(&self) -> QFState {
        QFState {
            round_ctr: self.round_ctr,
            rounds: self.rounds@,
            contributions: self.contributions@,
            sqrt_sums: self.sqrt_sums@,
            contributors: self.contributors@,
            projects: self.projects@,
        }
    }
}

/// An invocation of quadratic funding.
pub type QFInvocation = Invocation<QFStorage, QFEvent>;

/// The model of an invocation of quadratic funding.
pub type QFView = InvocationView<QFState, QFEvent>;

impl QFStorage {
    /// Storage in which nothing is stored.
    pub fn new() -> (r: QFStorage)
        ensures
            r@ == (QFState {
                round_ctr: None,
                rounds: Map::empty(),
                contributions: Map::empty(),
                sqrt_sums: Map::empty(),
                contributors: Map::empty(),
                projects: Map::empty(),
            }),
    {
        QFStorage {
            round_ctr: None,
            rounds: Table::new(),
            contributions: Table::new(),
            sqrt_sums: Table::new(),
            contributors: Table::new(),
            projects: Table::new(),
        }
    }

    /// The projects of the round.
    fn listed_projects(&self, round_id: u64) -> (r: Vec<Address>)
        ensures
            r@ == self@.projects_of(round_id),
            r@.len() <= u32::MAX,
    {
        match self.projects.get(&round_id) {
            Some(list) => list.to_vec(),
            None => Vec::new(),
        }
    }

    /// The sum of scaled square roots of the project.
    fn sqrt_sum(&self, round_id: u64, project: Address) -> (r: i128)
        ensures
            r == self@.sqrt_sum_of(round_id, project),
    {
        match self.sqrt_sums.get(&(round_id, project)) {
            Some(sqrt_sum) => *sqrt_sum,
            None => 0,
        }
    }
}

/// The unit of the fixed-point square roots.
pub const PRECISION: i128 = 10_000_000;

/// The largest amount for which `amount * PRECISION²` is an `i128`.
const MAX_NARROW: i128 = 1_701_411_834_604_692_317_316_873;

/// No scaled square root reaches this: 2 to the power of 87.
pub const ROOT_BOUND: i128 = 154_742_504_910_672_534_362_390_528;

/// The square root of the amount in units of `1 / PRECISION`, rounded down.
pub open spec fn sqrt_scaled(amount: int) -> int {
    if amount <= 0 {
        0
    } else {
        floor_sqrt(amount * PRECISION * PRECISION)
    }
}

/// Computes `floor(√(amount * PRECISION²))`, so that square roots can be added up as fixed-point
/// numbers. An amount that is not positive gives 0.
pub fn isqrt_scaled(amount: i128) -> (r: i128)
    ensures
        r == sqrt_scaled(amount as int),
        amount <= 0 ==> r == 0,
        amount > 0 ==> is_floor_sqrt(amount * PRECISION * PRECISION, r as int),
        amount > 0 ==> r * r <= amount * PRECISION * PRECISION,
        amount > 0 ==> amount * PRECISION * PRECISION < (r + 1) * (r + 1),
        0 <= r < ROOT_BOUND,
{
    if amount <= 0 {
        return 0;
    }
    let r: i128 = if amount <= MAX_NARROW {
        newton_sqrt(amount * PRECISION * PRECISION)
    } else {
        bisect_sqrt(amount as u128)
    };
    proof {
        lemma_floor_sqrt_unique(amount * PRECISION * PRECISION, r as int);
        lemma_root_bound(amount * PRECISION * PRECISION, r as int);
    }
    r
}

/// The square root of `n`, rounded down, by Newton's method.
fn newton_sqrt(n: i128) -> (r: i128)
    requires
        0 < n < i128::MAX,
    ensures
        is_floor_sqrt(n as int, r as int),
{
    let mut x: i128 = n;
    let mut y: i128 = (x + 1) / 2;
    proof {
        assert(n / n == 1) by (nonlinear_arith)
            requires
                n > 0,
        ;
        assert(n < (n + 1) * (n + 1)) by (nonlinear_arith)
            requires
                n > 0,
        ;
    }
    while y < x
        invariant
            0 < n < i128::MAX,
            0 < x <= n,
            n < (x + 1) * (x + 1),
            y == (x + n as int / x as int) / 2,
        decreases x,
    {
        proof {
            lemma_newton_step(n as int, x as int);
        }
        x = y;
        proof {
            lemma_newton_step(n as int, x as int);
        }
        y = (x + n / x) / 2;
    }
    proof {
        lemma_newton_step(n as int, x as int);
    }
    x
}

/// The square root of `amount * PRECISION²`, rounded down, where that is too large for an `i128`:
/// by halving the range in which the root lies.
fn bisect_sqrt(amount: u128) -> (r: i128)
    requires
        0 < amount <= i128::MAX,
    ensures
        is_floor_sqrt(amount * PRECISION * PRECISION, r as int),
{
    let n: Wide = Wide::product(amount, 100_000_000_000_000);
    let mut low: u128 = 0;
    let mut high: u128 = ROOT_BOUND as u128;
    assert(n@ == amount * PRECISION * PRECISION);
    while high - low > 1
        invariant
            n@ == amount * PRECISION * PRECISION,
            low < high <= ROOT_BOUND,
            low * low <= n@ < high * high,
        decreases high - low,
    {
        let middle: u128 = low + (high - low) / 2;
        if Wide::product(middle, middle).at_most(&n) {
            low = middle;
        } else {
            high = middle;
        }
    }
    low as i128
}

/// The root of what an `i128` scales to is within bounds.
pub(crate) proof fn lemma_root_bound(n: int, r: int)
    requires
        is_floor_sqrt(n, r),
        n <= i128::MAX * PRECISION * PRECISION,
    ensures
        r < ROOT_BOUND,
{
    assert(r < ROOT_BOUND) by (nonlinear_arith)
        requires
            r * r <= n,
            n < ROOT_BOUND * ROOT_BOUND,
    ;
}

/// Creates a round and asks the admin to deposit the matching pool. Returns the round's id.
pub fn create_round(
    env: &mut QFInvocation,
    admin: &Address,
    token: &Address,
    matching_pool: i128,
    duration_seconds: u64,
) -> (r: Result<u64, QFError>)
    requires
        create_round_step(old(env)@, *admin, *token, matching_pool, duration_seconds) is Ok
            ==> old(env)@.storage.next_id() < u64::MAX,
    ensures
        follows(
            old(env)@,
            create_round_step(old(env)@, *admin, *token, matching_pool, duration_seconds),
            final(env)@,
            r,
        ),
{
    if matching_pool <= 0 || duration_seconds == 0 {
        return Err(QFError::InvalidAmount);
    }
    let round_id: u64 = match env.storage.round_ctr {
        Some(id) => id,
        None => 0,
    };
    env.storage.round_ctr = Some(round_id + 1);
    let now: u64 = env.timestamp;
    let round = FundingRound {
        round_id,
        admin: *admin,
        token: *token,
        matching_pool,
        start_time: now,
        end_time: now.saturating_add(duration_seconds),
        status: RoundStatus::Active,
        total_contributions: 0,
    };
    env.actions.push(
        Action::Transfer(
            Transfer { token: *token, from: *admin, to: env.contract, amount: matching_pool },
        ),
    );
    env.storage.rounds.set(round_id, round);
    env.actions.push(
        Action::Publish(QFEvent::New { round_id, admin: *admin, token: *token, matching_pool }),
    );
    assert(env@.actions =~= create_round_step(
        old(env)@,
        *admin,
        *token,
        matching_pool,
        duration_seconds,
    )->Ok_0.0.actions);
    Ok(round_id)
}

/// The round that the contribution goes to, or why it is refused.
fn admit_contribution(
    env: &QFInvocation,
    contributor: &Address,
    round_id: u64,
    project: &Address,
    amount: i128,
) -> (r: Result<FundingRound, QFError>)
    ensures
        match contribute_step(env@, *contributor, round_id, *project, amount) {
            Ok(_) => r == Ok::<FundingRound, QFError>(env@.storage.rounds[round_id]),
            Err(error) => r == Err::<FundingRound, QFError>(error),
        },
{
    if amount <= 0 {
        return Err(QFError::InvalidAmount);
    }
    let round: FundingRound = match env.storage.rounds.get(&round_id) {
        Some(round) => *round,
        None => return Err(QFError::RoundNotFound),
    };
    if round.status != RoundStatus::Active {
        return Err(QFError::RoundNotActive);
    }
    if env.timestamp > round.end_time {
        return Err(QFError::RoundEnded);
    }
    if env.storage.contributions.has(&(round_id, *project, *contributor)) {
        return Err(QFError::AlreadyContributed);
    }
    Ok(round)
}

/// Records a contribution to a project of the round and asks the contributor to deposit it. The
/// project joins the round with its first contribution.
pub fn contribute(
    env: &mut QFInvocation,
    contributor: &Address,
    round_id: u64,
    project: &Address,
    amount: i128,
) -> (r: Result<(), QFError>)
    requires
        contribute_step(old(env)@, *contributor, round_id, *project, amount) is Ok
            ==> contribution_in_range(old(env)@.storage, round_id, *project),
    ensures
        follows(
            old(env)@,
            contribute_step(old(env)@, *contributor, round_id, *project, amount),
            final(env)@,
            r,
        ),
{
    let mut round: FundingRound = match admit_contribution(
        env,
        contributor,
        round_id,
        project,
        amount,
    ) {
        Ok(round) => round,
        Err(error) => return Err(error),
    };
    let mut projects: AddressList = match env.storage.projects.get(&round_id) {
        Some(list) => list.copied(),
        None => AddressList::new(&env.host),
    };
    if !projects.contains(project) {
        projects.push_back(*project);
        env.storage.projects.set(round_id, projects);
    }
    let mut contributors: AddressList = match env.storage.contributors.get(
        &(round_id, *project),
    ) {
        Some(list) => list.copied(),
        None => AddressList::new(&env.host),
    };
    contributors.push_back(*contributor);
    env.storage.contributors.set((round_id, *project), contributors);

    let current_sqrt: i128 = env.storage.sqrt_sum(round_id, *project);
    let new_sqrt: i128 = saturating_add(current_sqrt, isqrt_scaled(amount));
    env.storage.sqrt_sums.set((round_id, *project), new_sqrt);

    env.storage.contributions.set(
        (round_id, *project, *contributor),
        Contribution { contributor: *contributor, project: *project, amount, round_id },
    );

    round.total_contributions = saturating_add(round.total_contributions, amount);
    env.storage.rounds.set(round_id, round);

    env.actions.push(
        Action::Transfer(
            Transfer { token: round.token, from: *contributor, to: env.contract, amount },
        ),
    );
    env.actions.push(
        Action::Publish(
            QFEvent::Contributed { round_id, contributor: *contributor, project: *project, amount },
        ),
    );
    assert(env@.actions =~= contribute_step(
        old(env)@,
        *contributor,
        round_id,
        *project,
        amount,
    )->Ok_0.0.actions);
    Ok(())
}

/// Closes a round whose end time has come. Only its admin can do this.
pub fn finalize_round(env: &mut QFInvocation, admin: &Address, round_id: u64) -> (r: Result<
    (),
    QFError,
>)
    ensures
        follows(old(env)@, finalize_round_step(old(env)@, *admin, round_id), final(env)@, r),
{
    let mut round: FundingRound = match env.storage.rounds.get(&round_id) {
        Some(round) => *round,
        None => return Err(QFError::RoundNotFound),
    };
    if round.admin != *admin {
        return Err(QFError::Unauthorized);
    }
    if round.status != RoundStatus::Active {
        return Err(QFError::RoundNotActive);
    }
    if env.timestamp < round.end_time {
        return Err(QFError::RoundNotEnded);
    }
    round.status = RoundStatus::Finalized;
    env.storage.rounds.set(round_id, round);
    env.actions.push(Action::Publish(QFEvent::Finalized { round_id }));
    assert(env@.actions =~= finalize_round_step(
        old(env)@,
        *admin,
        round_id,
    )->Ok_0.0.actions);
    Ok(())
}

/// No weight of a stored sum exceeds this: 2 to the power of 254.
pub(crate) open spec fn max_weight() -> int {
    0x4000000000000000_0000000000000000_0000000000000000_0000000000000000int
}

/// The weight of a sum of scaled square roots.
fn weigh(sqrt_sum: i128) -> (r: Wide)
    ensures
        r@ == weight(sqrt_sum as int),
        0 <= r@ <= max_weight(),
{
    let magnitude: u128 = if sqrt_sum < 0 {
        (-(sqrt_sum + 1)) as u128 + 1
    } else {
        sqrt_sum as u128
    };
    proof {
        let m = magnitude as int;
        assert(m * m == sqrt_sum * sqrt_sum) by (nonlinear_arith)
            requires
                m == sqrt_sum || m == -sqrt_sum,
        ;
        lemma_weight_bounds(sqrt_sum);
    }
    Wide::product(magnitude, magnitude)
}

/// A weight is not negative, and within bounds.
pub(crate) proof fn lemma_weight_bounds(sqrt_sum: i128)
    ensures
        0 <= weight(sqrt_sum as int) <= max_weight(),
{
    assert(0 <= sqrt_sum * sqrt_sum <= max_weight()) by (nonlinear_arith)
        requires
            i128::MIN <= sqrt_sum <= i128::MAX,
    ;
}

/// The weights of the given projects, and the weight of all of them together.
fn weigh_projects(storage: &QFStorage, round_id: u64, projects: &Vec<Address>) -> (r: (
    Vec<Wide>,
    Wide,
))
    requires
        projects@ == storage@.projects_of(round_id),
        projects@.len() <= u32::MAX,
    ensures
        r.0@.map_values(|w: Wide| w@) == storage@.weights_of(round_id),
        r.1@ == sum(storage@.weights_of(round_id)),
        forall|i: int| 0 <= i < r.0@.len() ==> 0 <= (#[trigger] r.0@[i])@ <= r.1@,
        0 <= r.1@ < wide_bound() / 4,
{
    let ghost all = storage@.weights_of(round_id);
    let mut weights: Vec<Wide> = Vec::new();
    let mut total: Wide = Wide::new(0);
    let mut i: usize = 0;
    while i < projects.len()
        invariant
            i <= projects.len() <= u32::MAX,
            projects@ == storage@.projects_of(round_id),
            all == storage@.weights_of(round_id),
            weights.len() == i,
            forall|j: int| 0 <= j < i ==> (#[trigger] weights@[j])@ == all[j],
            0 <= total@ <= i * max_weight(),
            total@ == sum(all.take(i as int)),
        decreases projects.len() - i,
    {
        let w: Wide = weigh(storage.sqrt_sum(round_id, projects[i]));
        proof {
            assert(all[i as int] == w@);
            lemma_sum_take(all, i as int);
        }
        weights.push(w);
        total = total.plus(&w);
        i += 1;
    }
    proof {
        assert(all.take(i as int) =~= all);
        assert(weights@.map_values(|w: Wide| w@) =~= all);
        lemma_weights_not_negative(storage@, round_id);
        lemma_sum_bounds(all);
        assert forall|j: int| 0 <= j < weights@.len() implies 0 <= (#[trigger] weights@[j])@
            <= total@ by {
            assert(0 <= all[j] <= sum(all));
        }
    }
    (weights, total)
}

/// Asks for the contributions to the project to be paid back.
fn refund_contributors(env: &mut QFInvocation, token: Address, round_id: u64, project: Address)
    ensures
        final(env)@ == old(env)@.leaving(
            old(env)@.storage,
            refunds(
                old(env)@.storage,
                old(env)@.contract,
                token,
                round_id,
                project,
                old(env)@.storage.contributors_of(round_id, project),
            ),
        ),
{
    let contributors: Vec<Address> = match env.storage.contributors.get(&(round_id, project)) {
        Some(list) => list.to_vec(),
        None => Vec::new(),
    };
    let ghost before = env@;
    let mut i: usize = 0;
    assert(contributors@.take(0) =~= Seq::<Address>::empty());
    while i < contributors.len()
        invariant
            i <= contributors.len(),
            env@ == before.leaving(
                before.storage,
                refunds(
                    before.storage,
                    before.contract,
                    token,
                    round_id,
                    project,
                    contributors@.take(i as int),
                ),
            ),
        decreases contributors.len() - i,
    {
        let contributor: Address = contributors[i];
        proof {
            let next = contributors@.take(i + 1);
            assert(next.drop_last() =~= contributors@.take(i as int));
            assert(next.last() == contributor);
        }
        if let Some(c) = env.storage.contributions.get(&(round_id, project, contributor)) {
            let amount: i128 = c.amount;
            env.actions.push(
                Action::Transfer(
                    Transfer { token, from: env.contract, to: contributor, amount },
                ),
            );
        }
        i += 1;
        assert(env@.actions =~= before.actions + refunds(
            before.storage,
            before.contract,
            token,
            round_id,
            project,
            contributors@.take(i as int),
        ));
    }
    assert(contributors@.take(i as int) =~= contributors@);
}

/// The round that is to be paid out, or why that is refused.
fn admit_distribution(env: &QFInvocation, admin: &Address, round_id: u64) -> (r: Result<
    FundingRound,
    QFError,
>)
    ensures
        match distribute_matching_step(env@, *admin, round_id) {
            Ok(_) => r == Ok::<FundingRound, QFError>(env@.storage.rounds[round_id]),
            Err(error) => r == Err::<FundingRound, QFError>(error),
        },
{
    let round: FundingRound = match env.storage.rounds.get(&round_id) {
        Some(round) => *round,
        None => return Err(QFError::RoundNotFound),
    };
    if round.admin != *admin {
        return Err(QFError::Unauthorized);
    }
    if round.status != RoundStatus::Finalized {
        return Err(QFError::RoundNotFinalized);
    }
    Ok(round)
}

/// Pays out a closed round: the projects get the matching pool in proportion to their weights,
/// and the contributors get their contributions back. Only the round's admin can do this, once.
pub fn distribute_matching(env: &mut QFInvocation, admin: &Address, round_id: u64) -> (r: Result<
    (),
    QFError,
>)
    requires
        distribute_matching_step(old(env)@, *admin, round_id) is Ok ==> distribution_in_range(
            old(env)@.storage,
            round_id,
        ),
    ensures
        follows(old(env)@, distribute_matching_step(old(env)@, *admin, round_id), final(env)@, r),
{
    let mut round: FundingRound = match admit_distribution(env, admin, round_id) {
        Ok(round) => round,
        Err(error) => return Err(error),
    };
    let projects: Vec<Address> = env.storage.listed_projects(round_id);
    let (weights, total) = weigh_projects(&env.storage, round_id, &projects);
    let pool: i128 = round.matching_pool;
    let mut distributed: i128 = 0;
    let count: usize = projects.len();

    let ghost before = env@;
    let ghost ws = before.storage.weights_of(round_id);
    let ghost dues = match_dues(pool as int, ws);
    let ghost amounts = match_amounts(pool as int, ws);
    let mut i: usize = 0;
    assert(projects@.take(0) =~= Seq::<Address>::empty());
    while i < count
        invariant
            i <= count,
            count == projects@.len() == ws.len() == weights@.len() == amounts.len(),
            projects@ == before.storage.projects_of(round_id),
            ws == before.storage.weights_of(round_id),
            weights@.map_values(|w: Wide| w@) == ws,
            forall|j: int| 0 <= j < count ==> 0 <= (#[trigger] weights@[j])@ <= total@,
            total@ == sum(ws),
            0 <= total@ < wide_bound() / 4,
            0 < pool,
            dues == match_dues(pool as int, ws),
            amounts == match_amounts(pool as int, ws),
            distributed == paid(amounts.take(i as int)),
            i < count ==> distributed == sum(dues.take(i as int)),
            env@ == before.leaving(
                before.storage,
                payouts(
                    before.storage,
                    before.contract,
                    round.token,
                    round_id,
                    projects@.take(i as int),
                    amounts.take(i as int),
                ),
            ),
        decreases count - i,
    {
        let project: Address = projects[i];
        proof {
            assert(ws[i as int] == weights@[i as int]@);
            lemma_weights_not_negative(before.storage, round_id);
            lemma_match_dues(pool as int, ws, i as int);
        }
        let match_amount: i128 = if i == count - 1 {
            assert(dues.take(i as int) =~= dues);
            pool - distributed
        } else if !total.is_zero() {
            Wide::share_of(pool as u128, &weights[i], &total) as i128
        } else {
            0
        };
        assert(match_amount == amounts[i as int]);
        proof {
            lemma_paid_take(amounts, i as int);
            if i < count - 1 {
                lemma_sum_take(dues, i as int);
            }
        }
        if match_amount > 0 {
            env.actions.push(
                Action::Transfer(
                    Transfer {
                        token: round.token,
                        from: env.contract,
                        to: project,
                        amount: match_amount,
                    },
                ),
            );
            distributed = distributed + match_amount;
        }
        refund_contributors(env, round.token, round_id, project);
        env.actions.push(
            Action::Publish(QFEvent::Distributed { round_id, project, match_amount }),
        );
        i += 1;
        proof {
            assert(projects@.take(i as int).drop_last() =~= projects@.take(i - 1));
            assert(amounts.take(i as int).drop_last() =~= amounts.take(i - 1));
            assert(env@.actions =~= before.actions + payouts(
                before.storage,
                before.contract,
                round.token,
                round_id,
                projects@.take(i as int),
                amounts.take(i as int),
            ));
        }
    }
    proof {
        assert(projects@.take(i as int) =~= projects@);
        assert(amounts.take(i as int) =~= amounts);
    }
    round.status = RoundStatus::Distributed;
    env.storage.rounds.set(round_id, round);
    env.actions.push(Action::Publish(QFEvent::Done { round_id, distributed }));
    assert(env@.actions =~= distribute_matching_step(
        old(env)@,
        *admin,
        round_id,
    )->Ok_0.0.actions);
    Ok(())
}

/// What is known of the dues up to the `i`-th project.
proof fn lemma_match_dues(pool: int, weights: Seq<int>, i: int)
    requires
        0 < pool,
        0 <= i < weights.len(),
        forall|j: int| 0 <= j < weights.len() ==> 0 <= #[trigger] weights[j],
    ensures
        ({
            let dues = match_dues(pool, weights);
            &&& 0 <= sum(dues.take(i)) <= pool
            &&& i < weights.len() - 1 ==> 0 <= dues[i] <= pool
            &&& i < weights.len() - 1 ==> 0 <= sum(dues.take(i + 1)) <= pool
        }),
{
    let dues = match_dues(pool, weights);
    lemma_match_dues_sum(pool, weights);
    lemma_sum_bounds(dues);
    lemma_sums_in_order(dues, i);
    if i < weights.len() - 1 {
        lemma_sums_in_order(dues, i + 1);
        assert(dues[i] <= sum(dues));
    }
}

/// What all projects but the last are due is not negative, and adds up to no more than the pool.
pub(crate) proof fn lemma_match_dues_sum(pool: int, weights: Seq<int>)
    requires
        0 < pool,
        0 < weights.len(),
        forall|j: int| 0 <= j < weights.len() ==> 0 <= #[trigger] weights[j],
    ensures
        0 <= sum(match_dues(pool, weights)) <= pool,
        forall|j: int|
            0 <= j < weights.len() - 1 ==> 0 <= #[trigger] match_dues(pool, weights)[j],
{
    let dues = match_dues(pool, weights);
    let parts = weights.drop_last();
    let whole = sum(weights);
    lemma_sum_bounds(weights);
    assert forall|j: int| 0 <= j < parts.len() implies 0 <= #[trigger] parts[j] by {
        assert(parts[j] == weights[j]);
    }
    assert(weights[weights.len() - 1] >= 0);
    if whole > 0 {
        lemma_dues_within_pool(pool, parts, whole, dues);
    } else {
        assert forall|j: int| 0 <= j < dues.len() implies 0 == #[trigger] dues[j] by {}
        lemma_sum_zeros(dues);
    }
}

/// The record of the round.
pub fn get_round(env: &QFInvocation, round_id: u64) -> (r: Option<FundingRound>)
    ensures
        r == (if env@.storage.rounds.contains_key(round_id) {
            Some(env@.storage.rounds[round_id])
        } else {
            None
        }),
{
    match env.storage.rounds.get(&round_id) {
        Some(round) => Some(*round),
        None => None,
    }
}

/// What the contributor gave to the project in the round.
pub fn get_contribution(
    env: &QFInvocation,
    round_id: u64,
    project: &Address,
    contributor: &Address,
) -> (r: Option<Contribution>)
    ensures
        r == (if env@.storage.contributions.contains_key((round_id, *project, *contributor)) {
            Some(env@.storage.contributions[(round_id, *project, *contributor)])
        } else {
            None
        }),
{
    match env.storage.contributions.get(&(round_id, *project, *contributor)) {
        Some(contribution) => Some(*contribution),
        None => None,
    }
}

/// The match that the project can expect from the round as it stands, in units of the token: its
/// part of the pool by weight, rounded down. A round or project that is not known gives 0.
pub fn get_match_estimate(env: &QFInvocation, round_id: u64, project: &Address) -> (r: i128)
    requires
        estimate_in_range(env@.storage, round_id, *project),
    ensures
        r == match_estimate(env@.storage, round_id, *project),
{
    let round: FundingRound = match env.storage.rounds.get(&round_id) {
        Some(round) => *round,
        None => return 0,
    };
    let projects: Vec<Address> = env.storage.listed_projects(round_id);
    let (weights, total) = weigh_projects(&env.storage, round_id, &projects);
    let ghost ws = env@.storage.weights_of(round_id);
    let mut project_weight: Wide = Wide::new(0);
    let mut listed: Ghost<bool> = Ghost(false);
    let mut i: usize = 0;
    while i < projects.len()
        invariant
            i <= projects.len() == weights.len() == ws.len(),
            projects@ == env@.storage.projects_of(round_id),
            ws == env@.storage.weights_of(round_id),
            weights@.map_values(|w: Wide| w@) == ws,
            listed@ <==> projects@.take(i as int).contains(*project),
            project_weight@ == if listed@ {
                env@.storage.weight_of(round_id, *project)
            } else {
                0
            },
        decreases projects.len() - i,
    {
        proof {
            let shorter = projects@.take(i as int);
            let longer = projects@.take(i + 1);
            assert(longer =~= shorter.push(projects@[i as int]));
            assert(longer[i as int] == projects@[i as int]);
            if shorter.contains(*project) {
                let j = choose|j: int| 0 <= j < shorter.len() && shorter[j] == *project;
                assert(longer[j] == *project);
            }
            if longer.contains(*project) && projects@[i as int] != *project {
                let j = choose|j: int| 0 <= j < longer.len() && longer[j] == *project;
                assert(shorter[j] == *project);
            }
            assert(ws[i as int] == weights@[i as int]@);
        }
        if projects[i] == *project {
            project_weight = weights[i];
            proof {
                listed@ = true;
            }
        }
        i += 1;
    }
    assert(projects@.take(i as int) =~= projects@);
    if total.is_zero() {
        return 0;
    }
    if project_weight.is_zero() {
        assert(round.matching_pool * 0 == 0 && 0int / total@ == 0) by (nonlinear_arith)
            requires
                total@ != 0,
        ;
        return 0;
    }
    proof {
        lemma_weights_not_negative(env@.storage, round_id);
        lemma_sum_bounds(ws);
        let j = choose|j: int| 0 <= j < projects@.len() && projects@[j] == *project;
        assert(ws[j] == project_weight@);
    }
    Wide::share_of(round.matching_pool as u128, &project_weight, &total) as i128
}

/// No weight is negative.
pub(crate) proof fn lemma_weights_not_negative(s: QFState, round_id: u64)
    ensures
        forall|i: int|
            0 <= i < s.weights_of(round_id).len() ==> 0 <= #[trigger] s.weights_of(round_id)[i],
{
    assert forall|i: int| 0 <= i < s.weights_of(round_id).len() implies 0
        <= #[trigger] s.weights_of(round_id)[i] by {
        let sqrt_sum = s.sqrt_sum_of(round_id, s.projects_of(round_id)[i]);
        assert(0 <= sqrt_sum * sqrt_sum) by (nonlinear_arith);
    }
}

} // verus!
