use std::collections::HashMap;
use tipjar::address::Address;
use tipjar::invocation::{Action, Invocation};
use tipjar::quadratic_funding::{
    contribute, create_round, distribute_matching, finalize_round, get_contribution,
    get_match_estimate, get_round, QFError, QFEvent, QFInvocation, QFStorage, RoundStatus,
};

// ── helpers ───────────────────────────────────────────────────────────────────

/// A ledger with one token, around the contract.
struct World {
    env: QFInvocation,
    balances: HashMap<Address, i128>,
    events: Vec<QFEvent>,
    generated: u128,
}

fn contract() -> Address {
    Address { contract: true, hi: 0, lo: 1 }
}

fn token() -> Address {
    Address { contract: true, hi: 0, lo: 2 }
}

fn setup() -> (World, Address) {
    let host = soroban_sdk::Env::default();
    let mut world = World {
        env: Invocation::new(host, contract(), 0, QFStorage::new()),
        balances: HashMap::new(),
        events: Vec::new(),
        generated: 0,
    };
    let admin = world.generate();
    (world, admin)
}

impl World {
    fn generate(&mut self) -> Address {
        self.generated += 1;
        Address { contract: false, hi: self.generated, lo: 7 }
    }

    fn balance(&self, of: &Address) -> i128 {
        *self.balances.get(of).unwrap_or(&0)
    }

    fn mint(&mut self, to: &Address, amount: i128) {
        *self.balances.entry(*to).or_insert(0) += amount;
    }

    fn advance_time(&mut self, seconds: u64) {
        self.env.timestamp += seconds;
    }

    /// Does what the contract asked for.
    fn settle(&mut self) {
        for action in std::mem::take(&mut self.env.actions) {
            match action {
                Action::Transfer(t) => {
                    assert_eq!(t.token, token());
                    assert!(self.balance(&t.from) >= t.amount);
                    *self.balances.entry(t.from).or_insert(0) -= t.amount;
                    *self.balances.entry(t.to).or_insert(0) += t.amount;
                }
                Action::Publish(event) => self.events.push(event),
            }
        }
    }

    fn create_round(&mut self, admin: &Address, pool: i128, duration: u64) -> u64 {
        let id = create_round(&mut self.env, admin, &token(), pool, duration).unwrap();
        self.settle();
        id
    }

    fn try_contribute(
        &mut self,
        contributor: &Address,
        round_id: u64,
        project: &Address,
        amount: i128,
    ) -> Result<(), QFError> {
        let result = contribute(&mut self.env, contributor, round_id, project, amount);
        self.settle();
        result
    }

    fn contribute(&mut self, contributor: &Address, round_id: u64, project: &Address, amount: i128) {
        self.try_contribute(contributor, round_id, project, amount).unwrap();
    }

    fn try_finalize(&mut self, admin: &Address, round_id: u64) -> Result<(), QFError> {
        let result = finalize_round(&mut self.env, admin, round_id);
        self.settle();
        result
    }

    fn try_distribute(&mut self, admin: &Address, round_id: u64) -> Result<(), QFError> {
        let result = distribute_matching(&mut self.env, admin, round_id);
        self.settle();
        result
    }
}

// ── create_round ──────────────────────────────────────────────────────────────

#[test]
fn test_create_round_basic() {
    let (mut world, admin) = setup();
    world.mint(&admin, 1_000);

    let round_id = world.create_round(&admin, 1_000, 3600);
    assert_eq!(round_id, 0);

    let round = get_round(&world.env, round_id).unwrap();
    assert_eq!(round.matching_pool, 1_000);
    assert_eq!(round.status, RoundStatus::Active);
    assert_eq!(round.total_contributions, 0);
}

#[test]
fn test_create_multiple_rounds() {
    let (mut world, admin) = setup();
    world.mint(&admin, 3_000);

    let r0 = world.create_round(&admin, 1_000, 3600);
    let r1 = world.create_round(&admin, 1_000, 7200);
    let r2 = world.create_round(&admin, 1_000, 86400);

    assert_eq!(r0, 0);
    assert_eq!(r1, 1);
    assert_eq!(r2, 2);
}

// ── contribute ────────────────────────────────────────────────────────────────

#[test]
fn test_contribute_basic() {
    let (mut world, admin) = setup();
    world.mint(&admin, 1_000);

    let round_id = world.create_round(&admin, 1_000, 3600);

    let contributor = world.generate();
    let project = world.generate();
    world.mint(&contributor, 500);

    world.contribute(&contributor, round_id, &project, 100);

    let c = get_contribution(&world.env, round_id, &project, &contributor).unwrap();
    assert_eq!(c.amount, 100);
    assert_eq!(c.contributor, contributor);
    assert_eq!(c.project, project);

    let round = get_round(&world.env, round_id).unwrap();
    assert_eq!(round.total_contributions, 100);
}

#[test]
fn test_sybil_resistance_one_contribution_per_address() {
    let (mut world, admin) = setup();
    world.mint(&admin, 1_000);

    let round_id = world.create_round(&admin, 1_000, 3600);

    let contributor = world.generate();
    let project = world.generate();
    world.mint(&contributor, 500);

    world.contribute(&contributor, round_id, &project, 100);

    // Second contribution from same address to same project must fail.
    let result = world.try_contribute(&contributor, round_id, &project, 50);
    assert!(result.is_err());
}

#[test]
fn test_multiple_contributors_same_project() {
    let (mut world, admin) = setup();
    world.mint(&admin, 1_000);

    let round_id = world.create_round(&admin, 1_000, 3600);
    let project = world.generate();

    for _ in 0..5u32 {
        let c = world.generate();
        world.mint(&c, 100);
        world.contribute(&c, round_id, &project, 100);
    }

    let round = get_round(&world.env, round_id).unwrap();
    assert_eq!(round.total_contributions, 500);
}

#[test]
fn test_contribute_after_round_ends_fails() {
    let (mut world, admin) = setup();
    world.mint(&admin, 1_000);

    let round_id = world.create_round(&admin, 1_000, 3600);
    world.advance_time(3601);

    let contributor = world.generate();
    let project = world.generate();
    world.mint(&contributor, 100);

    let result = world.try_contribute(&contributor, round_id, &project, 100);
    assert!(result.is_err());
}

// ── finalize_round ────────────────────────────────────────────────────────────

#[test]
fn test_finalize_round() {
    let (mut world, admin) = setup();
    world.mint(&admin, 1_000);

    let round_id = world.create_round(&admin, 1_000, 3600);
    world.advance_time(3601);

    world.try_finalize(&admin, round_id).unwrap();

    let round = get_round(&world.env, round_id).unwrap();
    assert_eq!(round.status, RoundStatus::Finalized);
}

#[test]
fn test_finalize_before_end_fails() {
    let (mut world, admin) = setup();
    world.mint(&admin, 1_000);

    let round_id = world.create_round(&admin, 1_000, 3600);
    // Do NOT advance time.

    let result = world.try_finalize(&admin, round_id);
    assert!(result.is_err());
}

#[test]
fn test_finalize_unauthorized_fails() {
    let (mut world, admin) = setup();
    world.mint(&admin, 1_000);

    let round_id = world.create_round(&admin, 1_000, 3600);
    world.advance_time(3601);

    let other = world.generate();
    let result = world.try_finalize(&other, round_id);
    assert!(result.is_err());
}

// ── distribute_matching ───────────────────────────────────────────────────────

#[test]
fn test_distribute_matching_two_projects() {
    let (mut world, admin) = setup();
    let matching_pool: i128 = 10_000;
    world.mint(&admin, matching_pool);

    let round_id = world.create_round(&admin, matching_pool, 3600);

    let project_a = world.generate();
    let project_b = world.generate();

    // 4 contributors to A, 1 to B: A should be favoured heavily.
    for _ in 0..4u32 {
        let c = world.generate();
        world.mint(&c, 100);
        world.contribute(&c, round_id, &project_a, 100);
    }
    let lone = world.generate();
    world.mint(&lone, 100);
    world.contribute(&lone, round_id, &project_b, 100);

    world.advance_time(3601);
    world.try_finalize(&admin, round_id).unwrap();
    world.try_distribute(&admin, round_id).unwrap();

    let round = get_round(&world.env, round_id).unwrap();
    assert_eq!(round.status, RoundStatus::Distributed);

    // Project A should have received more matching than B.
    let bal_a = world.balance(&project_a);
    let bal_b = world.balance(&project_b);
    assert!(bal_a > bal_b, "project_a should receive more matching: {bal_a} vs {bal_b}");

    // Total distributed = matching_pool (contributions are returned to contributors).
    assert_eq!(bal_a + bal_b, matching_pool);

    // A weighs (4 * 10)², B weighs 10².
    assert_eq!(bal_a, 10_000 * 1600 / 1700);
    assert_eq!(world.balance(&contract()), 0);
}

#[test]
fn test_distribute_returns_contributions_to_donors() {
    let (mut world, admin) = setup();
    world.mint(&admin, 1_000);

    let round_id = world.create_round(&admin, 1_000, 3600);

    let contributor = world.generate();
    let project = world.generate();
    world.mint(&contributor, 200);

    world.contribute(&contributor, round_id, &project, 200);

    world.advance_time(3601);
    world.try_finalize(&admin, round_id).unwrap();
    world.try_distribute(&admin, round_id).unwrap();

    // Contributor should get their 200 back.
    assert_eq!(world.balance(&contributor), 200);
}

#[test]
fn test_distribute_twice_fails() {
    let (mut world, admin) = setup();
    world.mint(&admin, 1_000);

    let round_id = world.create_round(&admin, 1_000, 3600);
    world.advance_time(3601);
    world.try_finalize(&admin, round_id).unwrap();
    world.try_distribute(&admin, round_id).unwrap();

    let result = world.try_distribute(&admin, round_id);
    assert!(result.is_err());
}

// ── match estimate ────────────────────────────────────────────────────────────

#[test]
fn test_match_estimate_nonzero_for_active_project() {
    let (mut world, admin) = setup();
    world.mint(&admin, 10_000);

    let round_id = world.create_round(&admin, 10_000, 3600);

    let project = world.generate();
    let contributor = world.generate();
    world.mint(&contributor, 500);
    world.contribute(&contributor, round_id, &project, 500);

    let estimate = get_match_estimate(&world.env, round_id, &project);
    assert_eq!(estimate, 10_000); // Only project: gets 100% of pool.
}

#[test]
fn test_match_estimate_zero_for_unknown_project() {
    let (mut world, admin) = setup();
    world.mint(&admin, 1_000);

    let round_id = world.create_round(&admin, 1_000, 3600);
    let unknown = world.generate();

    assert_eq!(get_match_estimate(&world.env, round_id, &unknown), 0);
}

// ── quadratic weighting ───────────────────────────────────────────────────────

#[test]
fn test_quadratic_weighting_many_small_beats_one_large() {
    // 9 contributors of 1 each vs 1 contributor of 9.
    // QF weight for 9×1: (9 × √1)² = 81
    // QF weight for 1×9: (1 × √9)² = 9
    // So the many-small project should get ~9× more matching.
    let (mut world, admin) = setup();
    let matching_pool: i128 = 9_000;
    world.mint(&admin, matching_pool);

    let round_id = world.create_round(&admin, matching_pool, 3600);

    let project_many = world.generate();
    let project_one = world.generate();

    for _ in 0..9u32 {
        let c = world.generate();
        world.mint(&c, 1);
        world.contribute(&c, round_id, &project_many, 1);
    }

    let big = world.generate();
    world.mint(&big, 9);
    world.contribute(&big, round_id, &project_one, 9);

    world.advance_time(3601);
    world.try_finalize(&admin, round_id).unwrap();
    world.try_distribute(&admin, round_id).unwrap();

    let bal_many = world.balance(&project_many);
    let bal_one = world.balance(&project_one);

    // Many-small should receive significantly more.
    assert!(
        bal_many > bal_one * 5,
        "many-small ({bal_many}) should dominate one-large ({bal_one})"
    );
    assert_eq!((bal_many, bal_one), (8_100, 900));
}
