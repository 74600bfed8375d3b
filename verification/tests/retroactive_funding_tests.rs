use std::collections::HashMap;
use tipjar::address::Address;
use tipjar::invocation::{Action, Invocation};
use tipjar::retroactive_funding::{
    cast_vote, create_round, finalize_and_distribute, get_project, get_round, get_round_projects,
    has_voted, nominate_project, open_voting, EvalCriteria, RFError, RFInvocation, RFStorage,
    RoundStatus,
};

// ── helpers ───────────────────────────────────────────────────────────────────

/// A ledger with one token, around the contract.
struct World {
    env: RFInvocation,
    balances: HashMap<Address, i128>,
    generated: u128,
}

fn contract() -> Address {
    Address { contract: true, hi: 0, lo: 1 }
}

fn token() -> Address {
    Address { contract: true, hi: 0, lo: 2 }
}

fn criteria() -> EvalCriteria {
    EvalCriteria {
        min_tip_volume: 100,
        min_unique_tippers: 2,
        description: String::from("Impact on public goods"),
    }
}

fn setup() -> (World, Address) {
    let host = soroban_sdk::Env::default();
    let mut world = World {
        env: Invocation::new(host, contract(), 0, RFStorage::new()),
        balances: HashMap::new(),
        generated: 0,
    };
    let admin = world.generate();
    (world, admin)
}

impl World {
    fn generate(&mut self) -> Address {
        self.generated += 1;
        Address { contract: false, hi: self.generated, lo: 7 }
    }

    fn balance(&self, of: &Address) -> i128 {
        *self.balances.get(of).unwrap_or(&0)
    }

    fn mint(&mut self, to: &Address, amount: i128) {
        *self.balances.entry(*to).or_insert(0) += amount;
    }

    fn advance(&mut self, seconds: u64) {
        self.env.timestamp += seconds;
    }

    /// Does what the contract asked for.
    fn settle(&mut self) {
        for action in std::mem::take(&mut self.env.actions) {
            if let Action::Transfer(t) = action {
                assert_eq!(t.token, token());
                assert!(self.balance(&t.from) >= t.amount);
                *self.balances.entry(t.from).or_insert(0) -= t.amount;
                *self.balances.entry(t.to).or_insert(0) += t.amount;
            }
        }
    }

    fn create_round(&mut self, admin: &Address, pool: i128) -> u64 {
        let now = self.env.timestamp;
        let id = create_round(
            &mut self.env,
            admin,
            &token(),
            pool,
            criteria(),
            now + 10,
            now + 3610,
        )
        .unwrap();
        self.settle();
        id
    }

    fn make_round(&mut self, admin: &Address, pool: i128) -> u64 {
        self.mint(admin, pool);
        self.create_round(admin, pool)
    }

    fn nominate(&mut self, round_id: u64, project: &Address) {
        nominate_project(
            &mut self.env,
            round_id,
            project,
            500,
            3,
            String::from("Built open-source tooling"),
        )
        .unwrap();
    }

    fn open_voting(&mut self, admin: &Address, round_id: u64) {
        open_voting(&mut self.env, admin, round_id).unwrap();
    }

    fn cast_vote(&mut self, voter: &Address, round_id: u64, project: &Address, weight: i128) {
        cast_vote(&mut self.env, voter, round_id, project, weight).unwrap();
    }

    fn try_finalize(&mut self, admin: &Address, round_id: u64) -> Result<(), RFError> {
        let result = finalize_and_distribute(&mut self.env, admin, round_id);
        self.settle();
        result
    }
}

// ── create_round ──────────────────────────────────────────────────────────────

#[test]
fn test_create_round() {
    let (mut world, admin) = setup();
    let id = world.make_round(&admin, 10_000);
    assert_eq!(id, 0);
    let round = get_round(&world.env, id).unwrap();
    assert_eq!(round.reward_pool, 10_000);
    assert_eq!(round.status, RoundStatus::Nominations);
}

#[test]
fn test_create_multiple_rounds_increments_id() {
    let (mut world, admin) = setup();
    world.mint(&admin, 3_000);
    let r0 = world.create_round(&admin, 1_000);
    let r1 = world.create_round(&admin, 1_000);
    let r2 = world.create_round(&admin, 1_000);
    assert_eq!((r0, r1, r2), (0, 1, 2));
}

// ── nominate_project ──────────────────────────────────────────────────────────

#[test]
fn test_nominate_project() {
    let (mut world, admin) = setup();
    let round_id = world.make_round(&admin, 5_000);
    let project = world.generate();
    world.nominate(round_id, &project);

    let rec = get_project(&world.env, round_id, &project).unwrap();
    assert_eq!(rec.tip_volume, 500);
    assert_eq!(rec.unique_tippers, 3);
    assert_eq!(rec.votes, 0);
}

#[test]
fn test_nominate_below_criteria_fails() {
    let (mut world, admin) = setup();
    let round_id = world.make_round(&admin, 5_000);
    let project = world.generate();

    // tip_volume below min (100)
    let result = nominate_project(
        &mut world.env,
        round_id,
        &project,
        50,
        3,
        String::from("low volume"),
    );
    assert!(result.is_err());
}

#[test]
fn test_nominate_duplicate_fails() {
    let (mut world, admin) = setup();
    let round_id = world.make_round(&admin, 5_000);
    let project = world.generate();
    world.nominate(round_id, &project);

    let result =
        nominate_project(&mut world.env, round_id, &project, 500, 3, String::from("again"));
    assert!(result.is_err());
}

#[test]
fn test_get_round_projects() {
    let (mut world, admin) = setup();
    let round_id = world.make_round(&admin, 5_000);
    let p1 = world.generate();
    let p2 = world.generate();
    world.nominate(round_id, &p1);
    world.nominate(round_id, &p2);

    let projects = get_round_projects(&world.env, round_id);
    assert_eq!(projects.len(), 2);
    assert_eq!(projects, vec![p1, p2]);
}

// ── open_voting ───────────────────────────────────────────────────────────────

#[test]
fn test_open_voting() {
    let (mut world, admin) = setup();
    let round_id = world.make_round(&admin, 5_000);
    world.open_voting(&admin, round_id);
    let round = get_round(&world.env, round_id).unwrap();
    assert_eq!(round.status, RoundStatus::Voting);
}

#[test]
fn test_open_voting_unauthorized_fails() {
    let (mut world, admin) = setup();
    let round_id = world.make_round(&admin, 5_000);
    let other = world.generate();
    assert!(open_voting(&mut world.env, &other, round_id).is_err());
}

// ── cast_vote ─────────────────────────────────────────────────────────────────

#[test]
fn test_cast_vote() {
    let (mut world, admin) = setup();
    let round_id = world.make_round(&admin, 5_000);
    let project = world.generate();
    world.nominate(round_id, &project);
    world.open_voting(&admin, round_id);

    // Advance into voting window.
    world.advance(11);

    let voter = world.generate();
    world.cast_vote(&voter, round_id, &project, 100);

    assert!(has_voted(&world.env, round_id, &voter));
    let rec = get_project(&world.env, round_id, &project).unwrap();
    assert_eq!(rec.votes, 100);
}

#[test]
fn test_double_vote_fails() {
    let (mut world, admin) = setup();
    let round_id = world.make_round(&admin, 5_000);
    let project = world.generate();
    world.nominate(round_id, &project);
    world.open_voting(&admin, round_id);
    world.advance(11);

    let voter = world.generate();
    world.cast_vote(&voter, round_id, &project, 100);
    assert!(cast_vote(&mut world.env, &voter, round_id, &project, 50).is_err());
}

#[test]
fn test_vote_outside_window_fails() {
    let (mut world, admin) = setup();
    let round_id = world.make_round(&admin, 5_000);
    let project = world.generate();
    world.nominate(round_id, &project);
    world.open_voting(&admin, round_id);

    // Do NOT advance: before voting_start.
    let voter = world.generate();
    assert!(cast_vote(&mut world.env, &voter, round_id, &project, 100).is_err());
}

// ── finalize_and_distribute ───────────────────────────────────────────────────

#[test]
fn test_finalize_distributes_proportionally() {
    let (mut world, admin) = setup();
    let pool: i128 = 10_000;
    let round_id = world.make_round(&admin, pool);

    let p1 = world.generate();
    let p2 = world.generate();
    world.nominate(round_id, &p1);
    world.nominate(round_id, &p2);
    world.open_voting(&admin, round_id);
    world.advance(11);

    // p1 gets 3× the votes of p2: it should get 3× the reward.
    let v1 = world.generate();
    let v2 = world.generate();
    let v3 = world.generate();
    let v4 = world.generate();
    world.cast_vote(&v1, round_id, &p1, 300);
    world.cast_vote(&v2, round_id, &p1, 300);
    world.cast_vote(&v3, round_id, &p1, 300);
    world.cast_vote(&v4, round_id, &p2, 300);

    // Advance past voting_end.
    world.advance(3600);
    world.try_finalize(&admin, round_id).unwrap();

    let round = get_round(&world.env, round_id).unwrap();
    assert_eq!(round.status, RoundStatus::Finalized);

    let bal1 = world.balance(&p1);
    let bal2 = world.balance(&p2);
    assert_eq!(bal1 + bal2, pool);
    assert!(bal1 > bal2, "p1 (3× votes) should receive more: {bal1} vs {bal2}");
    assert_eq!((bal1, bal2), (7_500, 2_500));
}

#[test]
fn test_finalize_before_voting_ends_fails() {
    let (mut world, admin) = setup();
    let round_id = world.make_round(&admin, 5_000);
    let project = world.generate();
    world.nominate(round_id, &project);
    world.open_voting(&admin, round_id);
    world.advance(11); // inside window

    assert!(world.try_finalize(&admin, round_id).is_err());
}

#[test]
fn test_finalize_twice_fails() {
    let (mut world, admin) = setup();
    let round_id = world.make_round(&admin, 5_000);
    let project = world.generate();
    world.nominate(round_id, &project);
    world.open_voting(&admin, round_id);
    world.advance(3620);
    world.try_finalize(&admin, round_id).unwrap();

    assert!(world.try_finalize(&admin, round_id).is_err());
}

#[test]
fn test_equal_split_when_no_votes() {
    let (mut world, admin) = setup();
    let pool: i128 = 1_000;
    let round_id = world.make_round(&admin, pool);

    let p1 = world.generate();
    let p2 = world.generate();
    world.nominate(round_id, &p1);
    world.nominate(round_id, &p2);
    world.open_voting(&admin, round_id);
    world.advance(3620); // skip past voting window without voting

    world.try_finalize(&admin, round_id).unwrap();

    // Both projects should receive equal shares.
    assert_eq!(world.balance(&p1), 500);
    assert_eq!(world.balance(&p2), 500);
}
