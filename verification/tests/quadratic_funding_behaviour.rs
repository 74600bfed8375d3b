use tipjar::address::{Address, AddressList};
use tipjar::invocation::{Action, Invocation, Transfer};
use tipjar::quadratic_funding::checked::{
    checked_contribute, checked_create_round, checked_distribute_matching, checked_match_estimate,
};
use tipjar::quadratic_funding::keys::{
    list_contribution_keys, list_distribution_keys, list_estimate_keys,
};
use tipjar::quadratic_funding::{
    contribute, create_round, distribute_matching, finalize_round, get_contribution,
    get_match_estimate, get_round, isqrt_scaled, Contribution, FundingRound, QFError, QFEvent,
    QFInvocation, QFKey, QFStorage, RoundStatus, PRECISION,
};

fn who(n: u128) -> Address {
    Address { contract: false, hi: 0, lo: n }
}

const CONTRACT: Address = Address { contract: true, hi: 9, lo: 1 };
const TOKEN: Address = Address { contract: true, hi: 9, lo: 2 };

fn start() -> QFInvocation {
    Invocation::new(soroban_sdk::Env::default(), CONTRACT, 1_000, QFStorage::new())
}

fn open_round(env: &mut QFInvocation, pool: i128) -> u64 {
    let id = create_round(env, &who(1), &TOKEN, pool, 3_600).unwrap();
    env.actions.clear();
    id
}

fn give(env: &mut QFInvocation, contributor: u128, round_id: u64, project: u128, amount: i128) {
    contribute(env, &who(contributor), round_id, &who(project), amount).unwrap();
    env.actions.clear();
}

fn close(env: &mut QFInvocation, round_id: u64) {
    env.timestamp += 3_600;
    finalize_round(env, &who(1), round_id).unwrap();
    env.actions.clear();
}

fn pay(from: Address, to: Address, amount: i128) -> Action<QFEvent> {
    Action::Transfer(Transfer { token: TOKEN, from, to, amount })
}

/// What the round pays to the address.
fn received(env: &QFInvocation, to: Address) -> i128 {
    let mut total = 0;
    for action in &env.actions {
        if let Action::Transfer(t) = action {
            if t.to == to {
                total += t.amount;
            }
        }
    }
    total
}

// ── square roots ──────────────────────────────────────────────────────────────

#[test]
fn square_roots_are_scaled_and_rounded_down() {
    assert_eq!(PRECISION, 10_000_000);
    assert_eq!(isqrt_scaled(1), 10_000_000);
    assert_eq!(isqrt_scaled(2), 14_142_135);
    assert_eq!(isqrt_scaled(3), 17_320_508);
    assert_eq!(isqrt_scaled(100), 100_000_000);
    assert_eq!(isqrt_scaled(500), 223_606_797);
    assert_eq!(isqrt_scaled(999), 316_069_612);
}

#[test]
fn square_root_of_nothing_is_nothing() {
    assert_eq!(isqrt_scaled(0), 0);
    assert_eq!(isqrt_scaled(-1), 0);
    assert_eq!(isqrt_scaled(i128::MIN), 0);
}

#[test]
fn square_roots_of_amounts_that_scale_out_of_range() {
    // The last amount for which `amount * PRECISION²` is an `i128`, and the first for which it
    // is not.
    assert_eq!(isqrt_scaled(1_701_411_834_604_692_317_316_873), 13_043_817_825_332_782_212);
    assert_eq!(isqrt_scaled(1_701_411_834_604_692_317_316_874), 13043817825332782212);
    assert_eq!(isqrt_scaled(10_i128.pow(30)), 10_i128.pow(22));
    assert_eq!(isqrt_scaled(10_i128.pow(30) - 1), 10_i128.pow(22) - 1);
    assert_eq!(isqrt_scaled(10_i128.pow(38)), 10_i128.pow(26));
    assert_eq!(isqrt_scaled(i128::MAX), 130438178253327822123495718);
}

// ── opening a round ───────────────────────────────────────────────────────────

#[test]
fn opening_deposits_the_pool_and_publishes() {
    let mut env = start();
    assert_eq!(create_round(&mut env, &who(1), &TOKEN, 700, 60), Ok(0));
    assert_eq!(
        env.actions,
        vec![
            pay(who(1), CONTRACT, 700),
            Action::Publish(QFEvent::New {
                round_id: 0,
                admin: who(1),
                token: TOKEN,
                matching_pool: 700,
            }),
        ]
    );
    assert_eq!(
        get_round(&env, 0),
        Some(FundingRound {
            round_id: 0,
            admin: who(1),
            token: TOKEN,
            matching_pool: 700,
            start_time: 1_000,
            end_time: 1_060,
            status: RoundStatus::Active,
            total_contributions: 0,
        })
    );
    assert_eq!(get_round(&env, 1), None);
    assert_eq!(env.storage.round_ctr, Some(1));
}

#[test]
fn the_end_of_a_round_saturates() {
    let mut env = start();
    env.timestamp = u64::MAX - 10;
    create_round(&mut env, &who(1), &TOKEN, 700, 60).unwrap();
    assert_eq!(get_round(&env, 0).unwrap().end_time, u64::MAX);
}

#[test]
fn a_round_without_a_pool_or_a_duration_is_refused() {
    let mut env = start();
    assert_eq!(create_round(&mut env, &who(1), &TOKEN, 0, 60), Err(QFError::InvalidAmount));
    assert_eq!(create_round(&mut env, &who(1), &TOKEN, -5, 60), Err(QFError::InvalidAmount));
    assert_eq!(create_round(&mut env, &who(1), &TOKEN, 5, 0), Err(QFError::InvalidAmount));
    assert!(env.actions.is_empty());
    assert_eq!(env.storage.round_ctr, None);
    assert_eq!(get_round(&env, 0), None);
}

// ── contributing ──────────────────────────────────────────────────────────────

#[test]
fn contributing_deposits_the_amount_and_publishes() {
    let mut env = start();
    let id = open_round(&mut env, 700);
    assert_eq!(contribute(&mut env, &who(2), id, &who(3), 25), Ok(()));
    assert_eq!(
        env.actions,
        vec![
            pay(who(2), CONTRACT, 25),
            Action::Publish(QFEvent::Contributed {
                round_id: id,
                contributor: who(2),
                project: who(3),
                amount: 25,
            }),
        ]
    );
    assert_eq!(
        get_contribution(&env, id, &who(3), &who(2)),
        Some(Contribution { contributor: who(2), project: who(3), amount: 25, round_id: id })
    );
    assert_eq!(get_contribution(&env, id, &who(2), &who(3)), None);
    assert_eq!(env.storage.sqrt_sums.get(&(id, who(3))), Some(&50_000_000));
    assert_eq!(env.storage.projects.get(&id).unwrap().to_vec(), vec![who(3)]);
    assert_eq!(env.storage.contributors.get(&(id, who(3))).unwrap().to_vec(), vec![who(2)]);
}

#[test]
fn projects_and_contributors_are_listed_in_order() {
    let mut env = start();
    let id = open_round(&mut env, 700);
    give(&mut env, 10, id, 30, 1);
    give(&mut env, 11, id, 31, 4);
    give(&mut env, 12, id, 30, 9);
    give(&mut env, 10, id, 31, 1);
    assert_eq!(env.storage.projects.get(&id).unwrap().to_vec(), vec![who(30), who(31)]);
    assert_eq!(
        env.storage.contributors.get(&(id, who(30))).unwrap().to_vec(),
        vec![who(10), who(12)]
    );
    assert_eq!(
        env.storage.contributors.get(&(id, who(31))).unwrap().to_vec(),
        vec![who(11), who(10)]
    );
    assert_eq!(env.storage.sqrt_sums.get(&(id, who(30))), Some(&40_000_000));
    assert_eq!(env.storage.sqrt_sums.get(&(id, who(31))), Some(&30_000_000));
    assert_eq!(get_round(&env, id).unwrap().total_contributions, 15);
}

#[test]
fn refused_contributions_change_nothing() {
    let mut env = start();
    let id = open_round(&mut env, 700);
    give(&mut env, 2, id, 3, 25);
    let before = get_round(&env, id);

    assert_eq!(contribute(&mut env, &who(4), id, &who(3), 0), Err(QFError::InvalidAmount));
    assert_eq!(contribute(&mut env, &who(4), id, &who(3), -1), Err(QFError::InvalidAmount));
    assert_eq!(contribute(&mut env, &who(4), 99, &who(3), 0), Err(QFError::InvalidAmount));
    assert_eq!(contribute(&mut env, &who(4), 99, &who(3), 1), Err(QFError::RoundNotFound));
    assert_eq!(contribute(&mut env, &who(2), id, &who(3), 1), Err(QFError::AlreadyContributed));
    env.timestamp = 4_601;
    assert_eq!(contribute(&mut env, &who(4), id, &who(3), 1), Err(QFError::RoundEnded));
    finalize_round(&mut env, &who(1), id).unwrap();
    env.actions.clear();
    assert_eq!(contribute(&mut env, &who(4), id, &who(3), 1), Err(QFError::RoundNotActive));

    assert!(env.actions.is_empty());
    assert_eq!(get_contribution(&env, id, &who(3), &who(4)), None);
    assert_eq!(env.storage.sqrt_sums.get(&(id, who(3))), Some(&50_000_000));
    assert_eq!(get_round(&env, id).unwrap().total_contributions, before.unwrap().total_contributions);
}

#[test]
fn the_last_second_belongs_to_both() {
    let mut env = start();
    let id = open_round(&mut env, 700);
    env.timestamp = 4_600;
    assert_eq!(contribute(&mut env, &who(2), id, &who(3), 25), Ok(()));
    assert_eq!(finalize_round(&mut env, &who(1), id), Ok(()));
}

#[test]
fn totals_saturate() {
    let mut env = start();
    let id = open_round(&mut env, 700);
    let mut round = get_round(&env, id).unwrap();
    round.total_contributions = i128::MAX - 3;
    env.storage.rounds.set(id, round);
    env.storage.sqrt_sums.set((id, who(3)), i128::MAX - 3);
    give(&mut env, 2, id, 3, 25);
    assert_eq!(get_round(&env, id).unwrap().total_contributions, i128::MAX);
    assert_eq!(env.storage.sqrt_sums.get(&(id, who(3))), Some(&i128::MAX));
}

// ── closing ───────────────────────────────────────────────────────────────────

#[test]
fn closing_publishes() {
    let mut env = start();
    let id = open_round(&mut env, 700);
    env.timestamp = 4_600;
    assert_eq!(finalize_round(&mut env, &who(1), id), Ok(()));
    assert_eq!(env.actions, vec![Action::Publish(QFEvent::Finalized { round_id: id })]);
    assert_eq!(get_round(&env, id).unwrap().status, RoundStatus::Finalized);
}

#[test]
fn closing_is_refused() {
    let mut env = start();
    let id = open_round(&mut env, 700);
    assert_eq!(finalize_round(&mut env, &who(1), 99), Err(QFError::RoundNotFound));
    assert_eq!(finalize_round(&mut env, &who(2), id), Err(QFError::Unauthorized));
    env.timestamp = 4_599;
    assert_eq!(finalize_round(&mut env, &who(1), id), Err(QFError::RoundNotEnded));
    env.timestamp = 4_600;
    finalize_round(&mut env, &who(1), id).unwrap();
    env.actions.clear();
    assert_eq!(finalize_round(&mut env, &who(2), id), Err(QFError::Unauthorized));
    assert_eq!(finalize_round(&mut env, &who(1), id), Err(QFError::RoundNotActive));
    assert!(env.actions.is_empty());
}

// ── paying out ────────────────────────────────────────────────────────────────

#[test]
fn paying_out_asks_for_everything_in_order() {
    let mut env = start();
    let id = open_round(&mut env, 100);
    give(&mut env, 2, id, 20, 4);
    give(&mut env, 3, id, 21, 16);
    give(&mut env, 4, id, 20, 1);
    close(&mut env, id);
    assert_eq!(distribute_matching(&mut env, &who(1), id), Ok(()));
    // The weights are 3² and 4².
    assert_eq!(
        env.actions,
        vec![
            pay(CONTRACT, who(20), 36),
            pay(CONTRACT, who(2), 4),
            pay(CONTRACT, who(4), 1),
            Action::Publish(QFEvent::Distributed {
                round_id: id,
                project: who(20),
                match_amount: 36,
            }),
            pay(CONTRACT, who(21), 64),
            pay(CONTRACT, who(3), 16),
            Action::Publish(QFEvent::Distributed {
                round_id: id,
                project: who(21),
                match_amount: 64,
            }),
            Action::Publish(QFEvent::Done { round_id: id, distributed: 100 }),
        ]
    );
    assert_eq!(get_round(&env, id).unwrap().status, RoundStatus::Distributed);
}

#[test]
fn the_last_project_gets_the_remainder() {
    let mut env = start();
    let id = open_round(&mut env, 100);
    give(&mut env, 2, id, 20, 9);
    give(&mut env, 3, id, 21, 9);
    give(&mut env, 4, id, 22, 9);
    close(&mut env, id);
    distribute_matching(&mut env, &who(1), id).unwrap();
    assert_eq!(received(&env, who(20)), 33);
    assert_eq!(received(&env, who(21)), 33);
    assert_eq!(received(&env, who(22)), 34);
}

#[test]
fn a_small_project_can_get_no_match() {
    let mut env = start();
    let id = open_round(&mut env, 3);
    give(&mut env, 2, id, 20, 1);
    give(&mut env, 3, id, 21, 9);
    close(&mut env, id);
    distribute_matching(&mut env, &who(1), id).unwrap();
    assert_eq!(
        env.actions,
        vec![
            pay(CONTRACT, who(2), 1),
            Action::Publish(QFEvent::Distributed {
                round_id: id,
                project: who(20),
                match_amount: 0,
            }),
            pay(CONTRACT, who(21), 3),
            pay(CONTRACT, who(3), 9),
            Action::Publish(QFEvent::Distributed {
                round_id: id,
                project: who(21),
                match_amount: 3,
            }),
            Action::Publish(QFEvent::Done { round_id: id, distributed: 3 }),
        ]
    );
}

#[test]
fn a_round_without_projects_pays_nothing() {
    let mut env = start();
    let id = open_round(&mut env, 3);
    close(&mut env, id);
    distribute_matching(&mut env, &who(1), id).unwrap();
    assert_eq!(
        env.actions,
        vec![Action::Publish(QFEvent::Done { round_id: id, distributed: 0 })]
    );
}

#[test]
fn without_weights_the_last_project_gets_the_pool() {
    let mut env = start();
    let id = open_round(&mut env, 50);
    let mut projects = AddressList::new(&env.host);
    projects.push_back(who(20));
    projects.push_back(who(21));
    env.storage.projects.set(id, projects);
    close(&mut env, id);
    distribute_matching(&mut env, &who(1), id).unwrap();
    assert_eq!(received(&env, who(20)), 0);
    assert_eq!(received(&env, who(21)), 50);
}

#[test]
fn a_contributor_without_a_contribution_gets_nothing_back() {
    let mut env = start();
    let id = open_round(&mut env, 50);
    give(&mut env, 2, id, 20, 4);
    let mut contributors = env.storage.contributors.get(&(id, who(20))).unwrap().copied();
    contributors.push_back(who(5));
    env.storage.contributors.set((id, who(20)), contributors);
    close(&mut env, id);
    distribute_matching(&mut env, &who(1), id).unwrap();
    assert_eq!(received(&env, who(2)), 4);
    assert_eq!(received(&env, who(5)), 0);
}

#[test]
fn equal_contributions_come_back_each() {
    let mut env = start();
    let id = open_round(&mut env, 50);
    give(&mut env, 2, id, 20, 4);
    give(&mut env, 2, id, 21, 4);
    give(&mut env, 3, id, 21, 4);
    close(&mut env, id);
    distribute_matching(&mut env, &who(1), id).unwrap();
    assert_eq!(received(&env, who(2)), 8);
    assert_eq!(received(&env, who(3)), 4);
}

#[test]
fn paying_out_is_refused() {
    let mut env = start();
    let id = open_round(&mut env, 100);
    give(&mut env, 2, id, 20, 4);
    assert_eq!(distribute_matching(&mut env, &who(1), 99), Err(QFError::RoundNotFound));
    assert_eq!(distribute_matching(&mut env, &who(2), id), Err(QFError::Unauthorized));
    assert_eq!(distribute_matching(&mut env, &who(1), id), Err(QFError::RoundNotFinalized));
    close(&mut env, id);
    distribute_matching(&mut env, &who(1), id).unwrap();
    env.actions.clear();
    assert_eq!(distribute_matching(&mut env, &who(1), id), Err(QFError::RoundNotFinalized));
    assert!(env.actions.is_empty());
}

#[test]
fn all_that_came_in_goes_out() {
    let mut env = start();
    let id = open_round(&mut env, 12_345);
    for n in 0..7u128 {
        give(&mut env, 100 + n, id, 20 + n % 3, 11 + 13 * n as i128);
    }
    let given = get_round(&env, id).unwrap().total_contributions;
    close(&mut env, id);
    distribute_matching(&mut env, &who(1), id).unwrap();
    let mut out = 0;
    for action in &env.actions {
        if let Action::Transfer(t) = action {
            assert_eq!(t.from, CONTRACT);
            out += t.amount;
        }
    }
    assert_eq!(out, 12_345 + given);
}

#[test]
fn the_contract_has_what_it_holds_of_each_token() {
    let other = Address { contract: true, hi: 9, lo: 3 };
    let mut env = start();
    let a = create_round(&mut env, &who(1), &TOKEN, 100, 3_600).unwrap();
    let b = create_round(&mut env, &who(1), &other, 50, 3_600).unwrap();
    let c = create_round(&mut env, &who(1), &TOKEN, 7, 3_600).unwrap();
    contribute(&mut env, &who(2), a, &who(20), 4).unwrap();
    contribute(&mut env, &who(3), b, &who(20), 9).unwrap();
    contribute(&mut env, &who(4), c, &who(21), 5).unwrap();
    let balance = |env: &QFInvocation, token: Address| {
        let mut total = 0;
        for action in &env.actions {
            if let Action::Transfer(t) = action {
                if t.token == token && t.to == CONTRACT {
                    total += t.amount;
                }
                if t.token == token && t.from == CONTRACT {
                    total -= t.amount;
                }
            }
        }
        total
    };
    assert_eq!(balance(&env, TOKEN), 100 + 4 + 7 + 5);
    assert_eq!(balance(&env, other), 50 + 9);
    env.timestamp = 4_600;
    finalize_round(&mut env, &who(1), a).unwrap();
    distribute_matching(&mut env, &who(1), a).unwrap();
    assert_eq!(balance(&env, TOKEN), 7 + 5);
    assert_eq!(balance(&env, other), 50 + 9);
    finalize_round(&mut env, &who(1), b).unwrap();
    distribute_matching(&mut env, &who(1), b).unwrap();
    assert_eq!(balance(&env, other), 0);
    assert_eq!(balance(&env, TOKEN), 7 + 5);
}

// ── estimates ─────────────────────────────────────────────────────────────────

#[test]
fn an_estimate_is_what_is_paid() {
    let mut env = start();
    let id = open_round(&mut env, 1_000);
    give(&mut env, 2, id, 20, 4);
    give(&mut env, 3, id, 21, 16);
    give(&mut env, 4, id, 20, 1);
    assert_eq!(get_match_estimate(&env, id, &who(20)), 360);
    assert_eq!(get_match_estimate(&env, id, &who(21)), 640);
    assert_eq!(get_match_estimate(&env, id, &who(99)), 0);
    assert_eq!(get_match_estimate(&env, 99, &who(20)), 0);
    close(&mut env, id);
    distribute_matching(&mut env, &who(1), id).unwrap();
    assert_eq!(received(&env, who(20)), 360);
    assert_eq!(received(&env, who(21)), 640);
}

#[test]
fn square_contributions_weigh_the_square_of_their_roots() {
    let mut env = start();
    let id = open_round(&mut env, 1_000_000);
    give(&mut env, 2, id, 20, 49);
    give(&mut env, 3, id, 20, 9);
    give(&mut env, 4, id, 21, 900);
    // (7 + 3)² of (7 + 3)² + 30².
    assert_eq!(get_match_estimate(&env, id, &who(20)), 100_000);
}

#[test]
fn the_fractions_of_roots_count() {
    let mut env = start();
    let id = open_round(&mut env, 1_000);
    // (√2 + √3)² = 9.89..., (√5)² = 5.
    give(&mut env, 2, id, 20, 2);
    give(&mut env, 3, id, 20, 3);
    give(&mut env, 4, id, 21, 5);
    assert_eq!(env.storage.sqrt_sums.get(&(id, who(20))), Some(&31462643));
    assert_eq!(env.storage.sqrt_sums.get(&(id, who(21))), Some(&22360679));
    assert_eq!(get_match_estimate(&env, id, &who(20)), 664);
    assert_eq!(get_match_estimate(&env, id, &who(21)), 335);
}

#[test]
fn a_split_contribution_weighs_more_than_a_whole_one() {
    let mut env = start();
    let id = open_round(&mut env, 1_000);
    // (√1 + √8)² = 14.65..., (√9)² = 9.
    give(&mut env, 2, id, 20, 1);
    give(&mut env, 3, id, 20, 8);
    give(&mut env, 4, id, 21, 9);
    assert_eq!(get_match_estimate(&env, id, &who(20)), 619);
    assert_eq!(get_match_estimate(&env, id, &who(21)), 380);
}

#[test]
fn two_small_donors_get_twice_the_match_of_one_large_donor() {
    let mut env = start();
    let id = open_round(&mut env, 1_200);
    // (√4)² = 4, (√2 + √2)² = 8.
    give(&mut env, 2, id, 20, 4);
    give(&mut env, 3, id, 21, 2);
    give(&mut env, 4, id, 21, 2);
    close(&mut env, id);
    distribute_matching(&mut env, &who(1), id).unwrap();
    assert_eq!(received(&env, who(20)), 400);
    assert_eq!(received(&env, who(21)), 800);
}

// ── rounds apart ──────────────────────────────────────────────────────────────

#[test]
fn rounds_do_not_touch_each_other() {
    let mut env = start();
    let a = open_round(&mut env, 100);
    let b = open_round(&mut env, 200);
    give(&mut env, 2, a, 20, 4);
    let before = get_round(&env, a);
    give(&mut env, 2, b, 20, 9);
    env.timestamp = 4_600;
    finalize_round(&mut env, &who(1), b).unwrap();
    distribute_matching(&mut env, &who(1), b).unwrap();
    assert_eq!(get_round(&env, a), before);
    assert_eq!(env.storage.sqrt_sums.get(&(a, who(20))), Some(&20_000_000));
    assert_eq!(get_contribution(&env, a, &who(20), &who(2)).unwrap().amount, 4);
    assert_eq!(get_match_estimate(&env, a, &who(20)), 100);
}

// ── numbers out of range ──────────────────────────────────────────────────────

#[test]
fn checked_opening_stops_when_the_ids_run_out() {
    let mut env = start();
    env.storage.round_ctr = Some(u64::MAX - 1);
    assert_eq!(checked_create_round(&mut env, &who(1), &TOKEN, 5, 60), Some(Ok(u64::MAX - 1)));
    env.actions.clear();
    assert_eq!(checked_create_round(&mut env, &who(1), &TOKEN, 5, 60), None);
    assert_eq!(
        checked_create_round(&mut env, &who(1), &TOKEN, 0, 60),
        Some(Err(QFError::InvalidAmount))
    );
    assert!(env.actions.is_empty());
    assert_eq!(env.storage.round_ctr, Some(u64::MAX));
}

#[test]
fn checked_contributing_takes_the_largest_amount() {
    let mut env = start();
    let id = open_round(&mut env, 700);
    assert_eq!(
        checked_contribute(&mut env, &who(2), 99, &who(3), i128::MAX),
        Some(Err(QFError::RoundNotFound))
    );
    assert_eq!(checked_contribute(&mut env, &who(2), id, &who(3), i128::MAX), Some(Ok(())));
    assert_eq!(get_contribution(&env, id, &who(3), &who(2)).unwrap().amount, i128::MAX);
    assert_eq!(
        env.storage.sqrt_sums.get(&(id, who(3))),
        Some(&130438178253327822123495718)
    );
}

#[test]
fn the_largest_pool_is_split_exactly() {
    let mut env = start();
    let id = open_round(&mut env, i128::MAX);
    give(&mut env, 2, id, 20, 4);
    give(&mut env, 3, id, 21, 1);
    let part = 136112946768375385385349842972707284581;
    assert_eq!(checked_match_estimate(&env, id, &who(20)), Some(part));
    assert_eq!(checked_match_estimate(&env, id, &who(21)), Some(i128::MAX / 5));
    assert_eq!(checked_match_estimate(&env, id, &who(22)), Some(0));
    assert_eq!(checked_match_estimate(&env, 99, &who(20)), Some(0));
    assert_eq!(
        checked_distribute_matching(&mut env, &who(1), id),
        Some(Err(QFError::RoundNotFinalized))
    );
    close(&mut env, id);
    assert_eq!(checked_distribute_matching(&mut env, &who(1), id), Some(Ok(())));
    assert_eq!(received(&env, who(20)), part);
    assert_eq!(received(&env, who(21)), i128::MAX - part);
}

#[test]
fn the_largest_weights_are_split_exactly() {
    let mut env = start();
    let id = open_round(&mut env, i128::MAX);
    give(&mut env, 2, id, 20, 4);
    give(&mut env, 3, id, 21, 4);
    give(&mut env, 4, id, 22, 4);
    for project in 20..23u128 {
        env.storage.sqrt_sums.set((id, who(project)), i128::MAX);
    }
    close(&mut env, id);
    distribute_matching(&mut env, &who(1), id).unwrap();
    assert_eq!(received(&env, who(20)), i128::MAX / 3);
    assert_eq!(received(&env, who(21)), i128::MAX / 3);
    assert_eq!(received(&env, who(22)), i128::MAX - 2 * (i128::MAX / 3));
}

#[test]
fn checked_paying_out_needs_a_pool() {
    let mut env = start();
    let id = open_round(&mut env, 5);
    give(&mut env, 2, id, 20, 4);
    close(&mut env, id);
    let mut round = get_round(&env, id).unwrap();
    round.matching_pool = 0;
    env.storage.rounds.set(id, round);
    assert_eq!(checked_match_estimate(&env, id, &who(20)), None);
    assert_eq!(checked_match_estimate(&env, id, &who(21)), Some(0));
    assert_eq!(checked_distribute_matching(&mut env, &who(1), id), None);
    assert!(env.actions.is_empty());
    assert_eq!(get_round(&env, id), Some(round));
}

// ── keys ──────────────────────────────────────────────────────────────────────

#[test]
fn a_contribution_rests_on_five_entries() {
    assert_eq!(
        list_contribution_keys(4, who(20), who(2)),
        vec![
            QFKey::Round(4),
            QFKey::Contribution(4, who(20), who(2)),
            QFKey::RoundProjects(4),
            QFKey::ProjectContributors(4, who(20)),
            QFKey::ProjectSqrtSum(4, who(20)),
        ]
    );
}

#[test]
fn a_payout_rests_on_the_entries_of_its_projects() {
    let mut env = start();
    let id = open_round(&mut env, 100);
    assert_eq!(
        list_distribution_keys(&env.storage, id),
        vec![QFKey::Round(id), QFKey::RoundProjects(id)]
    );
    give(&mut env, 2, id, 20, 4);
    give(&mut env, 3, id, 21, 4);
    give(&mut env, 4, id, 20, 4);
    let weighed = vec![
        QFKey::Round(id),
        QFKey::RoundProjects(id),
        QFKey::ProjectSqrtSum(id, who(20)),
        QFKey::ProjectSqrtSum(id, who(21)),
    ];
    assert_eq!(list_estimate_keys(&env.storage, id), weighed);
    let mut all = weighed;
    all.push(QFKey::ProjectContributors(id, who(20)));
    all.push(QFKey::Contribution(id, who(20), who(2)));
    all.push(QFKey::Contribution(id, who(20), who(4)));
    all.push(QFKey::ProjectContributors(id, who(21)));
    all.push(QFKey::Contribution(id, who(21), who(3)));
    assert_eq!(list_distribution_keys(&env.storage, id), all);
}

// ── names for the outside ─────────────────────────────────────────────────────

#[test]
fn errors_have_their_codes() {
    let codes: Vec<u32> = [
        QFError::RoundNotFound,
        QFError::RoundNotActive,
        QFError::RoundNotFinalized,
        QFError::AlreadyDistributed,
        QFError::RoundEnded,
        QFError::RoundNotEnded,
        QFError::AlreadyContributed,
        QFError::InvalidAmount,
        QFError::Unauthorized,
        QFError::ProjectNotRegistered,
    ]
    .iter()
    .map(|error| error.code())
    .collect();
    assert_eq!(codes, (200..210).collect::<Vec<u32>>());
}

#[test]
fn events_have_their_topics() {
    let p = who(20);
    assert_eq!(
        QFEvent::New { round_id: 0, admin: p, token: TOKEN, matching_pool: 1 }.topic(),
        "qf_new"
    );
    assert_eq!(
        QFEvent::Contributed { round_id: 0, contributor: p, project: p, amount: 1 }.topic(),
        "qf_con"
    );
    assert_eq!(QFEvent::Finalized { round_id: 0 }.topic(), "qf_fin");
    assert_eq!(
        QFEvent::Distributed { round_id: 0, project: p, match_amount: 1 }.topic(),
        "qf_dist"
    );
    assert_eq!(QFEvent::Done { round_id: 0, distributed: 1 }.topic(), "qf_done");
}
