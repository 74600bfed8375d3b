use tipjar::address::Address;
use tipjar::invocation::{Action, Invocation, Transfer};
use tipjar::retroactive_funding::checked::{
    checked_create_round, checked_finalize_and_distribute, checked_nominate_project,
};
use tipjar::retroactive_funding::keys::{
    list_distribution_keys, list_nomination_keys, list_vote_keys,
};
use tipjar::retroactive_funding::{
    cast_vote, create_round, finalize_and_distribute, get_project, get_round, get_round_projects,
    has_voted, nominate_project, open_voting, EvalCriteria, ProjectRecord, RFError, RFEvent,
    RFInvocation, RFKey, RFStorage, RetroRound, RoundStatus,
};

fn who(n: u128) -> Address {
    Address { contract: false, hi: 0, lo: n }
}

const CONTRACT: Address = Address { contract: true, hi: 9, lo: 1 };
const TOKEN: Address = Address { contract: true, hi: 9, lo: 2 };

fn criteria() -> EvalCriteria {
    EvalCriteria {
        min_tip_volume: 100,
        min_unique_tippers: 2,
        description: String::from("tools that others use"),
    }
}

fn start() -> RFInvocation {
    Invocation::new(soroban_sdk::Env::default(), CONTRACT, 1_000, RFStorage::new())
}

/// Opens a round that is voted on from 2000 to 3000.
fn open_round(env: &mut RFInvocation, pool: i128) -> u64 {
    let id = create_round(env, &who(1), &TOKEN, pool, criteria(), 2_000, 3_000).unwrap();
    env.actions.clear();
    id
}

fn nominate(env: &mut RFInvocation, round_id: u64, project: u128) {
    nominate_project(env, round_id, &who(project), 100, 2, String::from("done")).unwrap();
    env.actions.clear();
}

fn start_vote(env: &mut RFInvocation, round_id: u64) {
    open_voting(env, &who(1), round_id).unwrap();
    env.actions.clear();
    env.timestamp = 2_000;
}

fn vote(env: &mut RFInvocation, voter: u128, round_id: u64, project: u128, weight: i128) {
    cast_vote(env, &who(voter), round_id, &who(project), weight).unwrap();
    env.actions.clear();
}

fn pay(from: Address, to: Address, amount: i128) -> Action<RFEvent> {
    Action::Transfer(Transfer { token: TOKEN, from, to, amount })
}

fn rewards(env: &RFInvocation, round_id: u64) -> Vec<i128> {
    get_round_projects(env, round_id)
        .iter()
        .map(|p| get_project(env, round_id, p).unwrap().reward)
        .collect()
}

// ── opening a round ───────────────────────────────────────────────────────────

#[test]
fn opening_deposits_the_rewards_and_publishes() {
    let mut env = start();
    assert_eq!(create_round(&mut env, &who(1), &TOKEN, 700, criteria(), 20, 30), Ok(0));
    assert_eq!(
        env.actions,
        vec![
            pay(who(1), CONTRACT, 700),
            Action::Publish(RFEvent::New {
                round_id: 0,
                admin: who(1),
                token: TOKEN,
                reward_pool: 700,
            }),
        ]
    );
    assert_eq!(
        get_round(&env, 0),
        Some(RetroRound {
            round_id: 0,
            admin: who(1),
            token: TOKEN,
            reward_pool: 700,
            criteria: criteria(),
            voting_start: 20,
            voting_end: 30,
            status: RoundStatus::Nominations,
        })
    );
    assert_eq!(get_round(&env, 1), None);
    assert_eq!(env.storage.round_ctr, Some(1));
}

#[test]
fn a_round_without_rewards_or_a_window_is_refused() {
    let mut env = start();
    for (pool, from, to) in [(0, 20, 30), (-1, 20, 30), (5, 30, 30), (5, 30, 20)] {
        assert_eq!(
            create_round(&mut env, &who(1), &TOKEN, pool, criteria(), from, to),
            Err(RFError::InvalidAmount)
        );
    }
    assert!(env.actions.is_empty());
    assert_eq!(env.storage.round_ctr, None);
}

// ── nominating ────────────────────────────────────────────────────────────────

#[test]
fn nominating_records_and_publishes() {
    let mut env = start();
    let id = open_round(&mut env, 700);
    assert_eq!(
        nominate_project(&mut env, id, &who(20), 500, 3, String::from("a library")),
        Ok(())
    );
    assert_eq!(
        env.actions,
        vec![Action::Publish(RFEvent::Nominated {
            round_id: id,
            project: who(20),
            tip_volume: 500,
            unique_tippers: 3,
        })]
    );
    assert_eq!(
        get_project(&env, id, &who(20)),
        Some(ProjectRecord {
            project: who(20),
            round_id: id,
            tip_volume: 500,
            unique_tippers: 3,
            impact_description: String::from("a library"),
            votes: 0,
            reward: 0,
        })
    );
    assert_eq!(get_project(&env, id, &who(21)), None);
    assert_eq!(get_round_projects(&env, id), vec![who(20)]);
    assert_eq!(get_round_projects(&env, 99), vec![]);
}

#[test]
fn the_criteria_are_met_at_their_bounds() {
    let mut env = start();
    let id = open_round(&mut env, 700);
    let mut attempt = |project: u128, volume: i128, tippers: u32| {
        nominate_project(&mut env, id, &who(project), volume, tippers, String::from("x"))
    };
    assert_eq!(attempt(20, 100, 2), Ok(()));
    assert_eq!(attempt(21, 99, 2), Err(RFError::ProjectNotEligible));
    assert_eq!(attempt(21, 100, 1), Err(RFError::ProjectNotEligible));
    assert_eq!(get_round_projects(&env, id), vec![who(20)]);
}

#[test]
fn refused_nominations_change_nothing() {
    let mut env = start();
    let id = open_round(&mut env, 700);
    nominate(&mut env, id, 20);
    let text = String::from("again");
    assert_eq!(
        nominate_project(&mut env, 99, &who(21), 500, 3, text.clone()),
        Err(RFError::RoundNotFound)
    );
    assert_eq!(
        nominate_project(&mut env, id, &who(20), 500, 3, text.clone()),
        Err(RFError::ProjectAlreadyNominated)
    );
    assert_eq!(
        nominate_project(&mut env, id, &who(20), 5, 3, text.clone()),
        Err(RFError::ProjectNotEligible)
    );
    start_vote(&mut env, id);
    assert_eq!(
        nominate_project(&mut env, id, &who(21), 500, 3, text),
        Err(RFError::InvalidStatus)
    );
    assert!(env.actions.is_empty());
    assert_eq!(get_round_projects(&env, id), vec![who(20)]);
    assert_eq!(get_project(&env, id, &who(20)).unwrap().impact_description, "done");
}

// ── opening the vote ──────────────────────────────────────────────────────────

#[test]
fn opening_the_vote_publishes() {
    let mut env = start();
    let id = open_round(&mut env, 700);
    assert_eq!(open_voting(&mut env, &who(1), 99), Err(RFError::RoundNotFound));
    assert_eq!(open_voting(&mut env, &who(2), id), Err(RFError::Unauthorized));
    assert!(env.actions.is_empty());
    assert_eq!(open_voting(&mut env, &who(1), id), Ok(()));
    assert_eq!(env.actions, vec![Action::Publish(RFEvent::VotingOpened { round_id: id })]);
    assert_eq!(open_voting(&mut env, &who(1), id), Err(RFError::InvalidStatus));
    assert_eq!(env.actions.len(), 1);
}

// ── voting ────────────────────────────────────────────────────────────────────

#[test]
fn voting_counts_and_publishes() {
    let mut env = start();
    let id = open_round(&mut env, 700);
    nominate(&mut env, id, 20);
    start_vote(&mut env, id);
    assert_eq!(cast_vote(&mut env, &who(5), id, &who(20), 30), Ok(()));
    assert_eq!(
        env.actions,
        vec![Action::Publish(RFEvent::VoteCast {
            round_id: id,
            voter: who(5),
            project: who(20),
            weight: 30,
        })]
    );
    vote(&mut env, 6, id, 20, 12);
    assert_eq!(get_project(&env, id, &who(20)).unwrap().votes, 42);
    assert_eq!(env.storage.total_votes.get(&id), Some(&42));
    assert!(has_voted(&env, id, &who(5)));
    assert!(!has_voted(&env, id, &who(7)));
    assert!(!has_voted(&env, id + 1, &who(5)));
}

#[test]
fn refused_votes_change_nothing() {
    let mut env = start();
    let id = open_round(&mut env, 700);
    nominate(&mut env, id, 20);
    assert_eq!(cast_vote(&mut env, &who(5), id, &who(20), 1), Err(RFError::VotingNotOpen));
    start_vote(&mut env, id);
    vote(&mut env, 5, id, 20, 30);
    assert_eq!(cast_vote(&mut env, &who(6), 99, &who(20), 0), Err(RFError::InvalidAmount));
    assert_eq!(cast_vote(&mut env, &who(6), 99, &who(20), 1), Err(RFError::RoundNotFound));
    assert_eq!(cast_vote(&mut env, &who(5), id, &who(99), 1), Err(RFError::AlreadyVoted));
    assert_eq!(cast_vote(&mut env, &who(6), id, &who(99), 1), Err(RFError::ProjectNotFound));
    env.timestamp = 1_999;
    assert_eq!(cast_vote(&mut env, &who(6), id, &who(20), 1), Err(RFError::VotingNotOpen));
    env.timestamp = 3_001;
    assert_eq!(cast_vote(&mut env, &who(6), id, &who(20), 1), Err(RFError::VotingNotOpen));
    assert!(env.actions.is_empty());
    assert!(!has_voted(&env, id, &who(6)));
    assert_eq!(get_project(&env, id, &who(20)).unwrap().votes, 30);
    assert_eq!(env.storage.total_votes.get(&id), Some(&30));
}

#[test]
fn the_window_includes_its_ends() {
    let mut env = start();
    let id = open_round(&mut env, 700);
    nominate(&mut env, id, 20);
    start_vote(&mut env, id);
    vote(&mut env, 5, id, 20, 1);
    env.timestamp = 3_000;
    vote(&mut env, 6, id, 20, 1);
    assert_eq!(
        finalize_and_distribute(&mut env, &who(1), id),
        Err(RFError::VotingNotEnded)
    );
    env.timestamp = 3_001;
    assert_eq!(finalize_and_distribute(&mut env, &who(1), id), Ok(()));
}

#[test]
fn votes_saturate() {
    let mut env = start();
    let id = open_round(&mut env, 700);
    nominate(&mut env, id, 20);
    start_vote(&mut env, id);
    vote(&mut env, 5, id, 20, i128::MAX);
    vote(&mut env, 6, id, 20, 5);
    assert_eq!(get_project(&env, id, &who(20)).unwrap().votes, i128::MAX);
    assert_eq!(env.storage.total_votes.get(&id), Some(&i128::MAX));
}

// ── paying out ────────────────────────────────────────────────────────────────

#[test]
fn paying_out_rewards_in_order() {
    let mut env = start();
    let id = open_round(&mut env, 100);
    nominate(&mut env, id, 20);
    nominate(&mut env, id, 21);
    nominate(&mut env, id, 22);
    start_vote(&mut env, id);
    vote(&mut env, 5, id, 20, 1);
    vote(&mut env, 6, id, 22, 2);
    env.timestamp = 3_001;
    assert_eq!(finalize_and_distribute(&mut env, &who(1), id), Ok(()));
    let rewarded = |n: u128, votes: i128, reward: i128| {
        Action::Publish(RFEvent::Rewarded { round_id: id, project: who(n), votes, reward })
    };
    assert_eq!(
        env.actions,
        vec![
            pay(CONTRACT, who(20), 33),
            rewarded(20, 1, 33),
            rewarded(21, 0, 0),
            pay(CONTRACT, who(22), 67),
            rewarded(22, 2, 67),
            Action::Publish(RFEvent::Done { round_id: id, distributed: 100 }),
        ]
    );
    assert_eq!(rewards(&env, id), vec![33, 0, 67]);
    assert_eq!(get_round(&env, id).unwrap().status, RoundStatus::Finalized);
}

#[test]
fn without_votes_the_last_project_also_gets_the_remainder() {
    let mut env = start();
    let id = open_round(&mut env, 100);
    nominate(&mut env, id, 20);
    nominate(&mut env, id, 21);
    nominate(&mut env, id, 22);
    start_vote(&mut env, id);
    env.timestamp = 3_001;
    finalize_and_distribute(&mut env, &who(1), id).unwrap();
    assert_eq!(rewards(&env, id), vec![33, 33, 34]);
}

#[test]
fn a_round_without_nominees_pays_nothing() {
    let mut env = start();
    let id = open_round(&mut env, 100);
    start_vote(&mut env, id);
    env.timestamp = 3_001;
    finalize_and_distribute(&mut env, &who(1), id).unwrap();
    assert_eq!(
        env.actions,
        vec![Action::Publish(RFEvent::Done { round_id: id, distributed: 0 })]
    );
}

#[test]
fn paying_rewards_is_refused() {
    let mut env = start();
    let id = open_round(&mut env, 100);
    nominate(&mut env, id, 20);
    let attempt = |env: &mut RFInvocation, admin: u128, round_id: u64| {
        finalize_and_distribute(env, &who(admin), round_id)
    };
    assert_eq!(attempt(&mut env, 1, 99), Err(RFError::RoundNotFound));
    assert_eq!(attempt(&mut env, 2, id), Err(RFError::Unauthorized));
    assert_eq!(attempt(&mut env, 1, id), Err(RFError::InvalidStatus));
    start_vote(&mut env, id);
    assert_eq!(attempt(&mut env, 1, id), Err(RFError::VotingNotEnded));
    env.timestamp = 3_001;
    attempt(&mut env, 1, id).unwrap();
    env.actions.clear();
    assert_eq!(attempt(&mut env, 1, id), Err(RFError::InvalidStatus));
    assert!(env.actions.is_empty());
}

#[test]
fn a_listed_project_without_a_record_stops_the_payout() {
    let mut env = start();
    let id = open_round(&mut env, 100);
    nominate(&mut env, id, 20);
    let mut projects = env.storage.projects.get(&id).unwrap().copied();
    projects.push_back(who(21));
    env.storage.projects.set(id, projects);
    start_vote(&mut env, id);
    env.timestamp = 3_001;
    assert_eq!(
        finalize_and_distribute(&mut env, &who(1), id),
        Err(RFError::ProjectNotFound)
    );
    assert!(env.actions.is_empty());
    assert_eq!(get_project(&env, id, &who(20)).unwrap().reward, 0);
}

#[test]
fn all_rewards_go_out() {
    let mut env = start();
    let id = open_round(&mut env, 12_345);
    for n in 0..5u128 {
        nominate(&mut env, id, 20 + n);
    }
    start_vote(&mut env, id);
    for n in 0..7u128 {
        vote(&mut env, 100 + n, id, 20 + n % 5, 11 + 13 * n as i128);
    }
    env.timestamp = 3_001;
    finalize_and_distribute(&mut env, &who(1), id).unwrap();
    let mut out = 0;
    for action in &env.actions {
        if let Action::Transfer(t) = action {
            assert_eq!((t.token, t.from), (TOKEN, CONTRACT));
            assert_eq!(get_project(&env, id, &t.to).unwrap().reward, t.amount);
            out += t.amount;
        }
    }
    assert_eq!(out, 12_345);
    assert_eq!(rewards(&env, id).iter().sum::<i128>(), 12_345);
}

// ── rounds apart ──────────────────────────────────────────────────────────────

#[test]
fn retroactive_rounds_do_not_touch_each_other() {
    let mut env = start();
    let a = open_round(&mut env, 100);
    let b = open_round(&mut env, 200);
    nominate(&mut env, a, 20);
    nominate(&mut env, b, 20);
    start_vote(&mut env, a);
    start_vote(&mut env, b);
    vote(&mut env, 5, a, 20, 3);
    let round = get_round(&env, a);
    let record = get_project(&env, a, &who(20));
    vote(&mut env, 5, b, 20, 4);
    env.timestamp = 3_001;
    finalize_and_distribute(&mut env, &who(1), b).unwrap();
    assert_eq!(get_round(&env, a), round);
    assert_eq!(get_project(&env, a, &who(20)), record);
    assert_eq!(env.storage.total_votes.get(&a), Some(&3));
}

// ── numbers out of range ──────────────────────────────────────────────────────

#[test]
fn checked_rounds_stop_when_the_ids_run_out() {
    let mut env = start();
    env.storage.round_ctr = Some(u64::MAX);
    assert_eq!(
        checked_create_round(&mut env, &who(1), &TOKEN, 5, criteria(), 20, 30),
        None
    );
    assert_eq!(
        checked_create_round(&mut env, &who(1), &TOKEN, 5, criteria(), 30, 30),
        Some(Err(RFError::InvalidAmount))
    );
    assert!(env.actions.is_empty());
    env.storage.round_ctr = Some(7);
    assert_eq!(
        checked_create_round(&mut env, &who(1), &TOKEN, 5, criteria(), 20, 30),
        Some(Ok(7))
    );
}

#[test]
fn checked_nominating_nominates() {
    let mut env = start();
    let id = open_round(&mut env, 700);
    assert_eq!(
        checked_nominate_project(&mut env, id, &who(20), 500, 3, String::from("a")),
        Some(Ok(()))
    );
    assert_eq!(
        checked_nominate_project(&mut env, id, &who(20), 500, 3, String::from("b")),
        Some(Err(RFError::ProjectAlreadyNominated))
    );
    assert_eq!(get_project(&env, id, &who(20)).unwrap().impact_description, "a");
}

#[test]
fn checked_rewards_stop_at_products_out_of_range() {
    let mut env = start();
    let id = open_round(&mut env, i128::MAX);
    nominate(&mut env, id, 20);
    nominate(&mut env, id, 21);
    start_vote(&mut env, id);
    vote(&mut env, 5, id, 20, 2);
    env.timestamp = 3_000;
    assert_eq!(
        checked_finalize_and_distribute(&mut env, &who(1), id),
        Some(Err(RFError::VotingNotEnded))
    );
    env.timestamp = 3_001;
    assert_eq!(checked_finalize_and_distribute(&mut env, &who(1), id), None);
    assert!(env.actions.is_empty());
    assert_eq!(get_round(&env, id).unwrap().status, RoundStatus::Voting);
    assert_eq!(rewards(&env, id), vec![0, 0]);
}

#[test]
fn checked_rewards_pay_what_is_in_range() {
    let mut env = start();
    let id = open_round(&mut env, i128::MAX);
    nominate(&mut env, id, 20);
    nominate(&mut env, id, 21);
    start_vote(&mut env, id);
    vote(&mut env, 5, id, 20, 1);
    vote(&mut env, 6, id, 21, 2);
    env.timestamp = 3_001;
    assert_eq!(checked_finalize_and_distribute(&mut env, &who(1), id), Some(Ok(())));
    assert_eq!(rewards(&env, id), vec![i128::MAX / 3, i128::MAX - i128::MAX / 3]);
}

// ── keys ──────────────────────────────────────────────────────────────────────

#[test]
fn operations_rest_on_their_entries() {
    assert_eq!(
        list_nomination_keys(4, who(20)),
        vec![RFKey::Round(4), RFKey::Project(4, who(20)), RFKey::RoundProjects(4)]
    );
    assert_eq!(
        list_vote_keys(4, who(5), who(20)),
        vec![
            RFKey::Round(4),
            RFKey::HasVoted(4, who(5)),
            RFKey::Project(4, who(20)),
            RFKey::RoundTotalVotes(4),
        ]
    );
    let mut env = start();
    let id = open_round(&mut env, 100);
    let mut keys = vec![RFKey::Round(id), RFKey::RoundTotalVotes(id), RFKey::RoundProjects(id)];
    assert_eq!(list_distribution_keys(&env.storage, id), keys);
    nominate(&mut env, id, 20);
    nominate(&mut env, id, 21);
    keys.push(RFKey::Project(id, who(20)));
    keys.push(RFKey::Project(id, who(21)));
    assert_eq!(list_distribution_keys(&env.storage, id), keys);
}

// ── names for the outside ─────────────────────────────────────────────────────

#[test]
fn refusals_have_their_codes() {
    let codes: Vec<u32> = [
        RFError::RoundNotFound,
        RFError::InvalidStatus,
        RFError::VotingNotOpen,
        RFError::AlreadyVoted,
        RFError::InvalidAmount,
        RFError::Unauthorized,
        RFError::ProjectNotEligible,
        RFError::ProjectAlreadyNominated,
        RFError::ProjectNotFound,
        RFError::VotingNotEnded,
    ]
    .iter()
    .map(|error| error.code())
    .collect();
    assert_eq!(codes, (210..220).collect::<Vec<u32>>());
}

#[test]
fn announcements_have_their_topics() {
    let p = who(20);
    assert_eq!(
        RFEvent::New { round_id: 0, admin: p, token: TOKEN, reward_pool: 1 }.topic(),
        "rf_new"
    );
    assert_eq!(
        RFEvent::Nominated { round_id: 0, project: p, tip_volume: 1, unique_tippers: 1 }.topic(),
        "rf_nom"
    );
    assert_eq!(RFEvent::VotingOpened { round_id: 0 }.topic(), "rf_vote");
    assert_eq!(
        RFEvent::VoteCast { round_id: 0, voter: p, project: p, weight: 1 }.topic(),
        "rf_cast"
    );
    assert_eq!(
        RFEvent::Rewarded { round_id: 0, project: p, votes: 1, reward: 1 }.topic(),
        "rf_dist"
    );
    assert_eq!(RFEvent::Done { round_id: 0, distributed: 1 }.topic(), "rf_done");
}
