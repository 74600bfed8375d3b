//! The operations of quadratic funding for a caller who cannot tell whether there is an id, room in
//! the lists, or a pool: each first finds out, and does nothing where there is not.
use super::model::{
    contribute_step, contribution_in_range, create_round_step, distribute_matching_step,
    distribution_in_range, estimate_in_range, match_estimate,
};
use super::{
    admit_contribution, admit_distribution, contribute, create_round, distribute_matching,
    get_match_estimate, weigh_projects, QFError, QFInvocation,
};
use crate::address::Address;
use crate::invocation::follows;
use vstd::prelude::*;

verus! {

/// Creates a round as `create_round` does, unless there is no id left for it.
pub fn checked_create_round(
    env: &mut QFInvocation,
    admin: &Address,
    token: &Address,
    matching_pool: i128,
    duration_seconds: u64,
) -> (r: Option<Result<u64, QFError>>)
    ensures
        r is None <==> create_round_step(
            old(env)@,
            *admin,
            *token,
            matching_pool,
            duration_seconds,
        ) is Ok && old(env)@.storage.next_id() == u64::MAX,
        r is None ==> final(env)@ == old(env)@,
        r matches Some(result) ==> follows(
            old(env)@,
            create_round_step(old(env)@, *admin, *token, matching_pool, duration_seconds),
            final(env)@,
            result,
        ),
{
    if matching_pool > 0 && duration_seconds > 0 {
        if let Some(id) = env.storage.round_ctr {
            if id == u64::MAX {
                return None;
            }
        }
    }
    Some(create_round(env, admin, token, matching_pool, duration_seconds))
}

/// Contributes as `contribute` does, unless a list that it extends is full.
pub fn checked_contribute(
    env: &mut QFInvocation,
    contributor: &Address,
    round_id: u64,
    project: &Address,
    amount: i128,
) -> (r: Option<Result<(), QFError>>)
    ensures
        r is None <==> contribute_step(old(env)@, *contributor, round_id, *project, amount) is Ok
            && !contribution_in_range(old(env)@.storage, round_id, *project),
        r is None ==> final(env)@ == old(env)@,
        r matches Some(result) ==> follows(
            old(env)@,
            contribute_step(old(env)@, *contributor, round_id, *project, amount),
            final(env)@,
            result,
        ),
{
    if let Err(error) = admit_contribution(env, contributor, round_id, project, amount) {
        return Some(Err(error));
    }
    if let Some(projects) = env.storage.projects.get(&round_id) {
        if projects.len() == u32::MAX && !projects.contains(project) {
            return None;
        }
    }
    if let Some(contributors) = env.storage.contributors.get(&(round_id, *project)) {
        if contributors.len() == u32::MAX {
            return None;
        }
    }
    Some(contribute(env, contributor, round_id, project, amount))
}

/// Pays out as `distribute_matching` does, unless there is no pool to split.
pub fn checked_distribute_matching(
    env: &mut QFInvocation,
    admin: &Address,
    round_id: u64,
) -> (r: Option<Result<(), QFError>>)
    ensures
        r is None <==> distribute_matching_step(old(env)@, *admin, round_id) is Ok
            && !distribution_in_range(old(env)@.storage, round_id),
        r is None ==> final(env)@ == old(env)@,
        r matches Some(result) ==> follows(
            old(env)@,
            distribute_matching_step(old(env)@, *admin, round_id),
            final(env)@,
            result,
        ),
{
    match admit_distribution(env, admin, round_id) {
        Err(error) => Some(Err(error)),
        Ok(round) => {
            if round.matching_pool <= 0 {
                None
            } else {
                Some(distribute_matching(env, admin, round_id))
            }
        },
    }
}

/// Estimates as `get_match_estimate` does, unless there is no pool to split.
pub fn checked_match_estimate(env: &QFInvocation, round_id: u64, project: &Address) -> (r: Option<
    i128,
>)
    ensures
        r is None <==> !estimate_in_range(env@.storage, round_id, *project),
        r matches Some(estimate) ==> estimate == match_estimate(env@.storage, round_id, *project),
{
    if let Some(round) = env.storage.rounds.get(&round_id) {
        if round.matching_pool <= 0 {
            let projects: Vec<Address> = env.storage.listed_projects(round_id);
            let (_, total) = weigh_projects(&env.storage, round_id, &projects);
            let listed: bool = match env.storage.projects.get(&round_id) {
                Some(list) => list.contains(project),
                None => false,
            };
            if listed && !total.is_zero() {
                return None;
            }
        }
    }
    Some(get_match_estimate(env, round_id, project))
}

} // verus!
