//! The operations of retroactive funding for a caller who cannot tell whether the numbers that
//! they compute are in range: each first finds out, and does nothing where they are not.
use super::model::{
    create_round_step, distribution_in_range, finalize_and_distribute_step, nominate_project_step,
    reward_dues, split_in_range,
};
use super::{
    admit_distribution, admit_nomination, create_round, finalize_and_distribute,
    nominate_project, EvalCriteria, RFError, RFInvocation,
};
use crate::address::Address;
use crate::amounts::{lemma_sum_take, lemma_sums_in_order, sum};
use crate::invocation::follows;
use vstd::prelude::*;

verus! {

/// Creates a round as `create_round` does, unless there is no id left for it.
pub fn checked_create_round(
    env: &mut RFInvocation,
    admin: &Address,
    token: &Address,
    reward_pool: i128,
    criteria: EvalCriteria,
    voting_start: u64,
    voting_end: u64,
) -> (r: Option<Result<u64, RFError>>)
    ensures
        r is None <==> create_round_step(
            old(env)@,
            *admin,
            *token,
            reward_pool,
            criteria,
            voting_start,
            voting_end,
        ) is Ok && old(env)@.storage.next_id() == u64::MAX,
        r is None ==> final(env)@ == old(env)@,
        r matches Some(result) ==> follows(
            old(env)@,
            create_round_step(
                old(env)@,
                *admin,
                *token,
                reward_pool,
                criteria,
                voting_start,
                voting_end,
            ),
            final(env)@,
            result,
        ),
{
    if reward_pool > 0 && voting_start < voting_end {
        if let Some(id) = env.storage.round_ctr {
            if id == u64::MAX {
                return None;
            }
        }
    }
    Some(create_round(env, admin, token, reward_pool, criteria, voting_start, voting_end))
}

/// Nominates as `nominate_project` does, unless the list of projects is full.
pub fn checked_nominate_project(
    env: &mut RFInvocation,
    round_id: u64,
    project: &Address,
    tip_volume: i128,
    unique_tippers: u32,
    impact_description: String,
) -> (r: Option<Result<(), RFError>>)
    ensures
        r is None <==> nominate_project_step(
            old(env)@,
            round_id,
            *project,
            tip_volume,
            unique_tippers,
            impact_description,
        ) is Ok && old(env)@.storage.projects_of(round_id).len() >= u32::MAX,
        r is None ==> final(env)@ == old(env)@,
        r matches Some(result) ==> follows(
            old(env)@,
            nominate_project_step(
                old(env)@,
                round_id,
                *project,
                tip_volume,
                unique_tippers,
                impact_description,
            ),
            final(env)@,
            result,
        ),
{
    if let Err(error) = admit_nomination(
        env,
        round_id,
        project,
        tip_volume,
        unique_tippers,
        Ghost(impact_description),
    ) {
        return Some(Err(error));
    }
    if let Some(projects) = env.storage.projects.get(&round_id) {
        if projects.len() == u32::MAX {
            return None;
        }
    }
    Some(
        nominate_project(env, round_id, project, tip_volume, unique_tippers, impact_description),
    )
}

/// Whether the numbers that the split of the pool computes are in range.
fn split_fits(pool: i128, votes: &Vec<i128>, total: i128) -> (r: bool)
    requires
        0 < pool,
    ensures
        r == split_in_range(
            pool as int,
            votes@.map_values(|v: i128| v as int),
            total as int,
        ),
{
    let count: usize = votes.len();
    let ghost vs = votes@.map_values(|v: i128| v as int);
    let ghost dues = reward_dues(pool as int, vs, total as int);
    if count == 0 {
        return true;
    }
    let mut promised: i128 = 0;
    let mut i: usize = 0;
    while i < count - 1
        invariant
            i <= count - 1,
            0 < count == votes@.len() == vs.len(),
            0 < pool,
            vs == votes@.map_values(|v: i128| v as int),
            dues == reward_dues(pool as int, vs, total as int),
            promised == sum(dues.take(i as int)),
            forall|j: int| 0 <= j < i ==> 0 <= #[trigger] dues[j],
            total > 0 ==> forall|j: int|
                0 <= j < i ==> 0 <= #[trigger] vs[j] && pool * vs[j] <= i128::MAX,
        decreases count - i,
    {
        let v: i128 = votes[i];
        assert(vs[i as int] == v);
        assert(vs.drop_last()[i as int] == v);
        let due: i128 = if total > 0 {
            if v < 0 {
                return false;
            }
            assert(0 <= pool * v) by (nonlinear_arith)
                requires
                    0 < pool,
                    0 <= v,
            ;
            match pool.checked_mul(v) {
                Some(product) => {
                    assert(0 <= product as int / total as int <= product) by (nonlinear_arith)
                        requires
                            0 <= product,
                            0 < total,
                    ;
                    product / total
                },
                None => return false,
            }
        } else {
            assert(0 <= pool as int / count as int <= pool) by (nonlinear_arith)
                requires
                    0 < pool,
                    0 < count,
            ;
            pool / (count as i128)
        };
        assert(due == dues[i as int]);
        proof {
            lemma_sum_take(dues, i as int);
        }
        match promised.checked_add(due) {
            Some(more) => {
                promised = more;
            },
            None => {
                proof {
                    assert(promised + due > i128::MAX);
                    if split_in_range(pool as int, vs, total as int) {
                        lemma_dues_not_negative(pool as int, vs, total as int);
                        lemma_sums_in_order(dues, i + 1);
                    }
                }
                return false;
            },
        }
        i += 1;
    }
    assert(dues.take(i as int) =~= dues);
    true
}

/// Where the numbers are in range, nothing that is due is negative.
proof fn lemma_dues_not_negative(pool: int, votes: Seq<int>, total: int)
    requires
        0 < pool,
        0 < votes.len(),
        split_in_range(pool, votes, total),
    ensures
        forall|i: int|
            0 <= i < votes.len() - 1 ==> 0 <= #[trigger] reward_dues(pool, votes, total)[i],
{
    let count = votes.len() as int;
    assert forall|i: int| 0 <= i < votes.len() - 1 implies 0 <= #[trigger] reward_dues(
        pool,
        votes,
        total,
    )[i] by {
        let v = votes[i];
        assert(votes.drop_last()[i] == v);
        if total > 0 {
            assert(0 <= pool * v / total) by (nonlinear_arith)
                requires
                    0 < pool,
                    0 <= v,
                    0 < total,
            ;
        } else {
            assert(0 <= pool / count) by (nonlinear_arith)
                requires
                    0 < pool,
                    0 < count,
            ;
        }
    }
}

/// Pays out as `finalize_and_distribute` does, unless there is no pool or a number is out of range.
pub fn checked_finalize_and_distribute(
    env: &mut RFInvocation,
    admin: &Address,
    round_id: u64,
) -> (r: Option<Result<(), RFError>>)
    ensures
        r is None <==> finalize_and_distribute_step(old(env)@, *admin, round_id) is Ok
            && !distribution_in_range(old(env)@.storage, round_id),
        r is None ==> final(env)@ == old(env)@,
        r matches Some(result) ==> follows(
            old(env)@,
            finalize_and_distribute_step(old(env)@, *admin, round_id),
            final(env)@,
            result,
        ),
{
    match admit_distribution(env, admin, round_id) {
        Err(error) => Some(Err(error)),
        Ok((round, _, votes)) => {
            let pool: i128 = round.reward_pool;
            let total: i128 = env.storage.total(round_id);
            if pool <= 0 || !split_fits(pool, &votes, total) {
                None
            } else {
                Some(finalize_and_distribute(env, admin, round_id))
            }
        },
    }
}

} // verus!
