//! Splitting a pool in proportion.
use crate::amounts::{lemma_sum_bounds, lemma_sum_concat, lemma_sum_push, sum};
use vstd::prelude::*;

verus! {

/// The part of the pool that is due for `part` out of `whole`, rounded down.
pub open spec fn share(pool: int, part: int, whole: int) -> int {
    pool * part / whole
}

/// What each recipient gets of the pool: all but the last get what is due to them, and the last
/// gets what is left.
pub open spec fn settled(pool: int, dues: Seq<int>) -> Seq<int> {
    dues.push(pool - sum(dues))
}

/// What is paid out in all: amounts that are not positive are not paid.
pub open spec fn paid(amounts: Seq<int>) -> int
    decreases amounts.len(),
{
    if amounts.len() == 0 {
        0
    } else {
        paid(amounts.drop_last()) + if amounts.last() > 0 {
            amounts.last()
        } else {
            0
        }
    }
}

/// Taking one amount more pays it where it is positive.
pub proof fn lemma_paid_take(amounts: Seq<int>, i: int)
    requires
        0 <= i < amounts.len(),
    ensures
        paid(amounts.take(i + 1)) == paid(amounts.take(i)) + if amounts[i] > 0 {
            amounts[i]
        } else {
            0
        },
{
    assert(amounts.take(i + 1).drop_last() =~= amounts.take(i));
}

/// Where no amount is negative, all of them are paid.
pub proof fn lemma_paid_is_sum(amounts: Seq<int>)
    requires
        forall|i: int| 0 <= i < amounts.len() ==> 0 <= #[trigger] amounts[i],
    ensures
        paid(amounts) == sum(amounts),
    decreases amounts.len(),
{
    if amounts.len() > 0 {
        let rest = amounts.drop_last();
        assert forall|i: int| 0 <= i < rest.len() implies 0 <= #[trigger] rest[i] by {
            assert(rest[i] == amounts[i]);
        }
        lemma_paid_is_sum(rest);
    }
}

/// The settled amounts add up to the pool.
pub proof fn lemma_settled_sum(pool: int, dues: Seq<int>)
    ensures
        sum(settled(pool, dues)) == pool,
{
    lemma_sum_push(dues, pool - sum(dues));
}

/// A share of a part that is not negative lies between nothing and the pool, as long as the part
/// is no more than the whole.
pub proof fn lemma_share_bounds(pool: int, part: int, whole: int)
    requires
        0 <= pool,
        0 <= part <= whole,
        0 < whole,
    ensures
        0 <= share(pool, part, whole) <= pool,
{
    assert(0 <= pool * part <= pool * whole) by (nonlinear_arith)
        requires
            0 <= pool,
            0 <= part <= whole,
    ;
    assert(0 <= pool * part / whole <= pool) by (nonlinear_arith)
        requires
            0 <= pool * part <= pool * whole,
            0 < whole,
    ;
}

/// The dues of parts that add up to no more than the whole add up to no more than the pool.
pub proof fn lemma_dues_within_pool(pool: int, parts: Seq<int>, whole: int, dues: Seq<int>)
    requires
        0 <= pool,
        0 < whole,
        dues.len() == parts.len(),
        forall|i: int| 0 <= i < parts.len() ==> 0 <= #[trigger] parts[i],
        forall|i: int| 0 <= i < dues.len() ==> #[trigger] dues[i] == share(pool, parts[i], whole),
        sum(parts) <= whole,
    ensures
        0 <= sum(dues) <= pool,
        forall|i: int| 0 <= i < dues.len() ==> 0 <= #[trigger] dues[i],
{
    lemma_sum_bounds(parts);
    assert forall|i: int| 0 <= i < dues.len() implies 0 <= #[trigger] dues[i] by {
        lemma_share_bounds(pool, parts[i], whole);
    }
    lemma_sum_bounds(dues);
    lemma_dues_scaled(pool, parts, whole, dues);
    assert(sum(dues) <= pool) by (nonlinear_arith)
        requires
            sum(dues) * whole <= pool * sum(parts),
            sum(parts) <= whole,
            0 < whole,
            0 <= pool,
    ;
}

/// The dues fall short of the exact parts of the pool by less than one each.
pub proof fn lemma_dues_short_of_exact(pool: int, parts: Seq<int>, whole: int, dues: Seq<int>)
    requires
        0 < whole,
        dues.len() == parts.len(),
        forall|i: int| 0 <= i < dues.len() ==> #[trigger] dues[i] == share(pool, parts[i], whole),
    ensures
        pool * sum(parts) <= (sum(dues) + dues.len()) * whole,
    decreases parts.len(),
{
    if parts.len() > 0 {
        let ps = parts.drop_last();
        let ds = dues.drop_last();
        assert forall|i: int| 0 <= i < ds.len() implies #[trigger] ds[i] == share(
            pool,
            ps[i],
            whole,
        ) by {
            assert(ds[i] == dues[i] && ps[i] == parts[i]);
        }
        lemma_dues_short_of_exact(pool, ps, whole, ds);
        let d = dues.last();
        let p = parts.last();
        assert(d == dues[dues.len() - 1]);
        assert(pool * p <= (d + 1) * whole) by (nonlinear_arith)
            requires
                d == pool * p / whole,
                0 < whole,
        ;
        let a = sum(ds) + ds.len();
        assert((a + (d + 1)) * whole == a * whole + (d + 1) * whole) by (nonlinear_arith);
        assert(pool * (sum(ps) + p) == pool * sum(ps) + pool * p) by (nonlinear_arith);
    } else {
        assert(pool * 0 == 0 && 0 * whole == 0) by (nonlinear_arith);
    }
}

/// A larger part has no smaller a share.
pub proof fn lemma_share_grows(pool: int, part: int, larger: int, whole: int)
    requires
        0 <= pool,
        part <= larger,
        0 < whole,
    ensures
        share(pool, part, whole) <= share(pool, larger, whole),
{
    assert(pool * part <= pool * larger) by (nonlinear_arith)
        requires
            0 <= pool,
            part <= larger,
    ;
    vstd::arithmetic::div_mod::lemma_div_is_ordered(pool * part, pool * larger, whole);
}

/// The dues, times the whole, add up to no more than the pool times the parts.
proof fn lemma_dues_scaled(pool: int, parts: Seq<int>, whole: int, dues: Seq<int>)
    requires
        0 < whole,
        dues.len() == parts.len(),
        forall|i: int| 0 <= i < dues.len() ==> #[trigger] dues[i] == share(pool, parts[i], whole),
    ensures
        sum(dues) * whole <= pool * sum(parts),
    decreases parts.len(),
{
    if parts.len() == 0 {
    } else {
        let ps = parts.drop_last();
        let ds = dues.drop_last();
        assert forall|i: int| 0 <= i < ds.len() implies #[trigger] ds[i] == share(
            pool,
            ps[i],
            whole,
        ) by {
            assert(ds[i] == dues[i] && ps[i] == parts[i]);
        }
        lemma_dues_scaled(pool, ps, whole, ds);
        let d = dues.last();
        let p = parts.last();
        assert(d == dues[dues.len() - 1]);
        assert(d * whole <= pool * p) by (nonlinear_arith)
            requires
                d == pool * p / whole,
                0 < whole,
        ;
        assert((sum(ds) + d) * whole == sum(ds) * whole + d * whole) by (nonlinear_arith);
        assert(pool * (sum(ps) + p) == pool * sum(ps) + pool * p) by (nonlinear_arith);
    }
}

/// Dues of at most one unit each add up to at most their number.
pub(crate) proof fn lemma_unit_dues(dues: Seq<int>)
    requires
        forall|i: int| 0 <= i < dues.len() ==> 0 <= #[trigger] dues[i] <= 1,
    ensures
        0 <= sum(dues) <= dues.len(),
    decreases dues.len(),
{
    if dues.len() > 0 {
        let rest = dues.drop_last();
        assert forall|i: int| 0 <= i < rest.len() implies 0 <= #[trigger] rest[i] <= 1 by {
            assert(rest[i] == dues[i]);
        }
        lemma_unit_dues(rest);
        assert(0 <= dues[dues.len() - 1] <= 1);
    }
}

/// The dues of the first `k` recipients add up to at most the pool, or, where the whole has
/// saturated, to at most `k`.
pub(crate) proof fn lemma_dues_in_range(
    pool: int,
    parts: Seq<int>,
    whole: int,
    dues: Seq<int>,
    k: int,
)
    requires
        0 < pool,
        0 <= k <= dues.len() == parts.len(),
        forall|i: int| 0 <= i < parts.len() ==> 0 <= #[trigger] parts[i],
        forall|i: int| 0 <= i < parts.len() ==> pool * #[trigger] parts[i] <= i128::MAX,
        0 < whole,
        sum(parts) <= whole || whole == i128::MAX,
        forall|i: int| 0 <= i < dues.len() ==> #[trigger] dues[i] == share(pool, parts[i], whole),
    ensures
        0 <= sum(dues.take(k)),
        sum(dues.take(k)) <= pool || sum(dues.take(k)) <= k,
        forall|i: int| 0 <= i < dues.len() ==> 0 <= #[trigger] dues[i],
{
    let head = dues.take(k);
    let tail = dues.skip(k);
    assert(head + tail =~= dues);
    lemma_sum_concat(head, tail);
    assert forall|i: int| 0 <= i < dues.len() implies 0 <= #[trigger] dues[i] by {
        assert(0 <= pool * parts[i]) by (nonlinear_arith)
            requires
                0 < pool,
                0 <= parts[i],
        ;
        assert(0 <= pool * parts[i] / whole) by (nonlinear_arith)
            requires
                0 <= pool * parts[i],
                0 < whole,
        ;
    }
    assert forall|i: int| 0 <= i < tail.len() implies 0 <= #[trigger] tail[i] by {
        assert(tail[i] == dues[k + i]);
    }
    assert forall|i: int| 0 <= i < head.len() implies 0 <= #[trigger] head[i] by {
        assert(head[i] == dues[i]);
    }
    lemma_sum_bounds(head);
    lemma_sum_bounds(tail);
    if sum(parts) <= whole {
        lemma_dues_within_pool(pool, parts, whole, dues);
    } else {
        assert forall|i: int| 0 <= i < head.len() implies 0 <= #[trigger] head[i] <= 1 by {
            assert(head[i] == dues[i]);
            assert(pool * parts[i] / whole <= 1) by (nonlinear_arith)
                requires
                    pool * parts[i] <= whole,
                    0 < whole,
            ;
        }
        lemma_unit_dues(head);
    }
}

} // verus!
