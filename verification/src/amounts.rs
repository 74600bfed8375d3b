//! Saturating arithmetic on amounts, and sums.
use vstd::prelude::*;

verus! {

/// The number, or the nearest `i128` where it is out of range.
pub open spec fn clamped(n: int) -> int {
    if n > i128::MAX {
        i128::MAX as int
    } else if n < i128::MIN {
        i128::MIN as int
    } else {
        n
    }
}

/// The sum of the two amounts, saturating at the bounds of the type.
pub fn saturating_add(a: i128, b: i128) -> (r: i128)
    ensures
        r == clamped(a + b),
        i128::MIN <= a + b <= i128::MAX ==> r == a + b,
        a + b > i128::MAX ==> r == i128::MAX,
        a + b < i128::MIN ==> r == i128::MIN,
{
    match a.checked_add(b) {
        Some(r) => r,
        None => if b > 0 {
            i128::MAX
        } else {
            i128::MIN
        },
    }
}

/// The sum of the numbers.
pub open spec fn sum(s: Seq<int>) -> int
    decreases s.len(),
{
    if s.len() == 0 {
        0
    } else {
        sum(s.drop_last()) + s.last()
    }
}

/// Adding a number at the end adds it to the sum.
pub proof fn lemma_sum_push(s: Seq<int>, n: int)
    ensures
        sum(s.push(n)) == sum(s) + n,
{
    assert(s.push(n).drop_last() =~= s);
}

/// Taking one number more adds it to the sum.
pub proof fn lemma_sum_take(s: Seq<int>, i: int)
    requires
        0 <= i < s.len(),
    ensures
        sum(s.take(i + 1)) == sum(s.take(i)) + s[i],
{
    assert(s.take(i + 1) =~= s.take(i).push(s[i]));
    lemma_sum_push(s.take(i), s[i]);
}

/// The sum of two sequences put together is the sum of their sums.
pub proof fn lemma_sum_concat(s: Seq<int>, t: Seq<int>)
    ensures
        sum(s + t) == sum(s) + sum(t),
    decreases t.len(),
{
    if t.len() == 0 {
        assert(s + t =~= s);
    } else {
        lemma_sum_concat(s, t.drop_last());
        assert((s + t).drop_last() =~= s + t.drop_last());
    }
}

/// Replacing a number changes the sum by the difference.
pub proof fn lemma_sum_update(s: Seq<int>, i: int, n: int)
    requires
        0 <= i < s.len(),
    ensures
        sum(s.update(i, n)) == sum(s) - s[i] + n,
    decreases s.len(),
{
    let t = s.update(i, n);
    if i == s.len() - 1 {
        assert(t.drop_last() =~= s.drop_last());
    } else {
        lemma_sum_update(s.drop_last(), i, n);
        assert(t.drop_last() =~= s.drop_last().update(i, n));
    }
}

/// The sum of numbers that are not negative is not negative, and no number exceeds it.
pub proof fn lemma_sum_bounds(s: Seq<int>)
    requires
        forall|i: int| 0 <= i < s.len() ==> 0 <= #[trigger] s[i],
    ensures
        0 <= sum(s),
        forall|i: int| 0 <= i < s.len() ==> #[trigger] s[i] <= sum(s),
    decreases s.len(),
{
    if s.len() > 0 {
        let rest = s.drop_last();
        assert forall|i: int| 0 <= i < rest.len() implies 0 <= #[trigger] rest[i] by {
            assert(rest[i] == s[i]);
        }
        lemma_sum_bounds(rest);
        assert forall|i: int| 0 <= i < s.len() implies #[trigger] s[i] <= sum(s) by {
            if i < rest.len() {
                assert(rest[i] == s[i]);
            }
        }
    }
}

/// Zeros add up to zero.
pub proof fn lemma_sum_zeros(s: Seq<int>)
    requires
        forall|i: int| 0 <= i < s.len() ==> 0 == #[trigger] s[i],
    ensures
        sum(s) == 0,
    decreases s.len(),
{
    if s.len() > 0 {
        let rest = s.drop_last();
        assert forall|i: int| 0 <= i < rest.len() implies 0 == #[trigger] rest[i] by {
            assert(rest[i] == s[i]);
        }
        lemma_sum_zeros(rest);
        assert(s[s.len() - 1] == 0);
    }
}

/// Where no number is negative, fewer of them add up to no more.
pub proof fn lemma_sums_in_order(s: Seq<int>, k: int)
    requires
        0 <= k <= s.len(),
        forall|i: int| 0 <= i < s.len() ==> 0 <= #[trigger] s[i],
    ensures
        0 <= sum(s.take(k)) <= sum(s),
{
    let head = s.take(k);
    let tail = s.skip(k);
    assert(head + tail =~= s);
    lemma_sum_concat(head, tail);
    assert forall|i: int| 0 <= i < head.len() implies 0 <= #[trigger] head[i] by {
        assert(head[i] == s[i]);
    }
    assert forall|i: int| 0 <= i < tail.len() implies 0 <= #[trigger] tail[i] by {
        assert(tail[i] == s[k + i]);
    }
    lemma_sum_bounds(head);
    lemma_sum_bounds(tail);
}

} // verus!
