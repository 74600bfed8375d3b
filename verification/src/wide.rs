//! Unsigned integers of 384 bits, for numbers that an `i128` cannot hold: squares, and products
//! that are divided again.
use crate::shares::share;
use vstd::prelude::*;

verus! {

/// What one limb counts up to: 2 to the power of 128.
pub open spec fn limb() -> int {
    0x1_0000000000000000_0000000000000000int
}

/// Half of a limb's bits count up to this: 2 to the power of 64.
pub const HALF: u128 = 0x1_0000_0000_0000_0000;

/// The values that the operations are defined on are below this: 2 to the power of 320.
pub open spec fn wide_bound() -> int {
    0x1_0000000000000000_0000000000000000_0000000000000000_0000000000000000_0000000000000000int
}

/// An unsigned integer in three limbs.
#[derive(Copy, Clone, Debug, PartialEq, Eq)]
pub struct Wide {
    hi: u128,
    mid: u128,
    lo: u128,
}

impl View for Wide {
    type V = int;

    closed spec fn view(&self) -> int {
        self.hi * 0x1_0000000000000000_0000000000000000_0000000000000000_0000000000000000int
            + self.mid * 0x1_0000000000000000_0000000000000000int + self.lo
    }
}

/// Adds two limbs and a carry.
fn add_limbs(a: u128, b: u128, carry: bool) -> (r: (u128, bool))
    ensures
        r.0 + (if r.1 {
            limb()
        } else {
            0
        }) == a + b + (if carry {
            1int
        } else {
            0
        }),
{
    let one: u128 = if carry {
        1
    } else {
        0
    };
    match a.checked_add(b) {
        Some(c) => match c.checked_add(one) {
            Some(d) => (d, false),
            None => (0, true),
        },
        None => (a - (u128::MAX - b) - 1 + one, true),
    }
}

/// Takes a limb and a borrow from a limb.
fn sub_limbs(a: u128, b: u128, borrow: bool) -> (r: (u128, bool))
    ensures
        r.0 - (if r.1 {
            limb()
        } else {
            0
        }) == a - b - (if borrow {
            1int
        } else {
            0
        }),
{
    let one: u128 = if borrow {
        1
    } else {
        0
    };
    if a >= b {
        if a - b >= one {
            (a - b - one, false)
        } else {
            (u128::MAX, true)
        }
    } else {
        (u128::MAX - (b - a) + 1 - one, true)
    }
}

impl Wide {
    /// No value is negative.
    pub proof fn lemma_not_negative(&self)
        ensures
            0 <= self@,
    {
    }

    /// The value of a single limb.
    pub fn new(n: u128) -> (r: Wide)
        ensures
            r@ == n,
    {
        Wide { hi: 0, mid: 0, lo: n }
    }

    /// Whether the value is zero.
    pub fn is_zero(&self) -> (r: bool)
        ensures
            r == (self@ == 0),
    {
        self.hi == 0 && self.mid == 0 && self.lo == 0
    }

    /// Whether the value is no larger than the other.
    pub fn at_most(&self, other: &Wide) -> (r: bool)
        ensures
            r == (self@ <= other@),
    {
        if self.hi != other.hi {
            self.hi < other.hi
        } else if self.mid != other.mid {
            self.mid < other.mid
        } else {
            self.lo <= other.lo
        }
    }

    /// The sum.
    pub fn plus(&self, other: &Wide) -> (r: Wide)
        requires
            self@ < wide_bound(),
            other@ < wide_bound(),
        ensures
            r@ == self@ + other@,
    {
        let (lo, c) = add_limbs(self.lo, other.lo, false);
        let (mid, d) = add_limbs(self.mid, other.mid, c);
        assert(self.hi < HALF && other.hi < HALF);
        let (hi, _) = add_limbs(self.hi, other.hi, d);
        Wide { hi, mid, lo }
    }

    /// The difference.
    pub fn minus(&self, other: &Wide) -> (r: Wide)
        requires
            other@ <= self@,
        ensures
            r@ == self@ - other@,
    {
        let (lo, c) = sub_limbs(self.lo, other.lo, false);
        let (mid, d) = sub_limbs(self.mid, other.mid, c);
        let (hi, _) = sub_limbs(self.hi, other.hi, d);
        Wide { hi, mid, lo }
    }

    /// The value times 2 to the power of 64, of a single limb.
    fn raised(n: u128) -> (r: Wide)
        ensures
            r@ == n * HALF,
    {
        let high: u128 = n / HALF;
        let low: u128 = n % HALF;
        Wide { hi: 0, mid: high, lo: low * HALF }
    }

    /// The product of two limbs.
    pub fn product(a: u128, b: u128) -> (r: Wide)
        ensures
            r@ == a * b,
            0 <= r@ < 0x1_0000000000000000_0000000000000000_0000000000000000_0000000000000000int,
    {
        let a1: u128 = a / HALF;
        let a0: u128 = a % HALF;
        let b1: u128 = b / HALF;
        let b0: u128 = b % HALF;
        proof {
            lemma_half_product(a1, b1);
            lemma_half_product(a1, b0);
            lemma_half_product(a0, b1);
            lemma_half_product(a0, b0);
        }
        let outer = Wide { hi: 0, mid: a1 * b1, lo: a0 * b0 };
        let r = outer.plus(&Wide::raised(a1 * b0)).plus(&Wide::raised(a0 * b1));
        proof {
            let (x1, x0, y1, y0) = (a1 as int, a0 as int, b1 as int, b0 as int);
            assert((x1 * HALF + x0) * (y1 * HALF + y0) == (x1 * y1)
                * 0x1_0000000000000000_0000000000000000int + (x1 * y0) * HALF + (x0 * y1) * HALF
                + x0 * y0) by (nonlinear_arith);
            assert(0 <= a * b
                < 0x1_0000000000000000_0000000000000000_0000000000000000_0000000000000000int)
                by (nonlinear_arith);
        }
        r
    }

    /// `pool * part / whole`, and what the division leaves.
    fn divided(pool: u128, part: &Wide, whole: &Wide) -> (r: (u128, Wide))
        requires
            part@ <= whole@,
            0 < whole@ < wide_bound() / 4,
        ensures
            pool * part@ == r.0 * whole@ + r.1@,
            0 <= r.1@ < whole@,
            r.0 <= pool,
        decreases pool,
    {
        if pool == 0 {
            assert(0 * part@ == 0 && 0 * whole@ == 0) by (nonlinear_arith);
            return (0, Wide::new(0));
        }
        let half: u128 = pool / 2;
        let (q, rest) = Wide::divided(half, part, whole);
        let mut quotient: u128 = 2 * q;
        let mut left: Wide = rest.plus(&rest);
        proof {
            part.lemma_not_negative();
            assert(2 * half * part@ == (2 * q) * whole@ + 2 * rest@) by (nonlinear_arith)
                requires
                    half * part@ == q * whole@ + rest@,
            ;
        }
        if pool % 2 == 1 {
            left = left.plus(part);
            assert((2 * half + 1) * part@ == 2 * half * part@ + part@) by (nonlinear_arith);
        }
        assert(pool * part@ == quotient * whole@ + left@);
        if whole.at_most(&left) {
            left = left.minus(whole);
            proof {
                lemma_one_more(pool as int, part@, quotient as int, whole@, left@ + whole@);
            }
            quotient = quotient + 1;
            if whole.at_most(&left) {
                left = left.minus(whole);
                proof {
                    lemma_one_more(pool as int, part@, quotient as int, whole@, left@ + whole@);
                }
                quotient = quotient + 1;
            }
        }
        (quotient, left)
    }

    /// The share of the pool for `part` out of `whole`.
    pub fn share_of(pool: u128, part: &Wide, whole: &Wide) -> (r: u128)
        requires
            part@ <= whole@,
            0 < whole@ < wide_bound() / 4,
        ensures
            r == share(pool as int, part@, whole@),
            r * whole@ <= pool * part@,
            pool * part@ < (r + 1) * whole@,
            r <= pool,
    {
        let (q, rest) = Wide::divided(pool, part, whole);
        proof {
            assert((q + 1) * whole@ == q * whole@ + whole@) by (nonlinear_arith);
            vstd::arithmetic::div_mod::lemma_fundamental_div_mod_converse(
                pool * part@,
                whole@,
                q as int,
                rest@,
            );
        }
        q
    }
}

/// One more of the whole fits, as long as it is there to be taken; the quotient stays within the
/// pool.
proof fn lemma_one_more(pool: int, part: int, quotient: int, whole: int, left: int)
    requires
        pool * part == quotient * whole + left,
        part <= whole,
        0 < whole <= left,
        0 <= pool,
    ensures
        pool * part == (quotient + 1) * whole + (left - whole),
        quotient + 1 <= pool,
{
    assert((quotient + 1) * whole == quotient * whole + whole) by (nonlinear_arith);
    assert(quotient + 1 <= pool) by (nonlinear_arith)
        requires
            pool * part == (quotient + 1) * whole + (left - whole),
            part <= whole,
            0 < whole <= left,
            0 <= pool,
    {
        assert(pool * part <= pool * whole);
        assert((quotient + 1) * whole <= pool * whole);
    }
}

/// The product of two halves fits in a limb.
proof fn lemma_half_product(x: u128, y: u128)
    requires
        x < HALF,
        y < HALF,
    ensures
        0 <= x * y <= u128::MAX,
{
    assert(x * y <= (HALF - 1) * (HALF - 1) && 0 <= x * y) by (nonlinear_arith)
        requires
            0 <= x <= HALF - 1,
            0 <= y <= HALF - 1,
    ;
}

} // verus!
