//! Double-precision readings, by their bits.
//!
//! Measurements (times, errors, distances) are computed in floating point
//! outside the library and enter it as the 64 bits of an IEEE 754 double. The
//! library never calculates with them: it stores them, hands them back and
//! compares them, and comparison is integer arithmetic on the bits.

use vstd::prelude::*;

verus! {

/// The bits of an IEEE 754 double.
#[derive(Debug, Clone, Copy, PartialEq, Eq, Structural)]
pub struct Reading(pub u64);

/// 2^63: the sign bit.
pub const SIGN: u64 = 0x8000_0000_0000_0000;

/// The bits of infinity; larger magnitudes are no numbers.
pub const INFINITY: u64 = 0x7FF0_0000_0000_0000;

impl Reading {
    /// Exponent and fraction.
    pub open spec fn magnitude(self) -> int {
        self.0 as int % 0x8000_0000_0000_0000
    }

    /// The reading is no number.
    pub open spec fn is_nan(self) -> bool {
        self.magnitude() > INFINITY
    }

    /// An integer that grows with the number; both zeros have 0.
    pub open spec fn rank(self) -> int {
        if self.0 >= SIGN {
            -self.magnitude()
        } else {
            self.magnitude()
        }
    }

    /// An integer that grows along the IEEE 754 total order: negative zero below
    /// positive zero, and the readings that are no number at the ends.
    pub open spec fn total_rank(self) -> int {
        if self.0 >= SIGN {
            -self.magnitude() - 1
        } else {
            self.magnitude()
        }
    }

    /// `self < other` as floating point has it: false where either is no number.
    pub open spec fn below(self, other: Reading) -> bool {
        !self.is_nan() && !other.is_nan() && self.rank() < other.rank()
    }

    /// `self <= other` as floating point has it.
    pub open spec fn at_most(self, other: Reading) -> bool {
        !self.is_nan() && !other.is_nan() && self.rank() <= other.rank()
    }

    fn exec_is_nan(self) -> (r: bool)
        ensures
            r == self.is_nan(),
    {
        self.0 % SIGN > INFINITY
    }

    fn exec_rank(self) -> (r: i64)
        ensures
            r == self.rank(),
    {
        let m: i64 = (self.0 % SIGN) as i64;
        if self.0 >= SIGN {
            -m
        } else {
            m
        }
    }

    /// The place of the reading in the total order.
    pub fn total_key(self) -> (r: i64)
        ensures
            r == self.total_rank(),
    {
        let m: i64 = (self.0 % SIGN) as i64;
        if self.0 >= SIGN {
            -m - 1
        } else {
            m
        }
    }

    /// The biased exponent.
    pub open spec fn exponent(self) -> int {
        self.magnitude() / 0x10_0000_0000_0000
    }

    /// The significand of a normal number, with its leading one.
    pub open spec fn significand(self) -> int {
        0x10_0000_0000_0000 + self.magnitude() % 0x10_0000_0000_0000
    }

    /// The whole part of the magnitude. A normal number is its significand times two
    /// to the exponent less 1075; a subnormal number is below one.
    pub open spec fn whole_part(self) -> int {
        let e = self.exponent();
        if e == 0 {
            0
        } else if e >= 1075 {
            self.significand() * vstd::arithmetic::power2::pow2((e - 1075) as nat)
        } else {
            self.significand() / vstd::arithmetic::power2::pow2((1075 - e) as nat) as int
        }
    }

    /// The magnitude is an integer.
    pub open spec fn is_whole(self) -> bool {
        let e = self.exponent();
        if e == 0 {
            self.magnitude() == 0
        } else if e >= 1075 {
            true
        } else {
            self.significand() % vstd::arithmetic::power2::pow2((1075 - e) as nat) as int == 0
        }
    }

    /// The number cut to an integer: zero for a negative reading or one that is no
    /// number, and the largest integer for one that is too large.
    pub open spec fn truncated(self) -> u64 {
        if self.is_nan() || self.0 >= SIGN {
            0
        } else if self.whole_part() > u64::MAX {
            u64::MAX
        } else {
            self.whole_part() as u64
        }
    }

    /// Zero or more, and small enough that whole seconds can be told apart.
    pub open spec fn is_time(self) -> bool {
        self.0 < 0x4330_0000_0000_0000
    }

    pub fn check_time(self) -> (r: bool)
        ensures
            r == self.is_time(),
    {
        self.0 < 0x4330_0000_0000_0000
    }

    /// The number cut to an integer.
    pub fn trunc(self) -> (r: u64)
        ensures
            r == self.truncated(),
            self.is_time() ==> r < 0x10_0000_0000_0000 && r == self.whole_part(),
    {
        if self.exec_is_nan() || self.0 >= SIGN {
            return 0;
        }
        let e: u64 = self.0 / 0x10_0000_0000_0000;
        let m: u64 = 0x10_0000_0000_0000 + self.0 % 0x10_0000_0000_0000;
        proof {
            vstd::arithmetic::power2::lemma2_to64();
            vstd::arithmetic::power2::lemma2_to64_rest();
        }
        if e < 1023 {
            proof {
                if e > 0 {
                    lemma_pow2_at_least(53, (1075 - e) as nat);
                    let p = vstd::arithmetic::power2::pow2((1075 - e) as nat) as int;
                    vstd::arithmetic::div_mod::lemma_basic_div(m as int, p);
                }
            }
            return 0;
        }
        if e >= 1087 {
            proof {
                lemma_pow2_at_least(12, (e - 1075) as nat);
                let p = vstd::arithmetic::power2::pow2((e - 1075) as nat) as int;
                assert(m * p >= 0x10_0000_0000_0000 * 0x1000) by (nonlinear_arith)
                    requires
                        m >= 0x10_0000_0000_0000,
                        p >= 0x1000,
                ;
            }
            return u64::MAX;
        }
        if e >= 1075 {
            let k: u64 = e - 1075;
            let p: u64 = power_of_two(k);
            proof {
                lemma_pow2_at_least(k as nat, 11);
                assert(m * p <= 0x1F_FFFF_FFFF_FFFF * 0x800) by (nonlinear_arith)
                    requires
                        m <= 0x1F_FFFF_FFFF_FFFF,
                        p <= 0x800,
                ;
            }
            return m * p;
        }
        let k: u64 = 1075 - e;
        let p: u64 = power_of_two(k);
        let q: u64 = m / p;
        proof {
            lemma_pow2_at_least(1, k as nat);
            assert(2 * q <= m) by (nonlinear_arith)
                requires
                    q == m / p,
                    p >= 2,
            ;
        }
        q
    }

    /// The reading of an integer below 2^53.
    pub open spec fn of_whole(n: int) -> Reading {
        if n <= 0 {
            Reading(0)
        } else {
            Reading(
                ((1022 + top_bit(n)) * 0x10_0000_0000_0000 + n
                    * vstd::arithmetic::power2::pow2((52 - top_bit(n)) as nat)) as u64,
            )
        }
    }

    /// The reading of an integer.
    pub fn whole(n: u64) -> (r: Reading)
        requires
            n < 0x20_0000_0000_0000,
        ensures
            r == Reading::of_whole(n as int),
            n < 0x10_0000_0000_0000 ==> r.is_time(),
    {
        if n == 0 {
            return Reading(0);
        }
        let mut e: u64 = 0;
        let mut m: u64 = n;
        proof {
            lemma_top_bit(n as int);
            vstd::arithmetic::power2::lemma2_to64();
            vstd::arithmetic::power2::lemma2_to64_rest();
            if top_bit(n as int) > 52 {
                lemma_pow2_at_least(53, top_bit(n as int));
            }
        }
        while m > 1
            invariant
                1 <= m,
                top_bit(n as int) == e + top_bit(m as int),
                top_bit(n as int) <= 52,
            decreases m,
        {
            m = m / 2;
            e = e + 1;
        }
        let p: u64 = power_of_two(52 - e);
        proof {
            lemma_scaled(n as int);
            assert(n * p < 0x20_0000_0000_0000);
        }
        Reading((1022 + e) * 0x10_0000_0000_0000 + n * p)
    }

    /// The number is above an integer.
    pub open spec fn exceeds(self, n: u64) -> bool {
        &&& !self.is_nan()
        &&& self.0 < SIGN
        &&& self.whole_part() > n || (self.whole_part() == n && !self.is_whole())
    }

    fn exec_is_whole(self) -> (r: bool)
        requires
            self.0 < 0x4340_0000_0000_0000,
        ensures
            r == self.is_whole(),
    {
        let e: u64 = self.0 / 0x10_0000_0000_0000;
        let m: u64 = 0x10_0000_0000_0000 + self.0 % 0x10_0000_0000_0000;
        proof {
            vstd::arithmetic::power2::lemma2_to64();
            vstd::arithmetic::power2::lemma2_to64_rest();
        }
        if e == 0 {
            return self.0 == 0;
        }
        if e >= 1075 {
            return true;
        }
        if e < 1023 {
            proof {
                lemma_pow2_at_least(53, (1075 - e) as nat);
                let p = vstd::arithmetic::power2::pow2((1075 - e) as nat) as int;
                vstd::arithmetic::div_mod::lemma_small_mod(m as nat, p as nat);
            }
            return false;
        }
        let k: u64 = 1075 - e;
        let p: u64 = power_of_two(k);
        proof {
            lemma_pow2_at_least(1, k as nat);
        }
        m % p == 0
    }

    /// Whether a time is above a number of seconds.
    pub fn above(self, n: u64) -> (r: bool)
        requires
            self.is_time(),
        ensures
            r == self.exceeds(n),
    {
        let w: u64 = self.trunc();
        w > n || (w == n && !self.exec_is_whole())
    }

    pub fn lt(self, other: Reading) -> (r: bool)
        ensures
            r == self.below(other),
    {
        !self.exec_is_nan() && !other.exec_is_nan() && self.exec_rank() < other.exec_rank()
    }

    pub fn le(self, other: Reading) -> (r: bool)
        ensures
            r == self.at_most(other),
    {
        !self.exec_is_nan() && !other.exec_is_nan() && self.exec_rank() <= other.exec_rank()
    }

    pub fn gt(self, other: Reading) -> (r: bool)
        ensures
            r == other.below(self),
    {
        other.lt(self)
    }
}

proof fn lemma_pow2_at_least(a: nat, b: nat)
    requires
        a <= b,
    ensures
        1 <= vstd::arithmetic::power2::pow2(a) <= vstd::arithmetic::power2::pow2(b),
{
    vstd::arithmetic::power2::lemma_pow2_pos(a);
    if a < b {
        vstd::arithmetic::power2::lemma_pow2_strictly_increases(a, b);
    }
}

/// The whole part of a time.
pub proof fn lemma_time(t: Reading)
    requires
        t.is_time(),
    ensures
        0 <= t.whole_part() < 0x10_0000_0000_0000,
{
    let e = t.exponent();
    let m = t.significand();
    if e > 0 {
        lemma_pow2_at_least(1, (1075 - e) as nat);
        vstd::arithmetic::power2::lemma2_to64();
        let p = vstd::arithmetic::power2::pow2((1075 - e) as nat) as int;
        assert(0 <= m / p && 2 * (m / p) <= m) by (nonlinear_arith)
            requires
                p >= 2,
                m >= 0,
        ;
    }
}

/// The place of the highest bit of a positive integer.
pub open spec fn top_bit(n: int) -> nat
    decreases n,
{
    if n <= 1 {
        0
    } else {
        1 + top_bit(n / 2)
    }
}

proof fn lemma_top_bit(n: int)
    requires
        n >= 1,
    ensures
        vstd::arithmetic::power2::pow2(top_bit(n)) <= n < vstd::arithmetic::power2::pow2(
            top_bit(n) + 1,
        ),
    decreases n,
{
    vstd::arithmetic::power2::lemma_pow2_unfold(top_bit(n) + 1);
    if n <= 1 {
        vstd::arithmetic::power2::lemma2_to64();
    } else {
        lemma_top_bit(n / 2);
        vstd::arithmetic::power2::lemma_pow2_unfold(top_bit(n));
    }
}

/// A positive integer below 2^53 scaled to a significand.
proof fn lemma_scaled(n: int)
    requires
        1 <= n < 0x20_0000_0000_0000,
    ensures
        top_bit(n) <= 52,
        0x10_0000_0000_0000 <= n * vstd::arithmetic::power2::pow2((52 - top_bit(n)) as nat)
            < 0x20_0000_0000_0000,
{
    let t = top_bit(n);
    lemma_top_bit(n);
    vstd::arithmetic::power2::lemma2_to64();
    vstd::arithmetic::power2::lemma2_to64_rest();
    if t > 52 {
        lemma_pow2_at_least(53, t);
    }
    let p = vstd::arithmetic::power2::pow2((52 - t) as nat) as int;
    let a = vstd::arithmetic::power2::pow2(t) as int;
    let b = vstd::arithmetic::power2::pow2(t + 1) as int;
    vstd::arithmetic::power2::lemma_pow2_adds(t, (52 - t) as nat);
    vstd::arithmetic::power2::lemma_pow2_adds(t + 1, (52 - t) as nat);
    vstd::arithmetic::power2::lemma_pow2_pos((52 - t) as nat);
    assert(a * p <= n * p < b * p) by (nonlinear_arith)
        requires
            a <= n < b,
            p > 0,
    ;
}

/// The reading of an integer is that integer.
pub proof fn law_whole_reading(n: int)
    requires
        0 <= n < 0x20_0000_0000_0000,
    ensures
        n < 0x10_0000_0000_0000 ==> Reading::of_whole(n).is_time(),
        Reading::of_whole(n).is_whole(),
        Reading::of_whole(n).whole_part() == n,
{
    if n > 0 {
        lemma_scaled(n);
        let t = top_bit(n);
        let k = (52 - t) as nat;
        let p = vstd::arithmetic::power2::pow2(k) as int;
        let r = Reading::of_whole(n);
        let s = n * p;
        assert(r.0 == (1022 + t) * 0x10_0000_0000_0000 + s);
        assert(r.magnitude() == r.0);
        assert(r.exponent() == 1023 + t);
        assert(r.significand() == s);
        vstd::arithmetic::power2::lemma_pow2_pos(k);
        if t == 52 {
            vstd::arithmetic::power2::lemma2_to64();
            assert(s == n) by (nonlinear_arith)
                requires
                    s == n * p,
                    p == 1,
            ;
            assert(s * p == s) by (nonlinear_arith)
                requires
                    p == 1,
            ;
        } else {
            vstd::arithmetic::div_mod::lemma_div_multiples_vanish(n, p);
            vstd::arithmetic::div_mod::lemma_mod_multiples_basic(n, p);
            assert(p * n == n * p) by (nonlinear_arith);
        }
    }
}

fn power_of_two(k: u64) -> (r: u64)
    requires
        k < 64,
    ensures
        r == vstd::arithmetic::power2::pow2(k as nat),
{
    proof {
        vstd::bits::lemma_u64_pow2_no_overflow(k as nat);
        vstd::bits::lemma_u64_shl_is_mul(1, k);
    }
    1u64 << k
}

/// Comparison is a strict order on the numbers, and total up to the two zeros.
pub proof fn law_reading_order(a: Reading, b: Reading, c: Reading)
    ensures
        !a.below(a),
        a.below(b) && b.below(c) ==> a.below(c),
        !a.is_nan() && !b.is_nan() ==> a.below(b) || b.below(a) || a.rank() == b.rank(),
        a.total_rank() == b.total_rank() ==> a == b,
{
}

} // verus!
