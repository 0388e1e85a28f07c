//! Single-precision numbers, computed in integer arithmetic.
//!
//! [`Single`] holds the 32-bit interchange pattern of a number (one sign bit,
//! eight exponent bits, 23 fraction bits) and gives it the arithmetic of the
//! binary32 format: every operation returns the exact result rounded to the
//! nearest number, with ties going to the even one. A result that is not a
//! number is always the same pattern, [`NAN`].
use vstd::arithmetic::div_mod::lemma_fundamental_div_mod;
use vstd::arithmetic::power2::{
    lemma_pow2_adds, lemma_pow2_pos, lemma_pow2_strictly_increases, lemma_pow2_unfold, pow2,
};
use vstd::bits::lemma_u64_shl_is_mul;
use vstd::prelude::*;

use vstd::std_specs::ops::{AddSpecImpl, DivSpecImpl, MulSpecImpl, SubSpecImpl};

use crate::grid::{
    doubled_midpoint, is_nearest, is_nearest_root, lemma_compose, lemma_exact, lemma_increasing,
    lemma_nearest_root_unique, lemma_nearest_unique, lemma_parts, lemma_step, lemma_zero, magnitude,
    nearest, nearest_root, passes, root_passes, scale, significand, BINADE, INFINITY,
};
use crate::rounding::{lemma_leading_zeros, lemma_whole_shift, located, round, whole};

verus! {

/// The sign bit.
pub const SIGN: u32 = 0x8000_0000;

/// The pattern of every result that is not a number.
pub const NAN: u32 = 0x7fc0_0000;

/// A number of the binary32 format.
#[derive(Clone, Copy, Debug)]
pub struct Single {
    /// Sign, exponent and fraction, from the top bit down.
    pub bits: u32,
}

impl Single {
    /// The number with the given pattern.
    #[verifier::allow_in_spec]
    pub fn from_bits(bits: u32) -> Single
        returns
            (Single { bits }),
    {
        Single { bits }
    }

    /// The pattern of the number.
    #[verifier::allow_in_spec]
    pub fn to_bits(self) -> u32
        returns
            self.bits,
    {
        self.bits
    }

    /// Whether the sign bit is set.
    pub open spec fn negative(self) -> bool {
        self.bits >= SIGN
    }

    /// The pattern without its sign bit.
    pub open spec fn pattern(self) -> nat {
        (self.bits % SIGN) as nat
    }

    pub open spec fn is_nan(self) -> bool {
        self.pattern() > INFINITY
    }

    pub open spec fn is_infinite(self) -> bool {
        self.pattern() == INFINITY
    }

    pub open spec fn is_finite(self) -> bool {
        self.pattern() < INFINITY
    }

    /// Whether the number is zero, of either sign.
    pub open spec fn is_zero(self) -> bool {
        self.pattern() == 0
    }

    /// The number in units of the smallest positive one. Infinity counts as
    /// the power of two that follows the largest finite number.
    pub open spec fn value(self) -> int {
        if self.negative() {
            -(magnitude(self.pattern()) as int)
        } else {
            magnitude(self.pattern()) as int
        }
    }

    /// The exact sum, rounded. A sum of zero is positive unless both terms are
    /// negative.
    #[verifier::opaque]
    pub open spec fn spec_add(self, rhs: Single) -> Single {
        if self.is_nan() || rhs.is_nan() {
            Single { bits: NAN }
        } else if self.is_infinite() && rhs.is_infinite() {
            if self.bits == rhs.bits {
                self
            } else {
                Single { bits: NAN }
            }
        } else if self.is_infinite() {
            self
        } else if rhs.is_infinite() {
            rhs
        } else if self.value() + rhs.value() == 0 {
            signed(self.negative() && rhs.negative(), 0)
        } else {
            rounded(self.value() + rhs.value())
        }
    }

    /// The sum with the opposite.
    pub open spec fn spec_sub(self, rhs: Single) -> Single {
        self.spec_add(rhs.opposite())
    }

    /// The number with its sign bit flipped.
    pub open spec fn opposite(self) -> Single {
        signed(!self.negative(), self.pattern())
    }

    /// The exact product, rounded.
    #[verifier::opaque]
    pub open spec fn spec_mul(self, rhs: Single) -> Single {
        let negative = self.negative() != rhs.negative();
        if self.is_nan() || rhs.is_nan() {
            Single { bits: NAN }
        } else if self.is_infinite() && rhs.is_zero() || self.is_zero() && rhs.is_infinite() {
            Single { bits: NAN }
        } else if self.is_infinite() || rhs.is_infinite() {
            signed(negative, INFINITY as nat)
        } else {
            signed(
                negative,
                nearest(magnitude(self.pattern()) * magnitude(rhs.pattern()), pow2(149)),
            )
        }
    }

    /// The quotient, under the name by which `/` finds it in contracts.
    #[verifier::inline]
    pub open spec fn spec_euclidean_or_real_div(self, rhs: Single) -> Single {
        self.spec_div(rhs)
    }

    /// The exact quotient, rounded.
    #[verifier::opaque]
    pub open spec fn spec_div(self, rhs: Single) -> Single {
        let negative = self.negative() != rhs.negative();
        if self.is_nan() || rhs.is_nan() {
            Single { bits: NAN }
        } else if self.is_infinite() && rhs.is_infinite() || self.is_zero() && rhs.is_zero() {
            Single { bits: NAN }
        } else if self.is_infinite() || rhs.is_zero() {
            signed(negative, INFINITY as nat)
        } else if rhs.is_infinite() {
            signed(negative, 0)
        } else {
            signed(
                negative,
                nearest(magnitude(self.pattern()) * pow2(149), magnitude(rhs.pattern())),
            )
        }
    }
}

/// The number with the given sign and pattern.
pub open spec fn signed(negative: bool, m: nat) -> Single {
    Single {
        bits: if negative {
            (m + SIGN) as u32
        } else {
            m as u32
        },
    }
}

/// The number nearest to an integer.
pub open spec fn rounded(x: int) -> Single {
    if x < 0 {
        signed(true, nearest((-x) as nat, 1))
    } else {
        signed(false, nearest(x as nat, 1))
    }
}

/// Splits a finite magnitude into its scale and its significand.
fn split(m: u32) -> (r: (u32, u64))
    requires
        m < INFINITY,
    ensures
        r.0 == scale(m as nat),
        r.1 == significand(m as nat),
        r.0 <= 253,
        r.1 < 2 * BINADE,
        r.0 == 0 || r.1 >= BINADE,
        m > 0 ==> r.1 > 0,
        magnitude(m as nat) == r.1 * pow2(r.0 as nat),
{
    let s: u32 = if m < 2 * BINADE {
        0
    } else {
        m / BINADE - 1
    };
    proof {
        lemma_parts(m as nat);
    }
    (s, (m - s * BINADE) as u64)
}

/// A smaller pattern has no larger scale.
proof fn lemma_scale_ordered(a: nat, b: nat)
    requires
        a <= b,
    ensures
        scale(a) <= scale(b),
{
    if a >= 2 * BINADE {
        assert(a / (BINADE as nat) <= b / (BINADE as nat));
    }
}

/// A significand shifted left by at most 38 bits stays below 2 to the 62.
proof fn lemma_shifted(q: u64, c: u64)
    requires
        q < 2 * BINADE,
        c <= 38,
    ensures
        q << c == q * pow2(c as nat),
        q * pow2(c as nat) < 0x4000_0000_0000_0000,
        q * pow2(c as nat) >= q,
{
    assert(pow2(38) == 0x40_0000_0000) by {
        vstd::arithmetic::power2::lemma2_to64_rest();
    }
    if c < 38 {
        lemma_pow2_strictly_increases(c as nat, 38);
    }
    lemma_pow2_pos(c as nat);
    assert(q * pow2(c as nat) <= 0xff_ffff * 0x40_0000_0000 && q * pow2(c as nat) >= q)
        by (nonlinear_arith)
        requires
            q <= 0xff_ffff,
            1 <= pow2(c as nat) <= 0x40_0000_0000,
    ;
    lemma_u64_shl_is_mul(q, c);
}

/// Two terms brought to the scale of the smaller one.
proof fn lemma_aligned(sa: nat, qa: nat, sb: nat, qb: nat)
    requires
        sb <= sa,
    ensures
        (qa * pow2((sa - sb) as nat) + qb) * whole(sb as int) == qa * pow2(sa) + qb * pow2(sb),
        (qa * pow2((sa - sb) as nat) - qb) * whole(sb as int) == qa * pow2(sa) - qb * pow2(sb),
{
    let g = pow2((sa - sb) as nat);
    let p = pow2(sb);
    assert(p == whole(sb as int)) by {
        vstd::arithmetic::power2::lemma2_to64();
    }
    lemma_pow2_adds((sa - sb) as nat, sb);
    assert((qa * g + qb) * p == qa * (g * p) + qb * p && (qa * g - qb) * p == qa * (g * p) - qb * p)
        by (nonlinear_arith);
}

/// A term far below the other is less than one unit, 15 bits down from it.
proof fn lemma_distant(sa: nat, qa: nat, sb: nat, qb: nat)
    requires
        sb + 39 <= sa,
        qb < 2 * BINADE,
    ensures
        qa * pow2(15) * pow2((sa - 15) as nat) == qa * pow2(sa),
        qb * pow2(sb) < pow2((sa - 15) as nat),
        qb > 0 <==> qb * pow2(sb) > 0,
{
    let p = pow2(sb);
    lemma_pow2_adds(15, (sa - 15) as nat);
    assert(qa * pow2(15) * pow2((sa - 15) as nat) == qa * pow2(sa)) by (nonlinear_arith)
        requires
            pow2(15) * pow2((sa - 15) as nat) == pow2(sa),
    ;
    lemma_pow2_pos(sb);
    lemma_pow2_adds(24, sb);
    if sb + 24 < sa - 15 {
        lemma_pow2_strictly_increases(sb + 24, (sa - 15) as nat);
    }
    assert(pow2(24) == 0x100_0000) by {
        vstd::arithmetic::power2::lemma2_to64();
    }
    assert(qb * p < 0x100_0000 * p && (qb > 0 <==> qb * p > 0)) by (nonlinear_arith)
        requires
            qb < 0x100_0000,
            p > 0,
    ;
}

/// Rounds the sum of two magnitudes, or their difference, the larger one first.
fn combine(a: u32, b: u32, subtract: bool) -> (m: u32)
    requires
        b <= a < INFINITY,
        a > 0,
        subtract ==> b < a,
    ensures
        is_nearest(
            if subtract {
                (magnitude(a as nat) - magnitude(b as nat)) as nat
            } else {
                magnitude(a as nat) + magnitude(b as nat)
            },
            1,
            m as nat,
        ),
{
    let (sa, qa) = split(a);
    let (sb, qb) = split(b);
    proof {
        lemma_scale_ordered(b as nat, a as nat);
        lemma_increasing(b as nat, a as nat);
    }
    let ghost n = if subtract {
        (magnitude(a as nat) - magnitude(b as nat)) as nat
    } else {
        magnitude(a as nat) + magnitude(b as nat)
    };
    let gap: u32 = sa - sb;
    if gap <= 38 {
        proof {
            lemma_aligned(sa as nat, qa as nat, sb as nat, qb as nat);
            lemma_shifted(qa, gap as u64);
            let g = qa * pow2(gap as nat);
            assert(subtract ==> g > qb) by (nonlinear_arith)
                requires
                    subtract ==> (g - qb) * whole(sb as int) > 0,
                    whole(sb as int) >= 0,
            ;
        }
        let wide: u64 = qa << gap as u64;
        let sig: u64 = if subtract {
            wide - qb
        } else {
            wide + qb
        };
        proof {
            let w = whole(sb as int);
            assert(n == sig * w);
            assert(whole(-(sb as int)) == 1);
            assert(n * 1 == sig * (1 * w));
        }
        round(sig, sb as i32, false, Ghost(n), Ghost(1))
    } else {
        proof {
            lemma_distant(sa as nat, qa as nat, sb as nat, qb as nat);
            lemma_shifted(qa, 15);
            let w = qa * pow2(15);
            let p = pow2((sa - 15) as nat);
            assert((w + 1) * p == w * p + p && (w - 1) * p == w * p - p) by (nonlinear_arith);
            assert(pow2(15) == 0x8000) by {
                vstd::arithmetic::power2::lemma2_to64();
            }
        }
        let wide: u64 = qa << 15u64;
        let sticky: bool = qb != 0;
        let sig: u64 = if subtract && sticky {
            wide - 1
        } else {
            wide
        };
        proof {
            let p = pow2((sa - 15) as nat);
            assert(1 * whole(sa - 15) == p);
            assert(whole(-(sa - 15)) == 1);
            assert(sig + 1 == wide + 1 || sig + 1 == wide);
            assert(located(n, 1, sig as nat, sa - 15, sticky));
        }
        round(sig, sa as i32 - 15, sticky, Ghost(n), Ghost(1))
    }
}

/// Puts a sign before a magnitude.
fn with_sign(negative: bool, m: u32) -> (r: Single)
    requires
        m < SIGN,
    ensures
        r == signed(negative, m as nat),
{
    Single {
        bits: if negative {
            m + SIGN
        } else {
            m
        },
    }
}

impl Single {
    /// The number with its sign bit flipped.
    pub fn neg(self) -> (r: Single)
        ensures
            r == self.opposite(),
    {
        with_sign(self.bits < SIGN, self.bits % SIGN)
    }
}

impl core::ops::Add for Single {
    type Output = Single;

    fn add(self, rhs: Single) -> (r: Single) {
        proof {
            reveal(Single::spec_add);
        }
        let a: u32 = self.bits % SIGN;
        let b: u32 = rhs.bits % SIGN;
        let a_negative: bool = self.bits >= SIGN;
        let b_negative: bool = rhs.bits >= SIGN;
        if a > INFINITY || b > INFINITY {
            return Single { bits: NAN };
        }
        if a == INFINITY {
            return if b == INFINITY && a_negative != b_negative {
                Single { bits: NAN }
            } else {
                self
            };
        }
        if b == INFINITY {
            return rhs;
        }
        proof {
            lemma_increasing(0, a as nat);
            lemma_increasing(0, b as nat);
            if a < b {
                lemma_increasing(a as nat, b as nat);
            } else {
                lemma_increasing(b as nat, a as nat);
            }
            lemma_zero(0);
        }
        let ghost exact = self.value() + rhs.value();
        if a == b && (a == 0 || a_negative != b_negative) {
            return with_sign(a_negative && b_negative, 0);
        }
        let (large, small, negative) = if a >= b {
            (a, b, a_negative)
        } else {
            (b, a, b_negative)
        };
        let m: u32 = combine(large, small, a_negative != b_negative);
        proof {
            let n = if exact < 0 {
                (-exact) as nat
            } else {
                exact as nat
            };
            lemma_nearest_unique(n, 1, m as nat);
        }
        with_sign(negative, m)
    }
}

impl AddSpecImpl for Single {
    open spec fn obeys_add_spec() -> bool {
        true
    }

    open spec fn add_req(self, rhs: Single) -> bool {
        true
    }

    open spec fn add_spec(self, rhs: Single) -> Single {
        self.spec_add(rhs)
    }
}

impl core::ops::Sub for Single {
    type Output = Single;

    fn sub(self, rhs: Single) -> (r: Single) {
        self + rhs.neg()
    }
}

impl SubSpecImpl for Single {
    open spec fn obeys_sub_spec() -> bool {
        true
    }

    open spec fn sub_req(self, rhs: Single) -> bool {
        true
    }

    open spec fn sub_spec(self, rhs: Single) -> Single {
        self.spec_sub(rhs)
    }
}

/// Rounds the product of two positive magnitudes.
fn multiply(a: u32, b: u32) -> (m: u32)
    requires
        0 < a < INFINITY,
        0 < b < INFINITY,
    ensures
        is_nearest(magnitude(a as nat) * magnitude(b as nat), pow2(149), m as nat),
{
    let (sa, qa) = split(a);
    let (sb, qb) = split(b);
    let ghost n = magnitude(a as nat) * magnitude(b as nat);
    let k: i32 = sa as i32 + sb as i32 - 149;
    proof {
        assert(0 < qa * qb <= 0xff_ffff * 0xff_ffff) by (nonlinear_arith)
            requires
                0 < qa <= 0xff_ffff,
                0 < qb <= 0xff_ffff,
        ;
        let e = pow2(149);
        let pa = pow2(sa as nat);
        let pb = pow2(sb as nat);
        lemma_pow2_pos(149);
        lemma_pow2_adds(sa as nat, sb as nat);
        lemma_whole_shift(k as int, 149);
        let sig = qa * qb;
        assert(n * whole(-k) == sig * (e * whole(k as int))) by (nonlinear_arith)
            requires
                n == (qa * pa) * (qb * pb),
                sig == qa * qb,
                pa * pb * whole(-k) == e * whole(k as int),
        ;
    }
    round(qa * qb, k, false, Ghost(n), Ghost(pow2(149)))
}

impl core::ops::Mul for Single {
    type Output = Single;

    fn mul(self, rhs: Single) -> (r: Single) {
        proof {
            reveal(Single::spec_mul);
        }
        let a: u32 = self.bits % SIGN;
        let b: u32 = rhs.bits % SIGN;
        let negative: bool = (self.bits >= SIGN) != (rhs.bits >= SIGN);
        if a > INFINITY || b > INFINITY {
            return Single { bits: NAN };
        }
        if a == INFINITY || b == INFINITY {
            return if a == 0 || b == 0 {
                Single { bits: NAN }
            } else {
                with_sign(negative, INFINITY)
            };
        }
        proof {
            lemma_pow2_pos(149);
            lemma_zero(0);
        }
        if a == 0 || b == 0 {
            proof {
                vstd::arithmetic::mul::lemma_mul_by_zero_is_zero(magnitude(a as nat) as int);
                vstd::arithmetic::mul::lemma_mul_by_zero_is_zero(magnitude(b as nat) as int);
                vstd::arithmetic::mul::lemma_mul_by_zero_is_zero(pow2(149) as int);
                lemma_exact(0, pow2(149), 0);
            }
            return with_sign(negative, 0);
        }
        let m: u32 = multiply(a, b);
        proof {
            lemma_nearest_unique(
                magnitude(a as nat) * magnitude(b as nat),
                pow2(149),
                m as nat,
            );
        }
        with_sign(negative, m)
    }
}

impl MulSpecImpl for Single {
    open spec fn obeys_mul_spec() -> bool {
        true
    }

    open spec fn mul_req(self, rhs: Single) -> bool {
        true
    }

    open spec fn mul_spec(self, rhs: Single) -> Single {
        self.spec_mul(rhs)
    }
}

/// Moves a significand up to the second bit from the top.
fn normalize(q: u64) -> (r: (u64, u32))
    requires
        0 < q < 2 * BINADE,
    ensures
        39 <= r.1 <= 62,
        r.0 == q * pow2(r.1 as nat),
        0x4000_0000_0000_0000 <= r.0 < 0x8000_0000_0000_0000,
{
    let zeros: u32 = q.leading_zeros();
    proof {
        lemma_leading_zeros(q);
        let top = (63 - zeros) as nat;
        let z = (zeros - 1) as nat;
        assert(pow2(24) == 0x100_0000 && pow2(62) == 0x4000_0000_0000_0000 && pow2(63)
            == 0x8000_0000_0000_0000) by {
            vstd::arithmetic::power2::lemma2_to64();
            vstd::arithmetic::power2::lemma2_to64_rest();
        }
        if top > 24 {
            lemma_pow2_strictly_increases(24, top);
        }
        lemma_pow2_pos(z);
        lemma_pow2_adds(top, z);
        lemma_pow2_adds(top + 1, z);
        assert(pow2(top) * pow2(z) <= q * pow2(z) < pow2(top + 1) * pow2(z)) by (nonlinear_arith)
            requires
                pow2(top) <= q < pow2(top + 1),
                pow2(z) > 0,
        ;
        lemma_u64_shl_is_mul(q, z as u64);
    }
    (q << (zeros - 1) as u64, zeros - 1)
}

/// Rounds the quotient of two positive magnitudes.
fn divide(a: u32, b: u32) -> (m: u32)
    requires
        0 < a < INFINITY,
        0 < b < INFINITY,
    ensures
        is_nearest(magnitude(a as nat) * pow2(149), magnitude(b as nat), m as nat),
{
    let (sa, qa) = split(a);
    let (sb, qb) = split(b);
    let ghost n = magnitude(a as nat) * pow2(149);
    let ghost d = magnitude(b as nat);
    let (wide, z) = normalize(qa);
    let sig: u64 = wide / qb;
    let rem: u64 = wide % qb;
    let k: i32 = sa as i32 + 149 - sb as i32 - z as i32;
    proof {
        lemma_fundamental_div_mod(wide as int, qb as int);
        assert(0x40_0000_0000 <= sig <= wide) by (nonlinear_arith)
            requires
                wide == qb * sig + rem,
                0 <= rem < qb,
                0 < qb <= 0x100_0000,
                0x4000_0000_0000_0000 <= wide,
                sig >= 0,
        ;
        let pa = pow2(sa as nat);
        let pb = pow2(sb as nat);
        let pz = pow2(z as nat);
        let e = pow2(149);
        let u = pb * whole(k as int);
        lemma_pow2_pos(sb as nat);
        lemma_pow2_pos(k as nat);
        lemma_pow2_adds(sa as nat, 149);
        lemma_pow2_adds(sb as nat, z as nat);
        lemma_whole_shift(k as int, (sb + z) as nat);
        assert(n * whole(-k) == wide * u) by (nonlinear_arith)
            requires
                n == (qa * pa) * e,
                wide == qa * pz,
                u == pb * whole(k as int),
                pa * e * whole(-k) == pb * pz * whole(k as int),
        ;
        assert(d > 0 && u > 0 && d * whole(k as int) == qb * u) by (nonlinear_arith)
            requires
                d == qb * pb,
                u == pb * whole(k as int),
                pb > 0,
                qb > 0,
                whole(k as int) > 0,
        ;
        let unit = qb * u;
        assert(rem == 0 ==> wide * u == sig * unit) by (nonlinear_arith)
            requires
                wide == qb * sig + rem,
                unit == qb * u,
        ;
        assert(rem > 0 ==> sig * unit < wide * u) by (nonlinear_arith)
            requires
                wide == qb * sig + rem,
                unit == qb * u,
                u > 0,
        ;
        assert(wide * u < (sig + 1) * unit) by (nonlinear_arith)
            requires
                wide == qb * sig + rem,
                rem < qb,
                unit == qb * u,
                u > 0,
        ;
    }
    round(sig, k, rem != 0, Ghost(n), Ghost(d))
}

impl core::ops::Div for Single {
    type Output = Single;

    fn div(self, rhs: Single) -> (r: Single) {
        proof {
            reveal(Single::spec_div);
        }
        let a: u32 = self.bits % SIGN;
        let b: u32 = rhs.bits % SIGN;
        let negative: bool = (self.bits >= SIGN) != (rhs.bits >= SIGN);
        if a > INFINITY || b > INFINITY {
            return Single { bits: NAN };
        }
        if a == INFINITY {
            return if b == INFINITY {
                Single { bits: NAN }
            } else {
                with_sign(negative, INFINITY)
            };
        }
        if b == 0 {
            return if a == 0 {
                Single { bits: NAN }
            } else {
                with_sign(negative, INFINITY)
            };
        }
        if b == INFINITY {
            return with_sign(negative, 0);
        }
        proof {
            lemma_zero(b as nat);
        }
        if a == 0 {
            proof {
                vstd::arithmetic::mul::lemma_mul_by_zero_is_zero(pow2(149) as int);
                vstd::arithmetic::mul::lemma_mul_by_zero_is_zero(magnitude(b as nat) as int);
                lemma_exact(0, magnitude(b as nat), 0);
            }
            return with_sign(negative, 0);
        }
        let m: u32 = divide(a, b);
        proof {
            lemma_nearest_unique(magnitude(a as nat) * pow2(149), magnitude(b as nat), m as nat);
        }
        with_sign(negative, m)
    }
}

impl DivSpecImpl for Single {
    open spec fn obeys_div_spec() -> bool {
        true
    }

    open spec fn div_req(self, rhs: Single) -> bool {
        true
    }

    open spec fn div_spec(self, rhs: Single) -> Single {
        self.spec_div(rhs)
    }
}

/// The whole part of a square root.
fn whole_root(n: u64) -> (r: u64)
    requires
        n < 0x8000_0000_0000_0000,
    ensures
        r * r <= n < (r + 1) * (r + 1),
        r < 0x1_0000_0000,
{
    let mut low: u64 = 0;
    let mut high: u64 = 0x1_0000_0000;
    while high - low > 1
        invariant
            low < high <= 0x1_0000_0000,
            low * low <= n < high * high,
        decreases high - low,
    {
        let middle: u64 = low + (high - low) / 2;
        assert(middle * middle <= 0xffff_ffff * 0xffff_ffff) by (nonlinear_arith)
            requires
                middle <= 0xffff_ffff,
        ;
        if middle * middle <= n {
            low = middle;
        } else {
            high = middle;
        }
    }
    low
}

/// Where the grid is coarser than the unit in which a root was located, the
/// root passes the same midpoints as the number that stands for it: the located
/// part, and half a unit more if the root is not exact.
proof fn lemma_root_passes(n: nat, k: nat, wide: nat, sig: nat, m: nat)
    requires
        n == wide * pow2(2 * k),
        sig * sig <= wide < (sig + 1) * (sig + 1),
        m <= INFINITY,
        scale(m) >= k + 1,
    ensures
        ({
            let sticky = if sig * sig == wide { 0nat } else { 1nat };
            passes((2 * sig + sticky) * pow2(k), 2, m) == root_passes(n, m)
        }),
{
    let sticky = if sig * sig == wide { 0nat } else { 1nat };
    let s = scale(m);
    let q = significand(m);
    let p = pow2(k);
    let g = pow2((s - k - 1) as nat);
    let e = (2 * q + 1) * g;
    let mid = doubled_midpoint(m);
    lemma_step(m);
    lemma_pow2_pos(k);
    lemma_pow2_adds(k, k);
    lemma_pow2_adds(k + 1, (s - k - 1) as nat);
    lemma_pow2_unfold(k + 1);
    assert(mid == 2 * e * p) by (nonlinear_arith)
        requires
            mid == 2 * (q * pow2(s)) + pow2(s),
            pow2(s) == (2 * p) * g,
            e == (2 * q + 1) * g,
    ;
    let y = 2 * sig + sticky;
    let jammed = y * p;
    assert((2 * jammed > 2 * mid <==> y > 2 * e) && (2 * jammed == 2 * mid <==> y == 2 * e))
        by (nonlinear_arith)
        requires
            jammed == y * p,
            mid == 2 * e * p,
            p > 0,
    ;
    let pp = pow2(2 * k);
    assert(pp == p * p && pp > 0) by {
        lemma_pow2_pos(2 * k);
    }
    assert(mid * mid == 4 * (e * e) * pp) by (nonlinear_arith)
        requires
            mid == 2 * e * p,
            pp == p * p,
    ;
    assert((4 * n > mid * mid <==> wide > e * e) && (4 * n == mid * mid <==> wide == e * e))
        by (nonlinear_arith)
        requires
            n == wide * pp,
            mid * mid == 4 * (e * e) * pp,
            pp > 0,
    ;
    if sig > e {
        assert(sig * sig > e * e) by (nonlinear_arith)
            requires
                sig > e,
        ;
    } else if sig < e {
        assert((sig + 1) * (sig + 1) <= e * e) by (nonlinear_arith)
            requires
                sig < e,
        ;
    }
}

/// Rounds the square root of a positive magnitude.
fn root(a: u32) -> (m: u32)
    requires
        0 < a < INFINITY,
    ensures
        is_nearest_root(magnitude(a as nat) * pow2(149), m as nat),
{
    let (s, q) = split(a);
    let ghost n = magnitude(a as nat) * pow2(149);
    let (full, z) = normalize(q);
    proof {
        lemma_pow2_unfold(z as nat);
        lemma_pow2_adds(s as nat, 149);
    }
    let odd: bool = (s + 149 - z) % 2 == 1;
    let wide: u64 = if odd {
        full / 2
    } else {
        full
    };
    let shift: u32 = if odd {
        z - 1
    } else {
        z
    };
    let k: u32 = (s + 149 - shift) / 2;
    let sig: u64 = whole_root(wide);
    let sticky: bool = sig * sig != wide;
    let ghost y: nat = 2 * sig as nat + if sticky { 1nat } else { 0nat };
    let ghost jammed: nat = y * pow2(k as nat);
    proof {
        let p = pow2(k as nat);
        lemma_pow2_pos(k as nat);
        assert(wide == q * pow2(shift as nat)) by {
            if odd {
                assert(q * pow2(z as nat) == 2 * (q * pow2(shift as nat))) by (nonlinear_arith)
                    requires
                        pow2(z as nat) == 2 * pow2(shift as nat),
                ;
            }
        }
        assert(shift + 2 * k == s + 149);
        lemma_pow2_adds(shift as nat, 2 * k as nat);
        assert(n == wide * pow2(2 * k as nat)) by (nonlinear_arith)
            requires
                n == (q * pow2(s as nat)) * pow2(149),
                pow2(s as nat) * pow2(149) == pow2(shift as nat) * pow2(2 * k as nat),
                wide == q * pow2(shift as nat),
        ;
        assert(sig >= 0x4000_0000) by (nonlinear_arith)
            requires
                wide < (sig + 1) * (sig + 1),
                wide >= 0x2000_0000_0000_0000,
                sig >= 0,
        ;
        assert(sig * (2 * p) == 2 * sig * p && (sig + 1) * (2 * p) == (2 * sig + 2) * p && (y > 2
            * sig ==> 2 * sig * p < y * p) && y * p < (2 * sig + 2) * p)
            by (nonlinear_arith)
            requires
                jammed == y * p,
                p > 0,
                y < 2 * sig + 2,
        ;
    }
    let m: u32 = round(sig, k as i32, sticky, Ghost(jammed), Ghost(2));
    proof {
        lemma_root_large(k as nat, sig as nat, y, m as nat);
        lemma_root_passes(n, k as nat, wide as nat, sig as nat, (m - 1) as nat);
        lemma_scale_ordered((m - 1) as nat, m as nat);
        lemma_root_passes(n, k as nat, wide as nat, sig as nat, m as nat);
    }
    m
}

/// What a located root rounds to has a larger scale than its unit.
proof fn lemma_root_large(k: nat, sig: nat, y: nat, m: nat)
    requires
        k < 250,
        sig >= 0x4000_0000,
        y >= 2 * sig,
        is_nearest(y * pow2(k), 2, m),
    ensures
        m > 0,
        scale((m - 1) as nat) >= k + 1,
{
    let floor = (k + 2) * BINADE as nat;
    let p = pow2(k);
    lemma_pow2_pos(k);
    lemma_pow2_unfold(k + 1);
    lemma_compose(k + 1, BINADE as nat);
    lemma_step(floor);
    if m <= floor {
        lemma_increasing(m, floor);
        lemma_increasing(m + 1, floor + 1);
        assert(doubled_midpoint(m) <= 2 * magnitude(floor + 1));
        assert(magnitude(floor + 1) == (2 * BINADE + 2) * p);
        assert(2 * (y * p) > 2 * (2 * magnitude(floor + 1))) by (nonlinear_arith)
            requires
                magnitude(floor + 1) == (2 * BINADE + 2) * p,
                y >= 0x8000_0000,
                p > 0,
        ;
        assert(passes(y * pow2(k), 2, m));
    } else {
        lemma_scale_ordered(floor, (m - 1) as nat);
    }
}

impl Single {
    /// The exact square root, rounded. Zero is its own root; other negative
    /// numbers have none.
    pub open spec fn root(self) -> Single {
        if self.is_zero() {
            self
        } else if self.is_nan() || self.negative() {
            Single { bits: NAN }
        } else if self.is_infinite() {
            self
        } else {
            signed(false, nearest_root(magnitude(self.pattern()) * pow2(149)))
        }
    }

    /// The square root.
    pub fn sqrt(self) -> (r: Single)
        ensures
            r == self.root(),
    {
        let a: u32 = self.bits % SIGN;
        if a == 0 {
            return self;
        }
        if a > INFINITY || self.bits >= SIGN {
            return Single { bits: NAN };
        }
        if a == INFINITY {
            return self;
        }
        let m: u32 = root(a);
        proof {
            lemma_nearest_root_unique(magnitude(a as nat) * pow2(149), m as nat);
        }
        with_sign(false, m)
    }

    /// Whether this number is a zero of either sign.
    pub fn vanishes(self) -> (r: bool)
        ensures
            r == self.is_zero(),
    {
        self.bits % SIGN == 0
    }

    /// Whether this number is greater than the other or equal to it. Nothing
    /// that is not a number compares.
    pub open spec fn at_least(self, rhs: Single) -> bool {
        !self.is_nan() && !rhs.is_nan() && self.value() >= rhs.value()
    }

    /// The comparison `self >= rhs`.
    pub fn ge(self, rhs: Single) -> (r: bool)
        ensures
            r == self.at_least(rhs),
    {
        let a: u32 = self.bits % SIGN;
        let b: u32 = rhs.bits % SIGN;
        if a > INFINITY || b > INFINITY {
            return false;
        }
        proof {
            lemma_zero(a as nat);
            lemma_zero(b as nat);
            if a <= b {
                lemma_increasing(a as nat, b as nat);
            } else {
                lemma_increasing(b as nat, a as nat);
            }
        }
        if self.bits < SIGN {
            rhs.bits >= SIGN || a >= b
        } else if rhs.bits < SIGN {
            a == 0 && b == 0
        } else {
            a <= b
        }
    }
}

} // verus!
