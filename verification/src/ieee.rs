//! IEEE 754 values, held as their bit patterns.
//!
//! A magnitude (a bit pattern without its sign) is an ordinal: the
//! non-negative `binary32` values, in order, are the patterns `0`, `1`, `2`
//! and so on up to infinity. The value of a magnitude is counted in *ticks* of
//! `2^-149`, the smallest positive `binary32`, so that it is a whole number.

use vstd::prelude::*;
use vstd::arithmetic::div_mod::*;
use vstd::arithmetic::power2::*;
use vstd::bits::*;

verus! {

/// The magnitude of a `binary32` infinity.
pub const INFINITE32: u32 = 0x7f80_0000;

/// The magnitude of a `binary64` infinity.
pub const INFINITE64: u64 = 0x7ff0_0000_0000_0000;

/// The value, in ticks, of the `binary32` magnitude `r`. Past the largest
/// finite magnitude it goes on as if the exponent had no limit.
pub open spec fn ticks(r: nat) -> nat {
    if r < 0x80_0000 {
        r
    } else {
        (0x80_0000 + r % 0x80_0000) * pow2((r / 0x80_0000 - 1) as nat)
    }
}

/// The magnitude `r` is what `num / den` ticks round to: no neighbour of `r`
/// is nearer, and of two that are equally near, the even pattern is taken.
pub open spec fn rounds_to(num: nat, den: nat, r: nat) -> bool {
    &&& r <= INFINITE32
    &&& r > 0 ==> {
        let low = den * (ticks((r - 1) as nat) + ticks(r));
        low < 2 * num || (low == 2 * num && r % 2 == 0)
    }
    &&& r < INFINITE32 ==> {
        let high = den * (ticks(r) + ticks(r + 1));
        2 * num < high || (2 * num == high && r % 2 == 0)
    }
}

/// The `binary32` magnitude nearest to `num / den` ticks.
pub open spec fn nearest(num: nat, den: nat) -> nat {
    choose|r: nat| rounds_to(num, den, r)
}

proof fn lemma_ticks_encoded(u: nat, n: nat)
    requires
        n <= 0x100_0000,
        u > 0 ==> n >= 0x80_0000,
    ensures
        ticks(u * 0x80_0000 + n) == n * pow2(u),
{
    let r: nat = u * 0x80_0000 + n;
    lemma2_to64();
    if n < 0x80_0000 {
        assert(n * pow2(u) == n);
    } else if n < 0x100_0000 {
        assert(r / 0x80_0000 == u + 1);
        assert(r % 0x80_0000 == n - 0x80_0000);
    } else {
        assert(r / 0x80_0000 == u + 2);
        assert(r % 0x80_0000 == 0);
        lemma_pow2_unfold(u + 1);
        assert(0x80_0000 * (2 * pow2(u)) == 0x100_0000 * pow2(u)) by (nonlinear_arith);
    }
}

/// The exponent, in ticks, of the gap between `r` and its successor.
pub open spec fn gap(r: nat) -> nat {
    if r < 0x80_0000 {
        0
    } else {
        (r / 0x80_0000 - 1) as nat
    }
}

/// Each value is a power of two below the next.
pub proof fn lemma_ticks_step(r: nat)
    ensures
        ticks(r + 1) == ticks(r) + pow2(gap(r)),
        ticks(r) < ticks(r + 1),
{
    lemma2_to64();
    lemma_pow2_pos(gap(r));
    if r < 0x80_0000 {
        lemma_ticks_encoded(0, r);
        lemma_ticks_encoded(0, r + 1);
    } else {
        let u: nat = gap(r);
        let n: nat = 0x80_0000 + r % 0x80_0000;
        assert(r == u * 0x80_0000 + n);
        lemma_ticks_encoded(u, n);
        lemma_ticks_encoded(u, n + 1);
        assert((n + 1) * pow2(u) == n * pow2(u) + pow2(u)) by (nonlinear_arith);
    }
}

/// A larger magnitude has a larger value.
pub proof fn lemma_ticks_increasing(a: nat, b: nat)
    requires
        a < b,
    ensures
        ticks(a) < ticks(b),
    decreases b,
{
    lemma_ticks_step((b - 1) as nat);
    if a < b - 1 {
        lemma_ticks_increasing(a, (b - 1) as nat);
    }
}

/// Rounding has one result.
pub proof fn lemma_rounding_is_unique(num: nat, den: nat, a: nat, b: nat)
    requires
        den > 0,
        rounds_to(num, den, a),
        rounds_to(num, den, b),
    ensures
        a == b,
{
    if a != b {
        let (lo, hi) = if a < b {
            (a, b)
        } else {
            (b, a)
        };
        let top: nat = ticks(lo) + ticks(lo + 1);
        let bottom: nat = ticks((hi - 1) as nat) + ticks(hi);
        if lo < hi - 1 {
            lemma_ticks_increasing(lo, (hi - 1) as nat);
            lemma_ticks_increasing(lo + 1, hi);
            assert(den * top < den * bottom) by (nonlinear_arith)
                requires
                    top < bottom,
                    den > 0,
            ;
        }
    }
}

/// A magnitude that rounding gives is the nearest one.
pub proof fn lemma_nearest(num: nat, den: nat, r: nat)
    requires
        den > 0,
        rounds_to(num, den, r),
    ensures
        nearest(num, den) == r,
{
    lemma_rounding_is_unique(num, den, nearest(num, den), r);
}

/// What is exactly representable rounds to itself.
pub proof fn lemma_nearest_exact(r: nat)
    requires
        r < INFINITE32,
    ensures
        rounds_to(ticks(r), 1, r),
        nearest(ticks(r), 1) == r,
{
    lemma_ticks_step(r);
    if r > 0 {
        lemma_ticks_step((r - 1) as nat);
    }
    lemma_nearest(ticks(r), 1, r);
}

/// The magnitude that encodes `n` units of `2^u` ticks is what `num / den`
/// ticks round to when `n` is the nearest count of such units.
#[verifier::spinoff_prover]
#[verifier::rlimit(50)]
proof fn lemma_rounded(num: nat, den: nat, u: nat, n: nat)
    requires
        den > 0,
        n <= 0x100_0000,
        u > 0 ==> n >= 0x80_0000,
        u > 0 && n == 0x80_0000 ==> den * (n * pow2(u)) <= num,
        2 * (den * (n * pow2(u))) - den * pow2(u) <= 2 * num,
        2 * num <= 2 * (den * (n * pow2(u))) + den * pow2(u),
        2 * (den * (n * pow2(u))) - den * pow2(u) == 2 * num ==> n % 2 == 0,
        2 * num == 2 * (den * (n * pow2(u))) + den * pow2(u) ==> n % 2 == 0,
    ensures
        u * 0x80_0000 + n <= INFINITE32 ==> rounds_to(num, den, u * 0x80_0000 + n),
        u * 0x80_0000 + n >= INFINITE32 ==> rounds_to(num, den, INFINITE32 as nat),
{
    let r: nat = u * 0x80_0000 + n;
    let p: nat = pow2(u);
    let d: nat = den * p;
    lemma_pow2_pos(u);
    assert(d > 0) by (nonlinear_arith)
        requires
            den > 0,
            p > 0,
            d == den * p,
    ;
    lemma_ticks_encoded(u, n);
    assert(den * (n * p) == n * d) by (nonlinear_arith)
        requires
            d == den * p,
    ;
    if r > 0 {
        let low: nat = den * (ticks((r - 1) as nat) + ticks(r));
        if u == 0 || n > 0x80_0000 {
            lemma_ticks_encoded(u, (n - 1) as nat);
            assert((r - 1) as nat == u * 0x80_0000 + (n - 1) as nat);
            assert(den * (((n - 1) as nat) * p + n * p) == 2 * (n * d) - d) by (nonlinear_arith)
                requires
                    d == den * p,
                    n >= 1,
            ;
            assert(low < 2 * num || (low == 2 * num && r % 2 == 0));
        } else {
            lemma_ticks_step((r - 1) as nat);
            let below: nat = ticks((r - 1) as nat);
            let here: nat = ticks(r);
            assert(den * (below + here) < 2 * (den * here)) by (nonlinear_arith)
                requires
                    below < here,
                    den > 0,
            ;
        }
    }
    lemma_ticks_step(r);
    let above: nat = ticks(r + 1);
    if n < 0x100_0000 {
        lemma_ticks_encoded(u, n + 1);
        assert(den * (n * p + (n + 1) * p) == 2 * (n * d) + d) by (nonlinear_arith)
            requires
                d == den * p,
        ;
    } else {
        assert(gap(r) == u + 1);
        lemma_pow2_unfold(u + 1);
        assert(den * (n * p + (n * p + 2 * p)) == 2 * (n * d) + 2 * d) by (nonlinear_arith)
            requires
                d == den * p,
        ;
    }
    if r > INFINITE32 {
        let i: nat = INFINITE32 as nat;
        lemma_ticks_increasing(i, r);
        if (i - 1) as nat != (r - 1) as nat {
            lemma_ticks_increasing((i - 1) as nat, (r - 1) as nat);
        }
        let here: nat = ticks((r - 1) as nat) + ticks(r);
        let there: nat = ticks((i - 1) as nat) + ticks(i);
        assert(den * there < den * here) by (nonlinear_arith)
            requires
                there < here,
                den > 0,
        ;
    }
}

/// The number of binary digits of `m`.
spec fn digits(m: nat) -> nat
    decreases m,
{
    if m == 0 {
        0
    } else {
        digits(m / 2) + 1
    }
}

proof fn lemma_digits(m: nat)
    ensures
        m < pow2(digits(m)),
        m > 0 ==> digits(m) > 0 && pow2((digits(m) - 1) as nat) <= m,
    decreases m,
{
    lemma2_to64();
    if m > 0 {
        lemma_digits(m / 2);
        lemma_pow2_unfold(digits(m));
        if m / 2 > 0 {
            lemma_pow2_unfold((digits(m) - 1) as nat);
        }
    }
}

fn count_digits(m: u64) -> (n: u32)
    ensures
        n == digits(m as nat),
        n <= 64,
{
    let mut rest: u64 = m;
    let mut n: u32 = 0;
    proof {
        lemma2_to64();
        lemma2_to64_rest();
    }
    while rest > 0
        invariant
            digits(m as nat) == n + digits(rest as nat),
            n <= 64,
            rest < pow2((64 - n) as nat),
            pow2(0) == 1,
        decreases rest,
    {
        proof {
            if n < 64 {
                lemma_pow2_unfold((64 - n) as nat);
            }
        }
        rest = rest / 2;
        n = n + 1;
    }
    n
}

/// `2^t` where `t` is positive, else 1.
pub open spec fn up(t: int) -> nat {
    if t > 0 {
        pow2(t as nat)
    } else {
        1
    }
}

/// The `binary32` magnitude nearest to `m * 2^t` ticks.
pub open spec fn nearest_scaled(m: nat, t: int) -> nat {
    nearest(m * up(t), up(-t))
}

/// `m / 2^k` to the nearest whole number, halves to the even one.
fn halve_to_even(m: u64, k: u32) -> (n: u64)
    requires
        0 < k < 64,
    ensures
        2 * (n * pow2(k as nat)) - pow2(k as nat) <= 2 * m,
        2 * m <= 2 * (n * pow2(k as nat)) + pow2(k as nat),
        2 * (n * pow2(k as nat)) - pow2(k as nat) == 2 * m ==> n % 2 == 0,
        2 * m == 2 * (n * pow2(k as nat)) + pow2(k as nat) ==> n % 2 == 0,
        n == m as nat / pow2(k as nat) || n == m as nat / pow2(k as nat) + 1,
{
    let ghost a: nat = pow2(k as nat);
    proof {
        lemma_u64_pow2_no_overflow(k as nat);
        lemma_u64_shl_is_mul(1, k as u64);
        lemma_pow2_unfold(k as nat);
    }
    let p: u64 = 1u64 << (k as u64);
    assert(p == a);
    let q: u64 = m / p;
    let rest: u64 = m % p;
    assert(m == q * a + rest) by (nonlinear_arith)
        requires
            a == p,
            a > 0,
            q == m / p,
            rest == m % p,
    ;
    assert(rest < a);
    assert(q <= m / 2) by (nonlinear_arith)
        requires
            m == q * a + rest,
            a >= 2,
            rest >= 0,
            q >= 0,
    ;
    if rest < p - rest || (rest == p - rest && q % 2 == 0) {
        q
    } else {
        assert((q + 1) * a == q * a + a) by (nonlinear_arith);
        q + 1
    }
}

/// Rounds `m * 2^t` ticks to the nearest `binary32` magnitude.
#[verifier::spinoff_prover]
#[verifier::rlimit(50)]
fn round_scaled(m: u64, t: i32) -> (r: u32)
    requires
        m < 0x40_0000_0000_0000,
        -2000 <= t <= 2000,
    ensures
        rounds_to(m as nat * up(t as int), up(-t), r as nat),
        r == nearest_scaled(m as nat, t as int),
{
    let ghost num: nat = m as nat * up(t as int);
    let ghost den: nat = up(-t);
    let ghost s: nat = up(t as int);
    proof {
        lemma2_to64();
        lemma2_to64_rest();
        if t > 0 {
            lemma_pow2_pos(t as nat);
        }
        if t < 0 {
            lemma_pow2_pos((-t) as nat);
        }
        lemma_digits(m as nat);
    }
    if m == 0 {
        proof {
            assert(ticks(0) == 0 && ticks(1) == 1);
            assert(den * (ticks(0) + ticks(1)) == den) by (nonlinear_arith)
                requires
                    ticks(0) + ticks(1) == 1,
            ;
            assert(0 * s == 0);
            lemma_nearest(num, den, 0);
        }
        return 0;
    }
    let len: i32 = count_digits(m) as i32;
    assert(len <= 54) by {
        if len > 54 {
            if len > 55 {
                lemma_pow2_strictly_increases(54, (len - 1) as nat);
            }
        }
    }
    let u: i32 = if len + t > 24 {
        len + t - 24
    } else {
        0
    };
    let n: u64;
    if t >= u {
        let k: u32 = (t - u) as u32;
        proof {
            lemma_pow2_adds(len as nat, k as nat);
            if len + k < 24 {
                lemma_pow2_strictly_increases((len + k) as nat, 24);
            }
            lemma_pow2_pos(k as nat);
            let a: nat = pow2(k as nat);
            let b: nat = pow2(len as nat);
            assert(m * a < b * a) by (nonlinear_arith)
                requires
                    m < b,
                    a > 0,
            ;
            lemma_u64_shl_is_mul(m, k as u64);
        }
        n = m << (k as u64);
        proof {
            lemma_pow2_adds(k as nat, u as nat);
            let a: nat = pow2(k as nat);
            let p: nat = pow2(u as nat);
            assert((m * a) * p == m * (a * p)) by (nonlinear_arith);
            assert(num == n * p);
            if u > 0 {
                lemma_pow2_adds((len - 1) as nat, k as nat);
                let c: nat = pow2((len - 1) as nat);
                assert(c * a <= m * a) by (nonlinear_arith)
                    requires
                        c <= m,
                ;
            }
            lemma_pow2_pos(u as nat);
            lemma_rounded(num, den, u as nat, n as nat);
        }
    } else {
        let k: u32 = (u - t) as u32;
        let ghost a: nat = pow2(k as nat);
        let ghost p: nat = pow2(u as nat);
        proof {
            // a unit of 2^u ticks, over the common denominator
            if t > 0 {
                lemma_pow2_adds(k as nat, t as nat);
            } else {
                lemma_pow2_adds((-t) as nat, u as nat);
            }
            assert(den * p == a * s);
        }
        if k >= 64 {
            n = 0;
            proof {
                if k > 64 {
                    lemma_pow2_strictly_increases(64, k as nat);
                }
                assert(u == 0);
                lemma_rounded(num, den, 0, 0);
            }
        } else {
            n = halve_to_even(m, k);
            proof {
                let w: int = n * a;
                assert(den * (n * p) == w * s) by (nonlinear_arith)
                    requires
                        den * p == a * s,
                        w == n * a,
                ;
                assert(2 * (w * s) - a * s <= 2 * num && 2 * num <= 2 * (w * s) + a * s) by (nonlinear_arith)
                    requires
                        num == m * s,
                        s > 0,
                        2 * w - a <= 2 * m,
                        2 * m <= 2 * w + a,
                ;
                assert(2 * (w * s) - a * s == 2 * num ==> 2 * w - a == 2 * m) by (nonlinear_arith)
                    requires
                        num == m * s,
                        s > 0,
                ;
                assert(2 * num == 2 * (w * s) + a * s ==> 2 * m == 2 * w + a) by (nonlinear_arith)
                    requires
                        num == m * s,
                        s > 0,
                ;
                lemma_pow2_pos(k as nat);
                lemma_pow2_adds(k as nat, 24);
                if len < k + 24 {
                    lemma_pow2_strictly_increases(len as nat, (k + 24) as nat);
                }
                assert(m as nat / a < 0x100_0000) by (nonlinear_arith)
                    requires
                        m < a * 0x100_0000,
                        a > 0,
                ;
                if u > 0 {
                    assert(len - 1 == k + 23);
                    lemma_pow2_adds(k as nat, 23);
                    assert(m as nat / a >= 0x80_0000) by (nonlinear_arith)
                        requires
                            m >= a * 0x80_0000,
                            a > 0,
                    ;
                    if n == 0x80_0000 {
                        assert(w * s <= num) by (nonlinear_arith)
                            requires
                                w <= m,
                                num == m * s,
                                s > 0,
                        ;
                    }
                }
                lemma_rounded(num, den, u as nat, n as nat);
            }
        }
    }
    let bits: u64 = (u as u64) * 0x80_0000 + n;
    proof {
        lemma_nearest(
            num,
            den,
            if bits >= INFINITE32 {
                INFINITE32 as nat
            } else {
                bits as nat
            },
        );
    }
    if bits >= INFINITE32 as u64 {
        INFINITE32
    } else {
        bits as u32
    }
}

/// Rounds `k / 127` to the nearest `binary32` magnitude.
#[verifier::spinoff_prover]
#[verifier::rlimit(50)]
fn round_over_127(k: u32) -> (r: u32)
    requires
        k <= 128,
    ensures
        rounds_to(k as nat * pow2(149), 127, r as nat),
        r == nearest(k as nat * pow2(149), 127),
        r < INFINITE32,
{
    let ghost num: nat = k as nat * pow2(149);
    proof {
        lemma2_to64();
        lemma_pow2_pos(149);
    }
    if k == 0 {
        proof {
            assert(ticks(0) == 0 && ticks(1) == 1);
            assert(num == 0);
            lemma_nearest(num, 127, 0);
        }
        return 0;
    }
    let mut p: u64 = 0x80_0000;
    let mut s: u32 = 23;
    while (k as u64) * p < 127 * 0x80_0000
        invariant
            0 < k <= 128,
            23 <= s <= 30,
            p == pow2(s as nat),
            0x80_0000 <= p <= 0x4000_0000,
            (k as u64) * p < 127 * 0x100_0000,
            pow2(30) == 0x4000_0000,
        decreases 30 - s,
    {
        proof {
            lemma_pow2_unfold((s + 1) as nat);
            if s == 30 {
                assert(k * p >= 0x4000_0000) by (nonlinear_arith)
                    requires
                        k >= 1,
                        p == 0x4000_0000,
                ;
            }
            if s < 29 {
                lemma_pow2_strictly_increases((s + 1) as nat, 30);
            }
            assert(k * (2 * p) == 2 * (k * p)) by (nonlinear_arith);
        }
        p = p * 2;
        s = s + 1;
    }
    let scaled: u64 = (k as u64) * p;
    let n: u64 = (scaled + 63) / 127;
    let u: u32 = 149 - s;
    proof {
        let q: nat = pow2(u as nat);
        lemma_pow2_pos(u as nat);
        lemma_pow2_adds(s as nat, u as nat);
        assert(num == scaled * q) by (nonlinear_arith)
            requires
                num == k * pow2(149),
                pow2(149) == p * q,
                scaled == k * p,
        ;
        assert(127 * (n * q) == (127 * n) * q) by (nonlinear_arith);
        let w: int = 127 * n;
        assert(2 * (w * q) - 127 * q < 2 * (scaled * q) < 2 * (w * q) + 127 * q) by (nonlinear_arith)
            requires
                2 * w - 127 < 2 * scaled < 2 * w + 127,
                q > 0,
        ;
        if n == 0x80_0000 {
            assert(w * q <= scaled * q) by (nonlinear_arith)
                requires
                    w <= scaled,
                    q > 0,
            ;
        }
        lemma_rounded(num, 127, u as nat, n as nat);
        lemma_nearest(num, 127, (u * 0x80_0000 + n) as nat);
    }
    u * 0x80_0000 + n as u32
}

/// An IEEE 754 `binary32`, such as one half of an IQ sample.
#[derive(Clone, Copy, Debug, PartialEq, Eq, Structural)]
pub struct Binary32 {
    pub bits: u32,
}

/// An IEEE 754 `binary64`, such as a frequency in Hz.
#[derive(Clone, Copy, Debug, PartialEq, Eq, Structural)]
pub struct Binary64 {
    pub bits: u64,
}

/// The `binary32` with this sign and magnitude.
pub open spec fn signed(negative: bool, magnitude: nat) -> Binary32 {
    Binary32 {
        bits: if negative {
            (0x8000_0000 + magnitude) as u32
        } else {
            magnitude as u32
        },
    }
}

/// The magnitude of a whole number.
pub open spec fn size(k: int) -> nat {
    if k < 0 {
        (-k) as nat
    } else {
        k as nat
    }
}

/// `t` cut off at the ends of a signed range of `limit` values on either side.
pub open spec fn clamped(negative: bool, t: nat, limit: nat) -> int {
    if negative {
        if t > limit {
            -limit
        } else {
            -t
        }
    } else if t >= limit {
        limit - 1
    } else {
        t as int
    }
}

impl Binary32 {
    pub open spec fn negative(self) -> bool {
        self.bits >= 0x8000_0000
    }

    /// The pattern without its sign.
    pub open spec fn magnitude(self) -> nat {
        if self.negative() {
            (self.bits - 0x8000_0000) as nat
        } else {
            self.bits as nat
        }
    }

    pub open spec fn is_nan(self) -> bool {
        self.magnitude() > INFINITE32
    }

    /// The value of a 16-bit component: `k / 32768`.
    pub open spec fn of_i16(k: i16) -> Binary32 {
        signed(k < 0, nearest(size(k as int) * pow2(134), 1))
    }

    /// The value of an 8-bit component: the nearest to `k / 127`.
    pub open spec fn of_i8(k: i8) -> Binary32 {
        signed(k < 0, nearest(size(k as int) * pow2(149), 127))
    }

    /// The 16-bit component nearest to zero from the value times 32768, at
    /// most the ends of the range. A NaN has no value and becomes 0.
    pub open spec fn as_i16(self) -> int {
        if self.is_nan() {
            0
        } else {
            clamped(self.negative(), ticks(self.magnitude()) / pow2(134), 0x8000)
        }
    }

    /// The 8-bit component nearest to zero from the (rounded) value times 127,
    /// at most the ends of the range. A NaN has no value and becomes 0.
    pub open spec fn as_i8(self) -> int {
        if self.is_nan() {
            0
        } else {
            let product = nearest(ticks(self.magnitude()) * 127, 1);
            clamped(self.negative(), ticks(product) / pow2(149), 0x80)
        }
    }

    fn split(self) -> (r: (bool, u32))
        ensures
            r.0 == self.negative(),
            r.1 == self.magnitude(),
    {
        if self.bits >= 0x8000_0000 {
            (true, self.bits - 0x8000_0000)
        } else {
            (false, self.bits)
        }
    }

    fn join(negative: bool, magnitude: u32) -> (r: Binary32)
        requires
            magnitude < 0x8000_0000,
        ensures
            r == signed(negative, magnitude as nat),
    {
        if negative {
            Binary32 { bits: 0x8000_0000 + magnitude }
        } else {
            Binary32 { bits: magnitude }
        }
    }

    /// A 16-bit component on the unit scale.
    pub fn from_i16(k: i16) -> (r: Binary32)
        ensures
            r == Self::of_i16(k),
    {
        let m: u64 = if k < 0 {
            (-(k as i64)) as u64
        } else {
            k as u64
        };
        let magnitude: u32 = round_scaled(m, 134);
        Self::join(k < 0, magnitude)
    }

    /// An 8-bit component on the unit scale.
    pub fn from_i8(k: i8) -> (r: Binary32)
        ensures
            r == Self::of_i8(k),
    {
        let m: u32 = if k < 0 {
            (-(k as i32)) as u32
        } else {
            k as u32
        };
        let magnitude: u32 = round_over_127(m);
        Self::join(k < 0, magnitude)
    }

    /// The 16-bit component of a value on the unit scale.
    pub fn to_i16(self) -> (k: i16)
        ensures
            k == self.as_i16(),
    {
        let (negative, magnitude) = self.split();
        if magnitude > INFINITE32 {
            return 0;
        }
        let t: u32 = whole_part(magnitude, 134);
        if negative {
            if t > 0x8000 {
                -0x8000
            } else {
                (-(t as i32)) as i16
            }
        } else if t >= 0x8000 {
            0x7fff
        } else {
            t as i16
        }
    }

    /// The 8-bit component of a value on the unit scale.
    pub fn to_i8(self) -> (k: i8)
        ensures
            k == self.as_i8(),
    {
        let (negative, magnitude) = self.split();
        if magnitude > INFINITE32 {
            return 0;
        }
        let (m, u) = significand(magnitude);
        let product: u32 = round_scaled((m as u64) * 127, u as i32);
        proof {
            let p: nat = pow2(u as nat);
            assert((m * 127) * p == (m * p) * 127) by (nonlinear_arith);
            lemma2_to64();
        }
        let t: u32 = whole_part(product, 149);
        if negative {
            if t > 0x80 {
                -0x80
            } else {
                (-(t as i32)) as i8
            }
        } else if t >= 0x80 {
            0x7f
        } else {
            t as i8
        }
    }
}

/// A magnitude as a whole number of units of `2^u` ticks.
fn significand(magnitude: u32) -> (r: (u32, u32))
    requires
        magnitude <= INFINITE32,
    ensures
        r.0 < 0x100_0000,
        r.1 <= 254,
        r.1 > 0 ==> r.0 >= 0x80_0000,
        ticks(magnitude as nat) == r.0 * pow2(r.1 as nat),
{
    proof {
        lemma2_to64();
    }
    if magnitude < 0x80_0000 {
        assert(magnitude * pow2(0) == magnitude) by (nonlinear_arith)
            requires
                pow2(0) == 1,
        ;
        (magnitude, 0)
    } else {
        (0x80_0000 + magnitude % 0x80_0000, magnitude / 0x80_0000 - 1)
    }
}

/// The whole number of units of `2^e` ticks in a magnitude, or some number
/// past `2^16` where there are more than that.
fn whole_part(magnitude: u32, e: u32) -> (t: u32)
    requires
        magnitude <= INFINITE32,
        0 < e < 200,
    ensures
        t == ticks(magnitude as nat) / pow2(e as nat) || (t >= 0x1_0000 && ticks(magnitude as nat)
            / pow2(e as nat) >= 0x1_0000),
{
    let (m, u) = significand(magnitude);
    let ghost p: nat = pow2(u as nat);
    proof {
        lemma_pow2_pos(u as nat);
        lemma_pow2_pos(e as nat);
        lemma2_to64();
    }
    if u >= e {
        proof {
            let a: nat = pow2((u - e) as nat);
            let q: nat = pow2(e as nat);
            lemma_pow2_pos((u - e) as nat);
            lemma_pow2_adds((u - e) as nat, e as nat);
            assert(m * (a * q) == (m * a) * q) by (nonlinear_arith);
            lemma_div_by_multiple((m * a) as int, q as int);
            assert(m * a >= m) by (nonlinear_arith)
                requires
                    a >= 1,
                    m >= 0,
            ;
        }
        return 0x1_0000;
    }
    let k: u32 = e - u;
    let ghost a: nat = pow2(k as nat);
    proof {
        lemma_pow2_pos(k as nat);
        lemma_pow2_adds(k as nat, u as nat);
    }
    if k >= 32 {
        proof {
            if k > 32 {
                lemma_pow2_strictly_increases(32, k as nat);
            }
            assert(m * p < a * p) by (nonlinear_arith)
                requires
                    m < a,
                    p > 0,
            ;
            lemma_basic_div((m * p) as int, (a * p) as int);
        }
        return 0;
    }
    proof {
        lemma_u32_pow2_no_overflow(k as nat);
        lemma_u32_shl_is_mul(1, k);
    }
    let d: u32 = 1u32 << k;
    let t: u32 = m / d;
    proof {
        let rest: int = (m % d) as int;
        lemma_fundamental_div_mod(m as int, d as int);
        assert(m == t * a + rest) by (nonlinear_arith)
            requires
                m == d * t + rest,
                d == a,
        ;
        assert(m * p == t * (a * p) + rest * p && 0 <= rest * p < a * p) by (nonlinear_arith)
            requires
                m == t * a + rest,
                0 <= rest < a,
                p > 0,
        ;
        lemma_fundamental_div_mod_converse((m * p) as int, (a * p) as int, t as int, rest * p);
    }
    t
}

impl Binary64 {
    pub open spec fn negative(self) -> bool {
        self.bits >= 0x8000_0000_0000_0000
    }

    /// The pattern without its sign.
    pub open spec fn magnitude(self) -> nat {
        if self.negative() {
            (self.bits - 0x8000_0000_0000_0000) as nat
        } else {
            self.bits as nat
        }
    }

    pub open spec fn is_nan(self) -> bool {
        self.magnitude() > INFINITE64
    }

    pub open spec fn finite(self) -> bool {
        self.magnitude() < INFINITE64
    }

    pub open spec fn zero(self) -> bool {
        self.magnitude() == 0
    }

    /// The value is `significand * 2^exponent` ticks, but for its sign.
    pub open spec fn significand(self) -> nat {
        let m = self.magnitude();
        if m < 0x10_0000_0000_0000 {
            m
        } else {
            0x10_0000_0000_0000 + m % 0x10_0000_0000_0000
        }
    }

    pub open spec fn exponent(self) -> int {
        let m = self.magnitude();
        if m < 0x10_0000_0000_0000 {
            -925
        } else {
            m / 0x10_0000_0000_0000 - 926
        }
    }

    /// The nearest `binary32`, as a conversion gives it for a finite value.
    pub open spec fn narrowed(self) -> Binary32 {
        signed(self.negative(), nearest_scaled(self.significand(), self.exponent()))
    }

    /// Equality of values: no NaN equals anything, and the zeros are equal.
    pub open spec fn equals(self, other: Binary64) -> bool {
        &&& !self.is_nan()
        &&& !other.is_nan()
        &&& self.bits == other.bits || (self.zero() && other.zero())
    }

    fn split(self) -> (r: (bool, u64))
        ensures
            r.0 == self.negative(),
            r.1 == self.magnitude(),
    {
        if self.bits >= 0x8000_0000_0000_0000 {
            (true, self.bits - 0x8000_0000_0000_0000)
        } else {
            (false, self.bits)
        }
    }

    /// Neither a NaN nor an infinity.
    pub fn is_finite(self) -> (r: bool)
        ensures
            r == self.finite(),
    {
        self.split().1 < INFINITE64
    }

    /// Whether the two values are equal.
    pub fn same_value(self, other: Binary64) -> (r: bool)
        ensures
            r == self.equals(other),
    {
        let a: u64 = self.split().1;
        let b: u64 = other.split().1;
        a <= INFINITE64 && b <= INFINITE64 && (self.bits == other.bits || (a == 0 && b == 0))
    }

    /// The nearest `binary32` of a finite value.
    pub fn narrow(self) -> (r: Binary32)
        requires
            self.finite(),
        ensures
            r == self.narrowed(),
            r.negative() == self.negative(),
            r.magnitude() <= INFINITE32,
    {
        let (negative, magnitude) = self.split();
        let magnitude32: u32 = if magnitude < 0x10_0000_0000_0000 {
            round_scaled(magnitude, -925)
        } else {
            round_scaled(
                0x10_0000_0000_0000 + magnitude % 0x10_0000_0000_0000,
                (magnitude / 0x10_0000_0000_0000) as i32 - 926,
            )
        };
        Binary32::join(negative, magnitude32)
    }
}

/// Rounding picks a nearest value: no finite `binary32` is closer.
pub proof fn lemma_no_value_is_nearer(num: nat, den: nat, r: nat, other: nat)
    requires
        den > 0,
        rounds_to(num, den, r),
        r < INFINITE32,
        other < INFINITE32,
    ensures
        size(num - den * ticks(r)) <= size(num - den * ticks(other)),
{
    let here: nat = ticks(r);
    let there: nat = ticks(other);
    if other < r {
        let below: nat = ticks((r - 1) as nat);
        if other < r - 1 {
            lemma_ticks_increasing(other, (r - 1) as nat);
        }
        lemma_ticks_step((r - 1) as nat);
        assert(den * (below + here) == den * below + den * here) by (nonlinear_arith);
        assert(den * there <= den * below && den * below <= den * here) by (nonlinear_arith)
            requires
                there <= below,
                below <= here,
        ;
    } else if other > r {
        let above: nat = ticks(r + 1);
        if other > r + 1 {
            lemma_ticks_increasing(r + 1, other);
        }
        lemma_ticks_step(r);
        assert(den * (here + above) == den * here + den * above) by (nonlinear_arith);
        assert(den * here <= den * above && den * above <= den * there) by (nonlinear_arith)
            requires
                here <= above,
                above <= there,
        ;
    }
}

/// A `binary64` that has the value of a finite `binary32` narrows to it.
pub proof fn lemma_narrowing_keeps_what_fits(wide: Binary64, value: Binary32)
    requires
        wide.negative() == value.negative(),
        value.magnitude() < INFINITE32,
        wide.significand() * up(wide.exponent()) == ticks(value.magnitude()) * up(-wide.exponent()),
    ensures
        wide.narrowed() == value,
{
    let r: nat = value.magnitude();
    let t: int = wide.exponent();
    let den: nat = up(-t);
    let num: nat = wide.significand() * up(t);
    if t < 0 {
        lemma_pow2_pos((-t) as nat);
    }
    let here: nat = ticks(r);
    let above: nat = ticks(r + 1);
    lemma_ticks_step(r);
    assert(2 * (here * den) < den * (here + above)) by (nonlinear_arith)
        requires
            here < above,
            den > 0,
    ;
    if r > 0 {
        let below: nat = ticks((r - 1) as nat);
        lemma_ticks_step((r - 1) as nat);
        assert(den * (below + here) < 2 * (here * den)) by (nonlinear_arith)
            requires
                below < here,
                den > 0,
        ;
    }
    lemma_nearest(num, den, r);
}

/// The pattern of `m * 2^t` ticks, for an `m` of at most 24 digits.
pub proof fn lemma_whole_value(m: nat, t: nat) -> (r: nat)
    requires
        0 < m < 0x100_0000,
        24 <= t <= 200,
    ensures
        r < INFINITE32,
        ticks(r) == m * pow2(t),
{
    let len: nat = digits(m);
    lemma_digits(m);
    lemma2_to64();
    if len > 24 {
        if len > 25 {
            lemma_pow2_strictly_increases(24, (len - 1) as nat);
        }
        assert(false);
    }
    let k: nat = (24 - len) as nat;
    let u: nat = (len + t - 24) as nat;
    let a: nat = pow2(k);
    let p: nat = pow2(u);
    let n: nat = m * a;
    lemma_pow2_pos(k);
    lemma_pow2_adds(len, k);
    lemma_pow2_adds((len - 1) as nat, k);
    lemma_pow2_adds(k, u);
    let hi: nat = pow2(len);
    let lo: nat = pow2((len - 1) as nat);
    assert(n < hi * a && lo * a <= n) by (nonlinear_arith)
        requires
            lo <= m < hi,
            a > 0,
            n == m * a,
    ;
    assert(n * p == m * (a * p)) by (nonlinear_arith)
        requires
            n == m * a,
    ;
    lemma_ticks_encoded(u, n);
    u * 0x80_0000 + n
}

/// A 16-bit component comes back from its value on the unit scale.
pub proof fn lemma_i16_round_trip(k: i16)
    ensures
        Binary32::of_i16(k).as_i16() == k,
{
    let m: nat = size(k as int);
    lemma_pow2_pos(134);
    let r: nat = if m == 0 {
        assert(0 * pow2(134) == 0);
        0
    } else {
        lemma_whole_value(m, 134)
    };
    assert(ticks(r) == m * pow2(134));
    lemma_nearest_exact(r);
    lemma_div_by_multiple(m as int, pow2(134) as int);
}

/// `127 / 127` is 1, and times 127 it is 127 again.
proof fn lemma_127_over_127()
    ensures
        nearest(127 * pow2(149), 127) < INFINITE32,
        ticks(nearest(ticks(nearest(127 * pow2(149), 127)) * 127, 1)) == 127 * pow2(149),
{
    lemma2_to64();
    let goal: nat = lemma_whole_value(127, 149);
    lemma_nearest_exact(goal);
    let u: nat = 126;
    lemma_ticks_encoded(u, 0x80_0000);
    lemma_pow2_adds(23, u);
    lemma_pow2_pos(u);
    lemma_rounded(127 * pow2(149), 127, u, 0x80_0000);
    lemma_nearest(127 * pow2(149), 127, u * 0x80_0000 + 0x80_0000);
}

/// `|k| / 127` times 127 rounds back to `|k|`.
#[verifier::spinoff_prover]
#[verifier::rlimit(50)]
proof fn lemma_127_round_trip(m: nat, j: nat)
    requires
        j <= 7,
        pow2(j) <= m < pow2(j + 1),
        m <= 128,
        m != 127,
    ensures
        nearest(m * pow2(149), 127) < INFINITE32,
        ticks(nearest(ticks(nearest(m * pow2(149), 127)) * 127, 1)) == m * pow2(149),
{
    lemma2_to64();
    let s: nat = (30 - j) as nat;
    let u: nat = (149 - s) as nat;
    let a: nat = pow2(s);
    let q: nat = pow2(u);
    let scaled: nat = m * a;
    let n: nat = (scaled + 63) / 127;
    lemma_pow2_pos(u);
    lemma_pow2_adds(s, u);
    lemma_pow2_adds(j, s);
    lemma_pow2_adds((j + 1) as nat, s);
    let one: nat = pow2(j);
    let two: nat = pow2(j + 1);
    lemma_pow2_unfold(j + 1);
    // a quarter of the range above 2^30 is never reached, 127 apart
    if j == 7 {
        assert(scaled <= 0x7f00_0000) by (nonlinear_arith)
            requires
                scaled == m * a,
                a == 0x80_0000,
                m <= 128,
        ;
    } else if j == 6 {
        assert(scaled <= 0x7f00_0000) by (nonlinear_arith)
            requires
                scaled == m * a,
                a == 0x100_0000,
                m <= 126,
        ;
    } else {
        assert(a >= 0x200_0000) by {
            if s > 25 {
                lemma_pow2_strictly_increases(25, s);
            }
        }
        assert(m * a + a <= two * a) by (nonlinear_arith)
            requires
                m < two,
                a > 0,
        ;
    }
    assert(scaled >= 0x4000_0000) by (nonlinear_arith)
        requires
            scaled == m * a,
            one <= m,
            one * a == 0x4000_0000,
    ;
    let num: nat = m * pow2(149);
    assert(num == scaled * q) by (nonlinear_arith)
        requires
            num == m * (a * q),
            scaled == m * a,
    ;
    let w: int = (127 * n) as int;
    assert(127 * (n * q) == w * q) by (nonlinear_arith)
        requires
            w == 127 * n,
    ;
    assert(2 * (w * q) - 127 * q < 2 * (scaled * q) < 2 * (w * q) + 127 * q) by (nonlinear_arith)
        requires
            2 * w - 127 < 2 * scaled < 2 * w + 127,
            q > 0,
    ;
    assert(n > 0x80_0000);
    lemma_rounded(num, 127, u, n);
    let r: nat = u * 0x80_0000 + n;
    lemma_nearest(num, 127, r);
    lemma_ticks_encoded(u, n);
    // the product, against the pattern of `m`
    let product: nat = ticks(r) * 127;
    assert(product == w * q) by (nonlinear_arith)
        requires
            product == (n * q) * 127,
            w == 127 * n,
    ;
    let v: nat = j + 126;
    let half: nat = pow2((v - 1) as nat);
    lemma_pow2_unfold(v);
    lemma_pow2_adds(u, 6);
    assert(half == q * 64);
    let k: nat = (23 - j) as nat;
    let b: nat = pow2(k);
    let digits24: nat = m * b;
    lemma_pow2_adds(k, v);
    lemma_pow2_adds(j, k);
    lemma_pow2_adds((j + 1) as nat, k);
    lemma_pow2_pos(k);
    assert(one * b <= digits24 && digits24 < two * b) by (nonlinear_arith)
        requires
            one <= m < two,
            b > 0,
            digits24 == m * b,
    ;
    let p: nat = pow2(v);
    assert(digits24 * p == m * (b * p)) by (nonlinear_arith)
        requires
            digits24 == m * b,
    ;
    let diff: int = w - scaled;
    assert(w * q == scaled * q + diff * q) by (nonlinear_arith)
        requires
            diff == w - scaled,
    ;
    assert(-63 * q <= diff * q <= 63 * q) by (nonlinear_arith)
        requires
            -63 <= diff <= 63,
            q > 0,
    ;
    if digits24 > 0x80_0000 {
        lemma_rounded(product, 1, v, digits24);
        lemma_nearest(product, 1, v * 0x80_0000 + digits24);
        lemma_ticks_encoded(v, digits24);
    } else {
        // `m` is a power of two: the pattern below is only half a gap away
        assert(m == one) by (nonlinear_arith)
            requires
                m * b <= one * b,
                one <= m,
                b > 0,
        ;
        assert(scaled == 0x4000_0000);
        assert(diff == -4);
        let top: nat = v * 0x80_0000 + 0x80_0000;
        lemma_ticks_encoded(v, 0x80_0000);
        lemma_ticks_step(top);
        lemma_ticks_encoded((v - 1) as nat, 0xff_ffff);
        assert((top - 1) as nat == ((v - 1) as nat) * 0x80_0000 + 0xff_ffff);
        assert(ticks((top - 1) as nat) == 0xff_ffff * half);
        assert(product == 0x3fff_fffc * q) by (nonlinear_arith)
            requires
                product == scaled * q + diff * q,
                scaled == 0x4000_0000,
                diff == -4,
        ;
        assert(p == 128 * q);
        assert(ticks(top) == 0x4000_0000 * q);
        assert(ticks((top - 1) as nat) == 0x3fff_ffc0 * q);
        assert(ticks(top + 1) > ticks(top));
        assert(v < 150);
        assert(rounds_to(product, 1, top));
        lemma_nearest(product, 1, top);
    }
}

/// An 8-bit component comes back from its value on the unit scale.
pub proof fn lemma_i8_round_trip(k: i8)
    ensures
        Binary32::of_i8(k).as_i8() == k,
{
    let m: nat = size(k as int);
    lemma_pow2_pos(149);
    lemma2_to64();
    if m == 0 {
        assert(0 * pow2(149) == 0);
        assert(ticks(0) == 0 && ticks(1) == 1);
        lemma_nearest(0, 127, 0);
        lemma_nearest(0, 1, 0);
        lemma_div_by_multiple(0, pow2(149) as int);
    } else {
        let j: nat = if m < 2 {
            0
        } else if m < 4 {
            1
        } else if m < 8 {
            2
        } else if m < 16 {
            3
        } else if m < 32 {
            4
        } else if m < 64 {
            5
        } else if m < 128 {
            6
        } else {
            7
        };
        if m == 127 {
            lemma_127_over_127();
        } else {
            lemma_127_round_trip(m, j);
        }
        lemma_div_by_multiple(m as int, pow2(149) as int);
    }
}

} // verus!
