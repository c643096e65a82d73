//! Laws of the numbers.

use crate::ieee;
use crate::ieee::{Binary32, Binary64, INFINITE32, INFINITE64};
use vstd::arithmetic::div_mod::*;
use vstd::arithmetic::power2::*;
use vstd::prelude::*;

verus! {

/// Patterns up to `2^24` are counts of ticks, and from `2^23` on a step of `2^23`
/// patterns doubles the value.
pub proof fn lemma_ticks(r: nat)
    ensures
        r <= 0x100_0000 ==> ieee::ticks(r) == r,
        r >= 0x80_0000 ==> ieee::ticks(r + 0x80_0000) == 2 * ieee::ticks(r),
{
    lemma2_to64();
    if r >= 0x80_0000 {
        let e: nat = (r / 0x80_0000 - 1) as nat;
        assert((r + 0x80_0000) / 0x80_0000 == r / 0x80_0000 + 1);
        assert((r + 0x80_0000) % 0x80_0000 == r % 0x80_0000);
        lemma_pow2_unfold(e + 1);
        let m: nat = 0x80_0000 + r % 0x80_0000;
        let p: nat = pow2(e);
        assert(m * (2 * p) == 2 * (m * p)) by (nonlinear_arith);
        if r < 0x100_0000 {
            assert(r / 0x80_0000 == 1);
            assert(m * pow2(0) == m);
        } else if r == 0x100_0000 {
            assert(r / 0x80_0000 == 2 && r % 0x80_0000 == 0);
            assert(0x80_0000 * pow2(1) == 0x100_0000);
        }
    }
}

/// The size of a number is the number or its negative.
pub proof fn lemma_size(k: int)
    ensures
        ieee::size(k) == k || ieee::size(k) == -k,
        ieee::size(k) >= 0,
{
}

/// The top bit of a pattern is its sign, and the rest its magnitude.
pub proof fn lemma_sign_and_magnitude(x: Binary32)
    ensures
        x.negative() <==> x.bits >= 0x8000_0000,
        x.magnitude() == x.bits as nat % 0x8000_0000,
        x.is_nan() <==> x.bits as nat % 0x8000_0000 > 0x7f80_0000,
{
}

/// The same of the wider patterns. No NaN equals anything, the two zeros are
/// equal, and otherwise equal values have equal patterns.
pub proof fn lemma_wide_sign_and_magnitude(x: Binary64, y: Binary64)
    ensures
        x.negative() <==> x.bits >= 0x8000_0000_0000_0000,
        x.magnitude() == x.bits as nat % 0x8000_0000_0000_0000,
        x.finite() <==> x.bits as nat % 0x8000_0000_0000_0000 < 0x7ff0_0000_0000_0000,
        x.is_nan() <==> x.bits as nat % 0x8000_0000_0000_0000 > 0x7ff0_0000_0000_0000,
        x.equals(y) == y.equals(x),
        x.equals(y) <==> {
            let a = x.bits as nat % 0x8000_0000_0000_0000;
            let b = y.bits as nat % 0x8000_0000_0000_0000;
            &&& a <= 0x7ff0_0000_0000_0000
            &&& b <= 0x7ff0_0000_0000_0000
            &&& (x.bits == y.bits || (a == 0 && b == 0))
        },
{
}

/// Every quotient rounds to some magnitude.
pub proof fn lemma_rounding_exists(num: nat, den: nat)
    requires
        den > 0,
    ensures
        ieee::rounds_to(num, den, ieee::nearest(num, den)),
{
    let r = lemma_rounds_from(num, den, 0);
    assert(ieee::rounds_to(num, den, r));
}

proof fn lemma_rounds_from(num: nat, den: nat, from: nat) -> (r: nat)
    requires
        den > 0,
        from <= INFINITE32,
        from > 0 ==> {
            let low = den * (ieee::ticks((from - 1) as nat) + ieee::ticks(from));
            low < 2 * num || (low == 2 * num && from % 2 == 0)
        },
    ensures
        ieee::rounds_to(num, den, r),
    decreases INFINITE32 - from,
{
    if from == INFINITE32 {
        from
    } else {
        let high = den * (ieee::ticks(from) + ieee::ticks(from + 1));
        if 2 * num < high || (2 * num == high && from % 2 == 0) {
            from
        } else {
            lemma_rounds_from(num, den, from + 1)
        }
    }
}

/// What a quotient rounds to is off by at most a part in `2^24` of it, if it is
/// not among the smallest values and does not overflow.
pub proof fn lemma_rounding_error(num: nat, den: nat, r: nat)
    requires
        den > 0,
        ieee::rounds_to(num, den, r),
        0x80_0000 <= r < INFINITE32,
    ensures
        ieee::size(num - den * ieee::ticks(r)) * 0x100_0000 <= den * ieee::ticks(r),
{
    let here: nat = ieee::ticks(r);
    let above: nat = ieee::ticks(r + 1);
    let below: nat = ieee::ticks((r - 1) as nat);
    let p: nat = pow2(ieee::gap(r));
    lemma2_to64();
    ieee::lemma_ticks_step(r);
    ieee::lemma_ticks_step((r - 1) as nat);
    assert(above == here + p);
    assert(here >= 0x80_0000 * p) by (nonlinear_arith)
        requires
            here == (0x80_0000 + r % 0x80_0000) * p,
    ;
    let q: nat = pow2(ieee::gap((r - 1) as nat));
    assert(here == below + q);
    assert(q <= p) by {
        if ieee::gap((r - 1) as nat) < ieee::gap(r) {
            lemma_pow2_strictly_increases(ieee::gap((r - 1) as nat), ieee::gap(r));
        }
    }
    assert(den * (here + above) == 2 * (den * here) + den * p) by (nonlinear_arith)
        requires
            above == here + p,
    ;
    assert(den * (below + here) == 2 * (den * here) - den * q) by (nonlinear_arith)
        requires
            here == below + q,
    ;
    assert(den * q <= den * p) by (nonlinear_arith)
        requires
            q <= p,
    ;
    assert(0x80_0000 * (den * p) <= den * here) by (nonlinear_arith)
        requires
            here >= 0x80_0000 * p,
    ;
}

/// Rounding does not pass over a value: what is at least a value rounds to at
/// least that value.
pub proof fn lemma_rounding_keeps_order(num: nat, den: nat, r: nat, value: nat)
    requires
        den > 0,
        ieee::rounds_to(num, den, r),
        value <= INFINITE32,
    ensures
        den * ieee::ticks(value) <= num ==> value <= r,
        num <= den * ieee::ticks(value) && value < INFINITE32 ==> r <= value,
{
    let t: nat = ieee::ticks(value);
    if den * t <= num && r < value {
        ieee::lemma_ticks_step(r);
        if r + 1 < value {
            ieee::lemma_ticks_increasing(r + 1, value);
        }
        let a: nat = ieee::ticks(r);
        let b: nat = ieee::ticks(r + 1);
        assert(den * (a + b) < 2 * (den * t)) by (nonlinear_arith)
            requires
                a < b <= t,
                den > 0,
        ;
    }
    if num <= den * t && value < r {
        ieee::lemma_ticks_step((r - 1) as nat);
        if value < r - 1 {
            ieee::lemma_ticks_increasing(value, (r - 1) as nat);
        }
        let a: nat = ieee::ticks((r - 1) as nat);
        let b: nat = ieee::ticks(r);
        assert(2 * (den * t) < den * (a + b)) by (nonlinear_arith)
            requires
                t <= a < b,
                den > 0,
        ;
    }
}

/// A 16-bit component `k` has the value `k / 32768`, exactly.
pub proof fn lemma_value_of_i16(k: i16)
    ensures
        ({
            let x = Binary32::of_i16(k);
            &&& ieee::ticks(x.bits as nat % 0x8000_0000) == ieee::size(k as int) * pow2(134)
            &&& x.bits >= 0x8000_0000 <==> k < 0
        }),
{
    let m: nat = ieee::size(k as int);
    lemma_pow2_pos(134);
    let r: nat = if m == 0 {
        assert(0 * pow2(134) == 0);
        0
    } else {
        ieee::lemma_whole_value(m, 134)
    };
    assert(ieee::ticks(r) == m * pow2(134));
    ieee::lemma_nearest_exact(r);
    assert(Binary32::of_i16(k) == ieee::signed(k < 0, r));
}

/// An 8-bit component `k` has the value nearest to `k / 127`: no other is as
/// near.
pub proof fn lemma_value_of_i8(k: i8, other: nat)
    requires
        other < 0x7f80_0000,
    ensures
        ({
            let x = Binary32::of_i8(k);
            let r = x.bits as nat % 0x8000_0000;
            let want = ieee::size(k as int) * pow2(149);
            &&& x.bits >= 0x8000_0000 <==> k < 0
            &&& r < 0x7f80_0000
            &&& ieee::size(want - 127 * ieee::ticks(r)) <= ieee::size(
                want - 127 * ieee::ticks(other),
            )
            &&& ieee::size(want - 127 * ieee::ticks(r)) * 0x100_0000 <= want * 2
        }),
{
    let m: nat = ieee::size(k as int);
    let num: nat = m * pow2(149);
    lemma_pow2_pos(149);
    lemma_rounding_exists(num, 127);
    let r = ieee::nearest(num, 127);
    lemma_i8_magnitude(m);
    assert(Binary32::of_i8(k) == ieee::signed(k < 0, r));
    ieee::lemma_no_value_is_nearer(num, 127, r, other);
    if m == 0 {
        assert(num == 0);
        lemma_rounding_keeps_order(num, 127, r, 0);
        lemma_ticks(0);
        assert(ieee::ticks(r) == 0);
    } else {
        lemma_rounding_error(num, 127, r);
        let t: nat = 127 * ieee::ticks(r);
        assert(ieee::size(num - t) * 0x100_0000 <= t);
        assert(t <= 2 * num);
    }
}

/// The value of an 8-bit component is finite, and among the larger ones.
proof fn lemma_i8_magnitude(m: nat)
    requires
        m <= 128,
    ensures
        ieee::nearest(m * pow2(149), 127) < INFINITE32,
        m > 0 ==> ieee::nearest(m * pow2(149), 127) >= 0x80_0000,
{
    let num: nat = m * pow2(149);
    lemma_pow2_pos(149);
    lemma2_to64();
    lemma_rounding_exists(num, 127);
    let r = ieee::nearest(num, 127);
    let two: nat = ieee::lemma_whole_value(2, 149);
    let p: nat = pow2(149);
    assert(num <= 127 * (2 * p)) by (nonlinear_arith)
        requires
            num == m * p,
            m <= 128,
    ;
    lemma_rounding_keeps_order(num, 127, r, two);
    if m > 0 {
        lemma_ticks(0x80_0000);
        lemma_pow2_adds(31, 118);
        lemma_pow2_pos(118);
        let q: nat = pow2(118);
        assert(127 * 0x80_0000 <= num) by (nonlinear_arith)
            requires
                num == m * p,
                m >= 1,
                p == 0x8000_0000 * q,
                q >= 1,
        ;
        lemma_rounding_keeps_order(num, 127, r, 0x80_0000);
    }
}

/// The 16-bit component of a value `v`: `32768 v` without its fraction, and the
/// end of the range where `v` is beyond it. A NaN becomes 0.
#[verifier::spinoff_prover]
#[verifier::rlimit(50)]
pub proof fn lemma_i16_of_value(x: Binary32)
    ensures
        ({
            let k = x.as_i16();
            let r = x.bits as nat % 0x8000_0000;
            let t = ieee::ticks(r);
            &&& r > 0x7f80_0000 ==> k == 0
            &&& r <= 0x7f80_0000 && x.bits < 0x8000_0000 ==> if t < pow2(149) {
                0 <= k < 0x8000 && k * pow2(134) <= t < (k + 1) * pow2(134)
            } else {
                k == 0x7fff
            }
            &&& r <= 0x7f80_0000 && x.bits >= 0x8000_0000 ==> if t <= pow2(149) {
                -0x8000 <= k <= 0 && -k * pow2(134) <= t < (-k + 1) * pow2(134)
            } else {
                k == -0x8000
            }
        }),
{
    let t: nat = ieee::ticks(x.magnitude());
    let p: nat = pow2(134);
    lemma_pow2_pos(134);
    lemma2_to64();
    lemma_pow2_adds(15, 134);
    let q: int = (t / p) as int;
    lemma_fundamental_div_mod(t as int, p as int);
    lemma_mod_bound(t as int, p as int);
    assert(q * p <= t < (q + 1) * p) by (nonlinear_arith)
        requires
            t == p * q + t as int % p as int,
            0 <= t as int % p as int,
            (t as int % p as int) < p as int,
    ;
    assert(q >= 0x8000 ==> t >= 0x8000 * p) by (nonlinear_arith)
        requires
            q * p <= t,
    ;
    assert(q < 0x8000 ==> t < 0x8000 * p) by (nonlinear_arith)
        requires
            t < (q + 1) * p,
    ;
    assert(q > 0x8000 ==> t > 0x8000 * p) by (nonlinear_arith)
        requires
            q * p <= t,
            p > 0,
    ;
    assert(q <= 0x8000 || t > 0x8000 * p);
}

/// The 8-bit component of a value `v`: `127 v` without its fraction, where a
/// fraction that is within a part in `2^24` of one counts as one; and the end of
/// the range where `v` is beyond it. A NaN becomes 0.
#[verifier::spinoff_prover]
#[verifier::rlimit(50)]
pub proof fn lemma_i8_of_value(x: Binary32)
    ensures
        ({
            let k = x.as_i8();
            let r = x.bits as nat % 0x8000_0000;
            let t = 127 * ieee::ticks(r);
            &&& r > 0x7f80_0000 ==> k == 0
            &&& r <= 0x7f80_0000 && x.bits < 0x8000_0000 ==> if t < 127 * pow2(149) {
                &&& 0 <= k <= 127
                &&& t < (k + 1) * pow2(149)
                &&& 0xff_ffff * (k * pow2(149)) <= 0x100_0000 * t
            } else {
                k == 127
            }
            &&& r <= 0x7f80_0000 && x.bits >= 0x8000_0000 ==> if t < 128 * pow2(149) {
                &&& -128 <= k <= 0
                &&& t < (-k + 1) * pow2(149)
                &&& 0xff_ffff * (-k * pow2(149)) <= 0x100_0000 * t
            } else {
                k == -128
            }
        }),
{
    let m: nat = x.magnitude();
    if m <= INFINITE32 {
        let t: nat = ieee::ticks(m) * 127;
        let p: nat = pow2(149);
        lemma_pow2_pos(149);
        lemma2_to64();
        lemma_rounding_exists(t, 1);
        let r = ieee::nearest(t, 1);
        let product: nat = ieee::ticks(r);
        let q: int = (product / p) as int;
        lemma_fundamental_div_mod(product as int, p as int);
        lemma_mod_bound(product as int, p as int);
        assert(q * p <= product < (q + 1) * p) by (nonlinear_arith)
            requires
                product == p * q + product as int % p as int,
                0 <= product as int % p as int,
                (product as int % p as int) < p as int,
        ;
        assert(q >= 0) by (nonlinear_arith)
            requires
                product < (q + 1) * p,
                product >= 0,
                p > 0,
        ;
        lemma_floor(t, r, q, 127);
        lemma_floor(t, r, q, 128);
        if q < 0x80_0000 {
            lemma_floor(t, r, q, (q + 1) as nat);
        }
        if 0 < q && r < INFINITE32 {
            let one: nat = ieee::lemma_whole_value(1, 149);
            assert(one <= r) by {
                if r < one {
                    ieee::lemma_ticks_increasing(r, one);
                    assert(q * p >= p) by (nonlinear_arith)
                        requires
                            q >= 1,
                    ;
                }
            }
            assert(one >= 0x80_0000) by {
                if one < 0x80_0000 {
                    lemma_ticks(one);
                    lemma_pow2_strictly_increases(23, 149);
                }
            }
            lemma_rounding_error(t, 1, r);
            assert(0xff_ffff * product <= 0x100_0000 * t);
            assert(0xff_ffff * (q * p) <= 0xff_ffff * product);
        }
        assert(r == INFINITE32 ==> q >= 256) by {
            if r == INFINITE32 {
                let top: nat = ieee::lemma_whole_value(256, 149);
                ieee::lemma_ticks_increasing(top, r);
                if q < 256 {
                    assert((q + 1) * p <= 256 * p) by (nonlinear_arith)
                        requires
                            q + 1 <= 256,
                    ;
                }
            }
        }
        assert(q == 0 ==> q * p == 0);
        let k = x.as_i8();
        assert(k == ieee::clamped(x.negative(), q as nat, 0x80));
        if x.negative() {
            if t < 128 * p {
                assert(q <= 128);
                assert(k == -q);
                assert(t < (q + 1) * p);
            } else {
                assert(k == -128);
            }
        } else if t < 127 * p {
            assert(q <= 127);
            assert(k == q);
            assert(t < (q + 1) * p);
        } else {
            assert(k == 127);
        }
    }
}

/// The 8-bit component of a value, exactly: the value times 127, rounded as any
/// product is, and then without its fraction.
pub proof fn lemma_i8_of_product(x: Binary32)
    requires
        x.bits as nat % 0x8000_0000 <= 0x7f80_0000,
    ensures
        ({
            let k = x.as_i8();
            let product = ieee::ticks(
                ieee::nearest(127 * ieee::ticks(x.bits as nat % 0x8000_0000), 1),
            );
            &&& x.bits < 0x8000_0000 ==> if product < 128 * pow2(149) {
                0 <= k && k * pow2(149) <= product < (k + 1) * pow2(149)
            } else {
                k == 127
            }
            &&& x.bits >= 0x8000_0000 ==> if product < 129 * pow2(149) {
                k <= 0 && -k * pow2(149) <= product < (-k + 1) * pow2(149)
            } else {
                k == -128
            }
        }),
{
    let m: nat = x.magnitude();
    let p: nat = pow2(149);
    lemma_pow2_pos(149);
    let product: nat = ieee::ticks(ieee::nearest(ieee::ticks(m) * 127, 1));
    let q: int = (product / p) as int;
    lemma_fundamental_div_mod(product as int, p as int);
    lemma_mod_bound(product as int, p as int);
    assert(q * p <= product < (q + 1) * p) by (nonlinear_arith)
        requires
            product == p * q + product as int % p as int,
            0 <= product as int % p as int,
            (product as int % p as int) < p as int,
    ;
    assert(product < 128 * p <==> q < 128) by (nonlinear_arith)
        requires
            q * p <= product < (q + 1) * p,
            p > 0,
    ;
    assert(product < 129 * p <==> q < 129) by (nonlinear_arith)
        requires
            q * p <= product < (q + 1) * p,
            p > 0,
    ;
    assert(q >= 0) by (nonlinear_arith)
        requires
            product < (q + 1) * p,
            product >= 0,
            p > 0,
    ;
}

/// What `t` ticks round to has at least `n` units of `2^149` ticks just where `t`
/// has them, or nearly so.
proof fn lemma_floor(t: nat, r: nat, q: int, n: nat)
    requires
        ieee::rounds_to(t, 1, r),
        0 < n < 0x100_0000,
        q * pow2(149) <= ieee::ticks(r) < (q + 1) * pow2(149),
    ensures
        t >= n * pow2(149) ==> q >= n,
        t <= n * pow2(149) ==> q <= n,
{
    let p: nat = pow2(149);
    lemma_pow2_pos(149);
    let v: nat = ieee::lemma_whole_value(n, 149);
    lemma_rounding_keeps_order(t, 1, r, v);
    if t >= n * p {
        if v < r {
            ieee::lemma_ticks_increasing(v, r);
        }
        assert(q >= n) by (nonlinear_arith)
            requires
                n * p < (q + 1) * p,
        ;
    }
    if t <= n * p {
        if r < v {
            ieee::lemma_ticks_increasing(r, v);
        }
        assert(q <= n) by (nonlinear_arith)
            requires
                q * p <= n * p,
                p > 0,
        ;
    }
}

/// A finite `binary64` narrows to a `binary32` of its sign, and no finite
/// `binary32` is nearer to it than the one it narrows to; of two that are equally
/// near it is the even one. What is half a step or more beyond the last of them
/// becomes infinite.
#[verifier::spinoff_prover]
#[verifier::rlimit(50)]
pub proof fn lemma_narrowing(wide: Binary64, other: nat)
    requires
        wide.bits as nat % 0x8000_0000_0000_0000 < 0x7ff0_0000_0000_0000,
        other < 0x7f80_0000,
    ensures
        ({
            let m = wide.bits as nat % 0x8000_0000_0000_0000;
            let e = m / 0x10_0000_0000_0000;
            let digits = if e == 0 {
                m
            } else {
                0x10_0000_0000_0000 + m % 0x10_0000_0000_0000
            };
            let shift: int = if e == 0 {
                -925
            } else {
                e - 926
            };
            // the value is `num / den` ticks
            let num = if shift > 0 {
                digits * pow2(shift as nat)
            } else {
                digits
            };
            let den = if shift < 0 {
                pow2((-shift) as nat)
            } else {
                1
            };
            let r = wide.narrowed().bits as nat % 0x8000_0000;
            &&& wide.narrowed().bits >= 0x8000_0000 <==> wide.bits >= 0x8000_0000_0000_0000
            &&& r <= 0x7f80_0000
            &&& r < 0x7f80_0000 ==> ieee::size(num - den * ieee::ticks(r)) <= ieee::size(
                num - den * ieee::ticks(other),
            )
            &&& r < 0x7f80_0000 && other != r && ieee::size(num - den * ieee::ticks(r))
                == ieee::size(num - den * ieee::ticks(other)) ==> r % 2 == 0
            &&& r == 0x7f80_0000 <==> 2 * num >= den * (ieee::ticks(0x7f7f_ffff) + pow2(277))
        }),
{
    let t = wide.exponent();
    let num = wide.significand() * ieee::up(t);
    let den = ieee::up(-t);
    if t > 0 {
        lemma_pow2_pos(t as nat);
    }
    if t < 0 {
        lemma_pow2_pos((-t) as nat);
    }
    lemma_nearest_value(num, den, other);
    let r = ieee::nearest(num, den);
    assert(wide.narrowed() == ieee::signed(wide.negative(), r));
    assert(wide.narrowed().bits as nat % 0x8000_0000 == r);
}

/// Of two values that are equally near, the even one is taken.
proof fn lemma_tie(num: nat, den: nat, r: nat, other: nat)
    requires
        den > 0,
        ieee::rounds_to(num, den, r),
        r < INFINITE32,
        other < INFINITE32,
        other != r,
    ensures
        ieee::size(num - den * ieee::ticks(r)) == ieee::size(num - den * ieee::ticks(other)) ==> r
            % 2 == 0,
{
    let here: nat = ieee::ticks(r);
    let there: nat = ieee::ticks(other);
    assert(den * (there + here) == den * there + den * here) by (nonlinear_arith);
    if other < r {
        ieee::lemma_ticks_increasing(other, r);
        let below: nat = ieee::ticks((r - 1) as nat);
        if other < r - 1 {
            ieee::lemma_ticks_increasing(other, (r - 1) as nat);
            assert(den * (there + here) < den * (below + here)) by (nonlinear_arith)
                requires
                    there < below,
                    den > 0,
            ;
        }
        assert(den * there < den * here) by (nonlinear_arith)
            requires
                there < here,
                den > 0,
        ;
    } else {
        ieee::lemma_ticks_increasing(r, other);
        let above: nat = ieee::ticks(r + 1);
        if r + 1 < other {
            ieee::lemma_ticks_increasing(r + 1, other);
            assert(den * (here + above) < den * (there + here)) by (nonlinear_arith)
                requires
                    above < there,
                    den > 0,
            ;
        }
        assert(den * here < den * there) by (nonlinear_arith)
            requires
                here < there,
                den > 0,
        ;
    }
}

/// What a quotient rounds to is nearest to it, or infinite where it is half a
/// step or more beyond the last finite value.
pub proof fn lemma_nearest_value(num: nat, den: nat, other: nat)
    requires
        den > 0,
        other < 0x7f80_0000,
    ensures
        ({
            let r = ieee::nearest(num, den);
            &&& r <= 0x7f80_0000
            &&& r < 0x7f80_0000 ==> ieee::size(num - den * ieee::ticks(r)) <= ieee::size(
                num - den * ieee::ticks(other),
            )
            &&& r < 0x7f80_0000 && other != r && ieee::size(num - den * ieee::ticks(r))
                == ieee::size(num - den * ieee::ticks(other)) ==> r % 2 == 0
            &&& r == 0x7f80_0000 <==> 2 * num >= den * (ieee::ticks(0x7f7f_ffff) + pow2(277))
        }),
{
    lemma_rounding_exists(num, den);
    let r = ieee::nearest(num, den);
    let top: nat = 0x7f80_0000;
    lemma_pow2_adds(23, 254);
    lemma2_to64();
    assert(top % 0x80_0000 == 0 && top / 0x80_0000 == 255);
    assert(ieee::ticks(top) == pow2(277));
    if r < INFINITE32 {
        ieee::lemma_no_value_is_nearer(num, den, r, other);
        if other != r {
            lemma_tie(num, den, r, other);
        }
        if r + 1 < top {
            let a: nat = ieee::ticks(r) + ieee::ticks(r + 1);
            let b: nat = ieee::ticks(0x7f7f_ffff) + ieee::ticks(top);
            ieee::lemma_ticks_increasing(r + 1, top);
            if r < 0x7f7f_ffff {
                ieee::lemma_ticks_increasing(r, 0x7f7f_ffff);
            }
            assert(den * a < den * b) by (nonlinear_arith)
                requires
                    a < b,
                    den > 0,
            ;
        }
    }
}

} // verus!
