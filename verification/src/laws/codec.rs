//! Laws of the sample formats: which bytes stand for which sample. In every
//! format the real part (I) comes first and the imaginary part (Q) second.

use crate::datatype;
use crate::datatype::{DataType, Sample};
use crate::ieee;
use crate::ieee::Binary32;
use crate::laws::floats;
use vstd::arithmetic::power2::*;
use vstd::prelude::*;

verus! {

/// A signed byte.
pub open spec fn one_byte(a: u8) -> int {
    if a < 0x80 {
        a as int
    } else {
        a - 0x100
    }
}

/// A signed number of two bytes, low byte first.
pub open spec fn two_bytes(a: u8, b: u8) -> int {
    if b < 0x80 {
        a + 0x100 * b
    } else {
        a + 0x100 * b - 0x1_0000
    }
}

/// A number of four bytes, low byte first.
pub open spec fn four_bytes(a: u8, b: u8, c: u8, d: u8) -> int {
    a + 0x100 * b + 0x1_0000 * c + 0x100_0000 * d
}

/// The value of a pattern but for its sign, in ticks of `2^-149`.
pub open spec fn worth(x: Binary32) -> nat {
    ieee::ticks(x.bits as nat % 0x8000_0000)
}

/// `x` is `k / 32768`.
pub open spec fn is_16th(x: Binary32, k: int) -> bool {
    &&& x.bits >= 0x8000_0000 <==> k < 0
    &&& worth(x) == if k < 0 {
        -k * pow2(134)
    } else {
        k * pow2(134)
    }
}

/// `x` is as near to `k / 127` as any finite value: as the one with the magnitude
/// `other`.
pub open spec fn is_127th(x: Binary32, k: int, other: nat) -> bool {
    let want = if k < 0 {
        -k * pow2(149)
    } else {
        k * pow2(149)
    };
    let off = want - 127 * worth(x);
    let other_off = want - 127 * ieee::ticks(other);
    &&& x.bits >= 0x8000_0000 <==> k < 0
    &&& -other_off <= off <= other_off || other_off <= off <= -other_off
}

/// Decoded `cf32_le` samples are the patterns in the bytes.
pub proof fn lemma_cf32_read(bytes: Seq<u8>, i: int)
    requires
        0 <= i,
        8 * i + 8 <= bytes.len(),
    ensures
        DataType::Cf32Le.decoded(bytes).len() == bytes.len() / 8,
        ({
            let s = DataType::Cf32Le.decoded(bytes)[i];
            let at = 8 * i;
            &&& s.re.bits == four_bytes(bytes[at], bytes[at + 1], bytes[at + 2], bytes[at + 3])
            &&& s.im.bits == four_bytes(bytes[at + 4], bytes[at + 5], bytes[at + 6], bytes[at + 7])
        }),
{
    let c = bytes.subrange(i * 8, (i + 1) * 8);
    assert(DataType::Cf32Le.decoded(bytes)[i] == DataType::Cf32Le.sample_of(c));
}

/// Decoded `ci16_le` samples are the signed numbers in the bytes over 32768.
pub proof fn lemma_ci16_read(bytes: Seq<u8>, i: int)
    requires
        0 <= i,
        4 * i + 4 <= bytes.len(),
    ensures
        DataType::Ci16Le.decoded(bytes).len() == bytes.len() / 4,
        ({
            let s = DataType::Ci16Le.decoded(bytes)[i];
            let at = 4 * i;
            &&& is_16th(s.re, two_bytes(bytes[at], bytes[at + 1]))
            &&& is_16th(s.im, two_bytes(bytes[at + 2], bytes[at + 3]))
        }),
{
    let c = bytes.subrange(i * 4, (i + 1) * 4);
    assert(DataType::Ci16Le.decoded(bytes)[i] == DataType::Ci16Le.sample_of(c));
    floats::lemma_value_of_i16(datatype::le16(c[0], c[1]));
    floats::lemma_value_of_i16(datatype::le16(c[2], c[3]));
}

/// Decoded `ci8` samples are the signed bytes over 127, to the nearest value.
pub proof fn lemma_ci8_read(bytes: Seq<u8>, i: int, other: nat)
    requires
        0 <= i,
        2 * i + 2 <= bytes.len(),
        other < 0x7f80_0000,
    ensures
        DataType::Ci8.decoded(bytes).len() == bytes.len() / 2,
        ({
            let s = DataType::Ci8.decoded(bytes)[i];
            let at = 2 * i;
            &&& is_127th(s.re, one_byte(bytes[at]), other)
            &&& is_127th(s.im, one_byte(bytes[at + 1]), other)
        }),
{
    let c = bytes.subrange(i * 2, (i + 1) * 2);
    assert(DataType::Ci8.decoded(bytes)[i] == DataType::Ci8.sample_of(c));
    floats::lemma_value_of_i8(datatype::signed8(c[0]), other);
    floats::lemma_value_of_i8(datatype::signed8(c[1]), other);
}

/// `k` is what a value `v` is written as in 16 bits: `32768 v` without its
/// fraction, where `-1 <= v < 1`, and the end of the range beyond. What is no
/// number is written as 0.
pub open spec fn cut_to_16(v: Binary32, k: int) -> bool {
    if v.bits as nat % 0x8000_0000 > 0x7f80_0000 {
        k == 0
    } else if v.bits < 0x8000_0000 {
        if worth(v) < pow2(149) {
            0 <= k && k * pow2(134) <= worth(v) < (k + 1) * pow2(134)
        } else {
            k == 0x7fff
        }
    } else if worth(v) <= pow2(149) {
        k <= 0 && -k * pow2(134) <= worth(v) < (-k + 1) * pow2(134)
    } else {
        k == -0x8000
    }
}

/// `k` is what a value `v` is written as in 8 bits: `127 v` without its fraction,
/// where `-128 < 127 v < 127`, and the end of the range beyond. A fraction that
/// is within a part in `2^24` of one counts as one. What is no number is written
/// as 0.
pub open spec fn cut_to_8(v: Binary32, k: int) -> bool {
    let t = 127 * worth(v);
    if v.bits as nat % 0x8000_0000 > 0x7f80_0000 {
        k == 0
    } else if v.bits < 0x8000_0000 {
        if t < 127 * pow2(149) {
            0 <= k && t < (k + 1) * pow2(149) && 0xff_ffff * (k * pow2(149)) <= 0x100_0000 * t
        } else {
            k == 127
        }
    } else if t < 128 * pow2(149) {
        k <= 0 && t < (-k + 1) * pow2(149) && 0xff_ffff * (-k * pow2(149)) <= 0x100_0000 * t
    } else {
        k == -128
    }
}

proof fn lemma_bytes_of_sample(d: DataType, samples: Seq<Sample>, i: int)
    requires
        0 <= i < samples.len(),
    ensures
        d.encoded(samples).len() == samples.len() * d.width(),
        0 <= i * d.width(),
        (i + 1) * d.width() <= d.encoded(samples).len(),
        (i + 1) * d.width() == i * d.width() + d.width(),
        d.encoded(samples).subrange(i * d.width(), (i + 1) * d.width()) == d.bytes_of(samples[i]),
    decreases samples.len(),
{
    let w: int = d.width();
    let n: int = samples.len() as int;
    let head = samples.drop_last();
    datatype::lemma_encoded_length(d, samples);
    datatype::lemma_encoded_length(d, head);
    assert((n - 1) * w + w == n * w && (i + 1) * w == i * w + w && 0 <= i * w && (i + 1) * w <= n
        * w) by (nonlinear_arith)
        requires
            0 <= i < n,
            w > 0,
    ;
    if i < n - 1 {
        lemma_bytes_of_sample(d, head, i);
        assert(d.encoded(samples).subrange(i * w, (i + 1) * w) =~= d.encoded(head).subrange(
            i * w,
            (i + 1) * w,
        ));
    } else {
        assert(d.encoded(samples).subrange(i * w, (i + 1) * w) =~= d.bytes_of(samples[i]));
    }
}

proof fn lemma_two_bytes(k: int)
    requires
        -0x8000 <= k < 0x8000,
    ensures
        two_bytes(datatype::bytes16(k)[0], datatype::bytes16(k)[1]) == k,
{
    let v: int = k % 0x1_0000;
    assert(v == if k < 0 {
        k + 0x1_0000
    } else {
        k
    });
    assert(v == v % 0x100 + 0x100 * (v / 0x100));
}

/// Written `cf32_le` samples are their patterns.
pub proof fn lemma_cf32_written(samples: Seq<Sample>, i: int)
    requires
        0 <= i < samples.len(),
    ensures
        ({
            let b = DataType::Cf32Le.encoded(samples);
            let at = 8 * i;
            &&& b.len() == 8 * samples.len()
            &&& four_bytes(b[at], b[at + 1], b[at + 2], b[at + 3]) == samples[i].re.bits
            &&& four_bytes(b[at + 4], b[at + 5], b[at + 6], b[at + 7]) == samples[i].im.bits
        }),
{
    let d = DataType::Cf32Le;
    datatype::lemma_float_samples_are_read_back(samples);
    datatype::lemma_encoded_length(d, samples);
    lemma_cf32_read(d.encoded(samples), i);
}

/// Written `ci16_le` samples are their components times 32768, without the
/// fraction.
pub proof fn lemma_ci16_written(samples: Seq<Sample>, i: int)
    requires
        0 <= i < samples.len(),
    ensures
        ({
            let b = DataType::Ci16Le.encoded(samples);
            let at = 4 * i;
            &&& b.len() == 4 * samples.len()
            &&& cut_to_16(samples[i].re, two_bytes(b[at], b[at + 1]))
            &&& cut_to_16(samples[i].im, two_bytes(b[at + 2], b[at + 3]))
        }),
{
    let d = DataType::Ci16Le;
    let s = samples[i];
    let b = d.encoded(samples);
    lemma_bytes_of_sample(d, samples, i);
    let c = b.subrange(i * 4, (i + 1) * 4);
    assert(c == d.bytes_of(s));
    floats::lemma_i16_of_value(s.re);
    floats::lemma_i16_of_value(s.im);
    lemma_two_bytes(s.re.as_i16());
    lemma_two_bytes(s.im.as_i16());
    assert(c[0] == b[4 * i] && c[1] == b[4 * i + 1] && c[2] == b[4 * i + 2] && c[3] == b[4 * i
        + 3]);
}

/// Written `ci8` samples are their components times 127, without the fraction.
pub proof fn lemma_ci8_written(samples: Seq<Sample>, i: int)
    requires
        0 <= i < samples.len(),
    ensures
        ({
            let b = DataType::Ci8.encoded(samples);
            let at = 2 * i;
            &&& b.len() == 2 * samples.len()
            &&& cut_to_8(samples[i].re, one_byte(b[at]))
            &&& cut_to_8(samples[i].im, one_byte(b[at + 1]))
        }),
{
    let d = DataType::Ci8;
    let s = samples[i];
    let b = d.encoded(samples);
    lemma_bytes_of_sample(d, samples, i);
    let c = b.subrange(i * 2, (i + 1) * 2);
    assert(c == d.bytes_of(s));
    assert(c[0] == b[2 * i] && c[1] == b[2 * i + 1]);
    floats::lemma_i8_of_value(s.re);
    floats::lemma_i8_of_value(s.im);
    lemma_byte8(s.re.as_i8());
    lemma_byte8(s.im.as_i8());
}

proof fn lemma_byte8(k: int)
    requires
        -128 <= k <= 127,
    ensures
        one_byte(datatype::byte8(k)) == k,
{
    assert(k % 0x100 == if k < 0 {
        k + 0x100
    } else {
        k
    });
}

/// `w` is `v` to 16 bits: of its sign, or zero; no larger, and less than
/// `1 / 32768` smaller, where `-1 <= v < 1`.
pub open spec fn kept_to_16(v: Binary32, w: Binary32) -> bool {
    if v.bits as nat % 0x8000_0000 > 0x7f80_0000 {
        worth(w) == 0
    } else {
        &&& worth(w) > 0 ==> (w.bits >= 0x8000_0000 <==> v.bits >= 0x8000_0000)
        &&& v.bits < 0x8000_0000 && worth(v) >= pow2(149) ==> worth(w) == 0x7fff * pow2(134)
        &&& v.bits >= 0x8000_0000 && worth(v) > pow2(149) ==> worth(w) == pow2(149)
        &&& (worth(v) < pow2(149) || (v.bits >= 0x8000_0000 && worth(v) == pow2(149))) ==> worth(w)
            <= worth(v) < worth(w) + pow2(134)
    }
}

proof fn lemma_kept_to_16(v: Binary32, k: int, w: Binary32)
    requires
        -0x8000 <= k <= 0x7fff,
        cut_to_16(v, k),
        is_16th(w, k),
    ensures
        kept_to_16(v, w),
{
    let p: nat = pow2(134);
    lemma2_to64();
    lemma_pow2_pos(134);
    lemma_pow2_adds(15, 134);
    assert((k + 1) * p == k * p + p && (-k + 1) * p == -k * p + p) by (nonlinear_arith);
    assert(0 * p == 0);
}

/// What is written as `ci16_le`, whatever its value, reads back as the same to 16
/// bits.
pub proof fn lemma_ci16_read_back(samples: Seq<Sample>, i: int)
    requires
        0 <= i < samples.len(),
    ensures
        ({
            let back = DataType::Ci16Le.decoded(DataType::Ci16Le.encoded(samples));
            &&& back.len() == samples.len()
            &&& kept_to_16(samples[i].re, back[i].re)
            &&& kept_to_16(samples[i].im, back[i].im)
        }),
{
    let b = DataType::Ci16Le.encoded(samples);
    lemma_ci16_written(samples, i);
    lemma_ci16_read(b, i);
    let back = DataType::Ci16Le.decoded(b);
    let at: int = 4 * i;
    lemma_kept_to_16(samples[i].re, two_bytes(b[at], b[at + 1]), back[i].re);
    lemma_kept_to_16(samples[i].im, two_bytes(b[at + 2], b[at + 3]), back[i].im);
}

/// `w` is `v` to 8 bits: of its sign, or zero; and off by less than
/// `1 / 127 + 2^-23`, where `-128 < 127 v < 127`.
pub open spec fn kept_to_8(v: Binary32, w: Binary32) -> bool {
    let off = 127 * worth(v) - 127 * worth(w);
    if v.bits as nat % 0x8000_0000 > 0x7f80_0000 {
        worth(w) == 0
    } else {
        &&& worth(w) > 0 ==> (w.bits >= 0x8000_0000 <==> v.bits >= 0x8000_0000)
        &&& 127 * worth(v) < (if v.bits < 0x8000_0000 {
            127int
        } else {
            128
        }) * pow2(149) ==> {
            &&& 0x1_0000 * off < 0x1_0001 * pow2(149)
            &&& 0x1_0000 * off >= -2 * pow2(149)
        }
    }
}

/// What is written as `ci8`, whatever its value, reads back as the same to 8
/// bits.
pub proof fn lemma_ci8_read_back(samples: Seq<Sample>, i: int)
    requires
        0 <= i < samples.len(),
    ensures
        ({
            let back = DataType::Ci8.decoded(DataType::Ci8.encoded(samples));
            &&& back.len() == samples.len()
            &&& kept_to_8(samples[i].re, back[i].re)
            &&& kept_to_8(samples[i].im, back[i].im)
        }),
{
    let d = DataType::Ci8;
    let b = d.encoded(samples);
    lemma_ci8_written(samples, i);
    lemma_ci8_read(b, i, 0);
    let c = b.subrange(i * 2, (i + 1) * 2);
    assert(d.decoded(b)[i] == d.sample_of(c));
    lemma_kept_to_8(samples[i].re, datatype::signed8(b[2 * i]));
    lemma_kept_to_8(samples[i].im, datatype::signed8(b[2 * i + 1]));
}

#[verifier::spinoff_prover]
#[verifier::rlimit(50)]
proof fn lemma_kept_to_8(v: Binary32, k: i8)
    requires
        cut_to_8(v, k as int),
    ensures
        kept_to_8(v, Binary32::of_i8(k)),
{
    let w = Binary32::of_i8(k);
    let p: nat = pow2(149);
    let m: nat = ieee::size(k as int);
    let kp: nat = m * p;
    let e: int = kp - 127 * worth(w);
    lemma_pow2_pos(149);
    lemma2_to64();
    floats::lemma_ticks(0);
    floats::lemma_value_of_i8(k, 0);
    assert(ieee::size(e) * 0x100_0000 <= 2 * kp);
    assert(kp <= 128 * p) by (nonlinear_arith)
        requires
            kp == m * p,
            m <= 128,
    ;
    assert((m + 1) * p == kp + p) by (nonlinear_arith)
        requires
            kp == m * p,
    ;
    assert(m == 0 ==> kp == 0) by (nonlinear_arith)
        requires
            kp == m * p,
    ;
    assert(k < 0 ==> -k * p == kp);
    assert(k >= 0 ==> k * p == kp);
}

/// The texts that name a format, and no others.
pub proof fn lemma_format_names(s: Seq<char>)
    ensures
        DataType::named(s) == Some(DataType::Cf32Le) <==> s == "cf32_le"@ || s == "cf32"@,
        DataType::named(s) == Some(DataType::Ci16Le) <==> s == "ci16_le"@ || s == "ci16"@,
        DataType::named(s) == Some(DataType::Ci8) <==> s == "ci8"@ || s == "ci8_le"@,
        DataType::named(s) is None <==> s != "cf32_le"@ && s != "cf32"@ && s != "ci16_le"@ && s
            != "ci16"@ && s != "ci8"@ && s != "ci8_le"@,
{
    reveal_strlit("cf32_le");
    reveal_strlit("cf32");
    reveal_strlit("ci16_le");
    reveal_strlit("ci16");
    reveal_strlit("ci8");
    reveal_strlit("ci8_le");
    assert("cf32_le"@.len() == 7 && "cf32_le"@[1] == 'f');
    assert("cf32"@.len() == 4 && "cf32"@[1] == 'f');
    assert("ci16_le"@.len() == 7 && "ci16_le"@[1] == 'i');
    assert("ci16"@.len() == 4 && "ci16"@[1] == 'i');
    assert("ci8"@.len() == 3);
    assert("ci8_le"@.len() == 6);
}

/// A format is written under the name that ends in its byte order, where it has
/// one.
pub proof fn lemma_format_is_written_by_its_name(d: DataType)
    ensures
        d == DataType::Cf32Le ==> d.name() == "cf32_le"@ && d.width() == 8,
        d == DataType::Ci16Le ==> d.name() == "ci16_le"@ && d.width() == 4,
        d == DataType::Ci8 ==> d.name() == "ci8"@ && d.width() == 2,
{
}

} // verus!
