//! The sample formats of a data file.

use crate::ieee;
use crate::ieee::Binary32;
use crate::text::same_text;
use vstd::prelude::*;
use vstd::string::*;

verus! {

/// One IQ sample.
#[derive(Clone, Copy, Debug, PartialEq, Eq, Structural)]
pub struct Sample {
    pub re: Binary32,
    pub im: Binary32,
}

/// Supported SigMF datatypes. SigMF allows many more (signed/unsigned integer
/// widths from 8 to 64 bits, big-endian variants, real-only, etc.); this is
/// the subset that can be decoded.
#[derive(Clone, Copy, Debug, PartialEq, Eq, Structural)]
pub enum DataType {
    /// `cf32_le`: interleaved IEEE 754 32-bit floats, little-endian.
    Cf32Le,
    /// `ci16_le`: interleaved signed 16-bit integers, little-endian, scaled by
    /// `1 / 32768` so that a decoded sample lies on the unit disc.
    Ci16Le,
    /// `ci8`: interleaved signed 8-bit integers, scaled by `1 / 127`.
    Ci8,
}

/// A `core:datatype` that is not one of the supported ones.
#[derive(Clone, Debug)]
pub struct UnsupportedDataType {
    pub datatype: String,
}

/// How the `Debug` formatting of std writes a text: in double quotes, with some
/// characters escaped.
pub uninterp spec fn quoted(s: Seq<char>) -> Seq<char>;

/// The `Debug` formatting of `str`, through `format!`. What it writes is a
/// function of the text alone and goes by the name [`quoted`]; which characters
/// it escapes is not stated.
#[verifier::external_body]
fn quote(s: &str) -> (r: String)
    ensures
        r@ == quoted(s@),
{
    format!("{:?}", s)
}

impl UnsupportedDataType {
    /// The error in words.
    pub fn message(&self) -> (m: String)
        ensures
            m@ == "unsupported SigMF datatype "@ + quoted(self.datatype@)
                + " (this reader handles cf32_le, ci16_le, and ci8)"@,
    {
        unsupported_message(quote(self.datatype.as_str()).as_str())
    }
}

/// What is said of a datatype, given in quotes, that is not supported.
pub fn unsupported_message(datatype: &str) -> (m: String)
    ensures
        m@ == "unsupported SigMF datatype "@ + datatype@
            + " (this reader handles cf32_le, ci16_le, and ci8)"@,
{
    let mut m: String = "unsupported SigMF datatype ".to_owned();
    m.append(datatype);
    m.append(" (this reader handles cf32_le, ci16_le, and ci8)");
    m
}

/// The 16-bit component that two bytes hold, low byte first.
pub open spec fn le16(a: u8, b: u8) -> i16 {
    let v = a + 0x100 * b;
    if v < 0x8000 {
        v as i16
    } else {
        (v - 0x1_0000) as i16
    }
}

/// The pattern that four bytes hold, low byte first.
pub open spec fn le32(a: u8, b: u8, c: u8, d: u8) -> u32 {
    (a + 0x100 * b + 0x1_0000 * c + 0x100_0000 * d) as u32
}

/// The 8-bit component that a byte holds.
pub open spec fn signed8(a: u8) -> i8 {
    if a < 0x80 {
        a as i8
    } else {
        (a - 0x100) as i8
    }
}

/// The two bytes of a 16-bit component, low byte first.
pub open spec fn bytes16(k: int) -> Seq<u8> {
    let v = k % 0x1_0000;
    seq![(v % 0x100) as u8, (v / 0x100) as u8]
}

/// The byte of an 8-bit component.
pub open spec fn byte8(k: int) -> u8 {
    (k % 0x100) as u8
}

/// The four bytes of a pattern, low byte first.
pub open spec fn bytes32(v: u32) -> Seq<u8> {
    seq![
        (v % 0x100) as u8,
        (v / 0x100 % 0x100) as u8,
        (v / 0x1_0000 % 0x100) as u8,
        (v / 0x100_0000) as u8,
    ]
}

impl DataType {
    /// The number of bytes of one IQ pair.
    pub open spec fn width(self) -> int {
        match self {
            DataType::Cf32Le => 8,
            DataType::Ci16Le => 4,
            DataType::Ci8 => 2,
        }
    }

    /// The sample that `width` bytes hold.
    pub open spec fn sample_of(self, c: Seq<u8>) -> Sample {
        match self {
            DataType::Cf32Le => Sample {
                re: Binary32 { bits: le32(c[0], c[1], c[2], c[3]) },
                im: Binary32 { bits: le32(c[4], c[5], c[6], c[7]) },
            },
            DataType::Ci16Le => Sample {
                re: Binary32::of_i16(le16(c[0], c[1])),
                im: Binary32::of_i16(le16(c[2], c[3])),
            },
            DataType::Ci8 => Sample {
                re: Binary32::of_i8(signed8(c[0])),
                im: Binary32::of_i8(signed8(c[1])),
            },
        }
    }

    /// The samples that `bytes` hold; a partial one at the end is no sample.
    pub open spec fn decoded(self, bytes: Seq<u8>) -> Seq<Sample> {
        Seq::new(
            (bytes.len() as int / self.width()) as nat,
            |i: int| self.sample_of(bytes.subrange(i * self.width(), (i + 1) * self.width())),
        )
    }

    /// The bytes that stand for a sample.
    pub open spec fn bytes_of(self, s: Sample) -> Seq<u8> {
        match self {
            DataType::Cf32Le => bytes32(s.re.bits) + bytes32(s.im.bits),
            DataType::Ci16Le => bytes16(s.re.as_i16()) + bytes16(s.im.as_i16()),
            DataType::Ci8 => seq![byte8(s.re.as_i8()), byte8(s.im.as_i8())],
        }
    }

    /// The bytes that stand for `samples`, one sample after another.
    pub open spec fn encoded(self, samples: Seq<Sample>) -> Seq<u8>
        decreases samples.len(),
    {
        if samples.len() == 0 {
            seq![]
        } else {
            self.encoded(samples.drop_last()) + self.bytes_of(samples.last())
        }
    }

    /// The `core:datatype` text of this format.
    pub open spec fn name(self) -> Seq<char> {
        match self {
            DataType::Cf32Le => "cf32_le"@,
            DataType::Ci16Le => "ci16_le"@,
            DataType::Ci8 => "ci8"@,
        }
    }

    /// The format that a `core:datatype` text names, if it is supported.
    pub open spec fn named(s: Seq<char>) -> Option<DataType> {
        if s == "cf32_le"@ || s == "cf32"@ {
            Some(DataType::Cf32Le)
        } else if s == "ci16_le"@ || s == "ci16"@ {
            Some(DataType::Ci16Le)
        } else if s == "ci8"@ || s == "ci8_le"@ {
            Some(DataType::Ci8)
        } else {
            None
        }
    }

    /// Number of bytes per IQ pair on disk.
    pub fn bytes_per_sample(self) -> (n: usize)
        ensures
            n == self.width(),
    {
        match self {
            DataType::Cf32Le => 8,
            DataType::Ci16Le => 4,
            DataType::Ci8 => 2,
        }
    }

    /// Parse a SigMF `core:datatype` string. The error is any string, valid
    /// in SigMF or not, that names no supported format.
    pub fn from_spec(s: &str) -> (r: Result<DataType, UnsupportedDataType>)
        ensures
            match r {
                Ok(d) => Self::named(s@) == Some(d),
                Err(e) => Self::named(s@) is None && e.datatype@ == s@,
            },
    {
        if same_text(s, "cf32_le") || same_text(s, "cf32") {
            Ok(DataType::Cf32Le)
        } else if same_text(s, "ci16_le") || same_text(s, "ci16") {
            Ok(DataType::Ci16Le)
        } else if same_text(s, "ci8") || same_text(s, "ci8_le") {
            Ok(DataType::Ci8)
        } else {
            Err(UnsupportedDataType { datatype: s.to_owned() })
        }
    }

    /// Inverse of [`DataType::from_spec`]: the `core:datatype` string that
    /// this format is tagged with on write.
    pub fn to_spec(self) -> (s: &'static str)
        ensures
            s@ == self.name(),
    {
        match self {
            DataType::Cf32Le => "cf32_le",
            DataType::Ci16Le => "ci16_le",
            DataType::Ci8 => "ci8",
        }
    }

    fn decode_sample(self, bytes: &[u8], at: usize) -> (s: Sample)
        requires
            at + self.width() <= bytes@.len(),
        ensures
            s == self.sample_of(bytes@.subrange(at as int, at + self.width())),
    {
        match self {
            DataType::Cf32Le => Sample {
                re: Binary32 {
                    bits: read_le32(bytes[at], bytes[at + 1], bytes[at + 2], bytes[at + 3]),
                },
                im: Binary32 {
                    bits: read_le32(bytes[at + 4], bytes[at + 5], bytes[at + 6], bytes[at + 7]),
                },
            },
            DataType::Ci16Le => Sample {
                re: Binary32::from_i16(read_le16(bytes[at], bytes[at + 1])),
                im: Binary32::from_i16(read_le16(bytes[at + 2], bytes[at + 3])),
            },
            DataType::Ci8 => Sample {
                re: Binary32::from_i8(read_signed8(bytes[at])),
                im: Binary32::from_i8(read_signed8(bytes[at + 1])),
            },
        }
    }

    /// Decode a byte buffer, after what `out` already holds. Trailing bytes
    /// that make no whole sample are dropped.
    pub fn decode_into(self, bytes: &[u8], out: &mut Vec<Sample>)
        ensures
            final(out)@ == old(out)@ + self.decoded(bytes@),
    {
        let n: usize = self.bytes_per_sample();
        let total: usize = bytes.len();
        let pairs: usize = total / n;
        let ghost before = out@;
        let mut i: usize = 0;
        while i < pairs
            invariant
                n == self.width(),
                2 <= n <= 8,
                total == bytes@.len(),
                pairs == bytes@.len() / n as nat,
                i <= pairs,
                out@ == before + self.decoded(bytes@).take(i as int),
            decreases pairs - i,
        {
            assert((i + 1) * n <= bytes@.len()) by (nonlinear_arith)
                requires
                    i + 1 <= pairs,
                    pairs == bytes@.len() / n as nat,
                    n > 0,
            ;
            assert(i * n + n == (i + 1) * n) by (nonlinear_arith);
            let s = self.decode_sample(bytes, i * n);
            assert(s == self.decoded(bytes@)[i as int]);
            assert(self.decoded(bytes@).take(i + 1) =~= self.decoded(bytes@).take(i as int).push(s));
            out.push(s);
            i = i + 1;
        }
        assert(self.decoded(bytes@).take(pairs as int) =~= self.decoded(bytes@));
    }

    /// Decode a byte buffer. Trailing bytes that make no whole sample are
    /// dropped.
    pub fn decode(self, bytes: &[u8]) -> (r: Vec<Sample>)
        ensures
            r@ == self.decoded(bytes@),
    {
        let mut out: Vec<Sample> = Vec::with_capacity(bytes.len() / self.bytes_per_sample());
        self.decode_into(bytes, &mut out);
        out
    }

    /// Encode samples, after what `out` already holds. The integer formats
    /// scale from the unit disc and saturate at the ends of their range.
    pub fn encode_into(self, samples: &[Sample], out: &mut Vec<u8>)
        ensures
            final(out)@ == old(out)@ + self.encoded(samples@),
    {
        let ghost before = out@;
        let mut i: usize = 0;
        while i < samples.len()
            invariant
                i <= samples@.len(),
                out@ == before + self.encoded(samples@.take(i as int)),
            decreases samples@.len() - i,
        {
            let s = samples[i];
            let ghost so_far = out@;
            match self {
                DataType::Cf32Le => {
                    push_le32(s.re.bits, out);
                    push_le32(s.im.bits, out);
                },
                DataType::Ci16Le => {
                    push_le16(s.re.to_i16(), out);
                    push_le16(s.im.to_i16(), out);
                },
                DataType::Ci8 => {
                    out.push(low_byte8(s.re.to_i8()));
                    out.push(low_byte8(s.im.to_i8()));
                },
            }
            assert(out@ =~= so_far + self.bytes_of(s));
            assert(samples@.take(i + 1).drop_last() =~= samples@.take(i as int));
            i = i + 1;
        }
        assert(samples@.take(i as int) =~= samples@);
    }
}

fn read_le16(a: u8, b: u8) -> (k: i16)
    ensures
        k == le16(a, b),
{
    let v: i32 = a as i32 + 0x100 * (b as i32);
    if v < 0x8000 {
        v as i16
    } else {
        (v - 0x1_0000) as i16
    }
}

fn read_le32(a: u8, b: u8, c: u8, d: u8) -> (v: u32)
    ensures
        v == le32(a, b, c, d),
{
    a as u32 + 0x100 * (b as u32) + 0x1_0000 * (c as u32) + 0x100_0000 * (d as u32)
}

fn read_signed8(a: u8) -> (k: i8)
    ensures
        k == signed8(a),
{
    if a < 0x80 {
        a as i8
    } else {
        (a as i16 - 0x100) as i8
    }
}

fn low_byte8(k: i8) -> (b: u8)
    ensures
        b == byte8(k as int),
{
    if k < 0 {
        (k as i16 + 0x100) as u8
    } else {
        k as u8
    }
}

#[verifier::spinoff_prover]
fn push_le16(k: i16, out: &mut Vec<u8>)
    ensures
        final(out)@ == old(out)@ + bytes16(k as int),
{
    let v: u32 = if k < 0 {
        (k as i32 + 0x1_0000) as u32
    } else {
        k as u32
    };
    assert(k as int % 0x1_0000 == v);
    let low: u8 = (v % 0x100) as u8;
    let high: u8 = (v / 0x100) as u8;
    assert(bytes16(k as int) =~= seq![low, high]);
    out.push(low);
    out.push(high);
}

#[verifier::spinoff_prover]
fn push_le32(v: u32, out: &mut Vec<u8>)
    ensures
        final(out)@ == old(out)@ + bytes32(v),
{
    out.push((v % 0x100) as u8);
    out.push((v / 0x100 % 0x100) as u8);
    out.push((v / 0x1_0000 % 0x100) as u8);
    out.push((v / 0x100_0000) as u8);
    assert(out@ =~= old(out)@ + bytes32(v));
}

/// The text that a format is tagged with on write names that format on read.
pub proof fn lemma_name_is_read_back(d: DataType)
    ensures
        DataType::named(d.name()) == Some(d),
{
    reveal_strlit("cf32_le");
    reveal_strlit("cf32");
    reveal_strlit("ci16_le");
    reveal_strlit("ci16");
    reveal_strlit("ci8");
    reveal_strlit("ci8_le");
    let name = d.name();
    if d == DataType::Ci16Le {
        assert(name[1] == 'i');
        assert("cf32_le"@[1] == 'f');
        assert("cf32"@[1] == 'f');
    } else if d == DataType::Ci8 {
        assert(name.len() == 3);
        assert("cf32_le"@.len() == 7 && "cf32"@.len() == 4);
        assert("ci16_le"@.len() == 7 && "ci16"@.len() == 4);
    }
}

#[verifier::spinoff_prover]
proof fn lemma_bytes32(a: u8, b: u8, c: u8, d: u8)
    ensures
        bytes32(le32(a, b, c, d)) == seq![a, b, c, d],
{
    let v: u32 = le32(a, b, c, d);
    assert(v == a + 0x100 * b + 0x1_0000 * c + 0x100_0000 * d);
    assert(v % 0x100 == a);
    assert(v / 0x100 == b + 0x100 * c + 0x1_0000 * d);
    assert(v / 0x1_0000 == c + 0x100 * d);
    assert(v / 0x100_0000 == d);
    assert(bytes32(v) =~= seq![a, b, c, d]);
}

#[verifier::spinoff_prover]
proof fn lemma_le32(v: u32)
    ensures
        ({
            let c = bytes32(v);
            le32(c[0], c[1], c[2], c[3]) == v
        }),
{
    let a: int = v as int / 0x100;
    let b: int = v as int / 0x1_0000;
    let c: int = v as int / 0x100_0000;
    assert(b == a / 0x100);
    assert(c == b / 0x100);
    assert(v == v % 0x100 + 0x100 * (a % 0x100) + 0x1_0000 * (b % 0x100) + 0x100_0000 * c);
}

#[verifier::spinoff_prover]
proof fn lemma_bytes16(a: u8, b: u8)
    ensures
        bytes16(le16(a, b) as int) == seq![a, b],
{
    let v: int = a + 0x100 * b;
    assert(le16(a, b) as int % 0x1_0000 == v);
    assert(bytes16(le16(a, b) as int) =~= seq![a, b]);
}

/// What stands for a sample in a data file, read back and written again, is
/// the same bytes: no format loses anything between a read and a write.
proof fn lemma_sample_is_written_back(d: DataType, c: Seq<u8>)
    requires
        c.len() == d.width(),
    ensures
        d.bytes_of(d.sample_of(c)) == c,
{
    match d {
        DataType::Cf32Le => {
            lemma_bytes32(c[0], c[1], c[2], c[3]);
            lemma_bytes32(c[4], c[5], c[6], c[7]);
        },
        DataType::Ci16Le => {
            ieee::lemma_i16_round_trip(le16(c[0], c[1]));
            ieee::lemma_i16_round_trip(le16(c[2], c[3]));
            lemma_bytes16(c[0], c[1]);
            lemma_bytes16(c[2], c[3]);
        },
        DataType::Ci8 => {
            ieee::lemma_i8_round_trip(signed8(c[0]));
            ieee::lemma_i8_round_trip(signed8(c[1]));
            assert(byte8(signed8(c[0]) as int) == c[0]);
            assert(byte8(signed8(c[1]) as int) == c[1]);
        },
    }
    assert(d.bytes_of(d.sample_of(c)) =~= c);
}

/// Bytes that hold whole samples are decoded and encoded again to themselves.
pub proof fn lemma_decoded_bytes_encode_back(d: DataType, bytes: Seq<u8>)
    requires
        bytes.len() as int % d.width() == 0,
    ensures
        d.encoded(d.decoded(bytes)) == bytes,
    decreases bytes.len(),
{
    let samples = d.decoded(bytes);
    if bytes.len() == 0 {
        assert(samples.len() == 0);
        assert(d.encoded(samples) =~= bytes);
    } else {
        let w: int = d.width();
        let n: int = samples.len() as int;
        let head = bytes.take(bytes.len() - w);
        let last = bytes.skip(bytes.len() - w);
        assert(n * w == bytes.len() && n >= 1) by {
            match d {
                DataType::Cf32Le => {},
                DataType::Ci16Le => {},
                DataType::Ci8 => {},
            }
        }
        assert((n - 1) * w == bytes.len() - w) by (nonlinear_arith)
            requires
                n * w == bytes.len(),
        ;
        lemma_decoded_bytes_encode_back(d, head);
        lemma_decoding_splits(d, head, last);
        assert(head + last =~= bytes);
        lemma_one_sample(d, last);
        assert(samples.drop_last() =~= d.decoded(head));
        assert(samples.last() == d.sample_of(last));
        lemma_sample_is_written_back(d, last);
        assert(d.encoded(samples) =~= bytes);
    }
}

/// `width` bytes hold one sample.
proof fn lemma_one_sample(d: DataType, c: Seq<u8>)
    requires
        c.len() == d.width(),
    ensures
        d.decoded(c) == seq![d.sample_of(c)],
{
    assert(c.subrange(0, d.width()) =~= c);
    assert(d.decoded(c) =~= seq![d.sample_of(c)]);
}

/// Where bytes are parted between two samples, the parts decode on their own.
pub proof fn lemma_decoding_splits(d: DataType, a: Seq<u8>, b: Seq<u8>)
    requires
        a.len() as int % d.width() == 0,
    ensures
        d.decoded(a + b) == d.decoded(a) + d.decoded(b),
{
    let w: int = d.width();
    let n: int = d.decoded(a).len() as int;
    assert(n * w == a.len()) by {
        match d {
            DataType::Cf32Le => {},
            DataType::Ci16Le => {},
            DataType::Ci8 => {},
        }
    }
    assert(d.decoded(a + b).len() == n + d.decoded(b).len()) by {
        match d {
            DataType::Cf32Le => {},
            DataType::Ci16Le => {},
            DataType::Ci8 => {},
        }
    }
    assert forall|i: int| 0 <= i < d.decoded(a + b).len() implies d.decoded(a + b)[i] == (d.decoded(a)
        + d.decoded(b))[i] by {
        if i < n {
            assert((i + 1) * w <= a.len() && 0 <= i * w) by (nonlinear_arith)
                requires
                    0 <= i,
                    i + 1 <= n,
                    n * w == a.len(),
                    w > 0,
            ;
            assert((a + b).subrange(i * w, (i + 1) * w) =~= a.subrange(i * w, (i + 1) * w));
        } else {
            let j: int = i - n;
            let m: int = d.decoded(b).len() as int;
            assert(m * w <= b.len()) by {
                match d {
                    DataType::Cf32Le => {},
                    DataType::Ci16Le => {},
                    DataType::Ci8 => {},
                }
            }
            assert(i * w == a.len() + j * w && (i + 1) * w == a.len() + (j + 1) * w && 0 <= j * w
                && (j + 1) * w <= b.len() && (j + 1) * w == j * w + w) by (nonlinear_arith)
                requires
                    i == n + j,
                    n * w == a.len(),
                    0 <= j,
                    j + 1 <= m,
                    m * w <= b.len(),
                    w > 0,
            ;
            assert((a + b).subrange(i * w, (i + 1) * w) =~= b.subrange(j * w, (j + 1) * w));
        }
    }
    assert(d.decoded(a + b) =~= d.decoded(a) + d.decoded(b));
}

/// Samples written in parts stand in the file as if written at once.
pub proof fn lemma_encoding_splits(d: DataType, a: Seq<Sample>, b: Seq<Sample>)
    ensures
        d.encoded(a + b) == d.encoded(a) + d.encoded(b),
    decreases b.len(),
{
    if b.len() == 0 {
        assert(a + b =~= a);
        assert(d.encoded(a + b) =~= d.encoded(a) + d.encoded(b));
    } else {
        assert((a + b).drop_last() =~= a + b.drop_last());
        lemma_encoding_splits(d, a, b.drop_last());
        assert(d.encoded(a + b) =~= d.encoded(a) + d.encoded(b));
    }
}

/// A format writes `width` bytes for each sample.
pub proof fn lemma_encoded_length(d: DataType, samples: Seq<Sample>)
    ensures
        d.encoded(samples).len() == samples.len() * d.width(),
    decreases samples.len(),
{
    if samples.len() > 0 {
        lemma_encoded_length(d, samples.drop_last());
        let n: int = samples.len() as int;
        assert((n - 1) * d.width() + d.width() == n * d.width()) by (nonlinear_arith);
    }
}

/// `cf32_le` gives back every sample that was written, bit for bit.
pub proof fn lemma_float_samples_are_read_back(samples: Seq<Sample>)
    ensures
        DataType::Cf32Le.decoded(DataType::Cf32Le.encoded(samples)) == samples,
    decreases samples.len(),
{
    let d = DataType::Cf32Le;
    if samples.len() == 0 {
        assert(d.decoded(d.encoded(samples)) =~= samples);
    } else {
        let head = samples.drop_last();
        let s = samples.last();
        let c = d.bytes_of(s);
        lemma_float_samples_are_read_back(head);
        lemma_encoded_length(d, head);
        lemma_decoding_splits(d, d.encoded(head), c);
        lemma_one_sample(d, c);
        lemma_le32(s.re.bits);
        lemma_le32(s.im.bits);
        assert(c.take(4) =~= bytes32(s.re.bits));
        assert(c.skip(4) =~= bytes32(s.im.bits));
        assert(d.sample_of(c) == s);
        assert(d.decoded(d.encoded(samples)) =~= samples);
    }
}

} // verus!
