use orecchiette_sdr_file_rs::ieee::{Binary32, Binary64};
use orecchiette_sdr_file_rs::raw::{extension_datatype, raw_datatype};
use orecchiette_sdr_file_rs::sigmf::{DataType, Sample};

fn f(x: Binary32) -> f32 {
    f32::from_bits(x.bits)
}

fn b(x: f32) -> Binary32 {
    Binary32 { bits: x.to_bits() }
}

fn d(x: f64) -> Binary64 {
    Binary64 { bits: x.to_bits() }
}

fn sample(re: f32, im: f32) -> Sample {
    Sample { re: b(re), im: b(im) }
}

/// Values of every size and sign, and those about the ends of the ranges.
fn odd_values() -> Vec<f32> {
    let mut values = vec![
        0.0,
        -0.0,
        1.0,
        -1.0,
        0.5,
        0.999999,
        1.0000001,
        -1.0000001,
        1e-30,
        -1e-30,
        1e30,
        -1e30,
        f32::MIN_POSITIVE,
        f32::from_bits(1),
        f32::MAX,
        f32::MIN,
        f32::INFINITY,
        f32::NEG_INFINITY,
        f32::NAN,
        -f32::NAN,
        1.0078740,
        -1.0078740,
        32767.0 / 32768.0,
        32767.5 / 32768.0,
        -32768.5 / 32768.0,
    ];
    let mut x: u32 = 0x1234_5678;
    for _ in 0..20_000 {
        x ^= x << 13;
        x ^= x >> 17;
        x ^= x << 5;
        values.push(f32::from_bits(x));
        values.push((x as f32 / u32::MAX as f32) * 2.5 - 1.25);
    }
    values
}

#[test]
fn datatype_from_spec_recognises_supported() {
    assert_eq!(DataType::from_spec("cf32_le").unwrap(), DataType::Cf32Le);
    assert_eq!(DataType::from_spec("cf32").unwrap(), DataType::Cf32Le);
    assert_eq!(DataType::from_spec("ci16_le").unwrap(), DataType::Ci16Le);
    assert_eq!(DataType::from_spec("ci16").unwrap(), DataType::Ci16Le);
    assert_eq!(DataType::from_spec("ci8_le").unwrap(), DataType::Ci8);
    assert_eq!(DataType::from_spec("ci8").unwrap(), DataType::Ci8);
}

#[test]
fn datatype_from_spec_rejects_unsupported() {
    // SigMF has many more:
    for unsupported in &["cu8", "cf64_le", "ri16", "ci32_be", "cu16_le", "garbage"] {
        assert!(
            DataType::from_spec(unsupported).is_err(),
            "expected {unsupported:?} to be rejected"
        );
    }
}

#[test]
fn an_unsupported_datatype_is_named_in_quotes() {
    let e = DataType::from_spec("cu8").unwrap_err();
    assert_eq!(e.datatype, "cu8");
    assert_eq!(
        e.message(),
        "unsupported SigMF datatype \"cu8\" (this reader handles cf32_le, ci16_le, and ci8)"
    );
    let e = DataType::from_spec("a\"b\n").unwrap_err();
    assert_eq!(
        e.message(),
        "unsupported SigMF datatype \"a\\\"b\\n\" (this reader handles cf32_le, ci16_le, and ci8)"
    );
}

#[test]
fn names_are_read_back() {
    for t in [DataType::Cf32Le, DataType::Ci16Le, DataType::Ci8] {
        assert_eq!(DataType::from_spec(t.to_spec()).unwrap(), t);
    }
    assert_eq!(DataType::Cf32Le.to_spec(), "cf32_le");
    assert_eq!(DataType::Ci16Le.to_spec(), "ci16_le");
    assert_eq!(DataType::Ci8.to_spec(), "ci8");
}

#[test]
fn widths() {
    assert_eq!(DataType::Cf32Le.bytes_per_sample(), 8);
    assert_eq!(DataType::Ci16Le.bytes_per_sample(), 4);
    assert_eq!(DataType::Ci8.bytes_per_sample(), 2);
}

#[test]
fn raw_f32_decodes_as_cf32_le() {
    // Encode two IQ pairs as little-endian f32, then decode.
    let samples = [(1.5f32, -2.5f32), (0.25, 0.5)];
    let mut bytes = Vec::with_capacity(samples.len() * 8);
    for s in samples {
        bytes.extend_from_slice(&s.0.to_le_bytes());
        bytes.extend_from_slice(&s.1.to_le_bytes());
    }
    let decoded = raw_datatype("x.cf32").decode(&bytes);
    assert_eq!(decoded.len(), 2);
    assert!((f(decoded[0].re) - 1.5).abs() < 1e-6);
    assert!((f(decoded[0].im) + 2.5).abs() < 1e-6);
    assert!((f(decoded[1].re) - 0.25).abs() < 1e-6);
    assert!((f(decoded[1].im) - 0.5).abs() < 1e-6);
}

#[test]
fn raw_bin_decodes_as_int16_scaled() {
    // int16 32767 is about 1.0, -32768 is -1.0, scaled by 1/32768.
    let bytes = [
        0xFF, 0x7F, // re = 32767
        0x00, 0x80, // im = -32768
    ];
    let decoded = raw_datatype("x.bin").decode(&bytes);
    assert_eq!(decoded.len(), 1);
    assert!((f(decoded[0].re) - (32767.0 / 32768.0)).abs() < 1e-6);
    assert!((f(decoded[0].im) + 1.0).abs() < 1e-6);
}

#[test]
fn the_extension_alone_decides_the_raw_format() {
    for bin in [
        "x.bin",
        "dir/x.bin",
        "/a/b.c/x.y.bin",
        "a/.x.bin",
        "x..bin",
        "2026-01-01T12:00:00.bin",
        "ab:c/d:e.bin",
        "x.bin/",
        "dir/x.bin/.//.",
        "a/./x.bin//",
    ] {
        assert_eq!(raw_datatype(bin), DataType::Ci16Le, "{bin}");
    }
    for float in ["x", "x.cf32", "x.BIN", ".bin", "a.bin/x", "bin", "x.bin.iq", "x.bin2", "a/b.", "t12:00.bin:1", "", "/", ".", "..", "x.bin/..", "x.bin/../", "/.", "./", "x.bin/.a", "..."] {
        assert_eq!(raw_datatype(float), DataType::Cf32Le, "{float}");
    }
    assert_eq!(extension_datatype(Some("bin")), DataType::Ci16Le);
    assert_eq!(extension_datatype(Some("f32")), DataType::Cf32Le);
    assert_eq!(extension_datatype(None), DataType::Cf32Le);
}

#[test]
fn cf32_le_decode_round_trip() {
    // Two IQ pairs as LE f32 bytes.
    let samples = [(1.5f32, -2.5f32), (0.25, 0.5)];
    let mut bytes = Vec::with_capacity(samples.len() * 8);
    for s in samples {
        bytes.extend_from_slice(&s.0.to_le_bytes());
        bytes.extend_from_slice(&s.1.to_le_bytes());
    }
    let decoded = DataType::Cf32Le.decode(&bytes);
    assert_eq!(decoded.len(), 2);
    assert!((f(decoded[0].re) - 1.5).abs() < 1e-6);
    assert!((f(decoded[0].im) + 2.5).abs() < 1e-6);
    assert!((f(decoded[1].re) - 0.25).abs() < 1e-6);
    assert!((f(decoded[1].im) - 0.5).abs() < 1e-6);
}

#[test]
fn ci16_le_decode_scales_to_unit_disc() {
    // int16 32767 is about 1.0, -32768 is -1.0.
    let bytes = [
        0xFF, 0x7F, // re = 32767
        0x00, 0x80, // im = -32768
    ];
    let decoded = DataType::Ci16Le.decode(&bytes);
    assert_eq!(decoded.len(), 1);
    assert!((f(decoded[0].re) - (32767.0 / 32768.0)).abs() < 1e-6);
    assert!((f(decoded[0].im) + 1.0).abs() < 1e-6);
}

#[test]
fn ci8_decode_scales_to_unit_disc() {
    let bytes = [
        127u8,        // re = 127
        -127i8 as u8, // im = -127
    ];
    let decoded = DataType::Ci8.decode(&bytes);
    assert_eq!(decoded.len(), 1);
    assert!((f(decoded[0].re) - 1.0).abs() < 1e-6);
    assert!((f(decoded[0].im) + 1.0).abs() < 1e-6);
}

#[test]
fn integers_become_the_floats_that_the_hardware_gives() {
    for k in i16::MIN..=i16::MAX {
        assert_eq!(Binary32::from_i16(k).bits, (k as f32 / 32768.0).to_bits(), "{k}");
    }
    for k in i8::MIN..=i8::MAX {
        assert_eq!(Binary32::from_i8(k).bits, (k as f32 / 127.0).to_bits(), "{k}");
    }
}

#[test]
fn floats_become_the_integers_that_the_hardware_gives() {
    for x in odd_values() {
        let wide = (x * 32768.0).clamp(i16::MIN as f32, i16::MAX as f32) as i16;
        assert_eq!(b(x).to_i16(), wide, "{x}");
        let narrow = (x * 127.0).clamp(i8::MIN as f32, i8::MAX as f32) as i8;
        assert_eq!(b(x).to_i8(), narrow, "{x}");
    }
}

#[test]
fn rounding_is_that_of_the_hardware() {
    let mut values: Vec<f64> = vec![
        0.0,
        -0.0,
        1.0,
        1e300,
        1e-300,
        -1e300,
        f32::MAX as f64,
        f32::MAX as f64 * (1.0 + 1e-9),
        3.4028235677973366e38,
        3.4028235677973362e38,
        f32::from_bits(1) as f64,
        f32::from_bits(1) as f64 / 2.0,
        f32::from_bits(1) as f64 * 0.50001,
        f32::from_bits(1) as f64 * 1.5,
        f32::MIN_POSITIVE as f64 * 0.9999999999,
        f64::MIN_POSITIVE,
        f64::from_bits(1),
        f64::MAX,
        15_360_000.0,
        0.1,
    ];
    let mut x: u64 = 0x9e37_79b9_7f4a_7c15;
    for _ in 0..50_000 {
        x ^= x << 13;
        x ^= x >> 7;
        x ^= x << 17;
        values.push(f64::from_bits(x));
        // About the range of a binary32.
        let e = (1023 - 160 + (x >> 20) % 300) << 52;
        values.push(f64::from_bits((x & 0x800f_ffff_ffff_ffff) | e));
        // Half way between two of them.
        let half = f64::from_bits((x & 0x000f_ffff_e000_0000) | 0x1000_0000 | (1023 << 52));
        values.push(half);
    }
    for v in values {
        assert_eq!(d(v).is_finite(), v.is_finite(), "{v}");
        if v.is_finite() {
            assert_eq!(d(v).narrow().bits, (v as f32).to_bits(), "{v}");
        }
    }
}

#[test]
fn equality_of_values_is_that_of_the_hardware() {
    let values = [0.0, -0.0, 1.0, -1.0, f64::NAN, f64::INFINITY, f64::NEG_INFINITY, 1e-310];
    for x in values {
        for y in values {
            assert_eq!(d(x).same_value(d(y)), x == y, "{x} {y}");
        }
    }
}

#[test]
fn bytes_decode_and_encode_back() {
    let bytes: Vec<u8> = (0..=255).collect();
    for t in [DataType::Cf32Le, DataType::Ci16Le, DataType::Ci8] {
        let mut out = vec![];
        t.encode_into(&t.decode(&bytes), &mut out);
        assert_eq!(out, bytes);
    }
    let mut all = vec![];
    for k in i16::MIN..=i16::MAX {
        all.extend_from_slice(&k.to_le_bytes());
    }
    let mut out = vec![];
    DataType::Ci16Le.encode_into(&DataType::Ci16Le.decode(&all), &mut out);
    assert_eq!(out, all);
}

#[test]
fn float_samples_are_read_back() {
    let samples: Vec<Sample> = odd_values().iter().map(|&x| sample(x, -x)).collect();
    let mut bytes = vec![];
    DataType::Cf32Le.encode_into(&samples, &mut bytes);
    assert_eq!(bytes.len(), samples.len() * 8);
    assert_eq!(DataType::Cf32Le.decode(&bytes), samples);
}

#[test]
fn a_partial_sample_is_dropped() {
    assert_eq!(DataType::Cf32Le.decode(&[0; 7]), vec![]);
    assert_eq!(DataType::Ci16Le.decode(&[0, 0x40, 0, 0xC0, 1, 2, 3]), vec![sample(0.5, -0.5)]);
    assert_eq!(DataType::Ci8.decode(&[127, 0, 1]), vec![sample(1.0, 0.0)]);
}

#[test]
fn samples_are_appended() {
    let mut samples = vec![sample(2.0, 3.0)];
    DataType::Ci8.decode_into(&[127, 129], &mut samples);
    assert_eq!(samples, vec![sample(2.0, 3.0), sample(1.0, -1.0)]);
    let mut bytes = vec![7];
    DataType::Ci16Le.encode_into(&[sample(0.5, -1.0)], &mut bytes);
    assert_eq!(bytes, vec![7, 0x00, 0x40, 0x00, 0x80]);
}

#[test]
fn bytes_decode_in_parts() {
    let bytes: Vec<u8> = (0..64).collect();
    let mut parts = DataType::Ci16Le.decode(&bytes[..20]);
    parts.extend(DataType::Ci16Le.decode(&bytes[20..]));
    assert_eq!(parts, DataType::Ci16Le.decode(&bytes));
}
