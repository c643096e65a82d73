use orecchiette_sdr_file_rs::ieee::{Binary32, Binary64};
use orecchiette_sdr_file_rs::playback::Playback;
use orecchiette_sdr_file_rs::recording::Recording;
use orecchiette_sdr_file_rs::sigmf::{
    looks_like_sigmf, pair_paths, point_members, resolve_pair, Capture, DataType, Document, Field,
    FieldValue, Global, MetadataError, Sample, Section, SigmfCapture, SigmfMetadata, SigmfWriter, SigmfWriterMeta,
};
use serde_json::Value;

fn d(x: f64) -> Binary64 {
    Binary64 { bits: x.to_bits() }
}

fn float(x: Binary64) -> f64 {
    f64::from_bits(x.bits)
}

fn f(x: Binary32) -> f32 {
    f32::from_bits(x.bits)
}

fn sample(re: f32, im: f32) -> Sample {
    Sample {
        re: Binary32 { bits: re.to_bits() },
        im: Binary32 { bits: im.to_bits() },
    }
}

fn writer_meta() -> SigmfWriterMeta {
    SigmfWriterMeta {
        sample_rate_hz: d(1e6),
        hardware: None,
        description: None,
        recorder: None,
        captures: vec![],
        annotations: vec![],
    }
}

fn object(fields: &[Field]) -> Value {
    let mut map = serde_json::Map::new();
    for field in fields {
        let value = match &field.value {
            FieldValue::Text(s) => Value::from(s.as_str()),
            FieldValue::Count(n) => Value::from(*n),
            FieldValue::Real(x) => Value::from(float(*x)),
            FieldValue::Pair(x, y) => Value::from(vec![float(*x), float(*y)]),
            FieldValue::Point { longitude, latitude } => {
                object(&point_members(*longitude, *latitude))
            }
        };
        assert!(map.insert(field.key.to_string(), value).is_none());
    }
    Value::Object(map)
}

/// The text of a metadata file.
fn json(doc: &Document) -> String {
    let mut map = serde_json::Map::new();
    for (key, section) in doc.clone().sections() {
        let value = match section {
            Section::Fields(fields) => object(&fields),
            Section::List(list) => list.iter().map(|c| object(c)).collect(),
            Section::Values(values) => Value::Array(values),
        };
        map.insert(key.to_string(), value);
    }
    serde_json::to_string_pretty(&Value::Object(map)).unwrap()
}

fn text(v: &Value, key: &str) -> Option<String> {
    v.get(key).map(|t| t.as_str().unwrap().to_string())
}

/// Reads the text of a metadata file.
fn load(body: &str) -> SigmfMetadata {
    let doc: Value = serde_json::from_str(body).unwrap();
    let global = &doc["global"];
    SigmfMetadata {
        global: Global {
            datatype: text(global, "core:datatype").unwrap(),
            sample_rate: d(global["core:sample_rate"].as_f64().unwrap()),
            version: text(global, "core:version").unwrap_or_default(),
            description: text(global, "core:description"),
            hardware: text(global, "core:hw"),
            author: text(global, "core:author"),
        },
        captures: doc["captures"]
            .as_array()
            .unwrap()
            .iter()
            .map(|c| Capture {
                sample_start: c["core:sample_start"].as_u64().unwrap(),
                frequency: c.get("core:frequency").map(|x| d(x.as_f64().unwrap())),
                datetime: text(c, "core:datetime"),
            })
            .collect(),
        annotations: doc["annotations"].as_array().unwrap().clone(),
    }
}

#[test]
fn sigmf_writer_round_trips_cf32_le() {
    let samples = [sample(1.5, -2.5), sample(0.25, 0.5)];
    let mut writer = SigmfWriter::create("dir/rec", DataType::Cf32Le);
    assert_eq!(writer.data_path(), "dir/rec.sigmf-data");
    assert_eq!(writer.meta_path(), "dir/rec.sigmf-meta");
    writer.write_samples(&samples);
    let bytes = writer.take_data();
    let doc = writer
        .finalize(SigmfWriterMeta {
            sample_rate_hz: d(2_000_000.0),
            hardware: Some("test-hw".into()),
            description: Some("test capture".into()),
            recorder: Some("test-recorder".into()),
            captures: vec![SigmfCapture {
                sample_start: 0,
                frequency_hz: Some(d(915_000_000.0)),
                datetime_rfc3339: Some("2026-01-01T00:00:00Z".into()),
                geolocation: Some([d(-122.4), d(37.8)]),
            }],
            annotations: vec![],
        })
        .document
        .unwrap();

    let meta = load(&json(&doc));
    assert_eq!(meta.data_type().unwrap(), DataType::Cf32Le);
    assert_eq!(meta.sample_rate_hz(), d(2_000_000.0));
    assert_eq!(meta.center_frequency_hz(), Some(d(915_000_000.0)));
    assert_eq!(meta.global.hardware.as_deref(), Some("test-hw"));
    assert_eq!(meta.global.description.as_deref(), Some("test capture"));
    assert_eq!(meta.global.version, "1.0.0");
    assert_eq!(meta.captures[0].datetime.as_deref(), Some("2026-01-01T00:00:00Z"));
    assert!(Recording::from_metadata(&meta).is_ok());

    let raw: Value = serde_json::from_str(&json(&doc)).unwrap();
    assert_eq!(raw["global"]["core:recorder"], "test-recorder");
    assert_eq!(raw["captures"][0]["core:geolocation"]["type"], "Point");
    assert_eq!(raw["captures"][0]["core:geolocation"]["coordinates"][0], -122.4);
    assert_eq!(raw["captures"][0]["core:geolocation"]["coordinates"][1], 37.8);

    let decoded = DataType::Cf32Le.decode(&bytes);
    assert_eq!(decoded.len(), 2);
    assert!((f(decoded[0].re) - 1.5).abs() < 1e-6);
    assert!((f(decoded[1].im) - 0.5).abs() < 1e-6);
}

#[test]
fn sigmf_writer_round_trips_ci8() {
    let samples = [sample(1.0, -1.0)];
    let mut writer = SigmfWriter::create("rec8", DataType::Ci8);
    writer.write_samples(&samples);
    let finished = writer.finalize(SigmfWriterMeta {
        sample_rate_hz: d(20_000_000.0),
        hardware: None,
        description: None,
        recorder: None,
        captures: vec![],
        annotations: vec![],
    });
    let bytes = finished.rest;
    let doc = finished.document.unwrap();

    let meta = load(&json(&doc));
    assert_eq!(meta.data_type().unwrap(), DataType::Ci8);
    assert!(meta.center_frequency_hz().is_none());

    assert_eq!(bytes.len(), 2);
    assert_eq!(bytes, vec![127, 129]);
    let decoded = DataType::Ci8.decode(&bytes);
    assert!((f(decoded[0].re) - 1.0).abs() < 0.05);
    assert!((f(decoded[0].im) + 1.0).abs() < 0.05);
}

#[test]
fn sigmf_writer_write_raw_passes_bytes_through() {
    let raw = [1u8, 2, 3, 4, 5, 6, 7, 8];
    let mut writer = SigmfWriter::create("raw", DataType::Ci8);
    writer.write_raw(&raw);
    let bytes = writer.take_data();
    assert!(writer.take_data().is_empty());
    let mut meta = writer_meta();
    meta.sample_rate_hz = d(1_000_000.0);
    let finished = writer.finalize(meta);
    assert!(finished.document.is_ok());
    assert!(finished.rest.is_empty());
    assert_eq!(bytes, raw);
}

#[test]
fn the_parts_of_a_document_have_their_names() {
    let writer = SigmfWriter::create("empty", DataType::Ci8);
    let doc = writer.finalize(writer_meta()).document.unwrap();
    let names: Vec<&str> = doc.sections().iter().map(|s| s.0).collect();
    assert_eq!(names, vec!["global", "captures", "annotations"]);
}

#[test]
fn a_point_has_its_longitude_first() {
    let members = point_members(d(-122.4), d(37.8));
    assert_eq!(members.len(), 2);
    assert_eq!(members[0].key, "type");
    assert!(matches!(&members[0].value, FieldValue::Text(t) if t == "Point"));
    assert_eq!(members[1].key, "coordinates");
    assert!(matches!(members[1].value, FieldValue::Pair(x, y) if x == d(-122.4) && y == d(37.8)));
}

#[test]
fn raw_bytes_and_samples_are_written_in_order() {
    let mut writer = SigmfWriter::create("mixed", DataType::Ci16Le);
    writer.write_raw(&[1, 2]);
    writer.write_samples(&[sample(0.5, 2.0)]);
    writer.write_samples(&[]);
    writer.write_raw(&[3]);
    assert_eq!(writer.take_data(), vec![1, 2, 0x00, 0x40, 0xFF, 0x7F, 3]);
    writer.write_samples(&[sample(-2.0, f32::NAN)]);
    assert_eq!(writer.take_data(), vec![0x00, 0x80, 0, 0]);
}

#[test]
fn written_samples_are_played_back() {
    let samples: Vec<Sample> = (0..50).map(|i| sample(i as f32 * 0.1, f32::from_bits(i))).collect();
    let mut writer = SigmfWriter::create("played", DataType::Cf32Le);
    for part in samples.chunks(7) {
        writer.write_samples(part);
    }
    let mut meta = writer_meta();
    for start in [0, 13, 14, 40] {
        meta.captures.push(SigmfCapture {
            sample_start: start,
            frequency_hz: Some(d(start as f64)),
            ..Default::default()
        });
    }
    let bytes = writer.take_data();
    let read = load(&json(&writer.finalize(meta).document.unwrap()));
    let recording = Recording::from_metadata(&read).unwrap();
    let mut playback = Playback::new(
        recording.datatype,
        recording.segments,
        recording.sample_rate_hz,
        bytes.len() as u64,
    );
    let mut packets = vec![];
    for part in bytes.chunks(5) {
        packets.extend(playback.feed(part));
    }
    packets.extend(playback.finish().0);
    let tags: Vec<(usize, f64)> = packets
        .iter()
        .map(|p| (p.samples.len(), float(p.center_frequency_hz)))
        .collect();
    assert_eq!(tags, vec![(13, 0.0), (1, 13.0), (26, 14.0), (10, 40.0)]);
    let played: Vec<Sample> = packets.into_iter().flat_map(|p| p.samples).collect();
    assert_eq!(played, samples);
}

#[test]
fn sigmf_writer_passes_through_annotations() {
    let mut writer = SigmfWriter::create("annotated", DataType::Cf32Le);
    writer.write_raw(&[]);
    let mut meta = writer_meta();
    meta.sample_rate_hz = d(1_000_000.0);
    meta.annotations = vec![serde_json::from_str(
        r#"{"core:sample_start": 0, "core:sample_count": 100, "core:label": "test-signal"}"#,
    )
    .unwrap()];
    let body = json(&writer.finalize(meta).document.unwrap());
    let doc: Value = serde_json::from_str(&body).unwrap();
    assert_eq!(doc["annotations"][0]["core:label"], "test-signal");
    assert_eq!(doc["annotations"][0]["core:sample_count"], 100);
}

#[test]
fn distinct_dotted_recordings_do_not_overwrite_each_other() {
    let names = [
        "capture.001",
        "capture.002",
        "capture.003.sigmf-meta",
        "capture.004.sigmf-data",
    ];
    let mut files: Vec<(String, Vec<u8>)> = vec![];
    for (i, name) in names.iter().enumerate() {
        let mut writer = SigmfWriter::create(name, DataType::Cf32Le);
        writer.write_samples(&[sample(i as f32, -(i as f32))]);
        let bytes = writer.take_data();
        let (meta, data) = (writer.meta_path().to_string(), writer.data_path().to_string());
        for path in [&meta, &data] {
            assert!(files.iter().all(|f| f.0 != *path), "{path} overwritten");
        }
        let body = json(&writer.finalize(writer_meta()).document.unwrap());
        files.push((data, bytes));
        files.push((meta, body.into_bytes()));
    }
    let exists = |path: &str| files.iter().any(|f| f.0 == path);
    for i in 0..names.len() {
        let base = format!("capture.{:03}", i + 1);
        let meta = format!("capture.{:03}.sigmf-meta", i + 1);
        let data = format!("capture.{:03}.sigmf-data", i + 1);
        for input in [&base, &meta, &data] {
            let (m, p) = pair_paths(input);
            assert!(looks_like_sigmf(input, exists(&m), exists(&p)));
            assert_eq!(
                resolve_pair(input, exists(&m), exists(&p)).unwrap(),
                (meta.clone(), data.clone())
            );
        }
        let bytes = &files.iter().find(|f| f.0 == data).unwrap().1;
        assert_eq!(
            DataType::Cf32Le.decode(bytes),
            vec![sample(i as f32, -(i as f32))]
        );
    }
}

#[test]
fn writer_preserves_signed_and_fractional_frequencies() {
    let frequencies = [-1250.25, 0.0, 915_000_000.125];
    let mut meta = writer_meta();
    meta.captures = frequencies
        .iter()
        .enumerate()
        .map(|(i, &frequency)| SigmfCapture {
            sample_start: i as u64,
            frequency_hz: Some(d(frequency)),
            ..Default::default()
        })
        .collect();
    let mut writer = SigmfWriter::create("frequency", DataType::Cf32Le);
    writer.write_samples(&[sample(0.0, 0.0); 3]);
    let finished = writer.finalize(meta);
    assert_eq!(finished.rest, vec![0; 24]);
    let loaded = load(&json(&finished.document.unwrap()));
    assert_eq!(
        loaded
            .captures
            .iter()
            .map(|c| float(c.frequency.unwrap()))
            .collect::<Vec<_>>(),
        frequencies
    );
}

/// Metadata that cannot be written is refused before anything is made of it.
#[test]
fn failed_numeric_validation_does_not_overwrite_metadata() {
    let mut invalid = vec![];
    for rate in [
        f64::NAN,
        f64::INFINITY,
        f64::NEG_INFINITY,
        0.0,
        -1.0,
        1e300,
        1e-300,
    ] {
        let mut meta = writer_meta();
        meta.sample_rate_hz = d(rate);
        invalid.push((meta, MetadataError::SampleRate));
    }
    for value in [f64::NAN, f64::INFINITY, f64::NEG_INFINITY] {
        for (capture, error) in [
            (
                SigmfCapture {
                    frequency_hz: Some(d(value)),
                    ..Default::default()
                },
                MetadataError::Frequency { capture: 0 },
            ),
            (
                SigmfCapture {
                    geolocation: Some([d(value), d(0.0)]),
                    ..Default::default()
                },
                MetadataError::Geolocation { capture: 0 },
            ),
            (
                SigmfCapture {
                    geolocation: Some([d(0.0), d(value)]),
                    ..Default::default()
                },
                MetadataError::Geolocation { capture: 0 },
            ),
        ] {
            let mut meta = writer_meta();
            meta.captures.push(capture);
            invalid.push((meta, error));
        }
    }
    for (meta, error) in invalid {
        let mut writer = SigmfWriter::create("invalid", DataType::Cf32Le);
        writer.write_raw(&[1, 2, 3]);
        assert_eq!(meta.check(), Err(error));
        let finished = writer.finalize(meta);
        // What was written is in the data file all the same.
        assert_eq!(finished.rest, vec![1, 2, 3]);
        match finished.document {
            Err(e) => assert_eq!(e, error),
            Ok(doc) => panic!("{doc:?}"),
        }
    }
}

#[test]
fn the_first_fault_is_reported() {
    let mut meta = writer_meta();
    meta.captures.push(SigmfCapture::default());
    meta.captures.push(SigmfCapture {
        frequency_hz: Some(d(f64::NAN)),
        geolocation: Some([d(f64::NAN), d(0.0)]),
        ..Default::default()
    });
    meta.captures.push(SigmfCapture {
        geolocation: Some([d(f64::NAN), d(0.0)]),
        ..Default::default()
    });
    let e = meta.check().unwrap_err();
    assert_eq!(e, MetadataError::Frequency { capture: 1 });
    assert_eq!(e.message(), "frequency_hz of a capture must be finite");
    meta.captures[1].frequency_hz = None;
    let e = meta.check().unwrap_err();
    assert_eq!(e, MetadataError::Geolocation { capture: 1 });
    assert_eq!(e.message(), "geolocation of a capture must be finite");
    meta.sample_rate_hz = d(-1.0);
    let e = meta.check().unwrap_err();
    assert_eq!(e, MetadataError::SampleRate);
    assert_eq!(
        e.message(),
        "sample_rate_hz must be finite, positive, and representable as a positive finite f32"
    );
}
