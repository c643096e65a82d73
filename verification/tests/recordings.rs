use orecchiette_sdr_file_rs::ieee::Binary64;
use orecchiette_sdr_file_rs::recording::{Recording, Unplayable};
use orecchiette_sdr_file_rs::segments::{
    boundary_announces_itself, count_unstated, sigmf_segments, Segment,
};
use orecchiette_sdr_file_rs::sigmf::{
    channel_count, looks_like_sigmf, pair_paths, resolve_pair, Capture, ChannelCount, DataType, Global, PairError,
    SigmfMetadata,
};
use orecchiette_sdr_file_rs::UNKNOWN_CENTER_HZ;
use serde_json::Value;

fn d(x: f64) -> Binary64 {
    Binary64 { bits: x.to_bits() }
}

fn float(x: Binary64) -> f64 {
    f64::from_bits(x.bits)
}

fn text(v: &Value, key: &str) -> Option<String> {
    v.get(key).map(|t| t.as_str().unwrap().to_string())
}

fn metadata(body: &str) -> SigmfMetadata {
    let doc: Value = serde_json::from_str(body).unwrap();
    let global = &doc["global"];
    let none = vec![];
    let captures = doc.get("captures").map_or(&none, |c| c.as_array().unwrap());
    SigmfMetadata {
        global: Global {
            datatype: text(global, "core:datatype").unwrap(),
            sample_rate: d(global["core:sample_rate"].as_f64().unwrap()),
            version: text(global, "core:version").unwrap_or_default(),
            description: text(global, "core:description"),
            hardware: text(global, "core:hw"),
            author: text(global, "core:author"),
        },
        captures: captures
            .iter()
            .map(|c| Capture {
                sample_start: c.get("core:sample_start").map_or(0, |n| n.as_u64().unwrap()),
                frequency: c.get("core:frequency").map(|x| d(x.as_f64().unwrap())),
                datetime: text(c, "core:datetime"),
            })
            .collect(),
        annotations: doc
            .get("annotations")
            .map_or(vec![], |a| a.as_array().unwrap().clone()),
    }
}

#[test]
fn parse_minimal_metadata() {
    let body = r#"{
        "global": {
            "core:datatype": "cf32_le",
            "core:sample_rate": 1000000,
            "core:version": "1.0.0"
        },
        "captures": [
            { "core:sample_start": 0, "core:frequency": 2435000000 }
        ],
        "annotations": []
    }"#;
    let meta = metadata(body);
    assert_eq!(float(meta.sample_rate_hz()), 1_000_000.0);
    assert_eq!(meta.center_frequency_hz().map(float), Some(2_435_000_000.0));
    assert_eq!(meta.data_type().unwrap(), DataType::Cf32Le);
    assert_eq!(meta.global.version, "1.0.0");
}

#[test]
fn parse_metadata_with_no_captures() {
    let body = r#"{
        "global": {
            "core:datatype": "ci16_le",
            "core:sample_rate": 2400000,
            "core:version": "1.0.0",
            "core:description": "test recording"
        }
    }"#;
    let meta = metadata(body);
    assert_eq!(float(meta.sample_rate_hz()), 2_400_000.0);
    assert!(meta.center_frequency_hz().is_none());
    assert_eq!(meta.global.description.as_deref(), Some("test recording"));
}

#[test]
fn parse_metadata_missing_version_still_loads() {
    let body = r#"{
        "global": {
            "core:datatype": "cf32_le",
            "core:sample_rate": 1000000
        },
        "captures": [{ "core:sample_start": 0 }]
    }"#;
    let meta = metadata(body);
    assert_eq!(float(meta.sample_rate_hz()), 1_000_000.0);
    assert_eq!(meta.global.version, "");
}

#[test]
fn parse_metadata_ignores_unknown_namespaces() {
    let body = r#"{
        "global": {
            "core:datatype": "cf32_le",
            "core:sample_rate": 1000000,
            "core:version": "1.0.0",
            "antenna:gain": 30,
            "geo:location": [0.0, 0.0]
        },
        "captures": [{ "core:sample_start": 0 }]
    }"#;
    let meta = metadata(body);
    assert_eq!(float(meta.sample_rate_hz()), 1_000_000.0);
}

#[test]
fn an_unsupported_format_is_no_data_type() {
    let meta = metadata(r#"{"global": {"core:datatype": "cu8", "core:sample_rate": 1}}"#);
    assert_eq!(meta.data_type().unwrap_err().datatype, "cu8");
}

/// Captures listed out of order, a leading stretch no capture covers, and two
/// captures sharing a start all normalise to one segment per distinct start,
/// and the recording's reported centre frequency is the earliest capture's, in
/// the same order playback uses, not the first listed.
#[test]
fn capture_segments_are_normalised() {
    let meta = metadata(
        r#"{"global": {"core:datatype": "cf32_le", "core:sample_rate": 1},
            "captures": [
                {"core:sample_start": 50, "core:frequency": 3.0},
                {"core:sample_start": 10, "core:frequency": 1.0},
                {"core:sample_start": 50, "core:frequency": 4.0},
                {"core:sample_start": 90}
            ]}"#,
    );
    let seg = |start, center_hz| Segment { start, center_hz: d(center_hz) };
    let unknown = f64::from_bits(UNKNOWN_CENTER_HZ);
    assert_eq!(
        sigmf_segments(&meta),
        vec![
            seg(0, unknown),
            seg(10, 1.0),
            seg(50, 4.0),
            seg(90, unknown)
        ]
    );
    assert_eq!(meta.center_frequency_hz(), Some(d(1.0)));
    assert_eq!(meta.captures_by_start(), vec![1, 0, 2, 3]);
    assert_eq!(count_unstated(&sigmf_segments(&meta)), 2);
}

#[test]
fn a_recording_without_captures_is_one_unknown_segment() {
    let meta = metadata(r#"{"global": {"core:datatype": "cf32_le", "core:sample_rate": 1}}"#);
    let unknown = Segment { start: 0, center_hz: Binary64 { bits: UNKNOWN_CENTER_HZ } };
    assert_eq!(sigmf_segments(&meta), vec![unknown]);
    assert_eq!(f64::from_bits(UNKNOWN_CENTER_HZ), 0.0);
    assert_eq!(count_unstated(&vec![unknown]), 1);
}

#[test]
fn captures_that_start_together_keep_their_order() {
    let meta = metadata(
        r#"{"global": {"core:datatype": "cf32_le", "core:sample_rate": 1},
            "captures": [
                {"core:sample_start": 7, "core:frequency": 1.0},
                {"core:sample_start": 0, "core:frequency": 2.0},
                {"core:sample_start": 0},
                {"core:sample_start": 7, "core:frequency": 4.0}
            ]}"#,
    );
    assert_eq!(meta.captures_by_start(), vec![1, 2, 0, 3]);
    assert_eq!(meta.center_frequency_hz(), Some(d(2.0)));
    assert_eq!(
        sigmf_segments(&meta),
        vec![
            Segment { start: 0, center_hz: d(0.0) },
            Segment { start: 7, center_hz: d(4.0) },
        ]
    );
}

#[test]
fn only_a_change_between_stated_frequencies_announces_itself() {
    assert!(boundary_announces_itself(d(851e6), d(852.5e6)));
    assert!(!boundary_announces_itself(d(851e6), d(851e6)));
    assert!(!boundary_announces_itself(d(0.0), d(851e6)));
    assert!(!boundary_announces_itself(d(851e6), d(0.0)));
    assert!(!boundary_announces_itself(d(851e6), d(-0.0)));
    assert!(!boundary_announces_itself(d(0.0), d(0.0)));
    // A frequency that is no number differs from itself.
    assert!(boundary_announces_itself(d(f64::NAN), d(f64::NAN)));
}

#[test]
fn an_absent_channel_count_is_not_null() {
    let count = |text: &str| channel_count(Some(&serde_json::from_str(text).unwrap()));
    assert_eq!(channel_count(None), ChannelCount::Unstated);
    assert_eq!(count("1"), ChannelCount::Whole(1));
    assert_eq!(count("0"), ChannelCount::Whole(0));
    assert_eq!(count("18446744073709551615"), ChannelCount::Whole(u64::MAX));
    for other in ["null", "-1", "1.5", "1.0", "\"1\"", "[1]", "{}", "true"] {
        assert_eq!(count(other), ChannelCount::Other, "{other}");
    }
}

#[test]
fn only_a_single_channel_is_admitted() {
    let parsed = metadata(r#"{"global": {"core:datatype": "cf32_le", "core:sample_rate": 1}}"#);
    for count in [ChannelCount::Unstated, ChannelCount::Whole(1)] {
        assert!(SigmfMetadata::load(parsed.clone(), count).is_ok());
    }
    for count in [
        ChannelCount::Whole(0),
        ChannelCount::Whole(2),
        ChannelCount::Whole(u64::MAX),
        ChannelCount::Other,
    ] {
        assert_eq!(SigmfMetadata::load(parsed.clone(), count).unwrap_err().count, count);
    }
}

#[test]
fn a_recording_is_what_its_metadata_says() {
    let meta = metadata(
        r#"{"global": {"core:datatype": "ci8", "core:sample_rate": 2.5},
            "captures": [{"core:frequency": -3.25}]}"#,
    );
    let recording = Recording::from_metadata(&meta).unwrap();
    assert_eq!(recording.datatype, DataType::Ci8);
    assert_eq!(recording.segments, vec![Segment { start: 0, center_hz: d(-3.25) }]);
    assert_eq!(f32::from_bits(recording.sample_rate_hz.bits), 2.5);
}

#[test]
fn what_stands_against_a_recording() {
    let bad_format = metadata(r#"{"global": {"core:datatype": "ri8", "core:sample_rate": 0}}"#);
    match Recording::from_metadata(&bad_format) {
        Err(Unplayable::DataType(e)) => assert_eq!(e.datatype, "ri8"),
        other => panic!("{other:?}"),
    }
    let bad_rate = metadata(r#"{"global": {"core:datatype": "ci8", "core:sample_rate": 0}}"#);
    match Recording::from_metadata(&bad_rate) {
        Err(Unplayable::SampleRate(e)) => assert_eq!(
            e,
            "sample_rate_hz must be finite, positive, and representable as a positive finite f32"
        ),
        other => panic!("{other:?}"),
    }
}

#[test]
fn resolve_pair_from_meta_path() {
    let (meta, data) = resolve_pair("dir/capture1.sigmf-meta", true, true).unwrap();
    assert!(meta.ends_with(".sigmf-meta"));
    assert!(data.ends_with(".sigmf-data"));
    assert_eq!(meta, "dir/capture1.sigmf-meta");
    assert_eq!(data, "dir/capture1.sigmf-data");
}

#[test]
fn resolve_pair_from_data_path() {
    let (meta, data) = resolve_pair("dir/capture2.sigmf-data", true, true).unwrap();
    assert!(meta.ends_with(".sigmf-meta"));
    assert!(data.ends_with(".sigmf-data"));
    assert_eq!(meta, "dir/capture2.sigmf-meta");
    assert_eq!(data, "dir/capture2.sigmf-data");
}

#[test]
fn resolve_pair_errors_on_missing_sibling() {
    // No sibling .sigmf-data: resolving reports it.
    let err = resolve_pair("dir/lonely.sigmf-meta", true, false).unwrap_err();
    assert!(
        err.message().contains("data file not found"),
        "unexpected error: {}",
        err.message()
    );
    assert_eq!(
        err.message(),
        "SigMF data file not found: dir/lonely.sigmf-data (looked up from dir/lonely.sigmf-meta)"
    );
}

#[test]
fn the_metadata_file_is_missed_first() {
    for data_exists in [false, true] {
        let err = resolve_pair("rec", false, data_exists).unwrap_err();
        assert!(matches!(err, PairError::MetaMissing { .. }));
        assert_eq!(
            err.message(),
            "SigMF metadata file not found: rec.sigmf-meta (looked up from rec)"
        );
    }
}

#[test]
fn looks_like_sigmf_recognises_paths() {
    let files = ["dir/rec.sigmf-meta", "dir/rec.sigmf-data"];
    let looks = |path: &str| {
        let (meta, data) = pair_paths(path);
        looks_like_sigmf(path, files.contains(&meta.as_str()), files.contains(&data.as_str()))
    };
    assert!(looks("dir/rec.sigmf-meta"));
    assert!(looks("dir/rec.sigmf-data"));
    assert!(looks("dir/rec"));
    assert!(!looks("dir/random.iq"));
    // The ending is enough, whether there is such a file or not.
    assert!(looks("nowhere.sigmf-meta"));
    assert!(!looks_like_sigmf("dir/rec", true, false));
    assert!(!looks_like_sigmf("dir/rec", false, true));
}

#[test]
fn three_ways_to_a_recording() {
    for base in ["rec", "a/b.c", "capture.001", "", "ünï.code", "x.sigmf"] {
        let meta = format!("{base}.sigmf-meta");
        let data = format!("{base}.sigmf-data");
        for path in [base, &meta, &data] {
            assert_eq!(pair_paths(path), (meta.clone(), data.clone()), "{path}");
        }
    }
    // One ending is taken off, not two.
    assert_eq!(
        pair_paths("r.sigmf-data.sigmf-meta"),
        ("r.sigmf-data.sigmf-meta".to_string(), "r.sigmf-data.sigmf-data".to_string())
    );
}
