use orecchiette_sdr_file_rs::ieee::{Binary32, Binary64};
use orecchiette_sdr_file_rs::packets::{Packet, PACKET_SAMPLES};
use orecchiette_sdr_file_rs::playback::{
    packet_sample_rate, reservation, Packetizer, Playback, Tag, IO_BUFFER_BYTES,
    PACKET_QUEUE_CAPACITY,
};
use orecchiette_sdr_file_rs::recording::Unplayable;
use orecchiette_sdr_file_rs::segments::Segment;
use orecchiette_sdr_file_rs::session::{Action, Event, Notice, Outcome, Phase};
use orecchiette_sdr_file_rs::sigmf::{
    channel_count, Capture, DataType, Global, PairError, Sample, SigmfMetadata,
};
use orecchiette_sdr_file_rs::{RawIqFileSource, SigmfFileSource, UNKNOWN_CENTER_HZ};
use serde_json::Value;

fn d(x: f64) -> Binary64 {
    Binary64 { bits: x.to_bits() }
}

fn b(x: f32) -> Binary32 {
    Binary32 { bits: x.to_bits() }
}

fn text(v: &Value, key: &str) -> Option<String> {
    v.get(key).map(|t| t.as_str().unwrap().to_string())
}

/// Reads the text of a metadata file.
fn load(body: &str) -> Option<SigmfMetadata> {
    let doc: Value = serde_json::from_str(body).ok()?;
    let global = doc.get("global")?;
    let none = vec![];
    let captures = doc.get("captures").map_or(&none, |c| c.as_array().unwrap());
    let parsed = SigmfMetadata {
        global: Global {
            datatype: text(global, "core:datatype")?,
            sample_rate: d(global.get("core:sample_rate")?.as_f64()?),
            version: text(global, "core:version").unwrap_or_default(),
            description: text(global, "core:description"),
            hardware: text(global, "core:hw"),
            author: text(global, "core:author"),
        },
        captures: captures
            .iter()
            .map(|c| Capture {
                sample_start: c.get("core:sample_start").map_or(0, |n| n.as_u64().unwrap()),
                frequency: c.get("core:frequency").map(|x| d(x.as_f64().unwrap())),
                datetime: text(c, "core:datetime"),
            })
            .collect(),
        annotations: vec![],
    };
    let channels = channel_count(global.get("core:num_channels"));
    SigmfMetadata::load(parsed, channels).ok()
}

/// Files in memory.
#[derive(Default)]
struct Disk {
    files: Vec<(String, Vec<u8>)>,
}

impl Disk {
    fn put(&mut self, path: &str, content: &[u8]) {
        self.files.push((path.to_string(), content.to_vec()));
    }

    fn get(&self, path: &str) -> Option<&Vec<u8>> {
        self.files.iter().find(|f| f.0 == path).map(|f| &f.1)
    }
}

/// What a session did.
#[derive(Default)]
struct Record {
    packets: Vec<Packet>,
    notices: Vec<Notice>,
    opened: Vec<String>,
    loaded: Vec<String>,
    polls: usize,
}

/// How a session is driven.
struct Driver<'a> {
    disk: &'a Disk,
    /// How many bytes a read gives at most.
    read: usize,
    /// At which poll to stop.
    stop_at: Option<usize>,
    /// After how many packets the consumer goes.
    gone_after: Option<usize>,
    /// At which read of a file it fails.
    fail_at: Option<usize>,
}

impl Driver<'_> {
    fn run(&self, outcome: Outcome) -> Record {
        let mut record = Record::default();
        let mut outcome = outcome;
        let mut open: &[u8] = &[];
        let mut reads = 0;
        loop {
            record.notices.extend(outcome.notices);
            let event = match outcome.action {
                Action::PollStop => {
                    record.polls += 1;
                    Event::Stop(self.stop_at == Some(record.polls))
                }
                Action::Probe { meta, data } => Event::Probed {
                    meta_exists: self.disk.get(&meta).is_some(),
                    data_exists: self.disk.get(&data).is_some(),
                },
                Action::Load { meta } => {
                    let body = self.disk.get(&meta).unwrap();
                    record.loaded.push(meta);
                    Event::Loaded(load(std::str::from_utf8(body).unwrap()))
                }
                Action::Open { data } => {
                    let file = self.disk.get(&data);
                    record.opened.push(data);
                    open = file.map_or(&[], |f| &f[..]);
                    reads = 0;
                    Event::Opened(file.map(|f| f.len() as u64))
                }
                Action::Read => {
                    reads += 1;
                    if self.fail_at == Some(reads) {
                        Event::ReadFailed
                    } else {
                        let n = open.len().min(self.read);
                        let (now, rest) = open.split_at(n);
                        open = rest;
                        Event::Read(now.to_vec())
                    }
                }
                Action::Send(packet) => {
                    record.packets.push(packet);
                    Event::Sent(self.gone_after != Some(record.packets.len()))
                }
                Action::Finish => {
                    assert!(matches!(outcome.session.phase, Phase::Over));
                    return record;
                }
            };
            outcome = outcome.session.step(event);
        }
    }
}

fn driver(disk: &Disk) -> Driver<'_> {
    Driver {
        disk,
        read: IO_BUFFER_BYTES,
        stop_at: None,
        gone_after: None,
        fail_at: None,
    }
}

fn raw(paths: &[&str], center: f64) -> RawIqFileSource {
    RawIqFileSource {
        paths: paths.iter().map(|p| p.to_string()).collect(),
        center_frequency_hz: d(center),
    }
}

fn sigmf(paths: &[&str]) -> SigmfFileSource {
    SigmfFileSource {
        paths: paths.iter().map(|p| p.to_string()).collect(),
    }
}

/// `cf32_le` bytes of so many samples.
fn ramp(total_samples: usize) -> Vec<u8> {
    let mut data_bytes = Vec::with_capacity(total_samples * 8);
    for i in 0..total_samples {
        let re = (i as f32) * 1.0e-6;
        let im = (i as f32) * -2.0e-6;
        data_bytes.extend_from_slice(&re.to_le_bytes());
        data_bytes.extend_from_slice(&im.to_le_bytes());
    }
    data_bytes
}

fn re(s: &Sample) -> f32 {
    f32::from_bits(s.re.bits)
}

const META: &str = r#"{
    "global": {
        "core:datatype": "cf32_le",
        "core:sample_rate": 1000000,
        "core:version": "1.0.0"
    },
    "captures": [
        { "core:sample_start": 0, "core:frequency": 2435000000 }
    ]
}"#;

/// The centre frequency, the sample rate and the samples come from the files.
#[test]
fn sigmf_file_source_round_trip() {
    let n_packets = 3;
    let total_samples = PACKET_SAMPLES * n_packets;
    let mut disk = Disk::default();
    disk.put("synthetic.sigmf-meta", META.as_bytes());
    disk.put("synthetic.sigmf-data", &ramp(total_samples));
    let start = sigmf(&["synthetic.sigmf-meta"]).start().expect("start");
    let mut received = 0;
    let mut last_re = -1.0f32;
    for pkt in driver(&disk).run(start).packets {
        assert_eq!(pkt.samples.len(), PACKET_SAMPLES);
        assert!((f64::from_bits(pkt.center_frequency_hz.bits) - 2_435_000_000.0).abs() < 1.0);
        assert!((f32::from_bits(pkt.sample_rate_hz.bits) - 1_000_000.0).abs() < 1.0);
        // Monotonic: the samples arrive in order.
        assert!(re(&pkt.samples[0]) >= last_re);
        last_re = re(pkt.samples.last().unwrap());
        received += 1;
    }
    assert_eq!(received, n_packets, "expected {n_packets} packets");
}

/// A raw `.cf32` whose sample count isn't a multiple of `PACKET_SAMPLES` emits
/// the tail as a final partial packet.
#[test]
fn raw_iq_file_source_emits_partial_tail() {
    let tail = 4321_usize;
    let mut disk = Disk::default();
    disk.put("tail.cf32", &ramp(PACKET_SAMPLES + tail));
    let start = raw(&["tail.cf32"], 2_435_000_000.0)
        .start(d(15_360_000.0))
        .expect("start");
    let packets = driver(&disk).run(start).packets;
    assert_eq!(packets.len(), 2, "1 full packet + 1 partial tail");
    assert_eq!(packets[0].samples.len(), PACKET_SAMPLES);
    assert_eq!(packets[1].samples.len(), tail, "tail size preserved");
    for p in &packets {
        assert_eq!(p.center_frequency_hz, d(2_435_000_000.0));
        assert_eq!(p.sample_rate_hz, b(15_360_000.0));
        assert!(!p.overrun);
    }
}

/// A file truncated mid-sample ends with the truncated bytes discarded.
#[test]
fn raw_iq_file_source_terminates_on_truncated_sample() {
    let tail = 123_usize;
    let mut data_bytes = ramp(PACKET_SAMPLES + tail);
    // Truncated sample: 3 stray bytes that can't form an IQ pair.
    data_bytes.extend_from_slice(&[0xAA, 0xBB, 0xCC]);
    let mut disk = Disk::default();
    disk.put("truncated.cf32", &data_bytes);
    let start = raw(&["truncated.cf32"], 2_435_000_000.0)
        .start(d(15_360_000.0))
        .expect("start");
    let record = driver(&disk).run(start);
    assert_eq!(
        record.packets.len(),
        2,
        "1 full packet + 1 partial tail (truncated bytes discarded)"
    );
    assert_eq!(record.packets[0].samples.len(), PACKET_SAMPLES);
    assert_eq!(record.packets[1].samples.len(), tail);
    assert!(matches!(record.notices[..], [Notice::Truncated(3)]));
}

/// Files whose sample count isn't a multiple of `PACKET_SAMPLES` emit the tail
/// as a final partial packet.
#[test]
fn sigmf_file_source_emits_partial_tail() {
    let tail = 1234_usize;
    let mut disk = Disk::default();
    disk.put("with_tail.sigmf-meta", META.as_bytes());
    disk.put("with_tail.sigmf-data", &ramp(PACKET_SAMPLES + tail));
    let start = sigmf(&["with_tail.sigmf-meta"]).start().expect("start");
    let packets = driver(&disk).run(start).packets;
    assert_eq!(packets.len(), 2, "1 full packet + 1 partial tail");
    assert_eq!(packets[0].samples.len(), PACKET_SAMPLES);
    assert_eq!(packets[1].samples.len(), tail, "tail size preserved");
}

/// Plays a recording in which the real part of every sample is its own index.
fn play_sigmf(name: &str, total_samples: usize, captures: &str) -> Vec<Packet> {
    let mut disk = Disk::default();
    disk.put(
        &format!("{name}.sigmf-meta"),
        format!(
            r#"{{"global": {{"core:datatype": "cf32_le", "core:sample_rate": 1000000}},
                "captures": {captures}}}"#
        )
        .as_bytes(),
    );
    let mut data_bytes = Vec::with_capacity(total_samples * 8);
    for i in 0..total_samples {
        data_bytes.extend_from_slice(&(i as f32).to_le_bytes());
        data_bytes.extend_from_slice(&0f32.to_le_bytes());
    }
    disk.put(&format!("{name}.sigmf-data"), &data_bytes);
    let start = sigmf(&[&format!("{name}.sigmf-meta")]).start().expect("start");
    driver(&disk).run(start).packets
}

/// (first sample index, length, centre, overrun) of each packet.
fn layout(packets: &[Packet]) -> Vec<(usize, usize, f64, bool)> {
    packets
        .iter()
        .map(|p| {
            (
                re(&p.samples[0]) as usize,
                p.samples.len(),
                f64::from_bits(p.center_frequency_hz.bits),
                p.overrun,
            )
        })
        .collect()
}

#[test]
fn each_capture_is_tagged_with_its_own_frequency_and_cut_at_its_start() {
    let boundary = 200_000;
    let total = boundary + PACKET_SAMPLES + 5;
    let packets = play_sigmf(
        "two_captures",
        total,
        &format!(
            r#"[{{"core:sample_start": 0, "core:frequency": 851000000}},
                {{"core:sample_start": {boundary}, "core:frequency": 852500000}}]"#
        ),
    );
    assert_eq!(
        layout(&packets),
        vec![
            (0, boundary, 851e6, false),
            (boundary, PACKET_SAMPLES, 852.5e6, false),
            (boundary + PACKET_SAMPLES, 5, 852.5e6, false),
        ]
    );
}

/// A new capture at the same frequency is still a break in the stream, and a
/// boundary that falls exactly on a packet edge is not lost.
#[test]
fn a_same_frequency_capture_boundary_is_flagged_as_a_break() {
    let packets = play_sigmf(
        "same_frequency",
        PACKET_SAMPLES + 300,
        &format!(
            r#"[{{"core:sample_start": 0, "core:frequency": 851000000}},
                {{"core:sample_start": {PACKET_SAMPLES}, "core:frequency": 851000000}},
                {{"core:sample_start": {}, "core:frequency": 851000000}}]"#,
            PACKET_SAMPLES + 100
        ),
    );
    assert_eq!(
        layout(&packets),
        vec![
            (0, PACKET_SAMPLES, 851e6, false),
            (PACKET_SAMPLES, 100, 851e6, true),
            (PACKET_SAMPLES + 100, 200, 851e6, true),
        ]
    );
}

/// A capture that states no frequency is tagged unknown, not with a
/// neighbour's. Both boundaries around it are flagged.
#[test]
fn a_capture_without_a_frequency_is_tagged_unknown_not_borrowed() {
    let packets = play_sigmf(
        "unstated_frequency",
        PACKET_SAMPLES + 300,
        &format!(
            r#"[{{"core:sample_start": 0, "core:frequency": 851000000}},
                {{"core:sample_start": {PACKET_SAMPLES}}},
                {{"core:sample_start": {}, "core:frequency": 852500000}}]"#,
            PACKET_SAMPLES + 100
        ),
    );
    assert_eq!(
        layout(&packets),
        vec![
            (0, PACKET_SAMPLES, 851e6, false),
            (PACKET_SAMPLES, 100, f64::from_bits(UNKNOWN_CENTER_HZ), true),
            (PACKET_SAMPLES + 100, 200, 852.5e6, true),
        ]
    );
}

/// Packets are the same whether a packet fills in one read or across many
/// (1 MiB reads hold 131 072 cf32 samples; a packet is eight).
#[test]
fn packets_are_contiguous_and_complete_across_reads() {
    let total = 2 * PACKET_SAMPLES + 131_072 / 2 + 3;
    let packets = play_sigmf(
        "contiguous",
        total,
        r#"[{"core:sample_start": 0, "core:frequency": 1.0}]"#,
    );
    let mut expected = 0usize;
    for p in &packets {
        for s in p.samples.iter() {
            assert_eq!(re(s) as usize, expected);
            expected += 1;
        }
    }
    assert_eq!(expected, total);
    assert_eq!(
        packets.iter().map(|p| p.samples.len()).collect::<Vec<_>>(),
        vec![PACKET_SAMPLES, PACKET_SAMPLES, 131_072 / 2 + 3]
    );
}

#[test]
fn raw_source_rejects_rates_that_cannot_be_used_in_packets() {
    for rate in [
        f64::NAN,
        f64::INFINITY,
        f64::NEG_INFINITY,
        0.0,
        -1.0,
        1e300,
        1e-300,
    ] {
        let result = raw(&["unused.cf32"], 0.0).start(d(rate));
        assert!(result.is_err(), "accepted {rate}");
        assert_eq!(
            result.err().unwrap(),
            "RawIqFileSource: sample_rate_hz must be finite, positive, and representable as a \
             positive finite f32"
        );
        assert!(packet_sample_rate(d(rate)).is_err());
    }
}

/// A recording of one sample.
fn write_fixture(disk: &mut Disk, base: &str, rate: f64, channels: Option<&str>) {
    let channels = channels.map_or(String::new(), |c| format!(r#", "core:num_channels": {c}"#));
    disk.put(
        &format!("{base}.sigmf-meta"),
        format!(
            r#"{{"global": {{"core:datatype": "cf32_le", "core:sample_rate": {rate:e}{channels}}},
                "captures": [], "annotations": []}}"#
        )
        .as_bytes(),
    );
    disk.put(&format!("{base}.sigmf-data"), &[0u8; 8]);
}

#[test]
fn sigmf_source_skips_invalid_rates_and_plays_the_next_file() {
    let mut disk = Disk::default();
    let mut paths = vec![];
    for (i, rate) in [0.0, -1.0, 1e300, 1e-300, 1e6].iter().enumerate() {
        let base = format!("rate{i}");
        write_fixture(&mut disk, &base, *rate, None);
        paths.push(base);
    }
    let record = driver(&disk).run(SigmfFileSource { paths }.start().unwrap());
    assert_eq!(record.packets.len(), 1);
    assert_eq!(record.packets[0].sample_rate_hz, b(1e6));
    assert_eq!(record.opened, vec!["rate4.sigmf-data"]);
    // Of each file it is said first that its one segment states no frequency.
    assert_eq!(record.notices.len(), 9);
    for pair in record.notices[..8].chunks(2) {
        assert!(matches!(
            pair,
            [
                Notice::Unstated { count: 1, total: 1 },
                Notice::Unplayable(Unplayable::SampleRate(_))
            ]
        ));
    }
    assert!(matches!(record.notices[8], Notice::Unstated { count: 1, total: 1 }));
}

#[test]
fn valid_extreme_packet_rates_still_play() {
    for rate in [f32::from_bits(1), 1e6, f32::MAX] {
        let mut disk = Disk::default();
        write_fixture(&mut disk, "valid", rate as f64, None);
        let raw = raw(&["valid.sigmf-data"], 0.0).start(d(rate as f64)).unwrap();
        let sigmf = sigmf(&["valid"]).start().unwrap();
        for source in [raw, sigmf] {
            let packets = driver(&disk).run(source).packets;
            assert_eq!(packets.len(), 1);
            assert_eq!(packets[0].sample_rate_hz, b(rate));
        }
    }
}

#[test]
fn reader_rejects_unsupported_channel_counts_before_playback() {
    let mut disk = Disk::default();
    let mut paths = vec![];
    for (i, channels) in ["0", "2", "-1", "1.5", "null", "\"1\""].into_iter().enumerate() {
        let base = format!("channels{i}");
        write_fixture(&mut disk, &base, 1e6, Some(channels));
        let body = disk.get(&format!("{base}.sigmf-meta")).unwrap();
        assert!(load(std::str::from_utf8(body).unwrap()).is_none());
        paths.push(base);
    }
    for (i, channels) in [None, Some("1")].into_iter().enumerate() {
        let base = format!("single{i}");
        write_fixture(&mut disk, &base, 1e6, channels);
        let body = disk.get(&format!("{base}.sigmf-meta")).unwrap();
        assert!(load(std::str::from_utf8(body).unwrap()).is_some());
        paths.push(base);
    }
    let record = driver(&disk).run(SigmfFileSource { paths }.start().unwrap());
    assert_eq!(record.packets.len(), 2, "unsupported files must emit no samples");
    assert_eq!(record.opened, vec!["single0.sigmf-data", "single1.sigmf-data"]);
}

/// One sample is not made room for as if it were a full packet.
#[test]
fn tiny_playback_does_not_allocate_full_packet_buffers() {
    assert!(
        PACKET_QUEUE_CAPACITY <= 8,
        "queue can retain more than 64 MiB of full packets"
    );
    assert_eq!(PACKET_QUEUE_CAPACITY * PACKET_SAMPLES * 8, 64 * 1024 * 1024);
    assert_eq!(reservation(1), 1);
    assert_eq!(reservation(0), 0);
    assert_eq!(reservation(PACKET_SAMPLES as u64 - 1), PACKET_SAMPLES - 1);
    assert_eq!(reservation(u64::MAX), PACKET_SAMPLES);
    let mut disk = Disk::default();
    disk.put("tiny.cf32", &[0u8; 8]);
    disk.put(
        "tiny.sigmf-meta",
        br#"{"global":{"core:datatype":"cf32_le","core:sample_rate":1000000}}"#,
    );
    disk.put("tiny.sigmf-data", &[0u8; 8]);
    for source in [
        raw(&["tiny.cf32"], 0.0).start(d(1e6)).unwrap(),
        sigmf(&["tiny.sigmf-meta"]).start().unwrap(),
    ] {
        let packets = driver(&disk).run(source).packets;
        assert_eq!(packets.len(), 1);
        assert_eq!(packets[0].samples.len(), 1);
        assert!(
            packets[0].samples.capacity() < PACKET_SAMPLES,
            "one-sample playback must not reserve full 8 MiB packet buffers"
        );
    }
}

#[test]
fn a_source_needs_a_path() {
    assert_eq!(
        raw(&[], 0.0).start(d(1e6)).err().unwrap(),
        "RawIqFileSource: no paths to play"
    );
    // What is wrong with the paths is said first.
    assert_eq!(
        raw(&[], 0.0).start(d(0.0)).err().unwrap(),
        "RawIqFileSource: no paths to play"
    );
    assert_eq!(
        sigmf(&[]).start().err().unwrap(),
        "SigmfFileSource: no paths to play"
    );
}

#[test]
fn files_are_played_in_the_order_of_their_paths() {
    let mut disk = Disk::default();
    disk.put("b.bin", &[0x00, 0x40, 0x00, 0xC0]);
    disk.put("a.cf32", &ramp(2)[8..]);
    let start = raw(&["b.bin", "missing.bin", "a.cf32", "b.bin"], 7.0).start(d(2.0)).unwrap();
    let record = driver(&disk).run(start);
    assert_eq!(record.opened, vec!["b.bin", "missing.bin", "a.cf32", "b.bin"]);
    let half = Sample { re: b(0.5), im: b(-0.5) };
    let ramped = Sample { re: b(1.0e-6), im: b(-2.0e-6) };
    let samples: Vec<_> = record.packets.iter().map(|p| p.samples.clone()).collect();
    assert_eq!(samples, vec![vec![half], vec![ramped], vec![half]]);
    for p in &record.packets {
        assert_eq!(p.center_frequency_hz, d(7.0));
        assert_eq!(p.sample_rate_hz, b(2.0));
        assert!(!p.overrun);
    }
    // A poll before each path, and one before each read: two for each file that
    // is there.
    assert_eq!(record.polls, 4 + 3 * 2);
}

#[test]
fn paths_that_cannot_be_played_are_passed_over() {
    let mut disk = Disk::default();
    disk.put("no_data.sigmf-meta", META.as_bytes());
    disk.put("no_meta.sigmf-data", &[]);
    disk.put("bad_json.sigmf-meta", b"{");
    disk.put("bad_json.sigmf-data", &[]);
    disk.put(
        "bad_type.sigmf-meta",
        br#"{"global":{"core:datatype":"cu8","core:sample_rate":0}}"#,
    );
    disk.put("bad_type.sigmf-data", &[]);
    disk.put("good.sigmf-meta", META.as_bytes());
    disk.put("good.sigmf-data", &ramp(1));
    let start = sigmf(&["no_data", "no_meta", "bad_json", "bad_type", "good"]).start().unwrap();
    let record = driver(&disk).run(start);
    assert_eq!(record.packets.len(), 1);
    assert_eq!(record.opened, vec!["good.sigmf-data"]);
    assert_eq!(
        record.loaded,
        vec!["bad_json.sigmf-meta", "bad_type.sigmf-meta", "good.sigmf-meta"]
    );
    assert_eq!(record.notices.len(), 3);
    assert!(matches!(
        &record.notices[0],
        Notice::Unresolved(PairError::DataMissing { data, path })
            if data == "no_data.sigmf-data" && path == "no_data"
    ));
    assert!(matches!(
        &record.notices[1],
        Notice::Unresolved(PairError::MetaMissing { meta, .. }) if meta == "no_meta.sigmf-meta"
    ));
    assert!(matches!(
        &record.notices[2],
        Notice::Unplayable(Unplayable::DataType(e)) if e.datatype == "cu8"
    ));
}

#[test]
fn what_is_reported_of_a_recording_that_is_not_played() {
    let mut disk = Disk::default();
    for (name, global, captures) in [
        ("format", r#""core:datatype":"cu8","core:sample_rate":-1"#, "[]"),
        ("rate", r#""core:datatype":"ci8","core:sample_rate":-1"#, r#"[{"core:frequency":1}]"#),
        (
            "both",
            r#""core:datatype":"ci8","core:sample_rate":-1"#,
            r#"[{"core:frequency":1},{"core:sample_start":5}]"#,
        ),
    ] {
        let body = format!(r#"{{"global":{{{global}}},"captures":{captures}}}"#);
        disk.put(&format!("{name}.sigmf-meta"), body.as_bytes());
        disk.put(&format!("{name}.sigmf-data"), &[0; 20]);
    }
    let record = driver(&disk).run(sigmf(&["format", "rate", "both"]).start().unwrap());
    assert!(record.packets.is_empty());
    assert!(matches!(
        record.notices[..],
        [
            Notice::Unplayable(Unplayable::DataType(_)),
            Notice::Unplayable(Unplayable::SampleRate(_)),
            Notice::Unstated { count: 1, total: 2 },
            Notice::Unplayable(Unplayable::SampleRate(_)),
        ]
    ));
}

/// The samples and the labels of a packet.
fn content(p: &Packet) -> (Vec<Sample>, Binary64, Binary32, bool) {
    (p.samples.clone(), p.center_frequency_hz, p.sample_rate_hz, p.overrun)
}

#[test]
fn paths_are_played_in_turn() {
    let mut disk = Disk::default();
    for (name, rate, bytes) in [("a", "2", 5), ("bad", "0", 4), ("b", "3", 8), ("c", "4", 0)] {
        let body = format!(
            r#"{{"global":{{"core:datatype":"ci8","core:sample_rate":{rate}}},
                "captures":[{{"core:frequency":7}},{{"core:sample_start":1}}]}}"#
        );
        disk.put(&format!("{name}.sigmf-meta"), body.as_bytes());
        disk.put(&format!("{name}.sigmf-data"), &(0..bytes).collect::<Vec<u8>>());
    }
    disk.put("lonely.sigmf-meta", META.as_bytes());
    let paths = ["b", "bad", "a.sigmf-data", "lonely", "nowhere", "c", "b.sigmf-meta"];
    let whole = driver(&disk).run(sigmf(&paths).start().unwrap());
    let mut parts = vec![];
    for p in paths {
        let part = driver(&disk).run(sigmf(&[p]).start().unwrap());
        if ["bad", "lonely", "nowhere", "c"].contains(&p) {
            assert!(part.packets.is_empty());
        }
        parts.extend(part.packets.iter().map(content));
    }
    assert_eq!(whole.packets.iter().map(content).collect::<Vec<_>>(), parts);
    assert_eq!(parts.len(), 6);
    assert_eq!(parts[0].2, b(3.0));
    assert_eq!(parts[2].2, b(2.0));
    // The same again, and with reads of other sizes.
    for read in [1, 3, 100] {
        let again = Driver { read, ..driver(&disk) }.run(sigmf(&paths).start().unwrap());
        assert_eq!(again.packets.iter().map(content).collect::<Vec<_>>(), parts);
    }
}

#[test]
fn an_interruption_ends_playback_altogether() {
    let mut disk = Disk::default();
    disk.put("x.cf32", &ramp(10));
    let start = || raw(&["x.cf32", "x.cf32"], 0.0).start(d(1.0)).unwrap();
    let whole = driver(&disk).run(start());
    assert_eq!(whole.packets.len(), 2);
    assert_eq!(whole.polls, 6);
    for stop_at in 1..=whole.polls {
        let record = Driver { stop_at: Some(stop_at), ..driver(&disk) }.run(start());
        assert_eq!(record.polls, stop_at);
        // The first file is over with its third poll, the second with its sixth.
        assert_eq!(record.packets.len(), (stop_at - 1) / 3);
    }
    let gone = Driver { gone_after: Some(1), ..driver(&disk) }.run(start());
    assert_eq!(gone.packets.len(), 1);
    assert_eq!(gone.opened.len(), 1);
    let failed = Driver { fail_at: Some(1), ..driver(&disk) }.run(start());
    assert_eq!(failed.packets.len(), 0);
    assert_eq!(failed.opened.len(), 1);
}

#[test]
fn a_consumer_that_goes_gets_no_more_packets_of_a_read() {
    // Three captures in one read.
    let mut disk = Disk::default();
    disk.put(
        "r.sigmf-meta",
        br#"{"global":{"core:datatype":"ci8","core:sample_rate":1},
            "captures":[{"core:sample_start":0},{"core:sample_start":1},{"core:sample_start":2}]}"#,
    );
    disk.put("r.sigmf-data", &[1, 2, 3, 4, 5, 6, 7]);
    let record = driver(&disk).run(sigmf(&["r"]).start().unwrap());
    assert_eq!(
        record.packets.iter().map(|p| p.overrun).collect::<Vec<_>>(),
        vec![false, true, true]
    );
    assert!(matches!(
        record.notices[..],
        [Notice::Unstated { count: 3, total: 3 }, Notice::Truncated(1)]
    ));
    for n in 1..=3 {
        let gone = Driver { gone_after: Some(n), ..driver(&disk) }.run(sigmf(&["r"]).start().unwrap());
        assert_eq!(gone.packets.len(), n);
    }
}

#[test]
fn the_size_of_reads_does_not_matter() {
    let mut disk = Disk::default();
    disk.put(
        "r.sigmf-meta",
        br#"{"global":{"core:datatype":"ci16_le","core:sample_rate":48000},
            "captures":[{"core:sample_start":5,"core:frequency":1.5},
                        {"core:sample_start":9,"core:frequency":2.5}]}"#,
    );
    let data: Vec<u8> = (0..51).collect();
    disk.put("r.sigmf-data", &data);
    let decoded = DataType::Ci16Le.decode(&data);
    for read in 1..60 {
        let record = Driver { read, ..driver(&disk) }.run(sigmf(&["r"]).start().unwrap());
        let shape: Vec<_> = record
            .packets
            .iter()
            .map(|p| (p.samples.len(), f64::from_bits(p.center_frequency_hz.bits), p.overrun))
            .collect();
        assert_eq!(shape, vec![(5, 0.0, false), (4, 1.5, true), (3, 2.5, false)]);
        let all: Vec<Sample> = record.packets.iter().flat_map(|p| p.samples.clone()).collect();
        assert_eq!(all, decoded);
        assert!(matches!(
            record.notices[..],
            [Notice::Unstated { count: 1, total: 3 }, Notice::Truncated(3)]
        ));
    }
}

#[test]
fn a_segment_beyond_the_end_begins_no_packet() {
    let mut disk = Disk::default();
    disk.put(
        "r.sigmf-meta",
        br#"{"global":{"core:datatype":"ci8","core:sample_rate":1},
            "captures":[{"core:frequency":1.0},{"core:sample_start":3,"core:frequency":2.0}]}"#,
    );
    disk.put("r.sigmf-data", &[0; 6]);
    let record = driver(&disk).run(sigmf(&["r.sigmf-data"]).start().unwrap());
    assert_eq!(record.packets.len(), 1);
    assert_eq!(record.packets[0].samples.len(), 3);
    assert!(record.notices.is_empty());
}

#[test]
fn an_empty_file_gives_no_packet() {
    let mut disk = Disk::default();
    disk.put("empty.cf32", &[]);
    disk.put("stub.cf32", &[1, 2, 3]);
    let start = raw(&["empty.cf32", "stub.cf32"], 0.0).start(d(1.0)).unwrap();
    let record = driver(&disk).run(start);
    assert!(record.packets.is_empty());
    assert!(matches!(record.notices[..], [Notice::Truncated(3)]));
}

#[test]
fn a_packet_leaves_when_it_is_complete() {
    let segments = vec![
        Segment { start: 0, center_hz: d(1.0) },
        Segment { start: 2, center_hz: d(2.0) },
    ];
    let mut playback = Playback::new(DataType::Ci8, segments, b(9.0), 0);
    // Two samples: the packet of the first segment waits until a sample of the
    // second is there.
    assert!(playback.feed(&[1, 2, 3, 4]).is_empty());
    assert!(playback.feed(&[5]).is_empty());
    let out = playback.feed(&[6]);
    assert_eq!(out.len(), 1);
    assert_eq!(out[0].samples, DataType::Ci8.decode(&[1, 2, 3, 4]));
    assert_eq!(out[0].center_frequency_hz, d(1.0));
    let (last, discarded) = playback.finish();
    let last = last.unwrap();
    assert_eq!(last.samples, DataType::Ci8.decode(&[5, 6]));
    assert_eq!(last.center_frequency_hz, d(2.0));
    assert_eq!(last.sample_rate_hz, b(9.0));
    assert!(!last.overrun);
    assert_eq!(discarded, 0);
}

#[test]
fn a_full_packet_leaves_at_once() {
    let mut packetizer = Packetizer::new();
    let mut tag = Tag { center_hz: d(3.0), sample_rate_hz: b(4.0), overrun: true };
    let zero = Sample { re: b(0.0), im: b(0.0) };
    let mut out = vec![];
    packetizer.flush(&mut tag, &mut out);
    assert!(out.is_empty());
    assert!(tag.overrun);
    packetizer.push(&vec![zero; 2 * PACKET_SAMPLES + 1], 0, &mut tag, &mut out);
    assert_eq!(out.len(), 2);
    assert_eq!(out[0].samples.len(), PACKET_SAMPLES);
    assert!(out[0].overrun);
    assert!(!out[1].overrun);
    assert!(!tag.overrun);
    packetizer.flush(&mut tag, &mut out);
    assert_eq!(out[2].samples.len(), 1);
}

#[test]
fn a_representable_rate_is_kept() {
    for rate in [f32::from_bits(1), 0.1, 1.0, 15.36e6, f32::MAX] {
        assert_eq!(packet_sample_rate(d(rate as f64)).unwrap(), b(rate));
    }
    // Any other is rounded.
    assert_eq!(packet_sample_rate(d(16_777_217.0)).unwrap(), b(16_777_216.0));
    assert_eq!(packet_sample_rate(d(0.1)).unwrap(), b(0.1));
}
