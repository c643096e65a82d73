//! Laws of recordings and sessions.

use crate::datatype;
use crate::datatype::DataType;
use crate::disk::Disk;
use crate::laws::codec;
use crate::laws::paths;
use crate::laws::stream;
use crate::metadata;
use crate::metadata::{Capture, ChannelCount, SigmfMetadata};
use crate::packets;
use crate::packets::{Layout, PacketView};
use crate::pair;
use crate::pair::PairError;
use crate::playback;
use crate::recording::{Recording, Unplayable};
use crate::runs;
use crate::segments;
use crate::segments::Segment;
use crate::session;
use crate::session::{Action, Event, Kind, Notice, Outcome, Phase, Played, Session};
use crate::source;
use vstd::prelude::*;

verus! {

/// Captures are ordered by their starts, those that start together as they are
/// listed, and each is there once.
pub proof fn lemma_capture_order(captures: Seq<Capture>, order: Seq<usize>)
    requires
        metadata::start_order(captures, order),
    ensures
        order.len() == captures.len(),
        forall|i: int|
            0 <= i < order.len() ==> 0 <= #[trigger] order[i] < captures.len(),
        forall|i: int, j: int|
            0 <= i < j < order.len() ==> {
                let a = #[trigger] order[i] as int;
                let b = #[trigger] order[j] as int;
                &&& a != b
                &&& captures[a].sample_start <= captures[b].sample_start
                &&& captures[a].sample_start == captures[b].sample_start ==> a < b
            },
{
    assert forall|i: int, j: int| 0 <= i < j < order.len() implies {
        let a = #[trigger] order[i] as int;
        let b = #[trigger] order[j] as int;
        &&& a != b
        &&& captures[a].sample_start <= captures[b].sample_start
        &&& captures[a].sample_start == captures[b].sample_start ==> a < b
    } by {
        assert(metadata::comes_before(captures, order[i] as int, order[j] as int));
    }
}

/// The earliest capture starts before all others, or with them and is listed
/// first.
pub proof fn lemma_earliest(captures: Seq<Capture>, c: int, other: int)
    requires
        metadata::earliest(captures, c),
        0 <= other < captures.len(),
    ensures
        0 <= c < captures.len(),
        captures[c].sample_start <= captures[other].sample_start,
        captures[c].sample_start == captures[other].sample_start ==> c <= other,
{
    if other != c {
        assert(metadata::comes_before(captures, c, other));
    }
}

/// One channel is admitted, stated or not, and no other number of them.
pub proof fn lemma_channels(n: u64)
    ensures
        ChannelCount::Unstated.single(),
        ChannelCount::Whole(n).single() <==> n == 1,
        !ChannelCount::Other.single(),
        ChannelCount::stated(Some(n)) == ChannelCount::Whole(n),
        ChannelCount::stated(None) == ChannelCount::Other,
{
}

/// A recording can be played if and only if its format has a name and its rate
/// can label packets. It is played in that format, at that rate, cut at its
/// captures.
pub proof fn lemma_recording(m: SigmfMetadata, r: Recording)
    ensures
        Recording::playable(m) <==> DataType::named(m.global.datatype@) is Some
            && playback::usable_rate(m.global.sample_rate),
        r.of(m) ==> {
            &&& DataType::named(m.global.datatype@) == Some(r.datatype)
            &&& r.segments@ == segments::segments_of(m.captures@)
            &&& r.sample_rate_hz == m.global.sample_rate.narrowed()
        },
        r.layout().segments == r.segments@,
        r.layout().sample_rate_hz == r.sample_rate_hz,
{
    if r.of(m) {
        segments::lemma_described_by(m.captures@, r.segments@);
    }
}

/// What is said against a recording: its format, if that has no name, and else
/// its rate, if that cannot label packets.
pub proof fn lemma_unplayable(m: SigmfMetadata, e: Unplayable)
    requires
        e.stands_against(m),
    ensures
        match e {
            Unplayable::DataType(u) => DataType::named(m.global.datatype@) is None && u.datatype@
                == m.global.datatype@,
            Unplayable::SampleRate(text) => DataType::named(m.global.datatype@) is Some
                && !playback::usable_rate(m.global.sample_rate) && text@
                == "sample_rate_hz must be finite, positive, and representable as a positive finite f32"@,
        },
{
}

/// A session begins with the first of the paths it was given, and with nothing
/// handed out.
pub proof fn lemma_beginning(o: Outcome, kind: Kind, paths: Vec<String>)
    requires
        source::begins(o, kind, paths),
    ensures
        o.session.kind == kind,
        o.session.paths == paths,
        o.session.at == 0,
        o.session.phase is BeforePath,
        o.session.played@.len() == 0,
        o.session.given@.len() == 0,
        o.action is PollStop,
        o.notices@.len() == 0,
        o.session.well_formed(),
{
}

/// How a raw path is played on a disk: the file itself, as 16-bit integers if its
/// extension is `bin` and else as floats, in one segment with the centre
/// frequency and the rate of the source.
pub proof fn lemma_raw_path(disk: Disk, kind: Kind, path: Seq<char>)
    requires
        kind is Raw,
    ensures
        ({
            let part = disk.part(kind, path)->0;
            &&& disk.part(kind, path) is Some
            &&& part.file == path
            &&& part.format == DataType::Ci16Le <==> (disk.extension)(path) == Some("bin"@)
            &&& part.format == DataType::Cf32Le <==> (disk.extension)(path) != Some("bin"@)
            &&& part.layout.sample_rate_hz == kind->sample_rate_hz
            &&& part.layout.segments.len() == 1
            &&& part.layout.segments[0].start == 0
            &&& part.layout.segments[0].center_hz == kind->center_hz
        }),
{
    paths::lemma_format_of_extension((disk.extension)(path));
}

/// How a SigMF path is played on a disk: only where both of its files exist and
/// its metadata can be read and played; then the data file, as the metadata
/// says.
pub proof fn lemma_sigmf_path(disk: Disk, path: Seq<char>)
    ensures
        ({
            let meta = (disk.metadata)(pair::meta_path(path));
            let found = disk.part(Kind::Sigmf, path);
            &&& found is Some <==> (disk.exists)(pair::meta_path(path)) && (disk.exists)(
                pair::data_path(path),
            ) && meta is Some && DataType::named(meta->0.global.datatype@) is Some
                && playback::usable_rate(meta->0.global.sample_rate)
            &&& found matches Some(part) ==> {
                &&& part.file == pair::data_path(path)
                &&& DataType::named(meta->0.global.datatype@) == Some(part.format)
                &&& part.layout.segments == segments::segments_of(meta->0.captures@)
                &&& part.layout.sample_rate_hz == meta->0.global.sample_rate.narrowed()
            }
        }),
{
}

/// The packets of a path are those of the samples in its file.
pub proof fn lemma_packets_of_path(disk: Disk, kind: Kind, path: Seq<char>)
    ensures
        match disk.part(kind, path) {
            None => disk.packets(kind, path).len() == 0,
            Some(part) => match (disk.content)(part.file) {
                None => disk.packets(kind, path).len() == 0,
                Some(bytes) => disk.packets(kind, path) == part.layout.packets(
                    part.format.decoded(bytes),
                ),
            },
        },
{
}

/// The packets of one path more follow those of the paths before it.
pub proof fn lemma_packets_of_paths(disk: Disk, kind: Kind, before: Seq<String>, path: String)
    ensures
        disk.all_packets(kind, Seq::<String>::empty()).len() == 0,
        disk.all_packets(kind, before.push(path)) == disk.all_packets(kind, before) + disk.packets(
            kind,
            path@,
        ),
{
    assert(before.push(path).drop_last() =~= before);
}

/// What is handed out with one outcome more.
pub proof fn lemma_handed_out(before: Seq<Outcome>, o: Outcome)
    ensures
        runs::handed_out(Seq::<Outcome>::empty()).len() == 0,
        runs::handed_out(before.push(o)) == match o.action {
            Action::Send(p) => runs::handed_out(before).push(p@),
            _ => runs::handed_out(before),
        },
{
    assert(before.push(o).drop_last() =~= before);
}

/// A stop, a read that failed and a consumer that has gone end playback, and
/// nothing else does before the last path.
pub proof fn lemma_what_ends_playback(before: Session, event: Event, after: Outcome)
    requires
        before.well_formed(),
        before.awaits(event),
        after.follows(before, event),
    ensures
        event == Event::Stop(true) || event == Event::Sent(false) || event is ReadFailed ==> {
            &&& after.action is Finish
            &&& after.session.phase is Over
            &&& after.session.given@ == before.given@
        },
        after.action is Finish ==> event == Event::Stop(true) || event == Event::Sent(false)
            || event is ReadFailed || before.at + 1 == before.paths@.len(),
{
    runs::lemma_step(before, event, after);
}

/// No path is begun and nothing is read without the word that playback is not to
/// stop.
pub proof fn lemma_stop_is_asked_for(before: Session, event: Event, after: Outcome)
    requires
        before.well_formed(),
        before.awaits(event),
        after.follows(before, event),
    ensures
        after.action is Read ==> event == Event::Stop(false),
        after.action is Probe ==> event == Event::Stop(false),
        after.action is Open && before.kind is Raw ==> event == Event::Stop(false),
        after.session.at != before.at ==> after.action is PollStop,
{
}

/// Which files are asked for: those of the path at hand.
pub proof fn lemma_what_is_asked_for(before: Session, event: Event, after: Outcome)
    requires
        before.well_formed(),
        before.awaits(event),
        after.follows(before, event),
    ensures
        ({
            let path = before.paths@[before.at as int]@;
            match after.action {
                Action::Probe { meta, data } => {
                    &&& before.kind is Sigmf
                    &&& after.session.at == before.at
                    &&& meta@ == pair::meta_path(path)
                    &&& data@ == pair::data_path(path)
                },
                Action::Load { meta } => {
                    &&& before.kind is Sigmf
                    &&& after.session.at == before.at
                    &&& meta@ == pair::meta_path(path)
                },
                Action::Open { data } => {
                    &&& after.session.at == before.at
                    &&& before.kind is Raw ==> data@ == path
                    &&& before.kind is Sigmf ==> data@ == pair::data_path(path)
                },
                _ => true,
            }
        }),
{
}

/// The files that were played, and their packets, one after another.
pub proof fn lemma_played(files: Seq<Played>, file: Played)
    ensures
        file.packets() == file.layout.packets(file.format.decoded(file.bytes)),
        session::all_packets(Seq::<Played>::empty()).len() == 0,
        session::all_packets(files.push(file)) == session::all_packets(files) + file.packets(),
{
    assert(files.push(file).drop_last() =~= files);
}

/// Nothing is held back: when a session asks for more bytes it has handed out
/// all packets of the files before, and all of the file at hand that are
/// complete.
pub proof fn lemma_nothing_is_held_back(o: Outcome)
    requires
        o.session.well_formed(),
        o.asks(),
        o.action is Read,
    ensures
        o.session.phase is Reading,
        ({
            let p = o.session.phase->Reading_playback;
            o.session.given@ == session::all_packets(o.session.played@) + p.layout().complete(
                p.format().decoded(p.taken()),
            )
        }),
{
    stream::lemma_sent(o.session.phase->Reading_playback);
}

/// What is reported, event by event.
#[verifier::spinoff_prover]
#[verifier::rlimit(50)]
pub proof fn lemma_reports(before: Session, event: Event, after: Outcome)
    requires
        before.well_formed(),
        before.awaits(event),
        after.follows(before, event),
    ensures
        ({
            let path = before.paths@[before.at as int]@;
            let said = after.notices@;
            match event {
                Event::Probed { meta_exists, data_exists } => if meta_exists && data_exists {
                    said.len() == 0
                } else {
                    said.len() == 1 && match said[0] {
                        Notice::Unresolved(PairError::MetaMissing { meta, path: from }) => {
                            !meta_exists && meta@ == pair::meta_path(path) && from@ == path
                        },
                        Notice::Unresolved(PairError::DataMissing { data, path: from }) => {
                            meta_exists && data@ == pair::data_path(path) && from@ == path
                        },
                        _ => false,
                    }
                },
                Event::Loaded(Some(m)) => {
                    let format = DataType::named(m.global.datatype@);
                    let s = segments::segments_of(m.captures@);
                    let unstated = format is Some && segments::unstated(s) > 0;
                    let refused = format is None || !playback::usable_rate(m.global.sample_rate);
                    let n: int = (if unstated {
                        1int
                    } else {
                        0
                    }) + (if refused {
                        1int
                    } else {
                        0
                    });
                    &&& said.len() == n
                    &&& unstated ==> said[0] == (Notice::Unstated {
                        count: segments::unstated(s) as usize,
                        total: s.len() as usize,
                    })
                    &&& refused ==> (said.last() matches Notice::Unplayable(e) && e.stands_against(
                        m,
                    ))
                },
                Event::Read(bytes) => {
                    let p = before.phase->Reading_playback;
                    let cut = p.taken().len() as int % p.format().width();
                    if bytes@.len() == 0 && cut > 0 {
                        said.len() == 1 && said[0] == Notice::Truncated(cut as usize)
                    } else {
                        said.len() == 0
                    }
                },
                _ => said.len() == 0,
            }
        }),
{
    if let Event::Read(bytes) = event {
        let p = before.phase->Reading_playback;
        codec::lemma_format_is_written_by_its_name(p.format());
    }
    if let Event::Loaded(Some(m)) = event {
        let said = after.notices@;
        if said.len() >= 2 {
            assert(said.drop_last()[0] == said[0]);
        }
    }
}

/// The samples in the beginning of a file are the beginning of its samples.
proof fn lemma_decoded_prefix(d: DataType, part: Seq<u8>, whole: Seq<u8>)
    requires
        part.is_prefix_of(whole),
    ensures
        d.decoded(part).is_prefix_of(d.decoded(whole)),
{
    let w: int = d.width();
    let n: int = part.len() - part.len() as int % w;
    assert(0 <= n <= part.len() && n % w == 0 && part.len() - n < w) by {
        match d {
            DataType::Cf32Le => {},
            DataType::Ci16Le => {},
            DataType::Ci8 => {},
        }
    }
    let a = part.take(n);
    assert(a + part.skip(n) =~= part);
    assert(a + whole.skip(n) =~= whole);
    datatype::lemma_decoding_splits(d, a, part.skip(n));
    datatype::lemma_decoding_splits(d, a, whole.skip(n));
    assert(d.decoded(part.skip(n)).len() == 0) by {
        match d {
            DataType::Cf32Le => {},
            DataType::Ci16Le => {},
            DataType::Ci8 => {},
        }
    }
    assert(d.decoded(part) =~= d.decoded(a));
}

/// What a playback has sent of the beginning of a file is the beginning of the
/// packets of the file.
pub proof fn lemma_sent_is_a_beginning(layout: Layout, d: DataType, part: Seq<u8>, whole: Seq<u8>)
    requires
        layout.well_formed(),
        part.is_prefix_of(whole),
    ensures
        layout.complete(d.decoded(part)).is_prefix_of(layout.packets(d.decoded(whole))),
{
    lemma_decoded_prefix(d, part, whole);
    let some = d.decoded(part);
    let all = d.decoded(whole);
    assert(some + all.skip(some.len() as int) =~= all);
    layout.lemma_complete_grows(some, all.skip(some.len() as int));
}

} // verus!
