//! What a session has played, told from its events alone.

use crate::datatype::DataType;
use crate::metadata::SigmfMetadata;
use crate::packets::Layout;
use crate::raw;
use crate::recording::Recording;
use crate::runs;
use crate::segments;
use crate::session;
use crate::session::{Event, Kind, Outcome, Phase, Played, Session};
use vstd::prelude::*;

verus! {

/// The metadata that was loaded last.
pub open spec fn told(events: Seq<Event>) -> Option<SigmfMetadata>
    decreases events.len(),
{
    if events.len() == 0 {
        None
    } else {
        match events.last() {
            Event::Loaded(loaded) => loaded,
            _ => told(events.drop_last()),
        }
    }
}

/// A data file has been opened, and its end has not been read yet.
pub open spec fn file_open(events: Seq<Event>) -> bool
    decreases events.len(),
{
    if events.len() == 0 {
        false
    } else {
        match events.last() {
            Event::Opened(length) => length is Some,
            Event::Read(bytes) => bytes@.len() > 0 && file_open(events.drop_last()),
            _ => file_open(events.drop_last()),
        }
    }
}

/// What has been read since a data file was opened, one read after another.
pub open spec fn read_since(events: Seq<Event>) -> Seq<u8>
    decreases events.len(),
{
    if events.len() == 0 {
        seq![]
    } else {
        match events.last() {
            Event::Opened(_) => seq![],
            Event::Read(bytes) => read_since(events.drop_last()) + bytes@,
            _ => read_since(events.drop_last()),
        }
    }
}

/// The event is the last that matters of a path: its files are not there, its
/// metadata cannot be read or played, its data file cannot be opened, or has
/// been read to its end.
pub open spec fn settles(event: Event) -> bool {
    match event {
        Event::Probed { meta_exists, data_exists } => !(meta_exists && data_exists),
        Event::Loaded(None) => true,
        Event::Loaded(Some(meta)) => !Recording::playable(meta),
        Event::Opened(length) => length is None,
        Event::Read(bytes) => bytes@.len() == 0,
        _ => false,
    }
}

/// How many paths have been settled.
pub open spec fn settled(events: Seq<Event>) -> int
    decreases events.len(),
{
    if events.len() == 0 {
        0
    } else {
        settled(events.drop_last()) + if settles(events.last()) {
            1int
        } else {
            0
        }
    }
}

/// The format and the layout of the file of a path: of raw files, as given for
/// all of them, with the format of the extension; of a recording, as its
/// metadata says.
pub open spec fn file_of(
    kind: Kind,
    path: Seq<char>,
    loaded: Option<SigmfMetadata>,
    format: DataType,
    layout: Layout,
) -> bool {
    match kind {
        Kind::Raw { center_hz, sample_rate_hz } => {
            &&& layout == session::raw_layout(center_hz, sample_rate_hz)
            &&& format == DataType::Ci16Le || format == DataType::Cf32Le
            &&& raw::plain(path) ==> format == raw::format_of_extension(
                raw::name_extension(raw::file_name(path)),
            )
        },
        Kind::Sigmf => {
            &&& loaded matches Some(meta)
            &&& Recording::playable(meta)
            &&& DataType::named(meta.global.datatype@) == Some(format)
            &&& layout == (Layout {
                segments: segments::segments_of(meta.captures@),
                sample_rate_hz: meta.global.sample_rate.narrowed(),
            })
        },
    }
}

/// `file` is the file whose end is read after these events.
pub open spec fn finished(kind: Kind, paths: Seq<String>, events: Seq<Event>, file: Played) -> bool {
    &&& file_open(events)
    &&& file.path == settled(events)
    &&& 0 <= file.path < paths.len()
    &&& file.bytes == read_since(events)
    &&& file_of(kind, paths[file.path]@, told(events), file.format, file.layout)
}

/// `files` are the files that have been played to their end: one for each read
/// of an end, in that order.
pub open spec fn accounts(
    kind: Kind,
    paths: Seq<String>,
    events: Seq<Event>,
    files: Seq<Played>,
) -> bool
    decreases events.len(),
{
    if events.len() == 0 {
        files.len() == 0
    } else {
        let before = events.drop_last();
        match events.last() {
            Event::Read(bytes) => if bytes@.len() == 0 {
                &&& files.len() > 0
                &&& finished(kind, paths, before, files.last())
                &&& accounts(kind, paths, before, files.drop_last())
            } else {
                accounts(kind, paths, before, files)
            },
            _ => accounts(kind, paths, before, files),
        }
    }
}

/// The session stands where these events lead.
spec fn stands(kind: Kind, paths: Seq<String>, events: Seq<Event>, s: Session) -> bool {
    let path = paths[s.at as int]@;
    &&& accounts(kind, paths, events, s.played@)
    &&& s.kind == kind
    &&& s.paths@ == paths
    &&& match s.phase {
        Phase::BeforePath => s.at == settled(events),
        Phase::Probing => s.at == settled(events),
        Phase::Loading { .. } => s.at == settled(events),
        Phase::Opening { recording } => s.at == settled(events) && file_of(
            kind,
            path,
            told(events),
            recording.datatype,
            recording.layout(),
        ),
        Phase::BeforeRead { playback } => s.at == settled(events) && file_open(events) && file_of(
            kind,
            path,
            told(events),
            playback.format(),
            playback.layout(),
        ) && playback.taken() == read_since(events),
        Phase::Reading { playback } => s.at == settled(events) && file_open(events) && file_of(
            kind,
            path,
            told(events),
            playback.format(),
            playback.layout(),
        ) && playback.taken() == read_since(events),
        Phase::Sending { playback, .. } => s.at == settled(events) && file_open(events) && file_of(
            kind,
            path,
            told(events),
            playback.format(),
            playback.layout(),
        ) && playback.taken() == read_since(events),
        Phase::Ending => s.at + 1 == settled(events),
        Phase::Over => true,
    }
}

#[verifier::spinoff_prover]
#[verifier::rlimit(50)]
proof fn lemma_stands(kind: Kind, paths: Seq<String>, events: Seq<Event>, before: Session, after: Outcome)
    requires
        events.len() > 0,
        before.well_formed(),
        stands(kind, paths, events.drop_last(), before),
        before.awaits(events.last()),
        after.follows(before, events.last()),
    ensures
        stands(kind, paths, events, after.session),
{
    let event = events.last();
    assert(before.paths@.len() == before.paths.len());
    match before.phase {
        Phase::Loading { data } => {
            if let Event::Loaded(Some(meta)) = event {
                if Recording::playable(meta) {
                    let recording = after.session.phase->recording;
                    segments::lemma_described_by(meta.captures@, recording.segments@);
                }
            }
        },
        Phase::Reading { playback } => {
            if let Event::Read(bytes) = event {
                if bytes@.len() == 0 {
                    let file = Played {
                        path: before.at as int,
                        layout: playback.layout(),
                        format: playback.format(),
                        bytes: playback.taken(),
                    };
                    assert(before.played@.push(file).drop_last() =~= before.played@);
                    assert(bytes@ =~= seq![]);
                }
            }
        },
        _ => {},
    }
}

/// The files that a session has played to their end are told by its events: one
/// for each data file that was opened and read to its end, in that order. It
/// holds the bytes of the reads in between, and has the format and the layout
/// that were given for raw files, or those of the metadata that was loaded.
pub proof fn lemma_events_account_for_what_was_played(
    kind: Kind,
    paths: Vec<String>,
    events: Seq<Event>,
    outcomes: Seq<Outcome>,
)
    requires
        runs::run(kind, paths, events, outcomes),
    ensures
        accounts(kind, paths@, events, outcomes.last().session.played@),
{
    lemma_run_stands(kind, paths, events, outcomes);
}

proof fn lemma_run_stands(
    kind: Kind,
    paths: Vec<String>,
    events: Seq<Event>,
    outcomes: Seq<Outcome>,
)
    requires
        runs::run(kind, paths, events, outcomes),
    ensures
        stands(kind, paths@, events, outcomes.last().session),
    decreases events.len(),
{
    if events.len() > 0 {
        runs::lemma_shorter(kind, paths, events, outcomes);
        lemma_run_stands(kind, paths, events.drop_last(), outcomes.drop_last());
        runs::lemma_run(kind, paths, events.drop_last(), outcomes.drop_last());
        assert(runs::stepped(events, outcomes, events.len() - 1));
        lemma_stands(
            kind,
            paths@,
            events,
            outcomes.drop_last().last().session,
            outcomes.last(),
        );
    }
}

} // verus!
