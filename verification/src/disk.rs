//! What is played of the files on a disk.

use crate::datatype::DataType;
use crate::laws;
use crate::metadata::SigmfMetadata;
use crate::packets;
use crate::packets::{Layout, PacketView};
use crate::pair;
use crate::playback::Playback;
use crate::raw;
use crate::recording::Recording;
use crate::runs;
use crate::segments;
use crate::session;
use crate::session::{Action, Event, Kind, Outcome, Phase, Played, Session};
use vstd::prelude::*;

verus! {

/// Files by their paths, as they are while a session plays them.
pub struct Disk {
    /// Whether there is such a file.
    pub exists: spec_fn(Seq<char>) -> bool,
    /// What a metadata file says, if it can be read and is admitted.
    pub metadata: spec_fn(Seq<char>) -> Option<SigmfMetadata>,
    /// What a data file holds, if it can be opened.
    pub content: spec_fn(Seq<char>) -> Option<Seq<u8>>,
    /// What the platform takes for the extension of a path.
    pub extension: spec_fn(Seq<char>) -> Option<Seq<char>>,
}

/// How a path is played: which file, in which format and layout.
pub struct Part {
    pub file: Seq<char>,
    pub format: DataType,
    pub layout: Layout,
}

impl Disk {
    /// The extension of a plain path is the same on every platform.
    pub open spec fn well_formed(self) -> bool {
        forall|path: Seq<char>|
            raw::plain(path) ==> #[trigger] (self.extension)(path) == raw::name_extension(
                raw::file_name(path),
            )
    }

    /// How a path is played, if its metadata can be found, read and played.
    pub open spec fn part(self, kind: Kind, path: Seq<char>) -> Option<Part> {
        match kind {
            Kind::Raw { center_hz, sample_rate_hz } => Some(
                Part {
                    file: path,
                    format: raw::format_of_extension((self.extension)(path)),
                    layout: session::raw_layout(center_hz, sample_rate_hz),
                },
            ),
            Kind::Sigmf => if !(self.exists)(pair::meta_path(path)) || !(self.exists)(
                pair::data_path(path),
            ) {
                None
            } else {
                match (self.metadata)(pair::meta_path(path)) {
                    Some(meta) => if Recording::playable(meta) {
                        Some(
                            Part {
                                file: pair::data_path(path),
                                format: DataType::named(meta.global.datatype@)->0,
                                layout: Layout {
                                    segments: segments::segments_of(meta.captures@),
                                    sample_rate_hz: meta.global.sample_rate.narrowed(),
                                },
                            },
                        )
                    } else {
                        None
                    },
                    None => None,
                }
            },
        }
    }

    /// The packets of a path: none where it cannot be played or its data file
    /// cannot be opened.
    pub open spec fn packets(self, kind: Kind, path: Seq<char>) -> Seq<PacketView> {
        match self.part(kind, path) {
            Some(part) => match (self.content)(part.file) {
                Some(bytes) => part.layout.packets(part.format.decoded(bytes)),
                None => seq![],
            },
            None => seq![],
        }
    }

    /// The packets of some paths, one path after another.
    pub open spec fn all_packets(self, kind: Kind, paths: Seq<String>) -> Seq<PacketView>
        decreases paths.len(),
    {
        if paths.len() == 0 {
            seq![]
        } else {
            self.all_packets(kind, paths.drop_last()) + self.packets(kind, paths.last()@)
        }
    }

    /// The event is what comes of the action on this disk. A read gives the next
    /// bytes of the file at hand, as many as it likes, and none only at its end.
    pub open spec fn answers(self, o: Outcome, event: Event) -> bool {
        match o.action {
            Action::PollStop => event is Stop,
            Action::Probe { meta, data } => {
                &&& event matches Event::Probed { meta_exists, data_exists }
                &&& meta_exists == (self.exists)(meta@)
                &&& data_exists == (self.exists)(data@)
            },
            Action::Load { meta } => {
                &&& event matches Event::Loaded(loaded)
                &&& match (loaded, (self.metadata)(meta@)) {
                    (Some(m), Some(n)) => Recording::same(m, n),
                    (None, None) => true,
                    _ => false,
                }
            },
            Action::Open { data } => {
                &&& event matches Event::Opened(length)
                &&& length is Some <==> (self.content)(data@) is Some
            },
            Action::Read => {
                &&& event matches Event::Read(bytes)
                &&& o.session.phase matches Phase::Reading { playback }
                &&& self.part(o.session.kind, o.session.paths@[o.session.at as int]@) matches Some(
                    part,
                )
                &&& (self.content)(part.file) matches Some(whole)
                &&& (playback.taken() + bytes@).is_prefix_of(whole)
                &&& bytes@.len() == 0 ==> playback.taken() == whole
            },
            Action::Send(_) => event is Sent,
            Action::Finish => false,
        }
    }

    /// A raw file whose path is read otherwise on other platforms is opened in
    /// the format of the extension that this one takes it to have.
    pub open spec fn reads_extension(self, o: Outcome) -> bool {
        let path = o.session.paths@[o.session.at as int]@;
        o.session.phase matches Phase::Opening { recording } ==> o.session.kind is Raw
            && !raw::plain(path) ==> recording.datatype == raw::format_of_extension(
            (self.extension)(path),
        )
    }

    /// All that happens in a session is what comes of its actions on this disk,
    /// and nothing interrupts it.
    pub open spec fn undisturbed(self, events: Seq<Event>, outcomes: Seq<Outcome>) -> bool {
        &&& forall|i: int|
            0 <= i < events.len() ==> self.answers(outcomes[i], #[trigger] events[i])
                && !runs::interrupts(events[i])
        &&& forall|i: int| 0 <= i < outcomes.len() ==> self.reads_extension(#[trigger] outcomes[i])
    }

    /// The file at hand is that of a path, and what was read of it is a
    /// beginning of it.
    spec fn reading(self, s: Session) -> bool {
        let playback = match s.phase {
            Phase::BeforeRead { playback } => playback,
            Phase::Reading { playback } => playback,
            Phase::Sending { playback, .. } => playback,
            _ => arbitrary(),
        };
        &&& self.part(s.kind, s.paths@[s.at as int]@) matches Some(part)
        &&& playback.format() == part.format
        &&& playback.layout() == part.layout
        &&& (self.content)(part.file) matches Some(whole)
        &&& playback.taken().is_prefix_of(whole)
    }

    /// What has been played so far is what the disk has.
    spec fn holds(self, o: Outcome) -> bool {
        let s = o.session;
        let path = s.paths@[s.at as int]@;
        let played = session::all_packets(s.played@);
        let before = self.all_packets(s.kind, s.paths@.take(s.at as int));
        match s.phase {
            Phase::BeforePath => played == before,
            Phase::Probing => {
                &&& played == before
                &&& o.action matches Action::Probe { meta, data }
                &&& meta@ == pair::meta_path(path)
                &&& data@ == pair::data_path(path)
            },
            Phase::Loading { data } => {
                &&& played == before
                &&& data@ == pair::data_path(path)
                &&& (self.exists)(pair::meta_path(path))
                &&& (self.exists)(pair::data_path(path))
                &&& o.action matches Action::Load { meta }
                &&& meta@ == pair::meta_path(path)
            },
            Phase::Opening { recording } => {
                &&& played == before
                &&& self.part(s.kind, path) matches Some(part)
                &&& recording.datatype == part.format
                &&& recording.layout() == part.layout
                &&& o.action matches Action::Open { data }
                &&& data@ == part.file
            },
            Phase::BeforeRead { .. } => played == before && self.reading(s),
            Phase::Reading { .. } => played == before && self.reading(s) && o.action is Read,
            Phase::Sending { .. } => played == before && self.reading(s),
            Phase::Ending => played == before + self.packets(s.kind, path),
            Phase::Over => played == self.all_packets(s.kind, s.paths@),
        }
    }

    /// The packets of one path more.
    proof fn lemma_next_path(self, kind: Kind, paths: Seq<String>, at: int)
        requires
            0 <= at < paths.len(),
        ensures
            self.all_packets(kind, paths.take(at + 1)) == self.all_packets(kind, paths.take(at))
                + self.packets(kind, paths[at]@),
    {
        assert(paths.take(at + 1).drop_last() =~= paths.take(at));
    }

    proof fn lemma_moved_on(self, before: Session, after: Outcome)
        requires
            before.at < before.paths@.len(),
            after.moves_on(before),
            session::all_packets(before.played@) == self.all_packets(
                before.kind,
                before.paths@.take(before.at as int),
            ) + self.packets(before.kind, before.paths@[before.at as int]@),
        ensures
            self.holds(after),
    {
        assert(before.paths@.len() == before.paths.len());
        self.lemma_next_path(before.kind, before.paths@, before.at as int);
        if before.at + 1 == before.paths@.len() {
            assert(before.paths@.take(before.at + 1) =~= before.paths@);
        }
    }

    #[verifier::spinoff_prover]
    #[verifier::rlimit(50)]
    proof fn lemma_step_holds(self, before: Outcome, event: Event, after: Outcome)
        requires
            self.well_formed(),
            before.session.well_formed(),
            self.holds(before),
            before.asks(),
            before.session.awaits(event),
            self.answers(before, event),
            !runs::interrupts(event),
            after.follows(before.session, event),
            self.reads_extension(after),
        ensures
            self.holds(after),
    {
        let s = before.session;
        let path = s.paths@[s.at as int]@;
        let none: Seq<PacketView> = seq![];
        let sofar = self.all_packets(s.kind, s.paths@.take(s.at as int));
        assert(sofar + none =~= sofar);
        match s.phase {
            Phase::BeforePath => {},
            Phase::Probing => {
                if after.session.phase !is Loading {
                    self.lemma_moved_on(s, after);
                }
            },
            Phase::Loading { data } => {
                if let Event::Loaded(Some(m)) = event {
                    let n = (self.metadata)(pair::meta_path(path))->0;
                    if Recording::playable(m) {
                        let recording = after.session.phase->recording;
                        segments::lemma_described_by(m.captures@, recording.segments@);
                        segments::lemma_same_segments(m.captures@, n.captures@);
                    } else {
                        self.lemma_moved_on(s, after);
                    }
                } else {
                    self.lemma_moved_on(s, after);
                }
            },
            Phase::Opening { recording } => {
                if let Event::Opened(None) = event {
                    self.lemma_moved_on(s, after);
                }
            },
            Phase::BeforeRead { playback } => {},
            Phase::Reading { playback } => {
                if let Event::Read(bytes) = event {
                    if bytes@.len() == 0 {
                        let file = Played {
                            path: s.at as int,
                            layout: playback.layout(),
                            format: playback.format(),
                            bytes: playback.taken(),
                        };
                        let files = s.played@.push(file);
                        let done = Session { played: Ghost(files), ..s };
                        assert(files.drop_last() =~= s.played@);
                        assert(file.packets() == self.packets(s.kind, path));
                        if after.session.phase !is Ending {
                            self.lemma_moved_on(done, after);
                        }
                    }
                }
            },
            Phase::Sending { playback, queue } => {},
            Phase::Ending => {
                self.lemma_moved_on(s, after);
            },
            Phase::Over => {},
        }
    }

    proof fn lemma_run_holds(
        self,
        kind: Kind,
        paths: Vec<String>,
        events: Seq<Event>,
        outcomes: Seq<Outcome>,
    )
        requires
            self.well_formed(),
            runs::run(kind, paths, events, outcomes),
            self.undisturbed(events, outcomes),
        ensures
            self.holds(outcomes.last()),
            outcomes.last().asks(),
        decreases events.len(),
    {
        if events.len() == 0 {
            assert(paths@.take(0) =~= seq![]);
        } else {
            let n: int = events.len() - 1;
            runs::lemma_shorter(kind, paths, events, outcomes);
            let less = outcomes.drop_last();
            assert(self.undisturbed(events.drop_last(), less)) by {
                assert forall|i: int| 0 <= i < n implies self.answers(
                    less[i],
                    #[trigger] events.drop_last()[i],
                ) && !runs::interrupts(events.drop_last()[i]) by {
                    assert(self.answers(outcomes[i], events[i]));
                }
                assert forall|i: int| 0 <= i < less.len() implies self.reads_extension(
                    #[trigger] less[i],
                ) by {
                    assert(self.reads_extension(outcomes[i]));
                }
            }
            self.lemma_run_holds(kind, paths, events.drop_last(), less);
            runs::lemma_run(kind, paths, events.drop_last(), less);
            assert(runs::stepped(events, outcomes, n));
            assert(self.answers(outcomes[n], events[n]));
            assert(self.reads_extension(outcomes[n + 1]));
            self.lemma_step_holds(outcomes[n], events[n], outcomes.last());
        }
    }

    /// Files are played one after another: undisturbed playback hands out the
    /// packets of each path, in the order of the paths, and nothing else. A path
    /// that cannot be resolved, read, played or opened adds none.
    pub proof fn lemma_paths_are_played_in_turn(
        self,
        kind: Kind,
        paths: Vec<String>,
        events: Seq<Event>,
        outcomes: Seq<Outcome>,
    )
        requires
            self.well_formed(),
            runs::run(kind, paths, events, outcomes),
            self.undisturbed(events, outcomes),
            outcomes.last().session.phase is Over,
        ensures
            runs::handed_out(outcomes) == self.all_packets(kind, paths@),
    {
        assert forall|i: int| 0 <= i < events.len() implies !runs::interrupts(
            #[trigger] events[i],
        ) by {
            assert(self.answers(outcomes[i], events[i]));
        }
        self.lemma_run_holds(kind, paths, events, outcomes);
        runs::lemma_run(kind, paths, events, outcomes);
        runs::lemma_uninterrupted_run_is_complete(kind, paths, events, outcomes);
    }

    proof fn lemma_first_paths(self, kind: Kind, paths: Seq<String>, n: int)
        requires
            0 <= n <= paths.len(),
        ensures
            self.all_packets(kind, paths.take(n)).is_prefix_of(self.all_packets(kind, paths)),
        decreases paths.len(),
    {
        if n == paths.len() {
            assert(paths.take(n) =~= paths);
        } else {
            self.lemma_first_paths(kind, paths.drop_last(), n);
            assert(paths.drop_last().take(n) =~= paths.take(n));
        }
    }

    /// At every moment of undisturbed playback, what has been handed out is a
    /// beginning of what is to be handed out in all.
    pub proof fn lemma_handed_out_is_a_beginning(
        self,
        kind: Kind,
        paths: Vec<String>,
        events: Seq<Event>,
        outcomes: Seq<Outcome>,
    )
        requires
            self.well_formed(),
            runs::run(kind, paths, events, outcomes),
            self.undisturbed(events, outcomes),
        ensures
            runs::handed_out(outcomes).is_prefix_of(self.all_packets(kind, paths@)),
    {
        self.lemma_run_holds(kind, paths, events, outcomes);
        runs::lemma_run(kind, paths, events, outcomes);
        let s = outcomes.last().session;
        if s.phase is Over {
            self.lemma_paths_are_played_in_turn(kind, paths, events, outcomes);
        } else {
            let at = s.at as int;
            let path = paths@[at]@;
            self.lemma_next_path(kind, paths@, at);
            self.lemma_first_paths(kind, paths@, at);
            self.lemma_first_paths(kind, paths@, at + 1);
            let whole = self.all_packets(kind, paths@.take(at + 1));
            match s.phase {
                Phase::BeforeRead { playback } => {
                    self.lemma_sent(s, playback);
                },
                Phase::Reading { playback } => {
                    self.lemma_sent(s, playback);
                },
                Phase::Sending { playback, queue } => {
                    self.lemma_sent(s, playback);
                    let more = s.given@ + packets::views(queue@);
                    assert(s.given@.is_prefix_of(more));
                },
                _ => {},
            }
            assert(s.given@.is_prefix_of(whole));
        }
    }

    proof fn lemma_sent(self, s: Session, playback: Playback)
        requires
            s.plays(playback),
            self.part(s.kind, s.paths@[s.at as int]@) matches Some(part) && playback.format()
                == part.format && playback.layout() == part.layout && ((self.content)(
                part.file,
            ) matches Some(whole) && playback.taken().is_prefix_of(whole)),
        ensures
            playback.sent().is_prefix_of(self.packets(s.kind, s.paths@[s.at as int]@)),
    {
        let part = self.part(s.kind, s.paths@[s.at as int]@)->0;
        let whole = (self.content)(part.file)->0;
        playback.lemma_layout();
        laws::sessions::lemma_sent_is_a_beginning(
            playback.layout(),
            playback.format(),
            playback.taken(),
            whole,
        );
    }

    /// What is handed out depends on the files and on nothing else: two
    /// undisturbed sessions of one kind on the same paths hand out the same,
    /// whatever the sizes of their reads.
    pub proof fn lemma_same_files_same_packets(
        self,
        kind: Kind,
        paths: Vec<String>,
        events_a: Seq<Event>,
        a: Seq<Outcome>,
        events_b: Seq<Event>,
        b: Seq<Outcome>,
    )
        requires
            self.well_formed(),
            runs::run(kind, paths, events_a, a),
            runs::run(kind, paths, events_b, b),
            self.undisturbed(events_a, a),
            self.undisturbed(events_b, b),
            a.last().session.phase is Over,
            b.last().session.phase is Over,
        ensures
            runs::handed_out(a) == runs::handed_out(b),
    {
        self.lemma_paths_are_played_in_turn(kind, paths, events_a, a);
        self.lemma_paths_are_played_in_turn(kind, paths, events_b, b);
    }

    /// The packets of a path hold its samples, all of them and in order, and
    /// none is empty or too long.
    pub proof fn lemma_packets_of_a_path(self, kind: Kind, path: Seq<char>)
        ensures
            packets::joined(self.packets(kind, path)) == match self.part(kind, path) {
                Some(part) => match (self.content)(part.file) {
                    Some(bytes) => part.format.decoded(bytes),
                    None => seq![],
                },
                None => seq![],
            },
            forall|i: int|
                0 <= i < self.packets(kind, path).len() ==> 0 < (#[trigger] self.packets(
                    kind,
                    path,
                )[i]).samples.len() <= packets::PACKET_SAMPLES,
    {
        if let Some(part) = self.part(kind, path) {
            if let Some(bytes) = (self.content)(part.file) {
                let samples = part.format.decoded(bytes);
                let layout = part.layout;
                if kind is Sigmf {
                    let meta = (self.metadata)(pair::meta_path(path))->0;
                    segments::lemma_segments_of(meta.captures@);
                }
                layout.lemma_packets_are_contiguous(samples);
                assert forall|i: int| 0 <= i < self.packets(kind, path).len() implies 0 < (
                #[trigger] self.packets(kind, path)[i]).samples.len()
                    <= packets::PACKET_SAMPLES by {
                    layout.lemma_packet_in_its_place(samples, i);
                    layout.lemma_packet_stays_in_its_segment(
                        samples,
                        packets::place(layout.packets(samples), i),
                    );
                }
            }
        }
    }
}

} // verus!
