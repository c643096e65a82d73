//! A session: what to do next, from the first path to the end of the last file.
//!
//! A [`Session`] decides; its driver acts. Each [`Action`] that the session
//! gives is to be performed, and what came of it goes back as an [`Event`].

use crate::datatype::{DataType, Sample};
use crate::ieee::{Binary32, Binary64};
use crate::metadata::SigmfMetadata;
use crate::packets;
use crate::packets::{Layout, Packet, PacketView};
use crate::pair;
use crate::pair::{pair_paths, resolve_pair, PairError};
use crate::playback::Playback;
use crate::raw;
use crate::raw::raw_datatype;
use crate::recording::{Recording, Unplayable};
use crate::segments;
use crate::segments::{count_unstated, sigmf_segments, Segment};
use std::collections::VecDeque;
use vstd::prelude::*;

verus! {

/// What kind of files a session plays.
#[derive(Clone, Copy, Debug, PartialEq, Eq, Structural)]
pub enum Kind {
    Raw { center_hz: Binary64, sample_rate_hz: Binary32 },
    Sigmf,
}

impl Kind {
    /// A file may be played in this layout: raw files have no metadata, and
    /// there is one layout for all of them.
    pub open spec fn allows(self, layout: Layout) -> bool {
        self matches Kind::Raw { center_hz, sample_rate_hz } ==> layout == raw_layout(
            center_hz,
            sample_rate_hz,
        )
    }

    /// A packet may come from such a file: of raw files, each has the labels
    /// that were given for all.
    pub open spec fn labels(self, p: PacketView) -> bool {
        self matches Kind::Raw { center_hz, sample_rate_hz } ==> {
            &&& p.center_frequency_hz == center_hz
            &&& p.sample_rate_hz == sample_rate_hz
            &&& !p.overrun
        }
    }
}

/// The layout of a file without metadata.
pub open spec fn raw_layout(center_hz: Binary64, sample_rate_hz: Binary32) -> Layout {
    Layout { segments: seq![Segment { start: 0, center_hz }], sample_rate_hz }
}

/// What to do next.
#[derive(Debug)]
pub enum Action {
    /// See whether playback is to stop: [`Event::Stop`].
    PollStop,
    /// See whether the two files exist: [`Event::Probed`].
    Probe { meta: String, data: String },
    /// Read and parse a metadata file: [`Event::Loaded`].
    Load { meta: String },
    /// Open a data file: [`Event::Opened`].
    Open { data: String },
    /// Read some bytes of the open data file: [`Event::Read`] or
    /// [`Event::ReadFailed`].
    Read,
    /// Send a packet to the consumer: [`Event::Sent`].
    Send(Packet),
    /// Nothing: playback has ended.
    Finish,
}

/// What came of an action.
#[derive(Debug)]
pub enum Event {
    /// Whether playback is to stop.
    Stop(bool),
    Probed { meta_exists: bool, data_exists: bool },
    /// The metadata, or nothing where it could not be read.
    Loaded(Option<SigmfMetadata>),
    /// The length of the data file in bytes, as far as is known, or nothing
    /// where it could not be opened.
    Opened(Option<u64>),
    /// The bytes of a read; none at the end of the file.
    Read(Vec<u8>),
    ReadFailed,
    /// Whether the consumer is still there.
    Sent(bool),
}

/// What a driver may want to report.
#[derive(Clone, Debug)]
pub enum Notice {
    /// A path that leads to no recording is skipped.
    Unresolved(PairError),
    /// A recording is skipped.
    Unplayable(Unplayable),
    /// Some of the segments of a recording state no frequency.
    Unstated { count: usize, total: usize },
    /// A data file ended in so many bytes of a truncated sample.
    Truncated(usize),
}

/// Where a session stands: what it waits for.
pub enum Phase {
    /// To be told whether to stop, before the path at hand.
    BeforePath,
    Probing,
    Loading { data: String },
    Opening { recording: Recording },
    /// To be told whether to stop, before a read.
    BeforeRead { playback: Playback },
    Reading { playback: Playback },
    /// A packet has been handed out, and `queue` is to follow.
    Sending { playback: Playback, queue: VecDeque<Packet> },
    /// The last packet of a file has been handed out.
    Ending,
    Over,
}

/// A data file that has been played to its end.
pub struct Played {
    /// The index of the path that led to it.
    pub path: int,
    pub layout: Layout,
    pub format: DataType,
    /// What it held.
    pub bytes: Seq<u8>,
}

impl Played {
    /// All packets of the file.
    pub open spec fn packets(self) -> Seq<PacketView> {
        self.layout.packets(self.format.decoded(self.bytes))
    }
}

/// All packets of some files, one file after another.
pub open spec fn all_packets(files: Seq<Played>) -> Seq<PacketView>
    decreases files.len(),
{
    if files.len() == 0 {
        seq![]
    } else {
        all_packets(files.drop_last()) + files.last().packets()
    }
}

/// The files are those of paths before `end`, in the order of the paths and
/// none of them twice.
pub open spec fn in_order(files: Seq<Played>, end: int) -> bool {
    &&& forall|i: int| 0 <= i < files.len() ==> 0 <= (#[trigger] files[i]).path < end
    &&& forall|i: int, j: int|
        0 <= i < j < files.len() ==> (#[trigger] files[i]).path < (#[trigger] files[j]).path
}

/// The playback of a list of paths.
pub struct Session {
    pub kind: Kind,
    pub paths: Vec<String>,
    /// The index of the path at hand.
    pub at: usize,
    pub phase: Phase,
    /// The files that have been played to their end.
    pub played: Ghost<Seq<Played>>,
    /// All packets handed out so far.
    pub given: Ghost<Seq<PacketView>>,
}

impl Session {
    /// The phase is consistent, and what has been handed out is: all packets of
    /// the files played to their end, and then those of the file at hand, in
    /// order and without a gap.
    pub open spec fn well_formed(self) -> bool {
        let whole = all_packets(self.played@);
        &&& self.labelled()
        &&& match self.phase {
            Phase::BeforePath => self.awaits_path() && self.given@ == whole,
            Phase::Probing => self.awaits_path() && self.given@ == whole && self.kind is Sigmf,
            Phase::Loading { data } => {
                &&& self.awaits_path()
                &&& self.given@ == whole
                &&& self.kind is Sigmf
                &&& data@ == pair::data_path(self.paths@[self.at as int]@)
            },
            Phase::Opening { recording } => {
                &&& self.awaits_path()
                &&& self.given@ == whole
                &&& segments::well_formed(recording.segments@)
                &&& self.kind.allows(recording.layout())
            },
            Phase::BeforeRead { playback } => self.plays(playback) && self.given@ == whole
                + playback.sent(),
            Phase::Reading { playback } => self.plays(playback) && self.given@ == whole
                + playback.sent(),
            Phase::Sending { playback, queue } => {
                &&& self.plays(playback)
                &&& whole.len() <= self.given@.len()
                &&& self.given@ + packets::views(queue@) == whole + playback.sent()
            },
            Phase::Ending => {
                &&& self.at < self.paths@.len()
                &&& in_order(self.played@, self.at + 1)
                &&& self.given@ == whole
            },
            Phase::Over => in_order(self.played@, self.paths@.len() as int),
        }
    }

    /// Every packet has the labels that this kind of files gives it.
    pub open spec fn labelled(self) -> bool {
        forall|i: int|
            0 <= i < self.given@.len() ==> self.kind.labels(#[trigger] self.given@[i])
    }

    /// The path at hand is being played.
    pub open spec fn plays(self, playback: Playback) -> bool {
        &&& self.awaits_path()
        &&& playback.well_formed()
        &&& self.kind.allows(playback.layout())
    }

    /// The path at hand is one of the paths, and has not been played yet.
    pub open spec fn awaits_path(self) -> bool {
        self.at < self.paths@.len() && in_order(self.played@, self.at as int)
    }

    /// The session waits for such an event.
    pub open spec fn awaits(self, event: Event) -> bool {
        match self.phase {
            Phase::BeforePath => event is Stop,
            Phase::Probing => event is Probed,
            Phase::Loading { .. } => event is Loaded,
            Phase::Opening { .. } => event is Opened,
            Phase::BeforeRead { .. } => event is Stop,
            Phase::Reading { playback } => event is ReadFailed || (event matches Event::Read(bytes)
                && playback.taken().len() + bytes@.len() <= u64::MAX),
            Phase::Sending { .. } => event is Sent,
            Phase::Ending => event is Sent,
            Phase::Over => false,
        }
    }

    /// The same session, but for its phase.
    pub open spec fn same_but_phase(self, after: Session) -> bool {
        after == (Session { phase: after.phase, ..self })
    }
}

/// The notice, where there is need for one, that some of the segments of a
/// recording state no frequency.
pub open spec fn unstated_notice(segments: Seq<Segment>) -> Seq<Notice> {
    let count = segments::unstated(segments);
    if count > 0 {
        seq![Notice::Unstated { count: count as usize, total: segments.len() as usize }]
    } else {
        seq![]
    }
}

/// What a step leads to: the session after it, the next action, and what there
/// is to report, in that order.
pub struct Outcome {
    pub session: Session,
    pub action: Action,
    pub notices: Vec<Notice>,
}

impl Outcome {
    /// The action is the one whose event the session waits for.
    pub open spec fn asks(self) -> bool {
        match self.action {
            Action::PollStop => self.session.phase is BeforePath || self.session.phase is BeforeRead,
            Action::Probe { .. } => self.session.phase is Probing,
            Action::Load { .. } => self.session.phase is Loading,
            Action::Open { .. } => self.session.phase is Opening,
            Action::Read => self.session.phase is Reading,
            Action::Send(_) => self.session.phase is Sending || self.session.phase is Ending,
            Action::Finish => self.session.phase is Over,
        }
    }

    /// Playback has ended, with nothing more handed out.
    pub open spec fn ends(self, before: Session) -> bool {
        &&& before.same_but_phase(self.session)
        &&& self.session.phase is Over
        &&& self.action is Finish
    }

    /// The path at hand is done with: the next one follows, if there is one.
    pub open spec fn moves_on(self, before: Session) -> bool {
        if before.at + 1 < before.paths@.len() {
            &&& self.session == (Session {
                at: (before.at + 1) as usize,
                phase: Phase::BeforePath,
                ..before
            })
            &&& self.action is PollStop
        } else {
            self.ends(before)
        }
    }

    /// A data file is to be opened and played.
    pub open spec fn opens(self, before: Session, data: Seq<char>) -> bool {
        &&& before.same_but_phase(self.session)
        &&& self.session.phase is Opening
        &&& self.action matches Action::Open { data: file }
        &&& file@ == data
    }

    /// A packet is handed out.
    pub open spec fn hands_out(self, before: Session, p: PacketView) -> bool {
        &&& self.session == (Session {
            phase: self.session.phase,
            given: Ghost(before.given@.push(p)),
            ..before
        })
        &&& self.action matches Action::Send(packet)
        &&& packet@ == p
    }

    /// Packets are handed out, the first now and then the others; where there
    /// are none, the next read follows.
    pub open spec fn hands_out_all(self, before: Session, ps: Seq<PacketView>) -> bool {
        if ps.len() == 0 {
            &&& before.same_but_phase(self.session)
            &&& self.session.phase is BeforeRead
            &&& self.action is PollStop
        } else {
            &&& self.hands_out(before, ps[0])
            &&& self.session.phase matches Phase::Sending { queue, .. }
            &&& packets::views(queue@) == ps.skip(1)
        }
    }

    /// The playback of the file at hand, in those phases that have one.
    pub open spec fn playback(self) -> Playback {
        match self.session.phase {
            Phase::BeforeRead { playback } => playback,
            Phase::Reading { playback } => playback,
            Phase::Sending { playback, .. } => playback,
            _ => arbitrary(),
        }
    }

    /// What comes of the word whether to stop, before a path.
    pub open spec fn follows_stop_before_path(self, before: Session, stop: bool) -> bool {
        let path = before.paths@[before.at as int]@;
        &&& self.notices@.len() == 0
        &&& if stop {
            self.ends(before)
        } else {
            match before.kind {
                Kind::Raw { center_hz, sample_rate_hz } => {
                    &&& self.opens(before, path)
                    &&& self.session.phase->recording.layout() == raw_layout(
                        center_hz,
                        sample_rate_hz,
                    )
                    &&& self.session.phase->recording.datatype == DataType::Ci16Le
                        || self.session.phase->recording.datatype == DataType::Cf32Le
                    &&& raw::plain(path) ==> self.session.phase->recording.datatype
                        == raw::format_of_extension(raw::name_extension(raw::file_name(path)))
                },
                Kind::Sigmf => {
                    &&& before.same_but_phase(self.session)
                    &&& self.session.phase is Probing
                    &&& self.action matches Action::Probe { meta, data }
                    &&& meta@ == pair::meta_path(path)
                    &&& data@ == pair::data_path(path)
                },
            }
        }
    }

    /// What comes of the word whether the two files of a recording exist.
    pub open spec fn follows_probe(
        self,
        before: Session,
        meta_exists: bool,
        data_exists: bool,
    ) -> bool {
        let path = before.paths@[before.at as int]@;
        if meta_exists && data_exists {
            &&& self.notices@.len() == 0
            &&& before.same_but_phase(self.session)
            &&& self.session.phase matches Phase::Loading { data }
            &&& data@ == pair::data_path(path)
            &&& self.action matches Action::Load { meta }
            &&& meta@ == pair::meta_path(path)
        } else {
            &&& self.moves_on(before)
            &&& self.notices@.len() == 1
            &&& self.notices@[0] matches Notice::Unresolved(e)
            &&& match e {
                PairError::MetaMissing { meta, path: from } => !meta_exists && meta@
                    == pair::meta_path(path) && from@ == path,
                PairError::DataMissing { data, path: from } => meta_exists && data@
                    == pair::data_path(path) && from@ == path,
            }
        }
    }

    /// What comes of the metadata of a recording whose data file is `data`.
    pub open spec fn follows_load(
        self,
        before: Session,
        loaded: Option<SigmfMetadata>,
        data: Seq<char>,
    ) -> bool {
        match loaded {
            None => self.moves_on(before) && self.notices@.len() == 0,
            Some(meta) => {
                let format = DataType::named(meta.global.datatype@);
                let unstated = if format is Some {
                    unstated_notice(segments::segments_of(meta.captures@))
                } else {
                    seq![]
                };
                if Recording::playable(meta) {
                    &&& self.opens(before, data)
                    &&& self.session.phase->recording.of(meta)
                    &&& self.notices@ == unstated
                } else {
                    &&& self.moves_on(before)
                    &&& self.notices@.len() == unstated.len() + 1
                    &&& self.notices@.drop_last() == unstated
                    &&& self.notices@.last() matches Notice::Unplayable(e)
                    &&& e.stands_against(meta)
                }
            },
        }
    }

    /// What comes of opening a data file.
    pub open spec fn follows_open(
        self,
        before: Session,
        length: Option<u64>,
        recording: Recording,
    ) -> bool {
        &&& self.notices@.len() == 0
        &&& match length {
            None => self.moves_on(before),
            Some(_) => {
                &&& before.same_but_phase(self.session)
                &&& self.session.phase is BeforeRead
                &&& self.playback().format() == recording.datatype
                &&& self.playback().layout() == recording.layout()
                &&& self.playback().taken() == Seq::<u8>::empty()
                &&& self.action is PollStop
            },
        }
    }

    /// What comes of the word whether to stop, before a read.
    pub open spec fn follows_stop_before_read(
        self,
        before: Session,
        stop: bool,
        playback: Playback,
    ) -> bool {
        &&& self.notices@.len() == 0
        &&& if stop {
            self.ends(before)
        } else {
            &&& before.same_but_phase(self.session)
            &&& self.session.phase == (Phase::Reading { playback })
            &&& self.action is Read
        }
    }

    /// What comes of a read that gave `bytes`. At the end of the file the last
    /// packet leaves, and the file has been played.
    pub open spec fn follows_read(
        self,
        before: Session,
        bytes: Seq<u8>,
        playback: Playback,
    ) -> bool {
        if bytes.len() > 0 {
            &&& self.notices@.len() == 0
            &&& self.hands_out_all(before, self.playback().sent().skip(playback.sent().len() as int))
            &&& self.playback().format() == playback.format()
            &&& self.playback().layout() == playback.layout()
            &&& self.playback().taken() == playback.taken() + bytes
        } else {
            let done = Session {
                played: Ghost(
                    before.played@.push(
                        Played {
                            path: before.at as int,
                            layout: playback.layout(),
                            format: playback.format(),
                            bytes: playback.taken(),
                        },
                    ),
                ),
                ..before
            };
            let all = playback.layout().packets(playback.samples());
            let cut = playback.taken().len() as int % playback.format().width();
            &&& self.notices@ == if cut > 0 {
                seq![Notice::Truncated(cut as usize)]
            } else {
                seq![]
            }
            &&& if all.len() == playback.sent().len() {
                self.moves_on(done)
            } else {
                &&& self.hands_out(done, all.last())
                &&& self.session.phase is Ending
            }
        }
    }

    /// What comes of a packet that was sent, with others to follow.
    pub open spec fn follows_send(
        self,
        before: Session,
        there: bool,
        playback: Playback,
        queue: Seq<PacketView>,
    ) -> bool {
        &&& self.notices@.len() == 0
        &&& if there {
            self.hands_out_all(before, queue) && self.playback() == playback
        } else {
            self.ends(before)
        }
    }

    /// What comes of the last packet of a file.
    pub open spec fn follows_last_send(self, before: Session, there: bool) -> bool {
        &&& self.notices@.len() == 0
        &&& if there {
            self.moves_on(before)
        } else {
            self.ends(before)
        }
    }

    /// What comes of an event that the session waited for.
    pub open spec fn follows(self, before: Session, event: Event) -> bool {
        match (before.phase, event) {
            (Phase::BeforePath, Event::Stop(stop)) => self.follows_stop_before_path(before, stop),
            (Phase::Probing, Event::Probed { meta_exists, data_exists }) => self.follows_probe(
                before,
                meta_exists,
                data_exists,
            ),
            (Phase::Loading { data }, Event::Loaded(loaded)) => self.follows_load(
                before,
                loaded,
                data@,
            ),
            (Phase::Opening { recording }, Event::Opened(length)) => self.follows_open(
                before,
                length,
                recording,
            ),
            (Phase::BeforeRead { playback }, Event::Stop(stop)) => self.follows_stop_before_read(
                before,
                stop,
                playback,
            ),
            (Phase::Reading { playback }, Event::Read(bytes)) => self.follows_read(
                before,
                bytes@,
                playback,
            ),
            (Phase::Reading { .. }, Event::ReadFailed) => self.ends(before) && self.notices@.len() == 0,
            (Phase::Sending { playback, queue }, Event::Sent(there)) => self.follows_send(
                before,
                there,
                playback,
                packets::views(queue@),
            ),
            (Phase::Ending, Event::Sent(there)) => self.follows_last_send(before, there),
            _ => false,
        }
    }
}

/// Every packet of a file has the labels that this kind of files gives it.
proof fn lemma_labelled(kind: Kind, layout: Layout, samples: Seq<Sample>, i: int)
    requires
        layout.well_formed(),
        kind.allows(layout),
        0 <= i < layout.packets(samples).len(),
    ensures
        kind.labels(layout.packets(samples)[i]),
{
    layout.lemma_packet_in_its_place(samples, i);
}

fn end(session: Session, notices: Vec<Notice>) -> (r: Outcome)
    ensures
        r.ends(session),
        r.notices == notices,
{
    Outcome { session: Session { phase: Phase::Over, ..session }, action: Action::Finish, notices }
}

fn move_on(session: Session, notices: Vec<Notice>) -> (r: Outcome)
    requires
        session.labelled(),
        session.at < session.paths@.len(),
        in_order(session.played@, session.at + 1),
        session.given@ == all_packets(session.played@),
    ensures
        r.moves_on(session),
        r.session.well_formed(),
        r.notices == notices,
{
    if session.at < session.paths.len() - 1 {
        let at: usize = session.at + 1;
        Outcome {
            session: Session { at, phase: Phase::BeforePath, ..session },
            action: Action::PollStop,
            notices,
        }
    } else {
        end(session, notices)
    }
}

/// Reports that some of the segments state no frequency, if there are such.
fn report_unstated(segments: &Vec<Segment>) -> (notices: Vec<Notice>)
    ensures
        notices@ == unstated_notice(segments@),
{
    let count: usize = count_unstated(segments);
    let total: usize = segments.len();
    if count > 0 {
        vec![Notice::Unstated { count, total }]
    } else {
        Vec::new()
    }
}

/// Hands out the first of the packets that wait, or goes on to the next read.
fn hand_out(session: Session, playback: Playback, waiting: VecDeque<Packet>) -> (r: Outcome)
    requires
        session.plays(playback),
        session.labelled(),
        all_packets(session.played@).len() <= session.given@.len(),
        session.given@ + packets::views(waiting@) == all_packets(session.played@) + playback.sent(),
    ensures
        r.hands_out_all(session, packets::views(waiting@)),
        r.playback() == playback,
        r.session.well_formed(),
        r.notices@.len() == 0,
{
    let mut queue = waiting;
    match queue.pop_front() {
        None => {
            assert(session.given@ + packets::views(waiting@) =~= session.given@);
            Outcome {
                session: Session { phase: Phase::BeforeRead { playback }, ..session },
                action: Action::PollStop,
                notices: Vec::new(),
            }
        },
        Some(packet) => {
            let ghost given = session.given@.push(packet@);
            assert(packets::views(queue@) =~= packets::views(waiting@).skip(1));
            assert(given + packets::views(queue@) =~= session.given@ + packets::views(waiting@));
            proof {
                let whole = all_packets(session.played@);
                let i = session.given@.len() as int;
                assert(packet@ == (session.given@ + packets::views(waiting@))[i]);
                assert(packet@ == playback.sent()[i - whole.len()]);
                playback.lemma_layout();
                lemma_labelled(session.kind, playback.layout(), playback.samples(), i - whole.len());
            }
            Outcome {
                session: Session {
                    phase: Phase::Sending { playback, queue },
                    given: Ghost(given),
                    ..session
                },
                action: Action::Send(packet),
                notices: Vec::new(),
            }
        },
    }
}

impl Session {
    /// Takes what came of the last action, and says what to do next.
    pub fn step(self, event: Event) -> (r: Outcome)
        requires
            self.well_formed(),
            self.awaits(event),
        ensures
            r.follows(self, event),
            r.session.well_formed(),
            r.asks(),
    {
        let Session { kind, paths, at, phase, played, given } = self;
        let rest = Session { kind, paths, at, phase: Phase::Over, played, given };
        match (phase, event) {
            (Phase::BeforePath, Event::Stop(stop)) => rest.step_before_path(stop),
            (Phase::Probing, Event::Probed { meta_exists, data_exists }) => rest.step_probed(
                meta_exists,
                data_exists,
            ),
            (Phase::Loading { data }, Event::Loaded(loaded)) => rest.step_loaded(loaded, data),
            (Phase::Opening { recording }, Event::Opened(length)) => rest.step_opened(
                length,
                recording,
            ),
            (Phase::BeforeRead { playback }, Event::Stop(stop)) => if stop {
                end(rest, Vec::new())
            } else {
                Outcome {
                    session: Session { phase: Phase::Reading { playback }, ..rest },
                    action: Action::Read,
                    notices: Vec::new(),
                }
            },
            (Phase::Reading { playback }, Event::Read(bytes)) => if bytes.len() > 0 {
                rest.step_read(bytes, playback)
            } else {
                rest.step_end_of_file(playback)
            },
            (Phase::Reading { .. }, Event::ReadFailed) => end(rest, Vec::new()),
            (Phase::Sending { playback, queue }, Event::Sent(there)) => if there {
                hand_out(rest, playback, queue)
            } else {
                end(rest, Vec::new())
            },
            (Phase::Ending, Event::Sent(there)) => if there {
                move_on(rest, Vec::new())
            } else {
                end(rest, Vec::new())
            },
            _ => end(rest, Vec::new()),
        }
    }

    fn step_before_path(self, stop: bool) -> (r: Outcome)
        requires
            self.awaits_path(),
            self.labelled(),
            self.given@ == all_packets(self.played@),
        ensures
            r.follows_stop_before_path(self, stop),
            r.session.well_formed(),
    {
        if stop {
            return end(self, Vec::new());
        }
        match self.kind {
            Kind::Raw { center_hz, sample_rate_hz } => {
                let path: String = self.paths[self.at].as_str().to_owned();
                let datatype = raw_datatype(path.as_str());
                let mut segments: Vec<Segment> = Vec::new();
                segments.push(Segment { start: 0, center_hz });
                assert(segments@ =~= seq![Segment { start: 0, center_hz }]);
                let recording = Recording { datatype, segments, sample_rate_hz };
                Outcome {
                    session: Session { phase: Phase::Opening { recording }, ..self },
                    action: Action::Open { data: path },
                    notices: Vec::new(),
                }
            },
            Kind::Sigmf => {
                let (meta, data) = pair_paths(self.paths[self.at].as_str());
                Outcome {
                    session: Session { phase: Phase::Probing, ..self },
                    action: Action::Probe { meta, data },
                    notices: Vec::new(),
                }
            },
        }
    }

    fn step_probed(self, meta_exists: bool, data_exists: bool) -> (r: Outcome)
        requires
            self.awaits_path(),
            self.labelled(),
            self.given@ == all_packets(self.played@),
            self.kind is Sigmf,
        ensures
            r.follows_probe(self, meta_exists, data_exists),
            r.session.well_formed(),
    {
        match resolve_pair(self.paths[self.at].as_str(), meta_exists, data_exists) {
            Err(e) => move_on(self, vec![Notice::Unresolved(e)]),
            Ok((meta, data)) => Outcome {
                session: Session { phase: Phase::Loading { data }, ..self },
                action: Action::Load { meta },
                notices: Vec::new(),
            },
        }
    }

    fn step_loaded(self, loaded: Option<SigmfMetadata>, data: String) -> (r: Outcome)
        requires
            self.awaits_path(),
            self.labelled(),
            self.given@ == all_packets(self.played@),
            self.kind is Sigmf,
        ensures
            r.follows_load(self, loaded, data@),
            r.session.well_formed(),
    {
        match loaded {
            None => move_on(self, Vec::new()),
            Some(meta) => match Recording::from_metadata(&meta) {
                Err(e) => {
                    let mut notices: Vec<Notice> = match e {
                        Unplayable::DataType(_) => Vec::new(),
                        Unplayable::SampleRate(_) => report_unstated(&sigmf_segments(&meta)),
                    };
                    let ghost before = notices@;
                    notices.push(Notice::Unplayable(e));
                    assert(notices@.drop_last() =~= before);
                    move_on(self, notices)
                },
                Ok(recording) => {
                    proof {
                        segments::lemma_described_by(meta.captures@, recording.segments@);
                    }
                    let notices = report_unstated(&recording.segments);
                    Outcome {
                        session: Session { phase: Phase::Opening { recording }, ..self },
                        action: Action::Open { data },
                        notices,
                    }
                },
            },
        }
    }

    fn step_opened(self, length: Option<u64>, recording: Recording) -> (r: Outcome)
        requires
            self.awaits_path(),
            self.labelled(),
            self.given@ == all_packets(self.played@),
            segments::well_formed(recording.segments@),
            self.kind.allows(recording.layout()),
        ensures
            r.follows_open(self, length, recording),
            r.session.well_formed(),
    {
        match length {
            None => move_on(self, Vec::new()),
            Some(file_bytes) => {
                let Recording { datatype, segments, sample_rate_hz } = recording;
                let playback = Playback::new(datatype, segments, sample_rate_hz, file_bytes);
                assert(self.given@ =~= all_packets(self.played@) + playback.sent());
                Outcome {
                    session: Session { phase: Phase::BeforeRead { playback }, ..self },
                    action: Action::PollStop,
                    notices: Vec::new(),
                }
            },
        }
    }

    fn step_read(self, bytes: Vec<u8>, before: Playback) -> (r: Outcome)
        requires
            self.plays(before),
            self.labelled(),
            self.given@ == all_packets(self.played@) + before.sent(),
            bytes@.len() > 0,
            before.taken().len() + bytes@.len() <= u64::MAX,
        ensures
            r.follows_read(self, bytes@, before),
            r.session.well_formed(),
    {
        let mut playback = before;
        let out = playback.feed(bytes.as_slice());
        let ghost whole = all_packets(self.played@);
        let mut queue: VecDeque<Packet> = VecDeque::new();
        let ghost given = out@;
        for packet in it: out
            invariant
                it.seq() == given,
                queue@ == given.take(it.index()),
        {
            queue.push_back(packet);
        }
        proof {
            assert(given.take(given.len() as int) =~= given);
            assert(playback.sent().skip(before.sent().len() as int) =~= packets::views(given));
            assert(self.given@ + packets::views(given) =~= whole + playback.sent());
        }
        hand_out(self, playback, queue)
    }

    fn step_end_of_file(self, playback: Playback) -> (r: Outcome)
        requires
            self.plays(playback),
            self.labelled(),
            self.given@ == all_packets(self.played@) + playback.sent(),
        ensures
            r.follows_read(self, Seq::<u8>::empty(), playback),
            r.session.well_formed(),
    {
        let ghost file = Played {
            path: self.at as int,
            layout: playback.layout(),
            format: playback.format(),
            bytes: playback.taken(),
        };
        let ghost files = self.played@.push(file);
        proof {
            assert(files.drop_last() =~= self.played@);
            assert(in_order(files, self.at + 1));
        }
        let done = Session { played: Ghost(files), ..self };
        let (last, discarded) = playback.finish();
        let notices: Vec<Notice> = if discarded > 0 {
            vec![Notice::Truncated(discarded)]
        } else {
            Vec::new()
        };
        assert(notices@ =~= if discarded > 0 {
            seq![Notice::Truncated(discarded)]
        } else {
            seq![]
        });
        match last {
            None => move_on(done, notices),
            Some(packet) => {
                let ghost given = self.given@.push(packet@);
                assert(given =~= all_packets(files));
                proof {
                    let n = playback.sent().len() as int;
                    assert(packet@ == file.packets()[n]);
                    playback.lemma_layout();
                    lemma_labelled(self.kind, playback.layout(), playback.samples(), n);
                }
                Outcome {
                    session: Session { phase: Phase::Ending, given: Ghost(given), ..done },
                    action: Action::Send(packet),
                    notices,
                }
            },
        }
    }
}

} // verus!
