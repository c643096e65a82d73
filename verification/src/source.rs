//! The sources of IQ samples: files that are played one after another.

use crate::ieee::Binary64;
use crate::packets::PacketView;
use crate::playback;
use crate::playback::packet_sample_rate;
use crate::session::{Action, Kind, Outcome, Phase, Played, Session};
use crate::text::joined;
use vstd::prelude::*;
use vstd::string::*;

verus! {

/// Raw-IQ file source. Accepts one or more paths and streams them sequentially.
#[derive(Clone, Debug)]
pub struct RawIqFileSource {
    pub paths: Vec<String>,
    /// Center frequency tagged on every packet. Files don't carry frequency
    /// metadata: the caller passes it in.
    pub center_frequency_hz: Binary64,
}

/// SigMF file source. Accepts one or more `.sigmf-meta` / `.sigmf-data` paths
/// (or the bare recording basename); plays them sequentially, pulling sample
/// rate, centre frequency and datatype from each recording's metadata.
///
/// A multi-capture recording is tagged per capture: packets are cut at each
/// capture's `core:sample_start` and carry that capture's `core:frequency`, or
/// the unknown one where it states none. A boundary the tags do not reveal (one
/// that keeps the frequency, or enters or leaves an unknown one) sets `overrun`
/// on the first packet after it.
#[derive(Clone, Debug)]
pub struct SigmfFileSource {
    /// Each path is either a `.sigmf-meta`, a `.sigmf-data`, or a recording
    /// basename (which may contain dots) whose `.sigmf-meta` and `.sigmf-data`
    /// siblings both exist.
    pub paths: Vec<String>,
}

/// Playback begins with the first path.
pub open spec fn begins(o: Outcome, kind: Kind, paths: Vec<String>) -> bool {
    &&& o.session == (Session {
        kind,
        paths,
        at: 0,
        phase: Phase::BeforePath,
        played: Ghost(Seq::<Played>::empty()),
        given: Ghost(Seq::<PacketView>::empty()),
    })
    &&& o.session.well_formed()
    &&& o.action is PollStop
    &&& o.asks()
    &&& o.notices@.len() == 0
}

fn begin(kind: Kind, paths: Vec<String>) -> (o: Outcome)
    requires
        paths@.len() > 0,
    ensures
        begins(o, kind, paths),
{
    Outcome {
        session: Session {
            kind,
            paths,
            at: 0,
            phase: Phase::BeforePath,
            played: Ghost(Seq::<Played>::empty()),
            given: Ghost(Seq::<PacketView>::empty()),
        },
        action: Action::PollStop,
        notices: Vec::new(),
    }
}

impl RawIqFileSource {
    /// Starts playback at a sample rate, with which the packets are labelled;
    /// or says what is wrong with the configuration.
    pub fn start(self, sample_rate_hz: Binary64) -> (r: Result<Outcome, String>)
        ensures
            match r {
                Ok(o) => {
                    &&& self.paths@.len() > 0
                    &&& playback::usable_rate(sample_rate_hz)
                    &&& begins(
                        o,
                        Kind::Raw {
                            center_hz: self.center_frequency_hz,
                            sample_rate_hz: sample_rate_hz.narrowed(),
                        },
                        self.paths,
                    )
                },
                Err(e) => if self.paths@.len() == 0 {
                    e@ == "RawIqFileSource: no paths to play"@
                } else {
                    &&& !playback::usable_rate(sample_rate_hz)
                    &&& e@ == "RawIqFileSource: "@
                        + "sample_rate_hz must be finite, positive, and representable as a positive finite f32"@
                },
            },
    {
        if self.paths.len() == 0 {
            return Err("RawIqFileSource: no paths to play".to_owned());
        }
        match packet_sample_rate(sample_rate_hz) {
            Err(e) => Err(joined("RawIqFileSource: ", e)),
            Ok(rate) => Ok(
                begin(
                    Kind::Raw { center_hz: self.center_frequency_hz, sample_rate_hz: rate },
                    self.paths,
                ),
            ),
        }
    }
}

impl SigmfFileSource {
    /// Starts playback, or says what is wrong with the configuration.
    pub fn start(self) -> (r: Result<Outcome, String>)
        ensures
            match r {
                Ok(o) => self.paths@.len() > 0 && begins(o, Kind::Sigmf, self.paths),
                Err(e) => self.paths@.len() == 0 && e@ == "SigmfFileSource: no paths to play"@,
            },
    {
        if self.paths.len() == 0 {
            return Err("SigmfFileSource: no paths to play".to_owned());
        }
        Ok(begin(Kind::Sigmf, self.paths))
    }
}

} // verus!
