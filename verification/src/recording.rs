//! What a SigMF recording needs to be played.

use crate::datatype::{DataType, Sample, UnsupportedDataType};
use crate::ieee::Binary32;
use crate::metadata::{Capture, SigmfMetadata};
use crate::packets;
use crate::packets::Layout;
use crate::playback;
use crate::playback::packet_sample_rate;
use crate::segments;
use crate::segments::{sigmf_segments, Segment};
use vstd::prelude::*;

verus! {

/// What a data file needs to be played.
#[derive(Clone, Debug)]
pub struct Recording {
    pub datatype: DataType,
    pub segments: Vec<Segment>,
    pub sample_rate_hz: Binary32,
}

/// Why a recording whose metadata was read is not played.
#[derive(Clone, Debug)]
pub enum Unplayable {
    DataType(UnsupportedDataType),
    SampleRate(&'static str),
}

impl Unplayable {
    /// What stands against playing a recording; the format first.
    pub open spec fn stands_against(self, meta: SigmfMetadata) -> bool {
        match self {
            Unplayable::DataType(e) => {
                &&& DataType::named(meta.global.datatype@) is None
                &&& e.datatype@ == meta.global.datatype@
            },
            Unplayable::SampleRate(e) => {
                &&& DataType::named(meta.global.datatype@) is Some
                &&& !playback::usable_rate(meta.global.sample_rate)
                &&& e@
                    == "sample_rate_hz must be finite, positive, and representable as a positive finite f32"@
            },
        }
    }
}

impl Recording {
    /// How the samples of the recording are laid out in packets.
    pub open spec fn layout(self) -> Layout {
        Layout { segments: self.segments@, sample_rate_hz: self.sample_rate_hz }
    }

    /// The recording is the one that the metadata describes.
    pub open spec fn of(self, meta: SigmfMetadata) -> bool {
        &&& DataType::named(meta.global.datatype@) == Some(self.datatype)
        &&& segments::describes(meta.captures@, self.segments@)
        &&& self.sample_rate_hz == meta.global.sample_rate.narrowed()
    }

    /// Two metadata say the same of how a recording is played.
    pub open spec fn same(a: SigmfMetadata, b: SigmfMetadata) -> bool {
        &&& a.global.datatype@ == b.global.datatype@
        &&& a.global.sample_rate == b.global.sample_rate
        &&& segments::same_captures(a.captures@, b.captures@)
    }

    /// A recording with this metadata can be played: its format is supported,
    /// and its rate can label packets.
    pub open spec fn playable(meta: SigmfMetadata) -> bool {
        DataType::named(meta.global.datatype@) is Some && playback::usable_rate(
            meta.global.sample_rate,
        )
    }

    /// The recording that the metadata describes, or why it cannot be played.
    pub fn from_metadata(meta: &SigmfMetadata) -> (r: Result<Recording, Unplayable>)
        ensures
            match r {
                Ok(recording) => Recording::playable(*meta) && recording.of(*meta),
                Err(e) => !Recording::playable(*meta) && e.stands_against(*meta),
            },
    {
        match meta.data_type() {
            Err(e) => Err(Unplayable::DataType(e)),
            Ok(datatype) => {
                let segments = sigmf_segments(meta);
                match packet_sample_rate(meta.sample_rate_hz()) {
                    Err(e) => Err(Unplayable::SampleRate(e)),
                    Ok(sample_rate_hz) => Ok(Recording { datatype, segments, sample_rate_hz }),
                }
            },
        }
    }
}

/// Each capture that has samples is tagged with its own frequency, or as unknown
/// where it states none, from its first sample on: a packet begins there. Of
/// captures that share a start it is the one listed last.
pub proof fn lemma_capture_begins_a_packet(
    captures: Seq<Capture>,
    layout: Layout,
    samples: Seq<Sample>,
    c: int,
) -> (i: int)
    requires
        segments::describes(captures, layout.segments),
        0 <= c < captures.len(),
        captures[c].sample_start < samples.len(),
        forall|d: int|
            c < d < captures.len() ==> (#[trigger] captures[d]).sample_start
                != captures[c].sample_start,
    ensures
        0 <= i < layout.packets(samples).len(),
        packets::place(layout.packets(samples), i) == captures[c].sample_start,
        layout.packets(samples)[i].center_frequency_hz == segments::tag_of(captures[c]),
{
    let start = captures[c].sample_start;
    assert(segments::has_start(layout.segments, start));
    let k = choose|k: int|
        0 <= k < layout.segments.len() && (#[trigger] layout.segments[k]).start == start;
    assert(segments::tagged_by(captures, layout.segments[k]));
    segments::lemma_tag_at(captures, c);
    layout.lemma_segment_begins_a_packet(samples, k)
}

/// No packet spans two captures: none has the start of a capture within it.
pub proof fn lemma_no_packet_spans_two_captures(
    captures: Seq<Capture>,
    layout: Layout,
    samples: Seq<Sample>,
    i: int,
    c: int,
)
    requires
        segments::describes(captures, layout.segments),
        0 <= i < layout.packets(samples).len(),
        0 <= c < captures.len(),
    ensures
        ({
            let all = layout.packets(samples);
            let begin = packets::place(all, i);
            let start = captures[c].sample_start;
            start <= begin || begin + all[i].samples.len() <= start
        }),
{
    let all = layout.packets(samples);
    let begin = packets::place(all, i);
    let start = captures[c].sample_start;
    layout.lemma_packet_in_its_place(samples, i);
    layout.lemma_packet_stays_in_its_segment(samples, begin);
    assert(segments::has_start(layout.segments, start));
    let k = choose|k: int|
        0 <= k < layout.segments.len() && (#[trigger] layout.segments[k]).start == start;
    if begin < start < begin + all[i].samples.len() {
        if k + 1 < layout.segments.len() {
            assert(layout.segments[k].start < layout.segments[k + 1].start);
        }
        packets::lemma_segment_at_is(layout.segments, start as int, k);
        packets::lemma_segment_at(layout.segments, begin);
        assert(packets::segment_at(layout.segments, start as int) == packets::segment_at(
            layout.segments,
            begin,
        ));
    }
}

} // verus!
