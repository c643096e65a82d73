//! Laws of playback: which samples leave in which packet, and with which labels.

use crate::datatype::Sample;
use crate::ieee::{Binary32, Binary64};
use crate::laws::floats;
use crate::metadata::Capture;
use crate::packets;
use crate::packets::{Layout, Packet, PacketView};
use crate::playback;
use crate::playback::{Playback, Tag};
use crate::segments;
use crate::segments::Segment;
use vstd::prelude::*;

verus! {

/// A frequency that is not zero.
pub open spec fn known(f: Binary64) -> bool {
    f.bits != 0 && f.bits != 0x8000_0000_0000_0000
}

/// Two tags show that a new segment begins: both are frequencies, and they
/// differ, as a NaN does from itself.
pub open spec fn shown(from: Binary64, to: Binary64) -> bool {
    &&& known(from)
    &&& known(to)
    &&& from.bits != to.bits || from.bits as nat % 0x8000_0000_0000_0000 > 0x7ff0_0000_0000_0000
}

/// The frequency tag of a capture: its frequency, or zero.
pub open spec fn tag(c: Capture) -> Binary64 {
    match c.frequency {
        Some(f) => f,
        None => Binary64 { bits: 0 },
    }
}

/// A boundary announces itself just where the two tags show it.
pub proof fn lemma_boundary(from: Binary64, to: Binary64)
    ensures
        segments::announced(from, to) == shown(from, to),
        segments::stated(from) == known(from),
{
    floats::lemma_wide_sign_and_magnitude(from, to);
}

/// What a packet holds is its samples and its labels.
pub proof fn lemma_packet_view(ps: Seq<Packet>, i: int)
    requires
        0 <= i < ps.len(),
    ensures
        packets::views(ps).len() == ps.len(),
        packets::views(ps)[i].samples == ps[i].samples@,
        packets::views(ps)[i].center_frequency_hz == ps[i].center_frequency_hz,
        packets::views(ps)[i].sample_rate_hz == ps[i].sample_rate_hz,
        packets::views(ps)[i].overrun == ps[i].overrun,
{
}

/// Segments can be played if they begin at sample 0 and each begins after the
/// one before; and only then.
pub proof fn lemma_playable_segments(s: Seq<Segment>)
    ensures
        segments::well_formed(s) <==> s.len() > 0 && s[0].start == 0 && forall|i: int|
            0 <= i < s.len() - 1 ==> (#[trigger] s[i]).start < s[i + 1].start,
{
    if s.len() > 0 && s[0].start == 0 && (forall|i: int|
        0 <= i < s.len() - 1 ==> (#[trigger] s[i]).start < s[i + 1].start) {
        assert forall|i: int, j: int| 0 <= i < j < s.len() implies (#[trigger] s[i]).start < (
        #[trigger] s[j]).start by {
            lemma_increasing(s, i, j);
        }
    }
}

proof fn lemma_increasing(s: Seq<Segment>, i: int, j: int)
    requires
        0 <= i < j < s.len(),
        forall|i: int| 0 <= i < s.len() - 1 ==> (#[trigger] s[i]).start < s[i + 1].start,
    ensures
        s[i].start < s[j].start,
    decreases j,
{
    assert(s[j - 1].start < s[j - 1 + 1].start);
    if i < j - 1 {
        lemma_increasing(s, i, j - 1);
    }
}

/// The first packet begins at sample 0, and each where the one before it ends.
pub proof fn lemma_places(ps: Seq<PacketView>, i: int)
    requires
        0 <= i < ps.len(),
    ensures
        packets::place(ps, 0) == 0,
        packets::place(ps, i + 1) == packets::place(ps, i) + ps[i].samples.len(),
{
    assert(ps.take(0) =~= seq![]);
    assert(ps.take(i + 1).drop_last() =~= ps.take(i));
}

/// Every packet of a layout, wherever in its segment it begins: it holds the
/// samples from its place on, one at least and at most 1048576, none beyond its
/// segment `k`, and no fewer than there are. It has the centre frequency of that
/// segment and the rate of the layout. It is flagged if and only if it is the
/// first of its segment, after another, and the tags do not show it.
pub proof fn lemma_packet(layout: Layout, samples: Seq<Sample>, i: int) -> (k: int)
    requires
        layout.well_formed(),
        0 <= i < layout.packets(samples).len(),
    ensures
        ({
            let ps = layout.packets(samples);
            let begin = packets::place(ps, i);
            let end = begin + ps[i].samples.len();
            &&& 0 <= k < layout.segments.len()
            &&& layout.segments[k].start <= begin < end <= samples.len()
            &&& k + 1 < layout.segments.len() ==> end <= layout.segments[k + 1].start
            &&& end <= begin + 1048576
            &&& ps[i].samples == samples.subrange(begin, end)
            &&& end == begin + 1048576 || end == samples.len() || (k + 1 < layout.segments.len()
                && end == layout.segments[k + 1].start)
            &&& ps[i].center_frequency_hz == layout.segments[k].center_hz
            &&& ps[i].sample_rate_hz == layout.sample_rate_hz
            &&& ps[i].overrun <==> k > 0 && begin == layout.segments[k].start && !shown(
                layout.segments[k - 1].center_hz,
                layout.segments[k].center_hz,
            )
        }),
{
    let ps = layout.packets(samples);
    let begin = packets::place(ps, i);
    layout.lemma_packet_in_its_place(samples, i);
    layout.lemma_cut(begin);
    packets::lemma_segment_at(layout.segments, begin);
    let k = packets::segment_at(layout.segments, begin);
    if k > 0 {
        lemma_boundary(layout.segments[k - 1].center_hz, layout.segments[k].center_hz);
    }
    let end = packets::min(layout.cut(begin), samples.len() as int);
    assert(ps[i].samples == samples.subrange(begin, end));
    k
}

/// The packets reach to the end of the samples.
pub proof fn lemma_packets_reach_the_end(layout: Layout, samples: Seq<Sample>)
    requires
        layout.well_formed(),
    ensures
        packets::place(layout.packets(samples), layout.packets(samples).len() as int)
            == samples.len(),
{
    let ps = layout.packets(samples);
    layout.lemma_packets_are_contiguous(samples);
    assert(ps.take(ps.len() as int) =~= ps);
}

/// Every sample is in a packet.
pub proof fn lemma_packet_of_sample(layout: Layout, samples: Seq<Sample>, x: int) -> (i: int)
    requires
        layout.well_formed(),
        0 <= x < samples.len(),
    ensures
        ({
            let ps = layout.packets(samples);
            &&& 0 <= i < ps.len()
            &&& packets::place(ps, i) <= x < packets::place(ps, i) + ps[i].samples.len()
        }),
{
    let ps = layout.packets(samples);
    lemma_packets_reach_the_end(layout, samples);
    lemma_find(ps, x, ps.len() as int)
}

proof fn lemma_find(ps: Seq<PacketView>, x: int, n: int) -> (i: int)
    requires
        0 <= x < packets::place(ps, n),
        0 <= n <= ps.len(),
    ensures
        0 <= i < n,
        packets::place(ps, i) <= x < packets::place(ps, i) + ps[i].samples.len(),
    decreases n,
{
    if n == 0 {
        assert(ps.take(0) =~= seq![]);
        0
    } else {
        lemma_places(ps, n - 1);
        if packets::place(ps, n - 1) <= x {
            n - 1
        } else {
            lemma_find(ps, x, n - 1)
        }
    }
}

/// Of a recording every sample is delivered with the tag of the capture that it
/// belongs to: the one with the greatest start at or before the sample, and the
/// last listed of those that share that start.
pub proof fn lemma_sample_has_the_tag_of_its_capture(
    captures: Seq<Capture>,
    sample_rate_hz: Binary32,
    samples: Seq<Sample>,
    x: int,
    c: int,
) -> (i: int)
    requires
        0 <= x < samples.len(),
        0 <= c < captures.len(),
        captures[c].sample_start <= x,
        forall|d: int|
            0 <= d < captures.len() && (#[trigger] captures[d]).sample_start <= x
                ==> captures[d].sample_start < captures[c].sample_start || (
            captures[d].sample_start == captures[c].sample_start && d <= c),
    ensures
        ({
            let layout = Layout { segments: segments::segments_of(captures), sample_rate_hz };
            let ps = layout.packets(samples);
            &&& 0 <= i < ps.len()
            &&& packets::place(ps, i) <= x < packets::place(ps, i) + ps[i].samples.len()
            &&& ps[i].center_frequency_hz == tag(captures[c])
            &&& ps[i].sample_rate_hz == sample_rate_hz
        }),
{
    let layout = Layout { segments: segments::segments_of(captures), sample_rate_hz };
    let s = layout.segments;
    segments::lemma_segments_of(captures);
    let i = lemma_packet_of_sample(layout, samples, x);
    let k = lemma_packet(layout, samples, i);
    // the segment of the capture is that of the packet
    let start = captures[c].sample_start;
    assert(segments::has_start(s, start));
    let j = choose|j: int| 0 <= j < s.len() && (#[trigger] s[j]).start == start;
    if j < k {
        assert(s[j].start < s[k].start);
        assert(segments::tagged_by(captures, s[k]));
        let d = choose|d: int|
            0 <= d < captures.len() && (#[trigger] captures[d]).sample_start == s[k].start;
        assert(captures[d].sample_start <= x);
    } else if k < j {
        if k + 1 < j {
            assert(s[k + 1].start < s[j].start);
        }
    }
    assert(segments::tagged_by(captures, s[k]));
    segments::lemma_tag_at(captures, c);
    i
}

/// A sample before the first capture is delivered with the unknown tag.
pub proof fn lemma_sample_without_a_capture(
    captures: Seq<Capture>,
    sample_rate_hz: Binary32,
    samples: Seq<Sample>,
    x: int,
) -> (i: int)
    requires
        0 <= x < samples.len(),
        forall|d: int| 0 <= d < captures.len() ==> x < (#[trigger] captures[d]).sample_start,
    ensures
        ({
            let layout = Layout { segments: segments::segments_of(captures), sample_rate_hz };
            let ps = layout.packets(samples);
            &&& 0 <= i < ps.len()
            &&& packets::place(ps, i) <= x < packets::place(ps, i) + ps[i].samples.len()
            &&& ps[i].center_frequency_hz.bits == 0
            &&& ps[i].sample_rate_hz == sample_rate_hz
        }),
{
    let layout = Layout { segments: segments::segments_of(captures), sample_rate_hz };
    let s = layout.segments;
    segments::lemma_segments_of(captures);
    let i = lemma_packet_of_sample(layout, samples, x);
    let k = lemma_packet(layout, samples, i);
    assert(segments::tagged_by(captures, s[k]));
    if s[k].start != 0 {
        let d = choose|d: int|
            0 <= d < captures.len() && (#[trigger] captures[d]).sample_start == s[k].start;
        assert(x < captures[d].sample_start);
    }
    segments::lemma_tag_nowhere(captures, 0);
    i
}

/// The segments of a recording begin at sample 0 and at the starts of its
/// captures, and nowhere else, in order and each once.
pub proof fn lemma_segments_begin_with_the_captures(captures: Seq<Capture>)
    ensures
        ({
            let s = segments::segments_of(captures);
            &&& s.len() > 0 && s[0].start == 0
            &&& forall|i: int, j: int|
                0 <= i < j < s.len() ==> (#[trigger] s[i]).start < (#[trigger] s[j]).start
            &&& forall|k: int|
                0 < k < s.len() ==> exists|c: int|
                    0 <= c < captures.len() && (#[trigger] captures[c]).sample_start == (
                    #[trigger] s[k]).start
            &&& forall|c: int|
                0 <= c < captures.len() ==> exists|k: int|
                    0 <= k < s.len() && (#[trigger] s[k]).start == (
                    #[trigger] captures[c]).sample_start
        }),
{
    let s = segments::segments_of(captures);
    segments::lemma_segments_of(captures);
    assert forall|k: int| 0 < k < s.len() implies exists|c: int|
        0 <= c < captures.len() && (#[trigger] captures[c]).sample_start == (
        #[trigger] s[k]).start by {
        assert(segments::tagged_by(captures, s[k]));
        assert(s[0].start < s[k].start);
    }
    assert forall|c: int| 0 <= c < captures.len() implies exists|k: int|
        0 <= k < s.len() && (#[trigger] s[k]).start == (#[trigger] captures[c]).sample_start by {
        assert(segments::has_start(s, captures[c].sample_start));
    }
}

/// The tag of a segment is that of the capture which starts there, the last
/// listed of them.
pub proof fn lemma_segment_has_the_tag_of_its_capture(captures: Seq<Capture>, k: int, c: int)
    requires
        0 <= k < segments::segments_of(captures).len(),
        0 <= c < captures.len(),
        captures[c].sample_start == segments::segments_of(captures)[k].start,
        forall|d: int|
            c < d < captures.len() ==> (#[trigger] captures[d]).sample_start
                != captures[c].sample_start,
    ensures
        segments::segments_of(captures)[k].center_hz == tag(captures[c]),
{
    segments::lemma_segments_of(captures);
    assert(segments::tagged_by(captures, segments::segments_of(captures)[k]));
    segments::lemma_tag_at(captures, c);
}

/// With one segment more, one more is unstated just where that states no
/// frequency.
pub proof fn lemma_unstated(s: Seq<Segment>, last: Segment)
    ensures
        segments::unstated(Seq::<Segment>::empty()) == 0,
        segments::unstated(s.push(last)) == segments::unstated(s) + if known(last.center_hz) {
            0int
        } else {
            1
        },
{
    assert(s.push(last).drop_last() =~= s);
    lemma_boundary(last.center_hz, last.center_hz);
}

/// All packets but a last one that is not full are complete, and no other.
pub proof fn lemma_complete(layout: Layout, samples: Seq<Sample>)
    ensures
        ({
            let all = layout.packets(samples);
            let done = layout.complete(samples);
            &&& done.is_prefix_of(all)
            &&& done.len() + 1 >= all.len()
            &&& done.len() == all.len() <==> all.len() == 0 || all.last().samples.len() >= 1048576
        }),
{
    assert(layout.complete(samples).is_prefix_of(layout.packets(samples)));
}

/// What a playback has sent are the complete packets of the samples in the bytes
/// that it has taken.
pub proof fn lemma_sent(p: Playback)
    ensures
        p.samples() == p.format().decoded(p.taken()),
        p.sent() == p.layout().complete(p.format().decoded(p.taken())),
{
}

/// The lesser of two numbers is one of them, and above neither.
pub proof fn lemma_min(a: int, b: int)
    ensures
        packets::min(a, b) <= a,
        packets::min(a, b) <= b,
        packets::min(a, b) == a || packets::min(a, b) == b,
{
}

/// A rate can label packets if and only if it is positive and finite, and so is
/// what it narrows to.
pub proof fn lemma_usable_rate(rate: Binary64)
    ensures
        playback::usable_rate(rate) <==> rate.bits < 0x7ff0_0000_0000_0000 && 0
            < rate.narrowed().bits < 0x7f80_0000,
{
    floats::lemma_wide_sign_and_magnitude(rate, rate);
    if rate.bits < 0x7ff0_0000_0000_0000 {
        floats::lemma_narrowing(rate, 0);
    }
}

/// A packet has the labels of its tag, and a tag that was used keeps all but its
/// flag.
pub proof fn lemma_tag(t: Tag, samples: Seq<Sample>)
    ensures
        t.packet(samples).samples == samples,
        t.packet(samples).center_frequency_hz == t.center_hz,
        t.packet(samples).sample_rate_hz == t.sample_rate_hz,
        t.packet(samples).overrun == t.overrun,
        t.used().center_hz == t.center_hz,
        t.used().sample_rate_hz == t.sample_rate_hz,
        !t.used().overrun,
{
}

/// Samples leave in full packets of 1048576, in order, with the labels of the
/// tag, the first of them alone with its flag; fewer than that are left over.
pub proof fn lemma_full_packets(samples: Seq<Sample>, t: Tag, j: int)
    requires
        0 <= j < samples.len() as int / 1048576,
    ensures
        playback::full_packets(samples, t).len() == samples.len() as int / 1048576,
        ({
            let p = playback::full_packets(samples, t)[j];
            &&& p.samples == samples.subrange(1048576 * j, 1048576 * j + 1048576)
            &&& p.center_frequency_hz == t.center_hz
            &&& p.sample_rate_hz == t.sample_rate_hz
            &&& p.overrun == (j == 0 && t.overrun)
        }),
    decreases samples.len(),
{
    let n: int = 1048576;
    let rest = samples.skip(n);
    assert(samples.take(n) =~= samples.subrange(0, n));
    lemma_full_packet_count(samples, t);
    if j > 0 {
        lemma_full_packets(rest, t.used(), j - 1);
        assert(rest.subrange(n * (j - 1), n * (j - 1) + n) =~= samples.subrange(n * j, n * j + n));
    }
}

proof fn lemma_full_packet_count(samples: Seq<Sample>, t: Tag)
    ensures
        playback::full_packets(samples, t).len() == samples.len() as int / 1048576,
    decreases samples.len(),
{
    if samples.len() >= 1048576 {
        lemma_full_packet_count(samples.skip(1048576), t.used());
    }
}

/// What is left over are the samples behind the last full packet.
pub proof fn lemma_left_over(samples: Seq<Sample>, t: Tag)
    ensures
        playback::full_packets(samples, t).len() == samples.len() as int / 1048576,
        playback::left_over(samples) == samples.skip(samples.len() as int / 1048576 * 1048576),
    decreases samples.len(),
{
    lemma_full_packet_count(samples, t);
    let n: int = samples.len() as int / 1048576;
    if samples.len() >= 1048576 {
        let rest = samples.skip(1048576);
        lemma_left_over(rest, t);
        assert(rest.skip((n - 1) * 1048576) =~= samples.skip(n * 1048576));
    } else {
        assert(samples.skip(0) =~= samples);
    }
}

} // verus!
