//! How a stream of samples is laid out in packets.

use crate::datatype::Sample;
use crate::ieee::{Binary32, Binary64};
use crate::segments;
use crate::segments::Segment;
use vstd::prelude::*;

verus! {

/// The most samples that a packet holds.
pub const PACKET_SAMPLES: usize = 1_048_576;

/// Samples that leave together, labelled.
#[derive(Debug)]
pub struct Packet {
    pub samples: Vec<Sample>,
    pub center_frequency_hz: Binary64,
    pub sample_rate_hz: Binary32,
    /// The stream broke before this packet in a way that its labels do not show.
    pub overrun: bool,
}

/// What a packet holds.
pub struct PacketView {
    pub samples: Seq<Sample>,
    pub center_frequency_hz: Binary64,
    pub sample_rate_hz: Binary32,
    pub overrun: bool,
}

impl View for Packet {
    type V = PacketView;

    open spec fn view(&self) -> PacketView {
        PacketView {
            samples: self.samples@,
            center_frequency_hz: self.center_frequency_hz,
            sample_rate_hz: self.sample_rate_hz,
            overrun: self.overrun,
        }
    }
}

/// What each of some packets holds.
pub open spec fn views(packets: Seq<Packet>) -> Seq<PacketView> {
    packets.map_values(|p: Packet| p@)
}

/// What all packets of a recording share.
pub struct Layout {
    pub segments: Seq<Segment>,
    pub sample_rate_hz: Binary32,
}

/// The last of the segments that begin at or before sample `pos`.
pub open spec fn segment_at(segments: Seq<Segment>, pos: int) -> int
    decreases segments.len(),
{
    if segments.len() <= 1 || segments.last().start <= pos {
        segments.len() - 1
    } else {
        segment_at(segments.drop_last(), pos)
    }
}

/// The lesser of two numbers.
pub open spec fn min(a: int, b: int) -> int {
    if a < b {
        a
    } else {
        b
    }
}

impl Layout {
    pub open spec fn well_formed(self) -> bool {
        segments::well_formed(self.segments)
    }

    /// Where a packet that begins at sample `pos` is cut at the latest: when
    /// it is full, or where the next segment begins.
    pub open spec fn cut(self, pos: int) -> int {
        let k = segment_at(self.segments, pos);
        if k + 1 < self.segments.len() {
            min(pos + PACKET_SAMPLES, self.segments[k + 1].start as int)
        } else {
            pos + PACKET_SAMPLES
        }
    }

    /// A boundary begins at sample `pos` that the labels do not show.
    pub open spec fn breaks_at(self, pos: int) -> bool {
        let k = segment_at(self.segments, pos);
        &&& k > 0
        &&& self.segments[k].start == pos
        &&& !segments::announced(self.segments[k - 1].center_hz, self.segments[k].center_hz)
    }

    /// The packet that begins at sample `pos`.
    pub open spec fn packet_at(self, samples: Seq<Sample>, pos: int) -> PacketView {
        PacketView {
            samples: samples.subrange(pos, min(self.cut(pos), samples.len() as int)),
            center_frequency_hz: self.segments[segment_at(self.segments, pos)].center_hz,
            sample_rate_hz: self.sample_rate_hz,
            overrun: self.breaks_at(pos),
        }
    }

    /// The packets of the samples from `pos` on, each beginning where the one
    /// before it ends.
    pub open spec fn packets_from(self, samples: Seq<Sample>, pos: int) -> Seq<PacketView>
        decreases samples.len() - pos,
        when self.well_formed() && 0 <= pos
    {
        if pos >= samples.len() {
            seq![]
        } else {
            proof {
                self.lemma_cut(pos);
            }
            seq![self.packet_at(samples, pos)] + self.packets_from(
                samples,
                min(self.cut(pos), samples.len() as int),
            )
        }
    }

    /// The packets of a recording with these samples.
    pub open spec fn packets(self, samples: Seq<Sample>) -> Seq<PacketView> {
        self.packets_from(samples, 0)
    }

    /// The packets that are known to be complete when no more than these
    /// samples have been seen: all but a last one that could still grow.
    pub open spec fn complete(self, samples: Seq<Sample>) -> Seq<PacketView> {
        let all = self.packets(samples);
        if all.len() > 0 && all.last().samples.len() < PACKET_SAMPLES {
            all.drop_last()
        } else {
            all
        }
    }

    pub proof fn lemma_cut(self, pos: int)
        requires
            self.well_formed(),
            0 <= pos,
        ensures
            pos < self.cut(pos) <= pos + PACKET_SAMPLES,
    {
        lemma_segment_at(self.segments, pos);
    }
}

/// The segment at a sample has begun there, and the next one has not.
pub proof fn lemma_segment_at(segments: Seq<Segment>, pos: int)
    requires
        segments::well_formed(segments),
        0 <= pos,
    ensures
        ({
            let k = segment_at(segments, pos);
            &&& 0 <= k < segments.len()
            &&& segments[k].start <= pos
            &&& k + 1 < segments.len() ==> pos < segments[k + 1].start
        }),
    decreases segments.len(),
{
    if segments.len() > 1 && segments.last().start > pos {
        lemma_segment_at(segments.drop_last(), pos);
    }
}

/// No other segment has begun, with the next one yet to begin.
pub proof fn lemma_segment_at_is(segments: Seq<Segment>, pos: int, k: int)
    requires
        segments::well_formed(segments),
        0 <= k < segments.len(),
        segments[k].start <= pos,
        k + 1 < segments.len() ==> pos < segments[k + 1].start,
    ensures
        segment_at(segments, pos) == k,
{
    lemma_segment_at(segments, pos);
    let other = segment_at(segments, pos);
    if other < k {
        if other + 1 < k {
            assert(segments[other + 1].start < segments[k].start);
        }
    } else if k < other {
        if k + 1 < other {
            assert(segments[k + 1].start < segments[other].start);
        }
    }
}

impl Layout {
    /// With these samples seen, the packets `done` are complete and the next
    /// one begins at `pos`, whatever samples follow.
    pub open spec fn cut_up_to(
        self,
        samples: Seq<Sample>,
        pos: int,
        done: Seq<PacketView>,
    ) -> bool {
        forall|more: Seq<Sample>| #[trigger]
            self.packets(samples + more) == done + self.packets_from(samples + more, pos)
    }

    pub proof fn lemma_nothing_cut(self)
        requires
            self.well_formed(),
        ensures
            self.cut_up_to(seq![], 0, seq![]),
    {
        let none: Seq<PacketView> = seq![];
        let empty: Seq<Sample> = seq![];
        assert forall|more: Seq<Sample>| #[trigger]
            self.packets(empty + more) == none + self.packets_from(empty + more, 0) by {
            assert(none + self.packets_from(empty + more, 0) =~= self.packets_from(empty + more, 0));
        }
    }

    pub proof fn lemma_more_samples(
        self,
        samples: Seq<Sample>,
        next: Seq<Sample>,
        pos: int,
        done: Seq<PacketView>,
    )
        requires
            self.cut_up_to(samples, pos, done),
        ensures
            self.cut_up_to(samples + next, pos, done),
    {
        assert forall|more: Seq<Sample>| #[trigger]
            self.packets((samples + next) + more) == done + self.packets_from(
                (samples + next) + more,
                pos,
            ) by {
            assert((samples + next) + more =~= samples + (next + more));
            assert(self.packets(samples + (next + more)) == done + self.packets_from(
                samples + (next + more),
                pos,
            ));
        }
    }

    /// A packet that reaches its cut is complete.
    pub proof fn lemma_packet_complete(
        self,
        samples: Seq<Sample>,
        pos: int,
        done: Seq<PacketView>,
    )
        requires
            self.well_formed(),
            0 <= pos,
            self.cut(pos) <= samples.len(),
            self.cut_up_to(samples, pos, done),
        ensures
            self.cut_up_to(samples, self.cut(pos), done.push(self.packet_at(samples, pos))),
    {
        self.lemma_cut(pos);
        let end = self.cut(pos);
        let p = self.packet_at(samples, pos);
        assert forall|more: Seq<Sample>| #[trigger]
            self.packets(samples + more) == done.push(p) + self.packets_from(
                samples + more,
                end,
            ) by {
            let all = samples + more;
            assert(all.subrange(pos, end) =~= samples.subrange(pos, end));
            assert(self.packet_at(all, pos) == p);
            assert(self.packets_from(all, pos) == seq![p] + self.packets_from(all, end));
            assert(done + (seq![p] + self.packets_from(all, end)) =~= done.push(p)
                + self.packets_from(all, end));
        }
    }

    /// What is complete and what is still open, when all of it is known.
    pub proof fn lemma_state(self, samples: Seq<Sample>, pos: int, done: Seq<PacketView>)
        requires
            self.well_formed(),
            0 <= pos <= samples.len(),
            samples.len() <= self.cut(pos),
            samples.len() - pos < PACKET_SAMPLES,
            self.cut_up_to(samples, pos, done),
            pos == samples.len() ==> done.len() == 0 || done.last().samples.len()
                == PACKET_SAMPLES,
        ensures
            self.complete(samples) == done,
            self.packets(samples) == if pos < samples.len() {
                done.push(self.packet_at(samples, pos))
            } else {
                done
            },
    {
        let none: Seq<Sample> = seq![];
        assert(samples + none =~= samples);
        assert(self.packets(samples + none) == done + self.packets_from(samples + none, pos));
        if pos < samples.len() {
            let p = self.packet_at(samples, pos);
            assert(self.packets_from(samples, samples.len() as int) =~= seq![]);
            assert(self.packets_from(samples, pos) =~= seq![p]);
            assert(done + seq![p] =~= done.push(p));
            assert(done.push(p).drop_last() =~= done);
        } else {
            assert(done + self.packets_from(samples, pos) =~= done);
        }
    }
}

/// The samples of some packets, one after another.
pub open spec fn joined(packets: Seq<PacketView>) -> Seq<Sample>
    decreases packets.len(),
{
    if packets.len() == 0 {
        seq![]
    } else {
        joined(packets.drop_last()) + packets.last().samples
    }
}

/// The place in the stream where packet `i` begins: after all before it.
pub open spec fn place(packets: Seq<PacketView>, i: int) -> int {
    joined(packets.take(i)).len() as int
}

proof fn lemma_joined_first(p: PacketView, rest: Seq<PacketView>)
    ensures
        joined(seq![p] + rest) == p.samples + joined(rest),
    decreases rest.len(),
{
    let all = seq![p] + rest;
    if rest.len() == 0 {
        let none: Seq<PacketView> = seq![];
        assert(all.drop_last() =~= none);
        assert(joined(none) =~= seq![]);
        assert(joined(all) =~= p.samples + joined(rest));
    } else {
        assert(all.drop_last() =~= seq![p] + rest.drop_last());
        lemma_joined_first(p, rest.drop_last());
        assert(joined(all) =~= p.samples + joined(rest));
    }
}

impl Layout {
    /// No sample is lost, doubled or moved: the packets of a recording, one
    /// after another, are its samples.
    pub proof fn lemma_packets_are_contiguous(self, samples: Seq<Sample>)
        requires
            self.well_formed(),
        ensures
            joined(self.packets(samples)) == samples,
    {
        self.lemma_joined_from(samples, 0);
        assert(samples.skip(0) =~= samples);
    }

    proof fn lemma_joined_from(self, samples: Seq<Sample>, pos: int)
        requires
            self.well_formed(),
            0 <= pos <= samples.len(),
        ensures
            joined(self.packets_from(samples, pos)) == samples.skip(pos),
        decreases samples.len() - pos,
    {
        if pos < samples.len() {
            self.lemma_cut(pos);
            let end = min(self.cut(pos), samples.len() as int);
            let rest = self.packets_from(samples, end);
            self.lemma_joined_from(samples, end);
            lemma_joined_first(self.packet_at(samples, pos), rest);
            assert(samples.subrange(pos, end) + samples.skip(end) =~= samples.skip(pos));
        } else {
            assert(self.packets_from(samples, pos) =~= seq![]);
            assert(samples.skip(pos) =~= seq![]);
        }
    }

    /// Each packet is the one that begins at its place in the stream.
    pub proof fn lemma_packet_in_its_place(self, samples: Seq<Sample>, i: int)
        requires
            self.well_formed(),
            0 <= i < self.packets(samples).len(),
        ensures
            0 <= place(self.packets(samples), i) < samples.len(),
            self.packets(samples)[i] == self.packet_at(
                samples,
                place(self.packets(samples), i),
            ),
    {
        self.lemma_place_from(samples, 0, i);
    }

    proof fn lemma_place_from(self, samples: Seq<Sample>, pos: int, i: int)
        requires
            self.well_formed(),
            0 <= pos,
            0 <= i < self.packets_from(samples, pos).len(),
        ensures
            pos + place(self.packets_from(samples, pos), i) < samples.len(),
            self.packets_from(samples, pos)[i] == self.packet_at(
                samples,
                pos + place(self.packets_from(samples, pos), i),
            ),
        decreases i,
    {
        let all = self.packets_from(samples, pos);
        if i == 0 {
            assert(all.take(0) =~= seq![]);
        } else {
            self.lemma_cut(pos);
            let end = min(self.cut(pos), samples.len() as int);
            let rest = self.packets_from(samples, end);
            let p = self.packet_at(samples, pos);
            self.lemma_place_from(samples, end, i - 1);
            assert(all.take(i) =~= seq![p] + rest.take(i - 1));
            lemma_joined_first(p, rest.take(i - 1));
        }
    }

    /// A packet holds at least one sample and at most [`PACKET_SAMPLES`], all of
    /// one segment; one that is not full ends at the end of the stream or where
    /// the next segment begins.
    pub proof fn lemma_packet_stays_in_its_segment(self, samples: Seq<Sample>, pos: int)
        requires
            self.well_formed(),
            0 <= pos < samples.len(),
        ensures
            ({
                let end = pos + self.packet_at(samples, pos).samples.len();
                let k = segment_at(self.segments, pos);
                &&& pos < end <= pos + PACKET_SAMPLES
                &&& forall|x: int|
                    pos <= x < end ==> #[trigger] segment_at(self.segments, x) == k
                &&& end < pos + PACKET_SAMPLES ==> end == samples.len() || (k + 1
                    < self.segments.len() && end == self.segments[k + 1].start)
            }),
    {
        self.lemma_cut(pos);
        lemma_segment_at(self.segments, pos);
        let end = pos + self.packet_at(samples, pos).samples.len();
        let k = segment_at(self.segments, pos);
        assert forall|x: int| pos <= x < end implies #[trigger] segment_at(self.segments, x)
            == k by {
            lemma_segment_at_is(self.segments, x, k);
        }
    }

    /// Packets are cut at every segment start, also where one falls on the edge
    /// of a full packet: each segment that has samples begins a packet.
    pub proof fn lemma_segment_begins_a_packet(self, samples: Seq<Sample>, k: int) -> (i: int)
        requires
            self.well_formed(),
            0 <= k < self.segments.len(),
            self.segments[k].start < samples.len(),
        ensures
            0 <= i < self.packets(samples).len(),
            place(self.packets(samples), i) == self.segments[k].start,
            self.packets(samples)[i].center_frequency_hz == self.segments[k].center_hz,
            self.packets(samples)[i].overrun == (k > 0 && !segments::announced(
                self.segments[k - 1].center_hz,
                self.segments[k].center_hz,
            )),
    {
        let i = self.lemma_begins_from(samples, 0, k);
        self.lemma_packet_in_its_place(samples, i);
        let start = self.segments[k].start as int;
        if k + 1 < self.segments.len() {
            assert(self.segments[k].start < self.segments[k + 1].start);
        }
        lemma_segment_at_is(self.segments, start, k);
        i
    }

    proof fn lemma_begins_from(self, samples: Seq<Sample>, pos: int, k: int) -> (i: int)
        requires
            self.well_formed(),
            0 <= k < self.segments.len(),
            0 <= pos <= self.segments[k].start,
            self.segments[k].start < samples.len(),
        ensures
            0 <= i < self.packets_from(samples, pos).len(),
            pos + place(self.packets_from(samples, pos), i) == self.segments[k].start,
        decreases samples.len() - pos,
    {
        let all = self.packets_from(samples, pos);
        let start = self.segments[k].start as int;
        if pos == start {
            assert(all.take(0) =~= seq![]);
            0
        } else {
            self.lemma_cut(pos);
            lemma_segment_at(self.segments, pos);
            let j = segment_at(self.segments, pos);
            assert(j < k) by {
                if k < j {
                    assert(self.segments[k].start < self.segments[j].start);
                }
            }
            if j + 1 < k {
                assert(self.segments[j + 1].start < self.segments[k].start);
            }
            let end = min(self.cut(pos), samples.len() as int);
            let rest = self.packets_from(samples, end);
            let p = self.packet_at(samples, pos);
            let i = self.lemma_begins_from(samples, end, k);
            assert(all.take(i + 1) =~= seq![p] + rest.take(i));
            lemma_joined_first(p, rest.take(i));
            i + 1
        }
    }

    /// Only the first packet of a segment is flagged, and only where the labels
    /// do not show that a segment begins.
    pub proof fn lemma_flagged_at_a_break(self, samples: Seq<Sample>, i: int)
        requires
            self.well_formed(),
            0 <= i < self.packets(samples).len(),
            self.packets(samples)[i].overrun,
        ensures
            exists|k: int|
                0 < k < self.segments.len() && (#[trigger] self.segments[k]).start == place(
                    self.packets(samples),
                    i,
                ) && !segments::announced(
                    self.segments[k - 1].center_hz,
                    self.segments[k].center_hz,
                ),
    {
        self.lemma_packet_in_its_place(samples, i);
        let pos = place(self.packets(samples), i);
        lemma_segment_at(self.segments, pos);
        let k = segment_at(self.segments, pos);
        assert(self.segments[k].start == pos);
    }

    /// A packet that has left stays as it is, whatever samples follow: what is
    /// complete after some samples is the beginning of what is complete after
    /// more of them, and of the whole.
    pub proof fn lemma_complete_grows(self, samples: Seq<Sample>, more: Seq<Sample>)
        requires
            self.well_formed(),
        ensures
            self.complete(samples).is_prefix_of(self.complete(samples + more)),
            self.complete(samples).is_prefix_of(self.packets(samples + more)),
    {
        self.lemma_complete_from(samples, more, 0);
        let some = self.complete(samples);
        let all = self.packets(samples + more);
        if self.complete(samples + more) != all && some.len() == all.len() {
            assert(all.last() == some.last());
            self.lemma_complete_last(samples, more, 0);
        }
        assert(some.is_prefix_of(self.complete(samples + more)));
    }

    spec fn complete_from(self, samples: Seq<Sample>, pos: int) -> Seq<PacketView> {
        let all = self.packets_from(samples, pos);
        if all.len() > 0 && all.last().samples.len() < PACKET_SAMPLES {
            all.drop_last()
        } else {
            all
        }
    }

    proof fn lemma_complete_from(self, samples: Seq<Sample>, more: Seq<Sample>, pos: int)
        requires
            self.well_formed(),
            0 <= pos,
        ensures
            self.complete_from(samples, pos).is_prefix_of(self.packets_from(samples + more, pos)),
        decreases samples.len() - pos,
    {
        let whole = samples + more;
        if pos < samples.len() {
            self.lemma_cut(pos);
            let end = min(self.cut(pos), samples.len() as int);
            let p = self.packet_at(samples, pos);
            let rest = self.packets_from(samples, end);
            let all = self.packets_from(samples, pos);
            self.lemma_complete_from(samples, more, end);
            if rest.len() > 0 {
                assert(all.last() == rest.last());
                assert(self.cut(pos) <= samples.len());
                assert(whole.subrange(pos, end) =~= samples.subrange(pos, end));
                assert(self.packet_at(whole, pos) == p);
                assert(self.complete_from(samples, pos) =~= seq![p] + self.complete_from(
                    samples,
                    end,
                ));
                assert(self.packets_from(whole, pos) == seq![p] + self.packets_from(whole, end));
            } else {
                assert(all =~= seq![p]);
                if p.samples.len() == PACKET_SAMPLES {
                    assert(self.cut(pos) <= samples.len());
                    assert(whole.subrange(pos, end) =~= samples.subrange(pos, end));
                    assert(self.packet_at(whole, pos) == p);
                    assert(self.packets_from(whole, pos)[0] == p);
                }
            }
        }
    }

    /// If what is complete reaches to the end of the whole, the whole is
    /// complete.
    proof fn lemma_complete_last(self, samples: Seq<Sample>, more: Seq<Sample>, pos: int)
        requires
            self.well_formed(),
            0 <= pos,
            self.complete_from(samples, pos).len() == self.packets_from(samples + more, pos).len(),
        ensures
            self.complete_from(samples + more, pos) == self.packets_from(samples + more, pos),
        decreases samples.len() - pos,
    {
        let whole = samples + more;
        let all = self.packets_from(whole, pos);
        if pos < samples.len() {
            self.lemma_cut(pos);
            let end = min(self.cut(pos), samples.len() as int);
            let p = self.packet_at(samples, pos);
            let rest = self.packets_from(samples, end);
            let some = self.packets_from(samples, pos);
            let whole_end = min(self.cut(pos), whole.len() as int);
            if rest.len() > 0 {
                assert(some.last() == rest.last());
                assert(self.complete_from(samples, pos) =~= seq![p] + self.complete_from(
                    samples,
                    end,
                ));
                assert(all == seq![self.packet_at(whole, pos)] + self.packets_from(whole, end));
                self.lemma_complete_last(samples, more, end);
                let tail = self.packets_from(whole, end);
                if tail.len() > 0 {
                    assert(all.last() == tail.last());
                } else {
                    assert(self.complete_from(samples, end).len() == 0);
                    assert(rest.len() == 1);
                    assert(end < samples.len());
                    assert(tail.len() > 0);
                }
            } else {
                assert(some =~= seq![p]);
                assert(all == seq![self.packet_at(whole, pos)] + self.packets_from(
                    whole,
                    whole_end,
                ));
                assert(whole.subrange(pos, end) =~= samples.subrange(pos, end));
            }
        } else {
            assert(self.packets_from(samples, pos) =~= seq![]);
        }
    }
}

} // verus!
