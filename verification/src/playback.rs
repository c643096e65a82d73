//! Playing a data file: its bytes become packets of samples.

use crate::datatype::{DataType, Sample};
use crate::ieee;
use crate::ieee::{Binary32, Binary64, INFINITE32};
use crate::packets;
use crate::packets::{Layout, Packet, PacketView, PACKET_SAMPLES};
use crate::segments;
use crate::segments::{boundary_announces_itself, Segment};
use vstd::arithmetic::div_mod::*;
use vstd::prelude::*;
use vstd::slice::slice_subrange;

verus! {

/// The most bytes that are read from a data file at once.
pub const IO_BUFFER_BYTES: usize = 1_048_576;

/// How many packets may wait for a consumer: at most 64 MiB of full packets,
/// and as much in recycled buffers.
pub const PACKET_QUEUE_CAPACITY: usize = 8;

/// A sample rate that packets can be labelled with: its nearest `binary32` is
/// positive and finite.
pub open spec fn usable_rate(rate: Binary64) -> bool {
    &&& rate.finite()
    &&& !rate.negative()
    &&& 0 < rate.narrowed().magnitude() < INFINITE32
}

/// The rate to label packets with, or why there is none.
pub fn packet_sample_rate(rate: Binary64) -> (r: Result<Binary32, &'static str>)
    ensures
        match r {
            Ok(packet_rate) => usable_rate(rate) && packet_rate == rate.narrowed(),
            Err(e) => !usable_rate(rate) && e@
                == "sample_rate_hz must be finite, positive, and representable as a positive finite f32"@,
        },
{
    if rate.is_finite() {
        let packet_rate = rate.narrow();
        if 0 < packet_rate.bits && packet_rate.bits < INFINITE32 && rate.bits < 0x8000_0000_0000_0000 {
            return Ok(packet_rate);
        }
    }
    Err("sample_rate_hz must be finite, positive, and representable as a positive finite f32")
}

/// Every rate that is a positive finite `binary32` is usable, and labels the
/// packets as it is.
pub proof fn lemma_representable_rate_is_kept(rate: Binary64, value: Binary32)
    requires
        rate.finite(),
        !rate.negative(),
        !value.negative(),
        0 < value.magnitude() < INFINITE32,
        rate.significand() * ieee::up(rate.exponent()) == ieee::ticks(value.magnitude()) * ieee::up(
            -rate.exponent(),
        ),
    ensures
        usable_rate(rate),
        rate.narrowed() == value,
{
    ieee::lemma_narrowing_keeps_what_fits(rate, value);
}

/// What the next packet is labelled with.
#[derive(Clone, Copy, Debug, PartialEq, Eq, Structural)]
pub struct Tag {
    pub center_hz: Binary64,
    pub sample_rate_hz: Binary32,
    /// Carried on the next packet only, then cleared.
    pub overrun: bool,
}

impl Tag {
    /// A packet of these samples with this label.
    pub open spec fn packet(self, samples: Seq<Sample>) -> PacketView {
        PacketView {
            samples,
            center_frequency_hz: self.center_hz,
            sample_rate_hz: self.sample_rate_hz,
            overrun: self.overrun,
        }
    }

    /// The label after a packet has left with it.
    pub open spec fn used(self) -> Tag {
        Tag { overrun: false, ..self }
    }
}

/// How many samples to reserve room for when a packet is begun: as many as it
/// can still get, as far as is known, so that a tiny recording does not reserve
/// a full packet that it will never fill.
pub fn reservation(expected: u64) -> (n: usize)
    ensures
        n == packets::min(expected as int, PACKET_SAMPLES as int),
{
    if expected < PACKET_SAMPLES as u64 {
        expected as usize
    } else {
        PACKET_SAMPLES
    }
}

/// Accumulates decoded samples into packets of [`PACKET_SAMPLES`].
///
/// Samples are appended once, and the accumulator itself becomes the packet.
#[derive(Debug)]
pub struct Packetizer {
    acc: Vec<Sample>,
}

/// The full packets of `samples`: the first is labelled with `tag`, those after
/// it with the tag as it is then.
pub open spec fn full_packets(samples: Seq<Sample>, tag: Tag) -> Seq<PacketView>
    decreases samples.len(),
{
    if samples.len() < PACKET_SAMPLES {
        seq![]
    } else {
        seq![tag.packet(samples.take(PACKET_SAMPLES as int))] + full_packets(
            samples.skip(PACKET_SAMPLES as int),
            tag.used(),
        )
    }
}

/// What is left of `samples` when the full packets are gone.
pub open spec fn left_over(samples: Seq<Sample>) -> Seq<Sample>
    decreases samples.len(),
{
    if samples.len() < PACKET_SAMPLES {
        samples
    } else {
        left_over(samples.skip(PACKET_SAMPLES as int))
    }
}

impl Packetizer {
    /// The samples that have not left yet.
    pub closed spec fn held(self) -> Seq<Sample> {
        self.acc@
    }

    /// A packetizer with no samples.
    pub fn new() -> (p: Packetizer)
        ensures
            p.held() == Seq::<Sample>::empty(),
    {
        Packetizer { acc: Vec::new() }
    }

    /// Append `samples`, emitting every packet that fills. `expected` is how
    /// many samples the current segment still holds, counting these, as far as
    /// the file length says; it only sizes the reservation.
    #[verifier::spinoff_prover]
    #[verifier::rlimit(50)]
    pub fn push(&mut self, samples: &[Sample], expected: u64, tag: &mut Tag, out: &mut Vec<Packet>)
        requires
            old(self).held().len() < PACKET_SAMPLES,
        ensures
            final(self).held() == left_over(old(self).held() + samples@),
            final(self).held().len() < PACKET_SAMPLES,
            packets::views(final(out)@) == packets::views(old(out)@) + full_packets(
                old(self).held() + samples@,
                *old(tag),
            ),
            *final(tag) == if old(self).held().len() + samples@.len() < PACKET_SAMPLES {
                *old(tag)
            } else {
                old(tag).used()
            },
    {
        let ghost all = self.acc@ + samples@;
        let ghost before = packets::views(out@);
        let ghost first = *tag;
        let total: usize = samples.len();
        let mut expected: u64 = if expected < total as u64 {
            total as u64
        } else {
            expected
        };
        let mut at: usize = 0;
        proof {
            assert(samples@.skip(0) =~= samples@);
        }
        while at < total
            invariant
                total == samples@.len(),
                at <= total,
                self.acc@.len() < PACKET_SAMPLES,
                left_over(self.acc@ + samples@.skip(at as int)) == left_over(all),
                packets::views(out@) + full_packets(self.acc@ + samples@.skip(at as int), *tag)
                    == before + full_packets(all, first),
                *tag == first && self.acc@.len() + total - at == all.len() || (*tag == first.used()
                    && all.len() >= PACKET_SAMPLES),
            decreases total - at,
        {
            if self.acc.len() == 0 {
                self.acc = Vec::with_capacity(reservation(expected));
            }
            let room: usize = PACKET_SAMPLES - self.acc.len();
            let take: usize = if room < total - at {
                room
            } else {
                total - at
            };
            let ghost rest = self.acc@ + samples@.skip(at as int);
            let ghost was = self.acc@;
            let part = slice_subrange(samples, at, at + take);
            self.acc.extend_from_slice(part);
            proof {
                assert(self.acc@ =~= was + part@);
                assert(self.acc@ + samples@.skip(at + take) =~= rest);
            }
            at = at + take;
            expected = if expected > take as u64 {
                expected - take as u64
            } else {
                0
            };
            if self.acc.len() == PACKET_SAMPLES {
                proof {
                    assert(rest.take(PACKET_SAMPLES as int) =~= self.acc@);
                    assert(rest.skip(PACKET_SAMPLES as int) =~= Seq::<Sample>::empty()
                        + samples@.skip(at as int));
                }
                let ghost sofar = packets::views(out@);
                let ghost label = *tag;
                let ghost full = self.acc@;
                self.emit(tag, out);
                proof {
                    assert(packets::views(out@) + full_packets(
                        self.acc@ + samples@.skip(at as int),
                        *tag,
                    ) =~= sofar + full_packets(rest, label));
                }
            }
        }
        proof {
            assert(self.acc@ + samples@.skip(at as int) =~= self.acc@);
            assert(packets::views(out@) + full_packets(self.acc@, *tag) =~= packets::views(out@));
        }
    }

    /// Emit whatever has accumulated, however short. Used at file ends and
    /// capture boundaries.
    pub fn flush(&mut self, tag: &mut Tag, out: &mut Vec<Packet>)
        ensures
            final(self).held() == Seq::<Sample>::empty(),
            old(self).held().len() == 0 ==> final(out)@ == old(out)@ && *final(tag) == *old(tag),
            old(self).held().len() > 0 ==> packets::views(final(out)@) == packets::views(
                old(out)@,
            ).push(old(tag).packet(old(self).held())) && *final(tag) == old(tag).used(),
    {
        if self.acc.len() > 0 {
            self.emit(tag, out);
        } else {
            assert(self.acc@ =~= Seq::<Sample>::empty());
        }
    }

    fn emit(&mut self, tag: &mut Tag, out: &mut Vec<Packet>)
        ensures
            final(self).held() == Seq::<Sample>::empty(),
            packets::views(final(out)@) == packets::views(old(out)@).push(
                old(tag).packet(old(self).held()),
            ),
            *final(tag) == old(tag).used(),
    {
        let mut samples: Vec<Sample> = Vec::new();
        std::mem::swap(&mut samples, &mut self.acc);
        let packet = Packet {
            samples,
            center_frequency_hz: tag.center_hz,
            sample_rate_hz: tag.sample_rate_hz,
            overrun: tag.overrun,
        };
        tag.overrun = false;
        let ghost p = packet@;
        out.push(packet);
        assert(packets::views(out@) =~= packets::views(old(out)@).push(p));
    }
}

/// The playback of one data file: it takes the bytes of the file, in reads of
/// whatever size, and gives the packets, cut at every segment start.
pub struct Playback {
    datatype: DataType,
    segments: Vec<Segment>,
    file_samples: u64,
    segment: usize,
    position: u64,
    /// The bytes of a partial sample, carried over from the reads so far.
    pending: Vec<u8>,
    packetizer: Packetizer,
    tag: Tag,
    taken: Ghost<Seq<u8>>,
}

impl Playback {
    /// The bytes taken so far.
    pub closed spec fn taken(self) -> Seq<u8> {
        self.taken@
    }

    /// The format of the data file.
    pub closed spec fn format(self) -> DataType {
        self.datatype
    }

    /// How the file's samples are laid out in packets.
    pub closed spec fn layout(self) -> Layout {
        Layout { segments: self.segments@, sample_rate_hz: self.tag.sample_rate_hz }
    }

    /// The samples taken so far.
    pub open spec fn samples(self) -> Seq<Sample> {
        self.format().decoded(self.taken())
    }

    /// The packets that have left: all that are known to be complete.
    pub open spec fn sent(self) -> Seq<PacketView> {
        self.layout().complete(self.samples())
    }

    /// Where the packet in the making begins.
    spec fn base(self) -> int {
        self.position - self.packetizer.held().len()
    }

    /// The packetizer, the place and the label are those of `samples`, with the
    /// packets `done` gone.
    spec fn in_step(self, samples: Seq<Sample>, done: Seq<PacketView>) -> bool {
        let k = self.segment as int;
        let b = self.base();
        &&& self.layout().well_formed()
        &&& self.position == samples.len()
        &&& 0 <= b
        &&& self.packetizer.held() == samples.skip(b)
        &&& self.packetizer.held().len() < PACKET_SAMPLES
        &&& k < self.segments@.len()
        &&& self.segments@[k].start <= b
        &&& k + 1 < self.segments@.len() ==> self.position <= self.segments@[k + 1].start
        &&& self.tag.center_hz == self.segments@[k].center_hz
        &&& self.tag.overrun == (k > 0 && self.segments@[k].start == b && !segments::announced(
            self.segments@[k - 1].center_hz,
            self.segments@[k].center_hz,
        ))
        &&& self.layout().cut_up_to(samples, b, done)
    }

    /// Between two reads.
    pub closed spec fn well_formed(self) -> bool {
        let whole = self.taken@.len() - self.taken@.len() as int % self.datatype.width();
        &&& self.pending@ == self.taken@.skip(whole)
        &&& self.in_step(self.samples(), self.sent())
        &&& self.packetizer.held().len() == 0 ==> self.sent().len() == 0
            || self.sent().last().samples.len() == PACKET_SAMPLES
    }
}

impl Playback {
    /// The samples are laid out by segments that can be played.
    pub proof fn lemma_layout(self)
        requires
            self.well_formed(),
        ensures
            self.layout().well_formed(),
    {
    }
}

/// The label of a packet that begins at sample `b` of segment `k`.
spec fn label(layout: Layout, k: int, b: int) -> Tag {
    Tag {
        center_hz: layout.segments[k].center_hz,
        sample_rate_hz: layout.sample_rate_hz,
        overrun: k > 0 && layout.segments[k].start == b && !segments::announced(
            layout.segments[k - 1].center_hz,
            layout.segments[k].center_hz,
        ),
    }
}

/// The samples of one segment, from the beginning `b` of a packet on, leave in
/// full packets just as the recording is laid out.
#[verifier::spinoff_prover]
#[verifier::rlimit(50)]
proof fn lemma_full_packets(
    layout: Layout,
    samples: Seq<Sample>,
    k: int,
    b: int,
    done: Seq<PacketView>,
)
    requires
        layout.well_formed(),
        0 <= k < layout.segments.len(),
        layout.segments[k].start <= b <= samples.len(),
        k + 1 < layout.segments.len() ==> samples.len() <= layout.segments[k + 1].start,
        layout.cut_up_to(samples, b, done),
    ensures
        ({
            let rest = left_over(samples.skip(b));
            let e = samples.len() - rest.len();
            let full = full_packets(samples.skip(b), label(layout, k, b));
            &&& b <= e
            &&& rest == samples.skip(e)
            &&& rest.len() < PACKET_SAMPLES
            &&& layout.cut_up_to(samples, e, done + full)
            &&& samples.len() - b < PACKET_SAMPLES ==> e == b
            &&& samples.len() - b >= PACKET_SAMPLES ==> e > b && full.len() > 0
                && full.last().samples.len() == PACKET_SAMPLES
        }),
    decreases samples.len() - b,
{
    let here = samples.skip(b);
    let tag = label(layout, k, b);
    if here.len() < PACKET_SAMPLES {
        assert(done + full_packets(here, tag) =~= done);
        assert(samples.skip(samples.len() - here.len()) =~= here);
    } else {
        let next = b + PACKET_SAMPLES;
        packets::lemma_segment_at_is(layout.segments, b, k);
        assert(layout.cut(b) == next);
        let p = layout.packet_at(samples, b);
        assert(samples.subrange(b, next) =~= here.take(PACKET_SAMPLES as int));
        assert(p == tag.packet(here.take(PACKET_SAMPLES as int)));
        layout.lemma_packet_complete(samples, b, done);
        assert(here.skip(PACKET_SAMPLES as int) =~= samples.skip(next));
        assert(tag.used() == label(layout, k, next));
        lemma_full_packets(layout, samples, k, next, done.push(p));
        let rest = full_packets(samples.skip(next), label(layout, k, next));
        assert(done.push(p) + rest =~= done + (seq![p] + rest));
        assert(full_packets(here, tag) == seq![p] + rest);
        if rest.len() > 0 {
            assert((seq![p] + rest).last() == rest.last());
        } else {
            assert((seq![p] + rest).last() == p);
        }
    }
}

impl Playback {
    /// Begins the playback of a file of `file_bytes` bytes, as far as is known
    /// (they only size reservations; a file that is still being written just
    /// goes on).
    pub fn new(
        datatype: DataType,
        segments: Vec<Segment>,
        sample_rate_hz: Binary32,
        file_bytes: u64,
    ) -> (p: Playback)
        requires
            segments::well_formed(segments@),
        ensures
            p.well_formed(),
            p.taken() == Seq::<u8>::empty(),
            p.sent() == Seq::<PacketView>::empty(),
            p.format() == datatype,
            p.layout() == (Layout { segments: segments@, sample_rate_hz }),
    {
        let bps: u64 = datatype.bytes_per_sample() as u64;
        let tag = Tag { center_hz: segments[0].center_hz, sample_rate_hz, overrun: false };
        let ghost nothing = Seq::<u8>::empty();
        let p = Playback {
            datatype,
            segments,
            file_samples: file_bytes / bps,
            segment: 0,
            position: 0,
            pending: Vec::new(),
            packetizer: Packetizer::new(),
            tag,
            taken: Ghost(nothing),
        };
        proof {
            let none: Seq<Sample> = seq![];
            assert(p.samples() =~= none);
            assert(p.pending@ =~= p.taken@.skip(0));
            p.layout().lemma_nothing_cut();
            assert(p.layout().packets(none) =~= seq![]);
            assert(p.sent() =~= seq![]);
            assert(p.packetizer.held() =~= none.skip(0));
        }
        p
    }

    /// Takes the bytes of one read, and gives the packets that are complete
    /// then. Bytes of a partial sample wait for the next read.
    pub fn feed(&mut self, bytes: &[u8]) -> (out: Vec<Packet>)
        requires
            old(self).well_formed(),
            old(self).taken().len() + bytes@.len() <= u64::MAX,
        ensures
            final(self).well_formed(),
            final(self).format() == old(self).format(),
            final(self).layout() == old(self).layout(),
            final(self).taken() == old(self).taken() + bytes@,
            final(self).sent() == old(self).sent() + packets::views(out@),
    {
        let ghost before = self.taken@;
        let ghost after = before + bytes@;
        let ghost old_samples = self.samples();
        let ghost done = self.sent();
        let ghost layout = self.layout();
        let decoded = take_in(self.datatype, &mut self.pending, bytes, Ghost(before));
        self.taken = Ghost(after);
        proof {
            lemma_sample_count(self.datatype, after);
        }
        let out = self.lay_out(&decoded, Ghost(old_samples), Ghost(done));
        proof {
            let samples = self.samples();
            let gone = done + packets::views(out@);
            let b = self.base();
            lemma_open_within_cut(layout, self.segment as int, b, samples.len() as int);
            layout.lemma_state(samples, b, gone);
        }
        out
    }

    /// Sends decoded samples on their way, after `old_samples` that have been
    /// seen and the packets `done` that have left.
    #[verifier::spinoff_prover]
    #[verifier::rlimit(80)]
    fn lay_out(
        &mut self,
        decoded: &Vec<Sample>,
        Ghost(old_samples): Ghost<Seq<Sample>>,
        Ghost(done): Ghost<Seq<PacketView>>,
    ) -> (out: Vec<Packet>)
        requires
            old(self).in_step(old_samples, done),
            old_samples.len() + decoded@.len() <= u64::MAX,
            old(self).packetizer.held().len() == 0 ==> done.len() == 0 || done.last().samples.len()
                == PACKET_SAMPLES,
        ensures
            final(self).datatype == old(self).datatype,
            final(self).layout() == old(self).layout(),
            final(self).taken@ == old(self).taken@,
            final(self).pending@ == old(self).pending@,
            final(self).in_step(old_samples + decoded@, done + packets::views(out@)),
            final(self).packetizer.held().len() == 0 ==> (done + packets::views(out@)).len() == 0
                || (done + packets::views(out@)).last().samples.len() == PACKET_SAMPLES,
    {
        let ghost d = self.datatype;
        let ghost layout = self.layout();
        let ghost after = self.taken@;
        let ghost pending = self.pending@;
        let ghost samples = old_samples + decoded@;
        let mut out: Vec<Packet> = Vec::new();
        let mut at: usize = 0;
        let count: usize = decoded.len();
        proof {
            assert(old_samples + decoded@.take(0) =~= old_samples);
            assert(done + packets::views(out@) =~= done);
        }
        while at < count
            invariant
                count == decoded@.len(),
                at <= count,
                samples == old_samples + decoded@,
                samples.len() <= u64::MAX,
                self.layout() == layout,
                self.datatype == d,
                self.taken@ == after,
                self.pending@ == pending,
                self.in_step(
                    old_samples + decoded@.take(at as int),
                    done + packets::views(out@),
                ),
                self.packetizer.held().len() == 0 && at == count ==> (done + packets::views(
                    out@,
                )).len() == 0 || (done + packets::views(out@)).last().samples.len()
                    == PACKET_SAMPLES,
            decreases count - at, self.segments@.len() - self.segment,
        {
            let ghost seen = old_samples + decoded@.take(at as int);
            let ghost gone = done + packets::views(out@);
            let ghost k = self.segment as int;
            let ghost b = self.base();
            let more: bool = self.segment < self.segments.len() - 1;
            if more && self.segments[self.segment + 1].start <= self.position {
                // A capture boundary. Nothing either side of it may share a
                // packet, and a boundary that keeps the frequency is still a
                // break in the stream (SigMF starts a new capture exactly when
                // something about the recording is discontinuous), so it is
                // flagged the way a live source flags lost samples.
                let next = self.segments[self.segment + 1];
                let ghost held = self.packetizer.held();
                let ghost tag = self.tag;
                let ghost was = packets::views(out@);
                self.packetizer.flush(&mut self.tag, &mut out);
                self.tag.overrun = !boundary_announces_itself(self.tag.center_hz, next.center_hz);
                self.tag.center_hz = next.center_hz;
                self.segment = self.segment + 1;
                proof {
                    assert(layout.segments[k + 1] == next);
                    if held.len() > 0 {
                        packets::lemma_segment_at_is(layout.segments, b, k);
                        assert(layout.cut(b) == seen.len());
                        assert(seen.subrange(b, seen.len() as int) =~= seen.skip(b));
                        assert(layout.packet_at(seen, b) == tag.packet(held));
                        layout.lemma_packet_complete(seen, b, gone);
                        assert(done + packets::views(out@) =~= gone.push(tag.packet(held)));
                    }
                    assert(self.packetizer.held() =~= seen.skip(seen.len() as int));
                }
            } else {
                let left: usize = count - at;
                let mut take: usize = left;
                let mut end: u64 = u64::MAX;
                if more {
                    end = self.segments[self.segment + 1].start;
                    if end - self.position < left as u64 {
                        take = (end - self.position) as usize;
                    }
                }
                let reach: u64 = if end < self.file_samples {
                    end
                } else {
                    self.file_samples
                };
                let expected: u64 = if reach > self.position {
                    reach - self.position
                } else {
                    0
                };
                let ghost held = self.packetizer.held();
                let ghost tag = self.tag;
                let part = slice_subrange(decoded.as_slice(), at, at + take);
                let ghost was = packets::views(out@);
                self.packetizer.push(part, expected, &mut self.tag, &mut out);
                self.position = self.position + take as u64;
                at = at + take;
                proof {
                    let now = old_samples + decoded@.take(at as int);
                    assert(now =~= seen + part@);
                    layout.lemma_more_samples(seen, part@, b, gone);
                    assert(now.skip(b) =~= held + part@);
                    assert(tag == label(layout, k, b));
                    lemma_full_packets(layout, now, k, b, gone);
                    let full = full_packets(now.skip(b), tag);
                    assert(done + packets::views(out@) =~= gone + full);
                    if full.len() > 0 {
                        assert((gone + full).last() == full.last());
                    }
                }
            }
        }
        proof {
            assert(old_samples + decoded@.take(count as int) =~= samples);
        }
        out
    }
}

impl Playback {
    /// Ends the playback where the file ends: the packet in the making leaves,
    /// however short, and bytes that make no whole sample are discarded. Says
    /// how many those were.
    pub fn finish(self) -> (r: (Option<Packet>, usize))
        requires
            self.well_formed(),
        ensures
            self.layout().packets(self.samples()) == match r.0 {
                Some(p) => self.sent().push(p@),
                None => self.sent(),
            },
            r.1 == self.taken().len() as int % self.format().width(),
    {
        let mut packetizer = self.packetizer;
        let mut tag = self.tag;
        let mut out: Vec<Packet> = Vec::new();
        let ghost held = packetizer.held();
        assert(packets::views(out@) =~= seq![]);
        packetizer.flush(&mut tag, &mut out);
        proof {
            lemma_whole(self.datatype, self.taken@);
            let samples = self.samples();
            let layout = self.layout();
            let k = self.segment as int;
            let b = self.base();
            lemma_open_within_cut(layout, k, b, samples.len() as int);
            layout.lemma_state(samples, b, self.sent());
            if held.len() > 0 {
                packets::lemma_segment_at_is(layout.segments, b, k);
                assert(samples.subrange(b, samples.len() as int) =~= samples.skip(b));
                assert(layout.packet_at(samples, b) == self.tag.packet(held));
                assert(packets::views(out@) == seq![self.tag.packet(held)]);
                assert(packets::views(out@).len() == out@.len());
                assert(out@[0]@ == packets::views(out@)[0]);
            }
        }
        (out.pop(), self.pending.len())
    }
}

/// How the bytes of a file were parted into reads does not matter: what has left
/// and what will have left at the end of the file are the same.
pub proof fn lemma_reads_do_not_matter(a: Playback, b: Playback)
    requires
        a.format() == b.format(),
        a.layout() == b.layout(),
        a.taken() == b.taken(),
    ensures
        a.sent() == b.sent(),
        a.layout().packets(a.samples()) == b.layout().packets(b.samples()),
{
}

/// Puts the bytes of a read behind those of a partial sample and decodes the
/// whole samples; what is left is the partial sample now.
fn take_in(
    datatype: DataType,
    pending: &mut Vec<u8>,
    bytes: &[u8],
    Ghost(before): Ghost<Seq<u8>>,
) -> (decoded: Vec<Sample>)
    requires
        old(pending)@ == before.skip(before.len() - before.len() as int % datatype.width()),
    ensures
        ({
            let after = before + bytes@;
            &&& final(pending)@ == after.skip(after.len() - after.len() as int % datatype.width())
            &&& datatype.decoded(after) == datatype.decoded(before) + decoded@
        }),
{
    let bps: usize = datatype.bytes_per_sample();
    let mut avail: Vec<u8> = Vec::new();
    std::mem::swap(&mut avail, pending);
    let ghost carried = avail@;
    avail.extend_from_slice(bytes);
    assert(avail@ =~= carried + bytes@);
    let ghost fresh = avail@;
    let total: usize = avail.len();
    let full: usize = total - total % bps;
    let rest = avail.split_off(full);
    let decoded = datatype.decode(avail.as_slice());
    proof {
        let d = datatype;
        let w: int = d.width();
        let after = before + bytes@;
        let whole: int = before.len() - before.len() as int % w;
        let kept = before.take(whole);
        lemma_whole(d, before);
        lemma_whole(d, fresh);
        lemma_remainder(d, before, bytes@);
        assert(kept + fresh =~= after);
        assert(kept + carried =~= before);
        assert(avail@ + rest@ =~= fresh);
        crate::datatype::lemma_decoding_splits(d, kept, fresh);
        crate::datatype::lemma_decoding_splits(d, kept, carried);
        crate::datatype::lemma_decoding_splits(d, avail@, rest@);
        lemma_no_sample(d, carried);
        lemma_no_sample(d, rest@);
        assert(d.decoded(kept) + d.decoded(carried) =~= d.decoded(kept));
        assert(d.decoded(avail@) + d.decoded(rest@) =~= decoded@);
        assert(rest@ =~= after.skip(after.len() - after.len() as int % w));
    }
    *pending = rest;
    decoded
}

/// There are no more samples than bytes.
proof fn lemma_sample_count(d: DataType, bytes: Seq<u8>)
    ensures
        d.decoded(bytes).len() <= bytes.len(),
{
    match d {
        DataType::Cf32Le => {},
        DataType::Ci16Le => {},
        DataType::Ci8 => {},
    }
}

/// The whole samples of `bytes` end where a sample ends.
proof fn lemma_whole(d: DataType, bytes: Seq<u8>)
    ensures
        0 <= bytes.len() as int % d.width() < d.width(),
        bytes.len() as int % d.width() <= bytes.len(),
        (bytes.len() - bytes.len() as int % d.width()) % d.width() == 0,
{
    match d {
        DataType::Cf32Le => {},
        DataType::Ci16Le => {},
        DataType::Ci8 => {},
    }
}

/// Fewer bytes than a sample has hold none.
proof fn lemma_no_sample(d: DataType, bytes: Seq<u8>)
    requires
        bytes.len() < d.width(),
    ensures
        d.decoded(bytes) == Seq::<Sample>::empty(),
{
    assert(bytes.len() as int / d.width() == 0) by {
        match d {
            DataType::Cf32Le => {},
            DataType::Ci16Le => {},
            DataType::Ci8 => {},
        }
    }
    assert(d.decoded(bytes) =~= Seq::<Sample>::empty());
}

/// The partial sample at the end is the same whether the whole samples before
/// it are counted or not.
proof fn lemma_remainder(d: DataType, before: Seq<u8>, bytes: Seq<u8>)
    ensures
        (before.len() + bytes.len()) as int % d.width() == (before.len() as int % d.width()
            + bytes.len()) % d.width(),
{
    lemma_add_mod_noop_right(bytes.len() as int, before.len() as int, d.width());
}

/// A packet in the making has not reached its cut.
proof fn lemma_open_within_cut(layout: Layout, k: int, b: int, end: int)
    requires
        layout.well_formed(),
        0 <= k < layout.segments.len(),
        layout.segments[k].start <= b <= end,
        end - b < PACKET_SAMPLES,
        k + 1 < layout.segments.len() ==> end <= layout.segments[k + 1].start,
    ensures
        end <= layout.cut(b),
{
    if k + 1 < layout.segments.len() && layout.segments[k + 1].start == b {
        layout.lemma_cut(b);
    } else {
        packets::lemma_segment_at_is(layout.segments, b, k);
    }
}

} // verus!
