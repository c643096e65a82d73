//! The stretches of a data file that share one centre frequency.

use crate::ieee::Binary64;
use crate::metadata;
use crate::metadata::{Capture, SigmfMetadata};
use vstd::prelude::*;

verus! {

/// The `center_frequency_hz` tag on samples whose centre frequency the
/// recording does not state: a SigMF capture without `core:frequency`, or a
/// stretch before the first capture. It is the pattern of zero.
///
/// Not a frequency (no receiver tunes to DC) and deliberately not one borrowed
/// from another capture, which describes other samples. A consumer that knows
/// the frequency from elsewhere supplies it; one that doesn't should treat a
/// non-positive centre as unknown rather than re-base on it.
pub const UNKNOWN_CENTER_HZ: u64 = 0x0;

/// The unknown centre frequency.
pub open spec fn unknown() -> Binary64 {
    Binary64 { bits: UNKNOWN_CENTER_HZ }
}

/// A stretch of a data file that shares one centre frequency: a SigMF capture
/// segment, or the whole of a raw file. `start` is the absolute sample index
/// (not byte offset) where it begins.
#[derive(Clone, Copy, Debug, PartialEq, Eq, Structural)]
pub struct Segment {
    pub start: u64,
    pub center_hz: Binary64,
}

/// A recording's segments begin at its first sample, each after the one before.
pub open spec fn well_formed(segments: Seq<Segment>) -> bool {
    &&& segments.len() > 0
    &&& segments[0].start == 0
    &&& forall|i: int, j: int|
        0 <= i < j < segments.len() ==> #[trigger] segments[i].start < #[trigger] segments[j].start
}

/// The frequency tag of a capture.
pub open spec fn tag_of(c: Capture) -> Binary64 {
    match c.frequency {
        Some(f) => f,
        None => unknown(),
    }
}

/// The frequency tag at a start: that of the capture which starts there (the
/// one listed last, where there are more), else unknown.
pub open spec fn tag_at(captures: Seq<Capture>, start: u64) -> Binary64
    decreases captures.len(),
{
    if captures.len() == 0 {
        unknown()
    } else if captures.last().sample_start == start {
        tag_of(captures.last())
    } else {
        tag_at(captures.drop_last(), start)
    }
}

/// A segment begins at sample 0 or at the start of a capture, and has the
/// frequency tag of its start.
pub open spec fn tagged_by(captures: Seq<Capture>, segment: Segment) -> bool {
    &&& segment.center_hz == tag_at(captures, segment.start)
    &&& segment.start == 0 || exists|c: int|
        0 <= c < captures.len() && (#[trigger] captures[c]).sample_start == segment.start
}

/// There is one segment for sample 0 and for each start of a capture, with the
/// frequency tag of that start.
pub open spec fn describes(captures: Seq<Capture>, segments: Seq<Segment>) -> bool {
    &&& well_formed(segments)
    &&& forall|k: int| 0 <= k < segments.len() ==> tagged_by(captures, #[trigger] segments[k])
    &&& forall|c: int|
        0 <= c < captures.len() ==> has_start(segments, (#[trigger] captures[c]).sample_start)
}

/// The last of the captures that start at a sample gives it its tag.
pub proof fn lemma_tag_at(captures: Seq<Capture>, c: int)
    requires
        0 <= c < captures.len(),
        forall|i: int|
            c < i < captures.len() ==> (#[trigger] captures[i]).sample_start
                != captures[c].sample_start,
    ensures
        tag_at(captures, captures[c].sample_start) == tag_of(captures[c]),
    decreases captures.len(),
{
    if c < captures.len() - 1 {
        let head = captures.drop_last();
        assert forall|i: int| c < i < head.len() implies (#[trigger] head[i]).sample_start
            != head[c].sample_start by {
            assert(head[i] == captures[i]);
        }
        lemma_tag_at(head, c);
    }
}

/// Where no capture starts, the tag is unknown.
pub proof fn lemma_tag_nowhere(captures: Seq<Capture>, start: u64)
    requires
        forall|i: int| 0 <= i < captures.len() ==> (#[trigger] captures[i]).sample_start != start,
    ensures
        tag_at(captures, start) == unknown(),
    decreases captures.len(),
{
    if captures.len() > 0 {
        let head = captures.drop_last();
        assert forall|i: int| 0 <= i < head.len() implies (#[trigger] head[i]).sample_start
            != start by {
            assert(head[i] == captures[i]);
        }
        lemma_tag_nowhere(head, start);
    }
}

/// Segment `seg` is from the capture at `place` of the order (from none, where
/// that is negative), and none of those after it, up to `i`, starts there.
spec fn stems_from(
    captures: Seq<Capture>,
    order: Seq<usize>,
    i: int,
    seg: Segment,
    place: int,
) -> bool {
    &&& -1 <= place < i
    &&& place < 0 ==> seg.start == 0 && seg.center_hz == unknown()
    &&& place >= 0 ==> seg.start == captures[order[place] as int].sample_start && seg.center_hz
        == tag_of(captures[order[place] as int])
    &&& forall|j: int|
        place < j < i ==> captures[#[trigger] order[j] as int].sample_start != seg.start
}

/// The first `i` captures of the order have been gathered into segments.
/// `places` says which of them each segment is from.
spec fn gathered(
    captures: Seq<Capture>,
    order: Seq<usize>,
    i: int,
    segments: Seq<Segment>,
    places: Seq<int>,
) -> bool {
    &&& well_formed(segments)
    &&& places.len() == segments.len()
    &&& forall|k: int|
        0 <= k < segments.len() ==> stems_from(
            captures,
            order,
            i,
            #[trigger] segments[k],
            places[k],
        )
    &&& forall|j: int|
        0 <= j < i ==> has_start(segments, captures[#[trigger] order[j] as int].sample_start)
    &&& i > 0 ==> segments.last().start == captures[order[i - 1] as int].sample_start
    &&& i == 0 ==> segments.len() == 1
}

/// One of the segments begins at `start`.
pub open spec fn has_start(segments: Seq<Segment>, start: u64) -> bool {
    exists|k: int| 0 <= k < segments.len() && (#[trigger] segments[k]).start == start
}

proof fn lemma_gather(
    captures: Seq<Capture>,
    order: Seq<usize>,
    i: int,
    segments: Seq<Segment>,
    places: Seq<int>,
    seg: Segment,
)
    requires
        metadata::start_order(captures, order),
        0 <= i < order.len(),
        gathered(captures, order, i, segments, places),
        seg.start == captures[order[i] as int].sample_start,
        seg.center_hz == tag_of(captures[order[i] as int]),
    ensures
        segments.last().start == seg.start ==> gathered(
            captures,
            order,
            i + 1,
            segments.update(segments.len() - 1, seg),
            places.update(segments.len() - 1, i),
        ),
        segments.last().start != seg.start ==> gathered(
            captures,
            order,
            i + 1,
            segments.push(seg),
            places.push(i),
        ),
{
    let last: int = segments.len() - 1;
    if i > 0 {
        assert(metadata::comes_before(captures, order[i - 1] as int, order[i] as int));
    }
    assert(segments[last].start <= seg.start);
    let same = segments[last].start == seg.start;
    let after = if same {
        segments.update(last, seg)
    } else {
        segments.push(seg)
    };
    let after_places = if same {
        places.update(last, i)
    } else {
        places.push(i)
    };
    assert(well_formed(after)) by {
        assert forall|a: int, b: int| 0 <= a < b < after.len() implies (#[trigger] after[a]).start < (
        #[trigger] after[b]).start by {
            if b == after.len() - 1 && a < last {
                assert(segments[a].start < segments[last].start);
            }
        }
    }
    assert forall|k: int| 0 <= k < after.len() implies stems_from(
        captures,
        order,
        i + 1,
        #[trigger] after[k],
        after_places[k],
    ) by {
        if k < after.len() - 1 {
            assert(after[k] == segments[k] && after_places[k] == places[k]);
            assert(stems_from(captures, order, i, segments[k], places[k]));
            assert(after[k].start < after[after.len() - 1].start);
        }
    }
    assert forall|j: int| 0 <= j < i + 1 implies has_start(
        after,
        captures[#[trigger] order[j] as int].sample_start,
    ) by {
        if j < i {
            assert(has_start(segments, captures[order[j] as int].sample_start));
            let k = choose|k: int|
                0 <= k < segments.len() && (#[trigger] segments[k]).start
                    == captures[order[j] as int].sample_start;
            assert(after[k].start == segments[k].start);
        } else {
            assert(after[after.len() - 1] == seg);
        }
    }
}

proof fn lemma_gathered(
    captures: Seq<Capture>,
    order: Seq<usize>,
    segments: Seq<Segment>,
    places: Seq<int>,
)
    requires
        metadata::start_order(captures, order),
        gathered(captures, order, order.len() as int, segments, places),
    ensures
        describes(captures, segments),
{
    assert forall|k: int| 0 <= k < segments.len() implies tagged_by(
        captures,
        #[trigger] segments[k],
    ) by {
        let start = segments[k].start;
        let place = places[k];
        assert(stems_from(captures, order, order.len() as int, segments[k], place));
        if place >= 0 {
            let c: int = order[place] as int;
            assert(captures[c].sample_start == start);
            assert forall|x: int| c < x < captures.len() implies (#[trigger] captures[x]).sample_start
                != captures[c].sample_start by {
                assert(metadata::lists(order, x));
                let j = choose|j: int| 0 <= j < order.len() && #[trigger] order[j] == x;
                if j < place {
                    assert(metadata::comes_before(captures, order[j] as int, order[place] as int));
                }
            }
            lemma_tag_at(captures, c);
        } else {
            assert forall|x: int| 0 <= x < captures.len() implies (
            #[trigger] captures[x]).sample_start != start by {
                assert(metadata::lists(order, x));
                let j = choose|j: int| 0 <= j < order.len() && #[trigger] order[j] == x;
                assert(order[j] == x);
            }
            lemma_tag_nowhere(captures, start);
        }
    }
    assert forall|c: int| 0 <= c < captures.len() implies has_start(
        segments,
        (#[trigger] captures[c]).sample_start,
    ) by {
        assert(metadata::lists(order, c));
        let j = choose|j: int| 0 <= j < order.len() && #[trigger] order[j] == c;
        assert(order[j] == c);
    }
}

/// The capture segments of a SigMF recording, normalised for playback: sorted
/// by `core:sample_start`, starting at sample 0, with strictly increasing
/// starts. A capture without `core:frequency` is tagged
/// [`UNKNOWN_CENTER_HZ`], as is any stretch before the first capture. Where two
/// captures share a start the later one describes it.
pub fn sigmf_segments(meta: &SigmfMetadata) -> (segments: Vec<Segment>)
    ensures
        describes(meta.captures@, segments@),
        segments@ == segments_of(meta.captures@),
{
    let order = meta.captures_by_start();
    let ghost captures = meta.captures@;
    let mut segments: Vec<Segment> = Vec::new();
    segments.push(Segment { start: 0, center_hz: Binary64 { bits: UNKNOWN_CENTER_HZ } });
    let ghost mut places: Seq<int> = seq![-1];
    let mut i: usize = 0;
    while i < order.len()
        invariant
            captures == meta.captures@,
            metadata::start_order(captures, order@),
            i <= order@.len(),
            gathered(captures, order@, i as int, segments@, places),
        decreases order@.len() - i,
    {
        let capture = &meta.captures[order[i]];
        let seg = Segment {
            start: capture.sample_start,
            center_hz: match capture.frequency {
                Some(f) => f,
                None => Binary64 { bits: UNKNOWN_CENTER_HZ },
            },
        };
        let last: usize = segments.len() - 1;
        proof {
            lemma_gather(captures, order@, i as int, segments@, places, seg);
        }
        if segments[last].start == seg.start {
            segments.set(last, seg);
            proof {
                places = places.update(last as int, i as int);
            }
        } else {
            segments.push(seg);
            proof {
                places = places.push(i as int);
            }
        }
        i = i + 1;
    }
    proof {
        lemma_gathered(captures, order@, segments@, places);
        lemma_described_by(captures, segments@);
    }
    segments
}

/// The captures of a recording have one description as segments.
pub proof fn lemma_segments_are_unique(captures: Seq<Capture>, a: Seq<Segment>, b: Seq<Segment>)
    requires
        describes(captures, a),
        describes(captures, b),
    ensures
        a == b,
{
    assert forall|i: int| 0 <= i < a.len() implies i < b.len() && a[i] == b[i] by {
        lemma_same_segment(captures, a, b, i);
    }
    if a.len() < b.len() {
        lemma_same_segment(captures, b, a, a.len() as int);
    }
    if b.len() < a.len() {
        lemma_same_segment(captures, a, b, b.len() as int);
    }
    assert(a =~= b);
}

proof fn lemma_same_segment(captures: Seq<Capture>, a: Seq<Segment>, b: Seq<Segment>, i: int)
    requires
        describes(captures, a),
        describes(captures, b),
        0 <= i < a.len(),
    ensures
        i < b.len(),
        a[i] == b[i],
    decreases i,
{
    assert forall|k: int| 0 <= k < i implies k < b.len() && a[k] == b[k] by {
        lemma_same_segment(captures, a, b, k);
    }
    assert(tagged_by(captures, a[i]));
    lemma_start_of_both(captures, a[i], b);
    let k = choose|k: int| 0 <= k < b.len() && (#[trigger] b[k]).start == a[i].start;
    if k < i {
        assert(a[k] == b[k]);
        assert(a[k].start < a[i].start);
    }
    assert(i <= k);
    assert(tagged_by(captures, b[i]));
    if i < k {
        assert(b[i].start < b[k].start);
        lemma_start_of_both(captures, b[i], a);
        let j = choose|j: int| 0 <= j < a.len() && (#[trigger] a[j]).start == b[i].start;
        if j < i {
            assert(a[j] == b[j]);
            assert(b[j].start < b[i].start);
        } else if i < j {
            assert(a[i].start < a[j].start);
        }
    }
}

proof fn lemma_start_of_both(captures: Seq<Capture>, segment: Segment, other: Seq<Segment>)
    requires
        tagged_by(captures, segment),
        describes(captures, other),
    ensures
        has_start(other, segment.start),
{
    if segment.start == 0 {
        assert(other[0].start == 0);
    } else {
        let c = choose|c: int|
            0 <= c < captures.len() && (#[trigger] captures[c]).sample_start == segment.start;
        assert(has_start(other, captures[c].sample_start));
    }
}

/// The segments of a recording with these captures.
pub open spec fn segments_of(captures: Seq<Capture>) -> Seq<Segment> {
    choose|segments: Seq<Segment>| describes(captures, segments)
}

/// Every list of captures has a description as segments.
pub proof fn lemma_segments_of(captures: Seq<Capture>)
    ensures
        describes(captures, segments_of(captures)),
{
    let segments = lemma_described(captures);
    assert(describes(captures, segments));
}

/// What describes the captures is their description.
pub proof fn lemma_described_by(captures: Seq<Capture>, segments: Seq<Segment>)
    requires
        describes(captures, segments),
    ensures
        segments == segments_of(captures),
{
    lemma_segments_of(captures);
    lemma_segments_are_unique(captures, segments, segments_of(captures));
}

#[verifier::spinoff_prover]
#[verifier::rlimit(50)]
proof fn lemma_described(captures: Seq<Capture>) -> (segments: Seq<Segment>)
    ensures
        describes(captures, segments),
    decreases captures.len(),
{
    if captures.len() == 0 {
        let segments = seq![Segment { start: 0, center_hz: unknown() }];
        assert(describes(captures, segments));
        segments
    } else {
        let head = captures.drop_last();
        let c = captures.last();
        let before = lemma_described(head);
        let seg = Segment { start: c.sample_start, center_hz: tag_of(c) };
        let k = lemma_place_for(before, c.sample_start);
        let segments = if before[k].start == c.sample_start {
            before.update(k, seg)
        } else {
            before.insert(k + 1, seg)
        };
        assert forall|i: int| 0 <= i < segments.len() implies tagged_by(
            captures,
            #[trigger] segments[i],
        ) by {
            if segments[i] == seg {
                assert(captures[captures.len() - 1].sample_start == seg.start);
            } else {
                let j: int = if i <= k {
                    i
                } else if before[k].start == c.sample_start {
                    i
                } else {
                    i - 1
                };
                assert(segments[i] == before[j]);
                assert(tagged_by(head, before[j]));
                assert(before[j].start != c.sample_start);
                if before[j].start != 0 {
                    let d = choose|d: int|
                        0 <= d < head.len() && (#[trigger] head[d]).sample_start == before[j].start;
                    assert(captures[d].sample_start == before[j].start);
                }
            }
        }
        assert forall|d: int| 0 <= d < captures.len() implies has_start(
            segments,
            (#[trigger] captures[d]).sample_start,
        ) by {
            if d < head.len() {
                let start = captures[d].sample_start;
                assert(has_start(before, head[d].sample_start));
                let j = choose|j: int| 0 <= j < before.len() && (#[trigger] before[j]).start == start;
                if before[k].start == c.sample_start || j <= k {
                    assert(segments[j].start == start);
                } else {
                    assert(segments[j + 1].start == start);
                }
            } else if before[k].start == c.sample_start {
                assert(segments[k] == seg);
            } else {
                assert(segments[k + 1] == seg);
            }
        }
        segments
    }
}

/// The last of the segments that begin at or before `start`.
proof fn lemma_place_for(segments: Seq<Segment>, start: u64) -> (k: int)
    requires
        well_formed(segments),
    ensures
        0 <= k < segments.len(),
        segments[k].start <= start,
        forall|i: int| k < i < segments.len() ==> start < (#[trigger] segments[i]).start,
    decreases segments.len(),
{
    let last: int = segments.len() - 1;
    if segments[last].start <= start {
        last
    } else {
        let head = segments.drop_last();
        let k = lemma_place_for(head, start);
        assert forall|i: int| k < i < segments.len() implies start < (
        #[trigger] segments[i]).start by {
            if i < last {
                assert(head[i] == segments[i]);
            }
        }
        k
    }
}

/// The captures are the same in all that playback goes by: their starts and
/// their frequencies, in the order of the list.
pub open spec fn same_captures(a: Seq<Capture>, b: Seq<Capture>) -> bool {
    &&& a.len() == b.len()
    &&& forall|i: int|
        0 <= i < a.len() ==> (#[trigger] a[i]).sample_start == b[i].sample_start && a[i].frequency
            == b[i].frequency
}

proof fn lemma_same_tag(a: Seq<Capture>, b: Seq<Capture>, start: u64)
    requires
        same_captures(a, b),
    ensures
        tag_at(a, start) == tag_at(b, start),
    decreases a.len(),
{
    if a.len() > 0 {
        assert(a[a.len() - 1].sample_start == b[a.len() - 1].sample_start);
        let head = a.drop_last();
        assert forall|i: int| 0 <= i < head.len() implies (#[trigger] head[i]).sample_start
            == b.drop_last()[i].sample_start && head[i].frequency == b.drop_last()[i].frequency by {
            assert(head[i] == a[i]);
        }
        lemma_same_tag(head, b.drop_last(), start);
    }
}

/// Such captures have the same segments.
pub proof fn lemma_same_segments(a: Seq<Capture>, b: Seq<Capture>)
    requires
        same_captures(a, b),
    ensures
        segments_of(a) == segments_of(b),
{
    let segments = segments_of(a);
    lemma_segments_of(a);
    assert forall|k: int| 0 <= k < segments.len() implies tagged_by(b, #[trigger] segments[k]) by {
        assert(tagged_by(a, segments[k]));
        lemma_same_tag(a, b, segments[k].start);
        if segments[k].start != 0 {
            let c = choose|c: int|
                0 <= c < a.len() && (#[trigger] a[c]).sample_start == segments[k].start;
            assert(b[c].sample_start == segments[k].start);
        }
    }
    assert forall|c: int| 0 <= c < b.len() implies has_start(
        segments,
        (#[trigger] b[c]).sample_start,
    ) by {
        assert(has_start(segments, a[c].sample_start));
    }
    lemma_described_by(b, segments);
}

/// A frequency that a recording states.
pub open spec fn stated(f: Binary64) -> bool {
    !f.equals(unknown())
}

/// A boundary shows in the tags as a change between two stated frequencies.
pub open spec fn announced(from_hz: Binary64, to_hz: Binary64) -> bool {
    stated(from_hz) && stated(to_hz) && !from_hz.equals(to_hz)
}

/// Does a capture boundary from `from_hz` to `to_hz` show in the tags alone?
/// Only as a change between two *stated* frequencies. A boundary that keeps the
/// frequency, or that leaves or enters an unknown one, is a break the consumer
/// cannot see from the tag, so it is flagged.
pub fn boundary_announces_itself(from_hz: Binary64, to_hz: Binary64) -> (r: bool)
    ensures
        r == announced(from_hz, to_hz),
{
    !from_hz.same_value(Binary64 { bits: UNKNOWN_CENTER_HZ }) && !to_hz.same_value(Binary64 { bits: UNKNOWN_CENTER_HZ })
        && !from_hz.same_value(to_hz)
}

/// How many of the segments state no frequency.
pub open spec fn unstated(segments: Seq<Segment>) -> nat
    decreases segments.len(),
{
    if segments.len() == 0 {
        0
    } else {
        unstated(segments.drop_last()) + if stated(segments.last().center_hz) {
            0nat
        } else {
            1nat
        }
    }
}

/// Counts the segments that state no frequency.
pub fn count_unstated(segments: &Vec<Segment>) -> (n: usize)
    ensures
        n == unstated(segments@),
{
    let mut n: usize = 0;
    let mut i: usize = 0;
    while i < segments.len()
        invariant
            i <= segments@.len(),
            n <= i,
            n == unstated(segments@.take(i as int)),
        decreases segments@.len() - i,
    {
        assert(segments@.take(i + 1).drop_last() =~= segments@.take(i as int));
        if segments[i].center_hz.same_value(Binary64 { bits: UNKNOWN_CENTER_HZ }) {
            n = n + 1;
        }
        i = i + 1;
    }
    assert(segments@.take(i as int) =~= segments@);
    n
}

} // verus!
