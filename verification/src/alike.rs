//! Two sessions to which the same happens do the same.

use crate::packets;
use crate::playback::Playback;
use crate::raw;
use crate::recording::Recording;
use crate::runs;
use crate::segments;
use crate::session::{Event, Kind, Outcome, Phase, Session};
use vstd::prelude::*;

verus! {

/// The two events say the same, as far as playback goes by them.
pub open spec fn same_event(a: Event, b: Event) -> bool {
    match (a, b) {
        (Event::Stop(x), Event::Stop(y)) => x == y,
        (
            Event::Probed { meta_exists: m, data_exists: d },
            Event::Probed { meta_exists: n, data_exists: e },
        ) => m == n && d == e,
        (Event::Loaded(None), Event::Loaded(None)) => true,
        (Event::Loaded(Some(m)), Event::Loaded(Some(n))) => Recording::same(m, n),
        (Event::Opened(x), Event::Opened(y)) => x is Some <==> y is Some,
        (Event::Read(x), Event::Read(y)) => x@ == y@,
        (Event::ReadFailed, Event::ReadFailed) => true,
        (Event::Sent(x), Event::Sent(y)) => x == y,
        _ => false,
    }
}

/// The same has happened in two sessions.
pub open spec fn same_events(a: Seq<Event>, b: Seq<Event>) -> bool {
    &&& a.len() == b.len()
    &&& forall|i: int| 0 <= i < a.len() ==> same_event(#[trigger] a[i], b[i])
}

spec fn same_playback(a: Playback, b: Playback) -> bool {
    a.format() == b.format() && a.layout() == b.layout() && a.taken() == b.taken()
}

spec fn same_phase(a: Phase, b: Phase) -> bool {
    match (a, b) {
        (Phase::BeforePath, Phase::BeforePath) => true,
        (Phase::Probing, Phase::Probing) => true,
        (Phase::Loading { data: x }, Phase::Loading { data: y }) => x@ == y@,
        (Phase::Opening { recording: x }, Phase::Opening { recording: y }) => x.datatype
            == y.datatype && x.layout() == y.layout(),
        (Phase::BeforeRead { playback: x }, Phase::BeforeRead { playback: y }) => same_playback(
            x,
            y,
        ),
        (Phase::Reading { playback: x }, Phase::Reading { playback: y }) => same_playback(x, y),
        (
            Phase::Sending { playback: x, queue: p },
            Phase::Sending { playback: y, queue: q },
        ) => same_playback(x, y) && packets::views(p@) == packets::views(q@),
        (Phase::Ending, Phase::Ending) => true,
        (Phase::Over, Phase::Over) => true,
        _ => false,
    }
}

spec fn alike(a: Session, b: Session) -> bool {
    &&& a.kind == b.kind
    &&& a.paths == b.paths
    &&& a.at == b.at
    &&& a.played@ == b.played@
    &&& a.given@ == b.given@
    &&& same_phase(a.phase, b.phase)
}

/// The format of every file is told by its path or its metadata, on every
/// platform.
pub open spec fn formats_told(kind: Kind, paths: Seq<String>) -> bool {
    kind is Raw ==> forall|i: int| 0 <= i < paths.len() ==> raw::plain((#[trigger] paths[i])@)
}

#[verifier::spinoff_prover]
#[verifier::rlimit(50)]
proof fn lemma_step_alike(
    a: Session,
    b: Session,
    x: Event,
    y: Event,
    after_a: Outcome,
    after_b: Outcome,
)
    requires
        alike(a, b),
        a.well_formed(),
        b.well_formed(),
        formats_told(a.kind, a.paths@),
        same_event(x, y),
        a.awaits(x),
        b.awaits(y),
        after_a.follows(a, x),
        after_b.follows(b, y),
    ensures
        alike(after_a.session, after_b.session),
{
    assert(a.paths@.len() == a.paths.len());
    match (x, y) {
        (Event::Loaded(Some(m)), Event::Loaded(Some(n))) => {
            if Recording::playable(m) {
                let r = after_a.session.phase->recording;
                let s = after_b.session.phase->recording;
                segments::lemma_described_by(m.captures@, r.segments@);
                segments::lemma_described_by(n.captures@, s.segments@);
                segments::lemma_same_segments(m.captures@, n.captures@);
            }
        },
        _ => {},
    }
}

proof fn lemma_runs_alike(
    kind: Kind,
    paths: Vec<String>,
    events_a: Seq<Event>,
    a: Seq<Outcome>,
    events_b: Seq<Event>,
    b: Seq<Outcome>,
)
    requires
        runs::run(kind, paths, events_a, a),
        runs::run(kind, paths, events_b, b),
        same_events(events_a, events_b),
        formats_told(kind, paths@),
    ensures
        alike(a.last().session, b.last().session),
    decreases events_a.len(),
{
    if events_a.len() > 0 {
        let n: int = events_a.len() - 1;
        runs::lemma_shorter(kind, paths, events_a, a);
        runs::lemma_shorter(kind, paths, events_b, b);
        assert(same_events(events_a.drop_last(), events_b.drop_last())) by {
            assert forall|i: int| 0 <= i < n implies same_event(
                #[trigger] events_a.drop_last()[i],
                events_b.drop_last()[i],
            ) by {
                assert(same_event(events_a[i], events_b[i]));
            }
        }
        lemma_runs_alike(
            kind,
            paths,
            events_a.drop_last(),
            a.drop_last(),
            events_b.drop_last(),
            b.drop_last(),
        );
        runs::lemma_run(kind, paths, events_a.drop_last(), a.drop_last());
        runs::lemma_run(kind, paths, events_b.drop_last(), b.drop_last());
        assert(runs::stepped(events_a, a, n));
        assert(runs::stepped(events_b, b, n));
        assert(same_event(events_a[n], events_b[n]));
        lemma_step_alike(
            a[n].session,
            b[n].session,
            events_a[n],
            events_b[n],
            a.last(),
            b.last(),
        );
    }
}

/// Two sessions of one kind on the same paths, to which the same happens, hand
/// out the same packets: there is nothing else that playback goes by. Of raw
/// files whose paths are read otherwise on other platforms nothing is said.
pub proof fn lemma_same_events_same_packets(
    kind: Kind,
    paths: Vec<String>,
    events_a: Seq<Event>,
    a: Seq<Outcome>,
    events_b: Seq<Event>,
    b: Seq<Outcome>,
)
    requires
        runs::run(kind, paths, events_a, a),
        runs::run(kind, paths, events_b, b),
        same_events(events_a, events_b),
        formats_told(kind, paths@),
    ensures
        runs::handed_out(a) == runs::handed_out(b),
        a.last().session.played@ == b.last().session.played@,
{
    lemma_runs_alike(kind, paths, events_a, a, events_b, b);
    runs::lemma_run(kind, paths, events_a, a);
    runs::lemma_run(kind, paths, events_b, b);
}

} // verus!
