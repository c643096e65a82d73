//! What holds of a whole session.

use crate::packets;
use crate::packets::PacketView;
use crate::session;
use crate::session::{Action, Event, Kind, Outcome, Phase};
use crate::source;
use vstd::prelude::*;

verus! {

/// A session in which `events` came, one after another, and led to `outcomes`.
pub open spec fn run(
    kind: Kind,
    paths: Vec<String>,
    events: Seq<Event>,
    outcomes: Seq<Outcome>,
) -> bool {
    &&& outcomes.len() == events.len() + 1
    &&& source::begins(outcomes[0], kind, paths)
    &&& forall|i: int| 0 <= i < events.len() ==> #[trigger] stepped(events, outcomes, i)
}

/// Event `i` led from outcome `i` to the next.
pub open spec fn stepped(events: Seq<Event>, outcomes: Seq<Outcome>, i: int) -> bool {
    &&& outcomes[i].session.awaits(events[i])
    &&& outcomes[i + 1].follows(outcomes[i].session, events[i])
    &&& outcomes[i + 1].session.well_formed()
}

/// The packets that were handed out, in that order.
pub open spec fn handed_out(outcomes: Seq<Outcome>) -> Seq<PacketView>
    decreases outcomes.len(),
{
    if outcomes.len() == 0 {
        seq![]
    } else {
        let before = handed_out(outcomes.drop_last());
        match outcomes.last().action {
            Action::Send(p) => before.push(p@),
            _ => before,
        }
    }
}

/// The event ends playback before its time: a stop, a read that failed, or a
/// consumer that has gone.
pub open spec fn interrupts(event: Event) -> bool {
    match event {
        Event::Stop(stop) => stop,
        Event::ReadFailed => true,
        Event::Sent(there) => !there,
        _ => false,
    }
}

/// A step hands out the packet of its action and no other, keeps to its paths,
/// and goes through them one by one. An event that interrupts ends playback.
pub proof fn lemma_step(before: session::Session, event: Event, after: Outcome)
    requires
        before.well_formed(),
        before.awaits(event),
        after.follows(before, event),
    ensures
        after.session.given@ == match after.action {
            Action::Send(p) => before.given@.push(p@),
            _ => before.given@,
        },
        after.session.kind == before.kind,
        after.session.paths == before.paths,
        before.at <= after.session.at <= before.at + 1,
        before.played@.is_prefix_of(after.session.played@),
        interrupts(event) ==> after.session.phase is Over && after.action is Finish
            && after.session.played@ == before.played@,
        after.session.phase is Over <==> after.action is Finish,
        after.session.phase is Over && !interrupts(event) ==> {
            &&& after.session.at + 1 == after.session.paths@.len()
            &&& after.session.given@ == session::all_packets(after.session.played@)
        },
{
    assert(before.paths@.len() == before.paths.len());
    if let Phase::Reading { playback } = before.phase {
        let file = session::Played {
            path: before.at as int,
            layout: playback.layout(),
            format: playback.format(),
            bytes: playback.taken(),
        };
        assert(before.played@.push(file).drop_last() =~= before.played@);
        let all = playback.layout().packets(playback.samples());
        if all.len() == playback.sent().len() {
            assert(all == playback.sent());
        }
    }
}

/// A session is one already before its last event.
pub proof fn lemma_shorter(
    kind: Kind,
    paths: Vec<String>,
    events: Seq<Event>,
    outcomes: Seq<Outcome>,
)
    requires
        run(kind, paths, events, outcomes),
        events.len() > 0,
    ensures
        run(kind, paths, events.drop_last(), outcomes.drop_last()),
{
    let n: int = events.len() - 1;
    let less = outcomes.drop_last();
    assert forall|i: int| 0 <= i < n implies #[trigger] stepped(events.drop_last(), less, i) by {
        assert(stepped(events, outcomes, i));
    }
}

/// What was handed out is what the session says, and the session keeps to its
/// kind and its paths.
pub proof fn lemma_run(kind: Kind, paths: Vec<String>, events: Seq<Event>, outcomes: Seq<Outcome>)
    requires
        run(kind, paths, events, outcomes),
    ensures
        outcomes.last().session.well_formed(),
        outcomes.last().session.given@ == handed_out(outcomes),
        outcomes.last().session.kind == kind,
        outcomes.last().session.paths == paths,
    decreases events.len(),
{
    if events.len() == 0 {
        assert(handed_out(outcomes.drop_last()) =~= seq![]);
    } else {
        let n: int = events.len() - 1;
        let less = outcomes.drop_last();
        lemma_shorter(kind, paths, events, outcomes);
        lemma_run(kind, paths, events.drop_last(), less);
        assert(stepped(events, outcomes, n));
        lemma_step(less.last().session, events[n], outcomes.last());
    }
}

/// Playback that ends by itself has gone through all paths and handed out all
/// packets of the files it played, one file after another in the order of the
/// paths, and nothing else.
pub proof fn lemma_uninterrupted_run_is_complete(
    kind: Kind,
    paths: Vec<String>,
    events: Seq<Event>,
    outcomes: Seq<Outcome>,
)
    requires
        run(kind, paths, events, outcomes),
        forall|i: int| 0 <= i < events.len() ==> !interrupts(#[trigger] events[i]),
        outcomes.last().session.phase is Over,
    ensures
        handed_out(outcomes) == session::all_packets(outcomes.last().session.played@),
        session::in_order(outcomes.last().session.played@, paths@.len() as int),
        outcomes.last().session.at + 1 == paths@.len(),
{
    lemma_run(kind, paths, events, outcomes);
    let n: int = events.len() - 1;
    assert(stepped(events, outcomes, n));
    let less = outcomes.drop_last();
    lemma_shorter(kind, paths, events, outcomes);
    lemma_run(kind, paths, events.drop_last(), less);
    lemma_step(outcomes[n].session, events[n], outcomes.last());
}

/// Of raw files every packet, in every session, has the centre frequency and the
/// rate that were given for all of them, and none is flagged.
pub proof fn lemma_raw_packets_share_their_labels(
    kind: Kind,
    paths: Vec<String>,
    events: Seq<Event>,
    outcomes: Seq<Outcome>,
    i: int,
)
    requires
        run(kind, paths, events, outcomes),
        kind is Raw,
        0 <= i < handed_out(outcomes).len(),
    ensures
        handed_out(outcomes)[i].center_frequency_hz == kind->center_hz,
        handed_out(outcomes)[i].sample_rate_hz == kind->sample_rate_hz,
        !handed_out(outcomes)[i].overrun,
{
    lemma_run(kind, paths, events, outcomes);
    assert(kind.labels(outcomes.last().session.given@[i]));
}

/// How far a phase is from the end of its path.
pub open spec fn rank(phase: Phase) -> int {
    match phase {
        Phase::BeforePath => 8,
        Phase::Probing => 7,
        Phase::Loading { .. } => 6,
        Phase::Opening { .. } => 5,
        Phase::Sending { .. } => 4,
        Phase::BeforeRead { .. } => 3,
        Phase::Reading { .. } => 2,
        Phase::Ending => 1,
        Phase::Over => 0,
    }
}

/// How many packets wait to be handed out.
pub open spec fn waiting(phase: Phase) -> int {
    match phase {
        Phase::Sending { queue, .. } => queue@.len() as int,
        _ => 0,
    }
}

/// `after` is nearer to the end of playback than `before`: at a later path, or
/// further with the same one.
pub open spec fn nearer(before: session::Session, after: session::Session) -> bool {
    ||| before.at < after.at < after.paths@.len()
    ||| before.at == after.at && rank(after.phase) < rank(before.phase)
    ||| before.at == after.at && rank(after.phase) == rank(before.phase) && waiting(after.phase)
        < waiting(before.phase)
}

/// Playback ends if the files do: every step gets nearer to the end, but for a
/// read that gave bytes. So a file that ends in a partial sample is not read
/// over and over.
pub proof fn lemma_every_step_gets_nearer(before: session::Session, event: Event, after: Outcome)
    requires
        before.well_formed(),
        before.awaits(event),
        after.follows(before, event),
        !(event matches Event::Read(bytes) && bytes@.len() > 0),
    ensures
        nearer(before, after.session),
{
    assert(before.paths@.len() == before.paths.len());
    if let Phase::Sending { playback, queue } = before.phase {
        assert(packets::views(queue@).len() == queue@.len());
        if let Phase::Sending { playback: _, queue: rest } = after.session.phase {
            assert(packets::views(rest@).len() == rest@.len());
        }
    }
}

} // verus!
