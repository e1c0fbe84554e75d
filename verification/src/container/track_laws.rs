//! What holds of every track.
//!
//! Groups are read in order, a missing or slow group is waited for within the
//! maximum age and no longer, and an epoch that the publisher left stays gone.
use vstd::prelude::*;

use super::buffer::{
    decode_all, decode_once, decode_one, delivery, earliest, BufferView, ItemView, Reading,
};
use super::group_laws::{contents, law_delivery_is_in_order};
use super::progress::{
    beyond_cursor, beyond_edge, held, lemma_delivery, lemma_earliest_at, lemma_event,
    lemma_find_reset, lemma_first_above, lemma_first_timed, lemma_outlook, lemma_turn, looked_on,
    wires,
};
use super::schedule::{
    ascending, breaks, classified, decided, detected, earliest_at, event, find_reset, first_timed,
    front, insertion_point, latched, next_frame, outlook, readable, run, settled, survives, turn,
    ConsumerView, EventOutcome, EventView, Reset, StateOf, Turn,
};
use super::{Container, FrameDecrypter, Kind};
use crate::error::Error;
use crate::net::{self, SubscriberView};
use crate::poll::Poll;
use crate::time::{Duration, Timestamp};

verus! {

proof fn lemma_filter_ascending(pending: Seq<BufferView>, keep: spec_fn(BufferView) -> bool)
    requires
        ascending(pending),
    ensures
        ascending(pending.filter(keep)),
        forall|i: int|
            0 <= i < pending.filter(keep).len() ==> pending.contains(
                #[trigger] pending.filter(keep)[i],
            ),
    decreases pending.len(),
{
    reveal(Seq::filter);
    if pending.len() > 0 {
        let front = pending.drop_last();
        lemma_filter_ascending(front, keep);
        let kept = pending.filter(keep);
        assert forall|i: int| 0 <= i < kept.len() implies pending.contains(#[trigger] kept[i]) by {
            if i < front.filter(keep).len() {
                assert(kept[i] == front.filter(keep)[i]);
                let j = choose|j: int| 0 <= j < front.len() && front[j] == kept[i];
                assert(pending[j] == kept[i]);
            } else {
                assert(pending[pending.len() - 1] == kept[i]);
            }
        }
        assert forall|i: int, j: int| 0 <= i < j < kept.len() implies (
        #[trigger] kept[i]).group.sequence <= (#[trigger] kept[j]).group.sequence by {
            assert(kept[i] == front.filter(keep)[i]);
            if j < front.filter(keep).len() {
                assert(kept[j] == front.filter(keep)[j]);
            } else {
                let k = choose|k: int| 0 <= k < front.len() && front[k] == kept[i];
                assert(pending[k] == kept[i]);
            }
        }
    }
}

proof fn lemma_filter_kept(pending: Seq<BufferView>, keep: spec_fn(BufferView) -> bool)
    ensures
        forall|i: int|
            0 <= i < pending.filter(keep).len() ==> keep(#[trigger] pending.filter(keep)[i]) && (
            exists|j: int|
                0 <= j < pending.len() && pending[j] == pending.filter(keep)[i]),
    decreases pending.len(),
{
    reveal(Seq::filter);
    if pending.len() > 0 {
        let front = pending.drop_last();
        lemma_filter_kept(front, keep);
        let kept = pending.filter(keep);
        assert forall|i: int| 0 <= i < kept.len() implies keep(#[trigger] kept[i]) && (exists|
            j: int,
        | 0 <= j < pending.len() && pending[j] == kept[i]) by {
            if i < front.filter(keep).len() {
                assert(kept[i] == front.filter(keep)[i]);
                let j = choose|j: int| 0 <= j < front.len() && front[j] == kept[i];
                assert(pending[j] == kept[i]);
            } else {
                assert(pending[pending.len() - 1] == kept[i]);
            }
        }
    }
}

proof fn lemma_insertion_point(pending: Seq<BufferView>, sequence: u64)
    ensures
        ({
            let index = insertion_point(pending, sequence);
            &&& 0 <= index <= pending.len()
            &&& forall|i: int|
                0 <= i < index ==> (#[trigger] pending[i]).group.sequence < sequence
            &&& index < pending.len() ==> pending[index].group.sequence >= sequence
        }),
    decreases pending.len(),
{
    if pending.len() > 0 && pending[0].group.sequence < sequence {
        let rest = pending.drop_first();
        lemma_insertion_point(rest, sequence);
        assert forall|i: int| 0 <= i < insertion_point(pending, sequence) implies (
        #[trigger] pending[i]).group.sequence < sequence by {
            if i > 0 {
                assert(pending[i] == rest[i - 1]);
            }
        }
    }
}

/// Whether no group at hand is, by its number, of the epoch that the last rewind
/// left.
pub open spec fn past_reset<S>(state: ConsumerView<S>) -> bool {
    state.rewind.boundary matches Some(reset) ==> forall|i: int|
        0 <= i < state.pending.len() ==> (#[trigger] state.pending[i]).group.sequence
            > reset.prev_max
}

/// What every turn of a consumer keeps: the order of the groups at hand, the epoch
/// they are of, the subscription, the maximum age, and the count of breaks, which
/// only grows. A break forgets the end of the audio before it, and nothing else does.
pub open spec fn keeps<S>(a: ConsumerView<S>, b: ConsumerView<S>) -> bool {
    &&& a.ordered() ==> b.ordered()
    &&& past_reset(a) ==> past_reset(b)
    &&& b.track == a.track
    &&& b.max_age == a.max_age
    &&& b.rewind.discontinuity >= a.rewind.discontinuity
    &&& b.end is None || (b.end == a.end && b.rewind.discontinuity == a.rewind.discontinuity)
    &&& b.rewind.discontinuity == a.rewind.discontinuity < u64::MAX ==> b.end == a.end
}

proof fn lemma_looked_on_keeps<S>(a: ConsumerView<S>, b: ConsumerView<S>)
    requires
        looked_on(a, b),
    ensures
        keeps(a, b),
{
}

proof fn lemma_classified_keeps<F: Container, D: FrameDecrypter>(
    format: &F,
    state: StateOf<D>,
    reset: Reset,
    index: int,
)
    ensures
        keeps(state, classified::<F, D>(format, state, reset, index)),
    decreases state.pending.len() - index,
{
    if 0 <= index < state.pending.len() {
        let sequence = state.pending[index].group.sequence;
        if reset.verdict(sequence) is Some {
            lemma_classified_keeps::<F, D>(format, state, reset, index + 1);
        } else {
            let (next, found) = earliest_at::<F, D>(format, state, index);
            lemma_earliest_at::<F, D>(format, state, index);
            lemma_looked_on_keeps(state, next);
            if found is Some && reset.stale(sequence, found->Some_0) {
                let kept = ConsumerView { pending: next.pending.remove(index), ..next };
                assert(keeps(next, kept));
                lemma_classified_keeps::<F, D>(format, kept, reset, index);
            } else {
                lemma_classified_keeps::<F, D>(format, next, reset, index + 1);
            }
        }
    }
}

/// What a consumer shows by what it comes to, in the state it is left in: a frame
/// comes from a group at or below the cursor and lies at or before the live edge,
/// and the end of the track leaves no group behind.
pub open spec fn shows<S>(state: ConsumerView<S>, outcome: EventOutcome, finished: bool) -> bool {
    match outcome {
        Poll::Ready(Ok(Some(EventView::Frame(frame)))) => {
            &&& state.pending.len() > 0
            &&& state.pending[0].group.sequence <= state.current
            &&& state.rewind.live_edge matches Some((_, edge)) && !edge.precedes(frame.timestamp)
        },
        Poll::Ready(Ok(None)) => finished && state.pending.len() == 0,
        _ => true,
    }
}

proof fn lemma_detected_keeps<F: Container, D: FrameDecrypter>(format: &F, state: StateOf<D>)
    ensures
        keeps(state, detected::<F, D>(format, state).0),
{
    if let Some((prev_max, live_edge)) = state.rewind.live_edge {
        let count = state.pending.len() as int;
        let (next, found) = find_reset::<F, D>(format, state, count, prev_max, live_edge);
        lemma_find_reset::<F, D>(format, state, count, prev_max, live_edge);
        lemma_looked_on_keeps(state, next);
        if let Some(reset) = found {
            if next.ordered() {
                lemma_filter_ascending(next.pending, survives(reset));
            }
            lemma_filter_kept(next.pending, survives(reset));
        }
    }
}

proof fn lemma_front_keeps<F: Container, D: FrameDecrypter>(
    format: &F,
    state: StateOf<D>,
    finished: bool,
)
    ensures
        match front::<F, D>(format, state) {
            (next, None) => keeps(state, next),
            (_, Some(Turn::Again(next))) => keeps(state, next),
            (_, Some(Turn::Done(next, outcome))) => keeps(state, next) && shows(
                next,
                outcome,
                finished,
            ),
        },
{
    if state.pending.len() > 0 && state.pending[0].group.sequence <= state.current {
        let (after, item) = delivery::<F, D>(format, state.reading(0));
        lemma_delivery::<F, D>(format, state.reading(0));
        let next = state.moved(0, after);
        assert(keeps(state, next));
        assert(next.ordered() ==> ascending(next.pending.drop_first()));
    }
}

proof fn lemma_turn_keeps<F: Container, D: FrameDecrypter>(
    format: &F,
    state: StateOf<D>,
    finished: bool,
)
    ensures
        match turn::<F, D>(format, state, finished) {
            Turn::Again(next) => keeps(state, next),
            Turn::Done(next, outcome) => keeps(state, next) && shows(next, outcome, finished),
        },
{
    lemma_detected_keeps::<F, D>(format, state);
    let (checked, reset) = detected::<F, D>(format, state);
    if !reset {
        let calm = settled::<F, D>(format, checked);
        if let Some(boundary) = checked.rewind.boundary {
            lemma_classified_keeps::<F, D>(format, checked, boundary, 0);
        }
        assert(keeps(state, calm));
        lemma_front_keeps::<F, D>(format, calm, finished);
        let (read, result) = front::<F, D>(format, calm);
        if result is None {
            lemma_outlook::<F, D>(format, read);
            let (looked, view) = outlook::<F, D>(format, read);
            lemma_looked_on_keeps(read, looked);
            if view.next is Some {
                let index = view.next->Some_0.0;
                assert(looked.ordered() ==> ascending(looked.pending.skip(index)));
            }
        }
    }
}

proof fn lemma_run_keeps<F: Container, D: FrameDecrypter>(
    format: &F,
    state: StateOf<D>,
    finished: bool,
)
    ensures
        ({
            let (next, outcome) = run::<F, D>(format, state, finished);
            keeps(state, next) && shows(next, outcome, finished)
        }),
    decreases beyond_edge(state), state.pending.len(), beyond_cursor(state),
{
    lemma_turn::<F, D>(format, state, finished);
    lemma_turn_keeps::<F, D>(format, state, finished);
    if let Turn::Again(next) = turn::<F, D>(format, state, finished) {
        lemma_run_keeps::<F, D>(format, next, finished);
    }
}

proof fn lemma_received_keeps<S>(state: ConsumerView<S>)
    ensures
        keeps(
            ConsumerView { track: state.received().track, ..state },
            state.received(),
        ),
        state.received().track == (SubscriberView { arrived: Seq::empty(), ..state.track }),
    decreases state.track.arrived.len(),
{
    if state.track.arrived.len() == 0 {
        assert(state.track.arrived =~= Seq::empty());
    } else {
        let group = state.track.arrived[0];
        let rest = ConsumerView {
            track: SubscriberView { arrived: state.track.arrived.drop_first(), ..state.track },
            ..state.with_group(group)
        };
        if !state.discards(group.sequence) {
            lemma_insertion_point(state.pending, group.sequence);
            let index = insertion_point(state.pending, group.sequence);
            let grown = state.pending.insert(index, BufferView::over(group));
            if state.ordered() {
                assert forall|i: int, j: int| 0 <= i < j < grown.len() implies (
                #[trigger] grown[i]).group.sequence <= (#[trigger] grown[j]).group.sequence by {
                    if i < index && j > index {
                        assert(state.pending[i].group.sequence <= state.pending[j
                            - 1].group.sequence);
                    }
                }
            }
            if past_reset(state) && state.rewind.boundary is Some {
                assert forall|i: int| 0 <= i < grown.len() implies (
                #[trigger] grown[i]).group.sequence > state.rewind.boundary->Some_0.prev_max by {
                    if i > index {
                        assert(grown[i] == state.pending[i - 1]);
                    }
                }
            }
        }
        lemma_received_keeps(rest);
    }
}

/// A rewind drops every group that is of the epoch it left, by its number or by a
/// timestamp known of it, and keeps the groups from the one that gave it away on.
/// Reading goes on from the first group that is left.
pub proof fn law_a_rewind_drops_the_old_epoch<S>(state: ConsumerView<S>, reset: Reset, index: int)
    requires
        reset.prev_max < reset.group,
        0 <= index < state.pending.len(),
    ensures
        ({
            let next = state.restarted(reset);
            &&& past_reset(next)
            &&& forall|i: int|
                0 <= i < next.pending.len() ==> {
                    let buffer = #[trigger] next.pending[i];
                    buffer.min_timestamp matches Some(timestamp) ==> !reset.stale(
                        buffer.group.sequence,
                        timestamp,
                    )
                }
            &&& state.pending[index].group.sequence >= reset.group ==> next.pending.contains(
                state.pending[index],
            )
            &&& next.pending.len() > 0 ==> next.current == next.pending[0].group.sequence
        }),
{
    let keep = survives(reset);
    let kept = state.pending.filter(keep);
    assert forall|i: int| 0 <= i < kept.len() implies keep(#[trigger] kept[i]) by {
        state.pending.lemma_filter_pred(keep, i);
    }
    if state.pending[index].group.sequence >= reset.group {
        state.pending.lemma_filter_contains(keep, index);
    }
}

/// Once a rewind was found, no group is read that is, by its number, of the epoch
/// it left, whenever it arrives.
pub proof fn law_the_old_epoch_stays_gone<F: Container, D: FrameDecrypter>(
    format: &F,
    state: StateOf<D>,
)
    requires
        past_reset(state),
    ensures
        past_reset(event::<F, D>(format, state).0),
{
    lemma_event_keeps::<F, D>(format, state);
}

/// What an event keeps: the groups at hand stay in order of their sequence numbers,
/// what was subscribed to and the maximum age stay as they are, and the count of
/// breaks never falls. Where it grows, the end of the audio is forgotten; where it does
/// not, the end stays. A count at its largest value cannot tell.
pub proof fn law_events_keep_order<F: Container, D: FrameDecrypter>(
    format: &F,
    state: StateOf<D>,
)
    ensures
        ({
            let next = event::<F, D>(format, state).0;
            &&& state.ordered() ==> next.ordered()
            &&& next.track == (SubscriberView { arrived: Seq::empty(), ..state.track })
            &&& next.max_age == state.max_age
            &&& next.rewind.discontinuity >= state.rewind.discontinuity
            &&& next.rewind.discontinuity > state.rewind.discontinuity ==> next.end is None
            &&& next.rewind.discontinuity == state.rewind.discontinuity < u64::MAX
                ==> next.end == state.end
        }),
{
    lemma_event_keeps::<F, D>(format, state);
}

/// A consumer reads no frame beyond its cursor, and the live edge is never before a
/// frame that was delivered.
pub proof fn law_frames_come_from_the_cursor<F: Container, D: FrameDecrypter>(
    format: &F,
    state: StateOf<D>,
)
    ensures
        ({
            let (next, outcome) = event::<F, D>(format, state);
            outcome matches Poll::Ready(Ok(Some(EventView::Frame(frame)))) ==> {
                &&& next.pending.len() > 0
                &&& next.pending[0].group.sequence <= next.current
                &&& next.rewind.live_edge matches Some((_, edge)) && !edge.precedes(
                    frame.timestamp,
                )
            }
        }),
{
    lemma_event_keeps::<F, D>(format, state);
}

/// The end of the track is told only once the publisher ended it cleanly and every
/// group was read, skipped or dropped.
pub proof fn law_the_end_comes_last<F: Container, D: FrameDecrypter>(
    format: &F,
    state: StateOf<D>,
)
    ensures
        ({
            let (next, outcome) = event::<F, D>(format, state);
            outcome matches Poll::Ready(Ok(None)) ==> {
                &&& state.track.closed matches Some(Ok(_))
                &&& next.track.arrived.len() == 0
                &&& next.pending.len() == 0
            }
        }),
{
    lemma_event_keeps::<F, D>(format, state);
}

/// The error of a track that was ended early is told, and told first.
pub proof fn law_an_aborted_track_fails<F: Container, D: FrameDecrypter>(
    format: &F,
    state: StateOf<D>,
    error: net::Error,
)
    requires
        state.track.closed == Some(Err::<(), net::Error>(error)),
    ensures
        event::<F, D>(format, state).1 == Poll::Ready(
            Err::<Option<EventView>, Error>(Error::Moq(error)),
        ),
{
    lemma_received_keeps(state);
}

proof fn lemma_event_keeps<F: Container, D: FrameDecrypter>(format: &F, state: StateOf<D>)
    ensures
        ({
            let (next, outcome) = event::<F, D>(format, state);
            let taken = SubscriberView { arrived: Seq::empty(), ..state.track };
            &&& keeps(ConsumerView { track: taken, ..state }, next)
            &&& shows(next, outcome, state.track.closed matches Some(Ok(_)))
        }),
{
    let taken = state.received();
    lemma_received_keeps(state);
    let ready = latched::<F, D>(format, taken);
    if taken.startup {
        lemma_first_timed::<F, D>(format, taken, 0, None);
        lemma_looked_on_keeps(taken, first_timed::<F, D>(format, taken, 0, None).0);
    }
    assert(keeps(taken, ready));
    if ready.ordered() {
        lemma_filter_ascending(ready.pending, readable(ready.current));
    }
    lemma_filter_kept(ready.pending, readable(ready.current));
    assert(keeps(ready, ready.reaped()));
    lemma_run_keeps::<F, D>(format, ready.reaped(), taken.track.rest() is Ready);
}

/// Whether the cursor and every group at hand are at or above `floor`.
pub open spec fn from_floor<S>(state: ConsumerView<S>, floor: u64) -> bool {
    &&& state.current >= floor
    &&& forall|i: int|
        0 <= i < state.pending.len() ==> (#[trigger] state.pending[i]).group.sequence >= floor
}

proof fn lemma_received_floor<S>(state: ConsumerView<S>, floor: u64)
    requires
        from_floor(state, floor),
        state.rewind.boundary is None,
    ensures
        from_floor(state.received(), floor),
        state.received().rewind == state.rewind,
    decreases state.track.arrived.len(),
{
    if state.track.arrived.len() > 0 {
        let group = state.track.arrived[0];
        let rest = ConsumerView {
            track: SubscriberView { arrived: state.track.arrived.drop_first(), ..state.track },
            ..state.with_group(group)
        };
        lemma_insertion_point(state.pending, group.sequence);
        let index = insertion_point(state.pending, group.sequence);
        let grown = state.pending.insert(index, BufferView::over(group));
        if !state.discards(group.sequence) {
            assert forall|i: int| 0 <= i < grown.len() implies (
            #[trigger] grown[i]).group.sequence >= floor by {
                if i > index {
                    assert(grown[i] == state.pending[i - 1]);
                }
            }
        }
        lemma_received_floor(rest, floor);
    }
}

proof fn lemma_front_floor<F: Container, D: FrameDecrypter>(
    format: &F,
    state: StateOf<D>,
    floor: u64,
)
    requires
        from_floor(state, floor),
        state.rewind.boundary is None,
    ensures
        match front::<F, D>(format, state) {
            (next, None) => from_floor(next, floor) && next.rewind.boundary is None,
            (_, Some(Turn::Again(next))) => from_floor(next, floor) && next.rewind.boundary is None,
            (_, Some(Turn::Done(next, _))) => from_floor(next, floor),
        },
{
    if state.pending.len() > 0 && state.pending[0].group.sequence <= state.current {
        let (after, _) = delivery::<F, D>(format, state.reading(0));
        lemma_delivery::<F, D>(format, state.reading(0));
        assert(from_floor(state.moved(0, after), floor));
    }
}

proof fn lemma_run_floor<F: Container, D: FrameDecrypter>(
    format: &F,
    state: StateOf<D>,
    finished: bool,
    floor: u64,
)
    requires
        from_floor(state, floor),
        state.rewind.boundary is None,
        state.rewind.discontinuity < u64::MAX,
    ensures
        ({
            let next = run::<F, D>(format, state, finished).0;
            ||| from_floor(next, floor)
            ||| next.rewind.discontinuity > state.rewind.discontinuity
        }),
    decreases beyond_edge(state), state.pending.len(), beyond_cursor(state),
{
    lemma_turn::<F, D>(format, state, finished);
    lemma_turn_keeps::<F, D>(format, state, finished);
    let (checked, reset) = detected::<F, D>(format, state);
    if let Some((prev_max, live_edge)) = state.rewind.live_edge {
        lemma_find_reset::<F, D>(
            format,
            state,
            state.pending.len() as int,
            prev_max,
            live_edge,
        );
    }
    if !reset {
        assert(from_floor(checked, floor));
        lemma_front_floor::<F, D>(format, checked, floor);
        let (read, result) = front::<F, D>(format, checked);
        if result is None {
            lemma_outlook::<F, D>(format, read);
            lemma_first_above(
                outlook::<F, D>(format, read).0.pending,
                0,
                outlook::<F, D>(format, read).0.current,
            );
        }
    }
    if let Turn::Again(next) = turn::<F, D>(format, state, finished) {
        lemma_run_keeps::<F, D>(format, next, finished);
        if next.rewind.discontinuity == state.rewind.discontinuity {
            lemma_run_floor::<F, D>(format, next, finished, floor);
        }
    }
}

/// Groups are read in ascending order: where a frame was delivered from a group, no
/// frame of a lower one follows it unless the timeline breaks.
///
/// `state` is one that a delivered frame leaves, with the group it came from at the
/// front. Around a rewind the order starts over.
pub proof fn law_groups_are_read_in_order<F: Container, D: FrameDecrypter>(
    format: &F,
    state: StateOf<D>,
)
    requires
        state.ordered(),
        state.pending.len() > 0,
        state.pending[0].group.sequence <= state.current,
        state.rewind.boundary is None,
        state.rewind.discontinuity < u64::MAX,
    ensures
        ({
            let (next, outcome) = event::<F, D>(format, state);
            (outcome matches Poll::Ready(Ok(Some(EventView::Frame(_)))))
                && next.rewind.discontinuity == state.rewind.discontinuity
                ==> next.pending[0].group.sequence >= state.pending[0].group.sequence
        }),
{
    let floor = state.pending[0].group.sequence;
    lemma_event_keeps::<F, D>(format, state);
    assert(from_floor(state, floor));
    let taken = state.received();
    lemma_received_floor(state, floor);
    let ready = latched::<F, D>(format, taken);
    if taken.startup {
        lemma_first_timed::<F, D>(format, taken, 0, None);
    }
    assert(from_floor(ready, floor));
    lemma_filter_kept(ready.pending, readable(ready.current));
    assert(from_floor(ready.reaped(), floor));
    lemma_run_floor::<F, D>(format, ready.reaped(), taken.track.rest() is Ready, floor);
}

/// The event that an item is delivered as.
pub open spec fn event_of(item: ItemView) -> EventView {
    match item {
        ItemView::Frame(frame) => EventView::Frame(frame),
        ItemView::End(bound) => EventView::FrameEnd(bound),
    }
}

/// Whether a consumer of an unprotected track stands at a group that can be decoded
/// as far as it has arrived, with nothing announced that it has not taken, and no
/// rewind in sight.
pub open spec fn reads_on<F: Container, D: FrameDecrypter>(
    format: &F,
    state: StateOf<D>,
) -> bool {
    &&& state.track.arrived.len() == 0
    &&& !(state.track.closed matches Some(Err(_)))
    &&& !state.startup
    &&& state.decrypter is None
    &&& state.rewind.boundary is None
    &&& state.pending.len() > 0
    &&& state.pending[0].group.sequence <= state.current
    &&& !(decode_all::<F, D>(format, state.reading(0)).1 matches Poll::Ready(Err(_)))
    &&& !detected::<F, D>(format, state.reaped()).1
}

/// Where everything can be decoded, a media frame is found without an error, and
/// taking an item gives what the group delivers next.
proof fn lemma_decodable<F: Container, D: FrameDecrypter>(format: &F, at: Reading<D::State>)
    requires
        !(decode_all::<F, D>(format, at).1 matches Poll::Ready(Err(_))),
        at.decrypter is None,
    ensures
        ({
            let (looked, found) = decode_one::<F, D>(format, at);
            &&& !(found matches Poll::Ready(Err(_)))
            &&& decode_all::<F, D>(format, looked) == decode_all::<F, D>(format, at)
            &&& looked.decrypter is None
        }),
        delivery::<F, D>(format, at).0.decrypter is None,
        contents::<F, D>(format, at).len() > 0 ==> delivery::<F, D>(format, at).1 == Poll::Ready(
            Ok::<Option<ItemView>, Error>(Some(contents::<F, D>(format, at)[0])),
        ),
        contents::<F, D>(format, at).len() == 0 && decode_all::<F, D>(format, at).1 == Poll::Ready(
            Ok::<(), Error>(()),
        ) ==> delivery::<F, D>(format, at).1 == Poll::Ready(Ok::<Option<ItemView>, Error>(None)),
    decreases at.buffer.group.frames.len(),
{
    let (next, result) = decode_once::<F, D>(format, at);
    if result == Poll::Ready(Ok::<bool, Error>(true)) {
        lemma_decodable::<F, D>(format, next);
    } else {
        assert(next.buffer =~= at.buffer);
    }
    law_delivery_is_in_order::<F, D>(format, at);
    if at.buffer.items.len() > 0 {
        assert(delivery::<F, D>(format, at).1 is Ready);
    }
}

/// Looking for a rewind leaves the first group with what it delivers.
proof fn lemma_reset_keeps_front<F: Container, D: FrameDecrypter>(
    format: &F,
    state: StateOf<D>,
    count: int,
    prev_max: u64,
    live_edge: Timestamp,
)
    requires
        0 < state.pending.len(),
        count <= state.pending.len(),
        state.decrypter is None,
        !(decode_all::<F, D>(format, state.reading(0)).1 matches Poll::Ready(Err(_))),
    ensures
        ({
            let next = find_reset::<F, D>(format, state, count, prev_max, live_edge).0;
            &&& next.decrypter is None
            &&& decode_all::<F, D>(format, next.reading(0)) == decode_all::<F, D>(
                format,
                state.reading(0),
            )
        }),
    decreases count,
{
    if count > 0 && state.pending[count - 1].group.sequence > prev_max {
        let (next, found) = earliest_at::<F, D>(format, state, count - 1);
        lemma_unprotected::<F, D>(format, state.reading(count - 1));
        if count == 1 {
            lemma_decodable::<F, D>(format, state.reading(0));
        }
        assert(decode_all::<F, D>(format, next.reading(0)) == decode_all::<F, D>(
            format,
            state.reading(0),
        ));
        if !(found is Some && found->Some_0.precedes(live_edge)) {
            lemma_earliest_at::<F, D>(format, state, count - 1);
            lemma_reset_keeps_front::<F, D>(format, next, count - 1, prev_max, live_edge);
        }
    }
}

/// No decrypter comes of reading without one.
proof fn lemma_unprotected<F: Container, D: FrameDecrypter>(format: &F, at: Reading<D::State>)
    requires
        at.decrypter is None,
    ensures
        earliest::<F, D>(format, at).0.decrypter is None,
    decreases at.buffer.group.frames.len(),
{
    let (next, result) = decode_once::<F, D>(format, at);
    if result == Poll::Ready(Ok::<bool, Error>(true)) {
        lemma_unprotected::<F, D>(format, next);
    }
}

/// A first item that is kept stays first.
proof fn lemma_filter_first(pending: Seq<BufferView>, keep: spec_fn(BufferView) -> bool)
    requires
        pending.len() > 0,
        keep(pending[0]),
    ensures
        pending.filter(keep).len() > 0,
        pending.filter(keep)[0] == pending[0],
    decreases pending.len(),
{
    reveal(Seq::filter);
    if pending.len() > 1 {
        lemma_filter_first(pending.drop_last(), keep);
    } else {
        assert(pending.drop_last().filter(keep) =~= Seq::empty());
    }
}

/// What has arrived of the group at the cursor is delivered before anything else,
/// in order, and each item once. Where all of it was delivered and the group ended
/// cleanly, that is told, and the group is done with.
pub proof fn law_the_group_at_the_cursor_comes_first<F: Container, D: FrameDecrypter>(
    format: &F,
    state: StateOf<D>,
)
    requires
        reads_on::<F, D>(format, state),
    ensures
        ({
            let (next, outcome) = event::<F, D>(format, state);
            let items = contents::<F, D>(format, state.reading(0));
            &&& items.len() > 0 ==> {
                &&& outcome == Poll::Ready(
                    Ok::<Option<EventView>, Error>(Some(event_of(items[0]))),
                )
                &&& next.pending[0].group.sequence == state.pending[0].group.sequence
                &&& contents::<F, D>(format, next.reading(0)) == items.drop_first()
            }
            &&& items.len() == 0 && decode_all::<F, D>(format, state.reading(0)).1 == Poll::Ready(
                Ok::<(), Error>(()),
            ) ==> {
                &&& outcome == Poll::Ready(Ok::<Option<EventView>, Error>(Some(EventView::GroupEnd)))
                &&& next.pending.len() < state.pending.len()
                &&& next.current > state.pending[0].group.sequence || next.current == u64::MAX
            }
        }),
{
    let ready = state.reaped();
    lemma_filter_first(state.pending, readable(state.current));
    lemma_filter_shrinks(state.pending, readable(state.current));
    assert(ready.reading(0) == state.reading(0));
    let (checked, _) = detected::<F, D>(format, ready);
    if let Some((prev_max, live_edge)) = ready.rewind.live_edge {
        let count = ready.pending.len() as int;
        lemma_reset_keeps_front::<F, D>(format, ready, count, prev_max, live_edge);
        lemma_find_reset::<F, D>(format, ready, count, prev_max, live_edge);
    }
    assert(decode_all::<F, D>(format, checked.reading(0)) == decode_all::<F, D>(
        format,
        state.reading(0),
    ));
    lemma_decodable::<F, D>(format, checked.reading(0));
    lemma_delivery::<F, D>(format, checked.reading(0));
    law_delivery_is_in_order::<F, D>(format, checked.reading(0));
    let (after, _) = delivery::<F, D>(format, checked.reading(0));
    assert(checked.moved(0, after).reading(0) == after);
}

/// Nothing is added by leaving items out.
proof fn lemma_filter_shrinks(pending: Seq<BufferView>, keep: spec_fn(BufferView) -> bool)
    ensures
        pending.filter(keep).len() <= pending.len(),
{
    pending.lemma_filter_len(keep);
}

/// Whether the group at the cursor has not arrived, and a later one has.
pub open spec fn at_gap<S>(state: ConsumerView<S>) -> bool {
    state.pending.len() > 0 && state.pending[0].group.sequence > state.current
}

/// A missing group is waited for while the track is live and the groups after it
/// span less than the maximum age.
pub proof fn law_a_gap_is_waited_for<F: Container, D: FrameDecrypter>(
    format: &F,
    state: StateOf<D>,
)
    requires
        at_gap(state),
        outlook::<F, D>(format, state).1.next matches Some((_, start)) ==> !outlook::<F, D>(
            format,
            state,
        ).1.overdue(start, state.max_age),
    ensures
        ({
            let (looked, view) = outlook::<F, D>(format, state);
            decided::<F, D>(looked, view, false) == Turn::Done(looked, Poll::Pending)
        }),
{
    lemma_outlook::<F, D>(format, state);
}

/// A missing group is given up once the groups after it span the maximum age, or
/// the track has ended: reading goes on with the next group at hand.
pub proof fn law_a_gap_expires<F: Container, D: FrameDecrypter>(
    format: &F,
    state: StateOf<D>,
    finished: bool,
)
    requires
        at_gap(state),
        outlook::<F, D>(format, state).1.next matches Some((_, start)) && (finished || outlook::<
            F,
            D,
        >(format, state).1.overdue(start, state.max_age)),
    ensures
        ({
            let (looked, view) = outlook::<F, D>(format, state);
            &&& decided::<F, D>(looked, view, finished) == Turn::Again(looked.advanced(0))
            &&& looked.advanced(0).current == state.pending[0].group.sequence
        }),
{
    lemma_outlook::<F, D>(format, state);
}

/// A group that stalls is waited for while the track is live, the newest group is
/// within the maximum age of where it starts, and what was presented of it does not
/// reach up to the next group.
pub proof fn law_a_slow_group_is_waited_for<F: Container, D: FrameDecrypter>(
    format: &F,
    state: StateOf<D>,
    oldest: Duration,
)
    requires
        state.pending.len() > 0,
        state.pending[0].group.sequence <= state.current,
        outlook::<F, D>(format, state).1.oldest == Some(oldest),
        !outlook::<F, D>(format, state).1.overdue(oldest, state.max_age),
        match (
            outlook::<F, D>(format, state).1.next,
            outlook::<F, D>(format, state).1.reached,
        ) {
            (Some((_, start)), Some(reached)) => reached.nanos < start.nanos,
            _ => true,
        },
    ensures
        ({
            let (looked, view) = outlook::<F, D>(format, state);
            decided::<F, D>(looked, view, false) == Turn::Done(looked, Poll::Pending)
        }),
{
    lemma_outlook::<F, D>(format, state);
}

/// A group that stalls is skipped for the next one once the newest group is the
/// maximum age past where it starts, or what was presented of it reaches up to the
/// next group. Groups that declare a break are counted on the way, and are waited
/// for until it is known whether they do.
pub proof fn law_a_slow_group_is_skipped<F: Container, D: FrameDecrypter>(
    format: &F,
    state: StateOf<D>,
    finished: bool,
    oldest: Duration,
    index: int,
    start: Duration,
)
    requires
        state.pending.len() > 0,
        state.pending[0].group.sequence <= state.current,
        outlook::<F, D>(format, state).1.oldest == Some(oldest),
        outlook::<F, D>(format, state).1.next == Some((index, start)),
        outlook::<F, D>(format, state).1.overdue(oldest, state.max_age) || (outlook::<F, D>(
            format,
            state,
        ).1.reached matches Some(reached) && reached.nanos >= start.nanos),
    ensures
        ({
            let (looked, view) = outlook::<F, D>(format, state);
            let count = if state.rewind.live_edge is Some {
                breaks(looked.pending, index as nat)
            } else {
                Some(0)
            };
            decided::<F, D>(looked, view, finished) == (match count {
                Some(count) => Turn::Again(looked.skipped(index, count)),
                None => Turn::Done(looked, Poll::Pending),
            })
        }),
{
    lemma_outlook::<F, D>(format, state);
}

/// What reading media keeps, and what the end of it shows: the groups at hand stay
/// in order, the count of breaks never falls, and the end is told only once the
/// publisher ended the track cleanly and no group is left.
pub proof fn law_reading_keeps_order<F: Container, D: FrameDecrypter>(
    format: &F,
    state: StateOf<D>,
)
    ensures
        ({
            let (next, outcome) = next_frame::<F, D>(format, state);
            &&& state.ordered() ==> next.ordered()
            &&& past_reset(state) ==> past_reset(next)
            &&& next.rewind.discontinuity >= state.rewind.discontinuity
            &&& outcome matches Poll::Ready(Ok(Some(_))) ==> next.pending.len() > 0
                && next.pending[0].group.sequence <= next.current
            &&& outcome matches Poll::Ready(Ok(None)) ==> {
                &&& state.track.closed matches Some(Ok(_))
                &&& next.track.arrived.len() == 0
                &&& next.pending.len() == 0
            }
        }),
    decreases
            state.track.arrived.len(),
            state.pending.len(),
            wires(state.pending),
            held(state.pending),
{
    lemma_event::<F, D>(format, state);
    lemma_event_keeps::<F, D>(format, state);
    let (next, outcome) = event::<F, D>(format, state);
    match outcome {
        Poll::Ready(Ok(Some(EventView::FrameEnd(bound)))) => {
            let after = if format.role() == Kind::Audio {
                ConsumerView { end: Some(bound), ..next }
            } else {
                next
            };
            law_reading_keeps_order::<F, D>(format, after);
        },
        Poll::Ready(Ok(Some(EventView::GroupEnd))) => {
            law_reading_keeps_order::<F, D>(format, next);
        },
        _ => {},
    }
}

} // verus!
