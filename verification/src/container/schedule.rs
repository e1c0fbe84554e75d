//! The rules by which a consumer orders, waits, skips and drops.
//!
//! A consumer is a state machine over the groups at hand. Everything it decides
//! is a function of what has arrived, given here step by step.
use vstd::prelude::*;

use super::buffer::{delivery, earliest, holds_media, latest, BufferView, ItemView, Reading};
use super::progress::{beyond_cursor, beyond_edge, held, lemma_event, lemma_turn, wires};
use super::{Container, Frame, FrameDecrypter, FrameView, Kind};
use crate::error::Error;
use crate::net::{GroupEventView, GroupView, SubscriberView};
use crate::poll::Poll;
use crate::time::{Duration, Timestamp};

verus! {

/// Media and clean group boundaries, in delivery order.
#[derive(Debug)]
pub enum Event {
    /// A media frame.
    Frame(Frame),
    /// The end of presentation of the frames before it.
    FrameEnd(Timestamp),
    /// The clean end of a group.
    GroupEnd,
}

/// What an [`Event`] holds.
#[verifier::ext_equal]
pub enum EventView {
    Frame(FrameView),
    FrameEnd(Timestamp),
    GroupEnd,
}

impl View for Event {
    type V = EventView;

    open spec fn view(&self) -> EventView {
        match self {
            Event::Frame(frame) => EventView::Frame(frame@),
            Event::FrameEnd(bound) => EventView::FrameEnd(*bound),
            Event::GroupEnd => EventView::GroupEnd,
        }
    }
}

/// What came of asking for an event: the event, the end of the track, an error,
/// or nothing yet.
pub type EventOutcome = Poll<Result<Option<EventView>, Error>>;

/// The outcome of asking for an event, with the event by its view.
pub open spec fn event_outcome(read: Poll<Result<Option<Event>, Error>>) -> EventOutcome {
    match read {
        Poll::Ready(Ok(Some(event))) => Poll::Ready(Ok(Some(event@))),
        Poll::Ready(Ok(None)) => Poll::Ready(Ok(None)),
        Poll::Ready(Err(error)) => Poll::Ready(Err(error)),
        Poll::Pending => Poll::Pending,
    }
}

/// A recorded rewind of the timeline.
#[derive(Debug, Clone, Copy, PartialEq, Eq, Structural)]
pub struct Reset {
    /// The group that carried the latest timestamp of the old epoch.
    pub prev_max: u64,
    /// The group whose backwards timestamp gave the rewind away.
    pub group: u64,
    /// That timestamp.
    pub timestamp: Timestamp,
}

impl Reset {
    /// Whether a group is of the old epoch, as far as its sequence number tells.
    ///
    /// Between the two groups of the reset a number tells nothing.
    pub open spec fn verdict(self, sequence: u64) -> Option<bool> {
        if sequence <= self.prev_max {
            Some(true)
        } else if sequence >= self.group {
            Some(false)
        } else {
            None
        }
    }

    /// Whether a group that starts at `timestamp` is of the old epoch.
    pub open spec fn stale(self, sequence: u64, timestamp: Timestamp) -> bool {
        match self.verdict(sequence) {
            Some(stale) => stale,
            None => !timestamp.precedes(self.timestamp),
        }
    }

    /// Whether a group is of the old epoch: `Some(true)` to drop it,
    /// `Some(false)` to keep it, `None` where only its timestamps tell.
    pub fn by_sequence(&self, sequence: u64) -> (r: Option<bool>)
        ensures
            r == self.verdict(sequence),
    {
        if sequence <= self.prev_max {
            Some(true)
        } else if sequence >= self.group {
            Some(false)
        } else {
            None
        }
    }

    /// Whether a group that starts at `timestamp` is of the old epoch.
    pub fn is_stale(&self, sequence: u64, timestamp: Timestamp) -> (r: bool)
        ensures
            r == self.stale(sequence, timestamp),
    {
        match self.by_sequence(sequence) {
            Some(stale) => stale,
            None => !timestamp.before(self.timestamp),
        }
    }
}

/// What is known of the continuity of the timeline.
#[derive(Debug, Clone, Copy)]
pub struct Rewind {
    /// The latest timestamp delivered, and the group that carried it.
    pub live_edge: Option<(u64, Timestamp)>,
    /// The last rewind, while groups from around it may still arrive.
    pub boundary: Option<Reset>,
    /// How often the timeline broke.
    pub discontinuity: u64,
}

/// What a consumer holds, apart from its format.
#[verifier::ext_equal]
pub struct ConsumerView<S> {
    /// The subscription, with the groups that were not taken from it yet.
    pub track: SubscriberView,
    /// The sequence number up to which groups are read.
    pub current: u64,
    /// The groups at hand, by ascending sequence number.
    pub pending: Seq<BufferView>,
    /// Whether the first group has yet to be found.
    pub startup: bool,
    /// How far a group may fall behind the newest one before it is skipped.
    pub max_age: Duration,
    /// What is known of the continuity of the timeline.
    pub rewind: Rewind,
    /// The end of presentation of the audio delivered so far.
    pub end: Option<Timestamp>,
    /// The state of the decrypter, where payloads are protected.
    pub decrypter: Option<S>,
}

/// What a consumer holds whose decrypter is a `D`.
pub type StateOf<D> = ConsumerView<<D as FrameDecrypter>::State>;

/// `a + b`, held at the largest value.
pub open spec fn saturating(a: u64, b: nat) -> u64 {
    if a + b <= u64::MAX {
        (a + b) as u64
    } else {
        u64::MAX
    }
}

/// The sequence numbers of a run of buffers.
pub open spec fn sequences(pending: Seq<BufferView>) -> Seq<u64> {
    pending.map_values(|buffer: BufferView| buffer.group.sequence)
}

/// Whether sequence numbers ascend.
pub open spec fn ascending(pending: Seq<BufferView>) -> bool {
    forall|i: int, j: int|
        0 <= i < j < pending.len() ==> (#[trigger] pending[i]).group.sequence <= (
        #[trigger] pending[j]).group.sequence
}

/// How many buffers at the front have a sequence number below `sequence`.
pub open spec fn insertion_point(pending: Seq<BufferView>, sequence: u64) -> int
    decreases pending.len(),
{
    if pending.len() == 0 || pending[0].group.sequence >= sequence {
        0
    } else {
        1 + insertion_point(pending.drop_first(), sequence)
    }
}

/// The timestamp that looking for one came to.
pub open spec fn known(found: Poll<Result<Timestamp, Error>>) -> Option<Timestamp> {
    match found {
        Poll::Ready(Ok(timestamp)) => Some(timestamp),
        _ => None,
    }
}

/// The first index from `index` on of a group with the given sequence number, or
/// the length.
pub open spec fn index_of(pending: Seq<BufferView>, index: int, sequence: u64) -> int
    decreases pending.len() - index,
{
    if index >= pending.len() || pending[index].group.sequence == sequence {
        index
    } else {
        index_of(pending, index + 1, sequence)
    }
}

impl<S> ConsumerView<S> {
    /// The state that reads a track from where the subscription starts.
    pub open spec fn begun(track: SubscriberView) -> ConsumerView<S> {
        ConsumerView {
            track,
            current: match track.subscription.start {
                Some(group) => group,
                None => 0,
            },
            pending: Seq::empty(),
            startup: track.subscription.start is None,
            max_age: track.subscription.max_age.shortest(track.info.max_age),
            rewind: Rewind { live_edge: None, boundary: None, discontinuity: 0 },
            end: None,
            decrypter: None,
        }
    }

    /// The state after the transport reported `event` for a group at hand, and whether
    /// that group took it.
    pub open spec fn told(self, sequence: u64, event: GroupEventView) -> (ConsumerView<S>, bool) {
        let index = index_of(self.pending, 0, sequence);
        if index >= self.pending.len() {
            (self, false)
        } else {
            let (group, taken) = self.pending[index].group.after(event);
            let buffer = BufferView { group, ..self.pending[index] };
            (ConsumerView { pending: self.pending.update(index, buffer), ..self }, taken)
        }
    }

    /// Whether the groups at hand are in order.
    pub open spec fn ordered(self) -> bool {
        ascending(self.pending)
    }

    /// One group at hand, and the state of the decrypter.
    pub open spec fn reading(self, index: int) -> Reading<S> {
        Reading { buffer: self.pending[index], decrypter: self.decrypter }
    }

    /// The state after one group and the decrypter moved on.
    pub open spec fn moved(self, index: int, after: Reading<S>) -> ConsumerView<S> {
        ConsumerView {
            pending: self.pending.update(index, after.buffer),
            decrypter: after.decrypter,
            ..self
        }
    }

    /// Whether an arriving group is too old to be read.
    ///
    /// After a rewind only the new epoch counts; a group whose epoch its number
    /// does not tell is taken, and judged by its timestamps.
    pub open spec fn discards(self, sequence: u64) -> bool {
        match self.rewind.boundary {
            Some(reset) => match reset.verdict(sequence) {
                Some(stale) => stale || sequence < self.current,
                None => false,
            },
            None => sequence < self.current,
        }
    }

    /// The state after a group arrived.
    pub open spec fn with_group(self, group: GroupView) -> ConsumerView<S> {
        if self.discards(group.sequence) {
            self
        } else {
            ConsumerView {
                pending: self.pending.insert(
                    insertion_point(self.pending, group.sequence),
                    BufferView::over(group),
                ),
                ..self
            }
        }
    }

    /// The state after every announced group was taken from the subscription.
    pub open spec fn received(self) -> ConsumerView<S>
        decreases self.track.arrived.len(),
    {
        if self.track.arrived.len() == 0 {
            self
        } else {
            let rest = ConsumerView {
                track: SubscriberView { arrived: self.track.arrived.drop_first(), ..self.track },
                ..self.with_group(self.track.arrived[0])
            };
            rest.received()
        }
    }

    /// The state after the groups that can never be read were let go.
    pub open spec fn reaped(self) -> ConsumerView<S> {
        ConsumerView { pending: self.pending.filter(readable(self.current)), ..self }
    }

    /// The state after `count` declared breaks of the timeline.
    pub open spec fn broken(self, count: nat) -> ConsumerView<S> {
        if count == 0 {
            self
        } else {
            ConsumerView {
                rewind: Rewind {
                    live_edge: None,
                    boundary: None,
                    discontinuity: saturating(self.rewind.discontinuity, count),
                },
                end: None,
                ..self
            }
        }
    }

    /// The state after the publisher was found to have rewound the timeline.
    pub open spec fn restarted(self, reset: Reset) -> ConsumerView<S> {
        let pending = self.pending.filter(survives(reset));
        ConsumerView {
            pending,
            current: if pending.len() > 0 {
                pending[0].group.sequence
            } else {
                reset.group
            },
            rewind: Rewind {
                live_edge: Some((reset.group, reset.timestamp)),
                boundary: Some(reset),
                discontinuity: saturating(self.rewind.discontinuity, 1),
            },
            end: None,
            ..self
        }
    }

    /// The state after a media frame of the first group was delivered.
    pub open spec fn delivered(self, timestamp: Timestamp) -> ConsumerView<S> {
        let later = match self.rewind.live_edge {
            Some((_, edge)) => edge.precedes(timestamp),
            None => true,
        };
        if later {
            ConsumerView {
                rewind: Rewind {
                    live_edge: Some((self.pending[0].group.sequence, timestamp)),
                    ..self.rewind
                },
                ..self
            }
        } else {
            self
        }
    }

    /// The state after the first group ended cleanly.
    ///
    /// One that carried no wire frame declares a break of the timeline.
    pub open spec fn passed(self) -> ConsumerView<S> {
        let group = self.pending[0];
        let next = saturating(group.group.sequence, 1);
        let rest = ConsumerView {
            pending: self.pending.drop_first(),
            current: if next > self.current {
                next
            } else {
                self.current
            },
            ..self
        };
        if group.empty && self.rewind.live_edge is Some {
            rest.broken(1)
        } else {
            rest
        }
    }

    /// The state after the first group was given up.
    pub open spec fn evicted(self) -> ConsumerView<S> {
        let pending = self.pending.drop_first();
        ConsumerView {
            pending,
            current: if pending.len() > 0 {
                pending[0].group.sequence
            } else {
                saturating(self.current, 1)
            },
            ..self
        }
    }

    /// The state that reads up to the group at `index`.
    pub open spec fn advanced(self, index: int) -> ConsumerView<S> {
        ConsumerView { current: self.pending[index].group.sequence, ..self }
    }

    /// The state after the groups before `index` were skipped, `breaks` of them
    /// declared breaks of the timeline.
    pub open spec fn skipped(self, index: int, breaks: nat) -> ConsumerView<S> {
        (ConsumerView { pending: self.pending.skip(index), ..self }).broken(breaks).advanced(0)
    }
}

/// The buffers that a consumer reading up to `current` can still read from.
pub open spec fn readable(current: u64) -> spec_fn(BufferView) -> bool {
    |buffer: BufferView|
        {
            ||| buffer.group.sequence <= current
            ||| holds_media(buffer.items)
            ||| !buffer.aborted()
        }
}

/// The buffers that are not known to be of the epoch a rewind left.
pub open spec fn survives(reset: Reset) -> spec_fn(BufferView) -> bool {
    |buffer: BufferView|
        match reset.verdict(buffer.group.sequence) {
            Some(stale) => !stale,
            None => match buffer.min_timestamp {
                Some(timestamp) => !reset.stale(buffer.group.sequence, timestamp),
                None => true,
            },
        }
}

/// How many of the first `count` groups declare a break of the timeline, or
/// `None` while that is open for one of them.
pub open spec fn breaks(pending: Seq<BufferView>, count: nat) -> Option<nat>
    decreases count,
{
    if count == 0 {
        Some(0)
    } else {
        match (breaks(pending, (count - 1) as nat), pending[count - 1].emptiness()) {
            (Some(before), Poll::Ready(empty)) => Some(
                if empty {
                    before + 1
                } else {
                    before
                },
            ),
            _ => None,
        }
    }
}

/// The first index from `index` on of a group above `floor`, or the length.
pub open spec fn first_above(pending: Seq<BufferView>, index: int, floor: u64) -> int
    decreases pending.len() - index,
{
    if index >= pending.len() || pending[index].group.sequence > floor {
        index
    } else {
        first_above(pending, index + 1, floor)
    }
}

/// Looks for the earliest timestamp of one group at hand.
pub open spec fn earliest_at<F: Container, D: FrameDecrypter>(
    format: &F,
    state: StateOf<D>,
    index: int,
) -> (StateOf<D>, Option<Timestamp>) {
    let (after, found) = earliest::<F, D>(format, state.reading(index));
    (state.moved(index, after), known(found))
}

/// Looks for the latest timestamp of one group at hand.
pub open spec fn latest_at<F: Container, D: FrameDecrypter>(
    format: &F,
    state: StateOf<D>,
    index: int,
) -> (StateOf<D>, Option<Timestamp>) {
    let (after, found) = latest::<F, D>(format, state.reading(index));
    (state.moved(index, after), known(found))
}

/// Looks, from `index` on, for the first group above the floor that has a
/// timestamp.
pub open spec fn first_timed<F: Container, D: FrameDecrypter>(
    format: &F,
    state: StateOf<D>,
    index: int,
    floor: Option<u64>,
) -> (StateOf<D>, Option<(int, Timestamp)>)
    decreases state.pending.len() - index,
{
    if index < 0 || index >= state.pending.len() {
        (state, None)
    } else if floor is Some && state.pending[index].group.sequence <= floor->Some_0 {
        first_timed::<F, D>(format, state, index + 1, floor)
    } else {
        let (next, found) = earliest_at::<F, D>(format, state, index);
        match found {
            Some(timestamp) => (next, Some((index, timestamp))),
            None => first_timed::<F, D>(format, next, index + 1, floor),
        }
    }
}

/// Looks, from the last of the first `count` groups back to the floor, for the
/// latest timestamp of a group that has one.
pub open spec fn last_timed<F: Container, D: FrameDecrypter>(
    format: &F,
    state: StateOf<D>,
    count: int,
    floor: u64,
) -> (StateOf<D>, Option<Timestamp>)
    decreases count,
{
    if count <= 0 || state.pending[count - 1].group.sequence <= floor {
        (state, None)
    } else {
        let (next, found) = latest_at::<F, D>(format, state, count - 1);
        match found {
            Some(timestamp) => (next, Some(timestamp)),
            None => last_timed::<F, D>(format, next, count - 1, floor),
        }
    }
}

/// Looks, from the last of the first `count` groups back to the one that carried
/// the live edge, for a group that starts before the live edge.
pub open spec fn find_reset<F: Container, D: FrameDecrypter>(
    format: &F,
    state: StateOf<D>,
    count: int,
    prev_max: u64,
    live_edge: Timestamp,
) -> (StateOf<D>, Option<Reset>)
    decreases count,
{
    if count <= 0 || state.pending[count - 1].group.sequence <= prev_max {
        (state, None)
    } else {
        let (next, found) = earliest_at::<F, D>(format, state, count - 1);
        if found is Some && found->Some_0.precedes(live_edge) {
            let group = state.pending[count - 1].group.sequence;
            (next, Some(Reset { prev_max, group, timestamp: found->Some_0 }))
        } else {
            find_reset::<F, D>(format, next, count - 1, prev_max, live_edge)
        }
    }
}

/// Detects a rewind of the timeline, and restarts from it.
pub open spec fn detected<F: Container, D: FrameDecrypter>(
    format: &F,
    state: StateOf<D>,
) -> (StateOf<D>, bool) {
    match state.rewind.live_edge {
        Some((prev_max, live_edge)) => {
            let (next, reset) = find_reset::<F, D>(
                format,
                state,
                state.pending.len() as int,
                prev_max,
                live_edge,
            );
            match reset {
                Some(reset) => (next.restarted(reset), true),
                None => (next, false),
            }
        },
        None => (state, false),
    }
}

/// Drops, from `index` on, the groups around a rewind whose timestamps show them
/// to be of the old epoch.
pub open spec fn classified<F: Container, D: FrameDecrypter>(
    format: &F,
    state: StateOf<D>,
    reset: Reset,
    index: int,
) -> StateOf<D>
    decreases state.pending.len() - index,
{
    if index < 0 || index >= state.pending.len() {
        state
    } else if reset.verdict(state.pending[index].group.sequence) is Some {
        classified::<F, D>(format, state, reset, index + 1)
    } else {
        let sequence = state.pending[index].group.sequence;
        let (next, found) = earliest_at::<F, D>(format, state, index);
        if found is Some && reset.stale(sequence, found->Some_0) {
            let kept = ConsumerView { pending: next.pending.remove(index), ..next };
            classified::<F, D>(format, kept, reset, index)
        } else {
            classified::<F, D>(format, next, reset, index + 1)
        }
    }
}

/// The state after the groups left open by a rewind were judged.
pub open spec fn settled<F: Container, D: FrameDecrypter>(
    format: &F,
    state: StateOf<D>,
) -> StateOf<D> {
    match state.rewind.boundary {
        Some(reset) => classified::<F, D>(format, state, reset, 0),
        None => state,
    }
}

/// The state after the cursor was latched onto the first group that is served,
/// where the subscription names no start.
pub open spec fn latched<F: Container, D: FrameDecrypter>(
    format: &F,
    state: StateOf<D>,
) -> StateOf<D> {
    if state.startup {
        let (next, found) = first_timed::<F, D>(format, state, 0, None);
        if found is Some {
            ConsumerView { startup: false, ..next.advanced(0) }
        } else {
            next
        }
    } else {
        state
    }
}

/// One turn of a consumer: another turn to take, or what it comes to.
pub enum Turn<S> {
    Again(ConsumerView<S>),
    Done(ConsumerView<S>, EventOutcome),
}

/// Reads from the first group, where it is at or below the cursor.
///
/// `None` where there is nothing to read yet.
pub open spec fn front<F: Container, D: FrameDecrypter>(
    format: &F,
    state: StateOf<D>,
) -> (StateOf<D>, Option<Turn<D::State>>) {
    if state.pending.len() == 0 || state.pending[0].group.sequence > state.current {
        (state, None)
    } else {
        let (after, item) = delivery::<F, D>(format, state.reading(0));
        let next = state.moved(0, after);
        (
            next,
            match item {
                Poll::Ready(Ok(Some(ItemView::Frame(frame)))) => Some(
                    Turn::Done(
                        next.delivered(frame.timestamp),
                        Poll::Ready(Ok(Some(EventView::Frame(frame)))),
                    ),
                ),
                Poll::Ready(Ok(Some(ItemView::End(bound)))) => Some(
                    Turn::Done(next, Poll::Ready(Ok(Some(EventView::FrameEnd(bound))))),
                ),
                Poll::Ready(Ok(None)) => Some(
                    Turn::Done(next.passed(), Poll::Ready(Ok(Some(EventView::GroupEnd)))),
                ),
                Poll::Ready(Err(error)) => Some(
                    if next.pending[0].aborted() {
                        Turn::Again(next.evicted())
                    } else {
                        Turn::Done(next, Poll::Ready(Err(error)))
                    },
                ),
                Poll::Pending => None,
            },
        )
    }
}

/// What is known of the groups at hand once nothing more can be read from the
/// first one.
pub struct Outlook {
    /// Where the group being read starts.
    pub oldest: Option<Duration>,
    /// Where the presentation of the group being read reaches to.
    pub reached: Option<Duration>,
    /// The first later group that has a timestamp, and where it starts.
    pub next: Option<(int, Duration)>,
    /// Where the newest of the later groups reaches to.
    pub newest: Duration,
}

/// Looks at the groups at hand.
pub open spec fn outlook<F: Container, D: FrameDecrypter>(
    format: &F,
    state: StateOf<D>,
) -> (StateOf<D>, Outlook) {
    let reading = state.pending.len() > 0 && state.pending[0].group.sequence <= state.current;
    let (first, start) = if reading {
        earliest_at::<F, D>(format, state, 0)
    } else {
        (state, None)
    };
    let (second, next) = first_timed::<F, D>(format, first, 0, Some(state.current));
    let (third, newest) = last_timed::<F, D>(
        format,
        second,
        second.pending.len() as int,
        state.current,
    );
    (
        third,
        Outlook {
            oldest: match start {
                Some(timestamp) => Some(timestamp.elapsed()),
                None => None,
            },
            reached: if start is Some {
                first.pending[0].max_end
            } else {
                None
            },
            next: match next {
                Some((index, timestamp)) => Some((index, timestamp.elapsed())),
                None => None,
            },
            newest: match newest {
                Some(timestamp) => timestamp.elapsed(),
                None => Duration { nanos: 0 },
            },
        },
    )
}

impl Outlook {
    /// Whether the span from `start` to the newest group uses up `max_age`.
    pub open spec fn overdue(self, start: Duration, max_age: Duration) -> bool {
        self.newest.since(start).nanos >= max_age.nanos
    }

    /// Whether the group being read is to be skipped for the next one: it fell
    /// too far behind, or its presentation reaches up to the next one.
    pub open spec fn skips(self, max_age: Duration) -> bool {
        match self.next {
            Some((_, start)) => match self.oldest {
                Some(oldest) => {
                    ||| self.overdue(oldest, max_age)
                    ||| self.reached is Some && self.reached->Some_0.nanos >= start.nanos
                },
                None => self.overdue(start, max_age),
            },
            None => false,
        }
    }
}

/// Decides between waiting, jumping a gap, skipping, and the end of the track.
pub open spec fn decided<F: Container, D: FrameDecrypter>(
    state: StateOf<D>,
    view: Outlook,
    finished: bool,
) -> Turn<D::State> {
    let pending = state.pending;
    let gap = pending.len() > 0 && pending[0].group.sequence > state.current;
    let above = first_above(pending, 0, state.current);
    if gap && view.next is Some && (finished || view.overdue(
        view.next->Some_0.1,
        state.max_age,
    )) {
        Turn::Again(state.advanced(0))
    } else if view.skips(state.max_age) {
        let index = view.next->Some_0.0;
        if state.rewind.live_edge is Some {
            match breaks(pending, index as nat) {
                Some(count) => Turn::Again(state.skipped(index, count)),
                None => Turn::Done(state, Poll::Pending),
            }
        } else {
            Turn::Again(state.skipped(index, 0))
        }
    } else if finished && above < pending.len() && pending[above].emptiness() == Poll::Ready(true) {
        Turn::Again(state.advanced(above))
    } else if finished && pending.len() == 0 {
        Turn::Done(state, Poll::Ready(Ok(None)))
    } else {
        Turn::Done(state, Poll::Pending)
    }
}

/// One turn of a consumer.
pub open spec fn turn<F: Container, D: FrameDecrypter>(
    format: &F,
    state: StateOf<D>,
    finished: bool,
) -> Turn<D::State> {
    let (checked, reset) = detected::<F, D>(format, state);
    if reset {
        Turn::Again(checked)
    } else {
        let (read, result) = front::<F, D>(format, settled::<F, D>(format, checked));
        match result {
            Some(turn) => turn,
            None => {
                let (looked, view) = outlook::<F, D>(format, read);
                decided::<F, D>(looked, view, finished)
            },
        }
    }
}

/// What a consumer comes to, turn after turn.
pub open spec fn run<F: Container, D: FrameDecrypter>(
    format: &F,
    state: StateOf<D>,
    finished: bool,
) -> (StateOf<D>, EventOutcome)
    decreases beyond_edge(state), state.pending.len(), beyond_cursor(state),
{
    proof {
        lemma_turn::<F, D>(format, state, finished);
    }
    match turn::<F, D>(format, state, finished) {
        Turn::Again(next) => run::<F, D>(format, next, finished),
        Turn::Done(next, outcome) => (next, outcome),
    }
}

/// What asking a consumer for an event comes to.
pub open spec fn event<F: Container, D: FrameDecrypter>(
    format: &F,
    state: StateOf<D>,
) -> (StateOf<D>, EventOutcome) {
    let taken = state.received();
    match taken.track.rest() {
        Poll::Ready(Err(error)) => (taken, Poll::Ready(Err(Error::Moq(error)))),
        rest => run::<F, D>(format, latched::<F, D>(format, taken).reaped(), rest is Ready),
    }
}

/// What came of asking for a frame: the frame, the end of the track, an error, or
/// nothing yet.
pub type FrameReadOutcome = Poll<Result<Option<FrameView>, Error>>;

/// The outcome of asking for a frame, with the frame by its view.
pub open spec fn frame_outcome(read: Poll<Result<Option<Frame>, Error>>) -> FrameReadOutcome {
    match read {
        Poll::Ready(Ok(Some(frame))) => Poll::Ready(Ok(Some(frame@))),
        Poll::Ready(Ok(None)) => Poll::Ready(Ok(None)),
        Poll::Ready(Err(error)) => Poll::Ready(Err(error)),
        Poll::Pending => Poll::Pending,
    }
}

/// What asking a consumer for a media frame comes to.
///
/// Markers and group boundaries are passed over; where the track is audio, a
/// marker leaves the end that it announces.
pub open spec fn next_frame<F: Container, D: FrameDecrypter>(
    format: &F,
    state: StateOf<D>,
) -> (StateOf<D>, FrameReadOutcome)
    decreases
            state.track.arrived.len(),
            state.pending.len(),
            wires(state.pending),
            held(state.pending),
{
    proof {
        lemma_event::<F, D>(format, state);
    }
    let (next, outcome) = event::<F, D>(format, state);
    match outcome {
        Poll::Ready(Ok(Some(EventView::Frame(frame)))) => (next, Poll::Ready(Ok(Some(frame)))),
        Poll::Ready(Ok(Some(EventView::FrameEnd(bound)))) => next_frame::<F, D>(
            format,
            if format.role() == Kind::Audio {
                ConsumerView { end: Some(bound), ..next }
            } else {
                next
            },
        ),
        Poll::Ready(Ok(Some(EventView::GroupEnd))) => next_frame::<F, D>(format, next),
        Poll::Ready(Ok(None)) => (next, Poll::Ready(Ok(None))),
        Poll::Ready(Err(error)) => (next, Poll::Ready(Err(error))),
        Poll::Pending => (next, Poll::Pending),
    }
}

} // verus!
