//! Reading a track in age-bounded presentation order.
//!
//! Groups can arrive out of order, arrive late, be abandoned, or rewind the
//! timeline. A [`Consumer`] reads them in sequence order, waits for a missing or
//! slow group only within its maximum age, and drops what belongs to an epoch
//! that the publisher has left.
use vstd::prelude::*;

use super::buffer::{decrypter_state, delivery, item_outcome, BufferView, GroupBuffer, Item};
use super::progress::{
    beyond_cursor, beyond_edge, held, lemma_delivery, lemma_event, lemma_filter_whole,
    lemma_first_timed, lemma_outlook, lemma_turn, wires,
};
use super::schedule::{
    breaks, classified, decided, detected, earliest_at, event, event_outcome, find_reset,
    first_above, first_timed, frame_outcome, front, index_of, insertion_point, known, last_timed,
    latched, latest_at, next_frame, outlook, readable, run, settled, survives, turn, ConsumerView,
    Event, Outlook, Reset, Rewind, StateOf, Turn,
};
use super::track_laws::{law_events_keep_order, law_reading_keeps_order};
use super::{Container, Frame, FrameDecrypter, Kind};
use crate::error::Error;
use crate::net::{
    self, position_of, with_event, GroupEvent, GroupView, Subscriber, SubscriberView, Subscription,
};
use crate::poll::Poll;
use crate::time::{Duration, Timestamp};

verus! {

/// Reads a track as a stream of media frames in age-bounded presentation order.
#[derive(Debug)]
pub struct Consumer<F: Container, D: FrameDecrypter> {
    track: Subscriber,
    format: F,
    current: u64,
    pending: Vec<GroupBuffer>,
    startup: bool,
    max_age: Duration,
    rewind: Rewind,
    end: Option<Timestamp>,
    decrypter: Option<D>,
}

/// The views of a run of buffers.
pub open spec fn buffer_views(buffers: Seq<GroupBuffer>) -> Seq<BufferView> {
    buffers.map_values(|buffer: GroupBuffer| buffer@)
}

impl<F: Container, D: FrameDecrypter> View for Consumer<F, D> {
    type V = StateOf<D>;

    closed spec fn view(&self) -> StateOf<D> {
        ConsumerView {
            track: self.track@,
            current: self.current,
            pending: buffer_views(self.pending@),
            startup: self.startup,
            max_age: self.max_age,
            rewind: self.rewind,
            end: self.end,
            decrypter: decrypter_state(self.decrypter),
        }
    }
}

impl<F: Container, D: FrameDecrypter> Consumer<F, D> {
    /// The format that the track is decoded with.
    pub closed spec fn format(self) -> F {
        self.format
    }

    /// A consumer of `track`, decoded with `format`.
    pub fn new(track: Subscriber, format: F) -> (r: Consumer<F, D>)
        ensures
            r@ == ConsumerView::<D::State>::begun(track@),
            r.format() == format,
            r@.ordered(),
    {
        let subscription = track.subscription();
        let max_age = subscription.max_age.min(track.info().max_age);
        let r = Consumer {
            track,
            format,
            current: match subscription.start {
                Some(group) => group,
                None => 0,
            },
            pending: Vec::new(),
            startup: subscription.start.is_none(),
            max_age,
            rewind: Rewind { live_edge: None, boundary: None, discontinuity: 0 },
            end: None,
            decrypter: None,
        };
        assert(r@.pending =~= Seq::empty());
        r
    }

    /// The consumer with payloads opened by `decrypter`.
    pub fn with_decrypter(self, decrypter: D) -> (r: Consumer<F, D>)
        ensures
            r@ == (ConsumerView { decrypter: Some(decrypter.state()), ..self@ }),
            r.format() == self.format(),
    {
        let mut consumer = self;
        consumer.decrypter = Some(decrypter);
        consumer
    }

    /// A counter that grows each time the timeline breaks: at a declared
    /// discontinuity, and at a detected rewind.
    pub fn discontinuity(&self) -> (r: u64)
        ensures
            r == self@.rewind.discontinuity,
    {
        self.rewind.discontinuity
    }

    /// The exclusive end of the audio delivered so far, where it was announced.
    pub fn end(&self) -> (r: Option<Timestamp>)
        ensures
            r == self@.end,
    {
        self.end
    }

    /// How far a group may fall behind the newest one before it is skipped.
    pub fn max_age(&self) -> (r: Duration)
        ensures
            r == self@.max_age,
    {
        self.max_age
    }

    /// What the consumer asks of the track.
    pub fn subscription(&self) -> (r: Subscription)
        ensures
            r == self@.track.subscription,
    {
        self.track.subscription()
    }

    /// Announces a new group of the track. False once the track has ended.
    pub fn announce(&mut self, sequence: u64) -> (r: bool)
        ensures
            r == (old(self)@.track.closed is None),
            final(self)@ == (if r {
                ConsumerView {
                    track: SubscriberView {
                        arrived: old(self)@.track.arrived.push(GroupView::opened(sequence)),
                        ..old(self)@.track
                    },
                    ..old(self)@
                }
            } else {
                old(self)@
            }),
            final(self).format() == old(self).format(),
    {
        self.track.announce(sequence)
    }

    /// Ends the track: cleanly with `Ok`, early with an error. False where it
    /// had ended before.
    pub fn close(&mut self, result: Result<(), net::Error>) -> (r: bool)
        ensures
            r == (old(self)@.track.closed is None),
            final(self)@ == (if r {
                ConsumerView {
                    track: SubscriberView { closed: Some(result), ..old(self)@.track },
                    ..old(self)@
                }
            } else {
                old(self)@
            }),
            final(self).format() == old(self).format(),
    {
        self.track.close(result)
    }

    /// Hands an event of the transport to the group with the given sequence
    /// number. False where there is none, or it does not take the event.
    pub fn receive(&mut self, sequence: u64, event: GroupEvent) -> (r: bool)
        ensures
            ({
                let arrived = old(self)@.track.arrived;
                let index = position_of(arrived, sequence);
                if index < arrived.len() {
                    &&& r == arrived[index].after(event@).1
                    &&& final(self)@ == (ConsumerView {
                        track: SubscriberView {
                            arrived: with_event(arrived, index, event@),
                            ..old(self)@.track
                        },
                        ..old(self)@
                    })
                } else {
                    (final(self)@, r) == old(self)@.told(sequence, event@)
                }
            }),
            final(self).format() == old(self).format(),
            old(self)@.ordered() ==> final(self)@.ordered(),
    {
        let ghost view = event@;
        let held = match self.track.apply(sequence, event) {
            Ok(taken) => return taken,
            Err(event) => event,
        };
        let mut index: usize = 0;
        while index < self.pending.len()
            invariant
                index <= self.pending@.len(),
                self@ == old(self)@,
                self.format == old(self).format,
                event@ == view,
                held@ == view,
                index_of(self@.pending, 0, sequence) == index_of(
                    self@.pending,
                    index as int,
                    sequence,
                ),
                position_of(self@.track.arrived, sequence) >= self@.track.arrived.len(),
            decreases self.pending@.len() - index,
        {
            assert(self@.pending[index as int] == self.pending@[index as int]@);
            if self.pending[index].sequence() == sequence {
                let taken = self.pending[index].apply(held);
                assert(self@ =~= old(self)@.told(sequence, view).0);
                return taken;
            }
            index = index + 1;
        }
        false
    }

    /// Sets the maximum age in mid-stream, within what the publisher allows.
    pub fn set_max_age(&mut self, max_age: Duration)
        ensures
            final(self)@ == (ConsumerView {
                max_age: max_age.shortest(old(self)@.track.info.max_age),
                track: SubscriberView {
                    subscription: Subscription { max_age, ..old(self)@.track.subscription },
                    ..old(self)@.track
                },
                ..old(self)@
            }),
            final(self).format() == old(self).format(),
    {
        self.max_age = max_age.min(self.track.info().max_age);
        let subscription = self.track.subscription().with_max_age(max_age);
        self.track.update(subscription);
    }

    /// Looks for the earliest timestamp of one group at hand.
    fn poll_min_timestamp(&mut self, index: usize) -> (r: Poll<Result<Timestamp, Error>>)
        requires
            index < old(self)@.pending.len(),
        ensures
            (final(self)@, known(r)) == earliest_at::<F, D>(
                &old(self).format(),
                old(self)@,
                index as int,
            ),
            final(self).format() == old(self).format(),
    {
        let ghost state = self@;
        let found = self.pending[index].poll_min_timestamp(&self.format, &mut self.decrypter);
        assert(self@ =~= earliest_at::<F, D>(&self.format, state, index as int).0);
        found
    }

    /// Looks for the latest timestamp of one group at hand.
    fn poll_max_timestamp(&mut self, index: usize) -> (r: Poll<Result<Timestamp, Error>>)
        requires
            index < old(self)@.pending.len(),
        ensures
            (final(self)@, known(r)) == latest_at::<F, D>(
                &old(self).format(),
                old(self)@,
                index as int,
            ),
            final(self).format() == old(self).format(),
    {
        let ghost state = self@;
        let found = self.pending[index].poll_max_timestamp(&self.format, &mut self.decrypter);
        assert(self@ =~= latest_at::<F, D>(&self.format, state, index as int).0);
        found
    }

    /// Takes the next item of the first group at hand.
    fn poll_read_group(&mut self) -> (r: Poll<Result<Option<Item>, Error>>)
        requires
            old(self)@.pending.len() > 0,
        ensures
            ({
                let (after, item) = delivery::<F, D>(
                    &old(self).format(),
                    old(self)@.reading(0),
                );
                &&& final(self)@ == old(self)@.moved(0, after)
                &&& item_outcome(r) == item
            }),
            final(self).format() == old(self).format(),
    {
        let ghost state = self@;
        let item = self.pending[0].poll_read(&self.format, &mut self.decrypter);
        assert(self@ =~= state.moved(0, delivery::<F, D>(&self.format, state.reading(0)).0));
        item
    }

    /// Takes every announced group from the subscription.
    ///
    /// Ready once the track has ended.
    fn poll_read_finish(&mut self) -> (r: Poll<Result<(), Error>>)
        ensures
            final(self)@ == old(self)@.received(),
            r == (match old(self)@.received().track.rest() {
                Poll::Ready(Ok(_)) => Poll::Ready(Ok::<(), Error>(())),
                Poll::Ready(Err(error)) => Poll::Ready(Err::<(), Error>(Error::Moq(error))),
                Poll::Pending => Poll::Pending,
            }),
            final(self).format() == old(self).format(),
    {
        loop
            invariant
                self@.received() == old(self)@.received(),
                self.format == old(self).format,
            decreases self@.track.arrived.len(),
        {
            let ghost before = self@;
            let group = match self.track.poll_recv_group() {
                Poll::Ready(Ok(Some(group))) => group,
                Poll::Ready(Ok(None)) => return Poll::Ready(Ok(())),
                Poll::Ready(Err(error)) => return Poll::Ready(Err(Error::Moq(error))),
                Poll::Pending => return Poll::Pending,
            };
            let sequence: u64 = group.sequence();
            let discard = match self.rewind.boundary {
                Some(reset) => match reset.by_sequence(sequence) {
                    Some(stale) => stale || sequence < self.current,
                    None => false,
                },
                None => sequence < self.current,
            };
            if !discard {
                let index: usize = self.partition_point(sequence);
                self.pending.insert(index, GroupBuffer::new(group));
                assert(self@.pending =~= before.with_group(group@).pending);
            }
        }
    }

    /// How many groups at the front have a sequence number below `sequence`.
    fn partition_point(&self, sequence: u64) -> (r: usize)
        ensures
            r == insertion_point(self@.pending, sequence),
            r <= self@.pending.len(),
    {
        let mut index: usize = 0;
        assert(self@.pending.skip(0) =~= self@.pending);
        while index < self.pending.len() && self.pending[index].sequence() < sequence
            invariant
                index <= self.pending@.len(),
                insertion_point(self@.pending, sequence) == index + insertion_point(
                    self@.pending.skip(index as int),
                    sequence,
                ),
            decreases self.pending@.len() - index,
        {
            assert(self@.pending.skip(index as int).drop_first() =~= self@.pending.skip(
                index + 1,
            ));
            index = index + 1;
        }
        index
    }

    /// Looks for the first group above the floor that has a timestamp.
    fn poll_first_timed(&mut self, floor: Option<u64>) -> (r: Option<(usize, Timestamp)>)
        ensures
            ({
                let (next, found) = first_timed::<F, D>(
                    &old(self).format(),
                    old(self)@,
                    0,
                    floor,
                );
                &&& final(self)@ == next
                &&& match (r, found) {
                    (Some((index, timestamp)), Some(found)) => found == (
                        index as int,
                        timestamp,
                    ),
                    (None, None) => true,
                    _ => false,
                }
            }),
            final(self).format() == old(self).format(),
    {
        let mut index: usize = 0;
        while index < self.pending.len()
            invariant
                self.format == old(self).format,
                first_timed::<F, D>(&old(self).format, old(self)@, 0, floor) == first_timed::<
                    F,
                    D,
                >(&self.format, self@, index as int, floor),
            decreases self@.pending.len() - index,
        {
            let below = match floor {
                Some(floor) => self.pending[index].sequence() <= floor,
                None => false,
            };
            if !below {
                if let Poll::Ready(Ok(timestamp)) = self.poll_min_timestamp(index) {
                    return Some((index, timestamp));
                }
            }
            index = index + 1;
        }
        None
    }

    /// Looks back from the newest group to the floor for the latest timestamp.
    fn poll_last_timed(&mut self, floor: u64) -> (r: Option<Timestamp>)
        ensures
            (final(self)@, r) == last_timed::<F, D>(
                &old(self).format(),
                old(self)@,
                old(self)@.pending.len() as int,
                floor,
            ),
            final(self).format() == old(self).format(),
    {
        let mut count: usize = self.pending.len();
        while count > 0
            invariant
                count <= self@.pending.len(),
                self.format == old(self).format,
                last_timed::<F, D>(
                    &old(self).format,
                    old(self)@,
                    old(self)@.pending.len() as int,
                    floor,
                ) == last_timed::<F, D>(&self.format, self@, count as int, floor),
            decreases count,
        {
            assert(self@.pending[count - 1] == self.pending@[count - 1]@);
            if self.pending[count - 1].sequence() <= floor {
                return None;
            }
            if let Poll::Ready(Ok(timestamp)) = self.poll_max_timestamp(count - 1) {
                return Some(timestamp);
            }
            count = count - 1;
        }
        None
    }

    /// Looks back from the newest group for one that starts before the live edge.
    fn find_reset(&mut self, prev_max: u64, live_edge: Timestamp) -> (r: Option<Reset>)
        ensures
            (final(self)@, r) == find_reset::<F, D>(
                &old(self).format(),
                old(self)@,
                old(self)@.pending.len() as int,
                prev_max,
                live_edge,
            ),
            final(self).format() == old(self).format(),
    {
        let mut count: usize = self.pending.len();
        while count > 0
            invariant
                count <= self@.pending.len(),
                self.format == old(self).format,
                find_reset::<F, D>(
                    &old(self).format,
                    old(self)@,
                    old(self)@.pending.len() as int,
                    prev_max,
                    live_edge,
                ) == find_reset::<F, D>(&self.format, self@, count as int, prev_max, live_edge),
            decreases count,
        {
            assert(self@.pending[count - 1] == self.pending@[count - 1]@);
            let group: u64 = self.pending[count - 1].sequence();
            if group <= prev_max {
                return None;
            }
            if let Poll::Ready(Ok(timestamp)) = self.poll_min_timestamp(count - 1) {
                if timestamp.before(live_edge) {
                    return Some(Reset { prev_max, group, timestamp });
                }
            }
            count = count - 1;
        }
        None
    }

    /// Latches the cursor onto the first group that is served, where the
    /// subscription names no start.
    fn latch(&mut self)
        ensures
            final(self)@ == latched::<F, D>(&old(self).format(), old(self)@),
            final(self).format() == old(self).format(),
    {
        if !self.startup {
            return;
        }
        proof {
            lemma_first_timed::<F, D>(&self.format, self@, 0, None);
        }
        if self.poll_first_timed(None).is_some() {
            assert(self@.pending[0] == self.pending@[0]@);
            self.current = self.pending[0].sequence();
            self.startup = false;
        }
    }

    /// Lets go of the groups beyond the cursor that can never be read.
    fn reap(&mut self)
        ensures
            final(self)@ == old(self)@.reaped(),
            final(self).format() == old(self).format(),
    {
        let ghost keep = readable(self.current);
        let ghost start = self@;
        let mut index: usize = 0;
        while index < self.pending.len()
            invariant
                index <= self.pending@.len(),
                keep == readable(self.current),
                self@ == (ConsumerView { pending: self@.pending, ..start }),
                self.format == old(self).format,
                forall|i: int| 0 <= i < index ==> keep(#[trigger] self@.pending[i]),
                self@.pending.filter(keep) == start.pending.filter(keep),
            decreases self.pending@.len() - index,
        {
            let ghost before = self@.pending;
            assert(before[index as int] == self.pending@[index as int]@);
            if self.pending[index].sequence() <= self.current || self.pending[index].has_media()
                || !self.pending[index].poll_aborted() {
                index = index + 1;
            } else {
                let _ = self.pending.remove(index);
                assert(self@.pending =~= before.remove(index as int));
                proof {
                    lemma_filter_without(before, keep, index as int);
                }
            }
        }
        proof {
            lemma_filter_whole(self@.pending, keep);
        }
    }

    /// Detects a rewind of the timeline, and restarts from it.
    fn poll_reset(&mut self) -> (r: bool)
        ensures
            (final(self)@, r) == detected::<F, D>(&old(self).format(), old(self)@),
            final(self).format() == old(self).format(),
    {
        let (prev_max, live_edge) = match self.rewind.live_edge {
            Some(edge) => edge,
            None => return false,
        };
        let reset = match self.find_reset(prev_max, live_edge) {
            Some(reset) => reset,
            None => return false,
        };
        self.restart(reset);
        true
    }

    /// Drops the epoch that the publisher left, and reads on from the new one.
    fn restart(&mut self, reset: Reset)
        ensures
            final(self)@ == old(self)@.restarted(reset),
            final(self).format() == old(self).format(),
    {
        let ghost keep = survives(reset);
        let ghost start = self@;
        let mut index: usize = 0;
        while index < self.pending.len()
            invariant
                index <= self.pending@.len(),
                keep == survives(reset),
                self@ == (ConsumerView { pending: self@.pending, ..start }),
                self.format == old(self).format,
                forall|i: int| 0 <= i < index ==> keep(#[trigger] self@.pending[i]),
                self@.pending.filter(keep) == start.pending.filter(keep),
            decreases self.pending@.len() - index,
        {
            let ghost before = self@.pending;
            assert(before[index as int] == self.pending@[index as int]@);
            let sequence: u64 = self.pending[index].sequence();
            let kept = match reset.by_sequence(sequence) {
                Some(stale) => !stale,
                None => match self.pending[index].min_timestamp() {
                    Some(timestamp) => !reset.is_stale(sequence, timestamp),
                    None => true,
                },
            };
            if kept {
                index = index + 1;
            } else {
                let _ = self.pending.remove(index);
                assert(self@.pending =~= before.remove(index as int));
                proof {
                    lemma_filter_without(before, keep, index as int);
                }
            }
        }
        proof {
            lemma_filter_whole(self@.pending, keep);
        }
        self.rewind = Rewind {
            live_edge: Some((reset.group, reset.timestamp)),
            boundary: Some(reset),
            discontinuity: self.rewind.discontinuity.saturating_add(1),
        };
        self.end = None;
        self.current = if self.pending.len() > 0 {
            assert(self@.pending[0] == self.pending@[0]@);
            self.pending[0].sequence()
        } else {
            reset.group
        };
    }

    /// Judges the groups left open by a rewind.
    fn poll_classify(&mut self)
        ensures
            final(self)@ == settled::<F, D>(&old(self).format(), old(self)@),
            final(self).format() == old(self).format(),
    {
        let reset = match self.rewind.boundary {
            Some(reset) => reset,
            None => return,
        };
        let mut index: usize = 0;
        while index < self.pending.len()
            invariant
                self.format == old(self).format,
                classified::<F, D>(&old(self).format, old(self)@, reset, 0) == classified::<F, D>(
                    &self.format,
                    self@,
                    reset,
                    index as int,
                ),
                old(self)@.rewind.boundary == Some(reset),
            decreases self@.pending.len() - index,
        {
            assert(self@.pending[index as int] == self.pending@[index as int]@);
            let sequence: u64 = self.pending[index].sequence();
            if reset.by_sequence(sequence).is_some() {
                index = index + 1;
                continue;
            }
            let stale = match self.poll_min_timestamp(index) {
                Poll::Ready(Ok(timestamp)) => reset.is_stale(sequence, timestamp),
                _ => false,
            };
            if stale {
                let ghost before = self@;
                let _ = self.pending.remove(index);
                assert(self@ =~= (ConsumerView {
                    pending: before.pending.remove(index as int),
                    ..before
                }));
            } else {
                index = index + 1;
            }
        }
    }

    /// Notes `count` declared breaks of the timeline.
    fn mark_discontinuities(&mut self, count: u64)
        ensures
            final(self)@ == old(self)@.broken(count as nat),
            final(self).format() == old(self).format(),
    {
        if count == 0 {
            return;
        }
        self.rewind = Rewind {
            live_edge: None,
            boundary: None,
            discontinuity: self.rewind.discontinuity.saturating_add(count),
        };
        self.end = None;
    }

    /// Reads from the first group, where it is at or below the cursor.
    ///
    /// `None` where there is nothing to read yet; `Some(None)` where the group was
    /// given up.
    fn poll_front(&mut self) -> (r: Option<Option<Poll<Result<Option<Event>, Error>>>>)
        ensures
            ({
                let (next, turn) = front::<F, D>(&old(self).format(), old(self)@);
                match turn {
                    Some(turn) => r is Some && took(turn, final(self)@, r->Some_0),
                    None => r is None && final(self)@ == next,
                }
            }),
            final(self).format() == old(self).format(),
    {
        if self.pending.len() == 0 {
            return None;
        }
        assert(self@.pending[0] == self.pending@[0]@);
        let sequence: u64 = self.pending[0].sequence();
        if sequence > self.current {
            return None;
        }
        proof {
            lemma_delivery::<F, D>(&self.format, self@.reading(0));
        }
        match self.poll_read_group() {
            Poll::Ready(Ok(Some(Item::Frame(frame)))) => {
                self.note_delivered(sequence, frame.timestamp);
                Some(Some(Poll::Ready(Ok(Some(Event::Frame(frame))))))
            },
            Poll::Ready(Ok(Some(Item::End(bound)))) => Some(
                Some(Poll::Ready(Ok(Some(Event::FrameEnd(bound))))),
            ),
            Poll::Ready(Ok(None)) => {
                self.pass();
                Some(Some(Poll::Ready(Ok(Some(Event::GroupEnd)))))
            },
            Poll::Ready(Err(error)) => {
                assert(self@.pending[0] == self.pending@[0]@);
                if !self.pending[0].poll_aborted() {
                    return Some(Some(Poll::Ready(Err(error))));
                }
                self.evict();
                Some(None)
            },
            Poll::Pending => None,
        }
    }

    /// Notes that a media frame of the first group was delivered.
    fn note_delivered(&mut self, sequence: u64, timestamp: Timestamp)
        requires
            old(self)@.pending.len() > 0,
            sequence == old(self)@.pending[0].group.sequence,
        ensures
            final(self)@ == old(self)@.delivered(timestamp),
            final(self).format() == old(self).format(),
    {
        let later = match self.rewind.live_edge {
            Some((_, edge)) => edge.before(timestamp),
            None => true,
        };
        if later {
            self.rewind.live_edge = Some((sequence, timestamp));
        }
    }

    /// Moves on from the first group, which ended cleanly.
    fn pass(&mut self)
        requires
            old(self)@.pending.len() > 0,
        ensures
            final(self)@ == old(self)@.passed(),
            final(self).format() == old(self).format(),
    {
        let ghost before = self@;
        assert(before.pending[0] == self.pending@[0]@);
        let group = self.pending.remove(0);
        assert(self@.pending =~= before.pending.drop_first());
        let next: u64 = group.sequence().saturating_add(1);
        if next > self.current {
            self.current = next;
        }
        if group.is_empty() && self.rewind.live_edge.is_some() {
            self.mark_discontinuities(1);
        }
    }

    /// Moves on from the first group, which the transport gave up.
    fn evict(&mut self)
        requires
            old(self)@.pending.len() > 0,
        ensures
            final(self)@ == old(self)@.evicted(),
            final(self).format() == old(self).format(),
    {
        let ghost before = self@;
        let _ = self.pending.remove(0);
        assert(self@.pending =~= before.pending.drop_first());
        self.current = if self.pending.len() > 0 {
            assert(self@.pending[0] == self.pending@[0]@);
            self.pending[0].sequence()
        } else {
            self.current.saturating_add(1)
        };
    }

    /// Counts the first `count` groups that declare a break of the timeline.
    ///
    /// `None` while that is open for one of them.
    fn poll_breaks(&self, count: usize) -> (r: Option<u64>)
        requires
            count <= self@.pending.len(),
        ensures
            match (r, breaks(self@.pending, count as nat)) {
                (Some(found), Some(expected)) => found == expected,
                (None, None) => true,
                _ => false,
            },
    {
        let mut found: u64 = 0;
        let mut index: usize = 0;
        while index < count
            invariant
                index <= count <= self@.pending.len(),
                breaks(self@.pending, index as nat) == Some(found as nat),
                found <= index,
            decreases count - index,
        {
            assert(self@.pending[index as int] == self.pending@[index as int]@);
            match self.pending[index].poll_empty() {
                Poll::Ready(empty) => {
                    if empty {
                        found = found + 1;
                    }
                },
                Poll::Pending => {
                    proof {
                        lemma_breaks_open(self@.pending, (index + 1) as nat, count as nat);
                    }
                    return None;
                },
            }
            index = index + 1;
        }
        Some(found)
    }

    /// Skips the groups before `index`, `count` of them declared breaks.
    fn skip(&mut self, index: usize, count: u64)
        requires
            index < old(self)@.pending.len(),
        ensures
            final(self)@ == old(self)@.skipped(index as int, count as nat),
            final(self).format() == old(self).format(),
    {
        let ghost before = self@;
        let rest = self.pending.split_off(index);
        self.pending = rest;
        assert(self@.pending =~= before.pending.skip(index as int));
        self.mark_discontinuities(count);
        assert(self@.pending[0] == self.pending@[0]@);
        self.current = self.pending[0].sequence();
    }

    /// Looks at the groups at hand, once nothing more can be read from the first.
    fn poll_outlook(&mut self) -> (r: Horizon)
        ensures
            (final(self)@, r@) == outlook::<F, D>(&old(self).format(), old(self)@),
            r.next matches Some((index, _)) ==> index < final(self)@.pending.len(),
            final(self).format() == old(self).format(),
    {
        proof {
            lemma_outlook::<F, D>(&self.format, self@);
        }
        let current: u64 = self.current;
        let mut oldest: Option<Duration> = None;
        let mut reached: Option<Duration> = None;
        if self.pending.len() > 0 {
            assert(self@.pending[0] == self.pending@[0]@);
            if self.pending[0].sequence() <= current {
                if let Poll::Ready(Ok(timestamp)) = self.poll_min_timestamp(0) {
                    assert(self@.pending[0] == self.pending@[0]@);
                    oldest = Some(timestamp.as_duration());
                    reached = self.pending[0].max_end();
                }
            }
        }
        let next = match self.poll_first_timed(Some(current)) {
            Some((index, timestamp)) => Some((index, timestamp.as_duration())),
            None => None,
        };
        let newest = match self.poll_last_timed(current) {
            Some(timestamp) => timestamp.as_duration(),
            None => Duration { nanos: 0 },
        };
        Horizon { oldest, reached, next, newest }
    }

    /// Decides between waiting, jumping a gap, skipping, and the end of the track.
    ///
    /// `None` to take another turn.
    fn decide(&mut self, view: Horizon, finished: bool) -> (r: Option<
        Poll<Result<Option<Event>, Error>>,
    >)
        requires
            view.next matches Some((index, _)) ==> index < old(self)@.pending.len(),
        ensures
            took(decided::<F, D>(old(self)@, view@, finished), final(self)@, r),
            final(self).format() == old(self).format(),
    {
        if self.pending.len() > 0 {
            assert(self@.pending[0] == self.pending@[0]@);
            let first: u64 = self.pending[0].sequence();
            if first > self.current {
                if let Some((_, start)) = view.next {
                    if finished || view.overdue(start, self.max_age) {
                        self.current = first;
                        return None;
                    }
                }
            }
        }
        if let Some((index, _)) = view.next {
            if view.skips(self.max_age) {
                let mut count: u64 = 0;
                if self.rewind.live_edge.is_some() {
                    match self.poll_breaks(index) {
                        Some(found) => count = found,
                        None => return Some(Poll::Pending),
                    }
                }
                self.skip(index, count);
                return None;
            }
        }
        if finished {
            let index: usize = self.first_above();
            if index < self.pending.len() {
                assert(self@.pending[index as int] == self.pending@[index as int]@);
                if let Poll::Ready(true) = self.pending[index].poll_empty() {
                    self.current = self.pending[index].sequence();
                    return None;
                }
            }
            if self.pending.len() == 0 {
                return Some(Poll::Ready(Ok(None)));
            }
        }
        Some(Poll::Pending)
    }

    /// The index of the first group beyond the cursor, or the length.
    fn first_above(&self) -> (r: usize)
        ensures
            r == first_above(self@.pending, 0, self@.current),
            r <= self@.pending.len(),
    {
        let mut index: usize = 0;
        while index < self.pending.len() && self.pending[index].sequence() <= self.current
            invariant
                index <= self.pending@.len(),
                first_above(self@.pending, 0, self@.current) == first_above(
                    self@.pending,
                    index as int,
                    self@.current,
                ),
            decreases self.pending@.len() - index,
        {
            index = index + 1;
        }
        index
    }

    /// Takes one turn; `None` to take another.
    fn take_turn(&mut self, finished: bool) -> (r: Option<Poll<Result<Option<Event>, Error>>>)
        ensures
            took(
                turn::<F, D>(&old(self).format(), old(self)@, finished),
                final(self)@,
                r,
            ),
            final(self).format() == old(self).format(),
    {
        if self.poll_reset() {
            return None;
        }
        self.poll_classify();
        if let Some(result) = self.poll_front() {
            return result;
        }
        let view = self.poll_outlook();
        self.decide(view, finished)
    }

    /// Reads media, a marker, or a clean group boundary, without waiting for a
    /// successor of the group.
    ///
    /// `None` once the track has ended and everything was read.
    pub fn poll_event(&mut self) -> (r: Poll<Result<Option<Event>, Error>>)
        ensures
            (final(self)@, event_outcome(r)) == event::<F, D>(&old(self).format(), old(self)@),
            final(self).format() == old(self).format(),
            old(self)@.ordered() ==> final(self)@.ordered(),
    {
        let ghost format = self.format;
        proof {
            law_events_keep_order::<F, D>(&format, self@);
        }
        let finished = match self.poll_read_finish() {
            Poll::Ready(Ok(_)) => true,
            Poll::Ready(Err(error)) => return Poll::Ready(Err(error)),
            Poll::Pending => false,
        };
        self.latch();
        self.reap();
        let ghost start = self@;
        loop
            invariant
                self.format == format,
                format == old(self).format,
                run::<F, D>(&format, self@, finished) == run::<F, D>(&format, start, finished),
                event::<F, D>(&format, old(self)@) == run::<F, D>(&format, start, finished),
                old(self)@.ordered() ==> event::<F, D>(&format, old(self)@).0.ordered(),
            decreases beyond_edge(self@), self@.pending.len(), beyond_cursor(self@),
        {
            proof {
                lemma_turn::<F, D>(&format, self@, finished);
            }
            if let Some(result) = self.take_turn(finished) {
                return result;
            }
        }
    }

    /// Reads the next media frame of the track.
    ///
    /// `None` once the track has ended and everything was read.
    pub fn poll_read(&mut self) -> (r: Poll<Result<Option<Frame>, Error>>)
        ensures
            (final(self)@, frame_outcome(r)) == next_frame::<F, D>(
                &old(self).format(),
                old(self)@,
            ),
            final(self).format() == old(self).format(),
            old(self)@.ordered() ==> final(self)@.ordered(),
    {
        let ghost format = self.format;
        proof {
            law_reading_keeps_order::<F, D>(&format, self@);
        }
        loop
            invariant
                self.format == format,
                format == old(self).format,
                next_frame::<F, D>(&format, self@) == next_frame::<F, D>(&format, old(self)@),
                old(self)@.ordered() ==> next_frame::<F, D>(&format, old(self)@).0.ordered(),
            decreases
                    self@.track.arrived.len(),
                    self@.pending.len(),
                    wires(self@.pending),
                    held(self@.pending),
        {
            proof {
                lemma_event::<F, D>(&format, self@);
            }
            match self.poll_event() {
                Poll::Ready(Ok(Some(Event::Frame(frame)))) => return Poll::Ready(Ok(Some(frame))),
                Poll::Ready(Ok(Some(Event::FrameEnd(bound)))) => {
                    if self.format.kind() == Kind::Audio {
                        self.end = Some(bound);
                    }
                },
                Poll::Ready(Ok(Some(Event::GroupEnd))) => {},
                Poll::Ready(Ok(None)) => return Poll::Ready(Ok(None)),
                Poll::Ready(Err(error)) => return Poll::Ready(Err(error)),
                Poll::Pending => return Poll::Pending,
            }
        }
    }
}

/// Whether a turn went as it should: another turn follows, or the result is
/// there.
pub open spec fn took<S>(
    turn: Turn<S>,
    after: ConsumerView<S>,
    result: Option<Poll<Result<Option<Event>, Error>>>,
) -> bool {
    match turn {
        Turn::Again(next) => result is None && after == next,
        Turn::Done(next, outcome) => result is Some && after == next && event_outcome(
            result->Some_0,
        ) == outcome,
    }
}

/// What is known of the groups at hand once nothing more can be read from the
/// first one.
struct Horizon {
    oldest: Option<Duration>,
    reached: Option<Duration>,
    next: Option<(usize, Duration)>,
    newest: Duration,
}

impl View for Horizon {
    type V = Outlook;

    closed spec fn view(&self) -> Outlook {
        Outlook {
            oldest: self.oldest,
            reached: self.reached,
            next: match self.next {
                Some((index, start)) => Some((index as int, start)),
                None => None,
            },
            newest: self.newest,
        }
    }
}

impl Horizon {
    /// Whether the span from `start` to the newest group uses up `max_age`.
    fn overdue(&self, start: Duration, max_age: Duration) -> (r: bool)
        ensures
            r == self@.overdue(start, max_age),
    {
        self.newest.saturating_sub(start).nanos >= max_age.nanos
    }

    /// Whether the group being read is to be skipped for the next one.
    fn skips(&self, max_age: Duration) -> (r: bool)
        ensures
            r == self@.skips(max_age),
    {
        let start = match self.next {
            Some((_, start)) => start,
            None => return false,
        };
        match self.oldest {
            Some(oldest) => {
                let covered = match self.reached {
                    Some(reached) => reached.nanos >= start.nanos,
                    None => false,
                };
                covered || self.overdue(oldest, max_age)
            },
            None => self.overdue(start, max_age),
        }
    }
}

/// A count of breaks stays open once it is open.
proof fn lemma_breaks_open(pending: Seq<BufferView>, some: nat, all: nat)
    requires
        some <= all,
        breaks(pending, some) is None,
    ensures
        breaks(pending, all) is None,
    decreases all,
{
    if some < all {
        lemma_breaks_open(pending, some, (all - 1) as nat);
    }
}

/// A filter does not see what it drops.
proof fn lemma_filter_without(
    pending: Seq<BufferView>,
    keep: spec_fn(BufferView) -> bool,
    index: int,
)
    requires
        0 <= index < pending.len(),
        !keep(pending[index]),
    ensures
        pending.remove(index).filter(keep) == pending.filter(keep),
    decreases pending.len(),
{
    reveal(Seq::filter);
    if index < pending.len() - 1 {
        lemma_filter_without(pending.drop_last(), keep, index);
        assert(pending.remove(index).drop_last() =~= pending.drop_last().remove(index));
    } else {
        assert(pending.remove(index) =~= pending.drop_last());
    }
}

} // verus!
