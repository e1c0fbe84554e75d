//! What a reader holds of the transport: groups of wire frames on a track.
//!
//! A track is a run of groups, each with a sequence number; a group is a run of
//! wire frames that ends cleanly or is aborted. The types here hold what has
//! been received, so that the readers above them are functions of plain values.
use std::collections::VecDeque;

use vstd::prelude::*;

use crate::poll::Poll;
use crate::time::{Duration, Timescale, Timestamp, MICROS_PER_SECOND};

verus! {

/// The most bytes that a frame may hold, and that the frames of a group may hold
/// together.
pub const MAX_CACHE_BYTES: u64 = 33_554_432;

/// The most frames that a group may hold.
pub const MAX_GROUP_FRAMES: u32 = 8192;

/// The most frames that a reader takes from a group at once.
pub const BATCH: usize = 8;

/// Why the transport gave up.
#[derive(Debug, Clone, Copy, PartialEq, Eq, Structural)]
pub enum Error {
    /// The publisher or the subscriber went away.
    Cancel,
    /// A write to something that had already ended.
    Closed,
    /// The group aged out before it was read.
    Old,
    /// The other side was dropped without ending cleanly.
    Dropped,
    /// A group ended before anything could be read from it.
    Short,
    /// A frame larger than the transport carries.
    FrameTooLarge,
    /// A group larger than the transport keeps.
    GroupTooLarge,
    /// A timestamp that the track's timescale cannot express.
    TimestampMismatch,
    /// A code sent by the peer.
    Remote(u32),
    /// Any other failure.
    Other,
}

/// A frame as the transport carries it.
#[derive(Debug, Clone)]
pub struct WireFrame {
    pub timestamp: Timestamp,
    pub payload: Vec<u8>,
}

/// What a [`WireFrame`] holds.
#[verifier::ext_equal]
pub struct WireFrameView {
    pub timestamp: Timestamp,
    pub payload: Seq<u8>,
}

impl View for WireFrame {
    type V = WireFrameView;

    open spec fn view(&self) -> WireFrameView {
        WireFrameView { timestamp: self.timestamp, payload: self.payload@ }
    }
}

/// One change to a group, as the transport reports it.
#[derive(Debug, Clone)]
pub enum GroupEvent {
    /// The next frame of the group.
    Frame(WireFrame),
    /// The group ended cleanly.
    Finished,
    /// The group ended early.
    Aborted(Error),
}

/// What a [`GroupEvent`] holds.
#[verifier::ext_equal]
pub enum GroupEventView {
    Frame(WireFrameView),
    Finished,
    Aborted(Error),
}

impl View for GroupEvent {
    type V = GroupEventView;

    open spec fn view(&self) -> GroupEventView {
        match self {
            GroupEvent::Frame(frame) => GroupEventView::Frame(frame@),
            GroupEvent::Finished => GroupEventView::Finished,
            GroupEvent::Aborted(error) => GroupEventView::Aborted(*error),
        }
    }
}

/// One group, with the frames that have been received and not been read.
///
/// A reader takes frames in batches. An abort drops what no batch has taken; the
/// frames of the batch being read are still handed out.
#[derive(Debug)]
pub struct Group {
    sequence: u64,
    timescale: Timescale,
    frames: VecDeque<WireFrame>,
    batch: usize,
    read: u32,
    written: u32,
    bytes: u64,
    finished: bool,
    aborted: Option<Error>,
}

/// What a [`Group`] holds.
#[verifier::ext_equal]
pub struct GroupView {
    /// The number of the group within its track.
    pub sequence: u64,
    /// The ticks per second of the timestamps that are written into it.
    pub timescale: u64,
    /// The frames received and not read, in order.
    pub frames: Seq<WireFrameView>,
    /// How many of them, from the first on, are of the batch being read.
    pub batch: usize,
    /// The number of the next frame to read, counted modulo 2^32.
    pub read: u32,
    /// The number of frames received so far.
    pub written: u32,
    /// The number of bytes received so far.
    pub bytes: u64,
    /// Whether the group ended cleanly, so that every frame has been received.
    pub finished: bool,
    /// The error that ended the group, if one did.
    pub aborted: Option<Error>,
}

/// The views of a run of wire frames.
pub open spec fn wire_views(frames: Seq<WireFrame>) -> Seq<WireFrameView> {
    frames.map_values(|frame: WireFrame| frame@)
}

impl View for Group {
    type V = GroupView;

    closed spec fn view(&self) -> GroupView {
        GroupView {
            sequence: self.sequence,
            timescale: self.timescale.rate(),
            frames: wire_views(self.frames@),
            batch: self.batch,
            read: self.read,
            written: self.written,
            bytes: self.bytes,
            finished: self.finished,
            aborted: self.aborted,
        }
    }
}

/// `number + 1`, counted modulo 2^32.
pub open spec fn next_frame_number(number: u32) -> u32 {
    if number == u32::MAX {
        0
    } else {
        (number + 1) as u32
    }
}

/// The number of bytes that a run of frames holds.
pub open spec fn total_bytes(frames: Seq<WireFrameView>) -> nat
    decreases frames.len(),
{
    if frames.len() == 0 {
        0
    } else {
        total_bytes(frames.drop_last()) + frames.last().payload.len()
    }
}

impl GroupView {
    /// A group of which nothing has been received.
    pub open spec fn opened(sequence: u64) -> GroupView {
        GroupView {
            sequence,
            timescale: MICROS_PER_SECOND,
            frames: Seq::empty(),
            batch: 0,
            read: 0,
            written: 0,
            bytes: 0,
            finished: false,
            aborted: None,
        }
    }

    /// Whether the counters fit the frames, and the limits are kept.
    pub open spec fn well_formed(self) -> bool {
        &&& self.batch <= self.frames.len()
        &&& self.batch < BATCH
        &&& self.read + self.frames.len() <= self.written <= MAX_GROUP_FRAMES
        &&& self.aborted is None ==> self.read + self.frames.len() == self.written
        &&& total_bytes(self.frames) <= self.bytes <= MAX_CACHE_BYTES
    }

    /// The group once its first held frame has been read. Where no batch is being
    /// read, the frame opens one.
    pub open spec fn popped(self) -> GroupView {
        let batch = if self.batch > 0 {
            self.batch as int
        } else if self.frames.len() < BATCH {
            self.frames.len() as int
        } else {
            BATCH as int
        };
        GroupView {
            frames: self.frames.drop_first(),
            batch: (batch - 1) as usize,
            read: next_frame_number(self.read),
            ..self
        }
    }

    /// Whether a frame of `len` bytes more is too much for the group.
    pub open spec fn overflows(self, len: nat) -> bool {
        self.written >= MAX_GROUP_FRAMES || self.bytes + len > MAX_CACHE_BYTES
    }

    /// Why the group does not take a frame of `len` bytes, where it does not.
    pub open spec fn refusal(self, len: nat) -> Option<Error> {
        if len > MAX_CACHE_BYTES {
            Some(Error::FrameTooLarge)
        } else if self.aborted is Some {
            self.aborted
        } else if self.finished {
            Some(Error::Closed)
        } else if self.overflows(len) {
            Some(Error::GroupTooLarge)
        } else {
            None
        }
    }

    /// The group after `frame` was appended to it.
    pub open spec fn with_frame(self, frame: WireFrameView) -> GroupView {
        GroupView {
            frames: self.frames.push(frame),
            written: (self.written + 1) as u32,
            bytes: (self.bytes + frame.payload.len()) as u64,
            ..self
        }
    }

    /// The group after it ended early: only the batch being read is left of it.
    pub open spec fn aborted_by(self, error: Error) -> GroupView {
        GroupView {
            frames: if self.batch < self.frames.len() {
                self.frames.take(self.batch as int)
            } else {
                self.frames
            },
            aborted: Some(error),
            ..self
        }
    }

    /// What taking a frame comes to. A frame that is too much for the group ends it.
    pub open spec fn took(self, frame: WireFrameView) -> (GroupView, Result<(), Error>) {
        match self.refusal(frame.payload.len()) {
            None => (self.with_frame(frame), Ok(())),
            Some(error) => if frame.payload.len() <= MAX_CACHE_BYTES && self.aborted is None
                && !self.finished {
                (self.aborted_by(error), Err(error))
            } else {
                (self, Err(error))
            },
        }
    }

    /// What writing a frame comes to. Its timestamp is taken at the timescale of the
    /// group, where that can hold it.
    pub open spec fn wrote(self, frame: WireFrameView) -> (GroupView, Result<(), Error>) {
        match frame.timestamp.rescaled(self.timescale) {
            Some(timestamp) => self.took(WireFrameView { timestamp, ..frame }),
            None => (self, Err(Error::TimestampMismatch)),
        }
    }

    /// Whether and how the group ended for a reader that stands where it does.
    ///
    /// An abort after the clean end counts only where a frame was not read.
    pub open spec fn end(self) -> Poll<Result<(), Error>> {
        match self.aborted {
            Some(error) => if self.finished && self.read >= self.written {
                Poll::Ready(Ok(()))
            } else {
                Poll::Ready(Err(error))
            },
            None => if self.finished {
                Poll::Ready(Ok(()))
            } else {
                Poll::Pending
            },
        }
    }

    /// The group after `event`, and whether it took it.
    pub open spec fn after(self, event: GroupEventView) -> (GroupView, bool) {
        match event {
            GroupEventView::Frame(frame) => {
                let (group, result) = self.took(frame);
                (group, result is Ok)
            },
            GroupEventView::Finished => if self.aborted is None {
                (GroupView { finished: true, ..self }, true)
            } else {
                (self, false)
            },
            GroupEventView::Aborted(error) => if self.aborted is None {
                (self.aborted_by(error), true)
            } else {
                (self, false)
            },
        }
    }
}

proof fn lemma_total_bytes_first(frames: Seq<WireFrameView>)
    requires
        frames.len() > 0,
    ensures
        total_bytes(frames) == frames[0].payload.len() + total_bytes(frames.drop_first()),
    decreases frames.len(),
{
    if frames.len() > 1 {
        lemma_total_bytes_first(frames.drop_last());
        assert(frames.drop_last().drop_first() =~= frames.drop_first().drop_last());
    } else {
        assert(frames.drop_last() =~= frames.drop_first());
    }
}

proof fn lemma_total_bytes_take(frames: Seq<WireFrameView>, count: int)
    requires
        0 <= count <= frames.len(),
    ensures
        total_bytes(frames.take(count)) <= total_bytes(frames),
    decreases frames.len() - count,
{
    if count < frames.len() {
        lemma_total_bytes_take(frames, count + 1);
        assert(frames.take(count + 1).drop_last() =~= frames.take(count));
    } else {
        assert(frames.take(count) =~= frames);
    }
}

/// A group keeps its limits and its counts: a new one does, and so does what any event
/// and any read leave of it. An abort leaves no frame but those of the batch being
/// read, of which there are fewer than a batch holds.
pub proof fn law_groups_stay_well_formed(group: GroupView, event: GroupEventView, error: Error)
    requires
        group.well_formed(),
    ensures
        GroupView::opened(group.sequence).well_formed(),
        group.after(event).0.well_formed(),
        group.frames.len() > 0 ==> group.popped().well_formed(),
        group.aborted_by(error).frames == group.frames.take(group.batch as int),
        group.aborted_by(error).frames.len() < BATCH,
{
    lemma_total_bytes_take(group.frames, group.batch as int);
    if group.batch == group.frames.len() {
        assert(group.frames.take(group.batch as int) =~= group.frames);
    }
    if let GroupEventView::Frame(frame) = event {
        assert(group.frames.push(frame).drop_last() =~= group.frames);
    }
    if group.frames.len() > 0 {
        lemma_total_bytes_first(group.frames);
    }
}

impl Group {
    /// A group of which nothing has been received, on a track of microseconds.
    pub fn new(sequence: u64) -> (r: Group)
        ensures
            r@ == GroupView::opened(sequence),
    {
        let r = Group {
            sequence,
            timescale: Timescale::micro(),
            frames: VecDeque::new(),
            batch: 0,
            read: 0,
            written: 0,
            bytes: 0,
            finished: false,
            aborted: None,
        };
        assert(r@.frames =~= Seq::empty());
        r
    }

    /// The group on a track of another timescale.
    pub fn with_timescale(self, timescale: Timescale) -> (r: Group)
        ensures
            r@ == (GroupView { timescale: timescale.rate(), ..self@ }),
    {
        let mut group = self;
        group.timescale = timescale;
        group
    }

    /// The number of the group within its track.
    pub fn sequence(&self) -> (r: u64)
        ensures
            r == self@.sequence,
    {
        self.sequence
    }

    /// The number of the next frame to read, counted modulo 2^32.
    pub fn next_number(&self) -> (r: u32)
        ensures
            r == self@.read,
    {
        self.read
    }

    /// The number of frames received so far.
    pub fn frame_count(&self) -> (r: u32)
        ensures
            r == self@.written,
    {
        self.written
    }

    /// Drops the frames that no batch has taken.
    fn release(&mut self, error: Error)
        ensures
            final(self)@ == old(self)@.aborted_by(error),
    {
        while self.frames.len() > self.batch
            invariant
                self.frames@.len() <= old(self).frames@.len(),
                self.frames@ == old(self).frames@.take(self.frames@.len() as int),
                self.frames@.len() >= self.batch || self.frames@ == old(self).frames@,
                *self == (Group { frames: self.frames, ..*old(self) }),
            decreases self.frames@.len(),
        {
            let ghost before = self.frames@;
            let _ = self.frames.pop_back();
            assert(self.frames@ =~= before.drop_last());
            assert(self.frames@ =~= old(self).frames@.take(self.frames@.len() as int));
        }
        self.aborted = Some(error);
        assert(self@.frames =~= old(self)@.aborted_by(error).frames);
    }

    /// Writes a frame, at the timescale of the group.
    ///
    /// Fails with [`Error::TimestampMismatch`] where that cannot hold the timestamp, with
    /// [`Error::FrameTooLarge`] where the frame alone is too large, with the abort of the
    /// group, with [`Error::Closed`] after its clean end, and with
    /// [`Error::GroupTooLarge`] where the group would be; that ends the group early.
    pub fn write_frame(&mut self, timestamp: Timestamp, payload: Vec<u8>) -> (r: Result<(), Error>)
        ensures
            (final(self)@, r) == old(self)@.wrote(
                WireFrameView { timestamp, payload: payload@ },
            ),
    {
        match timestamp.convert(self.timescale) {
            Ok(timestamp) => self.take_frame(WireFrame { timestamp, payload }),
            Err(_) => Err(Error::TimestampMismatch),
        }
    }

    /// Appends a frame.
    fn take_frame(&mut self, frame: WireFrame) -> (r: Result<(), Error>)
        ensures
            (final(self)@, r) == old(self)@.took(frame@),
    {
        let size: u64 = frame.payload.len() as u64;
        if size > MAX_CACHE_BYTES {
            return Err(Error::FrameTooLarge);
        }
        if let Some(error) = self.aborted {
            return Err(error);
        }
        if self.finished {
            return Err(Error::Closed);
        }
        if self.written >= MAX_GROUP_FRAMES || self.bytes > MAX_CACHE_BYTES - size {
            self.release(Error::GroupTooLarge);
            return Err(Error::GroupTooLarge);
        }
        let ghost view = frame@;
        self.frames.push_back(frame);
        self.written = self.written + 1;
        self.bytes = self.bytes + size;
        assert(wire_views(self.frames@) =~= old(self)@.frames.push(view));
        Ok(())
    }

    /// Ends the group cleanly. Fails with the abort of an aborted group.
    pub fn finish(&mut self) -> (r: Result<(), Error>)
        ensures
            (match old(self)@.aborted {
                Some(error) => r == Err::<(), Error>(error) && final(self)@ == old(self)@,
                None => r == Ok::<(), Error>(()) && final(self)@ == (GroupView {
                    finished: true,
                    ..old(self)@
                }),
            }),
    {
        if let Some(error) = self.aborted {
            return Err(error);
        }
        self.finished = true;
        Ok(())
    }

    /// Ends the group early, and drops the frames that no batch has taken. Fails with
    /// the first abort of an aborted group.
    pub fn abort(&mut self, error: Error) -> (r: Result<(), Error>)
        ensures
            (match old(self)@.aborted {
                Some(first) => r == Err::<(), Error>(first) && final(self)@ == old(self)@,
                None => r == Ok::<(), Error>(()) && final(self)@ == old(self)@.aborted_by(error),
            }),
    {
        if let Some(first) = self.aborted {
            return Err(first);
        }
        self.release(error);
        Ok(())
    }

    /// Takes one event of the transport; false where the group does not take it.
    pub fn apply(&mut self, event: GroupEvent) -> (r: bool)
        ensures
            (final(self)@, r) == old(self)@.after(event@),
    {
        match event {
            GroupEvent::Frame(frame) => self.take_frame(frame).is_ok(),
            GroupEvent::Finished => self.finish().is_ok(),
            GroupEvent::Aborted(error) => self.abort(error).is_ok(),
        }
    }

    /// Reads the next frame with its number, if one is held.
    pub fn pop_frame(&mut self) -> (r: Option<(u32, WireFrame)>)
        ensures
            (match r {
                Some((number, frame)) => old(self)@.frames.len() > 0 && number == old(self)@.read
                    && frame@ == old(self)@.frames[0] && final(self)@ == old(self)@.popped(),
                None => old(self)@.frames.len() == 0 && final(self)@ == old(self)@,
            }),
    {
        let held: usize = self.frames.len();
        match self.frames.pop_front() {
            Some(frame) => {
                let batch: usize = if self.batch > 0 {
                    self.batch
                } else if held < BATCH {
                    held
                } else {
                    BATCH
                };
                self.batch = batch - 1;
                let number: u32 = self.read;
                self.read = if number == u32::MAX {
                    0
                } else {
                    number + 1
                };
                assert(wire_views(self.frames@) =~= old(self)@.frames.drop_first());
                Some((number, frame))
            },
            None => None,
        }
    }

    /// Whether and how the group ended for this reader.
    pub fn poll_finished(&self) -> (r: Poll<Result<(), Error>>)
        ensures
            r == self@.end(),
    {
        match self.aborted {
            Some(error) => if self.finished && self.read >= self.written {
                Poll::Ready(Ok(()))
            } else {
                Poll::Ready(Err(error))
            },
            None => if self.finished {
                Poll::Ready(Ok(()))
            } else {
                Poll::Pending
            },
        }
    }
}

/// What the publisher says of a track.
#[derive(Debug, Clone, Copy, PartialEq, Eq, Structural)]
pub struct TrackInfo {
    /// How long a group is kept once a newer one exists.
    pub max_age: Duration,
}

/// What a subscriber asks of a track.
#[derive(Debug, Clone, Copy, PartialEq, Eq, Structural)]
pub struct Subscription {
    /// The lowest group to deliver, or `None` for no floor.
    pub start: Option<u64>,
    /// How old a group may get before the subscriber gives up on it.
    pub max_age: Duration,
}

impl Subscription {
    /// The same subscription with another maximum age.
    pub fn with_max_age(self, max_age: Duration) -> (r: Subscription)
        ensures
            r == (Subscription { max_age, ..self }),
    {
        Subscription { max_age, ..self }
    }

    /// The same subscription with a floor.
    pub fn with_start(self, group: u64) -> (r: Subscription)
        ensures
            r == (Subscription { start: Some(group), ..self }),
    {
        Subscription { start: Some(group), ..self }
    }
}

/// A subscription to a track, with the groups that have been announced to it
/// and not been taken.
#[derive(Debug)]
pub struct Subscriber {
    info: TrackInfo,
    subscription: Subscription,
    arrived: Vec<Group>,
    closed: Option<Result<(), Error>>,
}

/// What a [`Subscriber`] holds.
#[verifier::ext_equal]
pub struct SubscriberView {
    /// What the publisher says of the track.
    pub info: TrackInfo,
    /// What the subscriber asked for.
    pub subscription: Subscription,
    /// The groups announced and not taken, in the order of their arrival.
    pub arrived: Seq<GroupView>,
    /// Whether and how the track ended.
    pub closed: Option<Result<(), Error>>,
}

/// The views of a run of groups.
pub open spec fn group_views(groups: Seq<Group>) -> Seq<GroupView> {
    groups.map_values(|group: Group| group@)
}

impl View for Subscriber {
    type V = SubscriberView;

    closed spec fn view(&self) -> SubscriberView {
        SubscriberView {
            info: self.info,
            subscription: self.subscription,
            arrived: group_views(self.arrived@),
            closed: self.closed,
        }
    }
}

/// The position of the first group with the given sequence, or the length where
/// there is none.
pub open spec fn position_of(groups: Seq<GroupView>, sequence: u64) -> int
    decreases groups.len(),
{
    if groups.len() == 0 || groups[0].sequence == sequence {
        0
    } else {
        1 + position_of(groups.drop_first(), sequence)
    }
}

/// The groups after `event` for the group at `index`.
pub open spec fn with_event(
    groups: Seq<GroupView>,
    index: int,
    event: GroupEventView,
) -> Seq<GroupView> {
    groups.update(index, groups[index].after(event).0)
}

impl SubscriberView {
    /// Whether and how the track ended, as one who waits for a group sees it.
    pub open spec fn rest(self) -> Poll<Result<(), Error>> {
        match self.closed {
            Some(result) => Poll::Ready(result),
            None => Poll::Pending,
        }
    }
}

impl Subscriber {
    /// A subscription to which nothing has been announced.
    pub fn new(info: TrackInfo, subscription: Subscription) -> (r: Subscriber)
        ensures
            r@ == (SubscriberView { info, subscription, arrived: Seq::empty(), closed: None }),
    {
        let r = Subscriber { info, subscription, arrived: Vec::new(), closed: None };
        assert(r@.arrived =~= Seq::empty());
        r
    }

    /// What the publisher says of the track.
    pub fn info(&self) -> (r: TrackInfo)
        ensures
            r == self@.info,
    {
        self.info
    }

    /// What the subscriber asked for.
    pub fn subscription(&self) -> (r: Subscription)
        ensures
            r == self@.subscription,
    {
        self.subscription
    }

    /// Changes what the subscriber asks for.
    pub fn update(&mut self, subscription: Subscription)
        ensures
            final(self)@ == (SubscriberView { subscription, ..old(self)@ }),
    {
        self.subscription = subscription;
    }

    /// Announces a new group. False once the track has ended.
    pub fn announce(&mut self, sequence: u64) -> (r: bool)
        ensures
            r == (old(self)@.closed is None),
            final(self)@ == (if r {
                SubscriberView {
                    arrived: old(self)@.arrived.push(GroupView::opened(sequence)),
                    ..old(self)@
                }
            } else {
                old(self)@
            }),
    {
        if self.closed.is_some() {
            return false;
        }
        self.arrived.push(Group::new(sequence));
        assert(group_views(self.arrived@) =~= old(self)@.arrived.push(
            GroupView::opened(sequence),
        ));
        true
    }

    /// Ends the track: cleanly with `Ok`, early with an error. False where it
    /// had ended before.
    pub fn close(&mut self, result: Result<(), Error>) -> (r: bool)
        ensures
            r == (old(self)@.closed is None),
            final(self)@ == (if r {
                SubscriberView { closed: Some(result), ..old(self)@ }
            } else {
                old(self)@
            }),
    {
        if self.closed.is_some() {
            return false;
        }
        self.closed = Some(result);
        true
    }

    /// Hands an event to the first announced group with the given sequence.
    ///
    /// Gives the event back where no such group is held here.
    pub fn apply(&mut self, sequence: u64, event: GroupEvent) -> (r: Result<bool, GroupEvent>)
        ensures
            ({
                let arrived = old(self)@.arrived;
                let index = position_of(arrived, sequence);
                if index < arrived.len() {
                    &&& r == Ok::<bool, GroupEvent>(arrived[index].after(event@).1)
                    &&& final(self)@ == (SubscriberView {
                        arrived: with_event(arrived, index, event@),
                        ..old(self)@
                    })
                } else {
                    &&& r == Err::<bool, GroupEvent>(event)
                    &&& final(self)@ == old(self)@
                }
            }),
    {
        let mut index: usize = 0;
        let ghost arrived = self@.arrived;
        assert(arrived.skip(0) =~= arrived);
        while index < self.arrived.len()
            invariant
                index <= self.arrived@.len(),
                *self == *old(self),
                arrived == self@.arrived,
                position_of(arrived, sequence) == index + position_of(
                    arrived.skip(index as int),
                    sequence,
                ),
            decreases self.arrived@.len() - index,
        {
            assert(arrived.skip(index as int)[0] == arrived[index as int]);
            assert(arrived[index as int] == self.arrived@[index as int]@);
            if self.arrived[index].sequence() == sequence {
                let taken = self.arrived[index].apply(event);
                assert(group_views(self.arrived@) =~= with_event(arrived, index as int, event@));
                return Ok(taken);
            }
            assert(arrived.skip(index as int).drop_first() =~= arrived.skip(index + 1));
            index = index + 1;
        }
        Err(event)
    }

    /// Takes the next announced group.
    pub fn poll_recv_group(&mut self) -> (r: Poll<Result<Option<Group>, Error>>)
        ensures
            (if old(self)@.arrived.len() > 0 {
                &&& r matches Poll::Ready(Ok(Some(group)))
                &&& group@ == old(self)@.arrived[0]
                &&& final(self)@ == (SubscriberView {
                    arrived: old(self)@.arrived.drop_first(),
                    ..old(self)@
                })
            } else {
                &&& final(self)@ == old(self)@
                &&& r == (match old(self)@.rest() {
                    Poll::Ready(Ok(_)) => Poll::Ready(Ok::<Option<Group>, Error>(None)),
                    Poll::Ready(Err(error)) => Poll::Ready(Err::<Option<Group>, Error>(error)),
                    Poll::Pending => Poll::Pending,
                })
            }),
    {
        if self.arrived.len() > 0 {
            let group = self.arrived.remove(0);
            assert(group_views(self.arrived@) =~= old(self)@.arrived.drop_first());
            return Poll::Ready(Ok(Some(group)));
        }
        match self.closed {
            Some(Ok(_)) => Poll::Ready(Ok(None)),
            Some(Err(error)) => Poll::Ready(Err(error)),
            None => Poll::Pending,
        }
    }
}

} // verus!
