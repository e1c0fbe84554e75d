//! One group on its way through a consumer.
//!
//! A [`GroupBuffer`] holds what has been decoded of a group and not been
//! delivered, and learns how far the group reaches in time. Looking ahead decodes
//! wire frames early; it never loses or reorders what they hold.
use std::collections::VecDeque;

use vstd::prelude::*;

use super::reader::{FrameOutcome, ProtectedFrame};
use super::{
    frame_of, frame_views, media, Container, Frame, FrameDecrypter, FrameReader, FrameView,
};
use crate::error::Error;
use crate::net::{self, Group, GroupView};
use crate::poll::Poll;
use crate::time::{Duration, Timestamp};

verus! {

/// Something decoded and held for delivery.
#[derive(Debug)]
pub enum Item {
    /// A media frame.
    Frame(Frame),
    /// The end of presentation of the frames before it.
    End(Timestamp),
}

/// What an [`Item`] holds.
#[verifier::ext_equal]
pub enum ItemView {
    Frame(FrameView),
    End(Timestamp),
}

impl View for Item {
    type V = ItemView;

    open spec fn view(&self) -> ItemView {
        match self {
            Item::Frame(frame) => ItemView::Frame(frame@),
            Item::End(bound) => ItemView::End(*bound),
        }
    }
}

/// The views of a run of items.
pub open spec fn item_views(items: Seq<Item>) -> Seq<ItemView> {
    items.map_values(|item: Item| item@)
}

/// Whether a run of items holds a media frame.
pub open spec fn holds_media(items: Seq<ItemView>) -> bool {
    exists|i: int| 0 <= i < items.len() && #[trigger] items[i] is Frame
}

/// One group, with what was decoded of it ahead of delivery.
#[derive(Debug)]
pub struct GroupBuffer {
    group: Group,
    started: bool,
    empty: bool,
    items: VecDeque<Item>,
    min_timestamp: Option<Timestamp>,
    max_timestamp: Option<Timestamp>,
    max_end: Option<Duration>,
}

/// What a [`GroupBuffer`] holds.
#[verifier::ext_equal]
pub struct BufferView {
    /// The group, with the wire frames that were not decoded yet.
    pub group: GroupView,
    /// Whether a media frame has been decoded.
    pub started: bool,
    /// Whether no wire frame has been decoded.
    pub empty: bool,
    /// What was decoded and not delivered, in order.
    pub items: Seq<ItemView>,
    /// The earliest timestamp decoded so far.
    pub min_timestamp: Option<Timestamp>,
    /// The latest timestamp decoded so far.
    pub max_timestamp: Option<Timestamp>,
    /// The furthest presentation point reached so far.
    pub max_end: Option<Duration>,
}

impl View for GroupBuffer {
    type V = BufferView;

    closed spec fn view(&self) -> BufferView {
        BufferView {
            group: self.group@,
            started: self.started,
            empty: self.empty,
            items: item_views(self.items@),
            min_timestamp: self.min_timestamp,
            max_timestamp: self.max_timestamp,
            max_end: self.max_end,
        }
    }
}

/// The later of a point already reached and `end`.
pub open spec fn furthest(reached: Option<Duration>, end: Duration) -> Duration {
    match reached {
        Some(existing) => existing.longest(end),
        None => end,
    }
}

/// Where the presentation of a frame is known to reach to.
pub open spec fn frame_end(frame: FrameView) -> Duration {
    match frame.duration {
        Some(duration) => Duration {
            nanos: (frame.timestamp.elapsed().nanos + duration.elapsed().nanos) as u128,
        },
        None => frame.timestamp.elapsed(),
    }
}

impl BufferView {
    /// A buffer for a group of which nothing was decoded.
    pub open spec fn over(group: GroupView) -> BufferView {
        BufferView {
            group,
            started: false,
            empty: true,
            items: Seq::empty(),
            min_timestamp: None,
            max_timestamp: None,
            max_end: None,
        }
    }

    /// The buffer after the marker of an end was decoded.
    pub open spec fn with_end(self, bound: Timestamp) -> BufferView {
        BufferView {
            items: self.items.push(ItemView::End(bound)),
            max_end: Some(furthest(self.max_end, bound.elapsed())),
            ..self
        }
    }

    /// The buffer after a media frame was decoded. The first one of a group is a
    /// keyframe.
    pub open spec fn with_media(self, frame: FrameView) -> BufferView {
        BufferView {
            started: true,
            items: self.items.push(ItemView::Frame(frame.promoted(!self.started))),
            min_timestamp: Some(
                match self.min_timestamp {
                    Some(existing) => existing.earlier(frame.timestamp),
                    None => frame.timestamp,
                },
            ),
            max_timestamp: Some(
                match self.max_timestamp {
                    Some(existing) => existing.later(frame.timestamp),
                    None => frame.timestamp,
                },
            ),
            max_end: Some(furthest(self.max_end, frame_end(frame))),
            ..self
        }
    }

    /// The buffer after one decoded frame, marker or media.
    pub open spec fn with_frame<F: Container>(self, format: &F, frame: FrameView) -> BufferView {
        match format.bound(frame) {
            Some(bound) => self.with_end(bound),
            None => self.with_media(frame),
        }
    }

    /// The buffer after a run of decoded frames.
    pub open spec fn with_frames<F: Container>(
        self,
        format: &F,
        frames: Seq<FrameView>,
    ) -> BufferView
        decreases frames.len(),
    {
        if frames.len() == 0 {
            self
        } else {
            self.with_frame(format, frames[0]).with_frames(format, frames.drop_first())
        }
    }

    /// Whether the transport can no longer deliver the frame at which decoding
    /// stopped.
    pub open spec fn aborted(self) -> bool {
        self.group.end() matches Poll::Ready(Err(_))
    }

    /// Whether this is a group that ended cleanly with no wire frame, where that
    /// is known.
    pub open spec fn emptiness(self) -> Poll<bool> {
        if !self.empty {
            Poll::Ready(false)
        } else {
            match self.group.end() {
                Poll::Ready(Ok(_)) => Poll::Ready(true),
                Poll::Ready(Err(_)) => Poll::Ready(false),
                Poll::Pending => Poll::Pending,
            }
        }
    }

    /// What looking for a timestamp comes to: the one found, or how the group
    /// ended without one.
    pub open spec fn found(self, timestamp: Option<Timestamp>) -> Poll<Result<Timestamp, Error>> {
        match timestamp {
            Some(timestamp) => Poll::Ready(Ok(timestamp)),
            None => match self.group.end() {
                Poll::Ready(Ok(_)) => Poll::Ready(Err(Error::Moq(net::Error::Short))),
                Poll::Ready(Err(error)) => Poll::Ready(Err(Error::Moq(error))),
                Poll::Pending => Poll::Pending,
            },
        }
    }
}

/// Holding decoded frames neither reads nor needs the group they came from.
proof fn lemma_frames_leave_the_group<F: Container>(
    buffer: BufferView,
    group: GroupView,
    empty: bool,
    format: &F,
    frames: Seq<FrameView>,
)
    ensures
        (BufferView { group, empty, ..buffer }).with_frames(format, frames) == (BufferView {
            group,
            empty,
            ..buffer.with_frames(format, frames)
        }),
    decreases frames.len(),
{
    if frames.len() > 0 {
        lemma_frames_leave_the_group(
            buffer.with_frame(format, frames[0]),
            group,
            empty,
            format,
            frames.drop_first(),
        );
    }
}

/// A buffer, and the state of the decrypter that its reads go through.
pub struct Reading<S> {
    pub buffer: BufferView,
    pub decrypter: Option<S>,
}

/// The state of an optional decrypter.
pub open spec fn decrypter_state<D: FrameDecrypter>(decrypter: Option<D>) -> Option<D::State> {
    match decrypter {
        Some(decrypter) => Some(decrypter.state()),
        None => None,
    }
}

/// What reading the next wire frame comes to, through a decrypter where there is
/// one.
pub open spec fn wire_read<D: FrameDecrypter>(group: GroupView, decrypter: Option<D::State>) -> (
    GroupView,
    Option<D::State>,
    FrameOutcome,
) {
    match decrypter {
        Some(state) => {
            let (after, read) = ProtectedFrame::<Group, D>::next((group, state));
            (after.0, Some(after.1), read)
        },
        None => {
            let (after, read) = Group::next(group);
            (after, None, read)
        },
    }
}

/// What decoding one more wire frame comes to; false at the end of the group.
pub open spec fn decode_once<F: Container, D: FrameDecrypter>(
    format: &F,
    at: Reading<D::State>,
) -> (Reading<D::State>, Poll<Result<bool, Error>>) {
    let (group, decrypter, read) = wire_read::<D>(at.buffer.group, at.decrypter);
    let moved = BufferView { group, ..at.buffer };
    match media(read, format.decoded(frame_of(read))) {
        Poll::Ready(Ok(Some(frames))) => {
            let buffer = BufferView {
                group,
                empty: false,
                ..at.buffer.with_frames(format, frames)
            };
            (Reading { buffer, decrypter }, Poll::Ready(Ok(true)))
        },
        Poll::Ready(Ok(None)) => (Reading { buffer: moved, decrypter }, Poll::Ready(Ok(false))),
        Poll::Ready(Err(error)) => (Reading { buffer: moved, decrypter }, Poll::Ready(Err(error))),
        Poll::Pending => (Reading { buffer: moved, decrypter }, Poll::Pending),
    }
}

/// What decoding until a media frame is held comes to; false at the end of the
/// group.
pub open spec fn decode_one<F: Container, D: FrameDecrypter>(
    format: &F,
    at: Reading<D::State>,
) -> (Reading<D::State>, Poll<Result<bool, Error>>)
    decreases at.buffer.group.frames.len(),
{
    if holds_media(at.buffer.items) {
        (at, Poll::Ready(Ok(true)))
    } else {
        let (next, result) = decode_once::<F, D>(format, at);
        if result == Poll::Ready(Ok::<bool, Error>(true)) {
            decode_one::<F, D>(format, next)
        } else {
            (next, result)
        }
    }
}

/// What decoding every wire frame at hand comes to.
pub open spec fn decode_all<F: Container, D: FrameDecrypter>(
    format: &F,
    at: Reading<D::State>,
) -> (Reading<D::State>, Poll<Result<(), Error>>)
    decreases at.buffer.group.frames.len(),
{
    let (next, result) = decode_once::<F, D>(format, at);
    match result {
        Poll::Ready(Ok(more)) => if more {
            decode_all::<F, D>(format, next)
        } else {
            (next, Poll::Ready(Ok(())))
        },
        Poll::Ready(Err(error)) => (next, Poll::Ready(Err(error))),
        Poll::Pending => (next, Poll::Pending),
    }
}

/// What looking for the earliest timestamp of the group comes to.
///
/// One media frame is enough to answer.
pub open spec fn earliest<F: Container, D: FrameDecrypter>(
    format: &F,
    at: Reading<D::State>,
) -> (Reading<D::State>, Poll<Result<Timestamp, Error>>) {
    let (next, result) = decode_one::<F, D>(format, at);
    (
        next,
        match result {
            Poll::Ready(Err(error)) => Poll::Ready(Err(error)),
            _ => next.buffer.found(next.buffer.min_timestamp),
        },
    )
}

/// What looking for the latest timestamp of the group comes to.
///
/// Everything at hand is decoded first.
pub open spec fn latest<F: Container, D: FrameDecrypter>(
    format: &F,
    at: Reading<D::State>,
) -> (Reading<D::State>, Poll<Result<Timestamp, Error>>) {
    let (next, result) = decode_all::<F, D>(format, at);
    (
        next,
        match result {
            Poll::Ready(Err(error)) => Poll::Ready(Err(error)),
            _ => next.buffer.found(next.buffer.max_timestamp),
        },
    )
}

/// What came of asking a buffer for its next item: the item, the clean end of the
/// group, an error, or nothing yet.
pub type ItemOutcome = Poll<Result<Option<ItemView>, Error>>;

/// What taking the next item comes to.
pub open spec fn delivery<F: Container, D: FrameDecrypter>(
    format: &F,
    at: Reading<D::State>,
) -> (Reading<D::State>, ItemOutcome)
    decreases at.buffer.group.frames.len(),
{
    if at.buffer.items.len() > 0 {
        let buffer = BufferView { items: at.buffer.items.drop_first(), ..at.buffer };
        (Reading { buffer, ..at }, Poll::Ready(Ok(Some(at.buffer.items[0]))))
    } else {
        let (next, result) = decode_once::<F, D>(format, at);
        match result {
            Poll::Ready(Ok(more)) => if more {
                delivery::<F, D>(format, next)
            } else {
                (next, Poll::Ready(Ok(None)))
            },
            Poll::Ready(Err(error)) => (next, Poll::Ready(Err(error))),
            Poll::Pending => (next, Poll::Pending),
        }
    }
}

/// The outcome of taking an item, with the item by its view.
pub open spec fn item_outcome(read: Poll<Result<Option<Item>, Error>>) -> ItemOutcome {
    match read {
        Poll::Ready(Ok(Some(item))) => Poll::Ready(Ok(Some(item@))),
        Poll::Ready(Ok(None)) => Poll::Ready(Ok(None)),
        Poll::Ready(Err(error)) => Poll::Ready(Err(error)),
        Poll::Pending => Poll::Pending,
    }
}

impl GroupBuffer {
    /// A buffer for a group of which nothing was decoded.
    pub fn new(group: Group) -> (r: GroupBuffer)
        ensures
            r@ == BufferView::over(group@),
    {
        let r = GroupBuffer {
            group,
            started: false,
            empty: true,
            items: VecDeque::new(),
            min_timestamp: None,
            max_timestamp: None,
            max_end: None,
        };
        assert(r@.items =~= Seq::empty());
        r
    }

    /// This buffer and the state of `decrypter`.
    pub open spec fn reading<D: FrameDecrypter>(self, decrypter: Option<D>) -> Reading<D::State> {
        Reading { buffer: self@, decrypter: decrypter_state(decrypter) }
    }

    /// The sequence number of the group.
    pub fn sequence(&self) -> (r: u64)
        ensures
            r == self@.group.sequence,
    {
        self.group.sequence()
    }

    /// The earliest timestamp decoded so far.
    pub fn min_timestamp(&self) -> (r: Option<Timestamp>)
        ensures
            r == self@.min_timestamp,
    {
        self.min_timestamp
    }

    /// Whether no wire frame has been decoded.
    pub fn is_empty(&self) -> (r: bool)
        ensures
            r == self@.empty,
    {
        self.empty
    }

    /// The furthest presentation point reached so far.
    pub fn max_end(&self) -> (r: Option<Duration>)
        ensures
            r == self@.max_end,
    {
        self.max_end
    }

    /// Takes one event of the transport; false where the group does not take it.
    pub fn apply(&mut self, event: net::GroupEvent) -> (r: bool)
        ensures
            r == old(self)@.group.after(event@).1,
            final(self)@ == (BufferView { group: old(self)@.group.after(event@).0, ..old(self)@ }),
    {
        self.group.apply(event)
    }

    /// Whether a decoded media frame is held.
    pub fn has_media(&self) -> (r: bool)
        ensures
            r == holds_media(self@.items),
    {
        let mut index: usize = 0;
        while index < self.items.len()
            invariant
                index <= self.items@.len(),
                forall|i: int| 0 <= i < index ==> !(#[trigger] self@.items[i] is Frame),
            decreases self.items@.len() - index,
        {
            assert(self@.items[index as int] == self.items@[index as int]@);
            if let Item::Frame(_) = &self.items[index] {
                return true;
            }
            index = index + 1;
        }
        false
    }

    /// Extends the furthest presentation point to `end`.
    fn note_end(&mut self, end: Duration)
        ensures
            final(self)@ == (BufferView {
                max_end: Some(furthest(old(self)@.max_end, end)),
                ..old(self)@
            }),
    {
        self.max_end = match self.max_end {
            Some(existing) => Some(existing.max(end)),
            None => Some(end),
        };
    }

    /// Holds one decoded frame, marker or media.
    fn hold<F: Container>(&mut self, format: &F, frame: Frame)
        ensures
            final(self)@ == old(self)@.with_frame(format, frame@),
    {
        let mut frame = frame;
        let ghost view = frame@;
        if let Some(bound) = format.end(&frame) {
            self.note_end(bound.as_duration());
            self.items.push_back(Item::End(bound));
            assert(self@ =~= old(self)@.with_frame(format, view));
            return;
        }
        self.min_timestamp = match self.min_timestamp {
            Some(existing) => Some(existing.min(frame.timestamp)),
            None => Some(frame.timestamp),
        };
        self.max_timestamp = match self.max_timestamp {
            Some(existing) => Some(existing.max(frame.timestamp)),
            None => Some(frame.timestamp),
        };
        let start = frame.timestamp.as_duration();
        let end = match frame.duration {
            Some(duration) => Duration { nanos: start.nanos + duration.as_duration().nanos },
            None => start,
        };
        self.note_end(end);
        frame.keyframe = frame.keyframe || !self.started;
        self.started = true;
        self.items.push_back(Item::Frame(frame));
        assert(self@ =~= old(self)@.with_frame(format, view));
    }

    /// Decodes one more wire frame; false at the end of the group.
    pub fn buffer_once<F: Container, D: FrameDecrypter>(
        &mut self,
        format: &F,
        decrypter: &mut Option<D>,
    ) -> (r: Poll<Result<bool, Error>>)
        ensures
            (final(self).reading(*final(decrypter)), r) == decode_once::<F, D>(
                format,
                old(self).reading(*old(decrypter)),
            ),
    {
        let ghost at = self.reading(*decrypter);
        let read = match decrypter.take() {
            Some(key) => {
                let mut group = Group::new(0);
                std::mem::swap(&mut group, &mut self.group);
                let mut reader = ProtectedFrame::new(group, key);
                let read = format.poll_read_frames(&mut reader);
                let (group, key) = reader.into_parts();
                self.group = group;
                *decrypter = Some(key);
                read
            },
            None => format.poll_read(&mut self.group),
        };
        let mut frames = match read {
            Poll::Ready(Ok(Some(frames))) => frames,
            Poll::Ready(Ok(None)) => return Poll::Ready(Ok(false)),
            Poll::Ready(Err(error)) => return Poll::Ready(Err(error)),
            Poll::Pending => return Poll::Pending,
        };
        self.empty = false;
        let ghost all = frame_views(frames@);
        let ghost begun = self@;
        while frames.len() > 0
            invariant
                self@.with_frames(format, frame_views(frames@)) == begun.with_frames(format, all),
            decreases frames@.len(),
        {
            let ghost before = frame_views(frames@);
            let frame = frames.remove(0);
            assert(frame_views(frames@) =~= before.drop_first());
            assert(before[0] == frame@);
            self.hold(format, frame);
        }
        proof {
            lemma_frames_leave_the_group(at.buffer, begun.group, false, format, all);
        }
        Poll::Ready(Ok(true))
    }

    /// Decodes until a media frame is held; false at the end of the group.
    fn buffer_one<F: Container, D: FrameDecrypter>(
        &mut self,
        format: &F,
        decrypter: &mut Option<D>,
    ) -> (r: Poll<Result<bool, Error>>)
        ensures
            (final(self).reading(*final(decrypter)), r) == decode_one::<F, D>(
                format,
                old(self).reading(*old(decrypter)),
            ),
    {
        let ghost at = self.reading(*decrypter);
        loop
            invariant
                at == old(self).reading(*old(decrypter)),
                decode_one::<F, D>(format, at) == decode_one::<F, D>(
                    format,
                    self.reading(*decrypter),
                ),
            decreases self@.group.frames.len(),
        {
            if self.has_media() {
                return Poll::Ready(Ok(true));
            }
            match self.buffer_once(format, decrypter) {
                Poll::Ready(Ok(true)) => {},
                other => return other,
            }
        }
    }

    /// Decodes every wire frame at hand.
    fn buffer_all<F: Container, D: FrameDecrypter>(
        &mut self,
        format: &F,
        decrypter: &mut Option<D>,
    ) -> (r: Poll<Result<(), Error>>)
        ensures
            (final(self).reading(*final(decrypter)), r) == decode_all::<F, D>(
                format,
                old(self).reading(*old(decrypter)),
            ),
    {
        let ghost at = self.reading(*decrypter);
        loop
            invariant
                at == old(self).reading(*old(decrypter)),
                decode_all::<F, D>(format, at) == decode_all::<F, D>(
                    format,
                    self.reading(*decrypter),
                ),
            decreases self@.group.frames.len(),
        {
            match self.buffer_once(format, decrypter) {
                Poll::Ready(Ok(true)) => {},
                Poll::Ready(Ok(false)) => return Poll::Ready(Ok(())),
                Poll::Ready(Err(error)) => return Poll::Ready(Err(error)),
                Poll::Pending => return Poll::Pending,
            }
        }
    }

    /// How the group ended, for one who found no timestamp in it.
    fn poll_missing(&self) -> (r: Poll<Result<Timestamp, Error>>)
        ensures
            r == self@.found(None),
    {
        match self.group.poll_finished() {
            Poll::Ready(Ok(_)) => Poll::Ready(Err(Error::Moq(net::Error::Short))),
            Poll::Ready(Err(error)) => Poll::Ready(Err(Error::Moq(error))),
            Poll::Pending => Poll::Pending,
        }
    }

    /// Looks for the earliest timestamp of the group.
    pub fn poll_min_timestamp<F: Container, D: FrameDecrypter>(
        &mut self,
        format: &F,
        decrypter: &mut Option<D>,
    ) -> (r: Poll<Result<Timestamp, Error>>)
        ensures
            (final(self).reading(*final(decrypter)), r) == earliest::<F, D>(
                format,
                old(self).reading(*old(decrypter)),
            ),
    {
        if let Poll::Ready(Err(error)) = self.buffer_one(format, decrypter) {
            return Poll::Ready(Err(error));
        }
        match self.min_timestamp {
            Some(timestamp) => Poll::Ready(Ok(timestamp)),
            None => self.poll_missing(),
        }
    }

    /// Looks for the latest timestamp of the group.
    pub fn poll_max_timestamp<F: Container, D: FrameDecrypter>(
        &mut self,
        format: &F,
        decrypter: &mut Option<D>,
    ) -> (r: Poll<Result<Timestamp, Error>>)
        ensures
            (final(self).reading(*final(decrypter)), r) == latest::<F, D>(
                format,
                old(self).reading(*old(decrypter)),
            ),
    {
        if let Poll::Ready(Err(error)) = self.buffer_all(format, decrypter) {
            return Poll::Ready(Err(error));
        }
        match self.max_timestamp {
            Some(timestamp) => Poll::Ready(Ok(timestamp)),
            None => self.poll_missing(),
        }
    }

    /// Takes the next item; `None` at the clean end of the group.
    pub fn poll_read<F: Container, D: FrameDecrypter>(
        &mut self,
        format: &F,
        decrypter: &mut Option<D>,
    ) -> (r: Poll<Result<Option<Item>, Error>>)
        ensures
            (final(self).reading(*final(decrypter)), item_outcome(r)) == delivery::<F, D>(
                format,
                old(self).reading(*old(decrypter)),
            ),
    {
        let ghost at = self.reading(*decrypter);
        loop
            invariant
                at == old(self).reading(*old(decrypter)),
                delivery::<F, D>(format, at) == delivery::<F, D>(format, self.reading(*decrypter)),
            decreases self@.group.frames.len(),
        {
            let ghost before = self@;
            if let Some(item) = self.items.pop_front() {
                assert(self@.items =~= before.items.drop_first());
                assert(item@ == before.items[0]);
                return Poll::Ready(Ok(Some(item)));
            }
            match self.buffer_once(format, decrypter) {
                Poll::Ready(Ok(true)) => {},
                Poll::Ready(Ok(false)) => return Poll::Ready(Ok(None)),
                Poll::Ready(Err(error)) => return Poll::Ready(Err(error)),
                Poll::Pending => return Poll::Pending,
            }
        }
    }

    /// Whether the transport can no longer deliver the frame at which decoding
    /// stopped.
    pub fn poll_aborted(&self) -> (r: bool)
        ensures
            r == self@.aborted(),
    {
        match self.group.poll_finished() {
            Poll::Ready(Err(_)) => true,
            _ => false,
        }
    }

    /// Whether this is a group that ended cleanly with no wire frame.
    pub fn poll_empty(&self) -> (r: Poll<bool>)
        ensures
            r == self@.emptiness(),
    {
        if !self.empty {
            return Poll::Ready(false);
        }
        match self.group.poll_finished() {
            Poll::Ready(Ok(_)) => Poll::Ready(true),
            Poll::Ready(Err(_)) => Poll::Ready(false),
            Poll::Pending => Poll::Pending,
        }
    }
}

} // verus!
