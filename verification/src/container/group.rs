//! Reading a single group to its end.
use vstd::prelude::*;

use super::buffer::{decrypter_state, wire_read};
use super::reader::ProtectedFrame;
use super::schedule::{frame_outcome, FrameReadOutcome};
use super::{
    close_duration, frame_of, frame_views, media, media_outcome, Container, Frame, FrameDecrypter,
    FrameView, Kind, MediaOutcome,
};
use crate::error::Error;
use crate::net::{Group, GroupView};
use crate::poll::Poll;

verus! {

/// Decodes one group into a finite stream of media frames.
///
/// The decrypter, where there is one, serves every read of the group.
#[derive(Debug)]
pub struct GroupConsumer<F: Container, D: FrameDecrypter> {
    group: Group,
    format: F,
    decrypter: Option<D>,
    pending: Vec<Frame>,
    started: bool,
}

/// What a [`GroupConsumer`] holds, apart from its format.
#[verifier::ext_equal]
pub struct GroupConsumerView<S> {
    /// The group, with the wire frames that were not decoded yet.
    pub group: GroupView,
    /// The state of the decrypter, where payloads are protected.
    pub decrypter: Option<S>,
    /// The frames decoded and not delivered, in order.
    pub pending: Seq<FrameView>,
    /// Whether a frame has been delivered.
    pub started: bool,
}

/// What a consumer of one group holds whose decrypter is a `D`.
pub type GroupStateOf<D> = GroupConsumerView<<D as FrameDecrypter>::State>;

impl<F: Container, D: FrameDecrypter> View for GroupConsumer<F, D> {
    type V = GroupStateOf<D>;

    closed spec fn view(&self) -> GroupStateOf<D> {
        GroupConsumerView {
            group: self.group@,
            decrypter: decrypter_state(self.decrypter),
            pending: frame_views(self.pending@),
            started: self.started,
        }
    }
}

/// The frames held after one more was decoded.
///
/// A marker times the last frame of a video group, and is no media itself.
pub open spec fn with_decoded<F: Container>(
    format: &F,
    pending: Seq<FrameView>,
    frame: FrameView,
) -> Seq<FrameView> {
    match format.bound(frame) {
        Some(bound) => if format.role() == Kind::Video && pending.len() > 0 {
            pending.drop_last().push(pending.last().closed_at(bound))
        } else {
            pending
        },
        None => pending.push(frame),
    }
}

/// The frames held after a run was decoded.
pub open spec fn with_all_decoded<F: Container>(
    format: &F,
    pending: Seq<FrameView>,
    frames: Seq<FrameView>,
) -> Seq<FrameView>
    decreases frames.len(),
{
    if frames.len() == 0 {
        pending
    } else {
        with_all_decoded(format, with_decoded(format, pending, frames[0]), frames.drop_first())
    }
}

/// Whether the first held frame may go out.
///
/// A video frame with no duration waits for what may time it: a marker, a frame
/// after it, or the end of the group.
pub open spec fn deliverable<F: Container>(format: &F, pending: Seq<FrameView>) -> bool {
    &&& pending.len() > 0
    &&& !(format.role() == Kind::Video && pending[0].duration is None && pending.len() < 2)
}

impl<S> GroupConsumerView<S> {
    /// The state after the first held frame went out, and that frame.
    ///
    /// The first frame of a group is a keyframe.
    pub open spec fn popped(self) -> (GroupConsumerView<S>, Option<FrameView>) {
        if self.pending.len() == 0 {
            (self, None)
        } else {
            (
                GroupConsumerView {
                    pending: self.pending.drop_first(),
                    started: true,
                    ..self
                },
                Some(self.pending[0].promoted(!self.started)),
            )
        }
    }
}

/// What reading the media of the next wire frame comes to.
pub open spec fn next_media<F: Container, D: FrameDecrypter>(
    format: &F,
    state: GroupStateOf<D>,
) -> (GroupStateOf<D>, MediaOutcome) {
    let (group, decrypter, read) = wire_read::<D>(state.group, state.decrypter);
    (
        GroupConsumerView { group, decrypter, ..state },
        media(read, format.decoded(frame_of(read))),
    )
}

/// What asking for the next frame of the group comes to.
pub open spec fn group_frame<F: Container, D: FrameDecrypter>(
    format: &F,
    state: GroupStateOf<D>,
) -> (GroupStateOf<D>, FrameReadOutcome)
    decreases state.group.frames.len(),
{
    if deliverable(format, state.pending) {
        let (after, frame) = state.popped();
        (after, Poll::Ready(Ok(frame)))
    } else {
        let (next, result) = next_media::<F, D>(format, state);
        match result {
            Poll::Ready(Ok(Some(frames))) => group_frame::<F, D>(
                format,
                GroupConsumerView {
                    pending: with_all_decoded(format, state.pending, frames),
                    ..next
                },
            ),
            Poll::Ready(Ok(None)) => {
                let (after, frame) = next.popped();
                (after, Poll::Ready(Ok(frame)))
            },
            Poll::Ready(Err(error)) => (next, Poll::Ready(Err(error))),
            Poll::Pending => (next, Poll::Pending),
        }
    }
}

impl<F: Container, D: FrameDecrypter> GroupConsumer<F, D> {
    /// The format that the group is decoded with.
    pub closed spec fn format(self) -> F {
        self.format
    }

    /// A consumer of `group`, decoded with `format`, and opened by `decrypter`
    /// where there is one.
    pub fn new(group: Group, format: F, decrypter: Option<D>) -> (r: GroupConsumer<F, D>)
        ensures
            r@ == (GroupConsumerView {
                group: group@,
                decrypter: decrypter_state(decrypter),
                pending: Seq::empty(),
                started: false,
            }),
            r.format() == format,
    {
        let r = GroupConsumer { group, format, decrypter, pending: Vec::new(), started: false };
        assert(r@.pending =~= Seq::empty());
        r
    }

    /// The sequence number of the group within its track.
    pub fn sequence(&self) -> (r: u64)
        ensures
            r == self@.group.sequence,
    {
        self.group.sequence()
    }

    /// The group, to hand the events of the transport to.
    pub fn group_mut(&mut self) -> (r: &mut Group)
        ensures
            r@ == old(self)@.group,
            final(self)@ == (GroupConsumerView { group: final(r)@, ..old(self)@ }),
            final(self).format() == old(self).format(),
    {
        &mut self.group
    }

    /// Reads the media of the next wire frame.
    fn poll_read_frames(&mut self) -> (r: Poll<Result<Option<Vec<Frame>>, Error>>)
        ensures
            (final(self)@, media_outcome(r)) == next_media::<F, D>(
                &old(self).format(),
                old(self)@,
            ),
            final(self).format() == old(self).format(),
    {
        match self.decrypter.take() {
            Some(key) => {
                let mut group = Group::new(0);
                std::mem::swap(&mut group, &mut self.group);
                let mut reader = ProtectedFrame::new(group, key);
                let read = self.format.poll_read_frames(&mut reader);
                let (group, key) = reader.into_parts();
                self.group = group;
                self.decrypter = Some(key);
                read
            },
            None => self.format.poll_read(&mut self.group),
        }
    }

    /// Takes the first held frame, where there is one.
    fn pop_media(&mut self) -> (r: Option<Frame>)
        ensures
            (final(self)@, match r {
                Some(frame) => Some(frame@),
                None => None,
            }) == old(self)@.popped(),
            final(self).format() == old(self).format(),
    {
        if self.pending.len() == 0 {
            return None;
        }
        let ghost before = self@;
        let mut frame = self.pending.remove(0);
        frame.keyframe = frame.keyframe || !self.started;
        self.started = true;
        assert(self@.pending =~= before.pending.drop_first());
        Some(frame)
    }

    /// Holds one decoded frame, or times the last one with a marker.
    fn hold(&mut self, frame: Frame)
        ensures
            final(self)@ == (GroupConsumerView {
                pending: with_decoded(&old(self).format(), old(self)@.pending, frame@),
                ..old(self)@
            }),
            final(self).format() == old(self).format(),
    {
        let ghost before = self@;
        let ghost view = frame@;
        if let Some(bound) = self.format.end(&frame) {
            let count: usize = self.pending.len();
            if self.format.kind() == Kind::Video && count > 0 {
                close_duration(&mut self.pending[count - 1], bound);
            }
        } else {
            self.pending.push(frame);
        }
        assert(self@.pending =~= with_decoded(&self.format, before.pending, view));
    }

    /// Whether the first held frame may go out.
    fn is_deliverable(&self) -> (r: bool)
        ensures
            r == deliverable(&self.format(), self@.pending),
    {
        if self.pending.len() == 0 {
            return false;
        }
        !(self.format.kind() == Kind::Video && self.pending[0].duration.is_none()
            && self.pending.len() < 2)
    }

    /// Reads the next frame of the group, or `None` once the group ends.
    pub fn poll_read(&mut self) -> (r: Poll<Result<Option<Frame>, Error>>)
        ensures
            (final(self)@, frame_outcome(r)) == group_frame::<F, D>(
                &old(self).format(),
                old(self)@,
            ),
            final(self).format() == old(self).format(),
    {
        let ghost format = self.format;
        while !self.is_deliverable()
            invariant
                self.format == format,
                format == old(self).format,
                group_frame::<F, D>(&format, self@) == group_frame::<F, D>(&format, old(self)@),
            decreases self@.group.frames.len(),
        {
            let ghost before = self@;
            let mut frames = match self.poll_read_frames() {
                Poll::Ready(Ok(Some(frames))) => frames,
                Poll::Ready(Ok(None)) => return Poll::Ready(Ok(self.pop_media())),
                Poll::Ready(Err(error)) => return Poll::Ready(Err(error)),
                Poll::Pending => return Poll::Pending,
            };
            let ghost all = frame_views(frames@);
            let ghost moved = self@;
            while frames.len() > 0
                invariant
                    self.format == format,
                    self@ == (GroupConsumerView { pending: self@.pending, ..moved }),
                    with_all_decoded(&format, self@.pending, frame_views(frames@))
                        == with_all_decoded(&format, moved.pending, all),
                decreases frames@.len(),
            {
                let ghost held = frame_views(frames@);
                let frame = frames.remove(0);
                assert(frame_views(frames@) =~= held.drop_first());
                assert(held[0] == frame@);
                self.hold(frame);
            }
        }
        Poll::Ready(Ok(self.pop_media()))
    }
}

} // verus!
