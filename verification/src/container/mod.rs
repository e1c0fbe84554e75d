//! Container formats.
//!
//! A container decides how one or more media samples are laid out inside a wire
//! frame, including framing overhead. Each format implements [`Container`].
use vstd::prelude::*;

use crate::net::{Group, WireFrameView};
use crate::poll::Poll;
use crate::time::{Timestamp, MAX_VARINT, MICROS_PER_SECOND};

pub mod buffer;
mod consumer;
pub mod group;
pub mod group_laws;
pub mod group_live;
pub mod group_runs;
pub mod loc;
pub mod progress;
pub mod reader;
pub mod schedule;
pub mod track_breaks;
pub mod track_ends;
pub mod track_laws;
pub mod track_live;
pub mod track_pace;
pub mod track_runs;
pub mod writer;

use reader::{FrameOutcome, ReadFrameView};
use writer::{accepts_all, vouched_all, write_all};

pub use crate::error::Error;
pub use consumer::Consumer;
pub use group::GroupConsumer;
pub use reader::{FrameDecrypter, FrameReader, ProtectedFrame as ProtectedReadFrame, ReadFrame};
pub use schedule::{Event, Reset};
pub use writer::{
    FrameEncrypter, FrameWriter, MoqFrameWriter, ProtectedFrame as ProtectedWriteFrame,
};

verus! {

/// The media role that decides how a container represents frame durations.
#[derive(Clone, Copy, Debug, PartialEq, Eq, Structural)]
pub enum Kind {
    /// Audio packets carry codec-defined durations.
    Audio,
    /// Video frames can need a duration marker at the end of a group.
    Video,
    /// Opaque data has no sample durations.
    Data,
}

/// A decoded media frame.
#[derive(Clone, Debug)]
pub struct Frame {
    /// Presentation timestamp, at the container's native scale.
    pub timestamp: Timestamp,
    /// Sample duration in microseconds, where the container reports one.
    pub duration: Option<Timestamp>,
    /// Encoded codec payload.
    pub payload: Vec<u8>,
    /// Whether this frame opens a group, or is a video keyframe.
    ///
    /// A container without keyframe metadata leaves it false; the first frame of
    /// each group is promoted by the reader of the group.
    pub keyframe: bool,
}

/// What a [`Frame`] holds.
#[verifier::ext_equal]
pub struct FrameView {
    pub timestamp: Timestamp,
    pub duration: Option<Timestamp>,
    pub payload: Seq<u8>,
    pub keyframe: bool,
}

impl View for Frame {
    type V = FrameView;

    open spec fn view(&self) -> FrameView {
        FrameView {
            timestamp: self.timestamp,
            duration: self.duration,
            payload: self.payload@,
            keyframe: self.keyframe,
        }
    }
}

/// The views of a run of frames.
pub open spec fn frame_views(frames: Seq<Frame>) -> Seq<FrameView> {
    frames.map_values(|frame: Frame| frame@)
}

impl FrameView {
    /// The duration of a frame that ends at `bound`: the microseconds up to it,
    /// where there are any and they can be written down.
    pub open spec fn duration_until(self, bound: Timestamp) -> Option<Timestamp> {
        let delta = bound.micros() - self.timestamp.micros();
        if 0 < delta <= MAX_VARINT {
            Some(Timestamp::at(delta as u64, MICROS_PER_SECOND))
        } else {
            None
        }
    }

    /// The frame stamped with the duration ending at `bound`, unless it has one.
    pub open spec fn closed_at(self, bound: Timestamp) -> FrameView {
        if self.duration is Some {
            self
        } else {
            FrameView { duration: self.duration_until(bound), ..self }
        }
    }

    /// The frame at its place in the group: the first one is a keyframe.
    pub open spec fn promoted(self, first: bool) -> FrameView {
        FrameView { keyframe: self.keyframe || first, ..self }
    }
}

/// Stamps `frame` with the duration ending at `bound`, unless it has one.
///
/// A bound that is not after the frame leaves it as it is.
pub fn close_duration(frame: &mut Frame, bound: Timestamp)
    ensures
        final(frame)@ == old(frame)@.closed_at(bound),
{
    if frame.duration.is_some() {
        return;
    }
    let end: u128 = bound.as_micros();
    let start: u128 = frame.timestamp.as_micros();
    if end <= start {
        return;
    }
    let delta: u128 = end - start;
    if delta > MAX_VARINT as u128 {
        return;
    }
    if let Ok(duration) = Timestamp::from_micros(delta as u64) {
        frame.duration = Some(duration);
    }
}

/// A non-keyframe frame arrived with no open group.
#[derive(Debug, Clone, Copy, PartialEq, Eq, Structural)]
pub struct MissingKeyframe;

/// An explicit endpoint precedes the last frame of an ordered video group.
#[derive(Debug, Clone, Copy, PartialEq, Eq, Structural)]
pub struct InvalidEnd;

/// What came of asking for media: the frames of one wire frame, the end of the
/// group, an error, or nothing yet.
pub type MediaOutcome = Poll<Result<Option<Seq<FrameView>>, Error>>;

/// Frames or the reason there are none, with the frames by their views.
pub open spec fn media_view(r: Result<Vec<Frame>, Error>) -> Result<Seq<FrameView>, Error> {
    match r {
        Ok(frames) => Ok(frame_views(frames@)),
        Err(error) => Err(error),
    }
}

/// The outcome of a read of media, with its frames by their views.
pub open spec fn media_outcome(read: Poll<Result<Option<Vec<Frame>>, Error>>) -> MediaOutcome {
    match read {
        Poll::Ready(Ok(Some(frames))) => Poll::Ready(Ok(Some(frame_views(frames@)))),
        Poll::Ready(Ok(None)) => Poll::Ready(Ok(None)),
        Poll::Ready(Err(error)) => Poll::Ready(Err(error)),
        Poll::Pending => Poll::Pending,
    }
}

/// The frame that a read came to, where it came to one.
pub open spec fn frame_of(read: FrameOutcome) -> ReadFrameView {
    read->Ready_0->Ok_0->Some_0
}

/// What reading media comes to, given what reading a wire frame came to and what
/// decoding that frame comes to.
pub open spec fn media(
    read: FrameOutcome,
    decoded: Result<Seq<FrameView>, Error>,
) -> MediaOutcome {
    match read {
        Poll::Ready(Ok(Some(_))) => match decoded {
            Ok(frames) => Poll::Ready(Ok(Some(frames))),
            Err(error) => Poll::Ready(Err(error)),
        },
        Poll::Ready(Ok(None)) => Poll::Ready(Ok(None)),
        Poll::Ready(Err(error)) => Poll::Ready(Err(error)),
        Poll::Pending => Poll::Pending,
    }
}

/// Encodes media frames into wire frames and decodes them again.
pub trait Container: Sized {
    /// The media frames of one wire frame, or the reason it has none.
    open spec fn decoded(&self, frame: ReadFrameView) -> Result<Seq<FrameView>, Error> {
        arbitrary()
    }

    /// The end of presentation that `frame` announces, where it is a marker and
    /// no media.
    open spec fn bound(&self, frame: FrameView) -> Option<Timestamp> {
        arbitrary()
    }

    /// The role of the track.
    open spec fn role(&self) -> Kind {
        arbitrary()
    }

    /// Whether the wire frames of `frames` fit in memory.
    open spec fn encodable(&self, frames: Seq<FrameView>) -> bool {
        arbitrary()
    }

    /// The wire frames of `frames`, up to the first that has none, and the reason
    /// for that.
    open spec fn encoded(&self, frames: Seq<FrameView>) -> (Seq<WireFrameView>, Result<(), Error>) {
        arbitrary()
    }

    /// Writes media frames as wire frames.
    fn write<W: FrameWriter>(&self, output: &mut W, frames: &Vec<Frame>) -> (r: Result<(), Error>)
        requires
            self.encodable(frame_views(frames@)),
            accepts_all::<W>((*old(output)).state(), self.encoded(frame_views(frames@)).0),
        ensures
            ((*final(output)).state(), r) == write_all::<W>(
                (*old(output)).state(),
                self.encoded(frame_views(frames@)).0,
                self.encoded(frame_views(frames@)).1,
            ),
            vouched_all::<W>((*old(output)).state(), self.encoded(frame_views(frames@)).0),
    ;

    /// Decodes one wire frame.
    fn decode(&self, frame: ReadFrame) -> (r: Result<Vec<Frame>, Error>)
        ensures
            media_view(r) == self.decoded(frame@),
    ;

    /// The end of presentation that `frame` announces, where it is a marker.
    fn end(&self, frame: &Frame) -> (r: Option<Timestamp>)
        ensures
            r == self.bound(frame@),
    ;

    /// The role of the track.
    fn kind(&self) -> (r: Kind)
        ensures
            r == self.role(),
    ;

    /// Writes what a format puts at the end of a group; nothing by default.
    fn finish_group<W: FrameWriter>(&self, output: &mut W, end: Option<Timestamp>) -> (r: Result<
        (),
        Error,
    >)
        default_ensures
            r == Ok::<(), Error>(()),
            *final(output) == *old(output),
    {
        Ok(())
    }

    /// Reads the media of the next wire frame through `reader`.
    ///
    /// The reader may be a [`ProtectedReadFrame`], in which case each payload has
    /// been decrypted before the container parses it.
    fn poll_read_frames<R: FrameReader>(&self, reader: &mut R) -> (r: Poll<
        Result<Option<Vec<Frame>>, Error>,
    >)
        ensures
            ({
                let (state, read) = R::next((*old(reader)).state());
                &&& (*final(reader)).state() == state
                &&& media_outcome(r) == media(read, self.decoded(frame_of(read)))
            }),
    {
        match reader.poll_read_frame() {
            Poll::Pending => Poll::Pending,
            Poll::Ready(Err(error)) => Poll::Ready(Err(error)),
            Poll::Ready(Ok(None)) => Poll::Ready(Ok(None)),
            Poll::Ready(Ok(Some(frame))) => match self.decode(frame) {
                Ok(frames) => Poll::Ready(Ok(Some(frames))),
                Err(error) => Poll::Ready(Err(error)),
            },
        }
    }

    /// Reads the media of the next wire frame of an unprotected group.
    fn poll_read(&self, group: &mut Group) -> (r: Poll<Result<Option<Vec<Frame>>, Error>>)
        ensures
            ({
                let (state, read) = Group::next(old(group)@);
                &&& final(group)@ == state
                &&& media_outcome(r) == media(read, self.decoded(frame_of(read)))
            }),
    {
        self.poll_read_frames(group)
    }
}

} // verus!
