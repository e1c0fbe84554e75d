//! Reading frames, and opening protected ones.
use vstd::prelude::*;

use crate::encryption::EncryptionError;
use crate::error::Error;
use crate::net::{Group, GroupView};
use crate::poll::Poll;
use crate::time::Timestamp;

verus! {

/// A frame as it comes from a frame reader.
#[derive(Debug, Clone)]
pub struct ReadFrame {
    /// The number of the frame within its group.
    pub sequence_number: u32,
    /// The presentation time the transport carried.
    pub timestamp: Timestamp,
    /// The encoded payload; decrypted where the reader is a [`ProtectedFrame`].
    pub payload: Vec<u8>,
}

/// What a [`ReadFrame`] holds.
#[verifier::ext_equal]
pub struct ReadFrameView {
    pub sequence_number: u32,
    pub timestamp: Timestamp,
    pub payload: Seq<u8>,
}

impl View for ReadFrame {
    type V = ReadFrameView;

    open spec fn view(&self) -> ReadFrameView {
        ReadFrameView {
            sequence_number: self.sequence_number,
            timestamp: self.timestamp,
            payload: self.payload@,
        }
    }
}

/// What came of asking for a frame: the frame, the end of the group, an error,
/// or nothing yet.
pub type FrameOutcome = Poll<Result<Option<ReadFrameView>, Error>>;

/// The outcome of a read, with its frame by its view.
pub open spec fn outcome(read: Poll<Result<Option<ReadFrame>, Error>>) -> FrameOutcome {
    match read {
        Poll::Ready(Ok(Some(frame))) => Poll::Ready(Ok(Some(frame@))),
        Poll::Ready(Ok(None)) => Poll::Ready(Ok(None)),
        Poll::Ready(Err(error)) => Poll::Ready(Err(error)),
        Poll::Pending => Poll::Pending,
    }
}

/// Reads encoded payloads from an underlying frame stream.
pub trait FrameReader: Sized {
    /// What the reader's answers depend on.
    type State;

    /// The state of the reader.
    open spec fn state(&self) -> Self::State {
        arbitrary()
    }

    /// The next state, and what a read in `state` comes to.
    open spec fn next(state: Self::State) -> (Self::State, FrameOutcome) {
        arbitrary()
    }

    /// The number of the frame that is read next in `state`.
    open spec fn number(state: Self::State) -> u32 {
        arbitrary()
    }

    /// Polls and consumes the next frame; `None` once the group has ended.
    fn poll_read_frame(&mut self) -> (r: Poll<Result<Option<ReadFrame>, Error>>)
        ensures
            ((*final(self)).state(), outcome(r)) == Self::next((*old(self)).state()),
    ;

    /// The sequence number of the next frame.
    fn next_sequence_number(&self) -> (r: u32)
        ensures
            r == Self::number(self.state()),
    ;
}

/// Forwards reads through a mutable reference.
impl<T: FrameReader> FrameReader for &mut T {
    type State = T::State;

    open spec fn state(&self) -> T::State {
        (**self).state()
    }

    open spec fn next(state: T::State) -> (T::State, FrameOutcome) {
        T::next(state)
    }

    open spec fn number(state: T::State) -> u32 {
        T::number(state)
    }

    fn poll_read_frame(&mut self) -> (r: Poll<Result<Option<ReadFrame>, Error>>) {
        (**self).poll_read_frame()
    }

    fn next_sequence_number(&self) -> (r: u32) {
        (**self).next_sequence_number()
    }
}

/// A group reads its wire frames in order.
impl FrameReader for Group {
    type State = GroupView;

    open spec fn state(&self) -> GroupView {
        self@
    }

    open spec fn next(state: GroupView) -> (GroupView, FrameOutcome) {
        if state.frames.len() > 0 {
            let frame = ReadFrameView {
                sequence_number: state.read,
                timestamp: state.frames[0].timestamp,
                payload: state.frames[0].payload,
            };
            (state.popped(), Poll::Ready(Ok(Some(frame))))
        } else {
            (
                state,
                match state.end() {
                    Poll::Ready(Ok(_)) => Poll::Ready(Ok(None)),
                    Poll::Ready(Err(error)) => Poll::Ready(Err(Error::Moq(error))),
                    Poll::Pending => Poll::Pending,
                },
            )
        }
    }

    open spec fn number(state: GroupView) -> u32 {
        state.read
    }

    fn poll_read_frame(&mut self) -> (r: Poll<Result<Option<ReadFrame>, Error>>) {
        if let Some((sequence_number, frame)) = self.pop_frame() {
            let frame = ReadFrame {
                sequence_number,
                timestamp: frame.timestamp,
                payload: frame.payload,
            };
            return Poll::Ready(Ok(Some(frame)));
        }
        match self.poll_finished() {
            Poll::Ready(Ok(_)) => Poll::Ready(Ok(None)),
            Poll::Ready(Err(error)) => Poll::Ready(Err(Error::Moq(error))),
            Poll::Pending => Poll::Pending,
        }
    }

    fn next_sequence_number(&self) -> (r: u32) {
        self.next_number()
    }
}

/// Opens an encoded payload after it was read.
pub trait FrameDecrypter: Sized {
    /// What the decrypter's answers depend on.
    type State;

    /// The state of the decrypter.
    open spec fn state(&self) -> Self::State {
        arbitrary()
    }

    /// The next state, and what opening `ciphertext` in `state` comes to.
    open spec fn open(
        state: Self::State,
        sequence_number: u64,
        ciphertext: Seq<u8>,
    ) -> (Self::State, Result<Seq<u8>, EncryptionError>) {
        arbitrary()
    }

    /// Opens one payload.
    ///
    /// `sequence_number` is the number of the frame within its group. A
    /// decrypter may ignore it where the protected format carries a counter of
    /// its own.
    fn decrypt(&mut self, sequence_number: u64, ciphertext: &Vec<u8>) -> (r: Result<
        Vec<u8>,
        EncryptionError,
    >)
        ensures
            ((*final(self)).state(), payload_view(r)) == Self::open(
                (*old(self)).state(),
                sequence_number,
                ciphertext@,
            ),
    ;
}

/// A payload or the reason there is none, with the payload by its view.
pub open spec fn payload_view(r: Result<Vec<u8>, EncryptionError>) -> Result<
    Seq<u8>,
    EncryptionError,
> {
    match r {
        Ok(payload) => Ok(payload@),
        Err(error) => Err(error),
    }
}

/// Allows a mutable reference to be used as a decrypter.
impl<T: FrameDecrypter> FrameDecrypter for &mut T {
    type State = T::State;

    open spec fn state(&self) -> T::State {
        (**self).state()
    }

    open spec fn open(state: T::State, sequence_number: u64, ciphertext: Seq<u8>) -> (
        T::State,
        Result<Seq<u8>, EncryptionError>,
    ) {
        T::open(state, sequence_number, ciphertext)
    }

    fn decrypt(&mut self, sequence_number: u64, ciphertext: &Vec<u8>) -> (r: Result<
        Vec<u8>,
        EncryptionError,
    >) {
        (**self).decrypt(sequence_number, ciphertext)
    }
}

/// Allows a boxed decrypter to be used as a decrypter.
impl<T: FrameDecrypter> FrameDecrypter for Box<T> {
    type State = T::State;

    open spec fn state(&self) -> T::State {
        (**self).state()
    }

    open spec fn open(state: T::State, sequence_number: u64, ciphertext: Seq<u8>) -> (
        T::State,
        Result<Seq<u8>, EncryptionError>,
    ) {
        T::open(state, sequence_number, ciphertext)
    }

    fn decrypt(&mut self, sequence_number: u64, ciphertext: &Vec<u8>) -> (r: Result<
        Vec<u8>,
        EncryptionError,
    >) {
        (**self).decrypt(sequence_number, ciphertext)
    }
}

/// A [`FrameReader`] that decrypts each payload before returning it.
#[derive(Debug)]
pub struct ProtectedFrame<R, D> {
    pub inner: R,
    pub decrypter: D,
}

impl<R, D> ProtectedFrame<R, D> {
    /// Reads through `inner`, and opens with `decrypter`.
    pub fn new(inner: R, decrypter: D) -> (r: ProtectedFrame<R, D>)
        ensures
            r == (ProtectedFrame { inner, decrypter }),
    {
        ProtectedFrame { inner, decrypter }
    }

    /// The underlying reader.
    pub fn into_inner(self) -> (r: R)
        ensures
            r == self.inner,
    {
        self.inner
    }

    /// The underlying reader and the decrypter.
    pub fn into_parts(self) -> (r: (R, D))
        ensures
            r == (self.inner, self.decrypter),
    {
        (self.inner, self.decrypter)
    }
}

/// What a protected read comes to, given the state of the decrypter and what
/// the underlying read came to.
pub open spec fn opened<D: FrameDecrypter>(decrypter: D::State, read: FrameOutcome) -> (
    D::State,
    FrameOutcome,
) {
    match read {
        Poll::Ready(Ok(Some(frame))) => {
            let (after, result) = D::open(
                decrypter,
                frame.sequence_number as u64,
                frame.payload,
            );
            (
                after,
                match result {
                    Ok(payload) => Poll::Ready(Ok(Some(ReadFrameView { payload, ..frame }))),
                    Err(error) => Poll::Ready(Err(Error::Encryption(error))),
                },
            )
        },
        _ => (decrypter, read),
    }
}

impl<R: FrameReader, D: FrameDecrypter> FrameReader for ProtectedFrame<R, D> {
    type State = (R::State, D::State);

    open spec fn state(&self) -> (R::State, D::State) {
        (self.inner.state(), self.decrypter.state())
    }

    open spec fn next(state: (R::State, D::State)) -> ((R::State, D::State), FrameOutcome) {
        let (inner, read) = R::next(state.0);
        let (decrypter, result) = opened::<D>(state.1, read);
        ((inner, decrypter), result)
    }

    open spec fn number(state: (R::State, D::State)) -> u32 {
        R::number(state.0)
    }

    fn poll_read_frame(&mut self) -> (r: Poll<Result<Option<ReadFrame>, Error>>) {
        let frame = match self.inner.poll_read_frame() {
            Poll::Pending => return Poll::Pending,
            Poll::Ready(Err(error)) => return Poll::Ready(Err(error)),
            Poll::Ready(Ok(None)) => return Poll::Ready(Ok(None)),
            Poll::Ready(Ok(Some(frame))) => frame,
        };
        match self.decrypter.decrypt(frame.sequence_number as u64, &frame.payload) {
            Ok(payload) => Poll::Ready(
                Ok(
                    Some(
                        ReadFrame {
                            sequence_number: frame.sequence_number,
                            timestamp: frame.timestamp,
                            payload,
                        },
                    ),
                ),
            ),
            Err(error) => Poll::Ready(Err(Error::Encryption(error))),
        }
    }

    fn next_sequence_number(&self) -> (r: u32) {
        self.inner.next_sequence_number()
    }
}

} // verus!
