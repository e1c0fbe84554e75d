//! Writing frames, and protecting them on the way.
use vstd::prelude::*;

use crate::container::reader::payload_view;
use crate::encryption::EncryptionError;
use crate::error::Error;
use crate::net::{Group, GroupView, WireFrameView};
use crate::time::Timestamp;

verus! {

/// Writes encoded payloads to an underlying frame stream.
pub trait FrameWriter: Sized {
    /// What the writer's answers depend on.
    type State;

    /// The state of the writer.
    open spec fn state(&self) -> Self::State {
        arbitrary()
    }

    /// Whether a payload of `len` bytes may be handed to a writer in `state`.
    open spec fn accepts(state: Self::State, len: nat) -> bool {
        arbitrary()
    }

    /// The next state, and what writing a frame in `state` comes to.
    open spec fn written(state: Self::State, timestamp: Timestamp, payload: Seq<u8>) -> (
        Self::State,
        Result<(), Error>,
    ) {
        arbitrary()
    }

    /// The number of the frame that is written next in `state`.
    open spec fn number(state: Self::State) -> u32 {
        arbitrary()
    }

    /// What a writer in `state` answers for, of a `payload` that was handed to it.
    open spec fn vouches(state: Self::State, payload: Seq<u8>) -> bool {
        arbitrary()
    }

    /// Writes one frame.
    fn write_frame(&mut self, timestamp: Timestamp, payload: Vec<u8>) -> (r: Result<(), Error>)
        requires
            Self::accepts((*old(self)).state(), payload@.len()),
        ensures
            ((*final(self)).state(), r) == Self::written(
                (*old(self)).state(),
                timestamp,
                payload@,
            ),
            Self::vouches((*old(self)).state(), payload@),
            forall|len: nat| #[trigger]
                Self::accepts((*final(self)).state(), len) == Self::accepts(
                    (*old(self)).state(),
                    len,
                ),
    ;

    /// The number of the next frame within the current group.
    fn next_sequence_number(&self) -> (r: u32)
        ensures
            r == Self::number(self.state()),
    ;
}

/// Whether a writer in `state` may be handed each of the wire frames.
pub open spec fn accepts_all<W: FrameWriter>(state: W::State, frames: Seq<WireFrameView>) -> bool {
    forall|i: int|
        0 <= i < frames.len() ==> W::accepts(state, (#[trigger] frames[i]).payload.len())
}

/// What writing a run of wire frames comes to, where `last` is what comes after
/// the last of them. The first write that fails ends the run.
pub open spec fn write_all<W: FrameWriter>(
    state: W::State,
    frames: Seq<WireFrameView>,
    last: Result<(), Error>,
) -> (W::State, Result<(), Error>)
    decreases frames.len(),
{
    if frames.len() == 0 {
        (state, last)
    } else {
        let (next, result) = W::written(state, frames[0].timestamp, frames[0].payload);
        if result is Ok {
            write_all::<W>(next, frames.drop_first(), last)
        } else {
            (next, result)
        }
    }
}

/// Whether a writer vouches for each of a run of wire frames that was handed to it, up
/// to the first write that fails.
pub open spec fn vouched_all<W: FrameWriter>(state: W::State, frames: Seq<WireFrameView>) -> bool
    decreases frames.len(),
{
    if frames.len() == 0 {
        true
    } else {
        let (next, result) = W::written(state, frames[0].timestamp, frames[0].payload);
        &&& W::vouches(state, frames[0].payload)
        &&& result is Ok ==> vouched_all::<W>(next, frames.drop_first())
    }
}

/// Protects a payload before it is written.
///
/// The sequence number is the number of the frame within its group. It is
/// independent of any counter the encrypter keeps.
pub trait FrameEncrypter: Sized {
    /// What the encrypter's answers depend on.
    type State;

    /// The state of the encrypter.
    open spec fn state(&self) -> Self::State {
        arbitrary()
    }

    /// Whether a payload of `len` bytes may be handed to an encrypter in `state`.
    open spec fn admits(state: Self::State, len: nat) -> bool {
        arbitrary()
    }

    /// Whether an encrypter in `state` may make `size` bytes of a payload of `len`.
    open spec fn yields(state: Self::State, len: nat, size: nat) -> bool {
        arbitrary()
    }

    /// The next state, and what protecting `plaintext` in `state` comes to.
    open spec fn seal(state: Self::State, sequence_number: u64, plaintext: Seq<u8>) -> (
        Self::State,
        Result<Seq<u8>, EncryptionError>,
    ) {
        arbitrary()
    }

    /// What an encrypter in `state` answers for, of the `payload` that it made of
    /// `plaintext`.
    open spec fn attests(state: Self::State, plaintext: Seq<u8>, payload: Seq<u8>) -> bool {
        arbitrary()
    }

    /// Protects one payload.
    fn encrypt(&mut self, sequence_number: u64, plaintext: &Vec<u8>) -> (r: Result<
        Vec<u8>,
        EncryptionError,
    >)
        requires
            Self::admits((*old(self)).state(), plaintext@.len()),
        ensures
            ((*final(self)).state(), payload_view(r)) == Self::seal(
                (*old(self)).state(),
                sequence_number,
                plaintext@,
            ),
            r matches Ok(payload) ==> Self::yields(
                (*old(self)).state(),
                plaintext@.len(),
                payload@.len(),
            ) && Self::attests((*old(self)).state(), plaintext@, payload@),
            forall|len: nat| #[trigger]
                Self::admits((*final(self)).state(), len) == Self::admits(
                    (*old(self)).state(),
                    len,
                ),
            forall|len: nat, size: nat| #[trigger]
                Self::yields((*final(self)).state(), len, size) == Self::yields(
                    (*old(self)).state(),
                    len,
                    size,
                ),
    ;
}

/// Forwards encryption through a mutable reference.
impl<T: FrameEncrypter> FrameEncrypter for &mut T {
    type State = T::State;

    open spec fn state(&self) -> T::State {
        (**self).state()
    }

    open spec fn admits(state: T::State, len: nat) -> bool {
        T::admits(state, len)
    }

    open spec fn yields(state: T::State, len: nat, size: nat) -> bool {
        T::yields(state, len, size)
    }

    open spec fn seal(state: T::State, sequence_number: u64, plaintext: Seq<u8>) -> (
        T::State,
        Result<Seq<u8>, EncryptionError>,
    ) {
        T::seal(state, sequence_number, plaintext)
    }

    open spec fn attests(state: T::State, plaintext: Seq<u8>, payload: Seq<u8>) -> bool {
        T::attests(state, plaintext, payload)
    }

    fn encrypt(&mut self, sequence_number: u64, plaintext: &Vec<u8>) -> (r: Result<
        Vec<u8>,
        EncryptionError,
    >) {
        (**self).encrypt(sequence_number, plaintext)
    }
}

/// A [`FrameWriter`] that protects each payload before forwarding it.
///
/// The sequence number handed to the encrypter is that of the underlying writer.
#[derive(Debug)]
pub struct ProtectedFrame<W, E> {
    pub inner: W,
    pub encrypter: E,
}

impl<W, E> ProtectedFrame<W, E> {
    /// Writes through `inner` what `encrypter` protected.
    pub fn new(inner: W, encrypter: E) -> (r: ProtectedFrame<W, E>)
        ensures
            r == (ProtectedFrame { inner, encrypter }),
    {
        ProtectedFrame { inner, encrypter }
    }

    /// The underlying writer.
    pub fn into_inner(self) -> (r: W)
        ensures
            r == self.inner,
    {
        self.inner
    }

    /// The underlying writer and the encrypter.
    pub fn into_parts(self) -> (r: (W, E))
        ensures
            r == (self.inner, self.encrypter),
    {
        (self.inner, self.encrypter)
    }
}

/// Whether a writer takes whatever an encrypter may make of a payload of `len` bytes.
pub open spec fn takes_yield<W: FrameWriter, E: FrameEncrypter>(
    writer: W::State,
    encrypter: E::State,
    len: nat,
) -> bool {
    forall|size: nat| #[trigger] E::yields(encrypter, len, size) ==> W::accepts(writer, size)
}

/// What a writer takes of an encrypter, it takes of one that yields the same.
proof fn lemma_takes_yield<W: FrameWriter, E: FrameEncrypter>(
    writer: W::State,
    encrypter: E::State,
    other_writer: W::State,
    other_encrypter: E::State,
    len: nat,
)
    requires
        takes_yield::<W, E>(writer, encrypter, len),
        forall|size: nat| #[trigger]
            E::yields(other_encrypter, len, size) == E::yields(encrypter, len, size),
        forall|size: nat| #[trigger]
            W::accepts(other_writer, size) == W::accepts(writer, size),
    ensures
        takes_yield::<W, E>(other_writer, other_encrypter, len),
{
    assert forall|size: nat| #[trigger] E::yields(other_encrypter, len, size) implies W::accepts(
        other_writer,
        size,
    ) by {
        assert(E::yields(encrypter, len, size));
        assert(W::accepts(writer, size));
    }
}

impl<W: FrameWriter, E: FrameEncrypter> FrameWriter for ProtectedFrame<W, E> {
    type State = (W::State, E::State);

    open spec fn state(&self) -> (W::State, E::State) {
        (self.inner.state(), self.encrypter.state())
    }

    open spec fn accepts(state: (W::State, E::State), len: nat) -> bool {
        &&& E::admits(state.1, len)
        &&& takes_yield::<W, E>(state.0, state.1, len)
    }

    open spec fn written(
        state: (W::State, E::State),
        timestamp: Timestamp,
        payload: Seq<u8>,
    ) -> ((W::State, E::State), Result<(), Error>) {
        let (encrypter, sealed) = E::seal(state.1, W::number(state.0) as u64, payload);
        match sealed {
            Ok(protected) => {
                let (inner, result) = W::written(state.0, timestamp, protected);
                ((inner, encrypter), result)
            },
            Err(error) => ((state.0, encrypter), Err(Error::Encryption(error))),
        }
    }

    open spec fn number(state: (W::State, E::State)) -> u32 {
        W::number(state.0)
    }

    /// For what the encrypter answers for, and the writer of what came of it.
    open spec fn vouches(state: (W::State, E::State), payload: Seq<u8>) -> bool {
        match E::seal(state.1, W::number(state.0) as u64, payload).1 {
            Ok(protected) => E::attests(state.1, payload, protected) && W::vouches(
                state.0,
                protected,
            ),
            Err(_) => true,
        }
    }

    fn write_frame(&mut self, timestamp: Timestamp, payload: Vec<u8>) -> (r: Result<(), Error>) {
        let ghost state = self.state();
        let sequence_number: u64 = self.inner.next_sequence_number() as u64;
        let sealed = self.encrypter.encrypt(sequence_number, &payload);
        let ghost encrypter = self.encrypter.state();
        let result = match sealed {
            Ok(protected) => {
                assert(E::yields(state.1, payload@.len(), protected@.len()));
                self.inner.write_frame(timestamp, protected)
            },
            Err(error) => Err(Error::Encryption(error)),
        };
        proof {
            let after = self.state();
            assert forall|len: nat| #[trigger] Self::accepts(after, len) == Self::accepts(
                state,
                len,
            ) by {
                assert(E::admits(after.1, len) == E::admits(state.1, len));
                assert forall|size: nat| #[trigger]
                    E::yields(state.1, len, size) == E::yields(after.1, len, size) by {
                    assert(E::yields(encrypter, len, size) == E::yields(state.1, len, size));
                }
                assert forall|size: nat| #[trigger]
                    W::accepts(state.0, size) == W::accepts(after.0, size) by {
                    assert(W::accepts(after.0, size) == W::accepts(state.0, size));
                }
                if takes_yield::<W, E>(state.0, state.1, len) {
                    lemma_takes_yield::<W, E>(state.0, state.1, after.0, after.1, len);
                }
                if takes_yield::<W, E>(after.0, after.1, len) {
                    lemma_takes_yield::<W, E>(after.0, after.1, state.0, state.1, len);
                }
            }
        }
        result
    }

    fn next_sequence_number(&self) -> (r: u32) {
        self.inner.next_sequence_number()
    }
}

/// A group takes payloads as its wire frames.
impl FrameWriter for Group {
    type State = GroupView;

    open spec fn state(&self) -> GroupView {
        self@
    }

    open spec fn accepts(state: GroupView, len: nat) -> bool {
        true
    }

    open spec fn written(state: GroupView, timestamp: Timestamp, payload: Seq<u8>) -> (
        GroupView,
        Result<(), Error>,
    ) {
        let (group, result) = state.wrote(WireFrameView { timestamp, payload });
        (
            group,
            match result {
                Ok(_) => Ok(()),
                Err(error) => Err(Error::Moq(error)),
            },
        )
    }

    open spec fn number(state: GroupView) -> u32 {
        state.written
    }

    open spec fn vouches(state: GroupView, payload: Seq<u8>) -> bool {
        true
    }

    fn write_frame(&mut self, timestamp: Timestamp, payload: Vec<u8>) -> (r: Result<(), Error>) {
        match Group::write_frame(self, timestamp, payload) {
            Ok(_) => Ok(()),
            Err(error) => Err(Error::Moq(error)),
        }
    }

    fn next_sequence_number(&self) -> (r: u32) {
        self.frame_count()
    }
}

/// Writes payloads into a group that is lent to it.
#[derive(Debug)]
pub struct MoqFrameWriter<'a> {
    pub group: &'a mut Group,
}

impl<'a> FrameWriter for MoqFrameWriter<'a> {
    type State = GroupView;

    open spec fn state(&self) -> GroupView {
        (*self.group)@
    }

    open spec fn accepts(state: GroupView, len: nat) -> bool {
        Group::accepts(state, len)
    }

    open spec fn written(state: GroupView, timestamp: Timestamp, payload: Seq<u8>) -> (
        GroupView,
        Result<(), Error>,
    ) {
        Group::written(state, timestamp, payload)
    }

    open spec fn number(state: GroupView) -> u32 {
        <Group as FrameWriter>::number(state)
    }

    open spec fn vouches(state: GroupView, payload: Seq<u8>) -> bool {
        Group::vouches(state, payload)
    }

    fn write_frame(&mut self, timestamp: Timestamp, payload: Vec<u8>) -> (r: Result<(), Error>)
        ensures
            *final(final(self).group) == *final(old(self).group),
    {
        FrameWriter::write_frame(&mut *self.group, timestamp, payload)
    }

    fn next_sequence_number(&self) -> (r: u32) {
        self.group.frame_count()
    }
}

/// Writing into a group that was lent comes to what writing into the group itself does.
pub proof fn law_a_lent_group_is_written_alike<E: FrameEncrypter>(
    group: GroupView,
    encrypter: E::State,
    frames: Seq<WireFrameView>,
    last: Result<(), Error>,
)
    ensures
        write_all::<ProtectedFrame<MoqFrameWriter<'static>, E>>((group, encrypter), frames, last)
            == write_all::<ProtectedFrame<Group, E>>((group, encrypter), frames, last),
        vouched_all::<ProtectedFrame<MoqFrameWriter<'static>, E>>((group, encrypter), frames)
            == vouched_all::<ProtectedFrame<Group, E>>((group, encrypter), frames),
    decreases frames.len(),
{
    if frames.len() > 0 {
        let (next, _) = ProtectedFrame::<Group, E>::written(
            (group, encrypter),
            frames[0].timestamp,
            frames[0].payload,
        );
        law_a_lent_group_is_written_alike::<E>(next.0, next.1, frames.drop_first(), last);
    }
}

} // verus!
