//! What holds of a run of frames that moq-secure protects.
use vstd::prelude::*;

use super::moq_secure_adapter::{
    derived_public, header_bytes, opened_as, opens, signs, DecrypterView, EncrypterView,
    MoqSecureDecrypter, MoqSecureEncrypter,
};
use crate::container::group_runs::{
    after_frames, law_protected_frames_come_back, read_as, rescaled, unlocks, Locked,
};
use crate::container::reader::{ProtectedFrame, ReadFrameView};
use crate::container::track_runs::{steady, Alike};
use crate::container::writer::{vouched_all, write_all};
use crate::container::{FrameDecrypter, FrameEncrypter, FrameReader, FrameWriter};
use crate::net::{Group, GroupView, WireFrameView};

verus! {

/// A reader of a group that opens what moq-secure protected.
pub type Unlocked = ProtectedFrame<Group, MoqSecureDecrypter>;

/// Whether a reader can open the next `count` frames of an encrypter: it has the key,
/// and the public key where they are signed. Where they are not, and the stream is, its
/// lease has to last.
pub open spec fn opens_run(state: EncrypterView, reader: DecrypterView, count: nat) -> bool {
    &&& reader.keys.contains_key(state.key_id)
    &&& reader.keys[state.key_id] == state.keys[state.key_id]
    &&& if signs(state.n_signed, state.maybe_sign) {
        reader.public == derived_public(state.secret)
    } else {
        state.n_signed == 0 || reader.lease >= count
    }
}

/// What the writer vouched for, a fitting reader unlocks.
proof fn lemma_unlocks(
    group: GroupView,
    encrypter: EncrypterView,
    reader: DecrypterView,
    frames: Seq<WireFrameView>,
)
    requires
        write_all::<Locked<MoqSecureEncrypter>>((group, encrypter), frames, Ok(())).1 is Ok,
        vouched_all::<Locked<MoqSecureEncrypter>>((group, encrypter), frames),
        opens_run(encrypter, reader, frames.len()),
    ensures
        unlocks::<MoqSecureEncrypter, MoqSecureDecrypter>(
            encrypter,
            reader,
            group.written,
            frames,
        ),
    decreases frames.len(),
{
    if frames.len() > 0 {
        let number = group.written as u64;
        let plaintext = frames[0].payload;
        let (locked, sealed) = MoqSecureEncrypter::seal(encrypter, number, plaintext);
        let frame = sealed->Ok_0;
        assert(sealed is Ok);
        assert(MoqSecureEncrypter::attests(encrypter, plaintext, frame));
        assert(opens(encrypter, reader));
        let (unlocked, opened) = MoqSecureDecrypter::open(reader, number, frame);
        assert(opened == opened_as(plaintext));
        let signed = signs(encrypter.n_signed, encrypter.maybe_sign);
        let header = header_bytes(encrypter.key_id, encrypter.ctr, encrypter.n_signed, signed);
        assert(frame.take(17)[14] == frame[14] && header[14] == encrypter.n_signed);
        assert(frame.take(17)[15] == frame[15]);
        assert(header[15] == if signed {
            1u8
        } else {
            0u8
        });
        assert(opens_run(locked, unlocked, (frames.len() - 1) as nat));
        let (next, _) = Locked::<MoqSecureEncrypter>::written(
            (group, encrypter),
            frames[0].timestamp,
            plaintext,
        );
        assert(next.1 == locked);
        assert(next.0.written == group.written + 1);
        lemma_unlocks(next.0, locked, unlocked, frames.drop_first());
    }
}

/// What was written into a group under the protection of moq-secure, a reader that has
/// the key, and the public key or a lease where the stream is signed, reads out of it:
/// every payload comes back, with its timestamp at the timescale of the group and under
/// its number.
///
/// That the writer vouches for the frames is what writing them ensures.
pub proof fn law_moq_secure_frames_come_back(
    group: GroupView,
    encrypter: EncrypterView,
    reader: DecrypterView,
    frames: Seq<WireFrameView>,
    index: nat,
)
    requires
        group.frames.len() == 0,
        group.read == group.written,
        write_all::<Locked<MoqSecureEncrypter>>((group, encrypter), frames, Ok(())).1 is Ok,
        vouched_all::<Locked<MoqSecureEncrypter>>((group, encrypter), frames),
        opens_run(encrypter, reader, frames.len()),
        index < frames.len(),
    ensures
        ({
            let written = write_all::<Locked<MoqSecureEncrypter>>(
                (group, encrypter),
                frames,
                Ok(()),
            ).0.0;
            Unlocked::next(after_frames::<Unlocked>((written, reader), index)).1 == read_as(
                group.read + index,
                rescaled(frames[index as int], group.timescale),
            )
        }),
{
    lemma_unlocks(group, encrypter, reader, frames);
    law_protected_frames_come_back::<MoqSecureEncrypter, MoqSecureDecrypter>(
        group,
        encrypter,
        reader,
        frames,
        index,
    );
}

/// A reader in a state that stays, and the frames of a stream without signatures.
pub open spec fn unsigned(reader: DecrypterView) -> Alike<DecrypterView> {
    Alike {
        states: |state: Option<DecrypterView>| state == Some(reader),
        frames: |frame: ReadFrameView| frame.payload.len() > 14 && frame.payload[14] == 0,
    }
}

/// A stream without signatures leaves a reader as it is, frame by frame: what becomes of
/// a frame does not depend on those that were read before it.
pub proof fn law_an_unsigned_stream_is_steady(reader: DecrypterView)
    ensures
        steady::<MoqSecureDecrypter>(unsigned(reader)),
{
}

} // verus!
