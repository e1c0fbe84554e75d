//! What holds of a track while it still arrives.
//!
//! These laws speak of the frames that the groups at hand decode to: how long a group that
//! stalls or is missing is waited for, where reading goes on once it is not, and what breaks
//! the timeline.
use vstd::prelude::*;

use super::buffer::{
    decode_all, decode_once, decode_one, delivery, earliest, holds_media, latest, BufferView,
    ItemView, Reading,
};
use super::group_laws::{contents, law_delivery_is_in_order};
use super::group_live::has_media;
use super::group_runs::{
    all_seen, is_greatest, is_least, lemma_spans_once, lemma_valid_part, once_seen, one_seen, spans,
    valid_frames,
};
use super::schedule::{
    classified, detected, earliest_at, find_reset, first_timed, known, last_timed, latest_at,
    settled, ConsumerView, Reset, StateOf,
};
use super::track_runs::{among, lemma_alike_once, steady, Alike};
use super::{Container, FrameDecrypter, FrameView};
use crate::error::Error;
use crate::poll::Poll;
use crate::time::Timestamp;

verus! {

/// Whether everything at hand of a group decodes, where `seen` is what was decoded of it
/// before, and nothing went wrong on the way.
pub open spec fn sound<F: Container, D: FrameDecrypter>(
    format: &F,
    alike: Alike<D::State>,
    at: Reading<D::State>,
    seen: Seq<FrameView>,
) -> bool {
    &&& steady::<D>(alike)
    &&& (alike.states)(at.decrypter)
    &&& among(alike, at.buffer.group)
    &&& at.buffer.group.aborted is None
    &&& !(decode_all::<F, D>(format, at).1 matches Poll::Ready(Err(_)))
    &&& valid_frames(seen + all_seen::<F, D>(format, at))
    &&& spans(format, at.buffer, seen)
    &&& holds_media(at.buffer.items) ==> has_media(format, seen)
}

/// What a group has to show.
#[verifier::ext_equal]
pub struct Prospect {
    /// What was decoded of it once its first media is known.
    pub opening: Seq<FrameView>,
    /// All that was decoded of it, or is at hand.
    pub total: Seq<FrameView>,
    /// The group once all of it is decoded.
    pub whole: BufferView,
    /// How what is at hand of it ends.
    pub end: Poll<Result<(), Error>>,
}

/// What a group has to show, where `seen` is what was decoded of it before.
pub open spec fn prospect<F: Container, D: FrameDecrypter>(
    format: &F,
    at: Reading<D::State>,
    seen: Seq<FrameView>,
) -> Prospect {
    Prospect {
        opening: seen + one_seen::<F, D>(format, at),
        total: seen + all_seen::<F, D>(format, at),
        whole: decode_all::<F, D>(format, at).0.buffer,
        end: decode_all::<F, D>(format, at).1,
    }
}

proof fn lemma_has_media_more<F: Container>(
    format: &F,
    a: Seq<FrameView>,
    b: Seq<FrameView>,
)
    ensures
        has_media(format, a + b) == (has_media(format, a) || has_media(format, b)),
{
    if has_media(format, a) {
        let i = choose|i: int| 0 <= i < a.len() && !(format.bound(#[trigger] a[i]) is Some);
        assert((a + b)[i] == a[i]);
    }
    if has_media(format, b) {
        let i = choose|i: int| 0 <= i < b.len() && !(format.bound(#[trigger] b[i]) is Some);
        assert((a + b)[a.len() + i] == b[i]);
    }
    if has_media(format, a + b) {
        let i = choose|i: int|
            0 <= i < (a + b).len() && !(format.bound(#[trigger] (a + b)[i]) is Some);
        if i < a.len() {
            assert((a + b)[i] == a[i]);
        } else {
            assert((a + b)[i] == b[i - a.len()]);
        }
    }
}

/// Held items are media only where media was decoded.
proof fn lemma_items_from<F: Container>(
    format: &F,
    buffer: BufferView,
    seen: Seq<FrameView>,
    frames: Seq<FrameView>,
)
    requires
        holds_media(buffer.items) ==> has_media(format, seen),
    ensures
        holds_media(buffer.with_frames(format, frames).items) ==> has_media(
            format,
            seen + frames,
        ),
    decreases frames.len(),
{
    if frames.len() == 0 {
        assert(seen + frames =~= seen);
    } else {
        let next = buffer.with_frame(format, frames[0]);
        let grown = seen + seq![frames[0]];
        lemma_has_media_more(format, seen, seq![frames[0]]);
        if holds_media(next.items) {
            let i = choose|i: int|
                0 <= i < next.items.len() && #[trigger] next.items[i] is Frame;
            if i < buffer.items.len() {
                assert(buffer.items[i] is Frame);
            } else {
                assert(seq![frames[0]][0] == frames[0]);
                assert(format.bound(frames[0]) is None);
                assert(has_media(format, seq![frames[0]]));
            }
        }
        lemma_items_from(format, next, grown, frames.drop_first());
        assert(grown + frames.drop_first() =~= seen + frames);
    }
}

/// One more wire frame of a sound group.
pub proof fn lemma_sound_once<F: Container, D: FrameDecrypter>(
    format: &F,
    alike: Alike<D::State>,
    at: Reading<D::State>,
    seen: Seq<FrameView>,
)
    requires
        sound::<F, D>(format, alike, at, seen),
    ensures
        ({
            let (next, result) = decode_once::<F, D>(format, at);
            let frames = once_seen::<F, D>(format, at);
            if result == Poll::Ready(Ok::<bool, Error>(true)) {
                &&& sound::<F, D>(format, alike, next, seen + frames)
                &&& (seen + frames) + all_seen::<F, D>(format, next) == seen + all_seen::<F, D>(
                    format,
                    at,
                )
                &&& decode_all::<F, D>(format, next) == decode_all::<F, D>(format, at)
                &&& next.buffer.group.sequence == at.buffer.group.sequence
                &&& next.buffer.group.finished == at.buffer.group.finished
            } else {
                &&& next == at
                &&& decode_all::<F, D>(format, at).0 == at
                &&& all_seen::<F, D>(format, at) == Seq::<FrameView>::empty()
                &&& frames == Seq::<FrameView>::empty()
                &&& result == (if at.buffer.group.finished {
                    Poll::Ready(Ok::<bool, Error>(false))
                } else {
                    Poll::Pending
                })
                &&& decode_all::<F, D>(format, at).1 == (if at.buffer.group.finished {
                    Poll::Ready(Ok::<(), Error>(()))
                } else {
                    Poll::Pending
                })
                &&& at.buffer.group.frames.len() == 0
            }
        }),
{
    let (next, result) = decode_once::<F, D>(format, at);
    let frames = once_seen::<F, D>(format, at);
    lemma_alike_once::<F, D>(format, alike, at, at.decrypter);
    if result == Poll::Ready(Ok::<bool, Error>(true)) {
        let rest = all_seen::<F, D>(format, next);
        assert((seen + frames) + rest =~= seen + (frames + rest));
        lemma_valid_part(seen + frames, rest);
        lemma_spans_once::<F, D>(format, at, seen);
        lemma_items_from(format, at.buffer, seen, frames);
    } else {
        assert(frames + Seq::<FrameView>::empty() =~= Seq::<FrameView>::empty());
        assert(next.buffer =~= at.buffer);
    }
}

/// Decoding a sound group until media is held.
pub proof fn lemma_sound_one<F: Container, D: FrameDecrypter>(
    format: &F,
    alike: Alike<D::State>,
    at: Reading<D::State>,
    seen: Seq<FrameView>,
)
    requires
        sound::<F, D>(format, alike, at, seen),
    ensures
        ({
            let (near, result) = decode_one::<F, D>(format, at);
            let opening = seen + one_seen::<F, D>(format, at);
            &&& sound::<F, D>(format, alike, near, opening)
            &&& prospect::<F, D>(format, near, opening) == prospect::<F, D>(format, at, seen)
            &&& near.buffer.group.sequence == at.buffer.group.sequence
            &&& !(result matches Poll::Ready(Err(_)))
            &&& !holds_media(near.buffer.items) ==> near == decode_all::<F, D>(format, at).0
            &&& has_media(format, opening) == has_media(
                format,
                seen + all_seen::<F, D>(format, at),
            )
            &&& decode_all::<F, D>(format, at).0 == at ==> near == at
        }),
    decreases at.buffer.group.frames.len(),
{
    let none = Seq::<FrameView>::empty();
    if holds_media(at.buffer.items) {
        assert(seen + none =~= seen);
        lemma_has_media_more(format, seen, all_seen::<F, D>(format, at));
    } else {
        let (next, result) = decode_once::<F, D>(format, at);
        let frames = once_seen::<F, D>(format, at);
        lemma_sound_once::<F, D>(format, alike, at, seen);
        if result == Poll::Ready(Ok::<bool, Error>(true)) {
            lemma_sound_one::<F, D>(format, alike, next, seen + frames);
            assert((seen + frames) + one_seen::<F, D>(format, next) =~= seen + one_seen::<F, D>(
                format,
                at,
            ));
            lemma_all_shrinks::<F, D>(format, next);
        } else {
            assert(seen + none =~= seen);
            assert(none + none =~= none);
        }
    }
}

/// Decoding adds no wire frame.
proof fn lemma_all_shrinks<F: Container, D: FrameDecrypter>(format: &F, at: Reading<D::State>)
    ensures
        decode_all::<F, D>(format, at).0.buffer.group.frames.len() <= at.buffer.group.frames.len(),
    decreases at.buffer.group.frames.len(),
{
    let (next, result) = decode_once::<F, D>(format, at);
    if result == Poll::Ready(Ok::<bool, Error>(true)) {
        lemma_all_shrinks::<F, D>(format, next);
    }
}

/// Decoding all of a sound group.
pub proof fn lemma_sound_all<F: Container, D: FrameDecrypter>(
    format: &F,
    alike: Alike<D::State>,
    at: Reading<D::State>,
    seen: Seq<FrameView>,
)
    requires
        sound::<F, D>(format, alike, at, seen),
    ensures
        ({
            let far = decode_all::<F, D>(format, at).0;
            let total = seen + all_seen::<F, D>(format, at);
            &&& sound::<F, D>(format, alike, far, total)
            &&& decode_all::<F, D>(format, far) == decode_all::<F, D>(format, at)
            &&& total + all_seen::<F, D>(format, far) == total
            &&& far.buffer.group.sequence == at.buffer.group.sequence
            &&& far.buffer.group.frames.len() == 0
            &&& far.buffer.group.finished == at.buffer.group.finished
            &&& decode_all::<F, D>(format, at).1 == (if at.buffer.group.finished {
                Poll::Ready(Ok::<(), Error>(()))
            } else {
                Poll::Pending
            })
        }),
    decreases at.buffer.group.frames.len(),
{
    let none = Seq::<FrameView>::empty();
    let (next, result) = decode_once::<F, D>(format, at);
    lemma_sound_once::<F, D>(format, alike, at, seen);
    if result == Poll::Ready(Ok::<bool, Error>(true)) {
        lemma_sound_all::<F, D>(format, alike, next, seen + once_seen::<F, D>(format, at));
    } else {
        assert(seen + none =~= seen);
    }
}

/// A sound group stays so in another state of the decrypter.
proof fn lemma_sound_alike<F: Container, D: FrameDecrypter>(
    format: &F,
    alike: Alike<D::State>,
    at: Reading<D::State>,
    seen: Seq<FrameView>,
    decrypter: Option<D::State>,
)
    requires
        sound::<F, D>(format, alike, at, seen),
        (alike.states)(decrypter),
    ensures
        sound::<F, D>(format, alike, Reading { decrypter, ..at }, seen),
        prospect::<F, D>(format, Reading { decrypter, ..at }, seen) == prospect::<F, D>(
            format,
            at,
            seen,
        ),
    decreases at.buffer.group.frames.len(),
{
    let other = Reading { decrypter, ..at };
    lemma_alike_once::<F, D>(format, alike, at, decrypter);
    lemma_sound_once::<F, D>(format, alike, at, seen);
    let (next, result) = decode_once::<F, D>(format, at);
    let (other_next, _) = decode_once::<F, D>(format, other);
    let frames = once_seen::<F, D>(format, at);
    if result == Poll::Ready(Ok::<bool, Error>(true)) {
        assert(other_next == (Reading { decrypter: other_next.decrypter, ..next }));
        lemma_sound_alike::<F, D>(
            format,
            alike,
            next,
            seen + frames,
            other_next.decrypter,
        );
        lemma_same_tail(
            seen + frames,
            one_seen::<F, D>(format, next),
            one_seen::<F, D>(format, other_next),
        );
        lemma_same_tail(
            seen + frames,
            all_seen::<F, D>(format, next),
            all_seen::<F, D>(format, other_next),
        );
    }
}

proof fn lemma_same_tail(head: Seq<FrameView>, a: Seq<FrameView>, b: Seq<FrameView>)
    requires
        head + a == head + b,
    ensures
        a == b,
{
    assert((head + a).skip(head.len() as int) =~= a);
    assert((head + b).skip(head.len() as int) =~= b);
}

/// Taking of a sound group gives the first item at hand; where there is none, it tells how
/// what is at hand ends.
pub proof fn lemma_sound_take<F: Container, D: FrameDecrypter>(
    format: &F,
    alike: Alike<D::State>,
    at: Reading<D::State>,
    seen: Seq<FrameView>,
)
    requires
        sound::<F, D>(format, alike, at, seen),
    ensures
        ({
            let (all, end) = decode_all::<F, D>(format, at);
            let (next, taken) = delivery::<F, D>(format, at);
            &&& (alike.states)(next.decrypter)
            &&& next.buffer.group.sequence == at.buffer.group.sequence
            &&& if all.buffer.items.len() > 0 {
                taken == Poll::Ready(Ok::<Option<ItemView>, Error>(Some(all.buffer.items[0])))
            } else {
                &&& next == all
                &&& taken == (if at.buffer.group.finished {
                    Poll::Ready(Ok::<Option<ItemView>, Error>(None))
                } else {
                    Poll::Pending
                })
            }
        }),
    decreases at.buffer.group.frames.len(),
{
    law_delivery_is_in_order::<F, D>(format, at);
    if at.buffer.items.len() == 0 {
        let (next, result) = decode_once::<F, D>(format, at);
        lemma_sound_once::<F, D>(format, alike, at, seen);
        if result == Poll::Ready(Ok::<bool, Error>(true)) {
            lemma_sound_take::<F, D>(
                format,
                alike,
                next,
                seen + once_seen::<F, D>(format, at),
            );
        }
    } else {
        assert(contents::<F, D>(format, at).len() > 0);
    }
}

/// Whether every group at hand is sound, where `seen` is what was decoded of each before.
pub open spec fn all_sound<F: Container, D: FrameDecrypter>(
    format: &F,
    alike: Alike<D::State>,
    state: StateOf<D>,
    seen: Seq<Seq<FrameView>>,
) -> bool {
    &&& (alike.states)(state.decrypter)
    &&& seen.len() == state.pending.len()
    &&& forall|i: int|
        0 <= i < state.pending.len() ==> sound::<F, D>(
            format,
            alike,
            #[trigger] state.reading(i),
            seen[i],
        )
}

/// What the groups at hand have to show.
pub open spec fn prospects<F: Container, D: FrameDecrypter>(
    format: &F,
    state: StateOf<D>,
    seen: Seq<Seq<FrameView>>,
) -> Seq<Prospect> {
    Seq::new(
        state.pending.len(),
        |i: int| prospect::<F, D>(format, state.reading(i), seen[i]),
    )
}

/// Whether `b` differs from `a` only by what was decoded.
pub open spec fn looked_at<S>(a: ConsumerView<S>, b: ConsumerView<S>) -> bool {
    &&& b == (ConsumerView { pending: b.pending, decrypter: b.decrypter, ..a })
    &&& b.pending.len() == a.pending.len()
    &&& forall|i: int|
        0 <= i < a.pending.len() ==> (#[trigger] b.pending[i]).group.sequence
            == a.pending[i].group.sequence
}

/// Whether all at hand of a group was decoded.
pub open spec fn used_up<F: Container, D: FrameDecrypter>(
    format: &F,
    state: StateOf<D>,
    index: int,
) -> bool {
    state.pending[index] == decode_all::<F, D>(format, state.reading(index)).0.buffer
}

/// One group of several moved on without giving anything out.
pub proof fn lemma_moved_sound<F: Container, D: FrameDecrypter>(
    format: &F,
    alike: Alike<D::State>,
    state: StateOf<D>,
    seen: Seq<Seq<FrameView>>,
    index: int,
    after: Reading<D::State>,
    known: Seq<FrameView>,
)
    requires
        all_sound::<F, D>(format, alike, state, seen),
        0 <= index < state.pending.len(),
        sound::<F, D>(format, alike, after, known),
        after.buffer.group.sequence == state.pending[index].group.sequence,
    ensures
        all_sound::<F, D>(format, alike, state.moved(index, after), seen.update(index, known)),
        looked_at(state, state.moved(index, after)),
        forall|i: int|
            0 <= i < state.pending.len() && i != index ==> #[trigger] prospects::<F, D>(
                format,
                state.moved(index, after),
                seen.update(index, known),
            )[i] == prospects::<F, D>(format, state, seen)[i],
        forall|i: int|
            0 <= i < state.pending.len() && i != index ==> #[trigger] used_up::<F, D>(
                format,
                state.moved(index, after),
                i,
            ) == used_up::<F, D>(format, state, i),
        prospects::<F, D>(format, state.moved(index, after), seen.update(index, known))[index]
            == prospect::<F, D>(format, after, known),
        state.moved(index, after).reading(index) == after,
{
    let next = state.moved(index, after);
    let grown = seen.update(index, known);
    assert forall|i: int| 0 <= i < next.pending.len() implies sound::<F, D>(
        format,
        alike,
        #[trigger] next.reading(i),
        grown[i],
    ) && (i != index ==> prospect::<F, D>(format, next.reading(i), grown[i]) == prospect::<F, D>(
        format,
        state.reading(i),
        seen[i],
    )) by {
        if i == index {
            assert(next.reading(i) == after);
        } else {
            assert(sound::<F, D>(format, alike, state.reading(i), seen[i]));
            lemma_sound_alike::<F, D>(format, alike, state.reading(i), seen[i], after.decrypter);
            assert(next.reading(i) == (Reading { decrypter: after.decrypter, ..state.reading(i) }));
        }
    }
    assert forall|i: int| 0 <= i < state.pending.len() && i != index implies #[trigger] prospects::<
        F,
        D,
    >(format, next, grown)[i] == prospects::<F, D>(format, state, seen)[i] by {
        assert(sound::<F, D>(format, alike, next.reading(i), grown[i]));
    }
    assert forall|i: int| 0 <= i < state.pending.len() && i != index implies #[trigger] used_up::<
        F,
        D,
    >(format, next, i) == used_up::<F, D>(format, state, i) by {
        assert(sound::<F, D>(format, alike, next.reading(i), grown[i]));
        assert(prospect::<F, D>(format, next.reading(i), grown[i]).whole == prospect::<F, D>(
            format,
            state.reading(i),
            seen[i],
        ).whole);
    }
    assert(next.reading(index) == after);
}

/// Whether media at `timestamp` is among frames.
pub open spec fn occurs<F: Container>(
    format: &F,
    frames: Seq<FrameView>,
    timestamp: Timestamp,
) -> bool {
    exists|k: int|
        0 <= k < frames.len() && format.bound(#[trigger] frames[k]) is None
            && frames[k].timestamp == timestamp
}

/// Looking for the earliest timestamp of one group.
pub proof fn lemma_glance<F: Container, D: FrameDecrypter>(
    format: &F,
    alike: Alike<D::State>,
    state: StateOf<D>,
    seen: Seq<Seq<FrameView>>,
    index: int,
) -> (grown: Seq<Seq<FrameView>>)
    requires
        all_sound::<F, D>(format, alike, state, seen),
        0 <= index < state.pending.len(),
    ensures
        ({
            let (next, found) = earliest_at::<F, D>(format, state, index);
            let shown = prospects::<F, D>(format, state, seen);
            &&& all_sound::<F, D>(format, alike, next, grown)
            &&& looked_at(state, next)
            &&& prospects::<F, D>(format, next, grown) == shown
            &&& is_least(format, shown[index].opening, found)
            &&& found is Some == has_media(format, shown[index].total)
            &&& found matches Some(timestamp) ==> timestamp.valid() && occurs(
                format,
                shown[index].total,
                timestamp,
            )
            &&& grown[index] == shown[index].opening
            &&& found is None ==> used_up::<F, D>(format, next, index)
            &&& forall|i: int|
                0 <= i < state.pending.len() && #[trigger] used_up::<F, D>(format, state, i)
                    ==> used_up::<F, D>(format, next, i)
        }),
{
    let at = state.reading(index);
    assert(sound::<F, D>(format, alike, at, seen[index]));
    lemma_sound_one::<F, D>(format, alike, at, seen[index]);
    lemma_sound_all::<F, D>(format, alike, at, seen[index]);
    let (after, found) = earliest::<F, D>(format, at);
    let opening = seen[index] + one_seen::<F, D>(format, at);
    let grown = seen.update(index, opening);
    lemma_moved_sound::<F, D>(format, alike, state, seen, index, after, opening);
    let next = state.moved(index, after);
    assert(prospects::<F, D>(format, next, grown) =~= prospects::<F, D>(format, state, seen));
    assert(known(found) == after.buffer.min_timestamp);
    lemma_least_media(format, opening, known(found));
    if known(found) is Some {
        lemma_valid_part(opening, all_seen::<F, D>(format, after));
        let k = choose|k: int|
            0 <= k < opening.len() && format.bound(#[trigger] opening[k]) is None
                && opening[k].timestamp == known(found)->Some_0;
        let total = seen[index] + all_seen::<F, D>(format, at);
        assert(total == opening + all_seen::<F, D>(format, after));
        assert(total[k] == opening[k]);
    }
    assert forall|i: int|
        0 <= i < state.pending.len() && #[trigger] used_up::<F, D>(
            format,
            state,
            i,
        ) implies used_up::<F, D>(format, next, i) by {
        assert(prospects::<F, D>(format, next, grown)[i] == prospects::<F, D>(
            format,
            state,
            seen,
        )[i]);
        if i == index {
            lemma_used_up_stays::<F, D>(format, alike, at, seen[index]);
        }
    }
    grown
}

/// A group of which all was decoded is not changed by looking at it.
pub proof fn lemma_used_up_stays<F: Container, D: FrameDecrypter>(
    format: &F,
    alike: Alike<D::State>,
    at: Reading<D::State>,
    seen: Seq<FrameView>,
)
    requires
        sound::<F, D>(format, alike, at, seen),
        at.buffer == decode_all::<F, D>(format, at).0.buffer,
    ensures
        decode_all::<F, D>(format, at).0 == at,
        decode_one::<F, D>(format, at).0 == at,
{
    lemma_sound_all::<F, D>(format, alike, at, seen);
    lemma_sound_once::<F, D>(format, alike, at, seen);
    lemma_once_takes::<F, D>(format, at);
    lemma_sound_one::<F, D>(format, alike, at, seen);
}

/// A wire frame that was decoded is no longer at hand.
proof fn lemma_once_takes<F: Container, D: FrameDecrypter>(format: &F, at: Reading<D::State>)
    ensures
        at.buffer.group.frames.len() == 0 ==> decode_once::<F, D>(format, at).1 != Poll::Ready(
            Ok::<bool, Error>(true),
        ),
{
}

pub proof fn lemma_least_media<F: Container>(
    format: &F,
    frames: Seq<FrameView>,
    least: Option<Timestamp>,
)
    requires
        is_least(format, frames, least) || is_greatest(format, frames, least),
    ensures
        least is Some == has_media(format, frames),
        valid_frames(frames) && least is Some ==> least->Some_0.valid(),
{
}

/// Looking for the latest timestamp of one group.
proof fn lemma_gaze<F: Container, D: FrameDecrypter>(
    format: &F,
    alike: Alike<D::State>,
    state: StateOf<D>,
    seen: Seq<Seq<FrameView>>,
    index: int,
) -> (grown: Seq<Seq<FrameView>>)
    requires
        all_sound::<F, D>(format, alike, state, seen),
        0 <= index < state.pending.len(),
    ensures
        ({
            let (next, found) = latest_at::<F, D>(format, state, index);
            let shown = prospects::<F, D>(format, state, seen);
            &&& all_sound::<F, D>(format, alike, next, grown)
            &&& looked_at(state, next)
            &&& as_shown(shown, prospects::<F, D>(format, next, grown))
            &&& is_greatest(format, shown[index].total, found)
            &&& found is Some == has_media(format, shown[index].total)
            &&& forall|i: int|
                0 <= i < state.pending.len() && #[trigger] used_up::<F, D>(format, state, i)
                    ==> used_up::<F, D>(format, next, i)
        }),
{
    let at = state.reading(index);
    assert(sound::<F, D>(format, alike, at, seen[index]));
    lemma_sound_all::<F, D>(format, alike, at, seen[index]);
    let (after, found) = latest::<F, D>(format, at);
    let total = seen[index] + all_seen::<F, D>(format, at);
    let grown = seen.update(index, total);
    lemma_moved_sound::<F, D>(format, alike, state, seen, index, after, total);
    let next = state.moved(index, after);
    lemma_least_media(format, total, known(found));
    let shown = prospects::<F, D>(format, state, seen);
    let then = prospects::<F, D>(format, next, grown);
    assert forall|i: int| 0 <= i < shown.len() implies {
        &&& (#[trigger] then[i]).total == shown[i].total
        &&& then[i].whole == shown[i].whole
        &&& then[i].end == shown[i].end
    } by {
        if i == index {
            assert(then[i] == prospect::<F, D>(format, after, total));
        }
    }
    assert forall|i: int|
        0 <= i < state.pending.len() && #[trigger] used_up::<F, D>(
            format,
            state,
            i,
        ) implies used_up::<F, D>(format, next, i) by {
        assert(then[i].whole == shown[i].whole);
    }
    grown
}

/// Whether the groups show the same, apart from how much of them was needed to find their
/// first media.
pub open spec fn as_shown(a: Seq<Prospect>, b: Seq<Prospect>) -> bool {
    &&& b.len() == a.len()
    &&& forall|i: int|
        0 <= i < a.len() ==> {
            &&& (#[trigger] b[i]).total == a[i].total
            &&& b[i].whole == a[i].whole
            &&& b[i].end == a[i].end
        }
}

/// Whether no media among frames lies before `edge`.
pub open spec fn none_before<F: Container>(
    format: &F,
    frames: Seq<FrameView>,
    edge: Timestamp,
) -> bool {
    forall|k: int|
        0 <= k < frames.len() && format.bound(#[trigger] frames[k]) is None
            ==> !frames[k].timestamp.precedes(edge)
}

/// Whether no media of a group beyond the one that carried the live edge lies before the
/// live edge: the publisher did not rewind.
pub open spec fn onward<F: Container, D: FrameDecrypter>(
    format: &F,
    state: StateOf<D>,
    shown: Seq<Prospect>,
) -> bool {
    state.rewind.live_edge matches Some((prev_max, edge)) ==> forall|i: int|
        0 <= i < state.pending.len() && (#[trigger] state.pending[i]).group.sequence > prev_max
            ==> none_before(format, shown[i].total, edge)
}

/// Looking for the first group with media.
pub proof fn lemma_first<F: Container, D: FrameDecrypter>(
    format: &F,
    alike: Alike<D::State>,
    state: StateOf<D>,
    seen: Seq<Seq<FrameView>>,
    index: int,
    floor: Option<u64>,
) -> (grown: Seq<Seq<FrameView>>)
    requires
        all_sound::<F, D>(format, alike, state, seen),
        0 <= index <= state.pending.len(),
        floor matches Some(number) ==> forall|i: int|
            index <= i < state.pending.len() ==> (#[trigger] state.pending[i]).group.sequence
                > number,
    ensures
        ({
            let (next, found) = first_timed::<F, D>(format, state, index, floor);
            let shown = prospects::<F, D>(format, state, seen);
            &&& all_sound::<F, D>(format, alike, next, grown)
            &&& looked_at(state, next)
            &&& prospects::<F, D>(format, next, grown) == shown
            &&& found matches Some((at, timestamp)) ==> {
                &&& index <= at < state.pending.len()
                &&& is_least(format, shown[at].opening, Some(timestamp))
                &&& timestamp.valid()
                &&& has_media(format, shown[at].total)
                &&& forall|i: int|
                    index <= i < at ==> !has_media(format, (#[trigger] shown[i]).total)
                &&& forall|i: int|
                    index <= i < at ==> #[trigger] used_up::<F, D>(format, next, i)
            }
            &&& found is None ==> forall|i: int|
                index <= i < state.pending.len() ==> !has_media(
                    format,
                    (#[trigger] shown[i]).total,
                )
            &&& forall|i: int|
                0 <= i < state.pending.len() && #[trigger] used_up::<F, D>(format, state, i)
                    ==> used_up::<F, D>(format, next, i)
        }),
    decreases state.pending.len() - index,
{
    if index >= state.pending.len() {
        seen
    } else {
        let (next, found) = earliest_at::<F, D>(format, state, index);
        let grown = lemma_glance::<F, D>(format, alike, state, seen, index);
        assert(!(floor is Some && state.pending[index].group.sequence <= floor->Some_0));
        if found is Some {
            grown
        } else {
            assert forall|i: int| index + 1 <= i < next.pending.len() implies floor is Some ==> (
            #[trigger] next.pending[i]).group.sequence > floor->Some_0 by {
                assert(state.pending[i].group.sequence == next.pending[i].group.sequence);
            }
            let last = lemma_first::<F, D>(format, alike, next, grown, index + 1, floor);
            let end = first_timed::<F, D>(format, next, index + 1, floor).0;
            assert forall|i: int| 0 <= i < state.pending.len() implies (
            #[trigger] end.pending[i]).group.sequence == state.pending[i].group.sequence by {
                assert(next.pending[i].group.sequence == state.pending[i].group.sequence);
            }
            assert(used_up::<F, D>(format, end, index)) by {
                assert(used_up::<F, D>(format, next, index));
            }
            assert forall|i: int|
                0 <= i < state.pending.len() && #[trigger] used_up::<F, D>(
                    format,
                    state,
                    i,
                ) implies used_up::<F, D>(format, end, i) by {
                assert(used_up::<F, D>(format, next, i));
            }
            last
        }
    }
}

/// Looking for the last group with media, down to the cursor.
pub proof fn lemma_last<F: Container, D: FrameDecrypter>(
    format: &F,
    alike: Alike<D::State>,
    state: StateOf<D>,
    seen: Seq<Seq<FrameView>>,
    count: int,
    floor: u64,
    from: int,
) -> (grown: Seq<Seq<FrameView>>)
    requires
        all_sound::<F, D>(format, alike, state, seen),
        0 <= from <= count <= state.pending.len(),
        forall|i: int|
            from <= i < state.pending.len() ==> (#[trigger] state.pending[i]).group.sequence
                > floor,
        from > 0 ==> state.pending[from - 1].group.sequence <= floor,
    ensures
        ({
            let (next, found) = last_timed::<F, D>(format, state, count, floor);
            let shown = prospects::<F, D>(format, state, seen);
            &&& all_sound::<F, D>(format, alike, next, grown)
            &&& looked_at(state, next)
            &&& as_shown(shown, prospects::<F, D>(format, next, grown))
            &&& found is None ==> forall|i: int|
                from <= i < count ==> !has_media(format, (#[trigger] shown[i]).total)
            &&& found is Some ==> exists|at: int|
                {
                    &&& from <= at < count
                    &&& is_greatest(format, (#[trigger] shown[at]).total, found)
                    &&& forall|i: int|
                        at < i < count ==> !has_media(format, (#[trigger] shown[i]).total)
                }
            &&& forall|i: int|
                0 <= i < state.pending.len() && #[trigger] used_up::<F, D>(format, state, i)
                    ==> used_up::<F, D>(format, next, i)
        }),
    decreases count,
{
    let shown = prospects::<F, D>(format, state, seen);
    if count <= from {
        seen
    } else {
        assert(state.pending[count - 1].group.sequence > floor);
        let (next, found) = latest_at::<F, D>(format, state, count - 1);
        let grown = lemma_gaze::<F, D>(format, alike, state, seen, count - 1);
        if found is Some {
            assert(is_greatest(format, shown[count - 1].total, found));
            grown
        } else {
            let then = prospects::<F, D>(format, next, grown);
            assert forall|i: int| from <= i < next.pending.len() implies (
            #[trigger] next.pending[i]).group.sequence > floor by {
                assert(state.pending[i].group.sequence == next.pending[i].group.sequence);
            }
            let last = lemma_last::<F, D>(format, alike, next, grown, count - 1, floor, from);
            let (end, newest) = last_timed::<F, D>(format, next, count - 1, floor);
            let after = prospects::<F, D>(format, end, last);
            assert forall|i: int| 0 <= i < shown.len() implies {
                &&& (#[trigger] after[i]).total == shown[i].total
                &&& after[i].whole == shown[i].whole
                &&& after[i].end == shown[i].end
            } by {
                assert(then[i].total == shown[i].total);
            }
            assert forall|i: int| 0 <= i < state.pending.len() implies (
            #[trigger] end.pending[i]).group.sequence == state.pending[i].group.sequence by {
                assert(next.pending[i].group.sequence == state.pending[i].group.sequence);
            }
            assert forall|i: int|
                0 <= i < state.pending.len() && #[trigger] used_up::<F, D>(
                    format,
                    state,
                    i,
                ) implies used_up::<F, D>(format, end, i) by {
                assert(used_up::<F, D>(format, next, i));
            }
            assert(!has_media(format, shown[count - 1].total));
            assert forall|i: int| 0 <= i < shown.len() implies (#[trigger] shown[i]).total
                == then[i].total by {
                assert(then[i].total == shown[i].total);
            }
            if newest is Some {
                let at = choose|at: int|
                    {
                        &&& from <= at < count - 1
                        &&& is_greatest(format, (#[trigger] then[at]).total, newest)
                        &&& forall|i: int|
                            at < i < count - 1 ==> !has_media(format, (#[trigger] then[i]).total)
                    };
                assert(is_greatest(format, shown[at].total, newest));
                assert forall|i: int| at < i < count implies !has_media(
                    format,
                    (#[trigger] shown[i]).total,
                ) by {
                    assert(then[i].total == shown[i].total);
                }
            } else {
                assert forall|i: int| from <= i < count implies !has_media(
                    format,
                    (#[trigger] shown[i]).total,
                ) by {
                    assert(then[i].total == shown[i].total);
                }
            }
            last
        }
    }
}

/// Where the publisher did not rewind, none is found.
proof fn lemma_none_found<F: Container, D: FrameDecrypter>(
    format: &F,
    alike: Alike<D::State>,
    state: StateOf<D>,
    seen: Seq<Seq<FrameView>>,
    count: int,
    prev_max: u64,
    edge: Timestamp,
) -> (grown: Seq<Seq<FrameView>>)
    requires
        all_sound::<F, D>(format, alike, state, seen),
        0 <= count <= state.pending.len(),
        forall|i: int|
            0 <= i < count && (#[trigger] state.pending[i]).group.sequence > prev_max
                ==> none_before(format, prospects::<F, D>(format, state, seen)[i].total, edge),
    ensures
        ({
            let (next, reset) = find_reset::<F, D>(format, state, count, prev_max, edge);
            &&& reset is None
            &&& all_sound::<F, D>(format, alike, next, grown)
            &&& looked_at(state, next)
            &&& prospects::<F, D>(format, next, grown) == prospects::<F, D>(format, state, seen)
        }),
    decreases count,
{
    if count <= 0 || state.pending[count - 1].group.sequence <= prev_max {
        seen
    } else {
        let (next, found) = earliest_at::<F, D>(format, state, count - 1);
        let grown = lemma_glance::<F, D>(format, alike, state, seen, count - 1);
        assert forall|i: int|
            0 <= i < count - 1 && (#[trigger] next.pending[i]).group.sequence
                > prev_max implies none_before(
            format,
            prospects::<F, D>(format, next, grown)[i].total,
            edge,
        ) by {
            assert(state.pending[i].group.sequence == next.pending[i].group.sequence);
        }
        let last = lemma_none_found::<F, D>(
            format,
            alike,
            next,
            grown,
            count - 1,
            prev_max,
            edge,
        );
        let end = find_reset::<F, D>(format, next, count - 1, prev_max, edge).0;
        assert forall|i: int| 0 <= i < state.pending.len() implies (
        #[trigger] end.pending[i]).group.sequence == state.pending[i].group.sequence by {
            assert(next.pending[i].group.sequence == state.pending[i].group.sequence);
        }
        last
    }
}

/// Whether every group at hand is, by its number, of the epoch that the last rewind began.
pub open spec fn one_epoch<S>(state: ConsumerView<S>) -> bool {
    state.rewind.boundary matches Some(reset) ==> reset.prev_max < reset.group && forall|i: int|
        0 <= i < state.pending.len() ==> (#[trigger] state.pending[i]).group.sequence
            >= reset.group
}

/// Groups of one epoch stay.
proof fn lemma_one_epoch<F: Container, D: FrameDecrypter>(
    format: &F,
    state: StateOf<D>,
    reset: Reset,
    index: int,
)
    requires
        reset.prev_max < reset.group,
        forall|i: int|
            0 <= i < state.pending.len() ==> (#[trigger] state.pending[i]).group.sequence
                >= reset.group,
    ensures
        classified::<F, D>(format, state, reset, index) == state,
    decreases state.pending.len() - index,
{
    if 0 <= index < state.pending.len() {
        assert(state.pending[index].group.sequence >= reset.group);
        lemma_one_epoch::<F, D>(format, state, reset, index + 1);
    }
}

/// Whether a consumer stands in the middle of a track, with groups at hand that are of one
/// epoch, and what is at hand of each of them decodes. `seen` is what was decoded of each
/// group before.
pub open spec fn underway<F: Container, D: FrameDecrypter>(
    format: &F,
    alike: Alike<D::State>,
    state: StateOf<D>,
    seen: Seq<Seq<FrameView>>,
) -> bool {
    &&& one_epoch(state)
    &&& state.pending.len() > 0
    &&& state.ordered()
    &&& all_sound::<F, D>(format, alike, state, seen)
    &&& onward::<F, D>(format, state, prospects::<F, D>(format, state, seen))
}

/// The first step of a turn changes nothing where the publisher did not rewind.
pub proof fn lemma_checked<F: Container, D: FrameDecrypter>(
    format: &F,
    alike: Alike<D::State>,
    state: StateOf<D>,
    seen: Seq<Seq<FrameView>>,
) -> (grown: Seq<Seq<FrameView>>)
    requires
        underway::<F, D>(format, alike, state, seen),
    ensures
        ({
            let (next, reset) = detected::<F, D>(format, state);
            &&& !reset
            &&& underway::<F, D>(format, alike, next, grown)
            &&& looked_at(state, next)
            &&& prospects::<F, D>(format, next, grown) == prospects::<F, D>(format, state, seen)
            &&& settled::<F, D>(format, next) == next
        }),
{
    let (next, _) = detected::<F, D>(format, state);
    let grown = if let Some((prev_max, edge)) = state.rewind.live_edge {
        lemma_none_found::<F, D>(
            format,
            alike,
            state,
            seen,
            state.pending.len() as int,
            prev_max,
            edge,
        )
    } else {
        seen
    };
    lemma_looked_order(state, next);
    if let Some(reset) = state.rewind.boundary {
        assert forall|i: int| 0 <= i < next.pending.len() implies (
        #[trigger] next.pending[i]).group.sequence >= reset.group by {
            assert(state.pending[i].group.sequence >= reset.group);
        }
        lemma_one_epoch::<F, D>(format, next, reset, 0);
    }
    if let Some((prev_max, edge)) = state.rewind.live_edge {
        assert forall|i: int|
            0 <= i < next.pending.len() && (#[trigger] next.pending[i]).group.sequence
                > prev_max implies none_before(
            format,
            prospects::<F, D>(format, next, grown)[i].total,
            edge,
        ) by {
            assert(state.pending[i].group.sequence == next.pending[i].group.sequence);
        }
    }
    grown
}

pub proof fn lemma_looked_order<S>(a: ConsumerView<S>, b: ConsumerView<S>)
    requires
        looked_at(a, b),
        a.ordered(),
    ensures
        b.ordered(),
{
    assert forall|i: int, j: int| 0 <= i < j < b.pending.len() implies (
    #[trigger] b.pending[i]).group.sequence <= (#[trigger] b.pending[j]).group.sequence by {
        assert(a.pending[i].group.sequence <= a.pending[j].group.sequence);
    }
}

} // verus!
