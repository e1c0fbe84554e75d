//! What holds of a track from its first frame to its last.
//!
//! A track of which everything has arrived is read out whole: all of its media once, group
//! by group, in the order of the wire.
use vstd::prelude::*;

use super::buffer::{
    decode_all, decode_once, decode_one, delivery, earliest, holds_media, latest, wire_read,
    BufferView, ItemView, Reading,
};
use super::group_laws::shortened;
use super::group_runs::{
    all_seen, complete, decoded_wires, decodes, is_greatest, is_least, items_of,
    law_a_group_delivers_what_it_decodes_to, lemma_items_push, lemma_looking_ahead,
    lemma_spans_all, lemma_taking, lemma_valid_part, no_media_before, once_seen, valid_frames,
};
use super::progress::lemma_filter_whole;
use super::reader::{opened, FrameOutcome, ReadFrameView};
use super::schedule::{
    ascending, detected, earliest_at, event, find_reset, first_above, first_timed, front,
    insertion_point, known, last_timed, latched, latest_at, next_frame, outlook, readable, run,
    settled, turn, ConsumerView, EventOutcome, EventView, FrameReadOutcome, StateOf, Turn,
};
use super::{Container, FrameDecrypter, FrameView, Kind};
use crate::error::Error;
use crate::net::{self, GroupView, SubscriberView};
use crate::poll::Poll;
use crate::time::{
    law_timestamp_order_is_transitive, law_timestamps_are_totally_ordered, Timestamp,
};

verus! {

/// Where `b` is not after `a`, and `c` is not after `b`, `c` is not after `a`.
pub proof fn lemma_not_before(a: Timestamp, b: Timestamp, c: Timestamp)
    requires
        a.valid(),
        b.valid(),
        c.valid(),
        !a.precedes(b),
        !b.precedes(c),
    ensures
        !a.precedes(c),
{
    law_timestamps_are_totally_ordered(a, b);
    law_timestamps_are_totally_ordered(b, c);
    if a.precedes(c) && b != c && a != b {
        law_timestamp_order_is_transitive(c, b, a);
        law_timestamps_are_totally_ordered(a, c);
    }
}

/// What becomes of a wire frame that is read, given the state of the decrypter, where
/// there is one.
pub open spec fn unlocked<D: FrameDecrypter>(
    decrypter: Option<D::State>,
    frame: ReadFrameView,
) -> (Option<D::State>, FrameOutcome) {
    let read = Poll::Ready(Ok(Some(frame)));
    match decrypter {
        Some(state) => {
            let (after, outcome) = opened::<D>(state, read);
            (Some(after), outcome)
        },
        None => (None, read),
    }
}

/// States of a decrypter, and the wire frames that it is to open.
#[verifier::reject_recursive_types(S)]
pub struct Alike<S> {
    pub states: spec_fn(Option<S>) -> bool,
    pub frames: spec_fn(ReadFrameView) -> bool,
}

/// Whether each of the states makes the same of each of the frames, and opening one
/// leaves such a state: what becomes of a frame does not depend on what came before it.
pub open spec fn steady<D: FrameDecrypter>(alike: Alike<D::State>) -> bool {
    forall|a: Option<D::State>, b: Option<D::State>, frame: ReadFrameView|
        #![trigger unlocked::<D>(a, frame), unlocked::<D>(b, frame)]
        (alike.states)(a) && (alike.states)(b) && (alike.frames)(frame) ==> {
            &&& unlocked::<D>(a, frame).1 == unlocked::<D>(b, frame).1
            &&& (alike.states)(unlocked::<D>(a, frame).0)
        }
}

/// A held wire frame of a group as it is read.
pub open spec fn frame_in(group: GroupView, index: int) -> ReadFrameView {
    ReadFrameView {
        sequence_number: ((group.read + index) % 0x1_0000_0000) as u32,
        timestamp: group.frames[index].timestamp,
        payload: group.frames[index].payload,
    }
}

/// Whether the wire frames that a group holds are among those of `alike`.
pub open spec fn among<S>(alike: Alike<S>, group: GroupView) -> bool {
    forall|i: int| 0 <= i < group.frames.len() ==> (alike.frames)(#[trigger] frame_in(group, i))
}

/// A track without a decrypter.
pub open spec fn unprotected<S>() -> Alike<S> {
    Alike { states: |state: Option<S>| state is None, frames: |frame: ReadFrameView| true }
}

/// What becomes of a frame that is not protected does not depend on what came before it.
pub proof fn law_an_unprotected_track_is_steady<D: FrameDecrypter>(group: GroupView)
    ensures
        steady::<D>(unprotected::<D::State>()),
        among(unprotected::<D::State>(), group),
{
}

proof fn lemma_among_popped<S>(alike: Alike<S>, group: GroupView)
    requires
        among(alike, group),
        group.frames.len() > 0,
    ensures
        among(alike, group.popped()),
{
    let next = group.popped();
    assert forall|i: int| 0 <= i < next.frames.len() implies (alike.frames)(
        #[trigger] frame_in(next, i),
    ) by {
        assert(frame_in(next, i) == frame_in(group, i + 1));
    }
}

/// Reading a group of such frames in one such state comes to what it does in another.
pub proof fn lemma_alike_once<F: Container, D: FrameDecrypter>(
    format: &F,
    alike: Alike<D::State>,
    at: Reading<D::State>,
    decrypter: Option<D::State>,
)
    requires
        steady::<D>(alike),
        (alike.states)(at.decrypter),
        (alike.states)(decrypter),
        among(alike, at.buffer.group),
    ensures
        ({
            let other = Reading { decrypter, ..at };
            let (next, result) = decode_once::<F, D>(format, at);
            let (other_next, other_result) = decode_once::<F, D>(format, other);
            &&& other_next.buffer == next.buffer
            &&& other_result == result
            &&& once_seen::<F, D>(format, other) == once_seen::<F, D>(format, at)
            &&& (alike.states)(next.decrypter)
            &&& (alike.states)(other_next.decrypter)
            &&& among(alike, next.buffer.group)
        }),
{
    let group = at.buffer.group;
    if group.frames.len() > 0 {
        lemma_among_popped(alike, group);
        let frame = frame_in(group, 0);
        assert(frame.sequence_number == group.read);
        assert((alike.frames)(frame));
        let mine = unlocked::<D>(at.decrypter, frame);
        let theirs = unlocked::<D>(decrypter, frame);
        assert(wire_read::<D>(group, at.decrypter) == (group.popped(), mine.0, mine.1));
        assert(wire_read::<D>(group, decrypter) == (group.popped(), theirs.0, theirs.1));
    }
}

proof fn lemma_alike_all<F: Container, D: FrameDecrypter>(
    format: &F,
    alike: Alike<D::State>,
    at: Reading<D::State>,
    decrypter: Option<D::State>,
)
    requires
        steady::<D>(alike),
        (alike.states)(at.decrypter),
        (alike.states)(decrypter),
        among(alike, at.buffer.group),
    ensures
        ({
            let other = Reading { decrypter, ..at };
            &&& whole::<F, D>(format, other) == whole::<F, D>(format, at)
            &&& complete::<F, D>(format, other) == complete::<F, D>(format, at)
            &&& all_seen::<F, D>(format, other) == all_seen::<F, D>(format, at)
        }),
    decreases at.buffer.group.frames.len(),
{
    lemma_alike_once::<F, D>(format, alike, at, decrypter);
    let (next, result) = decode_once::<F, D>(format, at);
    let other = decode_once::<F, D>(format, Reading { decrypter, ..at }).0;
    if result == Poll::Ready(Ok::<bool, Error>(true)) {
        lemma_alike_all::<F, D>(format, alike, next, other.decrypter);
        assert(other == (Reading { decrypter: other.decrypter, ..next }));
    }
}

/// What a group leads to once all of it is decoded.
pub open spec fn whole<F: Container, D: FrameDecrypter>(
    format: &F,
    at: Reading<D::State>,
) -> BufferView {
    decode_all::<F, D>(format, at).0.buffer
}

/// What every use of a group keeps of it.
spec fn calm<F: Container, D: FrameDecrypter>(
    format: &F,
    alike: Alike<D::State>,
    at: Reading<D::State>,
) -> bool {
    &&& steady::<D>(alike)
    &&& (alike.states)(at.decrypter)
    &&& among(alike, at.buffer.group)
    &&& at.buffer.group.aborted is None
    &&& valid_frames(all_seen::<F, D>(format, at))
    &&& at.buffer.min_timestamp matches Some(least) ==> least.valid()
    &&& holds_media(at.buffer.items) ==> at.buffer.min_timestamp is Some
}

proof fn lemma_calm_frames<F: Container>(format: &F, buffer: BufferView, frames: Seq<FrameView>)
    requires
        valid_frames(frames),
        buffer.min_timestamp matches Some(least) ==> least.valid(),
        holds_media(buffer.items) ==> buffer.min_timestamp is Some,
    ensures
        ({
            let next = buffer.with_frames(format, frames);
            &&& next.min_timestamp matches Some(least) ==> least.valid()
            &&& holds_media(next.items) ==> next.min_timestamp is Some
            &&& buffer.min_timestamp matches Some(least) ==> {
                &&& next.min_timestamp is Some
                &&& !least.precedes(next.min_timestamp->Some_0)
            }
        }),
    decreases frames.len(),
{
    if let Some(least) = buffer.min_timestamp {
        law_timestamps_are_totally_ordered(least, least);
    }
    if frames.len() > 0 {
        let frame = frames[0];
        let next = buffer.with_frame(format, frame);
        assert(frame.timestamp.valid());
        assert(valid_frames(frames.drop_first())) by {
            assert(frames =~= seq![frame] + frames.drop_first());
            lemma_valid_part(seq![frame], frames.drop_first());
        }
        assert(holds_media(next.items) ==> next.min_timestamp is Some) by {
            if holds_media(next.items) && format.bound(frame) is Some {
                let i = choose|i: int|
                    0 <= i < next.items.len() && #[trigger] next.items[i] is Frame;
                assert(buffer.items[i] is Frame);
            }
        }
        if let Some(least) = buffer.min_timestamp {
            law_timestamps_are_totally_ordered(least, frame.timestamp);
        }
        lemma_calm_frames(format, next, frames.drop_first());
        if let Some(least) = buffer.min_timestamp {
            let last = buffer.with_frames(format, frames);
            lemma_not_before(least, next.min_timestamp->Some_0, last.min_timestamp->Some_0);
        }
    }
}

proof fn lemma_calm_once<F: Container, D: FrameDecrypter>(
    format: &F,
    alike: Alike<D::State>,
    at: Reading<D::State>,
)
    requires
        calm::<F, D>(format, alike, at),
    ensures
        ({
            let (next, result) = decode_once::<F, D>(format, at);
            &&& next.buffer.group.sequence == at.buffer.group.sequence
            &&& result == Poll::Ready(Ok::<bool, Error>(true)) ==> calm::<F, D>(format, alike, next)
            &&& at.buffer.min_timestamp matches Some(least) ==> {
                &&& next.buffer.min_timestamp is Some
                &&& !least.precedes(next.buffer.min_timestamp->Some_0)
            }
            &&& next.buffer.min_timestamp matches Some(least) ==> least.valid()
        }),
{
    lemma_alike_once::<F, D>(format, alike, at, at.decrypter);
    let (next, result) = decode_once::<F, D>(format, at);
    let frames = once_seen::<F, D>(format, at);
    let rest = if result == Poll::Ready(Ok::<bool, Error>(true)) {
        all_seen::<F, D>(format, next)
    } else {
        Seq::empty()
    };
    lemma_valid_part(frames, rest);
    lemma_calm_frames(format, at.buffer, frames);
    if let Some(least) = at.buffer.min_timestamp {
        law_timestamps_are_totally_ordered(least, least);
    }
}

proof fn lemma_calm_one<F: Container, D: FrameDecrypter>(
    format: &F,
    alike: Alike<D::State>,
    at: Reading<D::State>,
)
    requires
        calm::<F, D>(format, alike, at),
        complete::<F, D>(format, at),
    ensures
        calm::<F, D>(format, alike, decode_one::<F, D>(format, at).0),
        decode_one::<F, D>(format, at).0.buffer.group.sequence == at.buffer.group.sequence,
        !holds_media(decode_one::<F, D>(format, at).0.buffer.items) ==> decode_one::<F, D>(
            format,
            at,
        ).0 == decode_all::<F, D>(format, at).0,
    decreases at.buffer.group.frames.len(),
{
    if !holds_media(at.buffer.items) {
        let (next, result) = decode_once::<F, D>(format, at);
        lemma_calm_once::<F, D>(format, alike, at);
        if result == Poll::Ready(Ok::<bool, Error>(true)) {
            lemma_calm_one::<F, D>(format, alike, next);
        } else {
            assert(next.buffer =~= at.buffer);
        }
    }
}

proof fn lemma_calm_all<F: Container, D: FrameDecrypter>(
    format: &F,
    alike: Alike<D::State>,
    at: Reading<D::State>,
)
    requires
        calm::<F, D>(format, alike, at),
        complete::<F, D>(format, at),
    ensures
        calm::<F, D>(format, alike, decode_all::<F, D>(format, at).0),
        decode_all::<F, D>(format, at).0.buffer.group.sequence == at.buffer.group.sequence,
        at.buffer.min_timestamp matches Some(least) ==> {
            &&& whole::<F, D>(format, at).min_timestamp is Some
            &&& !least.precedes(whole::<F, D>(format, at).min_timestamp->Some_0)
        },
    decreases at.buffer.group.frames.len(),
{
    let (next, result) = decode_once::<F, D>(format, at);
    lemma_calm_once::<F, D>(format, alike, at);
    if result == Poll::Ready(Ok::<bool, Error>(true)) {
        lemma_calm_all::<F, D>(format, alike, next);
        if let Some(least) = at.buffer.min_timestamp {
            lemma_not_before(
                least,
                next.buffer.min_timestamp->Some_0,
                whole::<F, D>(format, at).min_timestamp->Some_0,
            );
        }
    } else {
        assert(next.buffer =~= at.buffer);
    }
}

proof fn lemma_calm_take<F: Container, D: FrameDecrypter>(
    format: &F,
    alike: Alike<D::State>,
    at: Reading<D::State>,
)
    requires
        calm::<F, D>(format, alike, at),
        complete::<F, D>(format, at),
    ensures
        calm::<F, D>(format, alike, delivery::<F, D>(format, at).0),
        delivery::<F, D>(format, at).0.buffer.group.sequence == at.buffer.group.sequence,
    decreases at.buffer.group.frames.len(),
{
    if at.buffer.items.len() > 0 {
        let next = delivery::<F, D>(format, at).0;
        lemma_shortened_seen::<F, D>(format, at);
        if holds_media(next.buffer.items) {
            let i = choose|i: int|
                0 <= i < next.buffer.items.len() && #[trigger] next.buffer.items[i] is Frame;
            assert(at.buffer.items[i + 1] is Frame);
        }
    } else {
        let (next, result) = decode_once::<F, D>(format, at);
        lemma_calm_once::<F, D>(format, alike, at);
        if result == Poll::Ready(Ok::<bool, Error>(true)) {
            lemma_calm_take::<F, D>(format, alike, next);
        } else {
            assert(next.buffer =~= at.buffer);
        }
    }
}

/// What a group decodes to does not depend on what is held of it.
proof fn lemma_seen_of_wires<F: Container, D: FrameDecrypter>(format: &F, at: Reading<D::State>)
    ensures
        all_seen::<F, D>(format, at) == decoded_wires::<F, D>(
            format,
            at.buffer.group,
            at.decrypter,
        ),
        complete::<F, D>(format, at) == decodes::<F, D>(format, at.buffer.group, at.decrypter),
    decreases at.buffer.group.frames.len(),
{
    let (next, result) = decode_once::<F, D>(format, at);
    let frames = once_seen::<F, D>(format, at);
    if result == Poll::Ready(Ok::<bool, Error>(true)) {
        lemma_seen_of_wires::<F, D>(format, next);
    } else {
        assert(frames + Seq::empty() =~= frames);
    }
}

proof fn lemma_shortened_seen<F: Container, D: FrameDecrypter>(format: &F, at: Reading<D::State>)
    ensures
        all_seen::<F, D>(format, Reading { buffer: shortened(at.buffer), ..at }) == all_seen::<
            F,
            D,
        >(format, at),
{
    lemma_seen_of_wires::<F, D>(format, at);
    lemma_seen_of_wires::<F, D>(format, Reading { buffer: shortened(at.buffer), ..at });
}

/// Whether all of a group is at hand, and it is not an empty one.
spec fn tidy<F: Container, D: FrameDecrypter>(
    format: &F,
    alike: Alike<D::State>,
    at: Reading<D::State>,
) -> bool {
    let all = whole::<F, D>(format, at);
    &&& calm::<F, D>(format, alike, at)
    &&& complete::<F, D>(format, at)
    &&& !all.empty
    &&& all.min_timestamp is Some == all.max_timestamp is Some
    &&& all.min_timestamp matches Some(least) ==> least.valid()
    &&& all.max_timestamp matches Some(greatest) ==> greatest.valid()
    &&& forall|i: int|
        0 <= i < all.items.len() ==> within(#[trigger] all.items[i], all.max_timestamp)
}

/// Whether an item, where it is media, lies at or before `greatest`.
spec fn within(item: ItemView, greatest: Option<Timestamp>) -> bool {
    item matches ItemView::Frame(frame) ==> {
        &&& frame.timestamp.valid()
        &&& greatest is Some
        &&& !greatest->Some_0.precedes(frame.timestamp)
    }
}

/// Looking ahead in a tidy group finds a timestamp where there is media, and leaves the
/// group tidy.
proof fn lemma_tidy_look<F: Container, D: FrameDecrypter>(
    format: &F,
    alike: Alike<D::State>,
    at: Reading<D::State>,
)
    requires
        tidy::<F, D>(format, alike, at),
    ensures
        ({
            let (near, first) = earliest::<F, D>(format, at);
            let (far, _) = latest::<F, D>(format, at);
            &&& tidy::<F, D>(format, alike, near)
            &&& tidy::<F, D>(format, alike, far)
            &&& decode_all::<F, D>(format, near) == decode_all::<F, D>(format, at)
            &&& decode_all::<F, D>(format, far) == decode_all::<F, D>(format, at)
            &&& near.buffer.group.sequence == at.buffer.group.sequence
            &&& far.buffer.group.sequence == at.buffer.group.sequence
            &&& match whole::<F, D>(format, at).min_timestamp {
                Some(least) => {
                    &&& known(first) matches Some(timestamp)
                    &&& timestamp.valid()
                    &&& !timestamp.precedes(least)
                },
                None => known(first) is None,
            }
        }),
{
    lemma_looking_ahead::<F, D>(format, at);
    lemma_calm_one::<F, D>(format, alike, at);
    lemma_calm_all::<F, D>(format, alike, at);
    let near = earliest::<F, D>(format, at).0;
    lemma_calm_all::<F, D>(format, alike, near);
}

/// Taking of a tidy group gives the first frame that it delivers, or its end, and leaves
/// the group tidy.
proof fn lemma_tidy_take<F: Container, D: FrameDecrypter>(
    format: &F,
    alike: Alike<D::State>,
    at: Reading<D::State>,
)
    requires
        tidy::<F, D>(format, alike, at),
    ensures
        ({
            let all = whole::<F, D>(format, at);
            let (next, taken) = delivery::<F, D>(format, at);
            &&& next.buffer.group.sequence == at.buffer.group.sequence
            &&& (alike.states)(next.decrypter)
            &&& all.items.len() > 0 ==> {
                &&& taken == Poll::Ready(Ok::<Option<ItemView>, Error>(Some(all.items[0])))
                &&& whole::<F, D>(format, next) == shortened(all)
                &&& tidy::<F, D>(format, alike, next)
            }
            &&& all.items.len() == 0 ==> {
                &&& taken == Poll::Ready(Ok::<Option<ItemView>, Error>(None))
                &&& !next.buffer.empty
            }
        }),
{
    lemma_taking::<F, D>(format, at);
    lemma_calm_take::<F, D>(format, alike, at);
    let all = whole::<F, D>(format, at);
    if all.items.len() > 0 {
        let next = delivery::<F, D>(format, at).0;
        let left = whole::<F, D>(format, next);
        assert forall|i: int| 0 <= i < left.items.len() implies within(
            #[trigger] left.items[i],
            left.max_timestamp,
        ) by {
            assert(left.items[i] == all.items[i + 1]);
        }
    }
}

/// Whether `b` differs from `a` only by what was decoded of tidy groups.
spec fn same_rest<F: Container, D: FrameDecrypter>(
    format: &F,
    a: StateOf<D>,
    b: StateOf<D>,
) -> bool {
    &&& b == (ConsumerView { pending: b.pending, decrypter: b.decrypter, ..a })
    &&& b.pending.len() == a.pending.len()
    &&& forall|i: int|
        0 <= i < a.pending.len() ==> {
            &&& (#[trigger] b.pending[i]).group.sequence == a.pending[i].group.sequence
            &&& whole::<F, D>(format, b.reading(i)) == whole::<F, D>(format, a.reading(i))
        }
}

/// Whether every group at hand is tidy.
spec fn all_tidy<F: Container, D: FrameDecrypter>(
    format: &F,
    alike: Alike<D::State>,
    state: StateOf<D>,
) -> bool {
    &&& (alike.states)(state.decrypter)
    &&& forall|i: int|
        0 <= i < state.pending.len() ==> tidy::<F, D>(format, alike, #[trigger] state.reading(i))
}

proof fn lemma_moved_rest<F: Container, D: FrameDecrypter>(
    format: &F,
    alike: Alike<D::State>,
    state: StateOf<D>,
    index: int,
    after: Reading<D::State>,
)
    requires
        all_tidy::<F, D>(format, alike, state),
        0 <= index < state.pending.len(),
        tidy::<F, D>(format, alike, after),
        after.buffer.group.sequence == state.pending[index].group.sequence,
        whole::<F, D>(format, after) == whole::<F, D>(format, state.reading(index)),
    ensures
        all_tidy::<F, D>(format, alike, state.moved(index, after)),
        same_rest::<F, D>(format, state, state.moved(index, after)),
{
    let next = state.moved(index, after);
    assert forall|i: int| 0 <= i < next.pending.len() implies tidy::<F, D>(
        format,
        alike,
        #[trigger] next.reading(i),
    ) && whole::<F, D>(format, next.reading(i)) == whole::<F, D>(format, state.reading(i)) by {
        if i == index {
            assert(next.reading(i) == after);
        } else {
            lemma_tidy_alike::<F, D>(format, alike, state.reading(i), after.decrypter);
            assert(next.reading(i) == Reading { decrypter: after.decrypter, ..state.reading(i) });
        }
    }
    assert forall|i: int| 0 <= i < state.pending.len() implies {
        &&& (#[trigger] next.pending[i]).group.sequence == state.pending[i].group.sequence
        &&& whole::<F, D>(format, next.reading(i)) == whole::<F, D>(format, state.reading(i))
    } by {
        assert(tidy::<F, D>(format, alike, next.reading(i)));
    }
}

/// A tidy group stays so in another state of the decrypter.
proof fn lemma_tidy_alike<F: Container, D: FrameDecrypter>(
    format: &F,
    alike: Alike<D::State>,
    at: Reading<D::State>,
    decrypter: Option<D::State>,
)
    requires
        tidy::<F, D>(format, alike, at),
        (alike.states)(decrypter),
    ensures
        tidy::<F, D>(format, alike, Reading { decrypter, ..at }),
        whole::<F, D>(format, Reading { decrypter, ..at }) == whole::<F, D>(format, at),
{
    lemma_alike_all::<F, D>(format, alike, at, decrypter);
}

/// Whether there is media in a group at hand.
spec fn timed<F: Container, D: FrameDecrypter>(format: &F, state: StateOf<D>, index: int) -> bool {
    whole::<F, D>(format, state.reading(index)).min_timestamp is Some
}

/// The earliest timestamp of a group at hand, once all of it is decoded.
spec fn least_of<F: Container, D: FrameDecrypter>(
    format: &F,
    state: StateOf<D>,
    index: int,
) -> Timestamp {
    whole::<F, D>(format, state.reading(index)).min_timestamp->Some_0
}

/// The latest timestamp of a group at hand, once all of it is decoded.
spec fn greatest_of<F: Container, D: FrameDecrypter>(
    format: &F,
    state: StateOf<D>,
    index: int,
) -> Timestamp {
    whole::<F, D>(format, state.reading(index)).max_timestamp->Some_0
}

proof fn lemma_earliest_rest<F: Container, D: FrameDecrypter>(
    format: &F,
    alike: Alike<D::State>,
    state: StateOf<D>,
    index: int,
)
    requires
        all_tidy::<F, D>(format, alike, state),
        0 <= index < state.pending.len(),
    ensures
        ({
            let (next, found) = earliest_at::<F, D>(format, state, index);
            &&& all_tidy::<F, D>(format, alike, next)
            &&& same_rest::<F, D>(format, state, next)
            &&& found is Some == timed::<F, D>(format, state, index)
            &&& found matches Some(timestamp) ==> {
                &&& timestamp.valid()
                &&& !timestamp.precedes(least_of::<F, D>(format, state, index))
            }
        }),
{
    let at = state.reading(index);
    assert(tidy::<F, D>(format, alike, at));
    lemma_tidy_look::<F, D>(format, alike, at);
    lemma_moved_rest::<F, D>(format, alike, state, index, earliest::<F, D>(format, at).0);
}

proof fn lemma_latest_rest<F: Container, D: FrameDecrypter>(
    format: &F,
    alike: Alike<D::State>,
    state: StateOf<D>,
    index: int,
)
    requires
        all_tidy::<F, D>(format, alike, state),
        0 <= index < state.pending.len(),
    ensures
        all_tidy::<F, D>(format, alike, latest_at::<F, D>(format, state, index).0),
        same_rest::<F, D>(format, state, latest_at::<F, D>(format, state, index).0),
{
    let at = state.reading(index);
    assert(tidy::<F, D>(format, alike, at));
    lemma_tidy_look::<F, D>(format, alike, at);
    lemma_moved_rest::<F, D>(format, alike, state, index, latest::<F, D>(format, at).0);
}

/// Looking for media finds some where there is any, and leaves the groups as they are.
proof fn lemma_first_rest<F: Container, D: FrameDecrypter>(
    format: &F,
    alike: Alike<D::State>,
    state: StateOf<D>,
    index: int,
    floor: Option<u64>,
)
    requires
        all_tidy::<F, D>(format, alike, state),
        0 <= index,
    ensures
        ({
            let (next, found) = first_timed::<F, D>(format, state, index, floor);
            &&& all_tidy::<F, D>(format, alike, next)
            &&& same_rest::<F, D>(format, state, next)
            &&& found matches Some((at, _)) ==> {
                &&& index <= at < state.pending.len()
                &&& timed::<F, D>(format, state, at)
            }
            &&& found is None ==> forall|i: int|
                index <= i < state.pending.len() && (floor matches Some(number)
                    ==> state.pending[i].group.sequence > number) ==> !#[trigger] timed::<F, D>(
                    format,
                    state,
                    i,
                )
        }),
    decreases state.pending.len() - index,
{
    if index < state.pending.len() {
        if floor is Some && state.pending[index].group.sequence <= floor->Some_0 {
            lemma_first_rest::<F, D>(format, alike, state, index + 1, floor);
        } else {
            let (next, found) = earliest_at::<F, D>(format, state, index);
            lemma_earliest_rest::<F, D>(format, alike, state, index);
            if found is None {
                lemma_first_rest::<F, D>(format, alike, next, index + 1, floor);
                let last = first_timed::<F, D>(format, next, index + 1, floor).0;
                lemma_same_rest::<F, D>(format, state, next, last);
                assert forall|i: int| 0 <= i < state.pending.len() implies #[trigger] timed::<
                    F,
                    D,
                >(format, state, i) == timed::<F, D>(format, next, i)
                    && state.pending[i].group.sequence == next.pending[i].group.sequence by {
                    assert(next.pending[i].group.sequence == state.pending[i].group.sequence);
                }
                if let Some((at, _)) = first_timed::<F, D>(format, state, index, floor).1 {
                    assert(timed::<F, D>(format, next, at));
                    assert(timed::<F, D>(format, state, at) == timed::<F, D>(format, next, at));
                }
            }
        }
    }
}

/// Whether no group beyond the live edge starts before it.
spec fn past_edge<F: Container, D: FrameDecrypter>(
    format: &F,
    state: StateOf<D>,
    prev_max: u64,
    live_edge: Timestamp,
) -> bool {
    &&& live_edge.valid()
    &&& forall|i: int|
        0 <= i < state.pending.len() && (#[trigger] state.pending[i]).group.sequence > prev_max
            && timed::<F, D>(format, state, i) ==> !least_of::<F, D>(format, state, i).precedes(
            live_edge,
        )
}

proof fn lemma_same_rest<F: Container, D: FrameDecrypter>(
    format: &F,
    a: StateOf<D>,
    b: StateOf<D>,
    c: StateOf<D>,
)
    requires
        same_rest::<F, D>(format, a, b),
        same_rest::<F, D>(format, b, c),
    ensures
        same_rest::<F, D>(format, a, c),
{
    assert forall|i: int| 0 <= i < a.pending.len() implies {
        &&& (#[trigger] c.pending[i]).group.sequence == a.pending[i].group.sequence
        &&& whole::<F, D>(format, c.reading(i)) == whole::<F, D>(format, a.reading(i))
    } by {
        assert(b.pending[i].group.sequence == a.pending[i].group.sequence);
    }
}

proof fn lemma_same_edge<F: Container, D: FrameDecrypter>(
    format: &F,
    a: StateOf<D>,
    b: StateOf<D>,
    prev_max: u64,
    live_edge: Timestamp,
)
    requires
        same_rest::<F, D>(format, a, b),
        past_edge::<F, D>(format, a, prev_max, live_edge),
    ensures
        past_edge::<F, D>(format, b, prev_max, live_edge),
{
    assert forall|i: int|
        0 <= i < b.pending.len() && (#[trigger] b.pending[i]).group.sequence > prev_max
            && timed::<F, D>(format, b, i) implies !least_of::<F, D>(format, b, i).precedes(
        live_edge,
    ) by {
        assert(a.pending[i].group.sequence > prev_max);
    }
}

proof fn lemma_no_reset<F: Container, D: FrameDecrypter>(
    format: &F,
    alike: Alike<D::State>,
    state: StateOf<D>,
    count: int,
    prev_max: u64,
    live_edge: Timestamp,
)
    requires
        all_tidy::<F, D>(format, alike, state),
        count <= state.pending.len(),
        past_edge::<F, D>(format, state, prev_max, live_edge),
    ensures
        ({
            let (next, reset) = find_reset::<F, D>(format, state, count, prev_max, live_edge);
            &&& reset is None
            &&& all_tidy::<F, D>(format, alike, next)
            &&& same_rest::<F, D>(format, state, next)
        }),
    decreases count,
{
    if count > 0 && state.pending[count - 1].group.sequence > prev_max {
        let (next, found) = earliest_at::<F, D>(format, state, count - 1);
        lemma_earliest_rest::<F, D>(format, alike, state, count - 1);
        assert(tidy::<F, D>(format, alike, state.reading(count - 1)));
        if let Some(timestamp) = found {
            lemma_not_before(timestamp, least_of::<F, D>(format, state, count - 1), live_edge);
        }
        lemma_same_edge::<F, D>(format, state, next, prev_max, live_edge);
        lemma_no_reset::<F, D>(format, alike, next, count - 1, prev_max, live_edge);
        let last = find_reset::<F, D>(format, next, count - 1, prev_max, live_edge).0;
        lemma_same_rest::<F, D>(format, state, next, last);
    }
}

proof fn lemma_last_rest<F: Container, D: FrameDecrypter>(
    format: &F,
    alike: Alike<D::State>,
    state: StateOf<D>,
    count: int,
    floor: u64,
)
    requires
        all_tidy::<F, D>(format, alike, state),
        count <= state.pending.len(),
    ensures
        all_tidy::<F, D>(format, alike, last_timed::<F, D>(format, state, count, floor).0),
        same_rest::<F, D>(format, state, last_timed::<F, D>(format, state, count, floor).0),
    decreases count,
{
    if count > 0 && state.pending[count - 1].group.sequence > floor {
        let (next, found) = latest_at::<F, D>(format, state, count - 1);
        lemma_latest_rest::<F, D>(format, alike, state, count - 1);
        if found is None {
            lemma_last_rest::<F, D>(format, alike, next, count - 1, floor);
            let last = last_timed::<F, D>(format, next, count - 1, floor).0;
            lemma_same_rest::<F, D>(format, state, next, last);
        }
    }
}

/// What the groups at hand lead to, once all of each is decoded.
pub open spec fn wholes<F: Container, D: FrameDecrypter>(
    format: &F,
    state: StateOf<D>,
) -> Seq<BufferView> {
    Seq::new(state.pending.len(), |i: int| whole::<F, D>(format, state.reading(i)))
}

/// Whether no timestamp of a group lies before one of a lower group.
spec fn in_time<F: Container, D: FrameDecrypter>(format: &F, state: StateOf<D>) -> bool {
    forall|i: int, j: int|
        0 <= i < state.pending.len() && 0 <= j < state.pending.len() && (
        #[trigger] state.pending[i]).group.sequence < (#[trigger] state.pending[j]).group.sequence
            && timed::<F, D>(format, state, i) && timed::<F, D>(format, state, j)
            ==> !least_of::<F, D>(format, state, j).precedes(greatest_of::<F, D>(format, state, i))
}

/// Whether a group can be reached: it is not beyond the cursor, there is media at or after
/// it, or it directly follows another group.
spec fn reachable(current: u64, groups: Seq<BufferView>, index: int) -> bool {
    let number = groups[index].group.sequence;
    ||| number <= current
    ||| exists|i: int|
        0 <= i < groups.len() && (#[trigger] groups[i]).min_timestamp is Some
            && groups[i].group.sequence >= number
    ||| exists|i: int|
        0 <= i < groups.len() && (#[trigger] groups[i]).group.sequence + 1 == number
}

/// Whether each group can be reached.
spec fn in_reach(current: u64, groups: Seq<BufferView>) -> bool {
    forall|i: int| 0 <= i < groups.len() ==> #[trigger] reachable(current, groups, i)
}

/// The order of the groups, and what can be reached, lie in the numbers and in where
/// there is media; a cursor further on reaches no less.
proof fn lemma_reach_alike(current: u64, a: Seq<BufferView>, next: u64, b: Seq<BufferView>)
    requires
        in_reach(current, a),
        ascending(a),
        current <= next,
        a.len() == b.len(),
        forall|i: int|
            0 <= i < a.len() ==> {
                &&& (#[trigger] b[i]).group.sequence == a[i].group.sequence
                &&& b[i].min_timestamp is Some == a[i].min_timestamp is Some
            },
    ensures
        in_reach(next, b),
        ascending(b),
{
    assert forall|i: int, j: int| 0 <= i < j < b.len() implies (#[trigger] b[i]).group.sequence
        <= (#[trigger] b[j]).group.sequence by {
        assert(a[i].group.sequence <= a[j].group.sequence);
    }
    assert forall|i: int| 0 <= i < b.len() implies #[trigger] reachable(next, b, i) by {
        assert(reachable(current, a, i));
        let number = a[i].group.sequence;
        assert(b[i].group.sequence == number);
        if exists|j: int|
            0 <= j < a.len() && (#[trigger] a[j]).min_timestamp is Some && a[j].group.sequence
                >= number {
            let j = choose|j: int|
                0 <= j < a.len() && (#[trigger] a[j]).min_timestamp is Some && a[j].group.sequence
                    >= number;
            assert(b[j].min_timestamp is Some);
        } else if exists|j: int|
            0 <= j < a.len() && (#[trigger] a[j]).group.sequence + 1 == number {
            let j = choose|j: int|
                0 <= j < a.len() && (#[trigger] a[j]).group.sequence + 1 == number;
            assert(b[j].group.sequence + 1 == number);
        }
    }
}

/// The groups after the first, once the cursor passed it.
proof fn lemma_reach_passed(current: u64, groups: Seq<BufferView>, next: u64)
    requires
        in_reach(current, groups),
        ascending(groups),
        groups.len() > 0,
        current <= next,
        groups[0].group.sequence < next || next == u64::MAX,
    ensures
        in_reach(next, groups.drop_first()),
        ascending(groups.drop_first()),
{
    let rest = groups.drop_first();
    assert forall|i: int| 0 <= i < rest.len() implies #[trigger] reachable(next, rest, i) by {
        assert(reachable(current, groups, i + 1));
        let number = groups[i + 1].group.sequence;
        if exists|j: int|
            0 <= j < groups.len() && (#[trigger] groups[j]).min_timestamp is Some
                && groups[j].group.sequence >= number {
            let j = choose|j: int|
                0 <= j < groups.len() && (#[trigger] groups[j]).min_timestamp is Some
                    && groups[j].group.sequence >= number;
            if j > 0 {
                assert(rest[j - 1].min_timestamp is Some);
            }
        } else if exists|j: int|
            0 <= j < groups.len() && (#[trigger] groups[j]).group.sequence + 1 == number {
            let j = choose|j: int|
                0 <= j < groups.len() && (#[trigger] groups[j]).group.sequence + 1 == number;
            if j > 0 {
                assert(rest[j - 1].group.sequence + 1 == number);
            }
        }
    }
}

/// Whether everything of a track that is left to read is at hand, and its timeline never
/// turns back.
#[verifier::opaque]
spec fn orderly<F: Container, D: FrameDecrypter>(
    format: &F,
    alike: Alike<D::State>,
    state: StateOf<D>,
) -> bool {
    &&& state.track.arrived.len() == 0
    &&& state.track.closed == Some(Ok::<(), net::Error>(()))
    &&& state.startup ==> forall|i: int|
        0 <= i < state.pending.len() ==> !#[trigger] timed::<F, D>(format, state, i)
    &&& state.rewind.boundary is None
    &&& all_tidy::<F, D>(format, alike, state)
    &&& in_time::<F, D>(format, state)
    &&& state.rewind.live_edge matches Some((prev_max, live_edge)) ==> past_edge::<F, D>(
        format,
        state,
        prev_max,
        live_edge,
    )
    &&& ascending(wholes::<F, D>(format, state))
    &&& in_reach(state.current, wholes::<F, D>(format, state))
}

proof fn lemma_orderly_rest<F: Container, D: FrameDecrypter>(
    format: &F,
    alike: Alike<D::State>,
    a: StateOf<D>,
    b: StateOf<D>,
)
    requires
        orderly::<F, D>(format, alike, a),
        all_tidy::<F, D>(format, alike, b),
        same_rest::<F, D>(format, a, b),
    ensures
        orderly::<F, D>(format, alike, b),
        wholes::<F, D>(format, b) == wholes::<F, D>(format, a),
{
    reveal(orderly);
    assert forall|i: int, j: int|
        0 <= i < b.pending.len() && 0 <= j < b.pending.len() && (
        #[trigger] b.pending[i]).group.sequence < (
        #[trigger] b.pending[j]).group.sequence && timed::<F, D>(format, b, i) && timed::<F, D>(
            format,
            b,
            j,
        ) implies !least_of::<F, D>(format, b, j).precedes(greatest_of::<F, D>(format, b, i)) by {
        assert(a.pending[i].group.sequence < a.pending[j].group.sequence);
    }
    if let Some((prev_max, live_edge)) = a.rewind.live_edge {
        lemma_same_edge::<F, D>(format, a, b, prev_max, live_edge);
    }
    assert forall|i: int| 0 <= i < a.pending.len() implies #[trigger] wholes::<F, D>(format, b)[i]
        == wholes::<F, D>(format, a)[i] by {
        assert(b.pending[i].group.sequence == a.pending[i].group.sequence);
    }
    assert(wholes::<F, D>(format, b) =~= wholes::<F, D>(format, a));
    if b.startup {
        assert forall|i: int| 0 <= i < b.pending.len() implies !#[trigger] timed::<F, D>(
            format,
            b,
            i,
        ) by {
            assert(b.pending[i].group.sequence == a.pending[i].group.sequence);
            assert(!timed::<F, D>(format, a, i));
        }
    }
}

/// No rewind is found in an orderly state.
proof fn lemma_orderly_detected<F: Container, D: FrameDecrypter>(
    format: &F,
    alike: Alike<D::State>,
    state: StateOf<D>,
)
    requires
        orderly::<F, D>(format, alike, state),
    ensures
        ({
            let (next, reset) = detected::<F, D>(format, state);
            &&& !reset
            &&& orderly::<F, D>(format, alike, next)
            &&& same_rest::<F, D>(format, state, next)
            &&& wholes::<F, D>(format, next) == wholes::<F, D>(format, state)
            &&& settled::<F, D>(format, next) == next
        }),
{
    reveal(orderly);
    let (next, _) = detected::<F, D>(format, state);
    if let Some((prev_max, live_edge)) = state.rewind.live_edge {
        lemma_no_reset::<F, D>(
            format,
            alike,
            state,
            state.pending.len() as int,
            prev_max,
            live_edge,
        );
    }
    lemma_orderly_rest::<F, D>(format, alike, state, next);
}

/// The state after the first item of the first group was taken stays orderly.
proof fn lemma_orderly_moved<F: Container, D: FrameDecrypter>(
    format: &F,
    alike: Alike<D::State>,
    state: StateOf<D>,
    after: Reading<D::State>,
)
    requires
        orderly::<F, D>(format, alike, state),
        state.pending.len() > 0,
        whole::<F, D>(format, state.reading(0)).items.len() > 0,
        whole::<F, D>(format, after) == shortened(whole::<F, D>(format, state.reading(0))),
        tidy::<F, D>(format, alike, after),
        after.buffer.group.sequence == state.pending[0].group.sequence,
    ensures
        ({
            let next = state.moved(0, after);
            &&& orderly::<F, D>(format, alike, next)
            &&& wholes::<F, D>(format, next) == wholes::<F, D>(format, state).update(
                0,
                shortened(wholes::<F, D>(format, state)[0]),
            )
        }),
{
    reveal(orderly);
    let next = state.moved(0, after);
    assert(tidy::<F, D>(format, alike, state.reading(0)));
    assert(next.reading(0) == after);
    assert forall|i: int| 0 < i < next.pending.len() implies tidy::<F, D>(
        format,
        alike,
        #[trigger] next.reading(i),
    ) && whole::<F, D>(format, next.reading(i)) == whole::<F, D>(format, state.reading(i)) by {
        lemma_tidy_alike::<F, D>(format, alike, state.reading(i), after.decrypter);
        assert(next.reading(i) == (Reading { decrypter: after.decrypter, ..state.reading(i) }));
    }
    assert(all_tidy::<F, D>(format, alike, next));
    assert forall|i: int| 0 <= i < next.pending.len() implies {
        &&& (#[trigger] next.pending[i]).group.sequence == state.pending[i].group.sequence
        &&& least_of::<F, D>(format, next, i) == least_of::<F, D>(format, state, i)
        &&& greatest_of::<F, D>(format, next, i) == greatest_of::<F, D>(format, state, i)
        &&& timed::<F, D>(format, next, i) == timed::<F, D>(format, state, i)
    } by {
        assert(tidy::<F, D>(format, alike, next.reading(i)));
    }
    assert forall|i: int, j: int|
        0 <= i < next.pending.len() && 0 <= j < next.pending.len() && (
        #[trigger] next.pending[i]).group.sequence < (
        #[trigger] next.pending[j]).group.sequence && timed::<F, D>(format, next, i) && timed::<
            F,
            D,
        >(format, next, j) implies !least_of::<F, D>(format, next, j).precedes(
        greatest_of::<F, D>(format, next, i),
    ) by {
        assert(state.pending[i].group.sequence < state.pending[j].group.sequence);
    }
    if let Some((prev_max, live_edge)) = state.rewind.live_edge {
        assert forall|i: int|
            0 <= i < next.pending.len() && (#[trigger] next.pending[i]).group.sequence > prev_max
                && timed::<F, D>(format, next, i) implies !least_of::<F, D>(
            format,
            next,
            i,
        ).precedes(live_edge) by {
            assert(state.pending[i].group.sequence > prev_max);
        }
    }
    assert forall|i: int| 0 <= i < next.pending.len() implies #[trigger] wholes::<F, D>(
        format,
        next,
    )[i] == wholes::<F, D>(format, state).update(0, shortened(wholes::<F, D>(format, state)[0]))[
        i
    ] by {
        assert(tidy::<F, D>(format, alike, next.reading(i)));
    }
    assert(wholes::<F, D>(format, next) =~= wholes::<F, D>(format, state).update(
        0,
        shortened(wholes::<F, D>(format, state)[0]),
    ));
    lemma_reach_alike(
        state.current,
        wholes::<F, D>(format, state),
        next.current,
        wholes::<F, D>(format, next),
    );
    if next.startup {
        assert forall|i: int| 0 <= i < next.pending.len() implies !#[trigger] timed::<F, D>(
            format,
            next,
            i,
        ) by {
            assert(next.pending[i].group.sequence == state.pending[i].group.sequence);
            assert(!timed::<F, D>(format, state, i));
        }
    }
}

/// The state after a frame was delivered stays orderly.
proof fn lemma_orderly_frame<F: Container, D: FrameDecrypter>(
    format: &F,
    alike: Alike<D::State>,
    state: StateOf<D>,
    timestamp: Timestamp,
)
    requires
        orderly::<F, D>(format, alike, state),
        state.pending.len() > 0,
        timestamp.valid(),
        timed::<F, D>(format, state, 0),
        !greatest_of::<F, D>(format, state, 0).precedes(timestamp),
    ensures
        orderly::<F, D>(format, alike, state.delivered(timestamp)),
        wholes::<F, D>(format, state.delivered(timestamp)) == wholes::<F, D>(format, state),
{
    reveal(orderly);
    let next = state.delivered(timestamp);
    lemma_same_readings::<F, D>(format, alike, state, next);
    let (prev_max, live_edge) = next.rewind.live_edge->Some_0;
    assert(tidy::<F, D>(format, alike, state.reading(0)));
    assert forall|i: int|
        0 <= i < next.pending.len() && (#[trigger] next.pending[i]).group.sequence > prev_max
            && timed::<F, D>(format, next, i) implies !least_of::<F, D>(format, next, i).precedes(
        live_edge,
    ) by {
        assert(next.reading(i) == state.reading(i));
        if next.rewind.live_edge != state.rewind.live_edge {
            assert(state.pending[0].group.sequence < state.pending[i].group.sequence);
            assert(tidy::<F, D>(format, alike, state.reading(i)));
            lemma_not_before(
                least_of::<F, D>(format, state, i),
                greatest_of::<F, D>(format, state, 0),
                timestamp,
            );
        } else {
            assert(state.pending[i].group.sequence > prev_max);
        }
    }
}

/// The state after the first group ended stays orderly.
#[verifier::spinoff_prover]
proof fn lemma_orderly_end<F: Container, D: FrameDecrypter>(
    format: &F,
    alike: Alike<D::State>,
    state: StateOf<D>,
    after: Reading<D::State>,
)
    requires
        orderly::<F, D>(format, alike, state),
        state.pending.len() > 0,
        (alike.states)(after.decrypter),
        !after.buffer.empty,
        after.buffer.group.sequence == state.pending[0].group.sequence,
    ensures
        ({
            let next = state.moved(0, after).passed();
            &&& orderly::<F, D>(format, alike, next)
            &&& wholes::<F, D>(format, next) == wholes::<F, D>(format, state).drop_first()
            &&& next.rewind == state.rewind
        }),
{
    reveal(orderly);
    let next = state.moved(0, after).passed();
    assert forall|i: int| 0 <= i < next.pending.len() implies tidy::<F, D>(
        format,
        alike,
        #[trigger] next.reading(i),
    ) && whole::<F, D>(format, next.reading(i)) == whole::<F, D>(format, state.reading(i + 1)) by {
        assert(tidy::<F, D>(format, alike, state.reading(i + 1)));
        lemma_tidy_alike::<F, D>(format, alike, state.reading(i + 1), after.decrypter);
        assert(next.reading(i) == (Reading {
            decrypter: after.decrypter,
            ..state.reading(i + 1)
        }));
    }
    assert forall|i: int, j: int|
        0 <= i < next.pending.len() && 0 <= j < next.pending.len() && (
        #[trigger] next.pending[i]).group.sequence < (
        #[trigger] next.pending[j]).group.sequence && timed::<F, D>(format, next, i) && timed::<
            F,
            D,
        >(format, next, j) implies !least_of::<F, D>(format, next, j).precedes(
        greatest_of::<F, D>(format, next, i),
    ) by {
        assert(tidy::<F, D>(format, alike, next.reading(i)));
        assert(tidy::<F, D>(format, alike, next.reading(j)));
        assert(state.pending[i + 1].group.sequence < state.pending[j + 1].group.sequence);
    }
    if let Some((prev_max, live_edge)) = state.rewind.live_edge {
        assert forall|i: int|
            0 <= i < next.pending.len() && (#[trigger] next.pending[i]).group.sequence > prev_max
                && timed::<F, D>(format, next, i) implies !least_of::<F, D>(
            format,
            next,
            i,
        ).precedes(live_edge) by {
            assert(tidy::<F, D>(format, alike, next.reading(i)));
            assert(state.pending[i + 1].group.sequence > prev_max);
        }
    }
    assert(wholes::<F, D>(format, next) =~= wholes::<F, D>(format, state).drop_first()) by {
        assert forall|i: int| 0 <= i < next.pending.len() implies #[trigger] wholes::<F, D>(
            format,
            next,
        )[i] == wholes::<F, D>(format, state).drop_first()[i] by {
            assert(tidy::<F, D>(format, alike, next.reading(i)));
        }
    }
    let before = wholes::<F, D>(format, state);
    assert(tidy::<F, D>(format, alike, state.reading(0)));
    lemma_calm_all::<F, D>(format, alike, state.reading(0));
    assert(before[0].group.sequence == state.pending[0].group.sequence);
    lemma_reach_passed(state.current, before, next.current);
    if next.startup {
        assert forall|i: int| 0 <= i < next.pending.len() implies !#[trigger] timed::<F, D>(
            format,
            next,
            i,
        ) by {
            assert(tidy::<F, D>(format, alike, next.reading(i)));
            assert(!timed::<F, D>(format, state, i + 1));
        }
    }
}

/// What an orderly state gives next, and what it leaves.
spec fn gives<F: Container, D: FrameDecrypter>(
    format: &F,
    alike: Alike<D::State>,
    state: StateOf<D>,
    next: StateOf<D>,
    outcome: EventOutcome,
) -> bool {
    let before = wholes::<F, D>(format, state);
    let after = wholes::<F, D>(format, next);
    &&& orderly::<F, D>(format, alike, next)
    &&& next.rewind.discontinuity == state.rewind.discontinuity
    &&& if before.len() == 0 {
        &&& outcome == Poll::Ready(Ok::<Option<EventView>, Error>(None))
        &&& after == before
    } else if before[0].items.len() > 0 {
        &&& outcome == Poll::Ready(
            Ok::<Option<EventView>, Error>(
                Some(
                    match before[0].items[0] {
                        ItemView::Frame(frame) => EventView::Frame(frame),
                        ItemView::End(bound) => EventView::FrameEnd(bound),
                    },
                ),
            ),
        )
        &&& after == before.update(0, shortened(before[0]))
    } else {
        &&& outcome == Poll::Ready(Ok::<Option<EventView>, Error>(Some(EventView::GroupEnd)))
        &&& after == before.drop_first()
    }
}

/// A turn at a group that is at hand.
#[verifier::spinoff_prover]
proof fn lemma_orderly_turn<F: Container, D: FrameDecrypter>(
    format: &F,
    alike: Alike<D::State>,
    state: StateOf<D>,
)
    requires
        orderly::<F, D>(format, alike, state),
        state.pending.len() > 0,
        state.pending[0].group.sequence <= state.current,
    ensures
        turn::<F, D>(format, state, true) matches Turn::Done(next, outcome) && gives::<F, D>(
            format,
            alike,
            state,
            next,
            outcome,
        ),
{
    reveal(orderly);
    lemma_orderly_detected::<F, D>(format, alike, state);
    let checked = detected::<F, D>(format, state).0;
    assert(checked.pending[0].group.sequence == state.pending[0].group.sequence);
    assert(tidy::<F, D>(format, alike, checked.reading(0)));
    lemma_tidy_take::<F, D>(format, alike, checked.reading(0));
    let (after, _) = delivery::<F, D>(format, checked.reading(0));
    let all = whole::<F, D>(format, checked.reading(0));
    assert(wholes::<F, D>(format, checked)[0] == all);
    if all.items.len() > 0 {
        lemma_orderly_moved::<F, D>(format, alike, checked, after);
        assert(within(all.items[0], all.max_timestamp));
        let moved = checked.moved(0, after);
        assert(moved.reading(0) == after);
        if let ItemView::Frame(frame) = all.items[0] {
            lemma_orderly_frame::<F, D>(format, alike, moved, frame.timestamp);
        }
    } else {
        lemma_orderly_end::<F, D>(format, alike, checked, after);
    }
}

/// There is media beyond a gap.
proof fn lemma_gap_media<F: Container, D: FrameDecrypter>(
    format: &F,
    alike: Alike<D::State>,
    state: StateOf<D>,
) -> (at: int)
    requires
        orderly::<F, D>(format, alike, state),
        state.pending.len() > 0,
        state.pending[0].group.sequence > state.current,
    ensures
        0 <= at < state.pending.len(),
        timed::<F, D>(format, state, at),
        state.pending[at].group.sequence > state.current,
{
    reveal(orderly);
    let groups = wholes::<F, D>(format, state);
    assert(tidy::<F, D>(format, alike, state.reading(0)));
    lemma_calm_all::<F, D>(format, alike, state.reading(0));
    assert(groups[0].group.sequence > state.current);
    assert(reachable(state.current, groups, 0));
    let at = if groups[0].min_timestamp is Some {
        0
    } else {
        choose|j: int|
            0 <= j < groups.len() && (#[trigger] groups[j]).min_timestamp is Some
                && groups[j].group.sequence >= groups[0].group.sequence
    };
    assert(groups[at].min_timestamp is Some && groups[at].group.sequence > state.current);
    assert(tidy::<F, D>(format, alike, state.reading(at)));
    lemma_calm_all::<F, D>(format, alike, state.reading(at));
    at
}

/// Looking at the groups beyond a gap finds media, and leaves the groups as they are.
#[verifier::spinoff_prover]
proof fn lemma_orderly_outlook<F: Container, D: FrameDecrypter>(
    format: &F,
    alike: Alike<D::State>,
    state: StateOf<D>,
)
    requires
        orderly::<F, D>(format, alike, state),
        state.pending.len() > 0,
        state.pending[0].group.sequence > state.current,
    ensures
        ({
            let (next, view) = outlook::<F, D>(format, state);
            &&& orderly::<F, D>(format, alike, next)
            &&& same_rest::<F, D>(format, state, next)
            &&& wholes::<F, D>(format, next) == wholes::<F, D>(format, state)
            &&& view.next is Some
        }),
{
    let at = lemma_gap_media::<F, D>(format, alike, state);
    assert(all_tidy::<F, D>(format, alike, state)) by {
        reveal(orderly);
    }
    lemma_first_rest::<F, D>(format, alike, state, 0, Some(state.current));
    let (second, found) = first_timed::<F, D>(format, state, 0, Some(state.current));
    assert(found is Some) by {
        assert(timed::<F, D>(format, state, at));
    }
    let count = second.pending.len() as int;
    lemma_last_rest::<F, D>(format, alike, second, count, state.current);
    let third = last_timed::<F, D>(format, second, count, state.current).0;
    lemma_same_rest::<F, D>(format, state, second, third);
    lemma_orderly_rest::<F, D>(format, alike, state, third);
}

/// The cursor moves to the first of the groups.
proof fn lemma_orderly_advanced<F: Container, D: FrameDecrypter>(
    format: &F,
    alike: Alike<D::State>,
    state: StateOf<D>,
)
    requires
        orderly::<F, D>(format, alike, state),
        state.pending.len() > 0,
        state.pending[0].group.sequence >= state.current,
    ensures
        orderly::<F, D>(format, alike, state.advanced(0)),
        wholes::<F, D>(format, state.advanced(0)) == wholes::<F, D>(format, state),
{
    reveal(orderly);
    let next = state.advanced(0);
    lemma_same_readings::<F, D>(format, alike, state, next);
    lemma_reach_alike(
        state.current,
        wholes::<F, D>(format, state),
        next.current,
        wholes::<F, D>(format, next),
    );
}

/// A turn at a gap, where nothing more will come: reading goes on beyond it.
#[verifier::spinoff_prover]
proof fn lemma_orderly_gap<F: Container, D: FrameDecrypter>(
    format: &F,
    alike: Alike<D::State>,
    state: StateOf<D>,
)
    requires
        orderly::<F, D>(format, alike, state),
        state.pending.len() > 0,
        state.pending[0].group.sequence > state.current,
    ensures
        ({
            &&& turn::<F, D>(format, state, true) matches Turn::Again(next)
            &&& orderly::<F, D>(format, alike, next)
            &&& next.rewind == state.rewind
            &&& next.pending.len() == state.pending.len()
            &&& next.pending[0].group.sequence <= next.current
            &&& wholes::<F, D>(format, next) == wholes::<F, D>(format, state)
        }),
{
    lemma_orderly_detected::<F, D>(format, alike, state);
    let checked = detected::<F, D>(format, state).0;
    assert(checked.pending[0].group.sequence == state.pending[0].group.sequence);
    assert(front::<F, D>(format, checked) == (checked, None::<Turn<D::State>>));
    lemma_orderly_outlook::<F, D>(format, alike, checked);
    let looked = outlook::<F, D>(format, checked).0;
    assert(looked.pending[0].group.sequence == checked.pending[0].group.sequence);
    lemma_orderly_advanced::<F, D>(format, alike, looked);
    assert(turn::<F, D>(format, state, true) == Turn::Again(looked.advanced(0)));
}

/// A turn at the end of the track.
#[verifier::spinoff_prover]
proof fn lemma_orderly_last<F: Container, D: FrameDecrypter>(
    format: &F,
    alike: Alike<D::State>,
    state: StateOf<D>,
)
    requires
        orderly::<F, D>(format, alike, state),
        state.pending.len() == 0,
    ensures
        turn::<F, D>(format, state, true) matches Turn::Done(next, outcome) && gives::<F, D>(
            format,
            alike,
            state,
            next,
            outcome,
        ),
{
    reveal(orderly);
    lemma_orderly_detected::<F, D>(format, alike, state);
    let checked = detected::<F, D>(format, state).0;
    assert(front::<F, D>(format, checked) == (checked, None::<Turn<D::State>>));
    assert(outlook::<F, D>(format, checked).0 == checked);
    assert(first_above(checked.pending, 0, checked.current) == 0);
}

/// What an orderly track comes to, turn after turn.
#[verifier::spinoff_prover]
proof fn lemma_orderly_run<F: Container, D: FrameDecrypter>(
    format: &F,
    alike: Alike<D::State>,
    state: StateOf<D>,
)
    requires
        orderly::<F, D>(format, alike, state),
    ensures
        ({
            let (next, outcome) = run::<F, D>(format, state.reaped(), true);
            gives::<F, D>(format, alike, state, next, outcome)
        }),
{
    reveal(orderly);
    let keep = readable(state.current);
    assert forall|i: int| 0 <= i < state.pending.len() implies keep(
        #[trigger] state.pending[i],
    ) by {
        assert(tidy::<F, D>(format, alike, state.reading(i)));
    }
    lemma_filter_whole(state.pending, keep);
    assert(state.reaped() == state);
    if state.pending.len() == 0 {
        lemma_orderly_last::<F, D>(format, alike, state);
    } else if state.pending[0].group.sequence <= state.current {
        lemma_orderly_turn::<F, D>(format, alike, state);
    } else {
        lemma_orderly_gap::<F, D>(format, alike, state);
        let next = turn::<F, D>(format, state, true)->Again_0;
        lemma_orderly_turn::<F, D>(format, alike, next);
        assert(run::<F, D>(format, state, true) == run::<F, D>(format, next, true));
    }
}

/// Starting at the first media finds none that an orderly track has not found.
#[verifier::spinoff_prover]
proof fn lemma_orderly_latched<F: Container, D: FrameDecrypter>(
    format: &F,
    alike: Alike<D::State>,
    state: StateOf<D>,
)
    requires
        orderly::<F, D>(format, alike, state),
    ensures
        ({
            let ready = latched::<F, D>(format, state);
            &&& orderly::<F, D>(format, alike, ready)
            &&& ready.rewind == state.rewind
            &&& wholes::<F, D>(format, ready) == wholes::<F, D>(format, state)
            &&& event::<F, D>(format, state) == run::<F, D>(format, ready.reaped(), true)
        }),
{
    reveal(orderly);
    assert(state.received() == state);
    if state.startup {
        lemma_first_rest::<F, D>(format, alike, state, 0, None);
        lemma_orderly_rest::<F, D>(
            format,
            alike,
            state,
            first_timed::<F, D>(format, state, 0, None).0,
        );
    }
}

/// The media frames of a run of items.
pub open spec fn media_in(items: Seq<ItemView>) -> Seq<FrameView>
    decreases items.len(),
{
    if items.len() == 0 {
        Seq::empty()
    } else {
        let rest = media_in(items.drop_first());
        match items[0] {
            ItemView::Frame(frame) => seq![frame] + rest,
            ItemView::End(_) => rest,
        }
    }
}

proof fn lemma_media_push(items: Seq<ItemView>, item: ItemView)
    ensures
        media_in(items.push(item)) == (match item {
            ItemView::Frame(frame) => media_in(items).push(frame),
            ItemView::End(_) => media_in(items),
        }),
    decreases items.len(),
{
    let grown = items.push(item);
    if items.len() == 0 {
        assert(grown.drop_first() =~= Seq::empty());
        assert(media_in(grown.drop_first()) =~= Seq::empty());
        if let ItemView::Frame(frame) = item {
            assert(seq![frame] + Seq::<FrameView>::empty() =~= Seq::empty().push(frame));
        }
    } else {
        assert(grown.drop_first() =~= items.drop_first().push(item));
        lemma_media_push(items.drop_first(), item);
        if let ItemView::Frame(first) = items[0] {
            if let ItemView::Frame(frame) = item {
                let rest = media_in(items.drop_first());
                assert(seq![first] + rest.push(frame) =~= (seq![first] + rest).push(frame));
            }
        }
    }
}

/// The media among frames, the first of it a keyframe.
pub open spec fn media_among<F: Container>(format: &F, frames: Seq<FrameView>) -> Seq<FrameView> {
    let media = frames.filter(|frame: FrameView| format.bound(frame) is None);
    Seq::new(media.len(), |i: int| media[i].promoted(i == 0))
}

/// What the items of a run of frames deliver is the media among the frames.
proof fn lemma_media_of<F: Container>(format: &F, frames: Seq<FrameView>)
    ensures
        media_in(items_of(format, frames)) == media_among(format, frames),
        media_among(format, frames).len() == 0 <==> no_media_before(
            format,
            frames,
            frames.len() as int,
        ),
    decreases frames.len(),
{
    reveal(Seq::filter);
    if frames.len() == 0 {
        assert(items_of(format, frames) =~= Seq::empty());
        assert(media_among(format, frames) =~= Seq::empty());
    } else {
        let before = frames.drop_last();
        assert(frames =~= before.push(frames.last()));
        lemma_media_of(format, before);
        lemma_items_push(format, before, frames.last());
        lemma_media_push(items_of(format, before), items_of(format, frames).last());
        if format.bound(frames.last()) is None {
            assert(media_among(format, frames) =~= media_among(format, before).push(
                frames.last().promoted(media_among(format, before).len() == 0),
            ));
        } else {
            assert(media_among(format, frames) =~= media_among(format, before));
        }
    }
}

/// The media frames of a run of groups, one group after the other.
pub open spec fn remaining(groups: Seq<BufferView>) -> Seq<FrameView>
    decreases groups.len(),
{
    if groups.len() == 0 {
        Seq::empty()
    } else {
        media_in(groups[0].items) + remaining(groups.drop_first())
    }
}

/// What reading a frame of a track comes to, where `frames` are those it delivers.
pub open spec fn delivered_at(frames: Seq<FrameView>, index: int) -> FrameReadOutcome {
    Poll::Ready(
        Ok(
            if index < frames.len() {
                Some(frames[index])
            } else {
                None
            },
        ),
    )
}

/// An end of presentation that was announced changes nothing of what is left to read.
proof fn lemma_orderly_bounded<F: Container, D: FrameDecrypter>(
    format: &F,
    alike: Alike<D::State>,
    state: StateOf<D>,
    end: Option<Timestamp>,
)
    requires
        orderly::<F, D>(format, alike, state),
    ensures
        orderly::<F, D>(format, alike, ConsumerView { end, ..state }),
        wholes::<F, D>(format, ConsumerView { end, ..state }) == wholes::<F, D>(format, state),
{
    reveal(orderly);
    lemma_same_readings::<F, D>(format, alike, state, ConsumerView { end, ..state });
}

/// What a track gives by way of frames, where it is found orderly.
#[verifier::spinoff_prover]
proof fn lemma_orderly_read<F: Container, D: FrameDecrypter>(
    format: &F,
    alike: Alike<D::State>,
    state: StateOf<D>,
    ready: StateOf<D>,
)
    requires
        orderly::<F, D>(format, alike, ready),
        event::<F, D>(format, state) == run::<F, D>(format, ready.reaped(), true),
    ensures
        ({
            let left = remaining(wholes::<F, D>(format, ready));
            let (next, outcome) = next_frame::<F, D>(format, state);
            &&& orderly::<F, D>(format, alike, next)
            &&& next.rewind.discontinuity == ready.rewind.discontinuity
            &&& outcome == delivered_at(left, 0)
            &&& remaining(wholes::<F, D>(format, next)) == (if left.len() > 0 {
                left.drop_first()
            } else {
                left
            })
        }),
    decreases
            ready.pending.len(),
            if ready.pending.len() > 0 {
                whole::<F, D>(format, ready.reading(0)).items.len()
            } else {
                0
            },
{
    lemma_orderly_run::<F, D>(format, alike, ready);
    let (next, outcome) = event::<F, D>(format, state);
    let before = wholes::<F, D>(format, ready);
    let after = wholes::<F, D>(format, next);
    assert(next.pending.len() == after.len());
    assert(ready.pending.len() == before.len());
    if before.len() > 0 && before[0].items.len() > 0 {
        let first = media_in(before[0].items);
        let rest = remaining(before.drop_first());
        let kept = media_in(shortened(before[0]).items);
        assert(after.drop_first() =~= before.drop_first());
        assert(shortened(before[0]).items =~= before[0].items.drop_first());
        match before[0].items[0] {
            ItemView::Frame(frame) => {
                assert(first == seq![frame] + kept);
                assert((first + rest).drop_first() =~= kept + rest);
            },
            ItemView::End(bound) => {
                let going = if format.role() == Kind::Audio {
                    ConsumerView { end: Some(bound), ..next }
                } else {
                    next
                };
                lemma_orderly_bounded::<F, D>(format, alike, next, going.end);
                lemma_orderly_latched::<F, D>(format, alike, going);
                let found = latched::<F, D>(format, going);
                let there = wholes::<F, D>(format, found);
                assert(there == after);
                assert(found.pending.len() == there.len());
                assert(there[0] == whole::<F, D>(format, found.reading(0)));
                lemma_orderly_read::<F, D>(format, alike, going, found);
            },
        }
    } else if before.len() > 0 {
        assert(media_in(before[0].items) + remaining(before.drop_first()) =~= remaining(
            before.drop_first(),
        ));
        lemma_orderly_latched::<F, D>(format, alike, next);
        let found = latched::<F, D>(format, next);
        assert(found.pending.len() == wholes::<F, D>(format, found).len());
        lemma_orderly_read::<F, D>(format, alike, next, found);
    }
}

/// A consumer after `count` reads of media.
pub open spec fn after_media<F: Container, D: FrameDecrypter>(
    format: &F,
    state: StateOf<D>,
    count: nat,
) -> StateOf<D>
    decreases count,
{
    if count == 0 {
        state
    } else {
        next_frame::<F, D>(format, after_media::<F, D>(format, state, (count - 1) as nat)).0
    }
}

proof fn lemma_orderly_reads<F: Container, D: FrameDecrypter>(
    format: &F,
    alike: Alike<D::State>,
    state: StateOf<D>,
    ready: StateOf<D>,
    count: nat,
)
    requires
        orderly::<F, D>(format, alike, ready),
        event::<F, D>(format, state) == run::<F, D>(format, ready.reaped(), true),
    ensures
        ({
            let left = remaining(wholes::<F, D>(format, ready));
            let here = after_media::<F, D>(format, state, count);
            let (next, outcome) = next_frame::<F, D>(format, here);
            &&& orderly::<F, D>(format, alike, next)
            &&& next.rewind.discontinuity == ready.rewind.discontinuity
            &&& outcome == delivered_at(left, count as int)
            &&& remaining(wholes::<F, D>(format, next)) == (if count < left.len() {
                left.skip(count as int + 1)
            } else {
                Seq::empty()
            })
        }),
    decreases count,
{
    let left = remaining(wholes::<F, D>(format, ready));
    if count == 0 {
        lemma_orderly_read::<F, D>(format, alike, state, ready);
        if left.len() > 0 {
            assert(left.drop_first() =~= left.skip(1));
        } else {
            assert(left =~= Seq::empty());
        }
    } else {
        let before = (count - 1) as nat;
        lemma_orderly_reads::<F, D>(format, alike, state, ready, before);
        let here = after_media::<F, D>(format, state, count);
        lemma_orderly_latched::<F, D>(format, alike, here);
        lemma_orderly_read::<F, D>(format, alike, here, latched::<F, D>(format, here));
        if count < left.len() {
            assert(left.skip(count as int).drop_first() =~= left.skip(count as int + 1));
        } else if before < left.len() {
            assert(left.skip(count as int) =~= Seq::empty());
        }
    }
}

/// The place of a group among groups in order: after those with a lower number.
pub open spec fn place(groups: Seq<GroupView>, sequence: u64) -> int
    decreases groups.len(),
{
    if groups.len() == 0 || groups[0].sequence >= sequence {
        0
    } else {
        1 + place(groups.drop_first(), sequence)
    }
}

/// Groups in order, after more of them arrived and those from number `start` on were each
/// put in their place.
pub open spec fn arranged(
    groups: Seq<GroupView>,
    arrived: Seq<GroupView>,
    start: u64,
) -> Seq<GroupView>
    decreases arrived.len(),
{
    if arrived.len() == 0 {
        groups
    } else if arrived[0].sequence < start {
        arranged(groups, arrived.drop_first(), start)
    } else {
        arranged(
            groups.insert(place(groups, arrived[0].sequence), arrived[0]),
            arrived.drop_first(),
            start,
        )
    }
}

/// Whether groups are in the order of their numbers.
pub open spec fn by_number(groups: Seq<GroupView>) -> bool {
    forall|i: int, j: int|
        0 <= i < j < groups.len() ==> (#[trigger] groups[i]).sequence <= (
        #[trigger] groups[j]).sequence
}

proof fn lemma_place(groups: Seq<GroupView>, sequence: u64)
    ensures
        0 <= place(groups, sequence) <= groups.len(),
        forall|i: int|
            0 <= i < place(groups, sequence) ==> (#[trigger] groups[i]).sequence < sequence,
        place(groups, sequence) < groups.len() ==> groups[place(groups, sequence)].sequence
            >= sequence,
    decreases groups.len(),
{
    if groups.len() > 0 && groups[0].sequence < sequence {
        let rest = groups.drop_first();
        lemma_place(rest, sequence);
        assert forall|i: int| 0 <= i < place(groups, sequence) implies (
        #[trigger] groups[i]).sequence < sequence by {
            if i > 0 {
                assert(groups[i] == rest[i - 1]);
            }
        }
    }
}

/// Groups that arrived in any order are put in the order of their numbers. Those below
/// `start` are left out, and no other is lost, and none doubled, on the way.
pub proof fn law_groups_are_arranged(
    groups: Seq<GroupView>,
    arrived: Seq<GroupView>,
    start: u64,
)
    requires
        by_number(groups),
    ensures
        by_number(arranged(groups, arrived, start)),
        forall|group: GroupView|
            #[trigger] arranged(groups, arrived, start).to_multiset().count(group)
                == groups.to_multiset().count(group) + (if group.sequence >= start {
                arrived.to_multiset().count(group)
            } else {
                0
            }),
    decreases arrived.len(),
{
    broadcast use vstd::seq_lib::group_to_multiset_ensures;

    if arrived.len() > 0 {
        let group = arrived[0];
        let rest = arrived.drop_first();
        assert(arrived.to_multiset() =~= rest.to_multiset().insert(group)) by {
            assert(arrived =~= seq![group] + rest);
            vstd::seq_lib::lemma_multiset_commutative(seq![group], rest);
            assert(seq![group] =~= Seq::empty().push(group));
        }
        if group.sequence < start {
            law_groups_are_arranged(groups, rest, start);
        } else {
            let index = place(groups, group.sequence);
            lemma_place(groups, group.sequence);
            let grown = groups.insert(index, group);
            assert forall|i: int, j: int| 0 <= i < j < grown.len() implies (
            #[trigger] grown[i]).sequence <= (#[trigger] grown[j]).sequence by {
                if i < index && j > index {
                    assert(groups[i].sequence <= groups[j - 1].sequence);
                }
            }
            law_groups_are_arranged(grown, rest, start);
            assert(grown.to_multiset() =~= groups.to_multiset().insert(group));
        }
    }
}

/// A group is among those in order just where it arrived and is not below `start`.
proof fn lemma_arranged_from(arrived: Seq<GroupView>, start: u64, group: GroupView)
    ensures
        arranged(Seq::empty(), arrived, start).contains(group) <==> arrived.contains(group)
            && group.sequence >= start,
{
    broadcast use vstd::seq_lib::group_to_multiset_ensures;

    let none = Seq::<GroupView>::empty();
    law_groups_are_arranged(none, arrived, start);
    let count = arranged(none, arrived, start).to_multiset().count(group);
    assert(none.to_multiset().count(group) == 0);
}

/// The buffers of groups of which nothing was decoded.
pub open spec fn fresh(groups: Seq<GroupView>) -> Seq<BufferView> {
    groups.map_values(|group: GroupView| BufferView::over(group))
}

proof fn lemma_fresh_place(groups: Seq<GroupView>, sequence: u64)
    ensures
        insertion_point(fresh(groups), sequence) == place(groups, sequence),
    decreases groups.len(),
{
    if groups.len() > 0 {
        assert(fresh(groups).drop_first() =~= fresh(groups.drop_first()));
        lemma_fresh_place(groups.drop_first(), sequence);
    }
}

proof fn lemma_received<S>(state: ConsumerView<S>, groups: Seq<GroupView>)
    requires
        state.rewind.boundary is None,
        state.pending == fresh(groups),
    ensures
        state.received() == (ConsumerView {
            pending: fresh(arranged(groups, state.track.arrived, state.current)),
            track: SubscriberView { arrived: Seq::empty(), ..state.track },
            ..state
        }),
    decreases state.track.arrived.len(),
{
    if state.track.arrived.len() == 0 {
        assert(state.track.arrived =~= Seq::empty());
    } else {
        let group = state.track.arrived[0];
        let rest = ConsumerView {
            track: SubscriberView { arrived: state.track.arrived.drop_first(), ..state.track },
            ..state.with_group(group)
        };
        if group.sequence < state.current {
            lemma_received(rest, groups);
        } else {
            lemma_fresh_place(groups, group.sequence);
            lemma_place(groups, group.sequence);
            let grown = groups.insert(place(groups, group.sequence), group);
            assert(rest.pending =~= fresh(grown));
            lemma_received(rest, grown);
        }
    }
}

/// Whether all of a group is at hand, it is not an empty one, and every wire frame of it
/// decodes.
pub open spec fn at_hand<F: Container, D: FrameDecrypter>(
    format: &F,
    group: GroupView,
    decrypter: Option<D::State>,
) -> bool {
    &&& group.aborted is None
    &&& group.frames.len() > 0
    &&& decodes::<F, D>(format, group, decrypter)
    &&& valid_frames(decoded_wires::<F, D>(format, group, decrypter))
}

/// The media that a group holds, the first of it a keyframe.
pub open spec fn group_media<F: Container, D: FrameDecrypter>(
    format: &F,
    group: GroupView,
    decrypter: Option<D::State>,
) -> Seq<FrameView> {
    media_among(format, decoded_wires::<F, D>(format, group, decrypter))
}

/// The media that a run of groups holds, one group after the other.
pub open spec fn track_media<F: Container, D: FrameDecrypter>(
    format: &F,
    groups: Seq<GroupView>,
    decrypter: Option<D::State>,
) -> Seq<FrameView>
    decreases groups.len(),
{
    if groups.len() == 0 {
        Seq::empty()
    } else {
        group_media::<F, D>(format, groups[0], decrypter) + track_media::<F, D>(
            format,
            groups.drop_first(),
            decrypter,
        )
    }
}

/// Whether no media of `next` lies before media of `group`.
pub open spec fn follows<F: Container, D: FrameDecrypter>(
    format: &F,
    group: GroupView,
    next: GroupView,
    decrypter: Option<D::State>,
) -> bool {
    let frames = decoded_wires::<F, D>(format, group, decrypter);
    let later = decoded_wires::<F, D>(format, next, decrypter);
    forall|i: int, j: int|
        0 <= i < frames.len() && 0 <= j < later.len() && format.bound(#[trigger] frames[i]) is None
            && format.bound(#[trigger] later[j]) is None ==> !later[j].timestamp.precedes(
            frames[i].timestamp,
        )
}

proof fn lemma_not_empty<F: Container, D: FrameDecrypter>(format: &F, at: Reading<D::State>)
    requires
        complete::<F, D>(format, at),
        !at.buffer.empty || at.buffer.group.frames.len() > 0,
    ensures
        !whole::<F, D>(format, at).empty,
    decreases at.buffer.group.frames.len(),
{
    let (next, result) = decode_once::<F, D>(format, at);
    if result == Poll::Ready(Ok::<bool, Error>(true)) {
        lemma_not_empty::<F, D>(format, next);
    }
}

/// A group at hand of which nothing was decoded.
proof fn lemma_fresh_tidy<F: Container, D: FrameDecrypter>(
    format: &F,
    alike: Alike<D::State>,
    group: GroupView,
    decrypter: Option<D::State>,
)
    requires
        steady::<D>(alike),
        (alike.states)(decrypter),
        among(alike, group),
        at_hand::<F, D>(format, group, decrypter),
    ensures
        ({
            let at = Reading { buffer: BufferView::over(group), decrypter };
            let frames = decoded_wires::<F, D>(format, group, decrypter);
            let all = whole::<F, D>(format, at);
            &&& tidy::<F, D>(format, alike, at)
            &&& media_in(all.items) == group_media::<F, D>(format, group, decrypter)
            &&& is_least(format, frames, all.min_timestamp)
            &&& is_greatest(format, frames, all.max_timestamp)
        }),
{
    let at = Reading { buffer: BufferView::over(group), decrypter };
    let frames = decoded_wires::<F, D>(format, group, decrypter);
    let all = whole::<F, D>(format, at);
    let none = Seq::<FrameView>::empty();
    lemma_seen_of_wires::<F, D>(format, at);
    assert(none + frames =~= frames);
    lemma_spans_all::<F, D>(format, at, none);
    lemma_not_empty::<F, D>(format, at);
    law_a_group_delivers_what_it_decodes_to::<F, D>(format, group, decrypter);
    assert(all.items == items_of(format, frames));
    lemma_media_of(format, frames);
    assert forall|i: int| 0 <= i < all.items.len() implies within(
        #[trigger] all.items[i],
        all.max_timestamp,
    ) by {
        assert(frames[i].timestamp.valid());
    }
}

proof fn lemma_remaining_fresh<F: Container, D: FrameDecrypter>(
    format: &F,
    groups: Seq<GroupView>,
    decrypter: Option<D::State>,
    all: Seq<BufferView>,
)
    requires
        all.len() == groups.len(),
        forall|i: int|
            0 <= i < groups.len() ==> media_in((#[trigger] all[i]).items) == group_media::<F, D>(
                format,
                groups[i],
                decrypter,
            ),
    ensures
        remaining(all) == track_media::<F, D>(format, groups, decrypter),
    decreases groups.len(),
{
    if groups.len() > 0 {
        let rest = all.drop_first();
        assert forall|i: int| 0 <= i < rest.len() implies media_in((#[trigger] rest[i]).items)
            == group_media::<F, D>(format, groups.drop_first()[i], decrypter) by {
            assert(rest[i] == all[i + 1]);
        }
        lemma_remaining_fresh::<F, D>(format, groups.drop_first(), decrypter, rest);
        assert(media_in(all[0].items) == group_media::<F, D>(format, groups[0], decrypter));
    }
}

/// The number of the first group that a subscription asks for.
pub open spec fn start_of(track: SubscriberView) -> u64 {
    match track.subscription.start {
        Some(group) => group,
        None => 0,
    }
}

/// Whether a group can be reached: the track starts with it, there is media
/// in it or at a higher number, or it directly follows another group.
pub open spec fn reached<F: Container, D: FrameDecrypter>(
    format: &F,
    track: SubscriberView,
    decrypter: Option<D::State>,
    group: GroupView,
) -> bool {
    ||| group.sequence == start_of(track)
    ||| exists|i: int|
        0 <= i < track.arrived.len() && (#[trigger] track.arrived[i]).sequence >= group.sequence
            && group_media::<F, D>(format, track.arrived[i], decrypter).len() > 0
    ||| exists|i: int|
        0 <= i < track.arrived.len() && (#[trigger] track.arrived[i]).sequence >= start_of(track)
            && track.arrived[i].sequence + 1 == group.sequence
}

/// Whether a track that ended brought groups, in any order, each of them at hand, with a
/// timeline that never turns back from one group to a later one, and what becomes of a
/// wire frame of it does not depend on what was read before. Groups below the first that
/// the subscription asks for do not count.
///
/// Past the last media of a track a consumer waits at a gap: a group there has to be
/// reached without one.
pub open spec fn arrived_whole<F: Container, D: FrameDecrypter>(
    format: &F,
    alike: Alike<D::State>,
    track: SubscriberView,
    decrypter: Option<D::State>,
) -> bool {
    &&& steady::<D>(alike)
    &&& (alike.states)(decrypter)
    &&& track.closed == Some(Ok::<(), net::Error>(()))
    &&& forall|i: int|
        0 <= i < track.arrived.len() && (#[trigger] track.arrived[i]).sequence >= start_of(track)
            ==> {
            &&& among(alike, track.arrived[i])
            &&& at_hand::<F, D>(format, track.arrived[i], decrypter)
        }
    &&& forall|i: int|
        0 <= i < track.arrived.len() && track.arrived[i].sequence >= start_of(track)
            ==> #[trigger] reached::<F, D>(format, track, decrypter, track.arrived[i])
    &&& forall|i: int, j: int|
        0 <= i < track.arrived.len() && 0 <= j < track.arrived.len() && start_of(track) <= (
        #[trigger] track.arrived[i]).sequence < (#[trigger] track.arrived[j]).sequence
            ==> follows::<F, D>(format, track.arrived[i], track.arrived[j], decrypter)
}

/// A consumer of a track of which nothing was read, with its decrypter.
pub open spec fn opening<D: FrameDecrypter>(
    track: SubscriberView,
    decrypter: Option<D::State>,
) -> StateOf<D> {
    ConsumerView { decrypter, ..ConsumerView::begun(track) }
}

/// A group that arrived and is not left out, where it is in order.
proof fn lemma_sorted<F: Container, D: FrameDecrypter>(
    format: &F,
    alike: Alike<D::State>,
    track: SubscriberView,
    decrypter: Option<D::State>,
    index: int,
)
    requires
        arrived_whole::<F, D>(format, alike, track, decrypter),
        0 <= index < arranged(Seq::empty(), track.arrived, start_of(track)).len(),
    ensures
        ({
            let group = arranged(Seq::empty(), track.arrived, start_of(track))[index];
            let at = Reading { buffer: BufferView::over(group), decrypter };
            let frames = decoded_wires::<F, D>(format, group, decrypter);
            let all = whole::<F, D>(format, at);
            &&& track.arrived.contains(group)
            &&& group.sequence >= start_of(track)
            &&& reached::<F, D>(format, track, decrypter, group)
            &&& tidy::<F, D>(format, alike, at)
            &&& all.group.sequence == group.sequence
            &&& media_in(all.items) == group_media::<F, D>(format, group, decrypter)
            &&& is_least(format, frames, all.min_timestamp)
            &&& is_greatest(format, frames, all.max_timestamp)
            &&& all.min_timestamp is Some == (group_media::<F, D>(
                format,
                group,
                decrypter,
            ).len() > 0)
        }),
{
    let sorted = arranged(Seq::empty(), track.arrived, start_of(track));
    let group = sorted[index];
    let frames = decoded_wires::<F, D>(format, group, decrypter);
    let at = Reading { buffer: BufferView::over(group), decrypter };
    assert(sorted.contains(group));
    lemma_arranged_from(track.arrived, start_of(track), group);
    let i = choose|i: int|
        0 <= i < track.arrived.len() && #[trigger] track.arrived[i] == group;
    assert(at_hand::<F, D>(format, track.arrived[i], decrypter));
    assert(reached::<F, D>(format, track, decrypter, track.arrived[i]));
    lemma_fresh_tidy::<F, D>(format, alike, group, decrypter);
    lemma_calm_all::<F, D>(format, alike, at);
    lemma_media_of(format, frames);
}

/// The groups that arrived can be reached.
proof fn lemma_sorted_reach<F: Container, D: FrameDecrypter>(
    format: &F,
    alike: Alike<D::State>,
    track: SubscriberView,
    decrypter: Option<D::State>,
    all: Seq<BufferView>,
)
    requires
        arrived_whole::<F, D>(format, alike, track, decrypter),
        ({
            let sorted = arranged(Seq::empty(), track.arrived, start_of(track));
            &&& all.len() == sorted.len()
            &&& forall|i: int|
                0 <= i < sorted.len() ==> #[trigger] all[i] == whole::<F, D>(
                    format,
                    Reading { buffer: BufferView::over(sorted[i]), decrypter },
                )
        }),
    ensures
        ascending(all),
        in_reach(start_of(track), all),
{
    let start = start_of(track);
    let sorted = arranged(Seq::empty(), track.arrived, start);
    law_groups_are_arranged(Seq::empty(), track.arrived, start);
    assert forall|i: int| 0 <= i < sorted.len() implies (#[trigger] all[i]).group.sequence
        == sorted[i].sequence && all[i].min_timestamp is Some == (group_media::<F, D>(
        format,
        sorted[i],
        decrypter,
    ).len() > 0) && reached::<F, D>(format, track, decrypter, sorted[i]) && sorted[i].sequence
        >= start by {
        lemma_sorted::<F, D>(format, alike, track, decrypter, i);
    }
    assert forall|i: int, j: int| 0 <= i < j < all.len() implies (#[trigger] all[i]).group.sequence
        <= (#[trigger] all[j]).group.sequence by {
        assert(sorted[i].sequence <= sorted[j].sequence);
    }
    assert forall|i: int| 0 <= i < all.len() implies #[trigger] reachable(start, all, i) by {
        assert(all[i].group.sequence == sorted[i].sequence);
        let group = sorted[i];
        if exists|k: int|
            0 <= k < track.arrived.len() && (#[trigger] track.arrived[k]).sequence
                >= group.sequence && group_media::<F, D>(
                format,
                track.arrived[k],
                decrypter,
            ).len() > 0 {
            let k = choose|k: int|
                0 <= k < track.arrived.len() && (#[trigger] track.arrived[k]).sequence
                    >= group.sequence && group_media::<F, D>(
                    format,
                    track.arrived[k],
                    decrypter,
                ).len() > 0;
            lemma_arranged_from(track.arrived, start, track.arrived[k]);
            let j = choose|j: int| 0 <= j < sorted.len() && sorted[j] == track.arrived[k];
            assert(all[j].min_timestamp is Some);
        } else if group.sequence > start {
            let k = choose|k: int|
                0 <= k < track.arrived.len() && (#[trigger] track.arrived[k]).sequence >= start
                    && track.arrived[k].sequence + 1 == group.sequence;
            lemma_arranged_from(track.arrived, start, track.arrived[k]);
            let j = choose|j: int| 0 <= j < sorted.len() && sorted[j] == track.arrived[k];
            assert(all[j].group.sequence + 1 == group.sequence);
        }
    }
}

/// The first event finds everything that arrived in order.
#[verifier::spinoff_prover]
proof fn lemma_arrived<F: Container, D: FrameDecrypter>(
    format: &F,
    alike: Alike<D::State>,
    track: SubscriberView,
    decrypter: Option<D::State>,
)
    requires
        arrived_whole::<F, D>(format, alike, track, decrypter),
    ensures
        ({
            let state = opening::<D>(track, decrypter);
            let ready = latched::<F, D>(format, state.received());
            let sorted = arranged(Seq::empty(), track.arrived, start_of(track));
            &&& orderly::<F, D>(format, alike, ready)
            &&& ready.rewind.discontinuity == 0
            &&& remaining(wholes::<F, D>(format, ready)) == track_media::<F, D>(
                format,
                sorted,
                decrypter,
            )
            &&& event::<F, D>(format, state) == run::<F, D>(format, ready.reaped(), true)
        }),
{
    reveal(orderly);
    let state = opening::<D>(track, decrypter);
    let none = Seq::<GroupView>::empty();
    let sorted = arranged(none, track.arrived, start_of(track));
    assert(state.pending =~= fresh(none));
    lemma_received(state, none);
    let taken = state.received();
    let started = ConsumerView { startup: false, ..taken };
    let all = wholes::<F, D>(format, started);
    assert forall|i: int| 0 <= i < sorted.len() implies started.reading(i) == (Reading {
        buffer: BufferView::over(#[trigger] sorted[i]),
        decrypter,
    }) by {}
    assert forall|i: int| 0 <= i < started.pending.len() implies tidy::<F, D>(
        format,
        alike,
        #[trigger] started.reading(i),
    ) by {
        lemma_sorted::<F, D>(format, alike, track, decrypter, i);
        assert(started.pending[i] == BufferView::over(sorted[i]));
    }
    assert forall|i: int, j: int|
        0 <= i < started.pending.len() && 0 <= j < started.pending.len() && (
        #[trigger] started.pending[i]).group.sequence < (
        #[trigger] started.pending[j]).group.sequence && timed::<F, D>(format, started, i)
            && timed::<F, D>(format, started, j) implies !least_of::<F, D>(
        format,
        started,
        j,
    ).precedes(greatest_of::<F, D>(format, started, i)) by {
        lemma_sorted::<F, D>(format, alike, track, decrypter, i);
        lemma_sorted::<F, D>(format, alike, track, decrypter, j);
        assert(started.pending[i] == BufferView::over(sorted[i]));
        assert(started.pending[j] == BufferView::over(sorted[j]));
        let a = choose|a: int|
            0 <= a < track.arrived.len() && #[trigger] track.arrived[a] == sorted[i];
        let b = choose|b: int|
            0 <= b < track.arrived.len() && #[trigger] track.arrived[b] == sorted[j];
        assert(follows::<F, D>(format, track.arrived[a], track.arrived[b], decrypter));
        let frames = decoded_wires::<F, D>(format, sorted[i], decrypter);
        let later = decoded_wires::<F, D>(format, sorted[j], decrypter);
        let least = least_of::<F, D>(format, started, j);
        let greatest = greatest_of::<F, D>(format, started, i);
        let x = choose|x: int|
            0 <= x < frames.len() && format.bound(#[trigger] frames[x]) is None
                && frames[x].timestamp == greatest;
        let y = choose|y: int|
            0 <= y < later.len() && format.bound(#[trigger] later[y]) is None
                && later[y].timestamp == least;
        assert(!later[y].timestamp.precedes(frames[x].timestamp));
    }
    assert forall|i: int| 0 <= i < sorted.len() implies #[trigger] all[i] == whole::<F, D>(
        format,
        Reading { buffer: BufferView::over(sorted[i]), decrypter },
    ) && media_in(all[i].items) == group_media::<F, D>(format, sorted[i], decrypter) by {
        lemma_sorted::<F, D>(format, alike, track, decrypter, i);
        assert(started.pending[i] == BufferView::over(sorted[i]));
    }
    lemma_sorted_reach::<F, D>(format, alike, track, decrypter, all);
    lemma_remaining_fresh::<F, D>(format, sorted, decrypter, all);
    assert(orderly::<F, D>(format, alike, started));
    let ready = latched::<F, D>(format, taken);
    if taken.startup {
        lemma_latched::<F, D>(format, alike, taken);
    }
}

/// A track that was found orderly is so from its start.
proof fn lemma_latched<F: Container, D: FrameDecrypter>(
    format: &F,
    alike: Alike<D::State>,
    state: StateOf<D>,
)
    requires
        state.startup,
        state.current == 0,
        orderly::<F, D>(format, alike, ConsumerView { startup: false, ..state }),
    ensures
        orderly::<F, D>(format, alike, latched::<F, D>(format, state)),
        latched::<F, D>(format, state).rewind == state.rewind,
        wholes::<F, D>(format, latched::<F, D>(format, state)) == wholes::<F, D>(
            format,
            ConsumerView { startup: false, ..state },
        ),
{
    reveal(orderly);
    let started = ConsumerView { startup: false, ..state };
    lemma_same_readings::<F, D>(format, alike, started, state);
    lemma_first_rest::<F, D>(format, alike, state, 0, None);
    let (next, found) = first_timed::<F, D>(format, state, 0, None);
    let moved = ConsumerView { startup: false, ..next };
    lemma_same_readings::<F, D>(format, alike, next, moved);
    assert(same_rest::<F, D>(format, started, moved)) by {
        assert forall|i: int| 0 <= i < started.pending.len() implies {
            &&& (#[trigger] moved.pending[i]).group.sequence == started.pending[i].group.sequence
            &&& whole::<F, D>(format, moved.reading(i)) == whole::<F, D>(
                format,
                started.reading(i),
            )
        } by {
            assert(next.pending[i].group.sequence == state.pending[i].group.sequence);
            assert(next.reading(i) == moved.reading(i));
            assert(state.reading(i) == started.reading(i));
        }
    }
    lemma_orderly_rest::<F, D>(format, alike, started, moved);
    let ready = latched::<F, D>(format, state);
    lemma_same_readings::<F, D>(format, alike, moved, ready);
    if found is Some {
        lemma_reach_alike(
            moved.current,
            wholes::<F, D>(format, moved),
            ready.current,
            wholes::<F, D>(format, ready),
        );
    } else {
        assert forall|i: int| 0 <= i < ready.pending.len() implies !#[trigger] timed::<F, D>(
            format,
            ready,
            i,
        ) by {
            assert(!timed::<F, D>(format, state, i));
            assert(ready.pending[i].group.sequence == state.pending[i].group.sequence);
        }
    }
}

/// The groups at hand do not depend on the cursor.
proof fn lemma_same_readings<F: Container, D: FrameDecrypter>(
    format: &F,
    alike: Alike<D::State>,
    a: StateOf<D>,
    b: StateOf<D>,
)
    requires
        a.pending == b.pending,
        a.decrypter == b.decrypter,
    ensures
        forall|i: int| #[trigger] a.reading(i) == b.reading(i),
        wholes::<F, D>(format, a) == wholes::<F, D>(format, b),
        all_tidy::<F, D>(format, alike, a) == all_tidy::<F, D>(format, alike, b),
        in_time::<F, D>(format, a) == in_time::<F, D>(format, b),
        forall|i: int|
            #[trigger] timed::<F, D>(format, a, i) == timed::<F, D>(format, b, i),
        forall|i: int|
            #[trigger] timed::<F, D>(format, b, i) == timed::<F, D>(format, a, i),
{
    assert(wholes::<F, D>(format, a) =~= wholes::<F, D>(format, b));
    assert forall|i: int| #[trigger] a.reading(i) == b.reading(i) by {}
    assert forall|i: int| #[trigger] b.reading(i) == a.reading(i) by {}
    assert forall|i: int| #[trigger] least_of::<F, D>(format, a, i) == least_of::<F, D>(
        format,
        b,
        i,
    ) by {}
    assert forall|i: int| #[trigger] greatest_of::<F, D>(format, a, i) == greatest_of::<F, D>(
        format,
        b,
        i,
    ) by {}
}

/// A track that brought groups, in any order, and ended, is read out whole: all of its
/// media once, group by group in the order of their numbers, within a group in the order
/// of the wire, the first media of each group a keyframe; and then the end. Markers among
/// the media are passed over. The timeline does not break on the way.
///
/// Each group is at hand and not empty, and no media lies before that of a lower group. The
/// track is unprotected, or what its decrypter makes of a frame does not depend on what it
/// opened before. [`law_groups_are_arranged`] shows that the groups are those that arrived,
/// from the first that the subscription asks for, in order.
pub proof fn law_a_whole_track_is_read_out<F: Container, D: FrameDecrypter>(
    format: &F,
    alike: Alike<D::State>,
    track: SubscriberView,
    decrypter: Option<D::State>,
    count: nat,
)
    requires
        arrived_whole::<F, D>(format, alike, track, decrypter),
    ensures
        ({
            let groups = arranged(Seq::empty(), track.arrived, start_of(track));
            let frames = track_media::<F, D>(format, groups, decrypter);
            let here = after_media::<F, D>(format, opening::<D>(track, decrypter), count);
            let (next, outcome) = next_frame::<F, D>(format, here);
            &&& by_number(groups)
            &&& outcome == delivered_at(frames, count as int)
            &&& next.rewind.discontinuity == 0
        }),
{
    let state = opening::<D>(track, decrypter);
    let ready = latched::<F, D>(format, state.received());
    law_groups_are_arranged(Seq::empty(), track.arrived, start_of(track));
    lemma_arrived::<F, D>(format, alike, track, decrypter);
    lemma_orderly_reads::<F, D>(format, alike, state, ready, count);
}

} // verus!
