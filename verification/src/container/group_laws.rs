//! What holds of every group.
//!
//! A group is delivered in order, from a keyframe on, and looking ahead changes
//! nothing of it.
use vstd::prelude::*;

use super::buffer::{
    decode_all, decode_once, decode_one, delivery, earliest, holds_media, latest, wire_read,
    BufferView, ItemView, Reading,
};
use super::group::{
    deliverable, group_frame, next_media, with_all_decoded, with_decoded, GroupConsumerView,
    GroupStateOf,
};
use super::{frame_of, media, Container, FrameDecrypter, FrameView};
use crate::error::Error;
use crate::net::GroupView;
use crate::poll::Poll;
use crate::time::{law_micros_are_micros, Timestamp, MAX_VARINT};

verus! {

/// Everything that a group still delivers of what has arrived, in order.
pub open spec fn contents<F: Container, D: FrameDecrypter>(
    format: &F,
    at: Reading<D::State>,
) -> Seq<ItemView> {
    decode_all::<F, D>(format, at).0.buffer.items
}

/// Looking for the earliest timestamp of a group changes nothing of what the group
/// delivers.
pub proof fn law_earliest_keeps_contents<F: Container, D: FrameDecrypter>(
    format: &F,
    at: Reading<D::State>,
)
    requires
        !(decode_one::<F, D>(format, at).1 matches Poll::Ready(Err(_))),
    ensures
        contents::<F, D>(format, earliest::<F, D>(format, at).0) == contents::<F, D>(format, at),
    decreases at.buffer.group.frames.len(),
{
    if !holds_media(at.buffer.items) {
        let (next, result) = decode_once::<F, D>(format, at);
        if result == Poll::Ready(Ok::<bool, Error>(true)) {
            law_earliest_keeps_contents::<F, D>(format, next);
        } else {
            assert(next.buffer =~= at.buffer);
        }
    }
}

/// Looking for the latest timestamp of a group changes nothing of what the group
/// delivers.
pub proof fn law_latest_keeps_contents<F: Container, D: FrameDecrypter>(
    format: &F,
    at: Reading<D::State>,
)
    requires
        !(decode_all::<F, D>(format, at).1 matches Poll::Ready(Err(_))),
    ensures
        contents::<F, D>(format, latest::<F, D>(format, at).0) == contents::<F, D>(format, at),
    decreases at.buffer.group.frames.len(),
{
    let (next, result) = decode_once::<F, D>(format, at);
    if result == Poll::Ready(Ok::<bool, Error>(true)) {
        law_latest_keeps_contents::<F, D>(format, next);
    } else {
        assert(next.buffer =~= at.buffer);
    }
}

/// The buffer without its first item.
pub open spec fn shortened(buffer: BufferView) -> BufferView {
    BufferView { items: buffer.items.drop_first(), ..buffer }
}

proof fn lemma_frames_follow<F: Container>(
    buffer: BufferView,
    format: &F,
    frames: Seq<FrameView>,
)
    requires
        buffer.items.len() > 0,
    ensures
        buffer.with_frames(format, frames).items.len() > 0,
        buffer.with_frames(format, frames).items[0] == buffer.items[0],
        shortened(buffer).with_frames(format, frames) == shortened(
            buffer.with_frames(format, frames),
        ),
    decreases frames.len(),
{
    if frames.len() > 0 {
        let next = buffer.with_frame(format, frames[0]);
        assert(shortened(buffer).with_frame(format, frames[0]) =~= shortened(next));
        lemma_frames_follow(next, format, frames.drop_first());
    }
}

/// Taking the first held item away takes it from what decoding everything leaves, and
/// nothing else.
pub proof fn lemma_contents_follow<F: Container, D: FrameDecrypter>(
    format: &F,
    at: Reading<D::State>,
)
    requires
        at.buffer.items.len() > 0,
    ensures
        contents::<F, D>(format, at).len() > 0,
        contents::<F, D>(format, at)[0] == at.buffer.items[0],
        ({
            let (all, result) = decode_all::<F, D>(format, at);
            let short = Reading { buffer: shortened(at.buffer), ..at };
            decode_all::<F, D>(format, short) == (
                Reading { buffer: shortened(all.buffer), ..all },
                result,
            )
        }),
    decreases at.buffer.group.frames.len(),
{
    let short = Reading { buffer: shortened(at.buffer), ..at };
    let (next, result) = decode_once::<F, D>(format, at);
    let (short_next, short_result) = decode_once::<F, D>(format, short);
    assert(short_result == result);
    assert(short_next.decrypter == next.decrypter);
    let (group, _, read) = wire_read::<D>(at.buffer.group, at.decrypter);
    if let Poll::Ready(Ok(Some(frames))) = media(
        read,
        format.decoded(frame_of(read)),
    ) {
        lemma_frames_follow(at.buffer, format, frames);
    }
    assert(short_next.buffer == shortened(next.buffer));
    if result == Poll::Ready(Ok::<bool, Error>(true)) {
        lemma_contents_follow::<F, D>(format, next);
    }
}

/// A group is delivered in order, and each item once: taking an item gives the
/// first of what the group delivers, and leaves the rest.
pub proof fn law_delivery_is_in_order<F: Container, D: FrameDecrypter>(
    format: &F,
    at: Reading<D::State>,
)
    ensures
        ({
            let (next, taken) = delivery::<F, D>(format, at);
            taken matches Poll::Ready(Ok(Some(item))) ==> {
                &&& contents::<F, D>(format, at).len() > 0
                &&& item == contents::<F, D>(format, at)[0]
                &&& contents::<F, D>(format, next) == contents::<F, D>(format, at).drop_first()
            }
        }),
    decreases at.buffer.group.frames.len(),
{
    if at.buffer.items.len() > 0 {
        lemma_contents_follow::<F, D>(format, at);
    } else {
        let (next, result) = decode_once::<F, D>(format, at);
        if result == Poll::Ready(Ok::<bool, Error>(true)) {
            law_delivery_is_in_order::<F, D>(format, next);
        }
    }
}

/// The first media frame of a run of items.
pub open spec fn first_media(items: Seq<ItemView>) -> Option<FrameView>
    decreases items.len(),
{
    if items.len() == 0 {
        None
    } else {
        match items[0] {
            ItemView::Frame(frame) => Some(frame),
            ItemView::End(_) => first_media(items.drop_first()),
        }
    }
}

/// A group that no media frame was delivered of: the first one held for it, where
/// there is one, is a keyframe.
pub open spec fn unopened(buffer: BufferView) -> bool {
    match first_media(buffer.items) {
        Some(frame) => buffer.started && frame.keyframe,
        None => !buffer.started,
    }
}

proof fn lemma_first_media_push(items: Seq<ItemView>, item: ItemView)
    ensures
        first_media(items.push(item)) == (match first_media(items) {
            Some(frame) => Some(frame),
            None => match item {
                ItemView::Frame(frame) => Some(frame),
                ItemView::End(_) => None,
            },
        }),
    decreases items.len(),
{
    if items.len() > 0 {
        assert(items.push(item).drop_first() =~= items.drop_first().push(item));
        lemma_first_media_push(items.drop_first(), item);
    } else {
        assert(items.push(item).drop_first() =~= items);
    }
}

proof fn lemma_unopened_frame<F: Container>(buffer: BufferView, format: &F, frame: FrameView)
    requires
        unopened(buffer),
    ensures
        unopened(buffer.with_frame(format, frame)),
{
    lemma_first_media_push(
        buffer.items,
        match format.bound(frame) {
            Some(bound) => ItemView::End(bound),
            None => ItemView::Frame(frame.promoted(!buffer.started)),
        },
    );
}

proof fn lemma_unopened_frames<F: Container>(
    buffer: BufferView,
    format: &F,
    frames: Seq<FrameView>,
)
    requires
        unopened(buffer),
    ensures
        unopened(buffer.with_frames(format, frames)),
    decreases frames.len(),
{
    if frames.len() > 0 {
        lemma_unopened_frame(buffer, format, frames[0]);
        lemma_unopened_frames(
            buffer.with_frame(format, frames[0]),
            format,
            frames.drop_first(),
        );
    }
}

proof fn lemma_unopened_once<F: Container, D: FrameDecrypter>(format: &F, at: Reading<D::State>)
    requires
        unopened(at.buffer),
    ensures
        unopened(decode_once::<F, D>(format, at).0.buffer),
{
    let (group, _, read) = wire_read::<D>(at.buffer.group, at.decrypter);
    if let Poll::Ready(Ok(Some(frames))) = media(
        read,
        format.decoded(frame_of(read)),
    ) {
        lemma_unopened_frames(at.buffer, format, frames);
    }
}

/// Nothing was delivered of a group that just arrived.
pub proof fn law_a_new_group_is_unopened(group: GroupView)
    ensures
        unopened(BufferView::over(group)),
{
}

/// Looking ahead leaves a group unopened.
pub proof fn law_looking_ahead_opens_nothing<F: Container, D: FrameDecrypter>(
    format: &F,
    at: Reading<D::State>,
)
    requires
        unopened(at.buffer),
    ensures
        unopened(earliest::<F, D>(format, at).0.buffer),
        unopened(latest::<F, D>(format, at).0.buffer),
    decreases at.buffer.group.frames.len(),
{
    lemma_unopened_once::<F, D>(format, at);
    let (next, result) = decode_once::<F, D>(format, at);
    if result == Poll::Ready(Ok::<bool, Error>(true)) {
        law_looking_ahead_opens_nothing::<F, D>(format, next);
    }
}

/// The first media frame that is delivered of a group is a keyframe; markers before
/// it do not take its place.
pub proof fn law_a_group_opens_on_a_keyframe<F: Container, D: FrameDecrypter>(
    format: &F,
    at: Reading<D::State>,
)
    requires
        unopened(at.buffer),
    ensures
        match delivery::<F, D>(format, at) {
            (_, Poll::Ready(Ok(Some(ItemView::Frame(frame))))) => frame.keyframe,
            (next, _) => unopened(next.buffer),
        },
    decreases at.buffer.group.frames.len(),
{
    if at.buffer.items.len() == 0 {
        lemma_unopened_once::<F, D>(format, at);
        let (next, result) = decode_once::<F, D>(format, at);
        if result == Poll::Ready(Ok::<bool, Error>(true)) {
            law_a_group_opens_on_a_keyframe::<F, D>(format, next);
        }
    }
}

/// Every frame that a consumer of one group still delivers of what has arrived, in
/// order, with the durations that markers gave them.
pub open spec fn group_contents<F: Container, D: FrameDecrypter>(
    format: &F,
    state: GroupStateOf<D>,
) -> Seq<FrameView>
    decreases state.group.frames.len(),
{
    let (next, result) = next_media::<F, D>(format, state);
    match result {
        Poll::Ready(Ok(Some(frames))) => group_contents::<F, D>(
            format,
            GroupConsumerView { pending: with_all_decoded(format, state.pending, frames), ..next },
        ),
        _ => state.pending,
    }
}

proof fn lemma_decoded_follow<F: Container>(
    format: &F,
    pending: Seq<FrameView>,
    frames: Seq<FrameView>,
)
    requires
        deliverable(format, pending),
    ensures
        deliverable(format, with_all_decoded(format, pending, frames)),
        with_all_decoded(format, pending, frames)[0] == pending[0],
        with_all_decoded(format, pending.drop_first(), frames) == with_all_decoded(
            format,
            pending,
            frames,
        ).drop_first(),
    decreases frames.len(),
{
    if frames.len() > 0 {
        let next = with_decoded(format, pending, frames[0]);
        assert(with_decoded(format, pending.drop_first(), frames[0]) =~= next.drop_first());
        lemma_decoded_follow(format, next, frames.drop_first());
    }
}

proof fn lemma_group_contents_follow<F: Container, D: FrameDecrypter>(
    format: &F,
    state: GroupStateOf<D>,
    started: bool,
)
    requires
        deliverable(format, state.pending),
    ensures
        group_contents::<F, D>(format, state).len() > 0,
        group_contents::<F, D>(format, state)[0] == state.pending[0],
        group_contents::<F, D>(
            format,
            GroupConsumerView { pending: state.pending.drop_first(), started, ..state },
        ) == group_contents::<F, D>(format, state).drop_first(),
    decreases state.group.frames.len(),
{
    let (next, result) = next_media::<F, D>(format, state);
    if let Poll::Ready(Ok(Some(frames))) = result {
        lemma_decoded_follow(format, state.pending, frames);
        lemma_group_contents_follow::<F, D>(
            format,
            GroupConsumerView { pending: with_all_decoded(format, state.pending, frames), ..next },
            started,
        );
    }
}

/// A consumer of one group delivers its frames in order and each of them once: a
/// read gives the first of what the group delivers, and leaves the rest. The first
/// frame is a keyframe.
pub proof fn law_a_group_is_read_in_order<F: Container, D: FrameDecrypter>(
    format: &F,
    state: GroupStateOf<D>,
)
    ensures
        ({
            let (next, read) = group_frame::<F, D>(format, state);
            let contents = group_contents::<F, D>(format, state);
            read matches Poll::Ready(Ok(Some(frame))) ==> {
                &&& contents.len() > 0
                &&& frame == contents[0].promoted(!state.started)
                &&& !state.started ==> frame.keyframe
                &&& next.started
                &&& group_contents::<F, D>(format, next) == contents.drop_first()
            }
        }),
    decreases state.group.frames.len(),
{
    if deliverable(format, state.pending) {
        lemma_group_contents_follow::<F, D>(format, state, true);
    } else {
        let (next, result) = next_media::<F, D>(format, state);
        match result {
            Poll::Ready(Ok(Some(frames))) => {
                law_a_group_is_read_in_order::<F, D>(
                    format,
                    GroupConsumerView {
                        pending: with_all_decoded(format, state.pending, frames),
                        ..next
                    },
                );
            },
            Poll::Ready(Ok(None)) => {
                assert(next.group == state.group && next.decrypter == state.decrypter);
            },
            _ => {},
        }
    }
}

/// The end of a group is told only once it ended cleanly and every frame was
/// delivered.
pub proof fn law_a_group_ends_last<F: Container, D: FrameDecrypter>(
    format: &F,
    state: GroupStateOf<D>,
)
    ensures
        ({
            let (next, read) = group_frame::<F, D>(format, state);
            read matches Poll::Ready(Ok(None)) ==> {
                &&& next.group.finished
                &&& next.group.frames.len() == 0
                &&& next.pending.len() == 0
            }
        }),
    decreases state.group.frames.len(),
{
    if !deliverable(format, state.pending) {
        let (next, result) = next_media::<F, D>(format, state);
        if let Poll::Ready(Ok(Some(frames))) = result {
            law_a_group_ends_last::<F, D>(
                format,
                GroupConsumerView {
                    pending: with_all_decoded(format, state.pending, frames),
                    ..next
                },
            );
        }
    }
}

/// Closing a frame stamps the time up to the bound on it, where it had no duration
/// and the bound lies after it, and nothing else. A duration once stamped stays.
pub proof fn law_a_duration_is_stamped_once(frame: FrameView, bound: Timestamp, other: Timestamp)
    ensures
        ({
            let closed = frame.closed_at(bound);
            &&& closed == (FrameView { duration: closed.duration, ..frame })
            &&& frame.duration is Some ==> closed == frame
            &&& frame.duration is None ==> (closed.duration is Some <==> 0 < bound.micros()
                - frame.timestamp.micros() <= MAX_VARINT)
            &&& frame.duration is None && closed.duration is Some ==> frame.timestamp.micros()
                + closed.duration->Some_0.micros() == bound.micros()
            &&& closed.duration is Some ==> closed.closed_at(other) == closed
        }),
{
    let delta = bound.micros() - frame.timestamp.micros();
    if 0 < delta <= MAX_VARINT {
        law_micros_are_micros(delta as u64);
    }
}

} // verus!
