//! What holds of a group from its first use to its last.
//!
//! A group is looked into, read and told of what arrives in any order. Whatever the
//! order, it knows how far it reaches in time, and gives out what it holds once and in
//! the order of the wire. What was protected on the way in comes back on the way out.
use vstd::prelude::*;

use super::buffer::{
    decode_all, decode_once, decode_one, delivery, earliest, frame_end, furthest, holds_media,
    latest, wire_read, BufferView, ItemOutcome, ItemView, Reading,
};
use super::group::{
    deliverable, group_frame, next_media, with_all_decoded, with_decoded, GroupConsumerView,
    GroupStateOf,
};
use super::group_laws::{
    contents, group_contents, law_a_group_is_read_in_order, lemma_contents_follow, shortened,
};
use super::reader::{FrameOutcome, ReadFrameView};
use super::schedule::FrameReadOutcome;
use super::writer::write_all;
use super::{
    frame_of, media, Container, FrameDecrypter, FrameEncrypter, FrameReader, FrameView,
    FrameWriter, Kind, ProtectedReadFrame, ProtectedWriteFrame,
};
use crate::encryption::EncryptionError;
use crate::error::Error;
use crate::net::{Group, GroupEventView, GroupView, WireFrameView, MAX_GROUP_FRAMES};
use crate::poll::Poll;
use crate::time::{
    law_timestamp_order_is_transitive, law_timestamps_are_totally_ordered, lemma_elapsed_fits,
    Duration, Timestamp,
};

verus! {

/// One use of a group on its way through a consumer.
pub enum Step {
    /// Looking for the earliest timestamp.
    Earliest,
    /// Looking for the latest timestamp.
    Latest,
    /// Taking the next item.
    Take,
    /// Hearing from the transport.
    Told(GroupEventView),
}

/// The group after one use.
pub open spec fn stepped<F: Container, D: FrameDecrypter>(
    format: &F,
    at: Reading<D::State>,
    step: Step,
) -> Reading<D::State> {
    match step {
        Step::Earliest => earliest::<F, D>(format, at).0,
        Step::Latest => latest::<F, D>(format, at).0,
        Step::Take => delivery::<F, D>(format, at).0,
        Step::Told(event) => Reading {
            buffer: BufferView { group: at.buffer.group.after(event).0, ..at.buffer },
            ..at
        },
    }
}

/// The group after a run of uses.
pub open spec fn walked<F: Container, D: FrameDecrypter>(
    format: &F,
    at: Reading<D::State>,
    steps: Seq<Step>,
) -> Reading<D::State>
    decreases steps.len(),
{
    if steps.len() == 0 {
        at
    } else {
        stepped::<F, D>(format, walked::<F, D>(format, at, steps.drop_last()), steps.last())
    }
}

/// The frames that decoding one more wire frame brings.
pub open spec fn once_seen<F: Container, D: FrameDecrypter>(
    format: &F,
    at: Reading<D::State>,
) -> Seq<FrameView> {
    let (_, _, read) = wire_read::<D>(at.buffer.group, at.decrypter);
    match media(read, format.decoded(frame_of(read))) {
        Poll::Ready(Ok(Some(frames))) => frames,
        _ => Seq::empty(),
    }
}

/// The frames that decoding until a media frame is held brings.
pub open spec fn one_seen<F: Container, D: FrameDecrypter>(
    format: &F,
    at: Reading<D::State>,
) -> Seq<FrameView>
    decreases at.buffer.group.frames.len(),
{
    if holds_media(at.buffer.items) {
        Seq::empty()
    } else {
        let (next, result) = decode_once::<F, D>(format, at);
        once_seen::<F, D>(format, at) + (if result == Poll::Ready(Ok::<bool, Error>(true)) {
            one_seen::<F, D>(format, next)
        } else {
            Seq::empty()
        })
    }
}

/// The frames that decoding every wire frame at hand brings.
pub open spec fn all_seen<F: Container, D: FrameDecrypter>(
    format: &F,
    at: Reading<D::State>,
) -> Seq<FrameView>
    decreases at.buffer.group.frames.len(),
{
    let (next, result) = decode_once::<F, D>(format, at);
    once_seen::<F, D>(format, at) + (if result == Poll::Ready(Ok::<bool, Error>(true)) {
        all_seen::<F, D>(format, next)
    } else {
        Seq::empty()
    })
}

/// The frames that taking an item brings.
pub open spec fn take_seen<F: Container, D: FrameDecrypter>(
    format: &F,
    at: Reading<D::State>,
) -> Seq<FrameView>
    decreases at.buffer.group.frames.len(),
{
    if at.buffer.items.len() > 0 {
        Seq::empty()
    } else {
        let (next, result) = decode_once::<F, D>(format, at);
        once_seen::<F, D>(format, at) + (if result == Poll::Ready(Ok::<bool, Error>(true)) {
            take_seen::<F, D>(format, next)
        } else {
            Seq::empty()
        })
    }
}

/// The frames that one use of a group brings.
pub open spec fn step_seen<F: Container, D: FrameDecrypter>(
    format: &F,
    at: Reading<D::State>,
    step: Step,
) -> Seq<FrameView> {
    match step {
        Step::Earliest => one_seen::<F, D>(format, at),
        Step::Latest => all_seen::<F, D>(format, at),
        Step::Take => take_seen::<F, D>(format, at),
        Step::Told(_) => Seq::empty(),
    }
}

/// All frames, media and markers, that were decoded in a run of uses, in order.
pub open spec fn seen<F: Container, D: FrameDecrypter>(
    format: &F,
    at: Reading<D::State>,
    steps: Seq<Step>,
) -> Seq<FrameView>
    decreases steps.len(),
{
    if steps.len() == 0 {
        Seq::empty()
    } else {
        let before = steps.drop_last();
        seen::<F, D>(format, at, before) + step_seen::<F, D>(
            format,
            walked::<F, D>(format, at, before),
            steps.last(),
        )
    }
}

/// Whether frames carry timestamps and durations that a timeline can hold.
pub open spec fn valid_frames(frames: Seq<FrameView>) -> bool {
    forall|i: int|
        0 <= i < frames.len() ==> {
            &&& (#[trigger] frames[i]).timestamp.valid()
            &&& frames[i].duration matches Some(duration) ==> duration.valid()
        }
}

/// Where a decoded frame is known to reach to: a marker to its bound, media to its end.
pub open spec fn reach<F: Container>(format: &F, frame: FrameView) -> Duration {
    match format.bound(frame) {
        Some(bound) => bound.elapsed(),
        None => frame_end(frame),
    }
}

/// Whether `least` is the least timestamp of the media among `frames`.
pub open spec fn is_least<F: Container>(
    format: &F,
    frames: Seq<FrameView>,
    least: Option<Timestamp>,
) -> bool {
    match least {
        Some(least) => {
            &&& exists|i: int|
                0 <= i < frames.len() && format.bound(#[trigger] frames[i]) is None
                    && frames[i].timestamp == least
            &&& forall|i: int|
                0 <= i < frames.len() && format.bound(#[trigger] frames[i]) is None
                    ==> !frames[i].timestamp.precedes(least)
        },
        None => forall|i: int|
            0 <= i < frames.len() ==> format.bound(#[trigger] frames[i]) is Some,
    }
}

/// Whether `greatest` is the greatest timestamp of the media among `frames`.
pub open spec fn is_greatest<F: Container>(
    format: &F,
    frames: Seq<FrameView>,
    greatest: Option<Timestamp>,
) -> bool {
    match greatest {
        Some(greatest) => {
            &&& exists|i: int|
                0 <= i < frames.len() && format.bound(#[trigger] frames[i]) is None
                    && frames[i].timestamp == greatest
            &&& forall|i: int|
                0 <= i < frames.len() && format.bound(#[trigger] frames[i]) is None
                    ==> !greatest.precedes(frames[i].timestamp)
        },
        None => forall|i: int|
            0 <= i < frames.len() ==> format.bound(#[trigger] frames[i]) is Some,
    }
}

/// Whether `end` is the furthest point that `frames` reach: no timestamp, end of a
/// frame or bound lies beyond it, and one of them lies there.
pub open spec fn is_furthest<F: Container>(
    format: &F,
    frames: Seq<FrameView>,
    end: Option<Duration>,
) -> bool {
    match end {
        Some(end) => {
            &&& exists|i: int|
                0 <= i < frames.len() && reach(format, #[trigger] frames[i]) == end
            &&& forall|i: int|
                0 <= i < frames.len() ==> {
                    &&& reach(format, #[trigger] frames[i]).nanos <= end.nanos
                    &&& format.bound(frames[i]) is None
                        ==> frames[i].timestamp.elapsed().nanos <= end.nanos
                }
        },
        None => frames.len() == 0,
    }
}

/// Whether a buffer knows how far `frames` reach.
pub open spec fn spans<F: Container>(
    format: &F,
    buffer: BufferView,
    frames: Seq<FrameView>,
) -> bool {
    &&& is_least(format, frames, buffer.min_timestamp)
    &&& is_greatest(format, frames, buffer.max_timestamp)
    &&& is_furthest(format, frames, buffer.max_end)
}

proof fn lemma_least<F: Container>(
    format: &F,
    frames: Seq<FrameView>,
    least: Option<Timestamp>,
    frame: FrameView,
)
    requires
        is_least(format, frames, least),
        valid_frames(frames.push(frame)),
        format.bound(frame) is None,
    ensures
        is_least(
            format,
            frames.push(frame),
            Some(
                match least {
                    Some(existing) => existing.earlier(frame.timestamp),
                    None => frame.timestamp,
                },
            ),
        ),
{
    let grown = frames.push(frame);
    let count = frames.len() as int;
    assert(grown[count] == frame);
    law_timestamps_are_totally_ordered(frame.timestamp, frame.timestamp);
    if let Some(existing) = least {
        let at = choose|i: int|
            0 <= i < frames.len() && format.bound(#[trigger] frames[i]) is None
                && frames[i].timestamp == existing;
        assert(grown[at] == frames[at]);
        law_timestamps_are_totally_ordered(existing, frame.timestamp);
        let lower = existing.earlier(frame.timestamp);
        assert forall|i: int|
            0 <= i < grown.len() && format.bound(#[trigger] grown[i]) is None implies !grown[
            i].timestamp.precedes(lower) by {
            if i < count {
                assert(grown[i] == frames[i]);
                if grown[i].timestamp.precedes(lower) && lower != existing {
                    law_timestamp_order_is_transitive(grown[i].timestamp, lower, existing);
                }
            }
        }
    } else {
        assert forall|i: int|
            0 <= i < grown.len() && format.bound(#[trigger] grown[i]) is None implies !grown[
            i].timestamp.precedes(frame.timestamp) by {
            if i < count {
                assert(grown[i] == frames[i]);
            }
        }
    }
}

proof fn lemma_greatest<F: Container>(
    format: &F,
    frames: Seq<FrameView>,
    greatest: Option<Timestamp>,
    frame: FrameView,
)
    requires
        is_greatest(format, frames, greatest),
        valid_frames(frames.push(frame)),
        format.bound(frame) is None,
    ensures
        is_greatest(
            format,
            frames.push(frame),
            Some(
                match greatest {
                    Some(existing) => existing.later(frame.timestamp),
                    None => frame.timestamp,
                },
            ),
        ),
{
    let grown = frames.push(frame);
    let count = frames.len() as int;
    assert(grown[count] == frame);
    law_timestamps_are_totally_ordered(frame.timestamp, frame.timestamp);
    if let Some(existing) = greatest {
        let at = choose|i: int|
            0 <= i < frames.len() && format.bound(#[trigger] frames[i]) is None
                && frames[i].timestamp == existing;
        assert(grown[at] == frames[at]);
        law_timestamps_are_totally_ordered(existing, frame.timestamp);
        let higher = existing.later(frame.timestamp);
        assert forall|i: int|
            0 <= i < grown.len() && format.bound(#[trigger] grown[i]) is None implies
            !higher.precedes(grown[i].timestamp) by {
            if i < count {
                assert(grown[i] == frames[i]);
                if higher.precedes(grown[i].timestamp) && higher != existing {
                    law_timestamp_order_is_transitive(existing, higher, grown[i].timestamp);
                }
            }
        }
    } else {
        assert forall|i: int|
            0 <= i < grown.len() && format.bound(#[trigger] grown[i]) is None implies
            !frame.timestamp.precedes(grown[i].timestamp) by {
            if i < count {
                assert(grown[i] == frames[i]);
            }
        }
    }
}

proof fn lemma_unmoved<F: Container>(
    format: &F,
    frames: Seq<FrameView>,
    buffer: BufferView,
    marker: FrameView,
)
    requires
        is_least(format, frames, buffer.min_timestamp),
        is_greatest(format, frames, buffer.max_timestamp),
        format.bound(marker) is Some,
    ensures
        is_least(format, frames.push(marker), buffer.min_timestamp),
        is_greatest(format, frames.push(marker), buffer.max_timestamp),
{
    let grown = frames.push(marker);
    assert forall|i: int| 0 <= i < frames.len() implies #[trigger] grown[i] == frames[i] by {}
    if let Some(existing) = buffer.min_timestamp {
        let at = choose|i: int|
            0 <= i < frames.len() && format.bound(#[trigger] frames[i]) is None
                && frames[i].timestamp == existing;
        assert(grown[at] == frames[at]);
    }
    if let Some(existing) = buffer.max_timestamp {
        let at = choose|i: int|
            0 <= i < frames.len() && format.bound(#[trigger] frames[i]) is None
                && frames[i].timestamp == existing;
        assert(grown[at] == frames[at]);
    }
}

proof fn lemma_furthest<F: Container>(
    format: &F,
    frames: Seq<FrameView>,
    end: Option<Duration>,
    frame: FrameView,
)
    requires
        is_furthest(format, frames, end),
        valid_frames(frames.push(frame)),
    ensures
        is_furthest(
            format,
            frames.push(frame),
            Some(furthest(end, reach(format, frame))),
        ),
{
    let grown = frames.push(frame);
    let count = frames.len() as int;
    assert(grown[count] == frame);
    lemma_elapsed_fits(frame.timestamp);
    if let Some(duration) = frame.duration {
        lemma_elapsed_fits(duration);
    }
    if let Some(existing) = end {
        let at = choose|i: int|
            0 <= i < frames.len() && reach(format, #[trigger] frames[i]) == existing;
        assert(grown[at] == frames[at]);
    }
    assert forall|i: int| 0 <= i < count implies #[trigger] grown[i] == frames[i] by {}
}

proof fn lemma_spans_frame<F: Container>(
    format: &F,
    buffer: BufferView,
    frames: Seq<FrameView>,
    frame: FrameView,
)
    requires
        spans(format, buffer, frames),
        valid_frames(frames.push(frame)),
    ensures
        spans(format, buffer.with_frame(format, frame), frames.push(frame)),
{
    lemma_furthest(format, frames, buffer.max_end, frame);
    if format.bound(frame) is None {
        lemma_least(format, frames, buffer.min_timestamp, frame);
        lemma_greatest(format, frames, buffer.max_timestamp, frame);
    } else {
        lemma_unmoved(format, frames, buffer, frame);
    }
}

proof fn lemma_spans_frames<F: Container>(
    format: &F,
    buffer: BufferView,
    before: Seq<FrameView>,
    frames: Seq<FrameView>,
)
    requires
        spans(format, buffer, before),
        valid_frames(before + frames),
    ensures
        spans(format, buffer.with_frames(format, frames), before + frames),
    decreases frames.len(),
{
    if frames.len() == 0 {
        assert(before + frames =~= before);
    } else {
        let grown = before.push(frames[0]);
        assert(grown + frames.drop_first() =~= before + frames);
        assert(valid_frames(grown)) by {
            assert forall|i: int| 0 <= i < grown.len() implies {
                &&& (#[trigger] grown[i]).timestamp.valid()
                &&& grown[i].duration matches Some(duration) ==> duration.valid()
            } by {
                assert(grown[i] == (before + frames)[i]);
            }
        }
        lemma_spans_frame(format, buffer, before, frames[0]);
        lemma_spans_frames(
            format,
            buffer.with_frame(format, frames[0]),
            grown,
            frames.drop_first(),
        );
    }
}

/// What holds of all frames of a run holds of its parts.
pub proof fn lemma_valid_part(a: Seq<FrameView>, b: Seq<FrameView>)
    requires
        valid_frames(a + b),
    ensures
        valid_frames(a),
        valid_frames(b),
{
    assert forall|i: int| 0 <= i < a.len() implies {
        &&& (#[trigger] a[i]).timestamp.valid()
        &&& a[i].duration matches Some(duration) ==> duration.valid()
    } by {
        assert((a + b)[i] == a[i]);
    }
    assert forall|i: int| 0 <= i < b.len() implies {
        &&& (#[trigger] b[i]).timestamp.valid()
        &&& b[i].duration matches Some(duration) ==> duration.valid()
    } by {
        assert((a + b)[a.len() + i] == b[i]);
    }
}

/// Decoding one more wire frame leaves a buffer that knows how far it reaches.
pub proof fn lemma_spans_once<F: Container, D: FrameDecrypter>(
    format: &F,
    at: Reading<D::State>,
    before: Seq<FrameView>,
)
    requires
        spans(format, at.buffer, before),
        valid_frames(before + once_seen::<F, D>(format, at)),
    ensures
        spans(
            format,
            decode_once::<F, D>(format, at).0.buffer,
            before + once_seen::<F, D>(format, at),
        ),
{
    let frames = once_seen::<F, D>(format, at);
    lemma_spans_frames(format, at.buffer, before, frames);
    if frames.len() == 0 {
        assert(before + frames =~= before);
    }
}

proof fn lemma_spans_one<F: Container, D: FrameDecrypter>(
    format: &F,
    at: Reading<D::State>,
    before: Seq<FrameView>,
)
    requires
        spans(format, at.buffer, before),
        valid_frames(before + one_seen::<F, D>(format, at)),
    ensures
        spans(
            format,
            decode_one::<F, D>(format, at).0.buffer,
            before + one_seen::<F, D>(format, at),
        ),
    decreases at.buffer.group.frames.len(),
{
    if holds_media(at.buffer.items) {
        assert(before + Seq::<FrameView>::empty() =~= before);
    } else {
        let (next, result) = decode_once::<F, D>(format, at);
        let frames = once_seen::<F, D>(format, at);
        let rest = if result == Poll::Ready(Ok::<bool, Error>(true)) {
            one_seen::<F, D>(format, next)
        } else {
            Seq::empty()
        };
        assert(before + (frames + rest) =~= (before + frames) + rest);
        lemma_valid_part(before + frames, rest);
        lemma_spans_once::<F, D>(format, at, before);
        if result == Poll::Ready(Ok::<bool, Error>(true)) {
            lemma_spans_one::<F, D>(format, next, before + frames);
        } else {
            assert((before + frames) + rest =~= before + frames);
        }
    }
}

/// Decoding every wire frame at hand leaves a buffer that knows how far it reaches.
pub proof fn lemma_spans_all<F: Container, D: FrameDecrypter>(
    format: &F,
    at: Reading<D::State>,
    before: Seq<FrameView>,
)
    requires
        spans(format, at.buffer, before),
        valid_frames(before + all_seen::<F, D>(format, at)),
    ensures
        spans(
            format,
            decode_all::<F, D>(format, at).0.buffer,
            before + all_seen::<F, D>(format, at),
        ),
    decreases at.buffer.group.frames.len(),
{
    let (next, result) = decode_once::<F, D>(format, at);
    let frames = once_seen::<F, D>(format, at);
    let rest = if result == Poll::Ready(Ok::<bool, Error>(true)) {
        all_seen::<F, D>(format, next)
    } else {
        Seq::empty()
    };
    assert(before + (frames + rest) =~= (before + frames) + rest);
    lemma_valid_part(before + frames, rest);
    lemma_spans_once::<F, D>(format, at, before);
    if result == Poll::Ready(Ok::<bool, Error>(true)) {
        lemma_spans_all::<F, D>(format, next, before + frames);
    } else {
        assert((before + frames) + rest =~= before + frames);
    }
}

proof fn lemma_spans_take<F: Container, D: FrameDecrypter>(
    format: &F,
    at: Reading<D::State>,
    before: Seq<FrameView>,
)
    requires
        spans(format, at.buffer, before),
        valid_frames(before + take_seen::<F, D>(format, at)),
    ensures
        spans(
            format,
            delivery::<F, D>(format, at).0.buffer,
            before + take_seen::<F, D>(format, at),
        ),
    decreases at.buffer.group.frames.len(),
{
    if at.buffer.items.len() > 0 {
        assert(before + Seq::<FrameView>::empty() =~= before);
    } else {
        let (next, result) = decode_once::<F, D>(format, at);
        let frames = once_seen::<F, D>(format, at);
        let rest = if result == Poll::Ready(Ok::<bool, Error>(true)) {
            take_seen::<F, D>(format, next)
        } else {
            Seq::empty()
        };
        assert(before + (frames + rest) =~= (before + frames) + rest);
        lemma_valid_part(before + frames, rest);
        lemma_spans_once::<F, D>(format, at, before);
        if result == Poll::Ready(Ok::<bool, Error>(true)) {
            lemma_spans_take::<F, D>(format, next, before + frames);
        } else {
            assert((before + frames) + rest =~= before + frames);
        }
    }
}

/// However a group is used, its buffer knows how far it reaches: the least and the
/// greatest timestamp of all media decoded so far, delivered or not, and the furthest
/// point of all of it, markers counted.
pub proof fn law_a_buffer_knows_how_far_it_reaches<F: Container, D: FrameDecrypter>(
    format: &F,
    group: GroupView,
    decrypter: Option<D::State>,
    steps: Seq<Step>,
)
    requires
        valid_frames(
            seen::<F, D>(format, Reading { buffer: BufferView::over(group), decrypter }, steps),
        ),
    ensures
        ({
            let at = Reading { buffer: BufferView::over(group), decrypter };
            spans(
                format,
                walked::<F, D>(format, at, steps).buffer,
                seen::<F, D>(format, at, steps),
            )
        }),
    decreases steps.len(),
{
    if steps.len() > 0 {
        let at = Reading { buffer: BufferView::over(group), decrypter };
        let before = steps.drop_last();
        let known = seen::<F, D>(format, at, before);
        let here = walked::<F, D>(format, at, before);
        lemma_valid_part(known, step_seen::<F, D>(format, here, steps.last()));
        law_a_buffer_knows_how_far_it_reaches::<F, D>(format, group, decrypter, before);
        match steps.last() {
            Step::Earliest => lemma_spans_one::<F, D>(format, here, known),
            Step::Latest => lemma_spans_all::<F, D>(format, here, known),
            Step::Take => lemma_spans_take::<F, D>(format, here, known),
            Step::Told(_) => {
                assert(known + Seq::<FrameView>::empty() =~= known);
            },
        }
    }
}

/// Whether no media stands among the first `count` frames.
pub open spec fn no_media_before<F: Container>(
    format: &F,
    frames: Seq<FrameView>,
    count: int,
) -> bool {
    forall|i: int| 0 <= i < count ==> format.bound(#[trigger] frames[i]) is Some
}

/// The items of a run of decoded frames, one for each: markers as the ends that they
/// announce, the rest as media, with the first of it a keyframe.
pub open spec fn items_of<F: Container>(format: &F, frames: Seq<FrameView>) -> Seq<ItemView> {
    Seq::new(
        frames.len(),
        |i: int|
            match format.bound(frames[i]) {
                Some(bound) => ItemView::End(bound),
                None => ItemView::Frame(frames[i].promoted(no_media_before(format, frames, i))),
            },
    )
}

/// Whether a buffer holds the items of `frames`, and nothing was taken of them.
spec fn lists<F: Container>(format: &F, buffer: BufferView, frames: Seq<FrameView>) -> bool {
    &&& buffer.items == items_of(format, frames)
    &&& buffer.started == !no_media_before(format, frames, frames.len() as int)
}

/// One more frame adds one item.
pub proof fn lemma_items_push<F: Container>(format: &F, frames: Seq<FrameView>, frame: FrameView)
    ensures
        ({
            let grown = frames.push(frame);
            let first = no_media_before(format, frames, frames.len() as int);
            &&& items_of(format, grown) == items_of(format, frames).push(
                match format.bound(frame) {
                    Some(bound) => ItemView::End(bound),
                    None => ItemView::Frame(frame.promoted(first)),
                },
            )
            &&& no_media_before(format, grown, grown.len() as int) == (first && format.bound(
                frame,
            ) is Some)
        }),
{
    let grown = frames.push(frame);
    let count = frames.len() as int;
    assert(grown[count] == frame);
    assert forall|i: int| 0 <= i <= count implies #[trigger] no_media_before(format, grown, i)
        == no_media_before(format, frames, i) by {
        if no_media_before(format, grown, i) {
            assert forall|j: int| 0 <= j < i implies format.bound(#[trigger] frames[j]) is Some by {
                assert(grown[j] == frames[j]);
            }
        }
        if no_media_before(format, frames, i) {
            assert forall|j: int| 0 <= j < i implies format.bound(#[trigger] grown[j]) is Some by {
                assert(grown[j] == frames[j]);
            }
        }
    }
    assert(no_media_before(format, grown, count) == no_media_before(format, frames, count));
    if no_media_before(format, frames, count) && format.bound(frame) is Some {
        assert(no_media_before(format, grown, count + 1));
    }
    if !no_media_before(format, frames, count) {
        let at = choose|j: int| 0 <= j < count && !(format.bound(#[trigger] frames[j]) is Some);
        assert(grown[at] == frames[at]);
    }
    assert(items_of(format, grown) =~= items_of(format, frames).push(
        items_of(format, grown)[count],
    ));
}

proof fn lemma_lists_frame<F: Container>(
    format: &F,
    buffer: BufferView,
    frames: Seq<FrameView>,
    frame: FrameView,
)
    requires
        lists(format, buffer, frames),
    ensures
        lists(format, buffer.with_frame(format, frame), frames.push(frame)),
{
    lemma_items_push(format, frames, frame);
}

proof fn lemma_lists_frames<F: Container>(
    format: &F,
    buffer: BufferView,
    before: Seq<FrameView>,
    frames: Seq<FrameView>,
)
    requires
        lists(format, buffer, before),
    ensures
        lists(format, buffer.with_frames(format, frames), before + frames),
    decreases frames.len(),
{
    if frames.len() == 0 {
        assert(before + frames =~= before);
    } else {
        assert(before.push(frames[0]) + frames.drop_first() =~= before + frames);
        lemma_lists_frame(format, buffer, before, frames[0]);
        lemma_lists_frames(
            format,
            buffer.with_frame(format, frames[0]),
            before.push(frames[0]),
            frames.drop_first(),
        );
    }
}

proof fn lemma_lists_all<F: Container, D: FrameDecrypter>(
    format: &F,
    at: Reading<D::State>,
    before: Seq<FrameView>,
)
    requires
        lists(format, at.buffer, before),
    ensures
        lists(
            format,
            decode_all::<F, D>(format, at).0.buffer,
            before + all_seen::<F, D>(format, at),
        ),
    decreases at.buffer.group.frames.len(),
{
    let (next, result) = decode_once::<F, D>(format, at);
    let frames = once_seen::<F, D>(format, at);
    lemma_lists_frames(format, at.buffer, before, frames);
    if result == Poll::Ready(Ok::<bool, Error>(true)) {
        let rest = all_seen::<F, D>(format, next);
        assert(before + (frames + rest) =~= (before + frames) + rest);
        lemma_lists_all::<F, D>(format, next, before + frames);
    } else {
        assert(frames =~= Seq::empty());
        assert(before + (frames + Seq::empty()) =~= before);
    }
}

/// What a new group delivers is what its wire frames decode to, one item for each frame
/// and in the order of the wire.
pub proof fn law_a_group_delivers_what_it_decodes_to<F: Container, D: FrameDecrypter>(
    format: &F,
    group: GroupView,
    decrypter: Option<D::State>,
)
    ensures
        ({
            let at = Reading { buffer: BufferView::over(group), decrypter };
            contents::<F, D>(format, at) == items_of(format, all_seen::<F, D>(format, at))
        }),
{
    let at = Reading { buffer: BufferView::over(group), decrypter };
    let none = Seq::<FrameView>::empty();
    assert(items_of(format, none) =~= Seq::empty());
    lemma_lists_all::<F, D>(format, at, none);
    assert(none + all_seen::<F, D>(format, at) =~= all_seen::<F, D>(format, at));
}

/// Whether everything of a group is at hand and can be decoded.
pub open spec fn complete<F: Container, D: FrameDecrypter>(
    format: &F,
    at: Reading<D::State>,
) -> bool {
    decode_all::<F, D>(format, at).1 == Poll::Ready(Ok::<(), Error>(()))
}

/// Looking ahead in a group that is at hand leaves what decoding all of it comes to.
pub proof fn lemma_looking_ahead<F: Container, D: FrameDecrypter>(
    format: &F,
    at: Reading<D::State>,
)
    requires
        complete::<F, D>(format, at),
    ensures
        decode_all::<F, D>(format, earliest::<F, D>(format, at).0) == decode_all::<F, D>(
            format,
            at,
        ),
        decode_all::<F, D>(format, latest::<F, D>(format, at).0) == decode_all::<F, D>(format, at),
        !(decode_one::<F, D>(format, at).1 matches Poll::Ready(Err(_))),
    decreases at.buffer.group.frames.len(),
{
    let (next, result) = decode_once::<F, D>(format, at);
    if result == Poll::Ready(Ok::<bool, Error>(true)) {
        lemma_looking_ahead::<F, D>(format, next);
    } else {
        assert(next.buffer =~= at.buffer);
        assert(next.decrypter == at.decrypter);
    }
}

/// What taking an item of a group that is at hand comes to.
pub open spec fn item_at(items: Seq<ItemView>, index: int) -> ItemOutcome {
    Poll::Ready(
        Ok(
            if index < items.len() {
                Some(items[index])
            } else {
                None
            },
        ),
    )
}

/// Taking an item of a group that is at hand gives the first that it delivers, or tells
/// its end, and leaves the others.
pub proof fn lemma_taking<F: Container, D: FrameDecrypter>(format: &F, at: Reading<D::State>)
    requires
        complete::<F, D>(format, at),
    ensures
        ({
            let (all, result) = decode_all::<F, D>(format, at);
            let (next, taken) = delivery::<F, D>(format, at);
            &&& taken == item_at(all.buffer.items, 0)
            &&& decode_all::<F, D>(format, next) == (
                if all.buffer.items.len() > 0 {
                    Reading { buffer: shortened(all.buffer), ..all }
                } else {
                    all
                },
                result,
            )
            &&& all.buffer.items.len() == 0 ==> next == all
        }),
    decreases at.buffer.group.frames.len(),
{
    if at.buffer.items.len() > 0 {
        lemma_contents_follow::<F, D>(format, at);
    } else {
        let (next, result) = decode_once::<F, D>(format, at);
        if result == Poll::Ready(Ok::<bool, Error>(true)) {
            lemma_taking::<F, D>(format, next);
        } else {
            assert(next.buffer =~= at.buffer);
            assert(next.decrypter == at.decrypter);
        }
    }
}

/// Whether a run of uses holds no news of the transport.
pub open spec fn untold(steps: Seq<Step>) -> bool {
    forall|i: int| 0 <= i < steps.len() ==> !(#[trigger] steps[i] is Told)
}

/// How often a run of uses takes an item.
pub open spec fn takes(steps: Seq<Step>) -> nat
    decreases steps.len(),
{
    if steps.len() == 0 {
        0
    } else {
        takes(steps.drop_last()) + (if steps.last() is Take {
            1nat
        } else {
            0nat
        })
    }
}

/// What is left of a group after `count` items were taken of it.
spec fn left_after<S>(all: Reading<S>, count: nat) -> Reading<S> {
    let items = if count < all.buffer.items.len() {
        all.buffer.items.skip(count as int)
    } else {
        Seq::empty()
    };
    Reading { buffer: BufferView { items, ..all.buffer }, ..all }
}

proof fn lemma_walked<F: Container, D: FrameDecrypter>(
    format: &F,
    at: Reading<D::State>,
    steps: Seq<Step>,
)
    requires
        complete::<F, D>(format, at),
        untold(steps),
    ensures
        ({
            let (all, result) = decode_all::<F, D>(format, at);
            decode_all::<F, D>(format, walked::<F, D>(format, at, steps)) == (
                left_after(all, takes(steps)),
                result,
            )
        }),
    decreases steps.len(),
{
    let all = decode_all::<F, D>(format, at).0;
    if steps.len() == 0 {
        assert(left_after(all, 0).buffer =~= all.buffer);
    } else {
        let before = steps.drop_last();
        assert(untold(before)) by {
            assert forall|i: int| 0 <= i < before.len() implies !(#[trigger] before[i] is Told) by {
                assert(before[i] == steps[i]);
            }
        }
        lemma_walked::<F, D>(format, at, before);
        let here = walked::<F, D>(format, at, before);
        let count = takes(before);
        match steps.last() {
            Step::Earliest | Step::Latest => lemma_looking_ahead::<F, D>(format, here),
            Step::Take => {
                lemma_taking::<F, D>(format, here);
                if count < all.buffer.items.len() {
                    let left = all.buffer.items.skip(count as int);
                    assert(left.drop_first() =~= left_after(all, count + 1).buffer.items);
                }
            },
            Step::Told(_) => {
                assert(steps[steps.len() - 1] is Told);
            },
        }
    }
}

/// A group that is at hand is given out once and in order, whatever looking ahead comes
/// in between: after `n` items were taken of it, taking one gives the item at `n`, and
/// past the last one the end.
///
/// With [`law_a_group_delivers_what_it_decodes_to`], the items are those of the wire.
pub proof fn law_a_group_is_given_out_once<F: Container, D: FrameDecrypter>(
    format: &F,
    at: Reading<D::State>,
    steps: Seq<Step>,
)
    requires
        complete::<F, D>(format, at),
        untold(steps),
    ensures
        delivery::<F, D>(format, walked::<F, D>(format, at, steps)).1 == item_at(
            contents::<F, D>(format, at),
            takes(steps) as int,
        ),
{
    lemma_walked::<F, D>(format, at, steps);
    lemma_taking::<F, D>(format, walked::<F, D>(format, at, steps));
}

/// Whether all of a group is at hand, and every wire frame of it decodes.
pub open spec fn decodes<F: Container, D: FrameDecrypter>(
    format: &F,
    group: GroupView,
    decrypter: Option<D::State>,
) -> bool
    decreases group.frames.len(),
{
    let (next, after, read) = wire_read::<D>(group, decrypter);
    match media(read, format.decoded(frame_of(read))) {
        Poll::Ready(Ok(Some(_))) => decodes::<F, D>(format, next, after),
        Poll::Ready(Ok(None)) => true,
        _ => false,
    }
}

/// What the wire frames of a group decode to, in order.
pub open spec fn decoded_wires<F: Container, D: FrameDecrypter>(
    format: &F,
    group: GroupView,
    decrypter: Option<D::State>,
) -> Seq<FrameView>
    decreases group.frames.len(),
{
    let (next, after, read) = wire_read::<D>(group, decrypter);
    match media(read, format.decoded(frame_of(read))) {
        Poll::Ready(Ok(Some(frames))) => frames + decoded_wires::<F, D>(format, next, after),
        _ => Seq::empty(),
    }
}

/// The frames that are media, and no markers.
pub open spec fn is_media<F: Container>(format: &F) -> spec_fn(FrameView) -> bool {
    |frame: FrameView| format.bound(frame) is None
}

/// Whether `held` are the frames of `plain`, with durations that markers may have given
/// to video frames that had none.
pub open spec fn retimed<F: Container>(
    format: &F,
    held: Seq<FrameView>,
    plain: Seq<FrameView>,
) -> bool {
    &&& held.len() == plain.len()
    &&& forall|i: int|
        0 <= i < plain.len() ==> {
            &&& (#[trigger] held[i]) == (FrameView { duration: held[i].duration, ..plain[i] })
            &&& plain[i].duration is Some || format.role() != Kind::Video ==> held[i] == plain[i]
        }
}

proof fn lemma_retimed<F: Container>(
    format: &F,
    held: Seq<FrameView>,
    plain: Seq<FrameView>,
    frames: Seq<FrameView>,
)
    requires
        retimed(format, held, plain),
    ensures
        retimed(
            format,
            with_all_decoded(format, held, frames),
            plain + frames.filter(is_media(format)),
        ),
    decreases frames.len(),
{
    let keep = is_media(format);
    if frames.len() == 0 {
        reveal(Seq::filter);
        assert(plain + frames.filter(keep) =~= plain);
    } else {
        let first = seq![frames[0]];
        let rest = frames.drop_first();
        assert(first + rest =~= frames);
        Seq::filter_distributes_over_add(first, rest, keep);
        assert(first.filter(keep) =~= if keep(frames[0]) {
            first
        } else {
            Seq::empty()
        }) by {
            reveal(Seq::filter);
            assert(first.drop_last() =~= Seq::empty());
            assert(first.drop_last().filter(keep) =~= Seq::empty());
        }
        let next = with_decoded(format, held, frames[0]);
        let grown = plain + first.filter(keep);
        assert(retimed(format, next, grown));
        lemma_retimed(format, next, grown, rest);
        assert(grown + rest.filter(keep) =~= plain + frames.filter(keep));
    }
}

proof fn lemma_group_retimed<F: Container, D: FrameDecrypter>(
    format: &F,
    state: GroupStateOf<D>,
    plain: Seq<FrameView>,
)
    requires
        retimed(format, state.pending, plain),
    ensures
        retimed(
            format,
            group_contents::<F, D>(format, state),
            plain + decoded_wires::<F, D>(format, state.group, state.decrypter).filter(
                is_media(format),
            ),
        ),
    decreases state.group.frames.len(),
{
    let keep = is_media(format);
    let (next, result) = next_media::<F, D>(format, state);
    if let Poll::Ready(Ok(Some(frames))) = result {
        let held = with_all_decoded(format, state.pending, frames);
        lemma_retimed(format, state.pending, plain, frames);
        let rest = decoded_wires::<F, D>(format, next.group, next.decrypter);
        lemma_group_retimed::<F, D>(
            format,
            GroupConsumerView { pending: held, ..next },
            plain + frames.filter(keep),
        );
        Seq::filter_distributes_over_add(frames, rest, keep);
        assert(plain + frames.filter(keep) + rest.filter(keep) =~= plain + (frames
            + rest).filter(keep));
    } else {
        reveal(Seq::filter);
        assert(plain + Seq::<FrameView>::empty().filter(keep) =~= plain);
    }
}

/// What reading a frame of a group that is at hand comes to, where `frames` are those it
/// delivers and none was delivered before.
pub open spec fn frame_at(frames: Seq<FrameView>, index: int) -> FrameReadOutcome {
    Poll::Ready(
        Ok(
            if index < frames.len() {
                Some(frames[index].promoted(index == 0))
            } else {
                None
            },
        ),
    )
}

/// A consumer of one group after `count` reads.
pub open spec fn after_reads<F: Container, D: FrameDecrypter>(
    format: &F,
    state: GroupStateOf<D>,
    count: nat,
) -> GroupStateOf<D>
    decreases count,
{
    if count == 0 {
        state
    } else {
        group_frame::<F, D>(format, after_reads::<F, D>(format, state, (count - 1) as nat)).0
    }
}

proof fn lemma_group_read<F: Container, D: FrameDecrypter>(format: &F, state: GroupStateOf<D>)
    requires
        decodes::<F, D>(format, state.group, state.decrypter),
    ensures
        ({
            let (next, read) = group_frame::<F, D>(format, state);
            let held = group_contents::<F, D>(format, state);
            &&& decodes::<F, D>(format, next.group, next.decrypter)
            &&& held.len() > 0 ==> {
                &&& read == Poll::Ready(
                    Ok::<Option<FrameView>, Error>(Some(held[0].promoted(!state.started))),
                )
                &&& next.started
                &&& group_contents::<F, D>(format, next) == held.drop_first()
            }
            &&& held.len() == 0 ==> {
                &&& read == Poll::Ready(Ok::<Option<FrameView>, Error>(None))
                &&& next.started == state.started
                &&& group_contents::<F, D>(format, next).len() == 0
            }
        }),
    decreases state.group.frames.len(),
{
    law_a_group_is_read_in_order::<F, D>(format, state);
    if !deliverable(format, state.pending) {
        let (next, result) = next_media::<F, D>(format, state);
        if let Poll::Ready(Ok(Some(frames))) = result {
            lemma_group_read::<F, D>(
                format,
                GroupConsumerView {
                    pending: with_all_decoded(format, state.pending, frames),
                    ..next
                },
            );
        } else {
            assert(next.group == state.group && next.decrypter == state.decrypter);
        }
    }
}

proof fn lemma_group_reads<F: Container, D: FrameDecrypter>(
    format: &F,
    state: GroupStateOf<D>,
    count: nat,
)
    requires
        decodes::<F, D>(format, state.group, state.decrypter),
        !state.started,
    ensures
        ({
            let here = after_reads::<F, D>(format, state, count);
            let held = group_contents::<F, D>(format, state);
            &&& decodes::<F, D>(format, here.group, here.decrypter)
            &&& group_contents::<F, D>(format, here) == (if count < held.len() {
                held.skip(count as int)
            } else {
                Seq::empty()
            })
            &&& here.started == (count > 0 && held.len() > 0)
        }),
    decreases count,
{
    let held = group_contents::<F, D>(format, state);
    if count == 0 {
        assert(held.skip(0) =~= held);
    } else {
        let before = (count - 1) as nat;
        let here = after_reads::<F, D>(format, state, before);
        lemma_group_reads::<F, D>(format, state, before);
        lemma_group_read::<F, D>(format, here);
        if before < held.len() {
            let left = held.skip(before as int);
            assert(left.drop_first() =~= if count < held.len() {
                held.skip(count as int)
            } else {
                Seq::empty()
            });
        }
    }
}

/// A group that is at hand and decodes is read out once and in order: reads give the
/// media that its wire frames decode to, one frame at a time, the first of it a
/// keyframe, and then the end. A marker may give a duration to a video frame that had
/// none; nothing else of a frame changes.
pub proof fn law_a_group_is_read_out_once<F: Container, D: FrameDecrypter>(
    format: &F,
    group: GroupView,
    decrypter: Option<D::State>,
    count: nat,
)
    requires
        decodes::<F, D>(format, group, decrypter),
    ensures
        ({
            let state = GroupConsumerView {
                group,
                decrypter,
                pending: Seq::empty(),
                started: false,
            };
            let frames = group_contents::<F, D>(format, state);
            let here = after_reads::<F, D>(format, state, count);
            &&& retimed(
                format,
                frames,
                decoded_wires::<F, D>(format, group, decrypter).filter(is_media(format)),
            )
            &&& group_frame::<F, D>(format, here).1 == frame_at(frames, count as int)
        }),
{
    let none = Seq::<FrameView>::empty();
    let state = GroupConsumerView::<D::State> { group, decrypter, pending: none, started: false };
    let plain = decoded_wires::<F, D>(format, group, decrypter).filter(is_media(format));
    lemma_group_retimed::<F, D>(format, state, none);
    assert(none + plain =~= plain);
    lemma_group_reads::<F, D>(format, state, count);
    lemma_group_read::<F, D>(format, after_reads::<F, D>(format, state, count));
}

/// Whether a decrypter opens, one after the other, what an encrypter seals of a run of
/// payloads, where the first of them is the frame `number` of its group.
pub open spec fn unlocks<E: FrameEncrypter, D: FrameDecrypter>(
    encrypter: E::State,
    decrypter: D::State,
    number: u32,
    frames: Seq<WireFrameView>,
) -> bool
    decreases frames.len(),
{
    if frames.len() == 0 {
        true
    } else {
        let (locked, sealed) = E::seal(encrypter, number as u64, frames[0].payload);
        match sealed {
            Ok(payload) => {
                let (unlocked, opened) = D::open(decrypter, number as u64, payload);
                &&& opened == Ok::<Seq<u8>, EncryptionError>(frames[0].payload)
                &&& unlocks::<E, D>(locked, unlocked, (number + 1) as u32, frames.drop_first())
            },
            Err(_) => false,
        }
    }
}

/// A writer into a group that protects what it writes.
pub type Locked<E> = ProtectedWriteFrame<Group, E>;

/// A reader of a group after `count` reads.
pub open spec fn after_frames<R: FrameReader>(state: R::State, count: nat) -> R::State
    decreases count,
{
    if count == 0 {
        state
    } else {
        R::next(after_frames::<R>(state, (count - 1) as nat)).0
    }
}

/// A frame with its timestamp at another timescale that can hold it.
pub open spec fn rescaled(frame: WireFrameView, timescale: u64) -> WireFrameView {
    WireFrameView { timestamp: frame.timestamp.rescaled(timescale)->Some_0, ..frame }
}

/// What a reader gives as the frame `number` of a group, where the group holds `frame`.
pub open spec fn read_as(number: int, frame: WireFrameView) -> FrameOutcome {
    Poll::Ready(
        Ok(
            Some(
                ReadFrameView {
                    sequence_number: number as u32,
                    timestamp: frame.timestamp,
                    payload: frame.payload,
                },
            ),
        ),
    )
}

/// The wire frames that an encrypter makes of a run of payloads.
spec fn sealed_run<E: FrameEncrypter>(
    encrypter: E::State,
    number: u32,
    frames: Seq<WireFrameView>,
    timescale: u64,
) -> Seq<WireFrameView>
    decreases frames.len(),
{
    if frames.len() == 0 {
        Seq::empty()
    } else {
        let (after, sealed) = E::seal(encrypter, number as u64, frames[0].payload);
        let first = WireFrameView {
            timestamp: rescaled(frames[0], timescale).timestamp,
            payload: sealed->Ok_0,
        };
        seq![first] + sealed_run::<E>(after, (number + 1) as u32, frames.drop_first(), timescale)
    }
}

proof fn lemma_locked_run<E: FrameEncrypter, D: FrameDecrypter>(
    group: GroupView,
    encrypter: E::State,
    decrypter: D::State,
    frames: Seq<WireFrameView>,
)
    requires
        unlocks::<E, D>(encrypter, decrypter, group.written, frames),
        write_all::<Locked<E>>((group, encrypter), frames, Ok(())).1 is Ok,
    ensures
        frames.len() > 0 ==> group.written + frames.len() <= MAX_GROUP_FRAMES,
        ({
            let written = write_all::<Locked<E>>((group, encrypter), frames, Ok(())).0.0;
            &&& written.frames == group.frames + sealed_run::<E>(
                encrypter,
                group.written,
                frames,
                group.timescale,
            )
            &&& written.read == group.read
            &&& written.timescale == group.timescale
        }),
    decreases frames.len(),
{
    let sealed = sealed_run::<E>(encrypter, group.written, frames, group.timescale);
    if frames.len() == 0 {
        assert(group.frames + sealed =~= group.frames);
    } else {
        let (locked, payload) = E::seal(encrypter, group.written as u64, frames[0].payload);
        let (unlocked, _) = D::open(decrypter, group.written as u64, payload->Ok_0);
        let (next, _) = Locked::<E>::written(
            (group, encrypter),
            frames[0].timestamp,
            frames[0].payload,
        );
        lemma_locked_run::<E, D>(next.0, locked, unlocked, frames.drop_first());
        let first = WireFrameView {
            timestamp: rescaled(frames[0], group.timescale).timestamp,
            payload: payload->Ok_0,
        };
        assert(next.0.frames == group.frames.push(first));
        let rest = sealed_run::<E>(
            locked,
            next.0.written,
            frames.drop_first(),
            group.timescale,
        );
        assert(group.frames.push(first) + rest =~= group.frames + (seq![first] + rest));
    }
}

proof fn lemma_after_frames<R: FrameReader>(state: R::State, count: nat)
    ensures
        after_frames::<R>(state, count + 1) == after_frames::<R>(R::next(state).0, count),
    decreases count,
{
    assert((count + 1 - 1) as nat == count);
    if count > 0 {
        lemma_after_frames::<R>(state, (count - 1) as nat);
    } else {
        assert(after_frames::<R>(state, count) == state);
        assert(after_frames::<R>(R::next(state).0, count) == R::next(state).0);
    }
}

proof fn lemma_unlocked_run<E: FrameEncrypter, D: FrameDecrypter>(
    group: GroupView,
    encrypter: E::State,
    decrypter: D::State,
    frames: Seq<WireFrameView>,
    index: nat,
)
    requires
        group.frames == sealed_run::<E>(encrypter, group.read, frames, group.timescale),
        unlocks::<E, D>(encrypter, decrypter, group.read, frames),
        group.read <= u32::MAX - frames.len(),
        index < frames.len(),
    ensures
        ProtectedReadFrame::<Group, D>::next(
            after_frames::<ProtectedReadFrame<Group, D>>((group, decrypter), index),
        ).1 == read_as(group.read + index, rescaled(frames[index as int], group.timescale)),
    decreases frames.len(),
{
    let (locked, payload) = E::seal(encrypter, group.read as u64, frames[0].payload);
    let (unlocked, _) = D::open(decrypter, group.read as u64, payload->Ok_0);
    let rest = sealed_run::<E>(
        locked,
        (group.read + 1) as u32,
        frames.drop_first(),
        group.timescale,
    );
    assert(group.frames[0].payload == payload->Ok_0);
    assert(group.frames.drop_first() =~= rest);
    if index > 0 {
        let before = (index - 1) as nat;
        lemma_after_frames::<ProtectedReadFrame<Group, D>>((group, decrypter), before);
        let next = ProtectedReadFrame::<Group, D>::next((group, decrypter)).0;
        assert(next == (group.popped(), unlocked));
        lemma_unlocked_run::<E, D>(next.0, locked, unlocked, frames.drop_first(), before);
    }
}

/// What a protected writer writes into a group, a protected reader reads out of it, frame
/// by frame: every payload comes back, with its timestamp at the timescale of the group
/// and under its number, wherever the decrypter opens, one after the other, what the
/// encrypter sealed.
pub proof fn law_protected_frames_come_back<E: FrameEncrypter, D: FrameDecrypter>(
    group: GroupView,
    encrypter: E::State,
    decrypter: D::State,
    frames: Seq<WireFrameView>,
    index: nat,
)
    requires
        group.frames.len() == 0,
        group.read == group.written,
        unlocks::<E, D>(encrypter, decrypter, group.written, frames),
        write_all::<Locked<E>>((group, encrypter), frames, Ok(())).1 is Ok,
        index < frames.len(),
    ensures
        ({
            let written = write_all::<Locked<E>>((group, encrypter), frames, Ok(())).0.0;
            ProtectedReadFrame::<Group, D>::next(
                after_frames::<ProtectedReadFrame<Group, D>>((written, decrypter), index),
            ).1 == read_as(group.read + index, rescaled(frames[index as int], group.timescale))
        }),
{
    lemma_locked_run::<E, D>(group, encrypter, decrypter, frames);
    let written = write_all::<Locked<E>>((group, encrypter), frames, Ok(())).0.0;
    assert(written.frames =~= sealed_run::<E>(
        encrypter,
        group.written,
        frames,
        group.timescale,
    ));
    lemma_unlocked_run::<E, D>(written, encrypter, decrypter, frames, index);
}

} // verus!
