//! What holds of a group while it still arrives.
//!
//! Media is handed out as soon as nothing more can change it. Only a video frame without a
//! duration is held back, for what may time it.
use vstd::prelude::*;

use super::buffer::wire_read;
use super::group::{
    deliverable, group_frame, next_media, with_all_decoded, with_decoded, GroupConsumerView,
    GroupStateOf,
};
use super::group_laws::law_a_duration_is_stamped_once;
use super::group_runs::{decoded_wires, is_media, no_media_before};
use super::schedule::FrameReadOutcome;
use super::{frame_of, media, Container, FrameDecrypter, FrameView, Kind};
use crate::error::Error;
use crate::net::GroupView;
use crate::poll::Poll;
use crate::time::{Timestamp, MAX_VARINT};

verus! {

/// How the wire frames of a group that are at hand end: with the clean end of the group,
/// with an error, or with nothing more for now.
pub open spec fn stop<F: Container, D: FrameDecrypter>(
    format: &F,
    group: GroupView,
    decrypter: Option<D::State>,
) -> Poll<Result<(), Error>>
    decreases group.frames.len(),
{
    let (next, after, read) = wire_read::<D>(group, decrypter);
    match media(read, format.decoded(frame_of(read))) {
        Poll::Ready(Ok(Some(_))) => stop::<F, D>(format, next, after),
        Poll::Ready(Ok(None)) => Poll::Ready(Ok(())),
        Poll::Ready(Err(error)) => Poll::Ready(Err(error)),
        Poll::Pending => Poll::Pending,
    }
}

/// The media that a consumer of one group has at hand: what it holds, and what the wire
/// frames at hand decode to, markers left out.
pub open spec fn media_at_hand<F: Container, D: FrameDecrypter>(
    format: &F,
    state: GroupStateOf<D>,
) -> Seq<FrameView> {
    state.pending + decoded_wires::<F, D>(format, state.group, state.decrypter).filter(
        is_media(format),
    )
}

/// What reading a group comes to that has no media to give, by how what is at hand ends.
pub open spec fn without_media(end: Poll<Result<(), Error>>) -> FrameReadOutcome {
    match end {
        Poll::Ready(Ok(_)) => Poll::Ready(Ok(None)),
        Poll::Ready(Err(error)) => Poll::Ready(Err(error)),
        Poll::Pending => Poll::Pending,
    }
}

proof fn lemma_filter_first<F: Container>(format: &F, frames: Seq<FrameView>)
    requires
        frames.len() > 0,
    ensures
        frames.filter(is_media(format)) == (if format.bound(frames[0]) is None {
            seq![frames[0]]
        } else {
            Seq::empty()
        }) + frames.drop_first().filter(is_media(format)),
{
    let keep = is_media(format);
    let first = seq![frames[0]];
    let rest = frames.drop_first();
    assert(first + rest =~= frames);
    Seq::filter_distributes_over_add(first, rest, keep);
    assert(first.filter(keep) =~= if keep(frames[0]) {
        first
    } else {
        Seq::empty()
    }) by {
        reveal(Seq::filter);
        assert(first.drop_last() =~= Seq::empty());
        assert(first.drop_last().filter(keep) =~= Seq::empty());
    }
}

/// What is no video is held as it was decoded.
proof fn lemma_held_plain<F: Container>(
    format: &F,
    pending: Seq<FrameView>,
    frames: Seq<FrameView>,
)
    requires
        format.role() != Kind::Video,
    ensures
        with_all_decoded(format, pending, frames) == pending + frames.filter(is_media(format)),
    decreases frames.len(),
{
    if frames.len() == 0 {
        reveal(Seq::filter);
        assert(pending + frames.filter(is_media(format)) =~= pending);
    } else {
        lemma_filter_first(format, frames);
        let next = with_decoded(format, pending, frames[0]);
        let rest = frames.drop_first();
        lemma_held_plain(format, next, rest);
        assert(next + rest.filter(is_media(format)) =~= pending + frames.filter(
            is_media(format),
        ));
    }
}

/// Media that is no video goes out at once: a read gives the first of what is at hand,
/// whether the group is finished or not, and leaves the rest. Only where no media is at
/// hand does a read tell of the end, of an error, or that there is nothing yet.
pub proof fn law_media_is_not_held_back<F: Container, D: FrameDecrypter>(
    format: &F,
    state: GroupStateOf<D>,
)
    requires
        format.role() != Kind::Video,
    ensures
        ({
            let media = media_at_hand::<F, D>(format, state);
            let (next, read) = group_frame::<F, D>(format, state);
            let left = media_at_hand::<F, D>(format, next);
            if media.len() > 0 {
                &&& read == Poll::Ready(
                    Ok::<Option<FrameView>, Error>(Some(media[0].promoted(!state.started))),
                )
                &&& left == media.drop_first()
                &&& next.started
            } else {
                &&& read == without_media(stop::<F, D>(format, state.group, state.decrypter))
                &&& !(read matches Poll::Ready(Err(_))) ==> left.len() == 0
                &&& next.started == state.started
            }
        }),
    decreases state.group.frames.len(),
{
    let keep = is_media(format);
    let frames = decoded_wires::<F, D>(format, state.group, state.decrypter);
    let media = media_at_hand::<F, D>(format, state);
    if state.pending.len() > 0 {
        assert(media[0] == state.pending[0]);
        assert(media.drop_first() =~= state.pending.drop_first() + frames.filter(keep));
    } else {
        let (next, result) = next_media::<F, D>(format, state);
        if let Poll::Ready(Ok(Some(brought))) = result {
            lemma_held_plain(format, state.pending, brought);
            let held = with_all_decoded(format, state.pending, brought);
            let rest = decoded_wires::<F, D>(format, next.group, next.decrypter);
            Seq::filter_distributes_over_add(brought, rest, keep);
            assert(held + rest.filter(keep) =~= media);
            law_media_is_not_held_back::<F, D>(
                format,
                GroupConsumerView { pending: held, ..next },
            );
        } else {
            assert(frames =~= Seq::empty());
            reveal(Seq::filter);
            assert(media =~= Seq::empty());
        }
    }
}

/// Where no media is at hand, a read tells how what is at hand ends, of video too.
pub proof fn law_no_media_gives_no_frame<F: Container, D: FrameDecrypter>(
    format: &F,
    state: GroupStateOf<D>,
)
    requires
        state.pending.len() == 0,
        !has_media(format, decoded_wires::<F, D>(format, state.group, state.decrypter)),
    ensures
        group_frame::<F, D>(format, state).1 == without_media(
            stop::<F, D>(format, state.group, state.decrypter),
        ),
    decreases state.group.frames.len(),
{
    let (next, result) = next_media::<F, D>(format, state);
    if let Poll::Ready(Ok(Some(brought))) = result {
        let frames = decoded_wires::<F, D>(format, state.group, state.decrypter);
        let rest = decoded_wires::<F, D>(format, next.group, next.decrypter);
        assert forall|i: int| 0 <= i < brought.len() implies format.bound(
            #[trigger] brought[i],
        ) is Some by {
            assert(frames[i] == brought[i]);
        }
        assert forall|i: int| 0 <= i < rest.len() implies format.bound(
            #[trigger] rest[i],
        ) is Some by {
            assert(frames[i + brought.len()] == rest[i]);
        }
        lemma_held_from(format, brought, brought.len() as int);
        assert(state.pending =~= Seq::empty());
        law_no_media_gives_no_frame::<F, D>(
            format,
            GroupConsumerView {
                pending: with_all_decoded(format, state.pending, brought),
                ..next
            },
        );
    }
}

/// A read finds nothing yet only where every wire frame at hand was decoded, and the group
/// is still open.
pub proof fn law_a_read_waits_only_for_the_transport<F: Container, D: FrameDecrypter>(
    format: &F,
    state: GroupStateOf<D>,
)
    ensures
        ({
            let (next, read) = group_frame::<F, D>(format, state);
            read is Pending ==> {
                &&& next.group.frames.len() == 0
                &&& !next.group.finished
                &&& next.group.aborted is None
                &&& next.group.sequence == state.group.sequence
                &&& next.started == state.started
            }
        }),
    decreases state.group.frames.len(),
{
    if !deliverable(format, state.pending) {
        let (next, result) = next_media::<F, D>(format, state);
        if let Poll::Ready(Ok(Some(frames))) = result {
            law_a_read_waits_only_for_the_transport::<F, D>(
                format,
                GroupConsumerView {
                    pending: with_all_decoded(format, state.pending, frames),
                    ..next
                },
            );
        }
    }
}

/// Whether a marker at `bound` can time a frame: it lies after it, and not too far.
pub open spec fn times(frame: FrameView, bound: Timestamp) -> bool {
    0 < bound.micros() - frame.timestamp.micros() <= MAX_VARINT
}

/// What times a frame among those decoded after it: the first marker that can, before any
/// other media.
pub open spec fn timer<F: Container>(
    format: &F,
    frame: FrameView,
    later: Seq<FrameView>,
) -> Option<Timestamp>
    decreases later.len(),
{
    if later.len() == 0 {
        None
    } else {
        match format.bound(later[0]) {
            Some(bound) => if times(frame, bound) {
                Some(bound)
            } else {
                timer(format, frame, later.drop_first())
            },
            None => None,
        }
    }
}

/// Whether there is media among frames.
pub open spec fn has_media<F: Container>(format: &F, frames: Seq<FrameView>) -> bool {
    !no_media_before(format, frames, frames.len() as int)
}

proof fn lemma_timer_more<F: Container>(
    format: &F,
    frame: FrameView,
    a: Seq<FrameView>,
    b: Seq<FrameView>,
)
    ensures
        timer(format, frame, a + b) == (if timer(format, frame, a) is Some || has_media(
            format,
            a,
        ) {
            timer(format, frame, a)
        } else {
            timer(format, frame, b)
        }),
        has_media(format, a + b) == (has_media(format, a) || has_media(format, b)),
    decreases a.len(),
{
    if a.len() == 0 {
        assert(a + b =~= b);
    } else {
        let rest = a.drop_first();
        assert((a + b).drop_first() =~= rest + b);
        assert((a + b)[0] == a[0]);
        lemma_timer_more(format, frame, rest, b);
        lemma_media_first(format, a);
        lemma_media_first(format, a + b);
    }
}

proof fn lemma_media_first<F: Container>(format: &F, frames: Seq<FrameView>)
    requires
        frames.len() > 0,
    ensures
        has_media(format, frames) == (format.bound(frames[0]) is None || has_media(
            format,
            frames.drop_first(),
        )),
{
    let rest = frames.drop_first();
    if has_media(format, rest) {
        let i = choose|i: int|
            0 <= i < rest.len() && !(format.bound(#[trigger] rest[i]) is Some);
        assert(frames[i + 1] == rest[i]);
    }
    if has_media(format, frames) && format.bound(frames[0]) is Some {
        let i = choose|i: int|
            0 <= i < frames.len() && !(format.bound(#[trigger] frames[i]) is Some);
        assert(rest[i - 1] == frames[i]);
    }
}

/// A frame as it goes out, given what times it.
pub open spec fn is_timed(frame: FrameView, bound: Option<Timestamp>, out: FrameView) -> bool {
    match bound {
        Some(bound) if frame.duration is None => {
            &&& out == (FrameView { duration: out.duration, ..frame })
            &&& out.duration matches Some(duration) && frame.timestamp.micros()
                + duration.micros() == bound.micros()
        },
        _ => out == frame,
    }
}

/// A held video frame, and what frames decoded after it make of it.
proof fn lemma_held_video<F: Container>(
    format: &F,
    frame: FrameView,
    later: Seq<FrameView>,
    more: Seq<FrameView>,
)
    requires
        format.role() == Kind::Video,
    ensures
        ({
            let held = with_all_decoded(format, seq![frame] + more, later);
            &&& held.len() >= 1 + more.len()
            &&& more.len() == 0 ==> is_timed(frame, timer(format, frame, later), held[0])
            &&& more.len() > 0 ==> held[0] == frame
            &&& more.len() == 0 && !has_media(format, later) ==> held.len() == 1
            &&& has_media(format, later) ==> held.len() >= 2
        }),
    decreases later.len(),
{
    let pending = seq![frame] + more;
    if later.len() > 0 {
        let rest = later.drop_first();
        lemma_media_first(format, later);
        match format.bound(later[0]) {
            None => {
                assert(pending.push(later[0]) =~= seq![frame] + more.push(later[0]));
                lemma_held_video(format, frame, rest, more.push(later[0]));
            },
            Some(bound) => {
                law_a_duration_is_stamped_once(frame, bound, bound);
                if more.len() == 0 {
                    let closed = frame.closed_at(bound);
                    assert(pending.drop_last().push(pending.last().closed_at(bound)) =~= seq![
                        closed,
                    ] + more);
                    lemma_held_video(format, closed, rest, more);
                } else {
                    let changed = more.drop_last().push(more.last().closed_at(bound));
                    assert(pending.drop_last().push(pending.last().closed_at(bound)) =~= seq![
                        frame,
                    ] + changed);
                    lemma_held_video(format, frame, rest, changed);
                }
            },
        }
    }
}

/// Markers before the first media change nothing.
proof fn lemma_held_from<F: Container>(format: &F, frames: Seq<FrameView>, at: int)
    requires
        0 <= at <= frames.len(),
        no_media_before(format, frames, at),
    ensures
        at < frames.len() && format.bound(frames[at]) is None ==> with_all_decoded(
            format,
            Seq::empty(),
            frames,
        ) == with_all_decoded(format, seq![frames[at]], frames.skip(at + 1)),
        at == frames.len() ==> with_all_decoded(format, Seq::empty(), frames).len() == 0,
    decreases at,
{
    let none = Seq::<FrameView>::empty();
    if at == 0 {
        if frames.len() > 0 && format.bound(frames[0]) is None {
            assert(none.push(frames[0]) =~= seq![frames[0]]);
            assert(frames.skip(1) =~= frames.drop_first());
        }
    } else {
        let rest = frames.drop_first();
        assert(format.bound(frames[0]) is Some);
        assert forall|i: int| 0 <= i < at - 1 implies format.bound(#[trigger] rest[i]) is Some by {
            assert(rest[i] == frames[i + 1]);
        }
        lemma_held_from(format, rest, at - 1);
        if at < frames.len() {
            assert(rest[at - 1] == frames[at]);
            assert(rest.skip(at) =~= frames.skip(at + 1));
        }
    }
}

/// Whether `first` is the media of a group that goes out next, held or yet to be decoded,
/// and `later` is what is at hand after it.
pub open spec fn goes_next<F: Container, D: FrameDecrypter>(
    format: &F,
    state: GroupStateOf<D>,
    first: FrameView,
    later: Seq<FrameView>,
) -> bool {
    let frames = decoded_wires::<F, D>(format, state.group, state.decrypter);
    ||| state.pending == seq![first] && later == frames
    ||| state.pending.len() == 0 && exists|at: int|
        {
            &&& 0 <= at < frames.len()
            &&& #[trigger] no_media_before(format, frames, at)
            &&& format.bound(frames[at]) is None
            &&& frames[at] == first
            &&& later == frames.skip(at + 1)
        }
}

/// What becomes of a video frame by what is decoded after it in one step.
proof fn lemma_video_step<F: Container, D: FrameDecrypter>(
    format: &F,
    state: GroupStateOf<D>,
    first: FrameView,
    brought: Seq<FrameView>,
    rest: Seq<FrameView>,
)
    requires
        format.role() == Kind::Video,
        first.duration is None,
        state.pending == with_all_decoded(format, seq![first], brought),
        timer(format, first, brought) is Some || has_media(format, brought),
    ensures
        ({
            let (next, read) = group_frame::<F, D>(format, state);
            &&& read matches Poll::Ready(Ok(Some(out)))
            &&& is_timed(
                first.promoted(!state.started),
                timer(format, first, brought + rest),
                out,
            )
            &&& next.started
        }),
{
    lemma_timer_more(format, first, brought, rest);
    assert(seq![first] + Seq::<FrameView>::empty() =~= seq![first]);
    lemma_held_video(format, first, brought, Seq::empty());
    assert(deliverable(format, state.pending));
}

proof fn lemma_video<F: Container, D: FrameDecrypter>(
    format: &F,
    state: GroupStateOf<D>,
    first: FrameView,
    later: Seq<FrameView>,
)
    requires
        format.role() == Kind::Video,
        goes_next::<F, D>(format, state, first, later),
    ensures
        ({
            let (next, read) = group_frame::<F, D>(format, state);
            let bound = timer(format, first, later);
            let end = stop::<F, D>(format, state.group, state.decrypter);
            if first.duration is Some || bound is Some || has_media(format, later) || end
                == Poll::Ready(Ok::<(), Error>(())) {
                &&& read matches Poll::Ready(Ok(Some(out)))
                &&& is_timed(first.promoted(!state.started), bound, out)
                &&& next.started
            } else {
                &&& read == without_media(end)
                &&& next.started == state.started
            }
        }),
    decreases state.group.frames.len(),
{
    let none = Seq::<FrameView>::empty();
    let frames = decoded_wires::<F, D>(format, state.group, state.decrypter);
    let (next, result) = next_media::<F, D>(format, state);
    if state.pending == seq![first] && later == frames && first.duration is Some {
        assert(deliverable(format, state.pending));
    } else if let Poll::Ready(Ok(Some(brought))) = result {
        let held = with_all_decoded(format, state.pending, brought);
        let then = GroupConsumerView { pending: held, ..next };
        let rest = decoded_wires::<F, D>(format, next.group, next.decrypter);
        assert(frames == brought + rest);
        assert(!deliverable(format, state.pending));
        assert(group_frame::<F, D>(format, state) == group_frame::<F, D>(format, then));
        if state.pending == seq![first] && later == frames {
            lemma_video_on::<F, D>(format, then, first, brought, rest);
            if !(timer(format, first, brought) is Some || has_media(format, brought)) {
                lemma_timer_more(format, first, brought, rest);
                lemma_video::<F, D>(format, then, first, rest);
            }
        } else {
            let at = choose|at: int|
                {
                    &&& 0 <= at < frames.len()
                    &&& #[trigger] no_media_before(format, frames, at)
                    &&& format.bound(frames[at]) is None
                    &&& frames[at] == first
                    &&& later == frames.skip(at + 1)
                };
            assert(state.pending =~= none);
            if at < brought.len() {
                let after = brought.skip(at + 1);
                assert(no_media_before(format, brought, at)) by {
                    assert forall|i: int| 0 <= i < at implies format.bound(
                        #[trigger] brought[i],
                    ) is Some by {
                        assert(frames[i] == brought[i]);
                    }
                }
                assert(brought[at] == frames[at]);
                lemma_held_from(format, brought, at);
                assert(later =~= after + rest);
                if first.duration is Some {
                    lemma_held_video(format, first, after, none);
                    assert(seq![first] + none =~= seq![first]);
                    assert(deliverable(format, held));
                } else {
                    lemma_video_on::<F, D>(format, then, first, after, rest);
                    if !(timer(format, first, after) is Some || has_media(format, after)) {
                        lemma_timer_more(format, first, after, rest);
                        lemma_video::<F, D>(format, then, first, rest);
                    }
                }
            } else {
                assert(no_media_before(format, brought, brought.len() as int)) by {
                    assert forall|i: int| 0 <= i < brought.len() implies format.bound(
                        #[trigger] brought[i],
                    ) is Some by {
                        assert(frames[i] == brought[i]);
                    }
                }
                lemma_held_from(format, brought, brought.len() as int);
                let index = at - brought.len();
                assert(no_media_before(format, rest, index)) by {
                    assert forall|i: int| 0 <= i < index implies format.bound(
                        #[trigger] rest[i],
                    ) is Some by {
                        assert(frames[i + brought.len()] == rest[i]);
                    }
                }
                assert(rest[index] == frames[at]);
                assert(later =~= rest.skip(index + 1));
                lemma_video::<F, D>(format, then, first, later);
            }
        }
    } else {
        assert(frames =~= none);
        assert(state.pending == seq![first]);
        assert(!deliverable(format, state.pending));
    }
}

/// A video frame after one more wire frame: it goes out, or is held as it was.
proof fn lemma_video_on<F: Container, D: FrameDecrypter>(
    format: &F,
    state: GroupStateOf<D>,
    first: FrameView,
    brought: Seq<FrameView>,
    rest: Seq<FrameView>,
)
    requires
        format.role() == Kind::Video,
        first.duration is None,
        state.pending == with_all_decoded(format, seq![first], brought),
        rest == decoded_wires::<F, D>(format, state.group, state.decrypter),
    ensures
        timer(format, first, brought) is Some || has_media(format, brought) ==> ({
            let (next, read) = group_frame::<F, D>(format, state);
            &&& read matches Poll::Ready(Ok(Some(out)))
            &&& is_timed(
                first.promoted(!state.started),
                timer(format, first, brought + rest),
                out,
            )
            &&& next.started
            &&& timer(format, first, brought + rest) is Some || has_media(
                format,
                brought + rest,
            )
        }),
        !(timer(format, first, brought) is Some || has_media(format, brought)) ==> goes_next::<
            F,
            D,
        >(format, state, first, rest),
{
    if timer(format, first, brought) is Some || has_media(format, brought) {
        lemma_video_step::<F, D>(format, state, first, brought, rest);
        lemma_timer_more(format, first, brought, rest);
    } else {
        assert(seq![first] + Seq::<FrameView>::empty() =~= seq![first]);
        lemma_held_video(format, first, brought, Seq::empty());
        assert(state.pending =~= seq![first]);
    }
}

/// A video frame without a duration waits for what may time it, and for nothing else. It
/// goes out once it is timed by a marker, with the time up to that marker as its duration;
/// once other media follows it; and once the group has ended. One that has a duration, and
/// one that other held media follows, goes out at once and as it is.
pub proof fn law_video_waits_for_its_duration<F: Container, D: FrameDecrypter>(
    format: &F,
    state: GroupStateOf<D>,
    first: FrameView,
    later: Seq<FrameView>,
)
    requires
        format.role() == Kind::Video,
        goes_next::<F, D>(format, state, first, later),
    ensures
        ({
            let read = group_frame::<F, D>(format, state).1;
            let bound = timer(format, first, later);
            let end = stop::<F, D>(format, state.group, state.decrypter);
            if first.duration is Some || bound is Some || has_media(format, later) || end
                == Poll::Ready(Ok::<(), Error>(())) {
                &&& read matches Poll::Ready(Ok(Some(out)))
                &&& is_timed(first.promoted(!state.started), bound, out)
            } else {
                read == without_media(end)
            }
        }),
{
    lemma_video::<F, D>(format, state, first, later);
}

/// Where several video frames are held, the first goes out as it is.
pub proof fn law_followed_video_goes_out<F: Container, D: FrameDecrypter>(
    format: &F,
    state: GroupStateOf<D>,
)
    requires
        state.pending.len() >= 2,
    ensures
        ({
            let (next, read) = group_frame::<F, D>(format, state);
            &&& read == Poll::Ready(
                Ok::<Option<FrameView>, Error>(Some(state.pending[0].promoted(!state.started))),
            )
            &&& next == (GroupConsumerView {
                pending: state.pending.drop_first(),
                started: true,
                ..state
            })
        }),
{
}

} // verus!
