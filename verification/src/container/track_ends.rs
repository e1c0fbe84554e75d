//! How groups and tracks end.
//!
//! A group that the transport abandons is passed over, one that cannot be decoded is told
//! of, and the end of a track is told once there is nothing left of it.
use vstd::prelude::*;

use super::buffer::{decode_all, decode_once, delivery, holds_media, BufferView, ItemView, Reading};
use super::progress::lemma_filter_whole;
use super::reader::ReadFrameView;
use super::schedule::{
    detected, earliest_at, event, find_reset, first_above, front, insertion_point, latched,
    next_frame, outlook, readable, run, settled, turn, ConsumerView, EventView, StateOf, Turn,
};
use super::track_laws::event_of;
use super::track_live::{
    all_sound, lemma_checked, lemma_sound_once, onward, prospects, sound, underway,
};
use super::track_pace::{
    cursor, declares_break, lemma_begins, lemma_ends, lemma_gap_view, lemma_gives, lemma_skipped,
    nothing_ahead, poised, rewind_after, rewind_broken, Ahead,
};
use super::track_runs::{unprotected, Alike};
use super::{Container, FrameDecrypter, FrameView, Kind};
use crate::error::Error;
use crate::net::{GroupView, SubscriberView};
use crate::poll::Poll;
use crate::time::Timestamp;

verus! {

/// A turn where nothing is left.
proof fn lemma_nothing_left<F: Container, D: FrameDecrypter>(
    format: &F,
    state: StateOf<D>,
    finished: bool,
)
    requires
        state.pending.len() == 0,
    ensures
        ({
            let (next, outcome) = run::<F, D>(format, state, finished);
            &&& outcome == (if finished {
                Poll::Ready(Ok::<Option<EventView>, Error>(None))
            } else {
                Poll::Pending
            })
            &&& next == state
        }),
{
    assert(detected::<F, D>(format, state) == (state, false));
    assert(settled::<F, D>(format, state) == state);
    assert(front::<F, D>(format, state) == (state, None::<Turn<D::State>>));
    assert(outlook::<F, D>(format, state).0 == state);
    assert(first_above(state.pending, 0, state.current) == 0);
}

/// Where nothing is left of a track, its end is told once the publisher ended it, and is
/// waited for until then.
pub proof fn law_the_end_is_told<F: Container, D: FrameDecrypter>(
    format: &F,
    state: StateOf<D>,
)
    requires
        state.pending.len() == 0,
        state.track.arrived.len() == 0,
        !(state.track.closed matches Some(Err(_))),
    ensures
        ({
            let (next, outcome) = event::<F, D>(format, state);
            &&& outcome == (if state.track.closed is Some {
                Poll::Ready(Ok::<Option<EventView>, Error>(None))
            } else {
                Poll::Pending
            })
            &&& next == state
        }),
{
    assert(state.received() == state);
    let ready = latched::<F, D>(format, state);
    assert(ready == state);
    lemma_filter_whole(state.pending, readable(state.current));
    assert(state.reaped() == state);
    lemma_nothing_left::<F, D>(format, state, state.track.closed is Some);
}

/// Reading media passes over the markers and ends of groups between events, and nothing
/// else: each marker of an audio track moves the end of the audio, and one of another track
/// moves nothing.
pub proof fn law_reading_follows_events<F: Container, D: FrameDecrypter>(
    format: &F,
    state: StateOf<D>,
)
    ensures
        ({
            let (next, outcome) = event::<F, D>(format, state);
            let read = next_frame::<F, D>(format, state);
            &&& outcome matches Poll::Ready(Ok(Some(EventView::Frame(frame)))) ==> read == (
                next,
                Poll::Ready(Ok::<Option<FrameView>, Error>(Some(frame))),
            )
            &&& outcome matches Poll::Ready(Ok(Some(EventView::FrameEnd(bound)))) ==> {
                &&& format.role() == Kind::Audio ==> read == next_frame::<F, D>(
                    format,
                    ConsumerView { end: Some(bound), ..next },
                )
                &&& format.role() != Kind::Audio ==> read == next_frame::<F, D>(format, next)
            }
            &&& outcome matches Poll::Ready(Ok(Some(EventView::GroupEnd))) ==> read
                == next_frame::<F, D>(format, next)
            &&& outcome matches Poll::Ready(Ok(None)) ==> read == (
                next,
                Poll::Ready(Ok::<Option<FrameView>, Error>(None)),
            )
            &&& outcome matches Poll::Ready(Err(error)) ==> read == (
                next,
                Poll::Ready(Err::<Option<FrameView>, Error>(error)),
            )
            &&& outcome is Pending ==> read.0 == next && read.1 is Pending
        }),
{
}

/// The groups after the first.
spec fn after_first<S>(state: ConsumerView<S>) -> ConsumerView<S> {
    ConsumerView { pending: state.pending.drop_first(), ..state }
}

/// A first group that carried the live edge, or came before it, is not looked at for a
/// rewind.
proof fn lemma_reset_rest<F: Container, D: FrameDecrypter>(
    format: &F,
    state: StateOf<D>,
    count: int,
    prev_max: u64,
    edge: Timestamp,
)
    requires
        1 <= count <= state.pending.len(),
        state.pending[0].group.sequence <= prev_max,
    ensures
        ({
            let (a, x) = find_reset::<F, D>(format, state, count, prev_max, edge);
            let (b, y) = find_reset::<F, D>(
                format,
                after_first(state),
                count - 1,
                prev_max,
                edge,
            );
            &&& x == y
            &&& a == (ConsumerView {
                pending: seq![state.pending[0]] + b.pending,
                decrypter: b.decrypter,
                ..state
            })
            &&& b == (ConsumerView { pending: b.pending, decrypter: b.decrypter, ..state })
        }),
    decreases count,
{
    let rest = after_first(state);
    if count == 1 {
        assert(seq![state.pending[0]] + rest.pending =~= state.pending);
    } else if state.pending[count - 1].group.sequence <= prev_max {
        assert(seq![state.pending[0]] + rest.pending =~= state.pending);
    } else {
        let (next, found) = earliest_at::<F, D>(format, state, count - 1);
        let (other, same) = earliest_at::<F, D>(format, rest, count - 2);
        assert(state.reading(count - 1) == rest.reading(count - 2));
        assert(after_first(next).pending =~= other.pending);
        assert(after_first(next) == other);
        assert(next.pending[0] == state.pending[0]);
        if found is Some && found->Some_0.precedes(edge) {
            assert(seq![state.pending[0]] + other.pending =~= next.pending);
        } else {
            lemma_reset_rest::<F, D>(format, next, count - 1, prev_max, edge);
        }
    }
}

/// Whether a consumer reads a first group, and everything after it is in order. What was
/// decoded of the groups after it before is `seen`.
pub open spec fn leads<F: Container, D: FrameDecrypter>(
    format: &F,
    alike: Alike<D::State>,
    state: StateOf<D>,
    seen: Seq<Seq<FrameView>>,
) -> bool {
    let rest = ConsumerView { pending: state.pending.drop_first(), ..state };
    &&& state.track.arrived.len() == 0
    &&& !(state.track.closed matches Some(Err(_)))
    &&& !state.startup
    &&& state.rewind.boundary is None
    &&& state.pending.len() > 0
    &&& state.pending[0].group.sequence <= state.current
    &&& state.rewind.live_edge matches Some((prev_max, _)) ==> state.pending[0].group.sequence
        <= prev_max
    &&& state.ordered()
    &&& all_sound::<F, D>(format, alike, rest, seen)
    &&& onward::<F, D>(format, rest, prospects::<F, D>(format, rest, seen))
}

/// The first step of a turn leaves the first group, and what the others show.
#[verifier::spinoff_prover]
proof fn lemma_leads<F: Container, D: FrameDecrypter>(
    format: &F,
    alike: Alike<D::State>,
    state: StateOf<D>,
    seen: Seq<Seq<FrameView>>,
) -> (r: (Seq<Seq<FrameView>>, StateOf<D>))
    requires
        leads::<F, D>(format, alike, state, seen),
    ensures
        ({
            let (grown, rest) = r;
            let before = after_first(state);
            let checked = ConsumerView {
                pending: seq![state.pending[0]] + rest.pending,
                decrypter: rest.decrypter,
                ..state
            };
            &&& event::<F, D>(format, state) == run::<F, D>(
                format,
                state,
                state.track.closed is Some,
            )
            &&& detected::<F, D>(format, state) == (checked, false)
            &&& settled::<F, D>(format, checked) == checked
            &&& rest == (ConsumerView {
                pending: rest.pending,
                decrypter: rest.decrypter,
                ..state
            })
            &&& rest.pending.len() == state.pending.len() - 1
            &&& (alike.states)(rest.decrypter)
            &&& rest.pending.len() > 0 ==> {
                &&& underway::<F, D>(format, alike, rest, grown)
                &&& prospects::<F, D>(format, rest, grown) == prospects::<F, D>(
                    format,
                    before,
                    seen,
                )
                &&& rest.pending[0].group.sequence == state.pending[1].group.sequence
            }
        }),
{
    let before = after_first(state);
    assert(state.received() == state);
    let keep = readable(state.current);
    assert forall|i: int| 0 <= i < state.pending.len() implies keep(
        #[trigger] state.pending[i],
    ) by {
        if i > 0 {
            assert(sound::<F, D>(format, alike, before.reading(i - 1), seen[i - 1]));
            assert(before.pending[i - 1] == state.pending[i]);
        }
    }
    lemma_filter_whole(state.pending, keep);
    assert(state.reaped() == state);
    assert(seq![state.pending[0]] + before.pending =~= state.pending);
    if let Some((prev_max, edge)) = state.rewind.live_edge {
        lemma_reset_rest::<F, D>(format, state, state.pending.len() as int, prev_max, edge);
    }
    if before.pending.len() > 0 {
        assert forall|i: int, j: int| 0 <= i < j < before.pending.len() implies (
        #[trigger] before.pending[i]).group.sequence <= (
        #[trigger] before.pending[j]).group.sequence by {
            assert(state.pending[i + 1].group.sequence <= state.pending[j + 1].group.sequence);
        }
        let grown = lemma_checked::<F, D>(format, alike, before, seen);
        let rest = detected::<F, D>(format, before).0;
        assert(rest.pending[0].group.sequence == before.pending[0].group.sequence);
        (grown, rest)
    } else {
        (seen, before)
    }
}

/// A group that the transport abandoned, and of which everything at hand was delivered, is
/// passed over without a word: the next event comes from the group after it, and the
/// timeline does not break.
pub proof fn law_an_abandoned_group_is_passed_over<F: Container, D: FrameDecrypter>(
    format: &F,
    alike: Alike<D::State>,
    state: StateOf<D>,
    seen: Seq<Seq<FrameView>>,
)
    requires
        leads::<F, D>(format, alike, state, seen),
        state.pending[0].items.len() == 0,
        state.pending[0].group.frames.len() == 0,
        state.pending[0].group.aborted is Some,
        !state.pending[0].group.finished,
        state.pending.len() > 1,
        prospects::<F, D>(
            format,
            ConsumerView { pending: state.pending.drop_first(), ..state },
            seen,
        )[0].whole.items.len() > 0,
    ensures
        ({
            let (next, outcome) = event::<F, D>(format, state);
            let rest = ConsumerView { pending: state.pending.drop_first(), ..state };
            let item = prospects::<F, D>(format, rest, seen)[0].whole.items[0];
            let sequence = state.pending[1].group.sequence;
            &&& outcome == Poll::Ready(Ok::<Option<EventView>, Error>(Some(event_of(item))))
            &&& next.pending.len() == state.pending.len() - 1
            &&& next.pending[0].group.sequence == sequence
            &&& next.current == sequence
            &&& next.rewind == rewind_after(state.rewind, sequence, item)
            &&& next.end == state.end
        }),
{
    let finished = state.track.closed is Some;
    let (grown, rest) = lemma_leads::<F, D>(format, alike, state, seen);
    let checked = detected::<F, D>(format, state).0;
    let at = checked.reading(0);
    let (after, taken) = delivery::<F, D>(format, at);
    assert(after.buffer =~= at.buffer);
    assert(taken matches Poll::Ready(Err(_)));
    let next = ConsumerView { current: rest.pending[0].group.sequence, ..rest };
    let moved = checked.moved(0, after);
    assert(moved.pending.drop_first() =~= rest.pending);
    assert(moved.decrypter == rest.decrypter);
    assert(moved.evicted() == next);
    assert(turn::<F, D>(format, state, finished) == Turn::Again(next));
    assert(run::<F, D>(format, state, finished) == run::<F, D>(format, next, finished));
    assert forall|i: int| #[trigger] next.reading(i) == rest.reading(i) by {}
    assert forall|i: int| 0 <= i < next.pending.len() implies sound::<F, D>(
        format,
        alike,
        #[trigger] next.reading(i),
        grown[i],
    ) by {
        assert(sound::<F, D>(format, alike, rest.reading(i), grown[i]));
    }
    assert(prospects::<F, D>(format, next, grown) =~= prospects::<F, D>(format, rest, grown));
    lemma_gives::<F, D>(format, alike, next, grown, finished);
}

/// Where a group that the transport abandoned was the last at hand, nothing is left: the end
/// of the track is told, or what follows is waited for, beyond that group.
pub proof fn law_a_last_abandoned_group_leaves_nothing<F: Container, D: FrameDecrypter>(
    format: &F,
    alike: Alike<D::State>,
    state: StateOf<D>,
)
    requires
        leads::<F, D>(format, alike, state, Seq::empty()),
        state.pending.len() == 1,
        state.pending[0].items.len() == 0,
        state.pending[0].group.frames.len() == 0,
        state.pending[0].group.aborted is Some,
        !state.pending[0].group.finished,
        state.current < u64::MAX,
    ensures
        ({
            let (next, outcome) = event::<F, D>(format, state);
            &&& outcome == (if state.track.closed is Some {
                Poll::Ready(Ok::<Option<EventView>, Error>(None))
            } else {
                Poll::Pending
            })
            &&& next.pending.len() == 0
            &&& next.current == state.current + 1
            &&& next.rewind == state.rewind
            &&& next.end == state.end
        }),
{
    let finished = state.track.closed is Some;
    let (_, rest) = lemma_leads::<F, D>(format, alike, state, Seq::empty());
    let checked = detected::<F, D>(format, state).0;
    let at = checked.reading(0);
    let (after, taken) = delivery::<F, D>(format, at);
    assert(after.buffer =~= at.buffer);
    assert(taken matches Poll::Ready(Err(_)));
    let next = checked.moved(0, after).evicted();
    assert(turn::<F, D>(format, state, finished) == Turn::Again(next));
    lemma_nothing_left::<F, D>(format, next, finished);
}

/// The error of a wire frame that cannot be decoded is told, once what came before it was
/// delivered. The group stays.
pub proof fn law_a_broken_frame_is_told<F: Container, D: FrameDecrypter>(
    format: &F,
    state: StateOf<D>,
    seen: Seq<Seq<FrameView>>,
    error: Error,
)
    requires
        leads::<F, D>(format, unprotected::<D::State>(), state, seen),
        state.decrypter is None,
        state.pending[0].items.len() == 0,
        state.pending[0].group.frames.len() > 0,
        state.pending[0].group.aborted is None,
        format.decoded(
            ReadFrameView {
                sequence_number: state.pending[0].group.read,
                timestamp: state.pending[0].group.frames[0].timestamp,
                payload: state.pending[0].group.frames[0].payload,
            },
        ) == Err::<Seq<FrameView>, Error>(error),
    ensures
        ({
            let (next, outcome) = event::<F, D>(format, state);
            &&& outcome == Poll::Ready(Err::<Option<EventView>, Error>(error))
            &&& next.pending.len() == state.pending.len()
            &&& next.pending[0].group.sequence == state.pending[0].group.sequence
            &&& next.rewind == state.rewind
            &&& next.end == state.end
            &&& next.current == state.current
        }),
{
    let finished = state.track.closed is Some;
    let (grown, rest) = lemma_leads::<F, D>(
        format,
        unprotected::<D::State>(),
        state,
        seen,
    );
    let checked = detected::<F, D>(format, state).0;
    let at = checked.reading(0);
    assert(at.decrypter is None);
    let (after, taken) = delivery::<F, D>(format, at);
    assert(taken == Poll::Ready(Err::<Option<ItemView>, Error>(error)));
    assert(after.buffer.group == at.buffer.group.popped());
    let moved = checked.moved(0, after);
    assert(turn::<F, D>(format, state, finished) == Turn::Done(
        moved,
        Poll::Ready(Err::<Option<EventView>, Error>(error)),
    ));
}

/// A group that is empty in the end was so from the start.
proof fn lemma_empty_whole<F: Container, D: FrameDecrypter>(
    format: &F,
    at: Reading<D::State>,
)
    ensures
        decode_all::<F, D>(format, at).0.buffer.empty ==> at.buffer.empty && decode_once::<F, D>(
            format,
            at,
        ).1 != Poll::Ready(Ok::<bool, Error>(true)),
    decreases at.buffer.group.frames.len(),
{
    let (next, result) = decode_once::<F, D>(format, at);
    if result == Poll::Ready(Ok::<bool, Error>(true)) {
        lemma_empty_whole::<F, D>(format, next);
    }
}

/// Once the track has ended and no media is left of it, an empty group is reached across a
/// gap too: its end is told, and the break that it declares is counted.
pub proof fn law_a_trailing_break_is_reached<F: Container, D: FrameDecrypter>(
    format: &F,
    alike: Alike<D::State>,
    state: StateOf<D>,
    seen: Seq<Seq<FrameView>>,
)
    requires
        poised::<F, D>(format, alike, state, seen),
        state.track.closed is Some,
        nothing_ahead(format, prospects::<F, D>(format, state, seen), 0),
        state.pending[0].group.sequence > cursor(
            format,
            state,
            prospects::<F, D>(format, state, seen),
        ),
        declares_break(prospects::<F, D>(format, state, seen)[0]),
        prospects::<F, D>(format, state, seen)[0].whole.items.len() == 0,
        state.pending[0].group.finished,
    ensures
        ({
            let (next, outcome) = event::<F, D>(format, state);
            let breaks = state.rewind.live_edge is Some;
            &&& outcome == Poll::Ready(Ok::<Option<EventView>, Error>(Some(EventView::GroupEnd)))
            &&& next.pending.len() == state.pending.len() - 1
            &&& next.rewind == rewind_broken(
                state.rewind,
                if breaks {
                    1
                } else {
                    0
                },
            )
        }),
{
    let shown = prospects::<F, D>(format, state, seen);
    let (grown, ready) = lemma_begins::<F, D>(format, alike, state, seen);
    assert(ready.pending[0].group.sequence == state.pending[0].group.sequence);
    let (last, looked, view) = lemma_gap_view::<F, D>(
        format,
        alike,
        ready,
        grown,
        true,
        None::<Ahead>,
    );
    assert(looked.pending[0].group.sequence == ready.pending[0].group.sequence);
    assert(prospects::<F, D>(format, looked, last)[0].whole == shown[0].whole);
    assert(sound::<F, D>(format, alike, looked.reading(0), last[0]));
    lemma_empty_whole::<F, D>(format, looked.reading(0));
    lemma_sound_once::<F, D>(format, alike, looked.reading(0), last[0]);
    assert(looked.pending[0] == shown[0].whole);
    assert(first_above(looked.pending, 0, looked.current) == 0);
    let next = looked.advanced(0);
    assert(turn::<F, D>(format, ready, true) == Turn::Again(next));
    lemma_skipped::<F, D>(format, alike, ready, looked, last, shown, 0, 0);
    assert(looked.pending.skip(0) =~= looked.pending);
    assert(looked.skipped(0, 0) == next);
    assert(run::<F, D>(format, ready, true) == run::<F, D>(format, next, true));
    lemma_ends::<F, D>(format, alike, next, last.skip(0), true);
}

/// Whether a group can never be read: it lies beyond the cursor, the transport abandoned it
/// before it was whole, and no media of it is held.
pub open spec fn is_lost(buffer: BufferView, current: u64) -> bool {
    &&& buffer.group.sequence > current
    &&& buffer.group.aborted is Some
    &&& !(buffer.group.finished && buffer.group.read >= buffer.group.written)
    &&& forall|i: int| 0 <= i < buffer.items.len() ==> #[trigger] buffer.items[i] is End
}

/// Groups that can never be read are let go, and no others.
pub proof fn law_only_lost_groups_are_let_go<S>(state: ConsumerView<S>)
    ensures
        forall|i: int|
            0 <= i < state.pending.len() && !is_lost(#[trigger] state.pending[i], state.current)
                ==> state.reaped().pending.contains(state.pending[i]),
        forall|i: int|
            0 <= i < state.reaped().pending.len() ==> !is_lost(
                #[trigger] state.reaped().pending[i],
                state.current,
            ),
        state.reaped() == (ConsumerView { pending: state.reaped().pending, ..state }),
{
    let keep = readable(state.current);
    let kept = state.reaped().pending;
    assert forall|i: int|
        0 <= i < state.pending.len() && !is_lost(
            #[trigger] state.pending[i],
            state.current,
        ) implies kept.contains(state.pending[i]) by {
        let buffer = state.pending[i];
        lemma_lost(buffer, state.current);
        state.pending.lemma_filter_contains(keep, i);
    }
    assert forall|i: int| 0 <= i < kept.len() implies !is_lost(
        #[trigger] kept[i],
        state.current,
    ) by {
        state.pending.lemma_filter_pred(keep, i);
        lemma_lost(kept[i], state.current);
    }
}

proof fn lemma_lost(buffer: BufferView, current: u64)
    ensures
        is_lost(buffer, current) == !readable(current)(buffer),
{
    if holds_media(buffer.items) {
        let i = choose|i: int|
            0 <= i < buffer.items.len() && #[trigger] buffer.items[i] is Frame;
        assert(!(buffer.items[i] is End));
    } else {
        assert forall|i: int| 0 <= i < buffer.items.len() implies #[trigger] buffer.items[
            i
        ] is End by {
            assert(!(buffer.items[i] is Frame));
        }
    }
}

/// Whether a consumer takes a group that arrives: one at or beyond the cursor. Around a
/// rewind, one beyond the group that carried the live edge which was left, as long as its
/// number does not tell which epoch it is of, or it is at or beyond the cursor too.
pub open spec fn admits<S>(state: ConsumerView<S>, sequence: u64) -> bool {
    match state.rewind.boundary {
        Some(reset) => sequence > reset.prev_max && (sequence < reset.group || sequence
            >= state.current),
        None => sequence >= state.current,
    }
}

/// How many of the groups a consumer takes.
pub open spec fn admitted<S>(state: ConsumerView<S>, arrived: Seq<GroupView>) -> nat
    decreases arrived.len(),
{
    if arrived.len() == 0 {
        0
    } else {
        admitted(state, arrived.drop_first()) + (if admits(state, arrived[0].sequence) {
            1nat
        } else {
            0nat
        })
    }
}

proof fn lemma_admitted<S>(a: ConsumerView<S>, b: ConsumerView<S>, arrived: Seq<GroupView>)
    requires
        a.current == b.current,
        a.rewind == b.rewind,
    ensures
        admitted(a, arrived) == admitted(b, arrived),
    decreases arrived.len(),
{
    if arrived.len() > 0 {
        lemma_admitted(a, b, arrived.drop_first());
    }
}

proof fn lemma_place_fits(pending: Seq<BufferView>, sequence: u64)
    ensures
        0 <= insertion_point(pending, sequence) <= pending.len(),
    decreases pending.len(),
{
    if pending.len() > 0 {
        lemma_place_fits(pending.drop_first(), sequence);
    }
}

/// Of the groups that arrive, a consumer takes those that it can still read, each of them
/// once and with nothing of it decoded, and leaves those at hand as they are. Late ones are
/// dropped.
pub proof fn law_arriving_groups_are_taken<S>(state: ConsumerView<S>)
    ensures
        ({
            let next = state.received();
            let arrived = state.track.arrived;
            &&& next.pending.len() == state.pending.len() + admitted(state, arrived)
            &&& forall|i: int|
                0 <= i < state.pending.len() ==> next.pending.contains(
                    #[trigger] state.pending[i],
                )
            &&& forall|k: int|
                0 <= k < arrived.len() && admits(state, (#[trigger] arrived[k]).sequence)
                    ==> next.pending.contains(BufferView::over(arrived[k]))
            &&& forall|i: int|
                0 <= i < next.pending.len() ==> state.pending.contains(
                    #[trigger] next.pending[i],
                ) || exists|k: int|
                    0 <= k < arrived.len() && admits(state, (#[trigger] arrived[k]).sequence)
                        && next.pending[i] == BufferView::over(arrived[k])
            &&& next.current == state.current
            &&& next.rewind == state.rewind
            &&& next.track.arrived.len() == 0
        }),
    decreases state.track.arrived.len(),
{
    let arrived = state.track.arrived;
    if arrived.len() > 0 {
        let group = arrived[0];
        let tail = arrived.drop_first();
        let rest = ConsumerView {
            track: SubscriberView { arrived: tail, ..state.track },
            ..state.with_group(group)
        };
        law_arriving_groups_are_taken(rest);
        lemma_admitted(state, rest, tail);
        let next = state.received();
        assert(next == rest.received());
        let index = insertion_point(state.pending, group.sequence);
        let fresh = BufferView::over(group);
        let taken = admits(state, group.sequence);
        assert(taken == !state.discards(group.sequence));
        lemma_place_fits(state.pending, group.sequence);
        if taken {
            assert(rest.pending == state.pending.insert(index, fresh));
            assert(rest.pending[index] == fresh);
        }
        assert forall|i: int| 0 <= i < state.pending.len() implies next.pending.contains(
            #[trigger] state.pending[i],
        ) by {
            let j = if taken && i >= index {
                i + 1
            } else {
                i
            };
            assert(rest.pending[j] == state.pending[i]);
        }
        assert forall|k: int|
            0 <= k < arrived.len() && admits(
                state,
                (#[trigger] arrived[k]).sequence,
            ) implies next.pending.contains(BufferView::over(arrived[k])) by {
            if k > 0 {
                assert(tail[k - 1] == arrived[k]);
                assert(admits(rest, tail[k - 1].sequence));
            }
        }
        assert forall|i: int| 0 <= i < next.pending.len() implies state.pending.contains(
            #[trigger] next.pending[i],
        ) || exists|k: int|
            0 <= k < arrived.len() && admits(state, (#[trigger] arrived[k]).sequence)
                && next.pending[i] == BufferView::over(arrived[k]) by {
            let buffer = next.pending[i];
            if rest.pending.contains(buffer) {
                let j = choose|j: int| 0 <= j < rest.pending.len() && rest.pending[j] == buffer;
                if taken && j == index {
                    assert(admits(state, arrived[0].sequence));
                } else {
                    let at = if taken && j > index {
                        j - 1
                    } else {
                        j
                    };
                    assert(state.pending[at] == buffer);
                }
            } else {
                let k = choose|k: int|
                    0 <= k < tail.len() && admits(rest, (#[trigger] tail[k]).sequence) && buffer
                        == BufferView::over(tail[k]);
                assert(arrived[k + 1] == tail[k]);
                assert(admits(state, arrived[k + 1].sequence));
            }
        }
    }
}

/// A consumer begins with nothing read, at the group that the subscription names, and waits
/// no longer than either the subscription or the publisher allows.
pub proof fn law_a_consumer_begins_at_its_start<S>(track: SubscriberView)
    ensures
        ({
            let state = ConsumerView::<S>::begun(track);
            let (own, theirs) = (track.subscription.max_age.nanos, track.info.max_age.nanos);
            &&& state.max_age.nanos <= own && state.max_age.nanos <= theirs
            &&& state.max_age.nanos == own || state.max_age.nanos == theirs
            &&& track.subscription.start matches Some(start) ==> state.current == start
                && !state.startup
            &&& track.subscription.start is None ==> state.startup && forall|sequence: u64|
                #[trigger] admits(state, sequence)
            &&& state.rewind.live_edge is None && state.rewind.boundary is None
            &&& state.rewind.discontinuity == 0 && state.end is None
        }),
{
}

} // verus!
