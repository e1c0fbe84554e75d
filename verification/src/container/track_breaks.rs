//! What breaks the timeline of a track, and how often.
//!
//! A publisher breaks the timeline by an empty group, or by media that lies before what was
//! delivered of an earlier group. Each break counts once, and what follows it is judged
//! without what came before it.
use vstd::prelude::*;

use super::buffer::{decode_one, BufferView};
use super::group_live::has_media;
use super::group_runs::{all_seen, is_least, lemma_valid_part, valid_frames};
use super::progress::{
    beyond_cursor, beyond_edge, lemma_classified, lemma_filter_whole, lemma_first_timed,
    lemma_outlook, lemma_turn,
};
use super::schedule::{
    classified, earliest_at, event, find_reset, front, latched, readable, run, sequences, settled,
    survives, turn, ConsumerView, EventView, Reset, Rewind, StateOf, Turn,
};
use super::track_laws::event_of;
use super::track_live::{
    all_sound, lemma_glance, lemma_looked_order, lemma_sound_one, looked_at, none_before, prospects,
    sound, underway, Prospect,
};
use super::track_pace::{
    cursor, declares_break, law_an_ended_group_is_passed, lemma_gives, lemma_one_least, poised,
    rewind_after,
};
use super::track_runs::{lemma_not_before, Alike};
use super::{Container, FrameDecrypter, FrameView};
use crate::error::Error;
use crate::net::SubscriberView;
use crate::poll::Poll;
use crate::time::{law_timestamps_are_totally_ordered, Timestamp};

verus! {

/// Without a live edge no turn breaks the timeline.
proof fn lemma_turn_unbroken<F: Container, D: FrameDecrypter>(
    format: &F,
    state: StateOf<D>,
    finished: bool,
)
    requires
        state.rewind.live_edge is None,
    ensures
        match turn::<F, D>(format, state, finished) {
            Turn::Again(next) => next.rewind == state.rewind && next.end == state.end,
            Turn::Done(next, _) => {
                &&& next.rewind == (Rewind { live_edge: next.rewind.live_edge, ..state.rewind })
                &&& next.end == state.end
            },
        },
{
    let calm = settled::<F, D>(format, state);
    if let Some(boundary) = state.rewind.boundary {
        lemma_classified::<F, D>(format, state, boundary, 0);
    }
    let (read, result) = front::<F, D>(format, calm);
    if result is None {
        lemma_outlook::<F, D>(format, read);
    }
}

proof fn lemma_run_unbroken<F: Container, D: FrameDecrypter>(
    format: &F,
    state: StateOf<D>,
    finished: bool,
)
    requires
        state.rewind.live_edge is None,
    ensures
        ({
            let next = run::<F, D>(format, state, finished).0;
            &&& next.rewind == (Rewind { live_edge: next.rewind.live_edge, ..state.rewind })
            &&& next.end == state.end
        }),
    decreases beyond_edge(state), state.pending.len(), beyond_cursor(state),
{
    lemma_turn::<F, D>(format, state, finished);
    lemma_turn_unbroken::<F, D>(format, state, finished);
    if let Turn::Again(next) = turn::<F, D>(format, state, finished) {
        lemma_run_unbroken::<F, D>(format, next, finished);
    }
}

proof fn lemma_received_rewind<S>(state: ConsumerView<S>)
    ensures
        state.received().rewind == state.rewind,
        state.received().end == state.end,
    decreases state.track.arrived.len(),
{
    if state.track.arrived.len() > 0 {
        lemma_received_rewind(
            ConsumerView {
                track: SubscriberView {
                    arrived: state.track.arrived.drop_first(),
                    ..state.track
                },
                ..state.with_group(state.track.arrived[0])
            },
        );
    }
}

/// Where there is no live edge, because nothing was delivered since the track began or since
/// a declared break, nothing breaks the timeline, whatever arrived: there is nothing that it
/// could be measured against.
pub proof fn law_nothing_breaks_without_a_live_edge<F: Container, D: FrameDecrypter>(
    format: &F,
    state: StateOf<D>,
)
    requires
        state.rewind.live_edge is None,
    ensures
        ({
            let next = event::<F, D>(format, state).0;
            &&& next.rewind.discontinuity == state.rewind.discontinuity
            &&& next.rewind.boundary == state.rewind.boundary
            &&& next.end == state.end
        }),
{
    lemma_received_rewind(state);
    let taken = state.received();
    if taken.startup {
        lemma_first_timed::<F, D>(format, taken, 0, None);
    }
    let ready = latched::<F, D>(format, taken).reaped();
    lemma_run_unbroken::<F, D>(format, ready, taken.track.rest() is Ready);
}

/// A declared break counts once. Whatever has arrived by the next event, media from before
/// the live edge that was left among it, that event counts no other.
pub proof fn law_a_declared_break_counts_once<F: Container, D: FrameDecrypter>(
    format: &F,
    alike: Alike<D::State>,
    state: StateOf<D>,
    seen: Seq<Seq<FrameView>>,
    later: StateOf<D>,
)
    requires
        poised::<F, D>(format, alike, state, seen),
        state.pending[0].group.sequence <= cursor(
            format,
            state,
            prospects::<F, D>(format, state, seen),
        ),
        state.pending[0].group.finished,
        prospects::<F, D>(format, state, seen)[0].whole.items.len() == 0,
        declares_break(prospects::<F, D>(format, state, seen)[0]),
        state.rewind.live_edge is Some,
        state.rewind.discontinuity < u64::MAX,
        later.rewind == event::<F, D>(format, state).0.rewind,
    ensures
        later.rewind.discontinuity == state.rewind.discontinuity + 1,
        event::<F, D>(format, later).0.rewind.discontinuity == state.rewind.discontinuity + 1,
        event::<F, D>(format, later).0.rewind.boundary is None,
{
    law_an_ended_group_is_passed::<F, D>(format, alike, state, seen);
    law_nothing_breaks_without_a_live_edge::<F, D>(format, later);
}

/// Where the publisher rewound, it is found: by the last group that starts before the live
/// edge.
proof fn lemma_found<F: Container, D: FrameDecrypter>(
    format: &F,
    alike: Alike<D::State>,
    state: StateOf<D>,
    seen: Seq<Seq<FrameView>>,
    count: int,
    prev_max: u64,
    edge: Timestamp,
    at: int,
    start: Timestamp,
) -> (grown: Seq<Seq<FrameView>>)
    requires
        all_sound::<F, D>(format, alike, state, seen),
        0 <= at < count <= state.pending.len(),
        state.ordered(),
        state.pending[at].group.sequence > prev_max,
        is_least(format, prospects::<F, D>(format, state, seen)[at].opening, Some(start)),
        valid_frames(prospects::<F, D>(format, state, seen)[at].opening),
        start.precedes(edge),
        forall|i: int|
            at < i < count ==> none_before(
                format,
                (#[trigger] prospects::<F, D>(format, state, seen)[i]).total,
                edge,
            ),
    ensures
        ({
            let (next, found) = find_reset::<F, D>(format, state, count, prev_max, edge);
            let group = state.pending[at].group.sequence;
            &&& found == Some(Reset { prev_max, group, timestamp: start })
            &&& all_sound::<F, D>(format, alike, next, grown)
            &&& looked_at(state, next)
            &&& prospects::<F, D>(format, next, grown) == prospects::<F, D>(format, state, seen)
        }),
    decreases count,
{
    let shown = prospects::<F, D>(format, state, seen);
    let (next, found) = earliest_at::<F, D>(format, state, count - 1);
    let grown = lemma_glance::<F, D>(format, alike, state, seen, count - 1);
    assert(state.pending[at].group.sequence <= state.pending[count - 1].group.sequence);
    if count - 1 == at {
        lemma_one_least(format, shown[at].opening, Some(start), found);
        grown
    } else {
        assert(none_before(format, shown[count - 1].total, edge));
        lemma_looked_order(state, next);
        assert(next.pending[at].group.sequence == state.pending[at].group.sequence);
        let last = lemma_found::<F, D>(
            format,
            alike,
            next,
            grown,
            count - 1,
            prev_max,
            edge,
            at,
            start,
        );
        let end = find_reset::<F, D>(format, next, count - 1, prev_max, edge).0;
        assert forall|i: int| 0 <= i < state.pending.len() implies (
        #[trigger] end.pending[i]).group.sequence == state.pending[i].group.sequence by {
            assert(next.pending[i].group.sequence == state.pending[i].group.sequence);
        }
        last
    }
}

proof fn lemma_filter_none(pending: Seq<BufferView>, keep: spec_fn(BufferView) -> bool)
    requires
        forall|i: int| 0 <= i < pending.len() ==> !keep(#[trigger] pending[i]),
    ensures
        pending.filter(keep) == Seq::<BufferView>::empty(),
    decreases pending.len(),
{
    reveal(Seq::filter);
    if pending.len() > 0 {
        lemma_filter_none(pending.drop_last(), keep);
    }
}

proof fn lemma_filter_tail(pending: Seq<BufferView>, keep: spec_fn(BufferView) -> bool, at: int)
    requires
        0 <= at <= pending.len(),
        forall|i: int| 0 <= i < at ==> !keep(#[trigger] pending[i]),
        forall|i: int| at <= i < pending.len() ==> keep(#[trigger] pending[i]),
    ensures
        pending.filter(keep) == pending.skip(at),
{
    let head = pending.take(at);
    let tail = pending.skip(at);
    assert(head + tail =~= pending);
    Seq::filter_distributes_over_add(head, tail, keep);
    lemma_filter_none(head, keep);
    lemma_filter_whole(tail, keep);
    assert(Seq::<BufferView>::empty() + tail =~= tail);
}

/// What is known of the continuity of the timeline after a rewind was found: the media that
/// gave it away is the live edge, and one more break is counted.
pub open spec fn rewind_found(rewind: Rewind, reset: Reset) -> Rewind {
    Rewind {
        live_edge: Some((reset.group, reset.timestamp)),
        boundary: Some(reset),
        discontinuity: if rewind.discontinuity < u64::MAX {
            (rewind.discontinuity + 1) as u64
        } else {
            u64::MAX
        },
    }
}

/// The turn that finds a rewind.
#[verifier::spinoff_prover]
proof fn lemma_restarts<F: Container, D: FrameDecrypter>(
    format: &F,
    alike: Alike<D::State>,
    state: StateOf<D>,
    seen: Seq<Seq<FrameView>>,
    finished: bool,
    at: int,
    start: Timestamp,
) -> (r: (Seq<Seq<FrameView>>, StateOf<D>))
    requires
        state.ordered(),
        all_sound::<F, D>(format, alike, state, seen),
        rewinds::<F, D>(format, state, prospects::<F, D>(format, state, seen), at, start),
        valid_frames(prospects::<F, D>(format, state, seen)[at].opening),
        forall|i: int|
            0 <= i < at ==> (#[trigger] state.pending[i]).group.sequence
                <= state.rewind.live_edge->Some_0.0,
    ensures
        ({
            let (grown, next) = r;
            let shown = prospects::<F, D>(format, state, seen);
            let group = state.pending[at].group.sequence;
            let prev_max = state.rewind.live_edge->Some_0.0;
            &&& turn::<F, D>(format, state, finished) == Turn::Again(next)
            &&& underway::<F, D>(format, alike, next, grown)
            &&& prospects::<F, D>(format, next, grown) == shown.skip(at)
            &&& next == (ConsumerView {
                pending: next.pending,
                decrypter: next.decrypter,
                current: group,
                rewind: rewind_found(state.rewind, Reset { prev_max, group, timestamp: start }),
                end: None,
                ..state
            })
            &&& next.pending.len() == state.pending.len() - at
            &&& next.pending[0].group.sequence == group
        }),
{
    let shown = prospects::<F, D>(format, state, seen);
    let (prev_max, edge) = state.rewind.live_edge->Some_0;
    let count = state.pending.len() as int;
    let known = lemma_found::<F, D>(
        format,
        alike,
        state,
        seen,
        count,
        prev_max,
        edge,
        at,
        start,
    );
    let (looked, found) = find_reset::<F, D>(format, state, count, prev_max, edge);
    let group = state.pending[at].group.sequence;
    let reset = Reset { prev_max, group, timestamp: start };
    let keep = survives(reset);
    assert forall|i: int| 0 <= i < at implies !keep(#[trigger] looked.pending[i]) by {
        assert(state.pending[i].group.sequence <= prev_max);
    }
    assert forall|i: int| at <= i < looked.pending.len() implies keep(
        #[trigger] looked.pending[i],
    ) by {
        assert(looked.pending[i].group.sequence == state.pending[i].group.sequence);
        assert(state.pending[at].group.sequence <= state.pending[i].group.sequence);
    }
    lemma_filter_tail(looked.pending, keep, at);
    let next = looked.restarted(reset);
    let grown = known.skip(at);
    assert(looked.pending[at].group.sequence == group);
    lemma_looked_order(state, looked);
    let after = prospects::<F, D>(format, next, grown);
    assert forall|i: int| 0 <= i < next.pending.len() implies #[trigger] next.reading(i)
        == looked.reading(i + at) by {}
    assert forall|i: int| 0 <= i < next.pending.len() implies sound::<F, D>(
        format,
        alike,
        #[trigger] next.reading(i),
        grown[i],
    ) by {
        assert(sound::<F, D>(format, alike, looked.reading(i + at), known[i + at]));
    }
    assert forall|i: int| 0 <= i < after.len() implies #[trigger] after[i] == shown.skip(at)[i] by {
        assert(next.reading(i) == looked.reading(i + at));
        assert(prospects::<F, D>(format, looked, known)[i + at] == shown[i + at]);
    }
    assert(after =~= shown.skip(at));
    assert forall|i: int, j: int| 0 <= i < j < next.pending.len() implies (
    #[trigger] next.pending[i]).group.sequence <= (#[trigger] next.pending[j]).group.sequence by {
        assert(looked.pending[i + at].group.sequence <= looked.pending[j + at].group.sequence);
    }
    assert forall|i: int| 0 <= i < next.pending.len() implies (
    #[trigger] next.pending[i]).group.sequence >= group by {
        assert(next.pending[0].group.sequence <= next.pending[i].group.sequence);
    }
    lemma_one_least(
        format,
        shown[at].opening,
        Some(start),
        Some(start),
    );
    law_timestamps_are_totally_ordered(start, edge);
    assert forall|i: int|
        0 <= i < next.pending.len() && (#[trigger] next.pending[i]).group.sequence
            > group implies none_before(format, after[i].total, start) by {
        assert(i > 0);
        let frames = shown[i + at].total;
        assert(after[i] == shown.skip(at)[i]);
        assert(none_before(format, frames, edge));
        assert(sound::<F, D>(format, alike, state.reading(i + at), seen[i + at]));
        assert forall|k: int| 0 <= k < frames.len() && format.bound(#[trigger] frames[k]) is None
            implies !frames[k].timestamp.precedes(start) by {
            lemma_not_before(frames[k].timestamp, edge, start);
        }
    }
    (grown, next)
}

/// Whether the group at `at` gives a rewind away: it lies beyond the one that carried the
/// live edge, it starts before the live edge, at `start`, and no media of a group after it
/// does.
pub open spec fn rewinds<F: Container, D: FrameDecrypter>(
    format: &F,
    state: StateOf<D>,
    shown: Seq<Prospect>,
    at: int,
    start: Timestamp,
) -> bool {
    &&& 0 <= at < state.pending.len()
    &&& state.rewind.live_edge matches Some((prev_max, edge))
    &&& edge.valid()
    &&& state.pending[at].group.sequence > prev_max
    &&& is_least(format, shown[at].opening, Some(start))
    &&& start.precedes(edge)
    &&& forall|i: int|
        at < i < state.pending.len() ==> none_before(format, (#[trigger] shown[i]).total, edge)
}

/// A rewind is one break of the timeline. Where a group beyond the one that carried the live
/// edge starts before the live edge, the groups of the epoch that was left are dropped, the
/// end of the audio is forgotten, the break is counted once, and reading goes on with the
/// group that gave it away.
///
/// The groups before it at hand are of the old epoch by their number.
pub proof fn law_a_rewind_counts_once<F: Container, D: FrameDecrypter>(
    format: &F,
    alike: Alike<D::State>,
    state: StateOf<D>,
    seen: Seq<Seq<FrameView>>,
    at: int,
    start: Timestamp,
)
    requires
        state.track.arrived.len() == 0,
        !(state.track.closed matches Some(Err(_))),
        !state.startup,
        state.ordered(),
        all_sound::<F, D>(format, alike, state, seen),
        rewinds::<F, D>(format, state, prospects::<F, D>(format, state, seen), at, start),
        forall|i: int|
            0 <= i < at ==> (#[trigger] state.pending[i]).group.sequence
                <= state.rewind.live_edge->Some_0.0,
        prospects::<F, D>(format, state, seen)[at].whole.items.len() > 0,
    ensures
        ({
            let (next, outcome) = event::<F, D>(format, state);
            let item = prospects::<F, D>(format, state, seen)[at].whole.items[0];
            let group = state.pending[at].group.sequence;
            let prev_max = state.rewind.live_edge->Some_0.0;
            &&& outcome == Poll::Ready(Ok::<Option<EventView>, Error>(Some(event_of(item))))
            &&& next.pending.len() == state.pending.len() - at
            &&& next.pending[0].group.sequence == group
            &&& next.current == group
            &&& next.rewind == rewind_after(
                rewind_found(state.rewind, Reset { prev_max, group, timestamp: start }),
                group,
                item,
            )
            &&& next.end is None
        }),
{
    let finished = state.track.closed is Some;
    let shown = prospects::<F, D>(format, state, seen);
    assert(state.received() == state);
    let keep = readable(state.current);
    assert forall|i: int| 0 <= i < state.pending.len() implies keep(
        #[trigger] state.pending[i],
    ) by {
        assert(sound::<F, D>(format, alike, state.reading(i), seen[i]));
    }
    lemma_filter_whole(state.pending, keep);
    assert(state.reaped() == state);
    assert(sound::<F, D>(format, alike, state.reading(at), seen[at]));
    lemma_sound_one::<F, D>(format, alike, state.reading(at), seen[at]);
    lemma_valid_part(
        shown[at].opening,
        all_seen::<F, D>(format, decode_one::<F, D>(format, state.reading(at)).0),
    );
    let (grown, next) = lemma_restarts::<F, D>(
        format,
        alike,
        state,
        seen,
        finished,
        at,
        start,
    );
    assert(run::<F, D>(format, state, finished) == run::<F, D>(format, next, finished));
    assert(prospects::<F, D>(format, next, grown)[0] == shown[at]);
    lemma_gives::<F, D>(format, alike, next, grown, finished);
}

/// Whether a group around a rewind turns out to be of the epoch that was left: its number
/// does not tell, and no media of its start lies before the media that gave the rewind away.
pub open spec fn turns_out_stale<F: Container>(
    format: &F,
    reset: Reset,
    number: u64,
    shown: Prospect,
) -> bool {
    &&& reset.prev_max < number < reset.group
    &&& has_media(format, shown.total)
    &&& none_before(format, shown.opening, reset.timestamp)
}

/// The numbers of the groups that are left once those of the old epoch were dropped.
pub open spec fn lasting<F: Container>(
    format: &F,
    reset: Reset,
    numbers: Seq<u64>,
    shown: Seq<Prospect>,
) -> Seq<u64>
    decreases numbers.len(),
{
    if numbers.len() == 0 {
        Seq::empty()
    } else {
        let rest = lasting(format, reset, numbers.drop_first(), shown.drop_first());
        if turns_out_stale(format, reset, numbers[0], shown[0]) {
            rest
        } else {
            seq![numbers[0]] + rest
        }
    }
}

proof fn lemma_stale<F: Container>(
    format: &F,
    frames: Seq<FrameView>,
    start: Timestamp,
    mark: Timestamp,
)
    requires
        valid_frames(frames),
        is_least(format, frames, Some(start)),
        mark.valid(),
    ensures
        none_before(format, frames, mark) == !start.precedes(mark),
{
    lemma_one_least(format, frames, Some(start), Some(start));
    if !start.precedes(mark) {
        assert forall|k: int| 0 <= k < frames.len() && format.bound(#[trigger] frames[k]) is None
            implies !frames[k].timestamp.precedes(mark) by {
            lemma_not_before(frames[k].timestamp, start, mark);
        }
    }
}

#[verifier::spinoff_prover]
proof fn lemma_judged<F: Container, D: FrameDecrypter>(
    format: &F,
    alike: Alike<D::State>,
    state: StateOf<D>,
    seen: Seq<Seq<FrameView>>,
    reset: Reset,
    index: int,
)
    requires
        all_sound::<F, D>(format, alike, state, seen),
        reset.timestamp.valid(),
        0 <= index <= state.pending.len(),
    ensures
        sequences(classified::<F, D>(format, state, reset, index).pending) == sequences(
            state.pending,
        ).take(index) + lasting(
            format,
            reset,
            sequences(state.pending).skip(index),
            prospects::<F, D>(format, state, seen).skip(index),
        ),
    decreases state.pending.len() - index,
{
    let numbers = sequences(state.pending);
    let shown = prospects::<F, D>(format, state, seen);
    if index == state.pending.len() {
        assert(numbers.skip(index) =~= Seq::empty());
        assert(numbers.take(index) + Seq::<u64>::empty() =~= numbers);
    } else {
        let number = state.pending[index].group.sequence;
        let tail = lasting(format, reset, numbers.skip(index + 1), shown.skip(index + 1));
        assert(numbers.skip(index).drop_first() =~= numbers.skip(index + 1));
        assert(shown.skip(index).drop_first() =~= shown.skip(index + 1));
        assert(numbers.skip(index)[0] == number);
        if reset.verdict(number) is Some {
            lemma_judged::<F, D>(format, alike, state, seen, reset, index + 1);
            assert(numbers.take(index + 1) + tail =~= numbers.take(index) + (seq![number]
                + tail));
        } else {
            let (next, found) = earliest_at::<F, D>(format, state, index);
            let grown = lemma_glance::<F, D>(format, alike, state, seen, index);
            assert(sound::<F, D>(format, alike, state.reading(index), seen[index]));
            lemma_sound_one::<F, D>(format, alike, state.reading(index), seen[index]);
            lemma_valid_part(
                shown[index].opening,
                all_seen::<F, D>(format, decode_one::<F, D>(format, state.reading(index)).0),
            );
            if let Some(start) = found {
                lemma_stale(format, shown[index].opening, start, reset.timestamp);
            }
            assert(sequences(next.pending) =~= numbers) by {
                assert forall|i: int| 0 <= i < next.pending.len() implies #[trigger] sequences(
                    next.pending,
                )[i] == numbers[i] by {
                    assert(next.pending[i].group.sequence == state.pending[i].group.sequence);
                }
            }
            if found is Some && reset.stale(number, found->Some_0) {
                let kept = ConsumerView { pending: next.pending.remove(index), ..next };
                let known = grown.remove(index);
                assert forall|i: int| 0 <= i < kept.pending.len() implies #[trigger] kept.reading(
                    i,
                ) == next.reading(
                    if i < index {
                        i
                    } else {
                        i + 1
                    },
                ) by {}
                assert forall|i: int| 0 <= i < kept.pending.len() implies sound::<F, D>(
                    format,
                    alike,
                    #[trigger] kept.reading(i),
                    known[i],
                ) by {
                    let j = if i < index {
                        i
                    } else {
                        i + 1
                    };
                    assert(sound::<F, D>(format, alike, next.reading(j), grown[j]));
                }
                lemma_judged::<F, D>(format, alike, kept, known, reset, index);
                let after = prospects::<F, D>(format, kept, known);
                assert(sequences(kept.pending) =~= numbers.remove(index));
                assert(sequences(kept.pending).take(index) =~= numbers.take(index));
                assert(sequences(kept.pending).skip(index) =~= numbers.skip(index + 1));
                assert forall|i: int| index <= i < after.len() implies #[trigger] after[i]
                    == shown[i + 1] by {
                    assert(kept.reading(i) == next.reading(i + 1));
                    assert(prospects::<F, D>(format, next, grown)[i + 1] == shown[i + 1]);
                }
                assert(after.skip(index) =~= shown.skip(index + 1));
            } else {
                lemma_judged::<F, D>(format, alike, next, grown, reset, index + 1);
                assert(numbers.take(index + 1) + tail =~= numbers.take(index) + (seq![number]
                    + tail));
            }
        }
    }
}

/// Around a rewind the groups whose numbers do not tell which epoch they are of are judged
/// by where they start, once that is known: those that start before the media that gave the
/// rewind away stay, and the others are dropped. No other group is touched.
pub proof fn law_groups_around_a_rewind_are_judged<F: Container, D: FrameDecrypter>(
    format: &F,
    alike: Alike<D::State>,
    state: StateOf<D>,
    seen: Seq<Seq<FrameView>>,
    reset: Reset,
)
    requires
        all_sound::<F, D>(format, alike, state, seen),
        state.rewind.boundary == Some(reset),
        reset.timestamp.valid(),
    ensures
        sequences(settled::<F, D>(format, state).pending) == lasting(
            format,
            reset,
            sequences(state.pending),
            prospects::<F, D>(format, state, seen),
        ),
{
    lemma_judged::<F, D>(format, alike, state, seen, reset, 0);
    let numbers = sequences(state.pending);
    let shown = prospects::<F, D>(format, state, seen);
    assert(numbers.skip(0) =~= numbers);
    assert(shown.skip(0) =~= shown);
    let left = lasting(format, reset, numbers, shown);
    assert(numbers.take(0) + left =~= left);
}

} // verus!
