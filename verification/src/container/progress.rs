//! Every turn of a consumer uses something up.
//!
//! These are the measures by which the loops of a consumer end: a rewind leaves
//! fewer groups beyond the live edge, a skip leaves fewer groups, a jump leaves
//! fewer groups beyond the cursor, and a delivered item leaves less to deliver.
use vstd::prelude::*;

use super::buffer::{
    decode_all, decode_once, decode_one, delivery, earliest, latest, BufferView, Reading,
};
use super::schedule::{
    breaks, classified, decided, detected, earliest_at, event, find_reset, first_above,
    first_timed, front, last_timed, latched, latest_at, outlook, readable, run, sequences,
    settled, survives, turn, ConsumerView, Outlook, Reset, StateOf, Turn,
};
use super::{Container, FrameDecrypter};
use crate::error::Error;
use crate::net::SubscriberView;
use crate::poll::Poll;
use crate::time::Timestamp;

verus! {

/// How many of the sequence numbers lie above `floor`.
pub open spec fn above(numbers: Seq<u64>, floor: u64) -> nat
    decreases numbers.len(),
{
    if numbers.len() == 0 {
        0
    } else {
        above(numbers.drop_last(), floor) + (if numbers.last() > floor {
            1nat
        } else {
            0nat
        })
    }
}

/// The number of groups beyond the live edge, where there is one.
pub open spec fn beyond_edge<S>(state: ConsumerView<S>) -> nat {
    match state.rewind.live_edge {
        Some((group, _)) => above(sequences(state.pending), group),
        None => 0,
    }
}

/// The number of groups beyond the cursor.
pub open spec fn beyond_cursor<S>(state: ConsumerView<S>) -> nat {
    above(sequences(state.pending), state.current)
}

/// The number of wire frames not decoded yet.
pub open spec fn wires(pending: Seq<BufferView>) -> nat
    decreases pending.len(),
{
    if pending.len() == 0 {
        0
    } else {
        wires(pending.drop_last()) + pending.last().group.frames.len()
    }
}

/// The number of items decoded and not delivered.
pub open spec fn held(pending: Seq<BufferView>) -> nat
    decreases pending.len(),
{
    if pending.len() == 0 {
        0
    } else {
        held(pending.drop_last()) + pending.last().items.len()
    }
}

/// Whether `b` has less to deliver than `a`.
pub open spec fn less<S>(a: ConsumerView<S>, b: ConsumerView<S>) -> bool {
    ||| b.track.arrived.len() < a.track.arrived.len()
    ||| b.track.arrived.len() == a.track.arrived.len() && b.pending.len() < a.pending.len()
    ||| b.track.arrived.len() == a.track.arrived.len() && b.pending.len() == a.pending.len()
        && wires(b.pending) < wires(a.pending)
    ||| b.track.arrived.len() == a.track.arrived.len() && b.pending.len() == a.pending.len()
        && wires(b.pending) == wires(a.pending) && held(b.pending) < held(a.pending)
}

/// Whether `b` has no more to deliver than `a`.
pub open spec fn no_more<S>(a: ConsumerView<S>, b: ConsumerView<S>) -> bool {
    ||| less(a, b)
    ||| b.track.arrived.len() == a.track.arrived.len() && b.pending.len() == a.pending.len()
        && wires(b.pending) == wires(a.pending) && held(b.pending) == held(a.pending)
}

/// Whether a buffer either stayed as it was or had a wire frame decoded.
pub open spec fn decoded_on(a: BufferView, b: BufferView) -> bool {
    &&& b.group.sequence == a.group.sequence
    &&& b == a || b.group.frames.len() < a.group.frames.len()
}

proof fn lemma_decode_one<F: Container, D: FrameDecrypter>(format: &F, at: Reading<D::State>)
    ensures
        decoded_on(at.buffer, decode_one::<F, D>(format, at).0.buffer),
    decreases at.buffer.group.frames.len(),
{
    let (next, result) = decode_once::<F, D>(format, at);
    if result == Poll::Ready(Ok::<bool, Error>(true)) {
        lemma_decode_one::<F, D>(format, next);
    }
}

proof fn lemma_decode_all<F: Container, D: FrameDecrypter>(format: &F, at: Reading<D::State>)
    ensures
        decoded_on(at.buffer, decode_all::<F, D>(format, at).0.buffer),
    decreases at.buffer.group.frames.len(),
{
    let (next, result) = decode_once::<F, D>(format, at);
    if result == Poll::Ready(Ok::<bool, Error>(true)) {
        lemma_decode_all::<F, D>(format, next);
    }
}

/// Taking an item leaves less to take; finding none leaves no more.
pub proof fn lemma_delivery<F: Container, D: FrameDecrypter>(format: &F, at: Reading<D::State>)
    ensures
        ({
            let (next, result) = delivery::<F, D>(format, at);
            &&& next.buffer.group.sequence == at.buffer.group.sequence
            &&& result matches Poll::Ready(Ok(Some(_))) ==> {
                ||| next.buffer.group.frames.len() < at.buffer.group.frames.len()
                ||| next.buffer.group.frames.len() == at.buffer.group.frames.len()
                    && next.buffer.items.len() < at.buffer.items.len()
            }
            &&& !(result matches Poll::Ready(Ok(Some(_)))) ==> decoded_on(
                at.buffer,
                next.buffer,
            )
        }),
    decreases at.buffer.group.frames.len(),
{
    if at.buffer.items.len() == 0 {
        let (next, result) = decode_once::<F, D>(format, at);
        if result == Poll::Ready(Ok::<bool, Error>(true)) {
            lemma_delivery::<F, D>(format, next);
        }
    }
}

proof fn lemma_wires_update(pending: Seq<BufferView>, index: int, buffer: BufferView)
    requires
        0 <= index < pending.len(),
    ensures
        wires(pending.update(index, buffer)) == wires(pending)
            - pending[index].group.frames.len() + buffer.group.frames.len(),
        held(pending.update(index, buffer)) == held(pending) - pending[index].items.len()
            + buffer.items.len(),
    decreases pending.len(),
{
    let updated = pending.update(index, buffer);
    if index < pending.len() - 1 {
        lemma_wires_update(pending.drop_last(), index, buffer);
        assert(updated.drop_last() =~= pending.drop_last().update(index, buffer));
    } else {
        assert(updated.drop_last() =~= pending.drop_last());
    }
}

proof fn lemma_above_monotone(numbers: Seq<u64>, low: u64, high: u64)
    requires
        low <= high,
    ensures
        above(numbers, high) <= above(numbers, low),
    decreases numbers.len(),
{
    if numbers.len() > 0 {
        lemma_above_monotone(numbers.drop_last(), low, high);
    }
}

/// Raising the floor to one of the numbers above it leaves fewer above.
proof fn lemma_above_raised(numbers: Seq<u64>, index: int, floor: u64)
    requires
        0 <= index < numbers.len(),
        numbers[index] > floor,
    ensures
        above(numbers, numbers[index]) < above(numbers, floor),
    decreases numbers.len(),
{
    if index < numbers.len() - 1 {
        lemma_above_raised(numbers.drop_last(), index, floor);
    } else {
        lemma_above_monotone(numbers.drop_last(), floor, numbers[index]);
    }
}

proof fn lemma_above_remove(numbers: Seq<u64>, index: int, floor: u64)
    requires
        0 <= index < numbers.len(),
    ensures
        above(numbers.remove(index), floor) <= above(numbers, floor),
    decreases numbers.len(),
{
    let removed = numbers.remove(index);
    if index < numbers.len() - 1 {
        lemma_above_remove(numbers.drop_last(), index, floor);
        assert(removed.drop_last() =~= numbers.drop_last().remove(index));
    } else {
        assert(removed =~= numbers.drop_last());
    }
}

proof fn lemma_above_skip(numbers: Seq<u64>, count: int, floor: u64)
    requires
        0 <= count <= numbers.len(),
    ensures
        above(numbers.skip(count), floor) <= above(numbers, floor),
    decreases count,
{
    if count == 0 {
        assert(numbers.skip(0) =~= numbers);
    } else {
        lemma_above_skip(numbers, count - 1, floor);
        lemma_above_remove(numbers.skip(count - 1), 0, floor);
        assert(numbers.skip(count) =~= numbers.skip(count - 1).remove(0));
    }
}

/// What a filter leaves has no more groups above a floor; what it leaves whole is
/// unchanged.
proof fn lemma_filter(pending: Seq<BufferView>, keep: spec_fn(BufferView) -> bool, floor: u64)
    ensures
        above(sequences(pending.filter(keep)), floor) <= above(sequences(pending), floor),
        pending.filter(keep).len() <= pending.len(),
        pending.filter(keep).len() == pending.len() ==> pending.filter(keep) == pending,
    decreases pending.len(),
{
    reveal(Seq::filter);
    if pending.len() > 0 {
        let front = pending.drop_last();
        lemma_filter(front, keep, floor);
        let kept = pending.filter(keep);
        assert(sequences(pending).drop_last() =~= sequences(front));
        if keep(pending.last()) {
            assert(sequences(kept).drop_last() =~= sequences(front.filter(keep)));
            if kept.len() == pending.len() {
                assert(kept =~= pending);
            }
        }
    }
}

/// Whether `b` differs from `a` only by wire frames that were decoded.
pub open spec fn looked_on<S>(a: ConsumerView<S>, b: ConsumerView<S>) -> bool {
    &&& b == (ConsumerView { pending: b.pending, decrypter: b.decrypter, ..a })
    &&& b.pending.len() == a.pending.len()
    &&& forall|i: int|
        0 <= i < a.pending.len() ==> (#[trigger] b.pending[i]).group.sequence
            == a.pending[i].group.sequence
    &&& no_more(a, b)
}

/// What looking on leaves alone.
proof fn lemma_looked_on<S>(a: ConsumerView<S>, b: ConsumerView<S>)
    requires
        looked_on(a, b),
    ensures
        sequences(b.pending) == sequences(a.pending),
        beyond_edge(b) == beyond_edge(a),
        beyond_cursor(b) == beyond_cursor(a),
{
    assert(sequences(b.pending) =~= sequences(a.pending));
}

proof fn lemma_moved<S>(state: ConsumerView<S>, index: int, after: Reading<S>)
    requires
        0 <= index < state.pending.len(),
        decoded_on(state.pending[index], after.buffer),
    ensures
        looked_on(state, state.moved(index, after)),
{
    lemma_wires_update(state.pending, index, after.buffer);
}

pub proof fn lemma_earliest_at<F: Container, D: FrameDecrypter>(
    format: &F,
    state: StateOf<D>,
    index: int,
)
    requires
        0 <= index < state.pending.len(),
    ensures
        looked_on(state, earliest_at::<F, D>(format, state, index).0),
{
    lemma_decode_one::<F, D>(format, state.reading(index));
    lemma_moved(state, index, earliest::<F, D>(format, state.reading(index)).0);
}

pub proof fn lemma_latest_at<F: Container, D: FrameDecrypter>(
    format: &F,
    state: StateOf<D>,
    index: int,
)
    requires
        0 <= index < state.pending.len(),
    ensures
        looked_on(state, latest_at::<F, D>(format, state, index).0),
{
    lemma_decode_all::<F, D>(format, state.reading(index));
    lemma_moved(state, index, latest::<F, D>(format, state.reading(index)).0);
}

pub proof fn lemma_first_timed<F: Container, D: FrameDecrypter>(
    format: &F,
    state: StateOf<D>,
    index: int,
    floor: Option<u64>,
)
    requires
        0 <= index,
    ensures
        ({
            let (next, found) = first_timed::<F, D>(format, state, index, floor);
            &&& looked_on(state, next)
            &&& found matches Some((at, _)) ==> {
                &&& index <= at < state.pending.len()
                &&& floor is Some ==> state.pending[at].group.sequence > floor->Some_0
            }
        }),
    decreases state.pending.len() - index,
{
    if index < state.pending.len() {
        if floor is Some && state.pending[index].group.sequence <= floor->Some_0 {
            lemma_first_timed::<F, D>(format, state, index + 1, floor);
        } else {
            lemma_earliest_at::<F, D>(format, state, index);
            let (next, found) = earliest_at::<F, D>(format, state, index);
            if found is None {
                lemma_first_timed::<F, D>(format, next, index + 1, floor);
            }
        }
    }
}

pub proof fn lemma_last_timed<F: Container, D: FrameDecrypter>(
    format: &F,
    state: StateOf<D>,
    count: int,
    floor: u64,
)
    requires
        count <= state.pending.len(),
    ensures
        looked_on(state, last_timed::<F, D>(format, state, count, floor).0),
    decreases count,
{
    if count > 0 && state.pending[count - 1].group.sequence > floor {
        lemma_latest_at::<F, D>(format, state, count - 1);
        let (next, found) = latest_at::<F, D>(format, state, count - 1);
        if found is None {
            lemma_last_timed::<F, D>(format, next, count - 1, floor);
        }
    }
}

pub proof fn lemma_find_reset<F: Container, D: FrameDecrypter>(
    format: &F,
    state: StateOf<D>,
    count: int,
    prev_max: u64,
    live_edge: Timestamp,
)
    requires
        count <= state.pending.len(),
    ensures
        ({
            let (next, found) = find_reset::<F, D>(format, state, count, prev_max, live_edge);
            &&& looked_on(state, next)
            &&& found matches Some(reset) ==> {
                &&& reset.prev_max == prev_max < reset.group
                &&& reset.timestamp.precedes(live_edge)
                &&& exists|i: int|
                    0 <= i < count && (#[trigger] state.pending[i]).group.sequence == reset.group
            }
        }),
    decreases count,
{
    if count > 0 && state.pending[count - 1].group.sequence > prev_max {
        lemma_earliest_at::<F, D>(format, state, count - 1);
        let (next, found) = earliest_at::<F, D>(format, state, count - 1);
        if !(found is Some && found->Some_0.precedes(live_edge)) {
            lemma_find_reset::<F, D>(format, next, count - 1, prev_max, live_edge);
            let (_, reset) = find_reset::<F, D>(format, next, count - 1, prev_max, live_edge);
            if reset is Some {
                let i = choose|i: int|
                    0 <= i < count - 1 && (#[trigger] next.pending[i]).group.sequence
                        == reset->Some_0.group;
                assert(state.pending[i].group.sequence == reset->Some_0.group);
            }
        }
    }
}

/// Whether `b` differs from `a` only by wire frames that were decoded and groups
/// that were dropped.
pub open spec fn thinned<S>(a: ConsumerView<S>, b: ConsumerView<S>) -> bool {
    &&& b == (ConsumerView { pending: b.pending, decrypter: b.decrypter, ..a })
    &&& b.pending.len() <= a.pending.len()
    &&& b.pending.len() == a.pending.len() ==> sequences(b.pending) == sequences(a.pending)
    &&& forall|floor: u64| #[trigger]
        above(sequences(b.pending), floor) <= above(sequences(a.pending), floor)
    &&& no_more(a, b)
}

pub proof fn lemma_classified<F: Container, D: FrameDecrypter>(
    format: &F,
    state: StateOf<D>,
    reset: Reset,
    index: int,
)
    ensures
        thinned(state, classified::<F, D>(format, state, reset, index)),
    decreases state.pending.len() - index,
{
    if 0 <= index < state.pending.len() {
        let sequence = state.pending[index].group.sequence;
        if reset.verdict(sequence) is Some {
            lemma_classified::<F, D>(format, state, reset, index + 1);
        } else {
            let (next, found) = earliest_at::<F, D>(format, state, index);
            lemma_earliest_at::<F, D>(format, state, index);
            lemma_looked_on(state, next);
            if found is Some && reset.stale(sequence, found->Some_0) {
                let kept = ConsumerView { pending: next.pending.remove(index), ..next };
                lemma_classified::<F, D>(format, kept, reset, index);
                assert(sequences(kept.pending) =~= sequences(next.pending).remove(index));
                assert forall|floor: u64| #[trigger]
                    above(sequences(kept.pending), floor) <= above(
                        sequences(state.pending),
                        floor,
                    ) by {
                    lemma_above_remove(sequences(next.pending), index, floor);
                }
            } else {
                lemma_classified::<F, D>(format, next, reset, index + 1);
            }
        }
    }
}

/// A rewind leaves fewer groups beyond the live edge than there were.
proof fn lemma_detected<F: Container, D: FrameDecrypter>(format: &F, state: StateOf<D>)
    ensures
        ({
            let (next, reset) = detected::<F, D>(format, state);
            &&& no_more(state, next)
            &&& reset ==> beyond_edge(next) < beyond_edge(state)
            &&& !reset ==> looked_on(state, next)
        }),
{
    if let Some((prev_max, live_edge)) = state.rewind.live_edge {
        let count = state.pending.len() as int;
        let (next, found) = find_reset::<F, D>(format, state, count, prev_max, live_edge);
        lemma_find_reset::<F, D>(format, state, count, prev_max, live_edge);
        if let Some(reset) = found {
            lemma_looked_on(state, next);
            let i = choose|i: int|
                0 <= i < count && (#[trigger] state.pending[i]).group.sequence == reset.group;
            lemma_above_raised(sequences(state.pending), i, prev_max);
            lemma_filter(next.pending, survives(reset), reset.group);
        }
    }
}

/// Whether a turn uses something up.
pub open spec fn advances<S>(state: ConsumerView<S>, turn: Turn<S>) -> bool {
    match turn {
        Turn::Again(next) => {
            &&& no_more(state, next)
            &&& {
                ||| beyond_edge(next) < beyond_edge(state)
                ||| beyond_edge(next) <= beyond_edge(state) && next.pending.len()
                    < state.pending.len()
                ||| beyond_edge(next) <= beyond_edge(state) && next.pending.len()
                    <= state.pending.len() && beyond_cursor(next) < beyond_cursor(state)
            }
        },
        Turn::Done(next, outcome) => {
            &&& no_more(state, next)
            &&& outcome matches Poll::Ready(Ok(Some(_))) ==> less(state, next)
        },
    }
}

proof fn lemma_front<F: Container, D: FrameDecrypter>(format: &F, state: StateOf<D>)
    ensures
        ({
            let (next, result) = front::<F, D>(format, state);
            match result {
                Some(turn) => advances(state, turn),
                None => looked_on(state, next),
            }
        }),
{
    if state.pending.len() > 0 && state.pending[0].group.sequence <= state.current {
        let (after, item) = delivery::<F, D>(format, state.reading(0));
        let next = state.moved(0, after);
        lemma_delivery::<F, D>(format, state.reading(0));
        lemma_wires_update(state.pending, 0, after.buffer);
        if !(item matches Poll::Ready(Ok(Some(_)))) {
            lemma_moved(state, 0, after);
            lemma_looked_on(state, next);
            assert(sequences(next.pending.drop_first()) =~= sequences(next.pending).remove(0));
            if let Some((edge, _)) = state.rewind.live_edge {
                lemma_above_remove(sequences(next.pending), 0, edge);
            }
        }
    }
}

pub proof fn lemma_first_above(state: Seq<BufferView>, index: int, floor: u64)
    requires
        0 <= index <= state.len(),
    ensures
        ({
            let found = first_above(state, index, floor);
            &&& index <= found <= state.len()
            &&& found < state.len() ==> state[found].group.sequence > floor
        }),
    decreases state.len() - index,
{
    if index < state.len() && state[index].group.sequence <= floor {
        lemma_first_above(state, index + 1, floor);
    }
}

pub proof fn lemma_outlook<F: Container, D: FrameDecrypter>(format: &F, state: StateOf<D>)
    ensures
        ({
            let (next, view) = outlook::<F, D>(format, state);
            &&& looked_on(state, next)
            &&& view.next matches Some((index, _)) ==> 0 <= index < next.pending.len()
                && next.pending[index].group.sequence > next.current
        }),
{
    let reading = state.pending.len() > 0 && state.pending[0].group.sequence <= state.current;
    let first = if reading {
        lemma_earliest_at::<F, D>(format, state, 0);
        earliest_at::<F, D>(format, state, 0).0
    } else {
        state
    };
    let second = first_timed::<F, D>(format, first, 0, Some(state.current)).0;
    lemma_first_timed::<F, D>(format, first, 0, Some(state.current));
    let count = second.pending.len() as int;
    lemma_last_timed::<F, D>(format, second, count, state.current);
    let third = last_timed::<F, D>(format, second, count, state.current).0;
    assert forall|i: int| 0 <= i < state.pending.len() implies (
    #[trigger] third.pending[i]).group.sequence == state.pending[i].group.sequence by {
        assert(second.pending[i].group.sequence == first.pending[i].group.sequence);
    }
}

/// Moving the cursor up to a group beyond it leaves fewer beyond it.
proof fn lemma_advanced<S>(state: ConsumerView<S>, index: int)
    requires
        0 <= index < state.pending.len(),
        state.pending[index].group.sequence > state.current,
    ensures
        advances(state, Turn::Again(state.advanced(index))),
{
    lemma_above_raised(sequences(state.pending), index, state.current);
}

proof fn lemma_skipped<S>(state: ConsumerView<S>, index: int, count: nat)
    requires
        0 <= index < state.pending.len(),
        state.pending[index].group.sequence > state.current,
        index == 0 ==> count == 0,
    ensures
        advances(state, Turn::Again(state.skipped(index, count))),
{
    if index == 0 {
        assert(state.pending.skip(0) =~= state.pending);
        lemma_advanced(state, 0);
    } else {
        let rest = state.pending.skip(index);
        assert(sequences(rest) =~= sequences(state.pending).skip(index));
        if let Some((edge, _)) = state.rewind.live_edge {
            lemma_above_skip(sequences(state.pending), index, edge);
        }
    }
}

proof fn lemma_decided<F: Container, D: FrameDecrypter>(
    state: StateOf<D>,
    view: Outlook,
    finished: bool,
)
    requires
        view.next matches Some((index, _)) ==> 0 <= index < state.pending.len()
            && state.pending[index].group.sequence > state.current,
    ensures
        advances(state, decided::<F, D>(state, view, finished)),
{
    lemma_first_above(state.pending, 0, state.current);
    let found = first_above(state.pending, 0, state.current);
    if found < state.pending.len() {
        lemma_advanced(state, found);
    }
    if state.pending.len() > 0 && state.pending[0].group.sequence > state.current {
        lemma_advanced(state, 0);
    }
    if let Some((index, _)) = view.next {
        lemma_skipped(state, index, 0);
        if let Some(count) = breaks(state.pending, index as nat) {
            lemma_skipped(state, index, count);
        }
    }
}

/// A turn of a consumer uses something up.
pub proof fn lemma_turn<F: Container, D: FrameDecrypter>(
    format: &F,
    state: StateOf<D>,
    finished: bool,
)
    ensures
        advances(state, turn::<F, D>(format, state, finished)),
{
    lemma_detected::<F, D>(format, state);
    let (checked, reset) = detected::<F, D>(format, state);
    if !reset {
        lemma_looked_on(state, checked);
        let calm = settled::<F, D>(format, checked);
        if let Some(boundary) = checked.rewind.boundary {
            lemma_classified::<F, D>(format, checked, boundary, 0);
        }
        assert(thinned(checked, calm));
        lemma_front::<F, D>(format, calm);
        let (read, result) = front::<F, D>(format, calm);
        if result is None {
            lemma_looked_on(calm, read);
            lemma_outlook::<F, D>(format, read);
            let (looked, view) = outlook::<F, D>(format, read);
            lemma_looked_on(read, looked);
            lemma_decided::<F, D>(looked, view, finished);
        }
    }
}

proof fn lemma_received<S>(state: ConsumerView<S>)
    ensures
        state.received().track == (SubscriberView { arrived: Seq::empty(), ..state.track }),
        no_more(state, state.received()),
    decreases state.track.arrived.len(),
{
    if state.track.arrived.len() == 0 {
        assert(state.track.arrived =~= Seq::empty());
    } else {
        let rest = ConsumerView {
            track: SubscriberView { arrived: state.track.arrived.drop_first(), ..state.track },
            ..state.with_group(state.track.arrived[0])
        };
        lemma_received(rest);
    }
}

proof fn lemma_latched<F: Container, D: FrameDecrypter>(format: &F, state: StateOf<D>)
    ensures
        no_more(state, latched::<F, D>(format, state)),
{
    if state.startup {
        lemma_first_timed::<F, D>(format, state, 0, None);
    }
}

proof fn lemma_run<F: Container, D: FrameDecrypter>(format: &F, state: StateOf<D>, finished: bool)
    ensures
        advances(
            state,
            Turn::Done(
                run::<F, D>(format, state, finished).0,
                run::<F, D>(format, state, finished).1,
            ),
        ),
    decreases beyond_edge(state), state.pending.len(), beyond_cursor(state),
{
    lemma_turn::<F, D>(format, state, finished);
    if let Turn::Again(next) = turn::<F, D>(format, state, finished) {
        lemma_run::<F, D>(format, next, finished);
    }
}

/// An event leaves less to deliver.
pub proof fn lemma_event<F: Container, D: FrameDecrypter>(format: &F, state: StateOf<D>)
    ensures
        ({
            let (next, outcome) = event::<F, D>(format, state);
            &&& no_more(state, next)
            &&& outcome matches Poll::Ready(Ok(Some(_))) ==> less(state, next)
        }),
{
    let taken = state.received();
    lemma_received(state);
    lemma_latched::<F, D>(format, taken);
    let ready = latched::<F, D>(format, taken);
    lemma_filter(ready.pending, readable(ready.current), 0);
    lemma_run::<F, D>(format, ready.reaped(), taken.track.rest() is Ready);
}

/// A filter leaves whole what it keeps all of.
pub proof fn lemma_filter_whole(pending: Seq<BufferView>, keep: spec_fn(BufferView) -> bool)
    requires
        forall|i: int| 0 <= i < pending.len() ==> keep(#[trigger] pending[i]),
    ensures
        pending.filter(keep) == pending,
    decreases pending.len(),
{
    reveal(Seq::filter);
    if pending.len() > 0 {
        lemma_filter_whole(pending.drop_last(), keep);
        assert(pending.drop_last().push(pending.last()) =~= pending);
    }
}

} // verus!
