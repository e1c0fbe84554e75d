//! How long a consumer of a live track waits, and where it goes on.
//!
//! A group that stalls, or that is missing, holds up those after it until they span the
//! maximum age. Each law speaks of the media of the groups at hand: where it starts, how far
//! it reaches, and which of the groups has it.
use vstd::prelude::*;

use super::buffer::{decode_all, decode_once, decode_one, delivery, BufferView, ItemView};
use super::group_live::has_media;
use super::group_runs::{
    all_seen, is_furthest, is_greatest, is_least, lemma_valid_part, one_seen, valid_frames,
};
use super::progress::lemma_filter_whole;
use super::schedule::{
    breaks, decided, detected, earliest_at, event, first_timed, front, last_timed, latched, outlook,
    readable, run, settled, turn, ConsumerView, EventView, Outlook, Rewind, StateOf, Turn,
};
use super::track_laws::event_of;
use super::track_live::{
    all_sound, as_shown, lemma_checked, lemma_first, lemma_glance, lemma_last, lemma_least_media,
    lemma_looked_order, lemma_moved_sound, lemma_sound_all, lemma_sound_once, lemma_sound_one,
    lemma_sound_take, looked_at, none_before, one_epoch, onward, prospects, sound, underway,
    used_up, Prospect,
};
use super::track_runs::Alike;
use super::{Container, FrameDecrypter, FrameView};
use crate::error::Error;
use crate::poll::Poll;
use crate::time::{law_timestamps_are_totally_ordered, lemma_elapsed_fits, Duration, Timestamp};

verus! {

/// Whether the time from `from` to `to` uses up `age`. A maximum age of nothing always is.
pub open spec fn spans_age(from: Timestamp, to: Timestamp, age: Duration) -> bool {
    age.nanos == 0 || to.nanos() - from.nanos() >= age.nanos
}

/// What is known of the continuity of the timeline after an item of a group was delivered:
/// media moves the live edge on, never back.
pub open spec fn rewind_after(rewind: Rewind, sequence: u64, item: ItemView) -> Rewind {
    match item {
        ItemView::Frame(frame) => match rewind.live_edge {
            Some((_, edge)) if !edge.precedes(frame.timestamp) => rewind,
            _ => Rewind { live_edge: Some((sequence, frame.timestamp)), ..rewind },
        },
        ItemView::End(_) => rewind,
    }
}

/// A turn at a group at the cursor that has something to give.
pub proof fn lemma_gives<F: Container, D: FrameDecrypter>(
    format: &F,
    alike: Alike<D::State>,
    state: StateOf<D>,
    seen: Seq<Seq<FrameView>>,
    finished: bool,
)
    requires
        underway::<F, D>(format, alike, state, seen),
        state.pending[0].group.sequence <= state.current,
        prospects::<F, D>(format, state, seen)[0].whole.items.len() > 0,
    ensures
        ({
            let (next, outcome) = run::<F, D>(format, state, finished);
            let item = prospects::<F, D>(format, state, seen)[0].whole.items[0];
            &&& outcome == Poll::Ready(Ok::<Option<EventView>, Error>(Some(event_of(item))))
            &&& next.pending.len() == state.pending.len()
            &&& next.pending[0].group.sequence == state.pending[0].group.sequence
            &&& next.current == state.current
            &&& next.rewind == rewind_after(
                state.rewind,
                state.pending[0].group.sequence,
                item,
            )
            &&& next.end == state.end
        }),
{
    let grown = lemma_checked::<F, D>(format, alike, state, seen);
    let checked = detected::<F, D>(format, state).0;
    assert(checked.pending[0].group.sequence == state.pending[0].group.sequence);
    assert(sound::<F, D>(format, alike, checked.reading(0), grown[0]));
    assert(prospects::<F, D>(format, checked, grown)[0].whole == decode_all::<F, D>(
        format,
        checked.reading(0),
    ).0.buffer);
    lemma_sound_take::<F, D>(format, alike, checked.reading(0), grown[0]);
    let after = delivery::<F, D>(format, checked.reading(0)).0;
    assert(checked.moved(0, after).pending[0] == after.buffer);
}

/// The cursor after a group was done with: beyond that group, and never back.
pub open spec fn past(sequence: u64, current: u64) -> u64 {
    if sequence < current || sequence == u64::MAX {
        current
    } else {
        (sequence + 1) as u64
    }
}

/// A turn at a group at the cursor that ended, and of which everything was delivered.
pub proof fn lemma_ends<F: Container, D: FrameDecrypter>(
    format: &F,
    alike: Alike<D::State>,
    state: StateOf<D>,
    seen: Seq<Seq<FrameView>>,
    finished: bool,
)
    requires
        underway::<F, D>(format, alike, state, seen),
        state.pending[0].group.sequence <= state.current,
        prospects::<F, D>(format, state, seen)[0].whole.items.len() == 0,
        state.pending[0].group.finished,
    ensures
        ({
            let (next, outcome) = run::<F, D>(format, state, finished);
            let whole = prospects::<F, D>(format, state, seen)[0].whole;
            &&& outcome == Poll::Ready(Ok::<Option<EventView>, Error>(Some(EventView::GroupEnd)))
            &&& next.pending.len() == state.pending.len() - 1
            &&& next.current == past(state.pending[0].group.sequence, state.current)
            &&& if whole.empty && state.rewind.live_edge is Some {
                &&& next.rewind.live_edge is None
                &&& next.rewind.boundary is None
                &&& next.rewind.discontinuity == (if state.rewind.discontinuity < u64::MAX {
                    (state.rewind.discontinuity + 1) as u64
                } else {
                    u64::MAX
                })
                &&& next.end is None
            } else {
                &&& next.rewind == state.rewind
                &&& next.end == state.end
            }
        }),
{
    let grown = lemma_checked::<F, D>(format, alike, state, seen);
    let checked = detected::<F, D>(format, state).0;
    assert(checked.pending[0].group.sequence == state.pending[0].group.sequence);
    assert(sound::<F, D>(format, alike, checked.reading(0), grown[0]));
    assert(sound::<F, D>(format, alike, state.reading(0), seen[0]));
    lemma_sound_all::<F, D>(format, alike, checked.reading(0), grown[0]);
    lemma_sound_all::<F, D>(format, alike, state.reading(0), seen[0]);
    let shown = prospects::<F, D>(format, state, seen);
    assert(prospects::<F, D>(format, checked, grown)[0] == shown[0]);
    assert(shown[0].end == Poll::Ready(Ok::<(), Error>(())));
    lemma_sound_take::<F, D>(format, alike, checked.reading(0), grown[0]);
}

/// Whether a group is known to declare a break of the timeline: it ended, and no wire frame
/// came of it.
pub open spec fn declares_break(shown: Prospect) -> bool {
    shown.whole.empty && shown.whole.group.finished
}

/// Whether it is open if a group declares a break of the timeline: no wire frame came of it
/// yet.
pub open spec fn undecided(shown: Prospect) -> bool {
    shown.whole.empty && !shown.whole.group.finished
}

/// How many of the first `count` groups declare a break of the timeline.
pub open spec fn declared(shown: Seq<Prospect>, count: nat) -> nat
    decreases count,
{
    if count == 0 {
        0
    } else {
        declared(shown, (count - 1) as nat) + (if declares_break(shown[count - 1]) {
            1nat
        } else {
            0nat
        })
    }
}

/// Whether none of the first `count` groups is undecided.
pub open spec fn all_decided(shown: Seq<Prospect>, count: nat) -> bool {
    forall|i: int| 0 <= i < count ==> !undecided(#[trigger] shown[i])
}

proof fn lemma_breaks(pending: Seq<BufferView>, shown: Seq<Prospect>, count: nat)
    requires
        count <= pending.len() == shown.len(),
        forall|i: int|
            0 <= i < count ==> {
                &&& (#[trigger] pending[i]) == shown[i].whole
                &&& pending[i].group.aborted is None
            },
    ensures
        breaks(pending, count) == (if all_decided(shown, count) {
            Some(declared(shown, count))
        } else {
            None
        }),
    decreases count,
{
    if count > 0 {
        let before = (count - 1) as nat;
        lemma_breaks(pending, shown, before);
        assert(pending[count - 1] == shown[count - 1].whole);
        if all_decided(shown, count) {
            assert(all_decided(shown, before));
            assert(!undecided(shown[count - 1]));
        } else if all_decided(shown, before) {
            assert(undecided(shown[count - 1]));
        }
    }
}

pub proof fn lemma_one_least<F: Container>(
    format: &F,
    frames: Seq<FrameView>,
    a: Option<Timestamp>,
    b: Option<Timestamp>,
)
    requires
        valid_frames(frames),
        is_least(format, frames, a) && is_least(format, frames, b) || is_greatest(
            format,
            frames,
            a,
        ) && is_greatest(format, frames, b),
    ensures
        a == b,
        a matches Some(timestamp) ==> timestamp.valid(),
{
    lemma_least_media(format, frames, a);
    lemma_least_media(format, frames, b);
    if let Some(x) = a {
        let y = b->Some_0;
        let i = choose|i: int|
            0 <= i < frames.len() && format.bound(#[trigger] frames[i]) is None
                && frames[i].timestamp == x;
        let j = choose|j: int|
            0 <= j < frames.len() && format.bound(#[trigger] frames[j]) is None
                && frames[j].timestamp == y;
        assert(frames[i].timestamp.valid() && frames[j].timestamp.valid());
        law_timestamps_are_totally_ordered(x, y);
    }
}

/// What the groups after the one at the cursor show: which is the first of them with media
/// and where it starts, and the latest timestamp of the last of them with media.
pub struct Ahead {
    pub next: int,
    pub start: Timestamp,
    pub newest: int,
    pub latest: Timestamp,
}

/// Whether `ahead` is what the groups from `from` on show.
pub open spec fn shows<F: Container>(
    format: &F,
    shown: Seq<Prospect>,
    from: int,
    ahead: Ahead,
) -> bool {
    &&& from <= ahead.next <= ahead.newest < shown.len()
    &&& is_least(format, shown[ahead.next].opening, Some(ahead.start))
    &&& has_media(format, shown[ahead.next].total)
    &&& forall|i: int| from <= i < ahead.next ==> !has_media(format, (#[trigger] shown[i]).total)
    &&& is_greatest(format, shown[ahead.newest].total, Some(ahead.latest))
    &&& forall|i: int|
        ahead.newest < i < shown.len() ==> !has_media(format, (#[trigger] shown[i]).total)
}

/// Whether there is no media in the groups from `from` on.
pub open spec fn nothing_ahead<F: Container>(
    format: &F,
    shown: Seq<Prospect>,
    from: int,
) -> bool {
    forall|i: int| from <= i < shown.len() ==> !has_media(format, (#[trigger] shown[i]).total)
}

/// Looking at the groups after the one at the cursor.
proof fn lemma_ahead<F: Container, D: FrameDecrypter>(
    format: &F,
    alike: Alike<D::State>,
    state: StateOf<D>,
    seen: Seq<Seq<FrameView>>,
    from: int,
) -> (grown: Seq<Seq<FrameView>>)
    requires
        all_sound::<F, D>(format, alike, state, seen),
        0 <= from <= state.pending.len(),
        from <= 1,
        forall|i: int|
            from <= i < state.pending.len() ==> (#[trigger] state.pending[i]).group.sequence
                > state.current,
        from > 0 ==> state.pending[from - 1].group.sequence <= state.current,
    ensures
        ({
            let (second, next) = first_timed::<F, D>(format, state, 0, Some(state.current));
            let (third, newest) = last_timed::<F, D>(
                format,
                second,
                second.pending.len() as int,
                state.current,
            );
            let shown = prospects::<F, D>(format, state, seen);
            &&& all_sound::<F, D>(format, alike, third, grown)
            &&& looked_at(state, third)
            &&& as_shown(shown, prospects::<F, D>(format, third, grown))
            &&& next is None == nothing_ahead(format, shown, from)
            &&& next matches Some((at, start)) ==> newest matches Some(latest) && exists|
                ahead: Ahead,
            | #[trigger]
                shows(format, shown, from, ahead) && ahead.next == at && ahead.start == start
                    && ahead.latest == latest
            &&& forall|i: int|
                0 <= i < state.pending.len() && #[trigger] used_up::<F, D>(format, state, i)
                    ==> used_up::<F, D>(format, third, i)
            &&& next matches Some((at, _)) ==> forall|i: int|
                from <= i < at ==> #[trigger] used_up::<F, D>(format, third, i)
        }),
{
    let shown = prospects::<F, D>(format, state, seen);
    let floor = Some(state.current);
    if from == 1 {
        assert(first_timed::<F, D>(format, state, 0, floor) == first_timed::<F, D>(
            format,
            state,
            1,
            floor,
        ));
    }
    let near = lemma_first::<F, D>(format, alike, state, seen, from, floor);
    let (second, next) = first_timed::<F, D>(format, state, from, floor);
    let count = second.pending.len() as int;
    assert forall|i: int| from <= i < second.pending.len() implies (
    #[trigger] second.pending[i]).group.sequence > state.current by {
        assert(state.pending[i].group.sequence > state.current);
    }
    if from > 0 {
        assert(second.pending[from - 1].group.sequence == state.pending[from - 1].group.sequence);
    }
    let grown = lemma_last::<F, D>(format, alike, second, near, count, state.current, from);
    let (third, newest) = last_timed::<F, D>(format, second, count, state.current);
    assert forall|i: int| 0 <= i < state.pending.len() implies (
    #[trigger] third.pending[i]).group.sequence == state.pending[i].group.sequence by {
        assert(second.pending[i].group.sequence == state.pending[i].group.sequence);
    }
    assert forall|i: int|
        0 <= i < state.pending.len() && #[trigger] used_up::<F, D>(
            format,
            state,
            i,
        ) implies used_up::<F, D>(format, third, i) by {
        assert(used_up::<F, D>(format, second, i));
    }
    if let Some((at, start)) = next {
        assert forall|i: int| from <= i < at implies #[trigger] used_up::<F, D>(
            format,
            third,
            i,
        ) by {
            assert(used_up::<F, D>(format, second, i));
        }
        assert(has_media(format, shown[at].total));
        assert(newest is Some);
        let last = choose|last: int|
            {
                &&& from <= last < count
                &&& is_greatest(format, (#[trigger] shown[last]).total, newest)
                &&& forall|i: int|
                    last < i < count ==> !has_media(format, (#[trigger] shown[i]).total)
            };
        assert(last >= at);
        let ahead = Ahead { next: at, start, newest: last, latest: newest->Some_0 };
        assert(shows(format, shown, from, ahead));
    }
    grown
}

proof fn lemma_span(from: Timestamp, to: Timestamp, age: Duration)
    requires
        from.valid(),
        to.valid(),
    ensures
        (to.elapsed().since(from.elapsed()).nanos >= age.nanos) == spans_age(from, to, age),
        from.elapsed().nanos == from.nanos(),
        to.elapsed().nanos == to.nanos(),
{
    lemma_elapsed_fits(from);
    lemma_elapsed_fits(to);
}

/// What the groups show is one thing.
proof fn lemma_one_ahead<F: Container, D: FrameDecrypter>(
    format: &F,
    alike: Alike<D::State>,
    state: StateOf<D>,
    seen: Seq<Seq<FrameView>>,
    from: int,
    a: Ahead,
    b: Ahead,
)
    requires
        all_sound::<F, D>(format, alike, state, seen),
        0 <= from,
        shows(format, prospects::<F, D>(format, state, seen), from, a),
        shows(format, prospects::<F, D>(format, state, seen), from, b),
    ensures
        a == b,
        a.start.valid(),
        a.latest.valid(),
{
    let shown = prospects::<F, D>(format, state, seen);
    lemma_least_media(format, shown[a.newest].total, Some(a.latest));
    lemma_least_media(format, shown[b.newest].total, Some(b.latest));
    assert(a.next == b.next);
    assert(a.newest == b.newest);
    let at = state.reading(a.next);
    assert(sound::<F, D>(format, alike, at, seen[a.next]));
    lemma_sound_one::<F, D>(format, alike, at, seen[a.next]);
    let near = decode_one::<F, D>(format, at).0;
    lemma_valid_part(
        shown[a.next].opening,
        all_seen::<F, D>(format, near),
    );
    lemma_one_least(format, shown[a.next].opening, Some(a.start), Some(b.start));
    assert(sound::<F, D>(format, alike, state.reading(a.newest), seen[a.newest]));
    lemma_one_least(format, shown[a.newest].total, Some(a.latest), Some(b.latest));
}

/// What the groups show once the first of them was decoded as far as it is at hand.
spec fn first_decoded(shown: Seq<Prospect>) -> Seq<Prospect> {
    shown.update(0, Prospect { opening: shown[0].total, ..shown[0] })
}

/// A turn at a group that stalls finds nothing to give.
#[verifier::spinoff_prover]
proof fn lemma_waits<F: Container, D: FrameDecrypter>(
    format: &F,
    alike: Alike<D::State>,
    state: StateOf<D>,
    seen: Seq<Seq<FrameView>>,
) -> (r: (Seq<Seq<FrameView>>, StateOf<D>))
    requires
        underway::<F, D>(format, alike, state, seen),
        state.pending[0].group.sequence <= state.current,
        prospects::<F, D>(format, state, seen)[0].whole.items.len() == 0,
        !state.pending[0].group.finished,
    ensures
        ({
            let (known, waits) = r;
            let shown = prospects::<F, D>(format, state, seen);
            let (checked, reset) = detected::<F, D>(format, state);
            &&& !reset
            &&& front::<F, D>(format, settled::<F, D>(format, checked)) == (
                waits,
                None::<Turn<D::State>>,
            )
            &&& all_sound::<F, D>(format, alike, waits, known)
            &&& looked_at(state, waits)
            &&& prospects::<F, D>(format, waits, known) == first_decoded(shown)
            &&& used_up::<F, D>(format, waits, 0)
        }),
{
    let shown = prospects::<F, D>(format, state, seen);
    let grown = lemma_checked::<F, D>(format, alike, state, seen);
    let checked = detected::<F, D>(format, state).0;
    assert(checked.pending[0].group.sequence == state.pending[0].group.sequence);
    let at = checked.reading(0);
    assert(sound::<F, D>(format, alike, at, grown[0]));
    assert(sound::<F, D>(format, alike, state.reading(0), seen[0]));
    lemma_sound_all::<F, D>(format, alike, at, grown[0]);
    lemma_sound_all::<F, D>(format, alike, state.reading(0), seen[0]);
    assert(prospects::<F, D>(format, checked, grown)[0] == shown[0]);
    assert(!at.buffer.group.finished);
    lemma_sound_take::<F, D>(format, alike, at, grown[0]);
    let after = delivery::<F, D>(format, at).0;
    let total = shown[0].total;
    lemma_moved_sound::<F, D>(format, alike, checked, grown, 0, after, total);
    let waits = checked.moved(0, after);
    let known = grown.update(0, total);
    let held = prospects::<F, D>(format, waits, known);
    // Nothing more of the first group is at hand.
    lemma_sound_once::<F, D>(format, alike, after, total);
    assert(decode_once::<F, D>(format, after).1 != Poll::Ready(Ok::<bool, Error>(true)));
    assert(one_seen::<F, D>(format, after) =~= Seq::<FrameView>::empty());
    assert(total + Seq::<FrameView>::empty() =~= total);
    assert(held[0] == first_decoded(shown)[0]);
    assert(held =~= first_decoded(shown));
    assert forall|i: int| 0 <= i < state.pending.len() implies (
    #[trigger] waits.pending[i]).group.sequence == state.pending[i].group.sequence by {
        assert(waits.pending[i].group.sequence == checked.pending[i].group.sequence);
    }
    (known, waits)
}

proof fn lemma_shows_first<F: Container>(
    format: &F,
    shown: Seq<Prospect>,
    ahead: Ahead,
)
    requires
        shown.len() > 0,
    ensures
        nothing_ahead(format, first_decoded(shown), 1) == nothing_ahead(format, shown, 1),
        shows(format, first_decoded(shown), 1, ahead) ==> shows(format, shown, 1, ahead),
{
    let held = first_decoded(shown);
    if nothing_ahead(format, held, 1) {
        assert forall|i: int| 1 <= i < shown.len() implies !has_media(
            format,
            (#[trigger] shown[i]).total,
        ) by {
            assert(held[i] == shown[i]);
        }
    }
    if shows(format, held, 1, ahead) {
        assert forall|i: int| 1 <= i < ahead.next implies !has_media(
            format,
            (#[trigger] shown[i]).total,
        ) by {
            assert(held[i] == shown[i]);
        }
        assert forall|i: int| ahead.newest < i < shown.len() implies !has_media(
            format,
            (#[trigger] shown[i]).total,
        ) by {
            assert(held[i] == shown[i]);
        }
    }
}

/// Looking around from a group that stalls.
#[verifier::spinoff_prover]
proof fn lemma_stalls<F: Container, D: FrameDecrypter>(
    format: &F,
    alike: Alike<D::State>,
    state: StateOf<D>,
    seen: Seq<Seq<FrameView>>,
    shown: Seq<Prospect>,
) -> (r: (Seq<Seq<FrameView>>, Option<Timestamp>))
    requires
        state.pending.len() > 0,
        shown.len() == state.pending.len(),
        all_sound::<F, D>(format, alike, state, seen),
        prospects::<F, D>(format, state, seen) == first_decoded(shown),
        used_up::<F, D>(format, state, 0),
        state.pending[0].group.sequence <= state.current,
        forall|i: int|
            1 <= i < state.pending.len() ==> (#[trigger] state.pending[i]).group.sequence
                > state.current,
    ensures
        ({
            let (grown, oldest) = r;
            let (looked, view) = outlook::<F, D>(format, state);
            &&& all_sound::<F, D>(format, alike, looked, grown)
            &&& looked_at(state, looked)
            &&& as_shown(shown, prospects::<F, D>(format, looked, grown))
            &&& is_least(format, shown[0].total, oldest)
            &&& oldest matches Some(timestamp) ==> timestamp.valid()
            &&& view.oldest == (match oldest {
                Some(timestamp) => Some(timestamp.elapsed()),
                None => None,
            })
            &&& oldest is Some ==> is_furthest(format, shown[0].total, view.reached)
            &&& view.next is None == nothing_ahead(format, shown, 1)
            &&& view.next matches Some((at, start)) ==> exists|ahead: Ahead| #[trigger]
                shows(format, shown, 1, ahead) && ahead.next == at && start
                    == ahead.start.elapsed() && view.newest == ahead.latest.elapsed()
            &&& view.next matches Some((at, _)) ==> forall|i: int|
                0 <= i < at ==> #[trigger] used_up::<F, D>(format, looked, i)
        }),
{
    let held = prospects::<F, D>(format, state, seen);
    let near = lemma_glance::<F, D>(format, alike, state, seen, 0);
    let (first, oldest) = earliest_at::<F, D>(format, state, 0);
    assert(used_up::<F, D>(format, first, 0));
    assert(sound::<F, D>(format, alike, first.reading(0), near[0]));
    assert forall|i: int| 1 <= i < first.pending.len() implies (
    #[trigger] first.pending[i]).group.sequence > first.current by {
        assert(state.pending[i].group.sequence > state.current);
    }
    assert(first.pending[0].group.sequence == state.pending[0].group.sequence);
    let last = lemma_ahead::<F, D>(format, alike, first, near, 1);
    let (looked, view) = outlook::<F, D>(format, state);
    assert forall|i: int| 0 <= i < state.pending.len() implies (
    #[trigger] looked.pending[i]).group.sequence == state.pending[i].group.sequence by {
        assert(first.pending[i].group.sequence == state.pending[i].group.sequence);
    }
    let then = prospects::<F, D>(format, looked, last);
    assert forall|i: int| 0 <= i < shown.len() implies {
        &&& (#[trigger] then[i]).total == shown[i].total
        &&& then[i].whole == shown[i].whole
        &&& then[i].end == shown[i].end
    } by {
        assert(then[i].total == held[i].total);
    }
    let any = Ahead { next: 0, start: arbitrary(), newest: 0, latest: arbitrary() };
    lemma_shows_first(format, shown, any);
    if let Some((index, start)) = view.next {
        let ahead = choose|ahead: Ahead| #[trigger]
            shows(format, held, 1, ahead) && ahead.next == index && start
                == ahead.start.elapsed() && view.newest == ahead.latest.elapsed();
        lemma_shows_first(format, shown, ahead);
        assert(shows(format, shown, 1, ahead));
        assert forall|i: int| 0 <= i < index implies #[trigger] used_up::<F, D>(
            format,
            looked,
            i,
        ) by {}
    }
    (last, oldest)
}

/// Whether the group at the cursor is given up for the next one with media. `oldest` is
/// where its media starts and `reached` how far it reaches, where it has any.
///
/// A group with media is given up once the newest media is the maximum age past where it
/// starts, or once it reaches up to where the next group starts. Of one without, the next
/// group stands in.
pub open spec fn given_up(
    max_age: Duration,
    oldest: Option<Timestamp>,
    reached: Option<Duration>,
    ahead: Ahead,
) -> bool {
    match oldest {
        Some(first) => {
            ||| spans_age(first, ahead.latest, max_age)
            ||| reached matches Some(end) && end.nanos >= ahead.start.nanos()
        },
        None => spans_age(ahead.start, ahead.latest, max_age),
    }
}

/// The groups from `index` on.
pub proof fn lemma_skipped<F: Container, D: FrameDecrypter>(
    format: &F,
    alike: Alike<D::State>,
    state: StateOf<D>,
    looked: StateOf<D>,
    seen: Seq<Seq<FrameView>>,
    shown: Seq<Prospect>,
    index: int,
    count: nat,
)
    requires
        state.ordered(),
        one_epoch(state),
        looked_at(state, looked),
        all_sound::<F, D>(format, alike, looked, seen),
        as_shown(shown, prospects::<F, D>(format, looked, seen)),
        shown.len() == state.pending.len(),
        onward::<F, D>(format, state, shown),
        0 <= index < state.pending.len(),
    ensures
        ({
            let next = looked.skipped(index, count);
            &&& underway::<F, D>(format, alike, next, seen.skip(index))
            &&& prospects::<F, D>(format, next, seen.skip(index))[0].whole == shown[index].whole
            &&& next.pending[0].group.sequence == state.pending[index].group.sequence
            &&& next.current == state.pending[index].group.sequence
        }),
{
    let next = looked.skipped(index, count);
    let rest = seen.skip(index);
    lemma_looked_order(state, looked);
    assert forall|i: int| 0 <= i < next.pending.len() implies #[trigger] next.reading(i)
        == looked.reading(i + index) by {}
    assert forall|i: int| 0 <= i < next.pending.len() implies sound::<F, D>(
        format,
        alike,
        #[trigger] next.reading(i),
        rest[i],
    ) by {
        assert(sound::<F, D>(format, alike, looked.reading(i + index), seen[i + index]));
    }
    assert forall|i: int, j: int| 0 <= i < j < next.pending.len() implies (
    #[trigger] next.pending[i]).group.sequence <= (#[trigger] next.pending[j]).group.sequence by {
        assert(looked.pending[i + index].group.sequence <= looked.pending[j
            + index].group.sequence);
    }
    let then = prospects::<F, D>(format, looked, seen);
    let after = prospects::<F, D>(format, next, rest);
    assert forall|i: int| 0 <= i < after.len() implies #[trigger] after[i] == then[i + index] by {
        assert(next.reading(i) == looked.reading(i + index));
    }
    if let Some(reset) = next.rewind.boundary {
        assert forall|i: int| 0 <= i < next.pending.len() implies (
        #[trigger] next.pending[i]).group.sequence >= reset.group by {
            assert(looked.pending[i + index].group.sequence == state.pending[i
                + index].group.sequence);
        }
    }
    if let Some((prev_max, edge)) = next.rewind.live_edge {
        assert forall|i: int|
            0 <= i < next.pending.len() && (#[trigger] next.pending[i]).group.sequence
                > prev_max implies none_before(format, after[i].total, edge) by {
            assert(looked.pending[i + index].group.sequence == state.pending[i
                + index].group.sequence);
            assert(state.pending[i + index].group.sequence > prev_max);
            assert(after[i] == then[i + index]);
            assert(then[i + index].total == shown[i + index].total);
        }
    }
    assert(looked.pending[index].group.sequence == state.pending[index].group.sequence);
    assert(after[0] == then[index]);
    assert(then[index].whole == shown[index].whole);
}

/// The number of the group that a consumer reads. Where no start was named and nothing was
/// read yet, it is the first one at hand, once there is media at hand.
pub open spec fn cursor<F: Container, S>(
    format: &F,
    state: ConsumerView<S>,
    shown: Seq<Prospect>,
) -> u64 {
    if state.startup && !nothing_ahead(format, shown, 0) {
        state.pending[0].group.sequence
    } else {
        state.current
    }
}

/// Whether a consumer stands in the middle of a track that did not fail, with nothing
/// announced that it has not taken.
pub open spec fn poised<F: Container, D: FrameDecrypter>(
    format: &F,
    alike: Alike<D::State>,
    state: StateOf<D>,
    seen: Seq<Seq<FrameView>>,
) -> bool {
    &&& underway::<F, D>(format, alike, state, seen)
    &&& state.track.arrived.len() == 0
    &&& !(state.track.closed matches Some(Err(_)))
}

/// An event comes of turns at the groups as they are at hand.
#[verifier::spinoff_prover]
pub proof fn lemma_begins<F: Container, D: FrameDecrypter>(
    format: &F,
    alike: Alike<D::State>,
    state: StateOf<D>,
    seen: Seq<Seq<FrameView>>,
) -> (r: (Seq<Seq<FrameView>>, StateOf<D>))
    requires
        poised::<F, D>(format, alike, state, seen),
    ensures
        ({
            let (grown, ready) = r;
            &&& event::<F, D>(format, state) == run::<F, D>(
                format,
                ready,
                state.track.closed is Some,
            )
            &&& underway::<F, D>(format, alike, ready, grown)
            &&& prospects::<F, D>(format, ready, grown) == prospects::<F, D>(format, state, seen)
            &&& ready == (ConsumerView {
                current: cursor(format, state, prospects::<F, D>(format, state, seen)),
                startup: ready.startup,
                pending: ready.pending,
                decrypter: ready.decrypter,
                ..state
            })
            &&& ready.pending.len() == state.pending.len()
            &&& ready.pending[0].group.finished == state.pending[0].group.finished
            &&& forall|i: int|
                0 <= i < state.pending.len() ==> (#[trigger] ready.pending[i]).group.sequence
                    == state.pending[i].group.sequence
        }),
{
    let shown = prospects::<F, D>(format, state, seen);
    assert(state.received() == state);
    let (grown, ready) = if state.startup {
        let grown = lemma_first::<F, D>(format, alike, state, seen, 0, None);
        let (next, found) = first_timed::<F, D>(format, state, 0, None);
        let ready = latched::<F, D>(format, state);
        assert forall|i: int| #[trigger] ready.reading(i) == next.reading(i) by {}
        assert forall|i: int| 0 <= i < ready.pending.len() implies sound::<F, D>(
            format,
            alike,
            #[trigger] ready.reading(i),
            grown[i],
        ) by {
            assert(sound::<F, D>(format, alike, next.reading(i), grown[i]));
        }
        assert(prospects::<F, D>(format, ready, grown) =~= prospects::<F, D>(
            format,
            next,
            grown,
        ));
        lemma_looked_order(state, next);
        assert(next.pending[0].group.sequence == state.pending[0].group.sequence);
        (grown, ready)
    } else {
        (seen, state)
    };
    assert(sound::<F, D>(format, alike, state.reading(0), seen[0]));
    assert(sound::<F, D>(format, alike, ready.reading(0), grown[0]));
    lemma_sound_all::<F, D>(format, alike, state.reading(0), seen[0]);
    lemma_sound_all::<F, D>(format, alike, ready.reading(0), grown[0]);
    assert(prospects::<F, D>(format, ready, grown)[0].end == shown[0].end);
    if let Some((prev_max, edge)) = ready.rewind.live_edge {
        assert forall|i: int|
            0 <= i < ready.pending.len() && (#[trigger] ready.pending[i]).group.sequence
                > prev_max implies none_before(format, shown[i].total, edge) by {
            assert(state.pending[i].group.sequence > prev_max);
        }
    }
    if let Some(reset) = ready.rewind.boundary {
        assert forall|i: int| 0 <= i < ready.pending.len() implies (
        #[trigger] ready.pending[i]).group.sequence >= reset.group by {
            assert(state.pending[i].group.sequence >= reset.group);
        }
    }
    let keep = readable(ready.current);
    assert forall|i: int| 0 <= i < ready.pending.len() implies keep(
        #[trigger] ready.pending[i],
    ) by {
        assert(sound::<F, D>(format, alike, ready.reading(i), grown[i]));
    }
    lemma_filter_whole(ready.pending, keep);
    assert(ready.reaped() == ready);
    (grown, ready)
}

/// Whether the group at the cursor stalls: it is open, and everything that is at hand of it
/// was delivered. The other groups lie beyond the cursor.
pub open spec fn stalled<S>(
    state: ConsumerView<S>,
    shown: Seq<Prospect>,
    cursor: u64,
) -> bool {
    &&& state.pending[0].group.sequence <= cursor
    &&& forall|i: int|
        1 <= i < state.pending.len() ==> (#[trigger] state.pending[i]).group.sequence > cursor
    &&& shown[0].whole.items.len() == 0
    &&& !state.pending[0].group.finished
}

/// Whether something that may be there is what the groups from `from` on show.
pub open spec fn shows_at_most<F: Container>(
    format: &F,
    shown: Seq<Prospect>,
    from: int,
    ahead: Option<Ahead>,
) -> bool {
    match ahead {
        Some(ahead) => shows(format, shown, from, ahead),
        None => nothing_ahead(format, shown, from),
    }
}

/// The outlook from a group that stalls, in the words of the laws.
#[verifier::spinoff_prover]
proof fn lemma_stall_view<F: Container, D: FrameDecrypter>(
    format: &F,
    alike: Alike<D::State>,
    state: StateOf<D>,
    seen: Seq<Seq<FrameView>>,
    finished: bool,
    oldest: Option<Timestamp>,
    reached: Option<Duration>,
    ahead: Option<Ahead>,
) -> (r: (Seq<Seq<FrameView>>, StateOf<D>, Outlook))
    requires
        underway::<F, D>(format, alike, state, seen),
        stalled(state, prospects::<F, D>(format, state, seen), state.current),
        is_least(format, prospects::<F, D>(format, state, seen)[0].total, oldest),
        is_furthest(format, prospects::<F, D>(format, state, seen)[0].total, reached),
        shows_at_most(format, prospects::<F, D>(format, state, seen), 1, ahead),
    ensures
        ({
            let (grown, looked, view) = r;
            let shown = prospects::<F, D>(format, state, seen);
            &&& turn::<F, D>(format, state, finished) == decided::<F, D>(looked, view, finished)
            &&& all_sound::<F, D>(format, alike, looked, grown)
            &&& looked_at(state, looked)
            &&& as_shown(shown, prospects::<F, D>(format, looked, grown))
            &&& view.next == (match ahead {
                Some(ahead) => Some((ahead.next, ahead.start.elapsed())),
                None => None,
            })
            &&& view.skips(state.max_age) == (ahead is Some && given_up(
                state.max_age,
                oldest,
                reached,
                ahead->Some_0,
            ))
            &&& ahead matches Some(ahead) ==> forall|i: int|
                0 <= i < ahead.next ==> #[trigger] used_up::<F, D>(format, looked, i)
        }),
{
    let shown = prospects::<F, D>(format, state, seen);
    let (known, waits) = lemma_waits::<F, D>(format, alike, state, seen);
    assert(waits.pending[0].group.sequence == state.pending[0].group.sequence);
    assert forall|i: int| 1 <= i < waits.pending.len() implies (
    #[trigger] waits.pending[i]).group.sequence > waits.current by {
        assert(state.pending[i].group.sequence > state.current);
    }
    let (grown, least) = lemma_stalls::<F, D>(format, alike, waits, known, shown);
    let (looked, view) = outlook::<F, D>(format, waits);
    assert(sound::<F, D>(format, alike, state.reading(0), seen[0]));
    lemma_one_least(format, shown[0].total, oldest, least);
    assert forall|i: int| 0 <= i < state.pending.len() implies (
    #[trigger] looked.pending[i]).group.sequence == state.pending[i].group.sequence by {
        assert(waits.pending[i].group.sequence == state.pending[i].group.sequence);
    }
    if oldest is Some {
        lemma_one_furthest(format, shown[0].total, reached, view.reached);
    }
    match ahead {
        Some(ahead) => {
            assert(view.next is Some) by {
                assert(has_media(format, shown[ahead.next].total));
            }
            let found = choose|found: Ahead| #[trigger]
                shows(format, shown, 1, found) && found.next == view.next->Some_0.0
                    && view.next->Some_0.1 == found.start.elapsed() && view.newest
                    == found.latest.elapsed();
            lemma_one_ahead::<F, D>(format, alike, state, seen, 1, ahead, found);
            lemma_span(ahead.start, ahead.latest, state.max_age);
            if let Some(first) = oldest {
                lemma_span(first, ahead.latest, state.max_age);
            }
        },
        None => {},
    }
    (grown, looked, view)
}

proof fn lemma_one_furthest<F: Container>(
    format: &F,
    frames: Seq<FrameView>,
    a: Option<Duration>,
    b: Option<Duration>,
)
    requires
        is_furthest(format, frames, a),
        is_furthest(format, frames, b),
    ensures
        a == b,
{
}

/// A group that stalls is waited for while the track is live, and the groups after it are
/// not far enough ahead of it. Nothing is lost, and nothing counts as a break.
pub proof fn law_a_stalled_group_is_waited_for<F: Container, D: FrameDecrypter>(
    format: &F,
    alike: Alike<D::State>,
    state: StateOf<D>,
    seen: Seq<Seq<FrameView>>,
    oldest: Option<Timestamp>,
    reached: Option<Duration>,
    ahead: Option<Ahead>,
)
    requires
        poised::<F, D>(format, alike, state, seen),
        state.track.closed is None,
        stalled(
            state,
            prospects::<F, D>(format, state, seen),
            cursor(format, state, prospects::<F, D>(format, state, seen)),
        ),
        is_least(format, prospects::<F, D>(format, state, seen)[0].total, oldest),
        is_furthest(format, prospects::<F, D>(format, state, seen)[0].total, reached),
        shows_at_most(format, prospects::<F, D>(format, state, seen), 1, ahead),
        ahead matches Some(ahead) ==> !given_up(state.max_age, oldest, reached, ahead),
    ensures
        ({
            let (next, outcome) = event::<F, D>(format, state);
            &&& outcome is Pending
            &&& next.pending.len() == state.pending.len()
            &&& next.pending[0].group.sequence == state.pending[0].group.sequence
            &&& next.current == cursor(format, state, prospects::<F, D>(format, state, seen))
            &&& next.rewind == state.rewind
            &&& next.end == state.end
        }),
{
    let (grown, ready) = lemma_begins::<F, D>(format, alike, state, seen);
    assert(stalled(ready, prospects::<F, D>(format, ready, grown), ready.current)) by {
        assert(ready.pending[0].group.sequence == state.pending[0].group.sequence);
        assert forall|i: int| 1 <= i < ready.pending.len() implies (
        #[trigger] ready.pending[i]).group.sequence > ready.current by {
            assert(state.pending[i].group.sequence > ready.current);
        }
    }
    let (_, looked, _) = lemma_stall_view::<F, D>(
        format,
        alike,
        ready,
        grown,
        false,
        oldest,
        reached,
        ahead,
    );
    assert(looked.pending[0].group.sequence == ready.pending[0].group.sequence);
}

/// What is known of the continuity of the timeline after `count` declared breaks of it:
/// nothing from before them, where there was any.
pub open spec fn rewind_broken(rewind: Rewind, count: nat) -> Rewind {
    if count > 0 {
        Rewind {
            live_edge: None,
            boundary: None,
            discontinuity: if rewind.discontinuity + count <= u64::MAX {
                (rewind.discontinuity + count) as u64
            } else {
                u64::MAX
            },
        }
    } else {
        rewind
    }
}

/// A group that stalls is given up once the groups after it are far enough ahead: the next
/// event comes from the first of them with media. Groups on the way that declare a break are
/// counted, one for each, and where there are any, the live edge from before them is
/// forgotten. While it is open if one of them does, it is waited for. Before anything was
/// delivered, nothing can break.
pub proof fn law_a_stalled_group_is_given_up<F: Container, D: FrameDecrypter>(
    format: &F,
    alike: Alike<D::State>,
    state: StateOf<D>,
    seen: Seq<Seq<FrameView>>,
    oldest: Option<Timestamp>,
    reached: Option<Duration>,
    ahead: Ahead,
)
    requires
        poised::<F, D>(format, alike, state, seen),
        stalled(
            state,
            prospects::<F, D>(format, state, seen),
            cursor(format, state, prospects::<F, D>(format, state, seen)),
        ),
        is_least(format, prospects::<F, D>(format, state, seen)[0].total, oldest),
        is_furthest(format, prospects::<F, D>(format, state, seen)[0].total, reached),
        shows(format, prospects::<F, D>(format, state, seen), 1, ahead),
        given_up(state.max_age, oldest, reached, ahead),
    ensures
        ({
            let (next, outcome) = event::<F, D>(format, state);
            let shown = prospects::<F, D>(format, state, seen);
            let items = shown[ahead.next].whole.items;
            let sequence = state.pending[ahead.next].group.sequence;
            let edged = state.rewind.live_edge is Some;
            let count = declared(shown, ahead.next as nat);
            if edged && !all_decided(shown, ahead.next as nat) {
                &&& outcome is Pending
                &&& next.pending.len() == state.pending.len()
                &&& next.rewind == state.rewind
            } else {
                items.len() > 0 ==> {
                    &&& outcome == Poll::Ready(
                        Ok::<Option<EventView>, Error>(Some(event_of(items[0]))),
                    )
                    &&& next.pending.len() == state.pending.len() - ahead.next
                    &&& next.pending[0].group.sequence == sequence
                    &&& next.current == sequence
                    &&& next.rewind == rewind_after(
                        rewind_broken(
                            state.rewind,
                            if edged {
                                count
                            } else {
                                0
                            },
                        ),
                        sequence,
                        items[0],
                    )
                    &&& next.end == (if edged && count > 0 {
                        None
                    } else {
                        state.end
                    })
                }
            }
        }),
{
    let shown = prospects::<F, D>(format, state, seen);
    let finished = state.track.closed is Some;
    let (grown, ready) = lemma_begins::<F, D>(format, alike, state, seen);
    assert(ready.pending[0].group.sequence == state.pending[0].group.sequence);
    assert(stalled(ready, prospects::<F, D>(format, ready, grown), ready.current)) by {
        assert forall|i: int| 1 <= i < ready.pending.len() implies (
        #[trigger] ready.pending[i]).group.sequence > ready.current by {
            assert(state.pending[i].group.sequence > ready.current);
        }
    }
    let (last, looked, view) = lemma_stall_view::<F, D>(
        format,
        alike,
        ready,
        grown,
        finished,
        oldest,
        reached,
        Some(ahead),
    );
    assert(looked.pending[0].group.sequence == ready.pending[0].group.sequence);
    let then = prospects::<F, D>(format, looked, last);
    assert forall|i: int| 0 <= i < ahead.next implies {
        &&& (#[trigger] looked.pending[i]) == shown[i].whole
        &&& looked.pending[i].group.aborted is None
    } by {
        assert(used_up::<F, D>(format, looked, i));
        assert(sound::<F, D>(format, alike, looked.reading(i), last[i]));
        assert(then[i].whole == shown[i].whole);
    }
    lemma_breaks(looked.pending, shown, ahead.next as nat);
    let edged = state.rewind.live_edge is Some;
    if !edged || all_decided(shown, ahead.next as nat) {
        let count = if edged {
            declared(shown, ahead.next as nat)
        } else {
            0
        };
        let next = looked.skipped(ahead.next, count);
        assert(turn::<F, D>(format, ready, finished) == Turn::Again(next));
        lemma_skipped::<F, D>(
            format,
            alike,
            ready,
            looked,
            last,
            shown,
            ahead.next,
            count,
        );
        assert(ready.pending[ahead.next].group.sequence
            == state.pending[ahead.next].group.sequence);
        assert(run::<F, D>(format, ready, finished) == run::<F, D>(format, next, finished));
        if shown[ahead.next].whole.items.len() > 0 {
            lemma_gives::<F, D>(format, alike, next, last.skip(ahead.next), finished);
        }
    } else {
        assert(turn::<F, D>(format, ready, finished) == Turn::Done(looked, Poll::Pending));
    }
}

/// What is at hand of the group at the cursor is delivered at once, in order.
pub proof fn law_what_is_at_hand_is_delivered<F: Container, D: FrameDecrypter>(
    format: &F,
    alike: Alike<D::State>,
    state: StateOf<D>,
    seen: Seq<Seq<FrameView>>,
)
    requires
        poised::<F, D>(format, alike, state, seen),
        state.pending[0].group.sequence <= cursor(
            format,
            state,
            prospects::<F, D>(format, state, seen),
        ),
        prospects::<F, D>(format, state, seen)[0].whole.items.len() > 0,
    ensures
        ({
            let (next, outcome) = event::<F, D>(format, state);
            let item = prospects::<F, D>(format, state, seen)[0].whole.items[0];
            let sequence = state.pending[0].group.sequence;
            &&& outcome == Poll::Ready(Ok::<Option<EventView>, Error>(Some(event_of(item))))
            &&& next.pending.len() == state.pending.len()
            &&& next.pending[0].group.sequence == sequence
            &&& next.rewind == rewind_after(state.rewind, sequence, item)
            &&& next.end == state.end
        }),
{
    let (grown, ready) = lemma_begins::<F, D>(format, alike, state, seen);
    assert(ready.pending[0].group.sequence == state.pending[0].group.sequence);
    lemma_gives::<F, D>(format, alike, ready, grown, state.track.closed is Some);
}

/// Where a group at the cursor ended and all of it was delivered, that is told, and the
/// group is done with. One of which no wire frame came declares a break of the timeline: it
/// is counted, and the live edge and the end of the audio from before it are forgotten.
/// Before anything was delivered, nothing can break.
pub proof fn law_an_ended_group_is_passed<F: Container, D: FrameDecrypter>(
    format: &F,
    alike: Alike<D::State>,
    state: StateOf<D>,
    seen: Seq<Seq<FrameView>>,
)
    requires
        poised::<F, D>(format, alike, state, seen),
        state.pending[0].group.sequence <= cursor(
            format,
            state,
            prospects::<F, D>(format, state, seen),
        ),
        prospects::<F, D>(format, state, seen)[0].whole.items.len() == 0,
        state.pending[0].group.finished,
    ensures
        ({
            let (next, outcome) = event::<F, D>(format, state);
            let breaks = state.rewind.live_edge is Some && declares_break(
                prospects::<F, D>(format, state, seen)[0],
            );
            &&& outcome == Poll::Ready(Ok::<Option<EventView>, Error>(Some(EventView::GroupEnd)))
            &&& next.pending.len() == state.pending.len() - 1
            &&& next.current == past(
                state.pending[0].group.sequence,
                cursor(format, state, prospects::<F, D>(format, state, seen)),
            )
            &&& next.rewind == rewind_broken(
                state.rewind,
                if breaks {
                    1
                } else {
                    0
                },
            )
            &&& next.end == (if breaks {
                None
            } else {
                state.end
            })
        }),
{
    let (grown, ready) = lemma_begins::<F, D>(format, alike, state, seen);
    assert(ready.pending[0].group.sequence == state.pending[0].group.sequence);
    lemma_ends::<F, D>(format, alike, ready, grown, state.track.closed is Some);
    assert(sound::<F, D>(format, alike, state.reading(0), seen[0]));
    lemma_sound_all::<F, D>(format, alike, state.reading(0), seen[0]);
}

/// The outlook at a gap, in the words of the laws.
#[verifier::spinoff_prover]
pub proof fn lemma_gap_view<F: Container, D: FrameDecrypter>(
    format: &F,
    alike: Alike<D::State>,
    state: StateOf<D>,
    seen: Seq<Seq<FrameView>>,
    finished: bool,
    ahead: Option<Ahead>,
) -> (r: (Seq<Seq<FrameView>>, StateOf<D>, Outlook))
    requires
        underway::<F, D>(format, alike, state, seen),
        state.pending[0].group.sequence > state.current,
        shows_at_most(format, prospects::<F, D>(format, state, seen), 0, ahead),
    ensures
        ({
            let (grown, looked, view) = r;
            let shown = prospects::<F, D>(format, state, seen);
            &&& turn::<F, D>(format, state, finished) == decided::<F, D>(looked, view, finished)
            &&& all_sound::<F, D>(format, alike, looked, grown)
            &&& looked_at(state, looked)
            &&& as_shown(shown, prospects::<F, D>(format, looked, grown))
            &&& view.oldest is None
            &&& view.next == (match ahead {
                Some(ahead) => Some((ahead.next, ahead.start.elapsed())),
                None => None,
            })
            &&& ahead matches Some(ahead) ==> view.overdue(ahead.start.elapsed(), state.max_age)
                == spans_age(ahead.start, ahead.latest, state.max_age)
        }),
{
    let shown = prospects::<F, D>(format, state, seen);
    let known = lemma_checked::<F, D>(format, alike, state, seen);
    let checked = detected::<F, D>(format, state).0;
    assert(checked.pending[0].group.sequence == state.pending[0].group.sequence);
    assert forall|i: int| 0 <= i < checked.pending.len() implies (
    #[trigger] checked.pending[i]).group.sequence > checked.current by {
        if i > 0 {
            assert(checked.pending[0].group.sequence <= checked.pending[i].group.sequence);
        }
    }
    let grown = lemma_ahead::<F, D>(format, alike, checked, known, 0);
    let (looked, view) = outlook::<F, D>(format, checked);
    assert(front::<F, D>(format, checked) == (checked, None::<Turn<D::State>>));
    assert forall|i: int| 0 <= i < state.pending.len() implies (
    #[trigger] looked.pending[i]).group.sequence == state.pending[i].group.sequence by {
        assert(checked.pending[i].group.sequence == state.pending[i].group.sequence);
    }
    if let Some(ahead) = ahead {
        assert(view.next is Some) by {
            assert(has_media(format, shown[ahead.next].total));
        }
        let found = choose|found: Ahead| #[trigger]
            shows(format, shown, 0, found) && found.next == view.next->Some_0.0
                && view.next->Some_0.1 == found.start.elapsed() && view.newest
                == found.latest.elapsed();
        lemma_one_ahead::<F, D>(format, alike, state, seen, 0, ahead, found);
        lemma_span(ahead.start, ahead.latest, state.max_age);
    }
    (grown, looked, view)
}

/// A group that has not arrived is waited for while the track is live, and the media of the
/// groups after it spans less than the maximum age, from the start of the first group with
/// media to the latest timestamp of the last.
pub proof fn law_a_missing_group_is_waited_for<F: Container, D: FrameDecrypter>(
    format: &F,
    alike: Alike<D::State>,
    state: StateOf<D>,
    seen: Seq<Seq<FrameView>>,
    ahead: Option<Ahead>,
)
    requires
        poised::<F, D>(format, alike, state, seen),
        state.track.closed is None,
        state.pending[0].group.sequence > cursor(
            format,
            state,
            prospects::<F, D>(format, state, seen),
        ),
        shows_at_most(format, prospects::<F, D>(format, state, seen), 0, ahead),
        ahead matches Some(ahead) ==> !spans_age(ahead.start, ahead.latest, state.max_age),
    ensures
        ({
            let (next, outcome) = event::<F, D>(format, state);
            &&& outcome is Pending
            &&& next.pending.len() == state.pending.len()
            &&& next.current == cursor(format, state, prospects::<F, D>(format, state, seen))
            &&& next.rewind == state.rewind
            &&& next.end == state.end
        }),
{
    let (grown, ready) = lemma_begins::<F, D>(format, alike, state, seen);
    assert(ready.pending[0].group.sequence == state.pending[0].group.sequence);
    let (_, looked, _) = lemma_gap_view::<F, D>(format, alike, ready, grown, false, ahead);
    assert(looked.pending[0].group.sequence == ready.pending[0].group.sequence);
}

/// A group that has not arrived is given up once the media of the groups after it spans the
/// maximum age, or the track has ended: reading goes on with the first group at hand. That
/// is no break of the timeline.
pub proof fn law_a_missing_group_is_given_up<F: Container, D: FrameDecrypter>(
    format: &F,
    alike: Alike<D::State>,
    state: StateOf<D>,
    seen: Seq<Seq<FrameView>>,
    ahead: Ahead,
)
    requires
        poised::<F, D>(format, alike, state, seen),
        state.pending[0].group.sequence > cursor(
            format,
            state,
            prospects::<F, D>(format, state, seen),
        ),
        shows(format, prospects::<F, D>(format, state, seen), 0, ahead),
        state.track.closed is Some || spans_age(ahead.start, ahead.latest, state.max_age),
        prospects::<F, D>(format, state, seen)[0].whole.items.len() > 0,
    ensures
        ({
            let (next, outcome) = event::<F, D>(format, state);
            let item = prospects::<F, D>(format, state, seen)[0].whole.items[0];
            let sequence = state.pending[0].group.sequence;
            &&& outcome == Poll::Ready(Ok::<Option<EventView>, Error>(Some(event_of(item))))
            &&& next.pending.len() == state.pending.len()
            &&& next.pending[0].group.sequence == sequence
            &&& next.current == sequence
            &&& next.rewind == rewind_after(state.rewind, sequence, item)
            &&& next.end == state.end
        }),
{
    let shown = prospects::<F, D>(format, state, seen);
    let finished = state.track.closed is Some;
    let (grown, ready) = lemma_begins::<F, D>(format, alike, state, seen);
    assert(ready.pending[0].group.sequence == state.pending[0].group.sequence);
    let (last, looked, _) = lemma_gap_view::<F, D>(
        format,
        alike,
        ready,
        grown,
        finished,
        Some(ahead),
    );
    assert(looked.pending[0].group.sequence == ready.pending[0].group.sequence);
    lemma_skipped::<F, D>(format, alike, ready, looked, last, shown, 0, 0);
    let next = looked.skipped(0, 0);
    assert(looked.pending.skip(0) =~= looked.pending);
    assert(next == looked.advanced(0));
    assert(turn::<F, D>(format, ready, finished) == Turn::Again(next));
    assert(run::<F, D>(format, ready, finished) == run::<F, D>(format, next, finished));
    lemma_gives::<F, D>(format, alike, next, last.skip(0), finished);
}

} // verus!
