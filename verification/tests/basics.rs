//! Time, groups, subscriptions and errors.
use moq_mux::container::{close_duration, Frame};
use moq_mux::error::message;
use moq_mux::net::{
    self, Group, GroupEvent, Subscriber, Subscription, TrackInfo, WireFrame, BATCH,
    MAX_CACHE_BYTES, MAX_GROUP_FRAMES,
};
use moq_mux::payload::{PayloadContext, PayloadError};
use moq_mux::poll::Poll;
use moq_mux::time::{Duration, TimeOverflow, Timescale, Timestamp, MAX_VARINT};
use moq_mux::Error;

fn ts(micros: u64) -> Timestamp {
    Timestamp::from_micros(micros).unwrap()
}

fn at(value: u64, units: u64) -> Timestamp {
    Timestamp::new(value, Timescale::new(units).unwrap()).unwrap()
}

#[test]
fn scales_and_timestamps_stay_in_range() {
    assert_eq!(Timescale::new(0), Err(TimeOverflow));
    assert_eq!(Timescale::new(MAX_VARINT + 1), Err(TimeOverflow));
    assert_eq!(Timescale::new(90_000).unwrap().as_u64(), 90_000);
    assert_eq!(Timescale::micro().as_u64(), 1_000_000);
    assert_eq!(Timestamp::from_micros(MAX_VARINT + 1), Err(TimeOverflow));
    assert_eq!(ts(MAX_VARINT).value(), MAX_VARINT);
    assert_eq!(at(7, 25).scale(), Timescale::new(25).unwrap());
}

#[test]
fn timestamps_convert_rounding_down() {
    assert_eq!(at(1, 3).as_micros(), 333_333);
    assert_eq!(at(1, 3).as_duration(), Duration { nanos: 333_333_333 });
    assert_eq!(at(1, 3).convert(Timescale::micro()), Ok(ts(333_333)));
    assert_eq!(at(90_000, 90_000).convert(Timescale::new(25).unwrap()), Ok(at(25, 25)));
    assert_eq!(ts(5).convert(Timescale::micro()), Ok(ts(5)));
    assert_eq!(at(MAX_VARINT, 1).convert(Timescale::micro()), Err(TimeOverflow));
}

#[test]
fn timestamps_are_ordered_across_scales() {
    assert!(at(1, 25).before(ts(40_001)));
    assert!(ts(39_999).before(at(1, 25)));
    assert!(at(1, 25).before(ts(40_000)));
    assert!(!ts(40_000).before(at(1, 25)));
    assert!(!ts(1).before(ts(1)));
    assert_eq!(at(1, 25).min(ts(39_999)), ts(39_999));
    assert_eq!(at(1, 25).max(ts(40_001)), ts(40_001));
    assert_eq!(ts(5).min(ts(6)), ts(5));
    assert_eq!(ts(5).max(ts(6)), ts(6));
    assert_ne!(at(1, 25), ts(40_000));
}

#[test]
fn durations_saturate() {
    let (short, long) = (Duration::from_millis(999), Duration::from_secs(1));
    assert_eq!(long.nanos, 1_000_000_000);
    assert_eq!(long.saturating_sub(short), Duration::from_millis(1));
    assert_eq!(short.saturating_sub(long), Duration { nanos: 0 });
    assert_eq!(short.max(long), long);
    assert_eq!(short.min(long), short);
}

#[test]
fn a_poll_is_ready_or_pending() {
    assert!(Poll::Ready(1u8).is_ready());
    assert!(!Poll::Ready(1u8).is_pending());
    assert!(Poll::<u8>::Pending.is_pending());
    assert!(!Poll::<u8>::Pending.is_ready());
}

fn frame(timestamp: Timestamp, duration: Option<Timestamp>) -> Frame {
    Frame { timestamp, duration, payload: vec![1], keyframe: false }
}

#[test]
fn a_duration_is_stamped_once() {
    let mut open = frame(at(1, 25), None);
    close_duration(&mut open, ts(73_000));
    assert_eq!(open.duration, Some(ts(33_000)));
    close_duration(&mut open, ts(99_000));
    assert_eq!(open.duration, Some(ts(33_000)));
    assert_eq!(open.timestamp, at(1, 25));
    assert_eq!(open.payload, vec![1]);

    let mut timed = frame(ts(0), Some(ts(7)));
    close_duration(&mut timed, ts(9));
    assert_eq!(timed.duration, Some(ts(7)));
}

#[test]
fn a_bound_that_is_not_after_the_frame_stamps_nothing() {
    for bound in [ts(0), ts(39_999), ts(40_000)] {
        let mut open = frame(at(1, 25), None);
        close_duration(&mut open, bound);
        assert_eq!(open.duration, None);
    }
    let mut open = frame(ts(0), None);
    close_duration(&mut open, at(MAX_VARINT, 1));
    assert_eq!(open.duration, None);
}

fn wire(micros: u64) -> WireFrame {
    WireFrame { timestamp: ts(micros), payload: vec![micros as u8] }
}

#[test]
fn a_group_hands_out_its_frames_and_ends() {
    let mut group = Group::new(5);
    assert_eq!(group.sequence(), 5);
    assert_eq!(group.poll_finished(), Poll::Pending);
    assert!(group.apply(GroupEvent::Frame(wire(1))));
    assert!(group.apply(GroupEvent::Frame(wire(2))));
    assert_eq!(group.frame_count(), 2);
    assert_eq!(group.next_number(), 0);
    assert_eq!(group.pop_frame().unwrap().0, 0);
    assert_eq!(group.next_number(), 1);
    assert_eq!(group.frame_count(), 2);
    assert!(group.apply(GroupEvent::Finished));
    assert_eq!(group.poll_finished(), Poll::Ready(Ok(())));
    assert!(!group.apply(GroupEvent::Frame(wire(3))));
    // The second frame is of the batch that the first one opened, and stays.
    assert!(group.apply(GroupEvent::Aborted(net::Error::Old)));
    assert_eq!(group.poll_finished(), Poll::Ready(Err(net::Error::Old)));
    assert_eq!(group.pop_frame().unwrap().1.payload, vec![2]);
    assert_eq!(group.poll_finished(), Poll::Ready(Ok(())));
    assert!(!group.apply(GroupEvent::Finished));
    assert!(!group.apply(GroupEvent::Aborted(net::Error::Cancel)));
    assert_eq!(group.finish(), Err(net::Error::Old));
    assert_eq!(group.abort(net::Error::Cancel), Err(net::Error::Old));
}

#[test]
fn an_abort_drops_what_no_batch_took() {
    // Nothing was read: nothing is left, finished or not.
    for finished in [false, true] {
        let mut group = Group::new(5);
        assert_eq!(group.write_frame(ts(0), vec![1]), Ok(()));
        if finished {
            assert_eq!(group.finish(), Ok(()));
        }
        assert_eq!(group.abort(net::Error::Old), Ok(()));
        assert!(group.pop_frame().is_none());
        assert_eq!(group.poll_finished(), Poll::Ready(Err(net::Error::Old)));
        assert_eq!(group.frame_count(), 1);
    }
    // The first read takes eight frames: seven more come after the abort.
    let mut group = Group::new(5);
    for number in 0..BATCH as u8 + 2 {
        assert_eq!(group.write_frame(ts(0), vec![number]), Ok(()));
    }
    assert_eq!(group.pop_frame().unwrap().1.payload, vec![0]);
    assert_eq!(group.abort(net::Error::Cancel), Ok(()));
    for number in 1..BATCH as u8 {
        assert_eq!(group.pop_frame().unwrap().1.payload, vec![number]);
    }
    assert!(group.pop_frame().is_none());
    assert_eq!(group.poll_finished(), Poll::Ready(Err(net::Error::Cancel)));
}

#[test]
fn a_group_keeps_within_its_limits() {
    let size = MAX_CACHE_BYTES as usize;
    let mut group = Group::new(5);
    assert_eq!(group.write_frame(ts(0), vec![0; size + 1]), Err(net::Error::FrameTooLarge));
    assert_eq!(group.poll_finished(), Poll::Pending);
    assert_eq!(group.write_frame(ts(0), vec![0; size]), Ok(()));
    assert_eq!(group.write_frame(ts(0), vec![]), Ok(()));
    assert_eq!(group.write_frame(ts(0), vec![0]), Err(net::Error::GroupTooLarge));
    assert_eq!(group.poll_finished(), Poll::Ready(Err(net::Error::GroupTooLarge)));
    assert_eq!(group.write_frame(ts(0), vec![]), Err(net::Error::GroupTooLarge));
    // A frame that is too large on its own is refused for that, whatever the group.
    assert_eq!(group.write_frame(ts(0), vec![0; size + 1]), Err(net::Error::FrameTooLarge));
    assert!(group.pop_frame().is_none());

    let mut group = Group::new(6);
    for _ in 0..MAX_GROUP_FRAMES {
        assert_eq!(group.write_frame(ts(0), vec![]), Ok(()));
    }
    assert_eq!(group.frame_count(), 8192);
    assert_eq!(group.pop_frame().unwrap().0, 0);
    assert_eq!(group.write_frame(ts(0), vec![]), Err(net::Error::GroupTooLarge));
    assert!(!group.apply(GroupEvent::Finished));
}

#[test]
fn a_group_takes_timestamps_at_its_timescale() {
    let (seconds, thirds) = (Timescale::new(1).unwrap(), Timescale::new(3).unwrap());
    let mut group = Group::new(5).with_timescale(thirds);
    assert_eq!(group.write_frame(ts(1_700_000), vec![]), Ok(()));
    let (_, frame) = group.pop_frame().unwrap();
    assert_eq!(frame.timestamp, Timestamp::new(5, thirds).unwrap());
    let late = Timestamp::new(MAX_VARINT, seconds).unwrap();
    assert_eq!(group.write_frame(late, vec![]), Err(net::Error::TimestampMismatch));
    assert_eq!(group.frame_count(), 1);
    // What the transport reports has the timescale of its track already.
    assert!(group.apply(GroupEvent::Frame(WireFrame { timestamp: late, payload: vec![] })));
    assert_eq!(group.pop_frame().unwrap().1.timestamp, late);
}

#[test]
fn an_aborted_group_takes_nothing() {
    let mut group = Group::new(5);
    assert_eq!(group.abort(net::Error::Remote(3)), Ok(()));
    assert_eq!(group.write_frame(ts(0), vec![]), Err(net::Error::Remote(3)));
    assert_eq!(group.poll_finished(), Poll::Ready(Err(net::Error::Remote(3))));
}

#[test]
fn a_subscriber_hands_out_groups_as_they_came() {
    let info = TrackInfo { max_age: Duration::from_secs(5) };
    let subscription = Subscription { start: None, max_age: Duration::from_secs(1) };
    let mut subscriber = Subscriber::new(info, subscription.with_start(2));
    assert_eq!(subscriber.info(), info);
    assert_eq!(subscriber.subscription().start, Some(2));
    assert!(matches!(subscriber.poll_recv_group(), Poll::Pending));
    assert!(subscriber.announce(4));
    assert!(subscriber.announce(3));
    assert!(matches!(subscriber.apply(3, GroupEvent::Frame(wire(9))), Ok(true)));
    assert!(matches!(subscriber.apply(8, GroupEvent::Finished), Err(GroupEvent::Finished)));
    assert!(subscriber.close(Ok(())));
    assert!(!subscriber.close(Err(net::Error::Cancel)));
    assert!(!subscriber.announce(5));
    for expected in [4u64, 3] {
        match subscriber.poll_recv_group() {
            Poll::Ready(Ok(Some(group))) => assert_eq!(group.sequence(), expected),
            other => panic!("expected a group, got {other:?}"),
        }
    }
    assert!(matches!(subscriber.poll_recv_group(), Poll::Ready(Ok(None))));
    subscriber.update(subscription.with_max_age(Duration::from_millis(7)));
    assert_eq!(subscriber.subscription().max_age, Duration::from_millis(7));
    assert_eq!(subscriber.subscription().start, None);
}

fn strings(chain: &[&str]) -> Vec<String> {
    chain.iter().map(|text| text.to_string()).collect()
}

#[test]
fn a_message_names_every_cause() {
    assert_eq!(message(&strings(&[])), "");
    assert_eq!(message(&strings(&["parse failed"])), "parse failed");
    assert_eq!(message(&strings(&["outer", "middle", "inner"])), "outer: middle: inner");
}

fn unknown(json: &str) -> hang::catalog::UnknownContainer {
    match serde_json::from_str::<hang::catalog::Container>(json).unwrap() {
        hang::catalog::Container::Unknown(container) => container,
        other => panic!("expected an unknown container, got {other:?}"),
    }
}

#[test]
fn an_unsupported_container_is_named() {
    let error = Error::unsupported_container(&unknown(r#"{"kind":"ogg","kin":"x"}"#));
    assert_eq!(error, Error::UnsupportedContainer("ogg".into()));
    assert_eq!(
        Error::unsupported_kind(Some("ogg")),
        Error::UnsupportedContainer("ogg".into())
    );
    assert_eq!(
        Error::unsupported_kind(None),
        Error::UnsupportedContainer("<missing>".into())
    );
}

#[test]
fn a_container_without_a_kind_is_missing_one() {
    for json in [r#"{"codec":"ogg"}"#, r#"{"kind":7}"#] {
        if let Ok(hang::catalog::Container::Unknown(container)) =
            serde_json::from_str::<hang::catalog::Container>(json)
        {
            assert_eq!(
                Error::unsupported_container(&container),
                Error::UnsupportedContainer("<missing>".into())
            );
        }
    }
}

#[test]
fn a_payload_error_tells_its_reason() {
    let error = PayloadError::Processor("no key".into());
    assert_eq!(error.text(), "payload processor error: no key");
    let context = PayloadContext { track: "video".into(), timestamp: ts(4) };
    assert_eq!((context.track.as_str(), context.timestamp), ("video", ts(4)));
}
