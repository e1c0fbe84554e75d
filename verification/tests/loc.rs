//! The LOC wire format.
use moq_mux::container::loc::{loc_to_media, LocFrame, Wire};
use moq_mux::container::{Container, Frame, FrameWriter, Kind, MoqFrameWriter, ReadFrame};
use moq_mux::error::{HangError, LocError};
use moq_mux::net::Group;
use moq_mux::poll::Poll;
use moq_mux::time::{Timescale, Timestamp, MAX_VARINT};
use moq_mux::Error;

fn ts(micros: u64) -> Timestamp {
    Timestamp::from_micros(micros).unwrap()
}

fn media(timestamp: Timestamp, payload: &[u8]) -> Frame {
    Frame { timestamp, payload: payload.to_vec(), keyframe: true, duration: Some(ts(5)) }
}

fn decode(payload: &[u8]) -> Result<Vec<Frame>, Error> {
    Wire.decode(ReadFrame { sequence_number: 3, timestamp: ts(99), payload: payload.to_vec() })
}

#[test]
fn a_frame_is_its_timestamp_and_its_payload() {
    let cases: [(u64, &[u8]); 4] = [
        (7, &[2, 0x10, 7]),
        (300, &[3, 0x10, 0x41, 0x2c]),
        (12_345_678, &[5, 0x10, 0x80, 0xbc, 0x61, 0x4e]),
        (MAX_VARINT, &[9, 0x10, 0xff, 0xff, 0xff, 0xff, 0xff, 0xff, 0xff, 0xff]),
    ];
    for (micros, header) in cases {
        let bytes = Wire.encode(&media(ts(micros), b"abc")).unwrap();
        let mut expected = header.to_vec();
        expected.extend_from_slice(b"abc");
        assert_eq!(bytes, expected);
    }
}

#[test]
fn what_was_written_is_read_back() {
    for micros in [0, 63, 64, 16_383, 16_384, 0x3fff_ffff, 0x4000_0000, MAX_VARINT] {
        for payload in [b"".as_slice(), b"payload"] {
            let bytes = Wire.encode(&media(ts(micros), payload)).unwrap();
            let frames = decode(&bytes).unwrap();
            assert_eq!(frames.len(), 1);
            assert_eq!(frames[0].timestamp, ts(micros));
            assert_eq!(frames[0].payload, payload);
            assert_eq!(frames[0].duration, None);
            assert!(!frames[0].keyframe);
        }
    }
}

#[test]
fn timestamps_are_written_in_microseconds() {
    let millis = Timescale::new(1_000).unwrap();
    let stamp = Timestamp::new(33, millis).unwrap();
    let mut group = Group::new(0);
    let mut writer = MoqFrameWriter { group: &mut group };
    Wire.write(&mut writer, &vec![media(stamp, b"a"), media(ts(8), b"b")]).unwrap();
    assert_eq!(writer.next_sequence_number(), 2);
    group.finish().unwrap();

    match Wire.poll_read(&mut group) {
        Poll::Ready(Ok(Some(frames))) => assert_eq!(frames[0].timestamp, ts(33_000)),
        other => panic!("expected frames, got {other:?}"),
    }
    let (_, frame) = group.pop_frame().unwrap();
    assert_eq!(frame.timestamp, ts(8));
    assert!(matches!(Wire.poll_read(&mut group), Poll::Ready(Ok(None))));
}

#[test]
fn the_wire_frame_takes_the_timescale_of_the_group() {
    let millis = Timescale::new(1_000).unwrap();
    let stamp = Timestamp::new(33, millis).unwrap();
    let expected = [(Group::new(0), ts(33_000)), (Group::new(0).with_timescale(millis), stamp)];
    for (mut group, expected) in expected {
        let mut writer = MoqFrameWriter { group: &mut group };
        Wire.write(&mut writer, &vec![media(stamp, b"a")]).unwrap();
        let (_, frame) = group.pop_frame().unwrap();
        assert_eq!(frame.timestamp, expected);
        // What the payload carries does not depend on it.
        assert_eq!(frame.payload, Wire.encode(&media(stamp, b"a")).unwrap());
    }
}

#[test]
fn a_timestamp_beyond_range_is_refused() {
    let seconds = Timescale::new(1).unwrap();
    let stamp = Timestamp::new(MAX_VARINT, seconds).unwrap();
    let expected = Error::Hang(HangError::TimestampOverflow);
    assert_eq!(Wire.encode(&media(stamp, b"a")), Err(expected.clone()));

    let mut group = Group::new(0);
    let mut writer = MoqFrameWriter { group: &mut group };
    let frames = vec![media(ts(1), b"a"), media(stamp, b"b"), media(ts(2), b"c")];
    assert_eq!(Wire.write(&mut writer, &frames), Err(expected));
    assert_eq!(group.frame_count(), 1);
}

#[test]
fn a_closed_group_refuses_loc_frames() {
    let mut group = Group::new(0);
    group.finish().unwrap();
    let mut writer = MoqFrameWriter { group: &mut group };
    assert_eq!(
        Wire.write(&mut writer, &vec![media(ts(1), b"a")]),
        Err(Error::Moq(moq_mux::net::Error::Closed))
    );
}

#[test]
fn a_frame_may_name_its_timescale() {
    let frames = decode(&[4, 0x08, 25, 0x08, 50, 0xaa]).unwrap();
    assert_eq!(frames[0].timestamp, Timestamp::new(50, Timescale::new(25).unwrap()).unwrap());
    assert_eq!(frames[0].timestamp.as_micros(), 2_000_000);
    assert_eq!(frames[0].payload, vec![0xaa]);
}

#[test]
fn malformed_frames_are_told_apart() {
    assert_eq!(decode(&[]).unwrap_err(), Error::Loc(LocError::ShortBuffer));
    assert_eq!(decode(&[0]).unwrap_err(), Error::Loc(LocError::MissingTimestamp));
    assert_eq!(decode(&[9, 0x10]).unwrap_err(), Error::Loc(LocError::MalformedProperties));
    assert_eq!(decode(&[1, 0x10]).unwrap_err(), Error::Loc(LocError::ShortBuffer));
    assert_eq!(
        decode(&[4, 0x08, 0, 0x08, 1]).unwrap_err(),
        Error::Loc(LocError::MalformedProperties)
    );
}

#[test]
fn a_loc_frame_becomes_media() {
    let loc = |timestamp, timescale| LocFrame { timestamp, timescale, payload: vec![1, 2] };
    let frame = loc_to_media(loc(9, None)).unwrap();
    assert_eq!(frame.timestamp, ts(9));
    assert_eq!(frame.payload, vec![1, 2]);
    let frame = loc_to_media(loc(9, Some(90_000))).unwrap();
    assert_eq!(frame.timestamp, Timestamp::new(9, Timescale::new(90_000).unwrap()).unwrap());
    assert_eq!(loc_to_media(loc(9, Some(0))).unwrap().timestamp, ts(9));
    assert_eq!(loc_to_media(loc(9, Some(u64::MAX))).unwrap().timestamp, ts(9));
    assert_eq!(
        loc_to_media(loc(MAX_VARINT + 1, None)).unwrap_err(),
        Error::Hang(HangError::TimestampOverflow)
    );
}

#[test]
fn the_format_has_no_durations() {
    let wire = Wire::default();
    assert_eq!(wire.kind(), Kind::Data);
    assert_eq!(wire.end(&media(ts(1), b"")), None);
    let mut group = Group::new(0);
    let mut writer = MoqFrameWriter { group: &mut group };
    assert_eq!(wire.finish_group(&mut writer, Some(ts(1))), Ok(()));
    assert_eq!(group.frame_count(), 0);
}
