//! Scenarios of reading a track, and a single group.
use moq_mux::container::buffer::{GroupBuffer, Item};
use moq_mux::container::{
    Consumer, Container, Event, Frame, FrameDecrypter, FrameWriter, GroupConsumer, Kind,
    MoqFrameWriter, ReadFrame, Reset,
};
use moq_mux::encryption::EncryptionError;
use moq_mux::net::{self, Group, GroupEvent, Subscriber, Subscription, TrackInfo, WireFrame};
use moq_mux::poll::Poll;
use moq_mux::time::{Duration, Timestamp};
use moq_mux::Error;

fn ts(micros: u64) -> Timestamp {
    Timestamp::from_micros(micros).unwrap()
}

fn millis(millis: u64) -> Duration {
    Duration::from_millis(millis)
}

/// A decrypter for tracks that are not protected.
#[derive(Debug)]
struct Plain;

impl FrameDecrypter for Plain {
    type State = ();

    fn decrypt(&mut self, _: u64, ciphertext: &Vec<u8>) -> Result<Vec<u8>, EncryptionError> {
        Ok(ciphertext.clone())
    }
}

/// A container that prefixes each payload with its timestamp. Where the track has
/// sample durations, an empty payload marks the end of the frame before it.
#[derive(Debug, Clone, Copy)]
struct Legacy(Kind);

fn legacy_bytes(timestamp: Timestamp, payload: &[u8]) -> Vec<u8> {
    let mut bytes = (timestamp.as_micros() as u64).to_le_bytes().to_vec();
    bytes.extend_from_slice(payload);
    bytes
}

fn split_micros(bytes: &[u8]) -> (u64, &[u8]) {
    let mut micros = [0u8; 8];
    micros.copy_from_slice(&bytes[..8]);
    (u64::from_le_bytes(micros), &bytes[8..])
}

impl Container for Legacy {
    fn write<W: FrameWriter>(&self, output: &mut W, frames: &Vec<Frame>) -> Result<(), Error> {
        for frame in frames {
            output.write_frame(frame.timestamp, legacy_bytes(frame.timestamp, &frame.payload))?;
        }
        Ok(())
    }

    fn decode(&self, frame: ReadFrame) -> Result<Vec<Frame>, Error> {
        let (micros, payload) = split_micros(&frame.payload);
        Ok(vec![Frame {
            timestamp: ts(micros),
            payload: payload.to_vec(),
            keyframe: false,
            duration: None,
        }])
    }

    fn end(&self, frame: &Frame) -> Option<Timestamp> {
        if self.0 != Kind::Data && frame.payload.is_empty() {
            Some(frame.timestamp)
        } else {
            None
        }
    }

    fn kind(&self) -> Kind {
        self.0
    }
}

/// The LOC wire format on a track with sample durations.
#[derive(Debug, Clone, Copy)]
struct Loc(Kind);

impl Container for Loc {
    fn write<W: FrameWriter>(&self, output: &mut W, frames: &Vec<Frame>) -> Result<(), Error> {
        moq_mux::container::loc::Wire.write(output, frames)
    }

    fn decode(&self, frame: ReadFrame) -> Result<Vec<Frame>, Error> {
        moq_mux::container::loc::Wire.decode(frame)
    }

    fn end(&self, frame: &Frame) -> Option<Timestamp> {
        if self.0 != Kind::Data && frame.payload.is_empty() {
            Some(frame.timestamp)
        } else {
            None
        }
    }

    fn kind(&self) -> Kind {
        self.0
    }
}

/// A container that carries a duration for each sample.
#[derive(Debug, Clone, Copy)]
struct DurationWire;

fn encode_duration_frame(timestamp: Timestamp, duration: Timestamp) -> Vec<u8> {
    let mut bytes = (timestamp.as_micros() as u64).to_le_bytes().to_vec();
    bytes.extend_from_slice(&(duration.as_micros() as u64).to_le_bytes());
    bytes.extend_from_slice(&[0xDE, 0xAD]);
    bytes
}

impl Container for DurationWire {
    fn write<W: FrameWriter>(&self, output: &mut W, frames: &Vec<Frame>) -> Result<(), Error> {
        for frame in frames {
            output.write_frame(frame.timestamp, encode_duration_frame(frame.timestamp, ts(0)))?;
        }
        Ok(())
    }

    fn decode(&self, frame: ReadFrame) -> Result<Vec<Frame>, Error> {
        let (timestamp, rest) = split_micros(&frame.payload);
        let (duration, payload) = split_micros(rest);
        Ok(vec![Frame {
            timestamp: ts(timestamp),
            payload: payload.to_vec(),
            keyframe: false,
            duration: Some(ts(duration)),
        }])
    }

    fn end(&self, _: &Frame) -> Option<Timestamp> {
        None
    }

    fn kind(&self) -> Kind {
        Kind::Data
    }
}

/// A container for which the payload `FAIL` is malformed.
#[derive(Debug, Clone, Copy)]
struct FailingDecode;

impl Container for FailingDecode {
    fn write<W: FrameWriter>(&self, output: &mut W, frames: &Vec<Frame>) -> Result<(), Error> {
        for frame in frames {
            output.write_frame(ts(0), frame.payload.clone())?;
        }
        Ok(())
    }

    fn decode(&self, frame: ReadFrame) -> Result<Vec<Frame>, Error> {
        if frame.payload == b"FAIL" {
            return Err(Error::UnknownFormat("malformed payload".into()));
        }
        let (micros, _) = split_micros(&frame.payload);
        Ok(vec![Frame {
            timestamp: ts(micros),
            payload: Vec::new(),
            keyframe: false,
            duration: None,
        }])
    }

    fn end(&self, _: &Frame) -> Option<Timestamp> {
        None
    }

    fn kind(&self) -> Kind {
        Kind::Data
    }
}

/// A container that carries several samples in one wire frame.
#[derive(Debug, Clone, Copy)]
struct Batch;

impl Container for Batch {
    fn write<W: FrameWriter>(&self, output: &mut W, frames: &Vec<Frame>) -> Result<(), Error> {
        let mut bytes = Vec::new();
        for frame in frames {
            bytes.extend_from_slice(&(frame.timestamp.as_micros() as u64).to_le_bytes());
            bytes.push(frame.keyframe as u8);
            bytes.push(frame.payload.len() as u8);
            bytes.extend_from_slice(&frame.payload);
        }
        match frames.first() {
            Some(frame) => output.write_frame(frame.timestamp, bytes),
            None => Ok(()),
        }
    }

    fn decode(&self, frame: ReadFrame) -> Result<Vec<Frame>, Error> {
        let mut frames = Vec::new();
        let mut rest = frame.payload.as_slice();
        while !rest.is_empty() {
            let (micros, after) = split_micros(rest);
            let (keyframe, len) = (after[0] != 0, after[1] as usize);
            frames.push(Frame {
                timestamp: ts(micros),
                duration: Some(ts(20_000)),
                payload: after[2..2 + len].to_vec(),
                keyframe,
            });
            rest = &after[2 + len..];
        }
        Ok(frames)
    }

    fn end(&self, _: &Frame) -> Option<Timestamp> {
        None
    }

    fn kind(&self) -> Kind {
        Kind::Video
    }
}

/// The publishing side of one group, with what was not sent yet.
struct Feed {
    group: Group,
    announced: bool,
    queued: Vec<GroupEvent>,
}

impl Feed {
    /// Queues what was written into the group.
    fn queue(&mut self) {
        while let Some((_, frame)) = self.group.pop_frame() {
            self.queued.push(GroupEvent::Frame(frame));
        }
    }
}

/// The publishing side of a track. What it is told is sent when the reader reads.
struct Track {
    groups: Vec<Feed>,
    closed: Option<Result<(), net::Error>>,
}

impl Track {
    fn new() -> Track {
        Track { groups: Vec::new(), closed: None }
    }

    fn feed(&mut self, sequence: u64) -> &mut Feed {
        self.groups.iter_mut().find(|feed| feed.group.sequence() == sequence).unwrap()
    }

    fn create_group(&mut self, sequence: u64) {
        let group = Group::new(sequence);
        self.groups.push(Feed { group, announced: false, queued: Vec::new() });
    }

    fn write_raw(&mut self, sequence: u64, timestamp: Timestamp, payload: Vec<u8>) {
        let feed = self.feed(sequence);
        feed.group.write_frame(timestamp, payload).unwrap();
        feed.queue();
    }

    /// Writes a frame into a group. A write that ends the group early is told as such.
    fn try_write<F: Container>(
        &mut self,
        sequence: u64,
        format: F,
        frame: Frame,
    ) -> Result<(), Error> {
        let feed = self.feed(sequence);
        let mut writer = MoqFrameWriter { group: &mut feed.group };
        let result = format.write(&mut writer, &vec![frame]);
        feed.queue();
        if let Poll::Ready(Err(error)) = feed.group.poll_finished() {
            feed.queued.push(GroupEvent::Aborted(error));
        }
        result
    }

    fn write<F: Container>(&mut self, sequence: u64, format: F, frame: Frame) {
        self.try_write(sequence, format, frame).unwrap();
    }

    fn write_media(&mut self, sequence: u64, timestamp: Timestamp) {
        self.write(sequence, Legacy(Kind::Data), media(timestamp, &[0xDE, 0xAD]));
    }

    fn write_marker(&mut self, sequence: u64, timestamp: Timestamp) {
        self.write(sequence, Legacy(Kind::Data), media(timestamp, &[]));
    }

    fn write_duration(&mut self, sequence: u64, timestamp: Timestamp, duration: Timestamp) {
        self.write_raw(sequence, timestamp, encode_duration_frame(timestamp, duration));
    }

    fn finish_group(&mut self, sequence: u64) {
        let feed = self.feed(sequence);
        feed.group.finish().unwrap();
        feed.queued.push(GroupEvent::Finished);
    }

    fn abort_group(&mut self, sequence: u64, error: net::Error) {
        let feed = self.feed(sequence);
        feed.group.abort(error).unwrap();
        feed.queued.push(GroupEvent::Aborted(error));
    }

    fn write_group(&mut self, sequence: u64, timestamps: &[Timestamp]) {
        self.create_group(sequence);
        for timestamp in timestamps {
            self.write_media(sequence, *timestamp);
        }
        self.finish_group(sequence);
    }

    fn finish(&mut self) {
        self.closed = Some(Ok(()));
    }

    fn abort(&mut self, error: net::Error) {
        self.closed = Some(Err(error));
    }

    /// Sends what was not sent yet.
    fn sync<F: Container>(&mut self, consumer: &mut Consumer<F, Plain>) {
        for feed in self.groups.iter_mut() {
            let sequence = feed.group.sequence();
            if !feed.announced {
                assert!(consumer.announce(sequence));
                feed.announced = true;
            }
            for event in feed.queued.drain(..) {
                consumer.receive(sequence, event);
            }
        }
        if let Some(result) = self.closed {
            consumer.close(result);
        }
    }

    fn poll<F: Container>(
        &mut self,
        consumer: &mut Consumer<F, Plain>,
    ) -> Poll<Result<Option<Frame>, Error>> {
        self.sync(consumer);
        consumer.poll_read()
    }

    /// The next frame, which has to be there.
    fn read<F: Container>(&mut self, consumer: &mut Consumer<F, Plain>) -> Frame {
        match self.poll(consumer) {
            Poll::Ready(Ok(Some(frame))) => frame,
            other => panic!("expected a frame, got {other:?}"),
        }
    }

    /// Every frame there is, up to the point where the reader has to wait.
    fn drain<F: Container>(&mut self, consumer: &mut Consumer<F, Plain>) -> Vec<Frame> {
        let mut frames = Vec::new();
        loop {
            match self.poll(consumer) {
                Poll::Ready(Ok(Some(frame))) => frames.push(frame),
                Poll::Ready(Ok(None)) | Poll::Pending => return frames,
                Poll::Ready(Err(error)) => panic!("{error:?}"),
            }
        }
    }

    /// Every frame up to the end of the track, which has to be reached.
    fn read_all<F: Container>(&mut self, consumer: &mut Consumer<F, Plain>) -> Vec<Frame> {
        let frames = self.drain(consumer);
        assert!(
            matches!(self.poll(consumer), Poll::Ready(Ok(None))),
            "the track did not end after {} frames",
            frames.len()
        );
        frames
    }
}

fn media(timestamp: Timestamp, payload: &[u8]) -> Frame {
    Frame { timestamp, payload: payload.to_vec(), keyframe: false, duration: None }
}

fn micros(frames: &[Frame]) -> Vec<u128> {
    frames.iter().map(|frame| frame.timestamp.as_micros()).collect()
}

fn subscribe<F: Container>(
    format: F,
    info: u64,
    max_age: u64,
    start: Option<u64>,
) -> Consumer<F, Plain> {
    let info = TrackInfo { max_age: millis(info) };
    let subscription = Subscription { start, max_age: millis(max_age) };
    Consumer::new(Subscriber::new(info, subscription), format)
}

/// A consumer of a media track, whose publisher keeps groups for half a minute.
fn consumer<F: Container>(format: F, max_age: u64) -> Consumer<F, Plain> {
    subscribe(format, 30_000, max_age, None)
}

fn data(max_age: u64) -> Consumer<Legacy, Plain> {
    consumer(Legacy(Kind::Data), max_age)
}

// ---- Basic reading ----

#[test]
fn new_inherits_the_initial_subscription_latency() {
    let consumer = data(250);
    assert_eq!(consumer.max_age(), millis(250));
    assert_eq!(consumer.subscription().max_age, millis(250));
}

#[test]
fn new_stays_within_what_the_publisher_keeps() {
    let consumer = subscribe(Legacy(Kind::Data), 5_000, 10_000, Some(7));
    assert_eq!(consumer.max_age(), millis(5_000));
    assert_eq!(consumer.subscription().max_age, millis(10_000));
    assert_eq!(consumer.subscription().start, Some(7));
}

#[test]
fn read_single_group() {
    let mut track = Track::new();
    let mut consumer = data(500);
    track.write_group(0, &[ts(0)]);
    track.finish();

    let frames = track.read_all(&mut consumer);
    assert_eq!(frames.len(), 1);
    assert_eq!(frames[0].timestamp, ts(0));
    assert!(frames[0].keyframe);
    assert!(matches!(track.poll(&mut consumer), Poll::Ready(Ok(None))));
}

#[test]
fn empty_group_declares_a_discontinuity() {
    let mut track = Track::new();
    let mut consumer = data(2_000);
    track.write_group(0, &[ts(0)]);
    track.create_group(1);
    track.finish_group(1);
    track.write_group(2, &[ts(1_000_000)]);
    track.finish();

    assert_eq!(track.read(&mut consumer).timestamp, ts(0));
    assert_eq!(consumer.discontinuity(), 0);
    assert_eq!(track.read(&mut consumer).timestamp, ts(1_000_000));
    assert_eq!(consumer.discontinuity(), 1);
}

#[test]
fn latency_skip_preserves_empty_group_discontinuity() {
    let mut track = Track::new();
    let mut consumer = data(2_000);
    consumer.set_max_age(millis(0));
    track.write_group(0, &[ts(0)]);
    track.create_group(2);
    track.write_group(3, &[ts(1_000_000)]);

    assert_eq!(track.read(&mut consumer).timestamp, ts(0));
    assert_eq!(consumer.discontinuity(), 0);
    assert!(track.poll(&mut consumer).is_pending());

    track.finish_group(2);
    track.finish();
    assert_eq!(track.read(&mut consumer).timestamp, ts(1_000_000));
    assert_eq!(consumer.discontinuity(), 1);
}

#[test]
fn read_multiple_frames_single_group() {
    let mut track = Track::new();
    let mut consumer = data(500);
    track.write_group(0, &[ts(0), ts(33_000), ts(66_000)]);
    track.finish();

    let frames = track.read_all(&mut consumer);
    assert_eq!(frames.len(), 3);
    assert_eq!(frames[0].timestamp, ts(0));
    assert_eq!(frames[1].timestamp, ts(33_000));
    assert_eq!(frames[2].timestamp, ts(66_000));
    assert!(frames[0].keyframe);
}

#[test]
fn read_multiple_groups_within_latency() {
    let mut track = Track::new();
    let mut consumer = data(500);
    for i in 0..5u64 {
        track.write_group(i, &[ts(i * 20_000)]);
    }
    track.finish();
    assert_eq!(track.read_all(&mut consumer).len(), 5);
}

// ---- Age skipping ----

#[test]
fn latency_skip_delivers_recent_groups() {
    let mut track = Track::new();
    let mut consumer = data(100);
    track.create_group(0);
    for f in 0..5u64 {
        track.write_media(0, ts(f * 2_000));
    }
    for g in 1..20u64 {
        let timestamps: Vec<Timestamp> = (0..5).map(|f| ts(g * 15_000 + f * 2_000)).collect();
        track.write_group(g, &timestamps);
    }
    track.finish();

    let mut frames = track.drain(&mut consumer);
    track.finish_group(0);
    frames.extend(track.read_all(&mut consumer));
    assert!(frames.len() >= 25, "Expected >= 25 frames, got {}", frames.len());
}

#[test]
fn zero_latency_skips_aggressively() {
    let mut track = Track::new();
    let mut consumer = data(0);
    track.create_group(0);
    track.write_media(0, ts(0));
    for g in 1..10u64 {
        let timestamps: Vec<Timestamp> = (0..3).map(|f| ts(g * 50_000 + f * 5_000)).collect();
        track.write_group(g, &timestamps);
    }
    track.finish();

    let mut frames = track.drain(&mut consumer);
    track.finish_group(0);
    frames.extend(track.read_all(&mut consumer));
    assert_eq!(frames.len(), 28, "Expected group 0 frame + groups 1-9");
}

#[test]
fn latency_skip_correctness() {
    let mut track = Track::new();
    let mut consumer = data(100);
    track.create_group(0);
    track.write_media(0, ts(0));
    for g in 1..10u64 {
        track.write_group(g, &[ts(g * 30_000)]);
    }
    track.finish();

    let mut frames = track.drain(&mut consumer);
    track.finish_group(0);
    frames.extend(track.read_all(&mut consumer));
    assert_eq!(frames.len(), 10, "Expected group 0 frame + groups 1-9");
    assert_eq!(frames[0].timestamp, ts(0));
    for i in 1..10u64 {
        assert_eq!(frames[i as usize].timestamp, ts(i * 30_000));
    }
}

// ---- Rewinds ----

#[test]
fn reset_classifies_out_of_order_groups() {
    let reset = Reset { prev_max: 55, group: 58, timestamp: ts(90) };

    assert!(!reset.is_stale(57, ts(88)));
    assert!(reset.is_stale(52, ts(86)));
    assert!(reset.is_stale(56, ts(105)));
    assert!(!reset.is_stale(58, ts(90)));
    assert!(!reset.is_stale(59, ts(92)));
    assert!(reset.is_stale(55, ts(100)));
}

#[test]
fn reset_tells_by_sequence_outside_the_gap() {
    let reset = Reset { prev_max: 55, group: 58, timestamp: ts(90) };
    assert_eq!(reset.by_sequence(0), Some(true));
    assert_eq!(reset.by_sequence(55), Some(true));
    assert_eq!(reset.by_sequence(56), None);
    assert_eq!(reset.by_sequence(57), None);
    assert_eq!(reset.by_sequence(58), Some(false));
    assert_eq!(reset.by_sequence(u64::MAX), Some(false));
    assert!(reset.is_stale(56, ts(90)));
    assert!(!reset.is_stale(56, ts(89)));
}

#[test]
fn rewind_at_the_cursor_signals_the_first_frame() {
    for drained in [false, true] {
        let mut track = Track::new();
        let mut consumer = data(0);
        track.write_group(0, &[ts(600_000_000)]);
        assert_eq!(track.read(&mut consumer).timestamp, ts(600_000_000));
        if drained {
            assert!(track.poll(&mut consumer).is_pending());
        }
        track.write_group(1, &[ts(0), ts(100_000)]);
        assert_eq!(track.read(&mut consumer).timestamp, ts(0));
        assert_eq!(consumer.discontinuity(), 1, "first rewound frame, drained={drained}");
        assert_eq!(track.read(&mut consumer).timestamp, ts(100_000));
        assert_eq!(consumer.discontinuity(), 1, "no duplicate reset within a group");
    }
}

#[test]
fn reset_keeps_out_of_order_new_group() {
    let mut track = Track::new();
    let mut consumer = data(10_000);
    track.write_group(0, &[ts(0)]);
    track.write_group(1, &[ts(100_000)]);
    track.write_group(2, &[ts(200_000)]);
    track.write_group(5, &[ts(3_000)]);

    let mut frames = track.drain(&mut consumer);
    track.write_group(3, &[ts(1_000)]);
    track.write_group(4, &[ts(2_000)]);
    track.finish();
    frames.extend(track.read_all(&mut consumer));

    let micros = micros(&frames);
    assert!(micros.contains(&100_000), "old epoch played before the reset");
    assert!(
        micros.contains(&1_000) && micros.contains(&2_000) && micros.contains(&3_000),
        "out-of-order new-epoch groups kept, got {micros:?}"
    );
    assert_eq!(consumer.discontinuity(), 1, "one rewind detected");
}

#[test]
fn reset_detected_behind_forward_newest_group() {
    let mut track = Track::new();
    let mut consumer = data(10_000);
    track.write_group(0, &[ts(0)]);
    track.write_group(1, &[ts(100_000)]);
    track.write_group(2, &[ts(200_000)]);
    track.write_group(6, &[ts(250_000)]);
    track.write_group(5, &[ts(50_000)]);
    track.finish();

    let frames = track.read_all(&mut consumer);
    let micros = micros(&frames);
    assert_eq!(consumer.discontinuity(), 1, "rewind detected behind a forward newest group");
    assert!(micros.contains(&50_000), "resumed at the rewound group, got {micros:?}");
    assert!(!micros.contains(&200_000), "the reneged tail was dropped, got {micros:?}");
}

#[test]
fn backwards_timestamp_resets_buffer() {
    let mut track = Track::new();
    let mut consumer = data(10_000);
    for i in 0..5u64 {
        track.write_group(i, &[ts(i * 100_000)]);
    }
    track.write_group(5, &[ts(0), ts(20_000)]);
    track.finish();

    let frames = track.read_all(&mut consumer);
    let timestamps: Vec<Timestamp> = frames.iter().map(|frame| frame.timestamp).collect();
    assert_eq!(timestamps, vec![ts(0), ts(100_000), ts(0), ts(20_000)]);
    assert_eq!(consumer.discontinuity(), 1);
}

#[test]
fn backwards_timestamp_always_resets() {
    let mut track = Track::new();
    let mut consumer = data(10_000);
    track.write_group(0, &[ts(0)]);
    track.write_group(1, &[ts(500_000)]);
    track.write_group(2, &[ts(0)]);
    track.finish();

    let frames = track.read_all(&mut consumer);
    let timestamps: Vec<Timestamp> = frames.iter().map(|frame| frame.timestamp).collect();
    assert_eq!(timestamps, vec![ts(0), ts(500_000), ts(0)]);
    assert_eq!(consumer.discontinuity(), 1, "the backwards group triggered a reset");
}

// ---- Markers ----

#[test]
fn empty_payload_is_skipped() {
    let mut track = Track::new();
    let mut consumer = consumer(Legacy(Kind::Video), 500);
    track.create_group(0);
    track.write_media(0, ts(0));
    track.write_marker(0, ts(16_000));
    track.write_media(0, ts(33_000));
    track.write_marker(0, ts(50_000));
    track.finish_group(0);
    track.finish();

    let frames = track.read_all(&mut consumer);
    assert_eq!(frames.len(), 2, "markers are not surfaced as media");
    assert_eq!(frames[0].timestamp, ts(0));
    assert_eq!(frames[1].timestamp, ts(33_000));
}

#[test]
fn leading_marker_preserves_the_first_media_keyframe() {
    let mut track = Track::new();
    let mut consumer = consumer(Legacy(Kind::Video), 500);
    track.create_group(0);
    track.write_marker(0, ts(20_000));
    track.write_media(0, ts(20_000));
    track.finish_group(0);
    track.finish();

    let frame = track.read(&mut consumer);
    assert!(frame.keyframe, "the marker does not consume the first-media slot");
    assert!(frame.duration.is_none(), "a leading marker has no previous frame");
}

#[test]
fn consecutive_markers_do_not_stall() {
    let mut track = Track::new();
    let mut consumer = consumer(Legacy(Kind::Video), 500);
    track.create_group(0);
    track.write_media(0, ts(0));
    for i in 1..5u64 {
        track.write_marker(0, ts(i * 1_000));
    }
    track.finish_group(0);
    track.write_group(1, &[ts(100_000)]);
    track.finish();

    let frames = track.read_all(&mut consumer);
    assert_eq!(micros(&frames), vec![0, 100_000], "markers skipped, next group reached");
}

#[test]
fn loc_empty_payload_is_skipped() {
    let mut track = Track::new();
    let mut consumer = consumer(Loc(Kind::Video), 500);
    track.create_group(0);
    track.write(
        0,
        Loc(Kind::Video),
        Frame { timestamp: ts(0), payload: vec![0xDE, 0xAD], keyframe: true, duration: None },
    );
    track.write(0, Loc(Kind::Video), media(ts(33_000), &[]));
    track.finish_group(0);
    track.finish();

    let frames = track.read_all(&mut consumer);
    assert_eq!(frames.len(), 1, "the empty LOC payload is not submitted");
    assert_eq!(frames[0].timestamp, ts(0));
}

#[test]
fn an_audio_marker_leaves_the_end() {
    for (kind, end) in [(Kind::Audio, Some(ts(20_000))), (Kind::Video, None)] {
        let mut track = Track::new();
        let mut consumer = consumer(Legacy(kind), 500);
        track.create_group(0);
        track.write_media(0, ts(0));
        track.write_marker(0, ts(20_000));
        track.finish_group(0);
        track.finish();
        assert_eq!(track.read_all(&mut consumer).len(), 1);
        assert_eq!(consumer.end(), end);
    }
}

#[test]
fn live_duration_marker_follows_an_immediately_delivered_frame() {
    let mut track = Track::new();
    let mut consumer = consumer(Legacy(Kind::Video), 0);
    track.create_group(0);
    track.write(
        0,
        Legacy(Kind::Video),
        Frame { timestamp: ts(0), payload: b"video".to_vec(), keyframe: true, duration: None },
    );
    assert_eq!(track.read(&mut consumer).timestamp, ts(0));
    track.write_marker(0, ts(15_000));
    track.sync(&mut consumer);
    let event = consumer.poll_event();
    assert!(matches!(event, Poll::Ready(Ok(Some(Event::FrameEnd(end)))) if end == ts(15_000)));
}

#[test]
fn a_clean_group_boundary_is_an_event() {
    let mut track = Track::new();
    let mut consumer = data(500);
    track.write_group(0, &[ts(0)]);
    track.sync(&mut consumer);
    assert!(matches!(consumer.poll_event(), Poll::Ready(Ok(Some(Event::Frame(_))))));
    assert!(matches!(consumer.poll_event(), Poll::Ready(Ok(Some(Event::GroupEnd)))));
    assert!(consumer.poll_event().is_pending());
}

// ---- Group ordering ----

#[test]
fn groups_delivered_in_sequence_order() {
    let mut track = Track::new();
    let mut consumer = data(500);
    track.create_group(0);
    track.write_media(0, ts(0));
    track.write_group(2, &[ts(60_000)]);
    track.write_group(1, &[ts(30_000)]);
    track.finish();

    let mut frames = track.drain(&mut consumer);
    track.finish_group(0);
    frames.extend(track.read_all(&mut consumer));
    assert_eq!(frames.len(), 3);
    assert_eq!(frames[0].timestamp, ts(0));
    assert_eq!(frames[1].timestamp, ts(30_000));
    assert_eq!(frames[2].timestamp, ts(60_000));
}

#[test]
fn adjacent_group_flushed_immediately() {
    let mut track = Track::new();
    let mut consumer = data(500);
    track.write_group(0, &[ts(0)]);
    track.write_group(1, &[ts(30_000)]);
    track.finish();

    let frames = track.read_all(&mut consumer);
    assert_eq!(frames.len(), 2);
    assert_eq!(frames[0].timestamp, ts(0));
    assert_eq!(frames[1].timestamp, ts(30_000));
}

#[test]
fn bframes_within_group() {
    let mut track = Track::new();
    let mut consumer = data(500);
    track.write_group(0, &[ts(0), ts(66_000), ts(33_000)]);
    track.finish();

    let frames = track.read_all(&mut consumer);
    assert_eq!(frames.len(), 3);
    assert_eq!(frames[0].timestamp, ts(0));
    assert_eq!(frames[1].timestamp, ts(66_000));
    assert_eq!(frames[2].timestamp, ts(33_000));
}

// ---- Track lifecycle ----

#[test]
fn empty_track_returns_none() {
    let mut track = Track::new();
    let mut consumer = data(500);
    track.finish();
    assert!(matches!(track.poll(&mut consumer), Poll::Ready(Ok(None))));
}

#[test]
fn track_closed_with_error() {
    let mut track = Track::new();
    let mut consumer = data(500);
    track.write_group(0, &[ts(0)]);
    track.abort(net::Error::Cancel);

    loop {
        match track.poll(&mut consumer) {
            Poll::Ready(Ok(Some(_))) => {}
            Poll::Ready(Ok(None)) => panic!("an aborted track has no clean end"),
            Poll::Ready(Err(error)) => {
                assert_eq!(error, Error::Moq(net::Error::Cancel));
                break;
            }
            Poll::Pending => panic!("Consumer should not hang after track error"),
        }
    }
}

// ---- Gap recovery ----

#[test]
fn gap_in_group_sequence_recovery() {
    let mut track = Track::new();
    let mut consumer = data(100);
    track.write_group(0, &[ts(0), ts(20_000)]);
    track.write_group(1, &[ts(40_000), ts(60_000)]);
    track.write_group(3, &[ts(120_000), ts(140_000)]);
    track.write_group(4, &[ts(160_000), ts(180_000)]);
    track.write_group(5, &[ts(200_000), ts(220_000)]);
    track.write_group(6, &[ts(240_000), ts(260_000)]);
    track.finish();

    let frames = track.read_all(&mut consumer);
    assert!(frames.len() >= 4, "Expected >= 4 frames, got {}", frames.len());
}

#[test]
fn gap_at_start_of_sequence() {
    let mut track = Track::new();
    let mut consumer = data(80);
    track.write_group(5, &[ts(0), ts(20_000)]);
    track.write_group(7, &[ts(80_000), ts(100_000)]);
    track.write_group(8, &[ts(120_000), ts(140_000)]);
    track.write_group(9, &[ts(160_000), ts(180_000)]);
    track.finish();

    let frames = track.read_all(&mut consumer);
    assert!(frames.len() >= 4, "Expected >= 4 frames, got {}", frames.len());
}

#[test]
fn evicted_group_with_gap_skips_to_live() {
    let mut track = Track::new();
    let mut consumer = data(100);
    track.create_group(0);
    track.write_media(0, ts(0));
    assert_eq!(track.read(&mut consumer).timestamp, ts(0));

    track.write_group(5, &[ts(150_000)]);
    track.abort_group(0, net::Error::Old);
    let next = track.read(&mut consumer);
    assert_eq!(next.timestamp, ts(150_000), "skipped the evicted gap to the live group");
}

#[test]
fn missing_sequence_skips_on_live_track() {
    let mut track = Track::new();
    let mut consumer = data(100);
    track.write_group(0, &[ts(0), ts(20_000)]);
    track.write_group(2, &[ts(200_000)]);
    track.write_group(3, &[ts(320_000)]);

    let frames = track.drain(&mut consumer);
    assert!(
        micros(&frames).contains(&200_000),
        "consumer hung on a missing sequence on a live track"
    );
}

#[test]
fn gap_keeps_late_arriving_group_within_max_age() {
    let mut track = Track::new();
    let mut consumer = data(500);
    track.write_group(0, &[ts(0)]);
    track.write_group(2, &[ts(200_000)]);
    assert_eq!(track.read(&mut consumer).timestamp, ts(0));
    assert!(
        track.poll(&mut consumer).is_pending(),
        "the gap at sequence 1 is within budget and must be waited for"
    );

    track.write_group(1, &[ts(100_000)]);
    track.finish();
    let frames = track.read_all(&mut consumer);
    assert_eq!(micros(&frames), vec![100_000, 200_000], "the late group is delivered in order");
}

#[test]
fn startup_keeps_late_arriving_head_group_within_max_age() {
    let mut track = Track::new();
    let mut consumer = subscribe(Legacy(Kind::Data), 30_000, 500, Some(0));
    track.write_group(1, &[ts(100_000)]);
    assert!(
        track.poll(&mut consumer).is_pending(),
        "the requested head is within budget and must be waited for"
    );

    track.write_group(0, &[ts(0)]);
    track.finish();
    let frames = track.read_all(&mut consumer);
    assert_eq!(micros(&frames), vec![0, 100_000], "the head group is delivered first");
}

#[test]
fn startup_keeps_slow_earlier_stream_within_max_age() {
    let mut track = Track::new();
    let mut consumer = data(500);
    track.create_group(0);
    track.write_group(1, &[ts(100_000)]);
    assert!(
        track.poll(&mut consumer).is_pending(),
        "group 0's frames are within budget and must be waited for"
    );

    track.write_media(0, ts(0));
    track.finish_group(0);
    track.finish();
    let frames = track.read_all(&mut consumer);
    assert_eq!(micros(&frames), vec![0, 100_000], "the slow stream's frames are delivered");
}

// ---- Decode errors ----

#[test]
fn decode_error_propagates() {
    let mut track = Track::new();
    let mut consumer = subscribe(FailingDecode, 5_000, 0, None);
    track.create_group(0);
    track.write_raw(0, ts(0), 0u64.to_le_bytes().to_vec());
    track.write_raw(0, ts(0), b"FAIL".to_vec());
    track.finish_group(0);
    track.finish();

    let first = track.poll(&mut consumer);
    assert!(matches!(first, Poll::Ready(Ok(Some(_)))), "first frame should decode, got {first:?}");
    let second = track.poll(&mut consumer);
    assert!(
        matches!(second, Poll::Ready(Err(Error::UnknownFormat(_)))),
        "decode error must propagate, got {second:?}"
    );
}

// ---- Frame decoding ----

#[test]
fn frame_timestamp_and_index_decoding() {
    let mut track = Track::new();
    let mut consumer = data(500);
    track.write_group(0, &[ts(0), ts(33_333), ts(66_666)]);
    track.finish();

    let frames = track.read_all(&mut consumer);
    assert_eq!(frames.len(), 3);
    assert_eq!(frames[0].timestamp, ts(0));
    assert!(frames[0].keyframe);
    assert_eq!(frames[1].timestamp, ts(33_333));
    assert_eq!(frames[2].timestamp, ts(66_666));
}

#[test]
fn frame_payload_preserved() {
    let mut track = Track::new();
    let mut consumer = data(500);
    let payload = vec![0x01, 0x02, 0x03, 0x04, 0x05];
    track.create_group(0);
    track.write(0, Legacy(Kind::Data), media(ts(0), &payload));
    track.finish_group(0);
    track.finish();

    let frames = track.read_all(&mut consumer);
    assert_eq!(frames.len(), 1);
    assert_eq!(frames[0].payload, payload);
}

// ---- Regressions ----

#[test]
fn no_infinite_loop_with_buffered_frames() {
    let mut track = Track::new();
    let mut consumer = data(10_000);
    track.create_group(0);
    track.write_media(0, ts(0));
    track.write_group(1, &[ts(100_000)]);

    let mut frames = track.drain(&mut consumer);
    track.write_group(2, &[ts(200_000)]);
    frames.extend(track.drain(&mut consumer));
    track.finish_group(0);
    track.finish();
    frames.extend(track.read_all(&mut consumer));
    assert_eq!(frames.len(), 3);
}

#[test]
fn large_timestamps() {
    let mut track = Track::new();
    let mut consumer = data(3_700_000);
    let one_hour = 3_600_000_000u64;
    track.write_group(0, &[ts(one_hour)]);
    track.finish();

    let frames = track.read_all(&mut consumer);
    assert_eq!(frames.len(), 1);
    assert_eq!(frames[0].timestamp, ts(one_hour));
    assert_eq!(frames[0].timestamp.as_micros(), one_hour as u128);
}

#[test]
fn set_max_age_changes_behavior() {
    let mut track = Track::new();
    let mut consumer = data(10_000);
    track.write_group(0, &[ts(0)]);
    track.finish();
    assert_eq!(track.read(&mut consumer).timestamp, ts(0));

    consumer.set_max_age(millis(100));
    assert_eq!(consumer.max_age(), millis(100));
    assert_eq!(consumer.subscription().max_age, millis(100));
    assert!(matches!(track.poll(&mut consumer), Poll::Ready(Ok(None))));

    consumer.set_max_age(millis(100_000));
    assert_eq!(consumer.max_age(), millis(30_000));
    assert_eq!(consumer.subscription().max_age, millis(100_000));
}

#[test]
fn max_timestamp_tracks_through_bframes() {
    let mut track = Track::new();
    let mut consumer = data(110);
    track.create_group(0);
    for timestamp in [ts(0), ts(66_000), ts(33_000)] {
        track.write_media(0, timestamp);
    }
    track.write_group(1, &[ts(100_000)]);
    track.finish();

    let mut frames = track.drain(&mut consumer);
    track.finish_group(0);
    frames.extend(track.read_all(&mut consumer));
    assert_eq!(frames.len(), 4, "Expected all 4 frames, got {}", frames.len());
    assert_eq!(frames[0].timestamp, ts(0));
    assert_eq!(frames[1].timestamp, ts(66_000));
    assert_eq!(frames[2].timestamp, ts(33_000));
    assert_eq!(frames[3].timestamp, ts(100_000));
}

// ---- Startup ----

#[test]
fn startup_selects_earliest_group() {
    let mut track = Track::new();
    let mut consumer = data(100);
    track.write_group(3, &[ts(0)]);
    track.write_group(5, &[ts(150_000)]);
    track.create_group(7);
    track.write_media(7, ts(300_000));

    let mut frames = track.drain(&mut consumer);
    track.write(7, Legacy(Kind::Data), media(ts(400_000), &[0xBE, 0xEF]));
    track.finish_group(7);
    track.finish();
    frames.extend(track.read_all(&mut consumer));
    assert_eq!(frames[0].timestamp, ts(0));
}

#[test]
fn startup_skips_groups_without_data() {
    let mut track = Track::new();
    let mut consumer = data(500);
    track.create_group(5);
    track.write_group(7, &[ts(210_000)]);
    assert!(
        track.poll(&mut consumer).is_pending(),
        "an open frameless group within budget must be waited for"
    );

    track.write_group(9, &[ts(800_000)]);
    track.finish();
    let frames = track.read_all(&mut consumer);
    assert_eq!(micros(&frames), vec![210_000, 800_000], "the expired frameless group is skipped");
}

#[test]
fn aborted_frameless_group_after_a_gap_ends_the_track() {
    let mut track = Track::new();
    let mut consumer = data(500);
    track.create_group(1);
    track.finish();
    assert!(track.poll(&mut consumer).is_pending(), "an open frameless group must be waited for");

    track.abort_group(1, net::Error::Old);
    assert!(matches!(track.poll(&mut consumer), Poll::Ready(Ok(None))), "the track ends cleanly");
}

#[test]
fn finished_track_waits_for_an_open_head_group() {
    let mut track = Track::new();
    let mut consumer = data(500);
    track.create_group(0);
    track.write_group(1, &[ts(100_000)]);
    track.finish();
    assert!(
        track.poll(&mut consumer).is_pending(),
        "the open head group is within budget and must be waited for"
    );

    track.write_media(0, ts(0));
    track.finish_group(0);
    let frames = track.read_all(&mut consumer);
    assert_eq!(micros(&frames), vec![0, 100_000], "the open group's late frames are delivered");
}

#[test]
fn startup_single_group_mid_stream() {
    let mut track = Track::new();
    let mut consumer = data(500);
    track.write_group(100, &[ts(3_000_000)]);
    track.finish();
    assert_eq!(track.read_all(&mut consumer).len(), 1);
}

#[test]
fn startup_mid_stream_live_track_starts_at_the_served_group() {
    let mut track = Track::new();
    let mut consumer = data(500);
    track.write_group(100, &[ts(3_000_000)]);
    assert_eq!(track.read(&mut consumer).timestamp, ts(3_000_000));
}

#[test]
fn multiple_sequential_latency_skips() {
    let mut track = Track::new();
    let mut consumer = data(50);
    track.create_group(0);
    track.write(0, Legacy(Kind::Data), media(ts(0), &[0xAA]));
    track.write_group(1, &[ts(100_000)]);
    track.write_group(2, &[ts(200_000)]);
    track.write_group(3, &[ts(300_000)]);
    track.finish();

    let mut frames = track.drain(&mut consumer);
    track.finish_group(0);
    frames.extend(track.read_all(&mut consumer));
    assert!(!frames.is_empty());
}

#[test]
fn latency_skip_boundary_exact() {
    let mut track = Track::new();
    let mut consumer = data(100);
    track.create_group(0);
    track.write(0, Legacy(Kind::Data), media(ts(0), &[0xAA]));
    track.write_group(1, &[ts(100_000)]);
    track.finish();

    let mut frames = track.drain(&mut consumer);
    track.finish_group(0);
    frames.extend(track.read_all(&mut consumer));
    assert!(!frames.is_empty());
}

#[test]
fn single_newer_group_triggers_skip() {
    let mut track = Track::new();
    let mut consumer = data(100);
    track.create_group(0);
    track.write_media(0, ts(0));
    track.write_group(1, &[ts(200_000)]);
    track.finish();

    let mut frames = track.drain(&mut consumer);
    track.finish_group(0);
    frames.extend(track.read_all(&mut consumer));
    assert_eq!(frames.len(), 2, "Expected group 0 frame + group 1 frame");
}

#[test]
fn single_missing_sequence_near_eof_skips() {
    let mut track = Track::new();
    let mut consumer = data(100);
    track.write_group(0, &[ts(0), ts(20_000)]);
    track.write_group(2, &[ts(200_000)]);
    track.finish();

    let frames = track.read_all(&mut consumer);
    assert_eq!(frames.len(), 3, "Expected group 0 (2 frames) + group 2 (1 frame)");
}

#[test]
fn group_error_skips_to_next() {
    let mut track = Track::new();
    let mut consumer = data(500);
    track.create_group(0);
    track.abort_group(0, net::Error::Cancel);
    track.write_group(1, &[ts(30_000)]);
    track.finish();
    assert_eq!(track.read_all(&mut consumer).len(), 1);
}

#[test]
fn finished_group_aborted_mid_read_drains_then_continues() {
    let mut track = Track::new();
    let mut consumer = data(500);
    track.write_group(0, &[ts(0), ts(10_000)]);
    track.write_group(1, &[ts(30_000)]);
    track.finish();
    assert_eq!(track.read(&mut consumer).timestamp, ts(0));

    track.abort_group(0, net::Error::Old);
    let rest = track.read_all(&mut consumer);
    assert_eq!(rest.len(), 2, "expected the held frame then group 1, got {rest:?}");
    assert_eq!(rest[0].timestamp, ts(10_000));
    assert_eq!(rest[1].timestamp, ts(30_000));
}

#[test]
fn oversized_group_skips_to_next() {
    let mut track = Track::new();
    let mut consumer = data(500);
    track.create_group(0);
    track.write(0, Legacy(Kind::Data), media(ts(0), &[0xDE; 1024]));
    // Stay under the cap of a frame, so that it is the group that overflows.
    let overflow = media(ts(0), &vec![0; (net::MAX_CACHE_BYTES - 1024) as usize]);
    let overflowed = track.try_write(0, Legacy(Kind::Data), overflow);
    assert!(
        matches!(overflowed, Err(Error::Moq(net::Error::GroupTooLarge))),
        "oversized group must abort as GroupTooLarge, got {overflowed:?}"
    );

    track.write_group(1, &[ts(30_000)]);
    track.finish();

    let frames = track.read_all(&mut consumer);
    assert_eq!(frames.len(), 1, "expected group 1 only, got {} frames", frames.len());
    assert_eq!(frames[0].timestamp, ts(30_000));
}

#[test]
fn track_finishes_while_reading() {
    let mut track = Track::new();
    let mut consumer = data(500);
    track.write_group(0, &[ts(0)]);
    let mut frames = track.drain(&mut consumer);
    track.write_group(1, &[ts(30_000)]);
    frames.extend(track.drain(&mut consumer));
    track.finish();
    frames.extend(track.read_all(&mut consumer));
    assert_eq!(frames.len(), 2);
}

#[test]
fn empty_group_advances() {
    let mut track = Track::new();
    let mut consumer = data(500);
    track.create_group(0);
    track.finish_group(0);
    track.write_group(1, &[ts(30_000)]);
    track.finish();
    assert_eq!(track.read_all(&mut consumer).len(), 1);
}

#[test]
fn video_container_legacy() {
    let mut track = Track::new();
    let mut consumer = data(500);
    track.write_group(0, &[ts(0), ts(33_333), ts(66_666)]);
    track.finish();

    let frames = track.read_all(&mut consumer);
    assert_eq!(frames.len(), 3);
    assert_eq!(frames[0].timestamp, ts(0));
    assert!(frames[0].keyframe);
    assert_eq!(frames[1].timestamp, ts(33_333));
    assert!(!frames[1].keyframe);
    assert_eq!(frames[2].timestamp, ts(66_666));
    assert!(!frames[2].keyframe);
}

// ---- Durations ----

#[test]
fn duration_skip_advances_to_next_group() {
    let mut track = Track::new();
    let mut consumer = subscribe(DurationWire, 5_000, 10_000, None);
    track.create_group(0);
    track.write_duration(0, ts(0), ts(33_000));
    track.create_group(1);
    track.write_duration(1, ts(33_000), ts(33_000));
    track.finish_group(1);
    track.finish();

    let frames = track.read_all(&mut consumer);
    assert_eq!(frames.len(), 2);
    assert_eq!(frames[0].timestamp, ts(0));
    assert_eq!(frames[1].timestamp, ts(33_000));
}

#[test]
fn duration_below_gap_does_not_skip() {
    let mut track = Track::new();
    let mut consumer = subscribe(DurationWire, 5_000, 10_000, None);
    track.create_group(0);
    track.write_duration(0, ts(0), ts(10_000));
    track.create_group(1);
    track.write_duration(1, ts(33_000), ts(33_000));
    track.finish_group(1);
    track.finish();

    let mut frames = track.drain(&mut consumer);
    track.write_duration(0, ts(20_000), ts(10_000));
    track.finish_group(0);
    frames.extend(track.read_all(&mut consumer));
    assert_eq!(frames.len(), 3);
    assert_eq!(frames[0].timestamp, ts(0));
    assert_eq!(frames[1].timestamp, ts(20_000));
    assert_eq!(frames[2].timestamp, ts(33_000));
}

// ---- A single group ----

fn group_of<F: Container>(format: &F, frames: Vec<Frame>) -> Group {
    let mut group = Group::new(0);
    let mut writer = MoqFrameWriter { group: &mut group };
    for frame in frames {
        format.write(&mut writer, &vec![frame]).unwrap();
    }
    group.finish().unwrap();
    group
}

fn group_read<F: Container>(group: &mut GroupConsumer<F, Plain>) -> Option<Frame> {
    match group.poll_read() {
        Poll::Ready(Ok(frame)) => frame,
        other => panic!("expected a frame or the end, got {other:?}"),
    }
}

fn key(timestamp: Timestamp, payload: &[u8]) -> Frame {
    Frame { keyframe: true, ..media(timestamp, payload) }
}

#[test]
fn reads_a_group_to_completion() {
    let format = Legacy(Kind::Data);
    let group = group_of(
        &format,
        vec![key(ts(1_000_000), b"keyframe"), media(ts(1_020_000), b"delta")],
    );
    let mut group = GroupConsumer::<Legacy, Plain>::new(group, format, None);
    assert_eq!(group.sequence(), 0);

    let first = group_read(&mut group).unwrap();
    assert_eq!(first.payload, b"keyframe".as_slice());
    assert!(first.keyframe);

    let second = group_read(&mut group).unwrap();
    assert_eq!(second.payload, b"delta".as_slice());
    assert!(!second.keyframe);

    assert!(group_read(&mut group).is_none());
}

fn empty_data_survives<F: Container + Copy>(format: F) {
    let frames = vec![key(ts(0), b""), media(ts(10_000), b"data")];
    let mut track = Track::new();
    let mut live = consumer(format, 0);
    track.create_group(0);
    for frame in frames.clone() {
        track.write(0, format, frame);
    }
    track.finish_group(0);
    track.finish();
    let first = track.read(&mut live);
    assert!(first.payload.is_empty());
    assert!(first.keyframe);
    assert_eq!(track.read(&mut live).payload, b"data".as_slice());
    assert!(matches!(track.poll(&mut live), Poll::Ready(Ok(None))));

    let mut fetched = GroupConsumer::<F, Plain>::new(group_of(&format, frames), format, None);
    assert!(group_read(&mut fetched).unwrap().payload.is_empty());
    assert_eq!(group_read(&mut fetched).unwrap().payload, b"data".as_slice());
    assert!(group_read(&mut fetched).is_none());
}

#[test]
fn empty_data_frames_survive_subscription_and_fetch() {
    empty_data_survives(Legacy(Kind::Data));
    empty_data_survives(Loc(Kind::Data));
}

#[test]
fn a_duration_marker_times_the_last_frame() {
    let format = Legacy(Kind::Video);
    let group = group_of(
        &format,
        vec![
            key(ts(1_000_000), b"keyframe"),
            media(ts(1_020_000), b"delta"),
            media(ts(1_053_000), b""),
        ],
    );
    let mut group = GroupConsumer::<Legacy, Plain>::new(group, format, None);

    let first = group_read(&mut group).unwrap();
    assert_eq!(first.payload, b"keyframe".as_slice());
    assert_eq!(first.duration, None);

    let second = group_read(&mut group).unwrap();
    assert_eq!(second.payload, b"delta".as_slice());
    assert_eq!(second.duration, Some(ts(33_000)));

    assert!(group_read(&mut group).is_none());
}

#[test]
fn hands_back_a_cmaf_batch_one_frame_at_a_time() {
    let mut group = Group::new(0);
    let mut writer = MoqFrameWriter { group: &mut group };
    let samples = vec![key(ts(2_000_000), b"keyframe"), media(ts(2_020_000), b"delta")];
    Batch.write(&mut writer, &samples).unwrap();
    group.finish().unwrap();
    let mut group = GroupConsumer::<Batch, Plain>::new(group, Batch, None);

    let first = group_read(&mut group).unwrap();
    assert_eq!(first.payload, b"keyframe".as_slice());
    assert!(first.keyframe);

    let second = group_read(&mut group).unwrap();
    assert_eq!(second.payload, b"delta".as_slice());
    assert!(!second.keyframe);

    assert!(group_read(&mut group).is_none());
}

#[test]
fn a_video_frame_waits_for_what_times_it() {
    let format = Legacy(Kind::Video);
    let mut group = GroupConsumer::<Legacy, Plain>::new(Group::new(3), format, None);
    let event = |timestamp: Timestamp, payload: &[u8]| {
        GroupEvent::Frame(WireFrame { timestamp, payload: legacy_bytes(timestamp, payload) })
    };
    assert!(group.group_mut().apply(event(ts(0), b"first")));
    assert!(group.poll_read().is_pending());
    assert!(group.group_mut().apply(event(ts(40_000), b"")));
    assert_eq!(group_read(&mut group).unwrap().duration, Some(ts(40_000)));
    assert!(group.group_mut().apply(event(ts(50_000), b"last")));
    assert!(group.poll_read().is_pending());
    assert!(group.group_mut().apply(GroupEvent::Finished));
    let last = group_read(&mut group).unwrap();
    assert_eq!(last.duration, None);
    assert!(!last.keyframe);
    assert!(group_read(&mut group).is_none());
}

#[test]
fn an_aborted_group_fails_its_reader() {
    let mut group = GroupConsumer::<Legacy, Plain>::new(Group::new(3), Legacy(Kind::Data), None);
    assert!(group.poll_read().is_pending());
    assert!(group.group_mut().apply(GroupEvent::Aborted(net::Error::Old)));
    match group.poll_read() {
        Poll::Ready(Err(error)) => assert_eq!(error, Error::Moq(net::Error::Old)),
        other => panic!("expected the abort, got {other:?}"),
    }
}

// ---- What holds of every track ----

#[test]
fn the_old_epoch_stays_gone_after_a_rewind() {
    let mut track = Track::new();
    let mut consumer = data(10_000);
    track.write_group(0, &[ts(0)]);
    track.write_group(2, &[ts(200_000)]);
    track.write_group(5, &[ts(3_000)]);
    let mut frames = track.drain(&mut consumer);
    assert_eq!(micros(&frames), vec![0]);

    // The frame of group 1 shows group 5 to be a rewind: group 2 and group 3 are of the
    // old epoch, group 4 is of the new one.
    track.write_group(1, &[ts(100_000)]);
    track.write_group(3, &[ts(210_000)]);
    track.write_group(4, &[ts(2_000)]);
    track.write_group(6, &[ts(4_000)]);
    track.finish();
    frames.extend(track.read_all(&mut consumer));
    assert_eq!(micros(&frames), vec![0, 100_000, 2_000, 3_000, 4_000]);
    assert_eq!(consumer.discontinuity(), 1);

    let mut late = Track::new();
    let mut consumer = data(10_000);
    late.write_group(0, &[ts(0)]);
    late.write_group(1, &[ts(100_000)]);
    late.write_group(5, &[ts(3_000)]);
    assert_eq!(micros(&late.drain(&mut consumer)), vec![0, 100_000, 3_000]);
    assert_eq!(consumer.discontinuity(), 1);
    late.write_group(2, &[ts(200_000)]);
    late.write_group(3, &[ts(1_000)]);
    late.finish();
    assert_eq!(micros(&late.read_all(&mut consumer)), vec![1_000]);
    assert_eq!(consumer.discontinuity(), 1);
}

#[test]
fn a_group_below_the_cursor_is_dropped() {
    let mut track = Track::new();
    let mut consumer = data(500);
    track.write_group(4, &[ts(40_000)]);
    assert_eq!(track.read(&mut consumer).timestamp, ts(40_000));
    track.write_group(3, &[ts(30_000)]);
    track.write_group(5, &[ts(50_000)]);
    track.finish();
    assert_eq!(micros(&track.read_all(&mut consumer)), vec![50_000]);
}

#[test]
fn looking_ahead_changes_nothing_of_a_group() {
    // Group 1 is looked into while group 0 is read.
    let mut track = Track::new();
    let mut consumer = data(10_000);
    track.create_group(0);
    track.write_media(0, ts(0));
    track.create_group(1);
    for micros in [40_000, 30_000, 50_000] {
        track.write_media(1, ts(micros));
    }
    assert_eq!(micros(&track.drain(&mut consumer)), vec![0]);
    track.write_media(1, ts(45_000));
    track.finish_group(1);
    track.finish_group(0);
    track.finish();
    let frames = track.read_all(&mut consumer);
    assert_eq!(micros(&frames), vec![40_000, 30_000, 50_000, 45_000]);
    let keyframes: Vec<bool> = frames.iter().map(|frame| frame.keyframe).collect();
    assert_eq!(keyframes, vec![true, false, false, false]);
}

#[test]
fn a_buffer_gives_out_its_group_once_and_knows_its_reach() {
    let mut group = Group::new(0);
    let events = [(40_000, vec![1]), (30_000, vec![2]), (70_000, vec![]), (50_000, vec![3])];
    for (at, payload) in &events {
        group.write_frame(ts(*at), legacy_bytes(ts(*at), payload)).unwrap();
    }
    group.finish().unwrap();
    let format = Legacy(Kind::Audio);
    let mut none: Option<Plain> = None;
    let mut buffer = GroupBuffer::new(group);
    assert_eq!((buffer.min_timestamp(), buffer.max_end()), (None, None));

    let mut seen = Vec::new();
    for step in 0.. {
        // The first look decodes one frame, the second everything.
        if step == 1 {
            assert_eq!(buffer.poll_min_timestamp(&format, &mut none), Poll::Ready(Ok(ts(30_000))));
        } else if step == 2 {
            assert_eq!(buffer.poll_max_timestamp(&format, &mut none), Poll::Ready(Ok(ts(50_000))));
        }
        match buffer.poll_read(&format, &mut none) {
            Poll::Ready(Ok(Some(Item::Frame(frame)))) => {
                seen.push((frame.timestamp, frame.payload, frame.keyframe));
            }
            Poll::Ready(Ok(Some(Item::End(bound)))) => seen.push((bound, vec![], false)),
            Poll::Ready(Ok(None)) => break,
            other => panic!("expected an item, got {other:?}"),
        }
        if step == 0 {
            assert_eq!(buffer.min_timestamp(), Some(ts(40_000)));
            assert_eq!(buffer.max_end(), Some(Duration { nanos: 40_000_000 }));
        }
    }
    let expected: Vec<_> = events
        .iter()
        .enumerate()
        .map(|(index, (at, payload))| (ts(*at), payload.clone(), index == 0))
        .collect();
    assert_eq!(seen, expected);
    assert_eq!(buffer.min_timestamp(), Some(ts(30_000)));
    assert_eq!(buffer.max_end(), Some(Duration { nanos: 70_000_000 }));
}

#[test]
fn a_whole_track_is_read_out_in_order() {
    let groups: [(u64, &[u64]); 4] =
        [(7, &[90_000]), (2, &[0, 20_000, 10_000]), (9, &[90_000, 95_000]), (3, &[20_000])];
    let mut track = Track::new();
    let mut consumer = data(1);
    for (sequence, timestamps) in groups {
        let timestamps: Vec<Timestamp> = timestamps.iter().map(|at| ts(*at)).collect();
        track.write_group(sequence, &timestamps);
    }
    track.finish();
    let frames = track.read_all(&mut consumer);
    let expected = vec![0, 20_000, 10_000, 20_000, 90_000, 90_000, 95_000];
    assert_eq!(micros(&frames), expected);
    let keyframes: Vec<bool> = frames.iter().map(|frame| frame.keyframe).collect();
    assert_eq!(keyframes, vec![true, false, false, true, true, true, false]);
    assert_eq!(consumer.discontinuity(), 0);
}

#[test]
fn an_abort_drops_frames_that_were_not_read() {
    let mut track = Track::new();
    let mut consumer = data(500);
    track.create_group(0);
    track.write_media(0, ts(0));
    track.abort_group(0, net::Error::Cancel);
    track.write_group(1, &[ts(30_000)]);
    track.finish();
    assert_eq!(micros(&track.read_all(&mut consumer)), vec![30_000]);
}

#[test]
fn a_break_forgets_the_end_of_the_audio() {
    let mut track = Track::new();
    let mut consumer = consumer(Legacy(Kind::Audio), 500);
    track.create_group(0);
    track.write_media(0, ts(0));
    track.write_marker(0, ts(20_000));
    track.finish_group(0);
    assert_eq!(track.drain(&mut consumer).len(), 1);
    assert_eq!(consumer.end(), Some(ts(20_000)));
    track.create_group(1);
    track.finish_group(1);
    assert_eq!(track.drain(&mut consumer).len(), 0);
    assert_eq!(consumer.end(), None);
    assert_eq!(consumer.discontinuity(), 1);
}

#[test]
fn the_group_at_the_cursor_comes_first() {
    // Group 1 is further ahead than the maximum age allows, yet group 0 has more to give.
    let mut track = Track::new();
    let mut consumer = consumer(Legacy(Kind::Audio), 10);
    track.create_group(0);
    track.write_media(0, ts(0));
    track.write_media(0, ts(20_000));
    track.write_marker(0, ts(40_000));
    track.finish_group(0);
    track.write_group(1, &[ts(900_000)]);
    track.sync(&mut consumer);
    let mut seen = Vec::new();
    while let Poll::Ready(Ok(Some(event))) = consumer.poll_event() {
        seen.push(match event {
            Event::Frame(frame) => ("frame", frame.timestamp.as_micros()),
            Event::FrameEnd(bound) => ("end", bound.as_micros()),
            Event::GroupEnd => ("group", 0),
        });
    }
    let first = [("frame", 0), ("frame", 20_000), ("end", 40_000), ("group", 0)];
    assert_eq!(seen[..4], first);
    assert_eq!(seen[4..], [("frame", 900_000), ("group", 0)]);
}

#[test]
fn an_aged_gap_is_given_up_at_the_maximum_age() {
    for (newest, expected) in [(299_999, vec![0]), (300_000, vec![0, 200_000, 300_000])] {
        let mut track = Track::new();
        let mut consumer = data(100);
        track.write_group(0, &[ts(0)]);
        track.write_group(2, &[ts(200_000)]);
        track.write_group(3, &[ts(newest)]);
        assert_eq!(micros(&track.drain(&mut consumer)), expected);
    }
}

#[test]
fn a_stalled_group_is_skipped_at_the_maximum_age() {
    for (newest, expected) in [(99_999, vec![0]), (100_000, vec![0, 100_000])] {
        let mut track = Track::new();
        let mut consumer = data(100);
        track.create_group(0);
        track.write_media(0, ts(0));
        track.write_group(1, &[ts(newest)]);
        assert_eq!(micros(&track.drain(&mut consumer)), expected);
    }
}

#[test]
fn events_reach_only_groups_that_are_there() {
    let mut consumer = data(500);
    assert!(!consumer.receive(3, GroupEvent::Finished));
    assert!(consumer.announce(3));
    assert!(consumer.receive(3, GroupEvent::Finished));
    let late = WireFrame { timestamp: ts(0), payload: legacy_bytes(ts(0), &[1]) };
    assert!(!consumer.receive(3, GroupEvent::Frame(late)));
    assert!(consumer.close(Ok(())));
    assert!(!consumer.close(Err(net::Error::Cancel)));
    assert!(!consumer.announce(4));
    assert!(matches!(consumer.poll_read(), Poll::Ready(Ok(None))));
}

#[test]
fn a_whole_track_is_read_out_past_its_markers() {
    let mut track = Track::new();
    let mut consumer = consumer(Legacy(Kind::Audio), 1);
    track.create_group(4);
    track.write_media(4, ts(60_000));
    track.write_marker(4, ts(80_000));
    track.write_marker(4, ts(81_000));
    track.finish_group(4);
    track.create_group(1);
    track.write_marker(1, ts(5_000));
    track.write_media(1, ts(10_000));
    track.write_marker(1, ts(15_000));
    track.write_media(1, ts(20_000));
    track.write_marker(1, ts(40_000));
    track.finish_group(1);
    track.finish();
    let frames = track.read_all(&mut consumer);
    assert_eq!(micros(&frames), vec![10_000, 20_000, 60_000]);
    let keyframes: Vec<bool> = frames.iter().map(|frame| frame.keyframe).collect();
    assert_eq!(keyframes, vec![true, false, true]);
    assert_eq!(consumer.end(), Some(ts(81_000)));
    assert_eq!(consumer.discontinuity(), 0);
}

#[test]
fn groups_without_media_are_passed_where_they_are_reached() {
    // Group 2 starts the track, group 5 lies before media, group 8 follows group 7.
    let mut track = Track::new();
    let mut consumer = consumer(Legacy(Kind::Audio), 1);
    for sequence in [8, 5, 2] {
        track.create_group(sequence);
        track.write_marker(sequence, ts(sequence * 10_000));
        track.finish_group(sequence);
    }
    track.write_group(7, &[ts(70_000)]);
    track.write_group(3, &[ts(30_000)]);
    track.finish();
    assert_eq!(micros(&track.read_all(&mut consumer)), vec![30_000, 70_000]);
    assert_eq!(consumer.end(), Some(ts(80_000)));
    assert_eq!(consumer.discontinuity(), 0);
}

#[test]
fn a_consumer_waits_at_a_gap_past_the_last_media() {
    let mut track = Track::new();
    let mut consumer = consumer(Legacy(Kind::Audio), 1);
    track.write_group(3, &[ts(30_000)]);
    track.create_group(5);
    track.write_marker(5, ts(50_000));
    track.finish_group(5);
    track.finish();
    assert_eq!(micros(&track.drain(&mut consumer)), vec![30_000]);
    assert!(matches!(consumer.poll_read(), Poll::Pending));
}

#[test]
fn a_whole_track_is_read_out_from_its_start() {
    let mut track = Track::new();
    let mut consumer = subscribe(Legacy(Kind::Data), 30_000, 1, Some(4));
    track.write_group(6, &[ts(60_000), ts(61_000)]);
    track.write_group(3, &[ts(99_000)]);
    track.write_group(4, &[ts(40_000)]);
    track.finish();
    assert_eq!(micros(&track.read_all(&mut consumer)), vec![40_000, 60_000, 61_000]);
    assert_eq!(consumer.discontinuity(), 0);
}
