//! Low Overhead Container.
//!
//! Each wire frame holds a small property block, with the timestamp and an
//! optional timescale, followed by the codec bitstream. Timestamps are in
//! microseconds where the frame names no timescale.
use vstd::prelude::*;

use super::reader::{ReadFrame, ReadFrameView};
use super::writer::{accepts_all, vouched_all, write_all};
use super::{frame_views, Container, Frame, FrameView, FrameWriter, Kind};
use crate::error::{Error, HangError, LocError};
use crate::net::WireFrameView;
use crate::time::{Timescale, Timestamp, MAX_VARINT, MICROS_PER_SECOND};

verus! {

/// The longest property block, with its length, that a frame is written with.
pub const MAX_OVERHEAD: usize = 17;

/// The QUIC encoding of a variable-length integer.
#[verifier::opaque]
pub open spec fn varint(value: u64) -> Seq<u8> {
    if value < 0x40 {
        seq![value as u8]
    } else if value < 0x4000 {
        seq![(0x40 + value / 0x100) as u8, (value % 0x100) as u8]
    } else if value < 0x4000_0000 {
        seq![
            (0x80 + value / 0x100_0000) as u8,
            (value / 0x1_0000 % 0x100) as u8,
            (value / 0x100 % 0x100) as u8,
            (value % 0x100) as u8,
        ]
    } else {
        seq![
            (0xc0 + value / 0x100_0000_0000_0000) as u8,
            (value / 0x1_0000_0000_0000 % 0x100) as u8,
            (value / 0x100_0000_0000 % 0x100) as u8,
            (value / 0x1_0000_0000 % 0x100) as u8,
            (value / 0x100_0000 % 0x100) as u8,
            (value / 0x1_0000 % 0x100) as u8,
            (value / 0x100 % 0x100) as u8,
            (value % 0x100) as u8,
        ]
    }
}

/// A LOC frame that carries its timestamp and no other property: the length of
/// the property block, the timestamp property, the bitstream.
pub open spec fn loc_bytes(timestamp: u64, payload: Seq<u8>) -> Seq<u8> {
    let property = seq![0x10u8] + varint(timestamp);
    seq![property.len() as u8] + property + payload
}

/// A LOC frame of a timestamp at the default timescale and a bitstream.
pub open spec fn loc_plain(timestamp: u64, payload: Seq<u8>) -> Result<LocFrameView, LocError> {
    Ok(LocFrameView { timestamp, timescale: None, payload })
}

/// What a LOC frame holds.
#[derive(Debug)]
pub struct LocFrame {
    /// The timestamp, in units of the timescale.
    pub timestamp: u64,
    /// The timescale, where the frame names one.
    pub timescale: Option<u64>,
    /// The codec bitstream.
    pub payload: Vec<u8>,
}

/// What a [`LocFrame`] holds.
#[verifier::ext_equal]
pub struct LocFrameView {
    pub timestamp: u64,
    pub timescale: Option<u64>,
    pub payload: Seq<u8>,
}

impl View for LocFrame {
    type V = LocFrameView;

    open spec fn view(&self) -> LocFrameView {
        LocFrameView {
            timestamp: self.timestamp,
            timescale: self.timescale,
            payload: self.payload@,
        }
    }
}

/// A LOC frame or the reason there is none, with the frame by its view.
pub open spec fn loc_view(r: Result<LocFrame, LocError>) -> Result<LocFrameView, LocError> {
    match r {
        Ok(frame) => Ok(frame@),
        Err(error) => Err(error),
    }
}

/// What `moq_loc::decode` makes of the bytes of a frame.
pub uninterp spec fn loc_parsed(bytes: Seq<u8>) -> Result<LocFrameView, LocError>;

/// Whether the numbers of a LOC frame are those of varints, and no timescale is
/// zero.
pub open spec fn loc_in_range(loc: LocFrameView) -> bool {
    &&& loc.timestamp <= MAX_VARINT
    &&& loc.timescale matches Some(units) ==> 0 < units <= MAX_VARINT
}

/// Calls `moq_loc::decode`.
///
/// The result is a function of the bytes, and is named. The numbers in a frame come
/// from varints, and a timescale of zero is refused.
#[verifier::external_body]
fn loc_decode(bytes: Vec<u8>) -> (r: Result<LocFrame, LocError>)
    ensures
        loc_view(r) == loc_parsed(bytes@),
        r matches Ok(frame) ==> loc_in_range(frame@),
{
    match moq_loc::decode(bytes::Bytes::from(bytes)) {
        Ok(frame) => Ok(
            LocFrame {
                timestamp: frame.timestamp,
                timescale: frame.timescale,
                payload: frame.payload.to_vec(),
            },
        ),
        Err(moq_loc::Error::MissingTimestamp) => Err(LocError::MissingTimestamp),
        Err(moq_loc::Error::MalformedProperties) => Err(LocError::MalformedProperties),
        Err(moq_loc::Error::ShortBuffer) => Err(LocError::ShortBuffer),
        Err(moq_loc::Error::OutOfRange(_)) => Err(LocError::OutOfRange),
        Err(_) => Err(LocError::Unknown),
    }
}

/// Calls `moq_loc::encode`.
///
/// It writes the timestamp property alone, fails just where the timestamp exceeds
/// the varint range, and `moq_loc::decode` reads back what it wrote. It allocates
/// the whole frame, which has to fit in memory.
#[verifier::external_body]
fn loc_encode(timestamp: u64, payload: &Vec<u8>) -> (r: Result<Vec<u8>, LocError>)
    requires
        payload@.len() + MAX_OVERHEAD <= isize::MAX,
    ensures
        (match r {
            Ok(bytes) => timestamp <= MAX_VARINT && bytes@ == loc_bytes(timestamp, payload@),
            Err(error) => timestamp > MAX_VARINT && error == LocError::OutOfRange,
        }),
        r matches Ok(bytes) ==> loc_parsed(bytes@) == loc_plain(timestamp, payload@),
{
    match moq_loc::encode(timestamp, payload) {
        Ok(bytes) => Ok(bytes.to_vec()),
        Err(moq_loc::Error::MissingTimestamp) => Err(LocError::MissingTimestamp),
        Err(moq_loc::Error::MalformedProperties) => Err(LocError::MalformedProperties),
        Err(moq_loc::Error::ShortBuffer) => Err(LocError::ShortBuffer),
        Err(moq_loc::Error::OutOfRange(_)) => Err(LocError::OutOfRange),
        Err(_) => Err(LocError::Unknown),
    }
}

/// The media frame that a LOC frame stands for.
///
/// LOC carries neither a keyframe bit nor a duration. A timescale outside the
/// varint range falls back to microseconds.
pub open spec fn loc_media(loc: LocFrameView) -> Result<FrameView, Error> {
    let units = match loc.timescale {
        Some(units) => if 0 < units <= MAX_VARINT {
            units
        } else {
            MICROS_PER_SECOND
        },
        None => MICROS_PER_SECOND,
    };
    if loc.timestamp <= MAX_VARINT {
        Ok(
            FrameView {
                timestamp: Timestamp::at(loc.timestamp, units),
                duration: None,
                payload: loc.payload,
                keyframe: false,
            },
        )
    } else {
        Err(Error::Hang(HangError::TimestampOverflow))
    }
}

/// The media frame that a LOC frame stands for.
pub fn loc_to_media(loc: LocFrame) -> (r: Result<Frame, Error>)
    ensures
        (match r {
            Ok(frame) => Ok(frame@),
            Err(error) => Err(error),
        }) == loc_media(loc@),
{
    let scale = match loc.timescale {
        Some(units) => match Timescale::new(units) {
            Ok(scale) => scale,
            Err(_) => Timescale::micro(),
        },
        None => Timescale::micro(),
    };
    match Timestamp::new(loc.timestamp, scale) {
        Ok(timestamp) => Ok(
            Frame { timestamp, duration: None, payload: loc.payload, keyframe: false },
        ),
        Err(_) => Err(Error::Hang(HangError::TimestampOverflow)),
    }
}

/// The timestamp that a LOC frame carries for a media frame: its microseconds,
/// where they can be written down.
pub open spec fn loc_timestamp(timestamp: Timestamp) -> Option<u64> {
    if timestamp.rate() == MICROS_PER_SECOND {
        Some(timestamp.ticks())
    } else if timestamp.micros() <= MAX_VARINT {
        Some(timestamp.micros() as u64)
    } else {
        None
    }
}

/// The LOC frame for a media frame, or the reason there is none.
pub open spec fn loc_wire(frame: FrameView) -> Result<Seq<u8>, Error> {
    match loc_timestamp(frame.timestamp) {
        Some(timestamp) => if timestamp <= MAX_VARINT {
            Ok(loc_bytes(timestamp, frame.payload))
        } else {
            Err(Error::Loc(LocError::OutOfRange))
        },
        None => Err(Error::Hang(HangError::TimestampOverflow)),
    }
}

/// A media frame as LOC gives it back: at microseconds, with no duration and no
/// keyframe bit.
pub open spec fn loc_restored(frame: FrameView) -> FrameView {
    FrameView {
        timestamp: Timestamp::at(loc_timestamp(frame.timestamp)->Some_0, MICROS_PER_SECOND),
        duration: None,
        payload: frame.payload,
        keyframe: false,
    }
}

/// The wire frames of a run of media frames, up to the first that has none.
///
/// A wire frame keeps the timestamp of the media frame, at its own scale.
pub open spec fn loc_wires(frames: Seq<FrameView>) -> (Seq<WireFrameView>, Result<(), Error>)
    decreases frames.len(),
{
    if frames.len() == 0 {
        (Seq::empty(), Ok(()))
    } else {
        match loc_wire(frames[0]) {
            Ok(payload) => {
                let (rest, result) = loc_wires(frames.drop_first());
                let first = WireFrameView { timestamp: frames[0].timestamp, payload };
                (seq![first] + rest, result)
            },
            Err(error) => (Seq::empty(), Err(error)),
        }
    }
}

/// The LOC wire format: one LOC frame in each wire frame.
#[derive(Debug, Clone, Copy)]
pub struct Wire;

impl Default for Wire {
    fn default() -> (r: Wire)
        ensures
            r == Wire,
    {
        Wire
    }
}

impl Wire {
    /// The LOC frame for a media frame.
    ///
    /// Decoding it gives the media frame back, at microseconds.
    pub fn encode(&self, frame: &Frame) -> (r: Result<Vec<u8>, Error>)
        requires
            frame.payload@.len() + MAX_OVERHEAD <= isize::MAX,
        ensures
            (match r {
                Ok(bytes) => Ok(bytes@),
                Err(error) => Err(error),
            }) == loc_wire(frame@),
            r matches Ok(bytes) ==> forall|read: ReadFrameView|
                read.payload == bytes@ ==> #[trigger] self.decoded(read) == Ok::<
                    Seq<FrameView>,
                    Error,
                >(seq![loc_restored(frame@)]),
    {
        let timestamp = match frame.timestamp.convert(Timescale::micro()) {
            Ok(timestamp) => timestamp,
            Err(_) => return Err(Error::Hang(HangError::TimestampOverflow)),
        };
        match loc_encode(timestamp.value(), &frame.payload) {
            Ok(bytes) => Ok(bytes),
            Err(error) => Err(Error::Loc(error)),
        }
    }
}

impl Container for Wire {
    open spec fn decoded(&self, frame: ReadFrameView) -> Result<Seq<FrameView>, Error> {
        match loc_parsed(frame.payload) {
            Ok(loc) => match loc_media(loc) {
                Ok(media) => Ok(seq![media]),
                Err(error) => Err(error),
            },
            Err(error) => Err(Error::Loc(error)),
        }
    }

    open spec fn bound(&self, frame: FrameView) -> Option<Timestamp> {
        None
    }

    open spec fn role(&self) -> Kind {
        Kind::Data
    }

    open spec fn encodable(&self, frames: Seq<FrameView>) -> bool {
        forall|i: int|
            0 <= i < frames.len() ==> (#[trigger] frames[i]).payload.len() + MAX_OVERHEAD
                <= isize::MAX
    }

    open spec fn encoded(&self, frames: Seq<FrameView>) -> (
        Seq<WireFrameView>,
        Result<(), Error>,
    ) {
        loc_wires(frames)
    }

    fn write<W: FrameWriter>(&self, output: &mut W, frames: &Vec<Frame>) -> (r: Result<(), Error>)
        ensures
            r is Ok ==> forall|i: int, read: ReadFrameView|
                #![trigger frames@[i], self.decoded(read)]
                0 <= i < frames@.len() && Ok::<Seq<u8>, Error>(read.payload) == loc_wire(
                    frames@[i]@,
                ) ==> self.decoded(read) == Ok::<Seq<FrameView>, Error>(
                    seq![loc_restored(frames@[i]@)],
                ),
    {
        let ghost views = frame_views(frames@);
        let ghost start = output.state();
        let ghost all = loc_wires(views);
        let mut index: usize = 0;
        assert(views.skip(0) =~= views);
        while index < frames.len()
            invariant
                index <= frames@.len(),
                views == frame_views(frames@),
                self.encodable(views),
                all == loc_wires(views),
                accepts_all::<W>(output.state(), loc_wires(views.skip(index as int)).0),
                write_all::<W>(
                    output.state(),
                    loc_wires(views.skip(index as int)).0,
                    loc_wires(views.skip(index as int)).1,
                ) == write_all::<W>(start, all.0, all.1),
                vouched_all::<W>(output.state(), loc_wires(views.skip(index as int)).0)
                    ==> vouched_all::<W>(start, all.0),
                start == (*old(output)).state(),
                forall|i: int, read: ReadFrameView|
                    #![trigger frames@[i], self.decoded(read)]
                    0 <= i < index && Ok::<Seq<u8>, Error>(read.payload) == loc_wire(
                        frames@[i]@,
                    ) ==> self.decoded(read) == Ok::<Seq<FrameView>, Error>(
                        seq![loc_restored(frames@[i]@)],
                    ),
            decreases frames@.len() - index,
        {
            let frame = &frames[index];
            let ghost left = loc_wires(views.skip(index as int)).0;
            let ghost rest = loc_wires(views.skip(index + 1)).0;
            assert(views[index as int] == frame@);
            assert(views.skip(index as int)[0] == views[index as int]);
            assert(views.skip(index as int).drop_first() =~= views.skip(index + 1));
            let bytes = match self.encode(frame) {
                Ok(bytes) => bytes,
                Err(error) => return Err(error),
            };
            assert(left[0].payload == bytes@);
            assert(left.drop_first() =~= rest);
            assert forall|i: int| 0 <= i < rest.len() implies W::accepts(
                output.state(),
                (#[trigger] rest[i]).payload.len(),
            ) by {
                assert(left[i + 1] == rest[i]);
            }
            match output.write_frame(frame.timestamp, bytes) {
                Ok(_) => {},
                Err(error) => return Err(error),
            }
            index = index + 1;
        }
        Ok(())
    }

    fn decode(&self, frame: ReadFrame) -> (r: Result<Vec<Frame>, Error>)
        ensures
            r matches Err(error) ==> error is Loc,
    {
        let loc = match loc_decode(frame.payload) {
            Ok(loc) => loc,
            Err(error) => return Err(Error::Loc(error)),
        };
        match loc_to_media(loc) {
            Ok(media) => {
                let frames = vec![media];
                assert(frame_views(frames@) =~= seq![media@]);
                Ok(frames)
            },
            Err(error) => Err(error),
        }
    }

    fn end(&self, frame: &Frame) -> (r: Option<Timestamp>) {
        None
    }

    fn kind(&self) -> (r: Kind) {
        Kind::Data
    }
}

} // verus!
