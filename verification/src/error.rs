//! Errors of the library.
use hang::catalog::UnknownContainer;
use vstd::prelude::*;

use crate::container::{InvalidEnd, MissingKeyframe};
use crate::encryption::EncryptionError;
use crate::net;
use crate::time::{Duration, TimeOverflow};

verus! {

/// Why a LOC frame could not be built or parsed.
#[derive(Debug, Clone, Copy, PartialEq, Eq, Structural)]
pub enum LocError {
    /// The property block holds no timestamp.
    MissingTimestamp,
    /// The property block is malformed.
    MalformedProperties,
    /// A varint ran past the end of the frame.
    ShortBuffer,
    /// A value exceeds the varint range.
    OutOfRange,
    /// A kind of failure that has no name here.
    Unknown,
}

/// Why the catalog and codec layer failed.
#[derive(Debug, Clone, PartialEq, Eq)]
pub enum HangError {
    /// A timestamp left the varint range.
    TimestampOverflow,
    /// Any other failure, as its message.
    Other(String),
}

/// Errors of the library.
///
/// Failures of a format or codec that this crate does not itself parse are kept
/// as their message.
#[derive(Debug, Clone, PartialEq, Eq)]
#[non_exhaustive]
pub enum Error {
    /// The transport failed.
    Moq(net::Error),
    /// The catalog and codec layer failed.
    Hang(HangError),
    /// Publishing or consuming JSON over a track failed.
    Json(String),
    /// Publishing or consuming binary payloads over a track failed.
    Binary(String),
    /// A catalog entry declares a track mode that is not implemented.
    UnsupportedMode(String),
    /// A catalog entry declares a compression that is not implemented.
    UnsupportedCompression(String),
    /// A CMAF fragment could not be parsed or built.
    Cmaf(String),
    /// An MKV or WebM stream could not be parsed or built.
    Mkv(String),
    /// The MSF catalog could not be decoded.
    Msf(String),
    /// A LOC frame could not be parsed or built.
    Loc(LocError),
    /// An Annex B NAL stream could not be parsed.
    Annexb(String),
    /// AAC could not be parsed.
    Aac(String),
    /// Opus could not be parsed.
    Opus(String),
    /// FLAC could not be parsed.
    Flac(String),
    /// MP3 could not be parsed.
    Mp3(String),
    /// H.264 could not be parsed.
    H264(String),
    /// H.265 could not be parsed.
    H265(String),
    /// AV1 could not be parsed.
    Av1(String),
    /// VP8 could not be parsed.
    Vp8(String),
    /// VP9 could not be parsed.
    Vp9(String),
    /// MP2, AC-3 or E-AC-3 could not be parsed.
    Legacy(String),
    /// A timestamp overflowed between timescales.
    TimestampOverflow(TimeOverflow),
    /// An mp4 atom could not be decoded or encoded.
    Mp4(String),
    /// Input or output failed.
    Io(String),
    /// A URL could not be parsed.
    Url(String),
    /// Unknown media format.
    UnknownFormat(String),
    /// A video format that a raw byte stream cannot be split into.
    NotSelfDescribing(String),
    /// A format was handed to a constructor for a different kind of import.
    WrongKind { format: String, actual: String, wanted: String },
    /// The encryption layer failed.
    Encryption(EncryptionError),
    /// A non-keyframe frame was received before any keyframe opened a group.
    MissingKeyframe(MissingKeyframe),
    /// An explicit endpoint precedes the last frame of an ordered video group.
    InvalidEnd(InvalidEnd),
    /// An FLV video frame resolved to a negative presentation timestamp.
    NegativeFlvPts { dts_ms: u64, composition_time_ms: i32 },
    /// A segment ran past the advertised maximum duration.
    TimelineOverrun { segment: u64, duration: Duration, duration_max: Duration },
    /// A timeline was closed while deferred records remained pending.
    TimelineDeferredPending,
    /// A pending record was not yielded by its deferred publisher.
    TimelineDeferredRecord(u64),
    /// Any other failure, as its message.
    Other(String),
    /// A timeline catalog section declared an invalid timescale.
    InvalidTimescale(u32),
    /// An application catalog section used a reserved name.
    ReservedSection(String),
    /// A rendition declared an unsupported container.
    UnsupportedContainer(String),
    /// A broadcast reference escapes the consumer's authorized root.
    EscapingBroadcast(String),
}

/// A result of an operation of this library.
pub type Result<T> = std::result::Result<T, Error>;

/// An error message and the messages of what caused it, outermost first, as one.
pub open spec fn joined(chain: Seq<Seq<char>>) -> Seq<char>
    decreases chain.len(),
{
    if chain.len() == 0 {
        Seq::empty()
    } else if chain.len() == 1 {
        chain[0]
    } else {
        joined(chain.drop_last()) + ": "@ + chain.last()
    }
}

/// The views of a run of strings.
pub open spec fn texts(strings: Seq<String>) -> Seq<Seq<char>> {
    strings.map_values(|string: String| string@)
}

/// Renders an error and the chain of its causes into a single message.
///
/// Some errors keep the actionable half in their cause and nothing but a category
/// in their own message, so the message alone would drop the only detail worth
/// reporting.
pub fn message(chain: &Vec<String>) -> (r: String)
    ensures
        r@ == joined(texts(chain@)),
{
    let mut out = String::new();
    let mut index: usize = 0;
    assert(texts(chain@).take(0) =~= Seq::empty());
    while index < chain.len()
        invariant
            index <= chain@.len(),
            out@ == joined(texts(chain@).take(index as int)),
        decreases chain@.len() - index,
    {
        let ghost next = texts(chain@).take(index + 1);
        assert(next.drop_last() =~= texts(chain@).take(index as int));
        assert(next.last() == chain@[index as int]@);
        if index > 0 {
            out.append(": ");
        }
        out.append(chain[index].as_str());
        assert(out@ =~= joined(next));
        index = index + 1;
    }
    assert(texts(chain@).take(chain@.len() as int) =~= texts(chain@));
    out
}

/// Declares `hang::catalog::UnknownContainer`.
#[verifier::external_type_specification]
#[verifier::external_body]
pub struct ExUnknownContainer(UnknownContainer);

/// The members of an unknown container whose value is a string.
pub uninterp spec fn string_members(container: UnknownContainer) -> Map<Seq<char>, Seq<char>>;

/// Calls `hang::catalog::UnknownContainer::kind`: the member `kind`, where it is
/// there and a string.
#[verifier::external_body]
fn declared_kind(container: &UnknownContainer) -> (r: Option<&str>)
    ensures
        (match r {
            Some(kind) => string_members(*container).contains_key("kind"@) && kind@
                == string_members(*container)["kind"@],
            None => !string_members(*container).contains_key("kind"@),
        }),
{
    container.kind()
}

/// What a container is called whose kind is as given.
pub open spec fn kind_text(kind: Option<Seq<char>>) -> Seq<char> {
    match kind {
        Some(kind) => kind,
        None => "<missing>"@,
    }
}

impl Error {
    /// The error for a rendition whose container has the given kind.
    pub fn unsupported_kind(kind: Option<&str>) -> (r: Error)
        ensures
            r matches Error::UnsupportedContainer(text) && text@ == kind_text(
                match kind {
                    Some(kind) => Some(kind@),
                    None => None,
                },
            ),
    {
        let kind = match kind {
            Some(kind) => kind,
            None => "<missing>",
        };
        Error::UnsupportedContainer(kind.to_owned())
    }

    /// The error for a rendition whose container is not recognized.
    pub fn unsupported_container(container: &UnknownContainer) -> (r: Error)
        ensures
            r matches Error::UnsupportedContainer(text) && text@ == kind_text(
                if string_members(*container).contains_key("kind"@) {
                    Some(string_members(*container)["kind"@])
                } else {
                    None
                },
            ),
    {
        Error::unsupported_kind(declared_kind(container))
    }
}

} // verus!
