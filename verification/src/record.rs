//! The record type carried over the stream, the framing mode, the consumer
//! configuration, and the error taxonomy, together with their ghost models.

use vstd::prelude::*;
use vstd::string::StringExecFns;

verus! {

/// Default cap on the reframer buffer: 1 MiB.
pub const DEFAULT_MAX_FRAME_BYTES: usize = 1048576;

/// The media type that identifies this framing on an HTTP response.
pub fn ndjson_content_type() -> (s: String)
    ensures
        s@ == "application/x-ndjson"@,
{
    String::from_str("application/x-ndjson")
}

/// An application record, the payload of one frame.
#[derive(Debug, Clone, PartialEq, Eq)]
pub struct User {
    pub id: u32,
    pub name: String,
}

/// Which shape each frame carries: the record itself, or the record inside a
/// `{ "data": ..., "done": ... }` envelope.
#[derive(Debug, Clone, Copy, PartialEq, Eq, Structural)]
pub enum Mode {
    Bare,
    Enveloped,
}

/// Consumer configuration: the expected framing mode, the cap on how many
/// bytes one frame may occupy in the reframer buffer, and whether a final
/// frame without a trailing newline is accepted.
#[derive(Debug, Clone, Copy, PartialEq, Eq, Structural)]
pub struct DecodeConfig {
    pub mode: Mode,
    pub max_frame_bytes: usize,
    pub accept_unterminated_tail: bool,
}

impl DecodeConfig {
    /// A configuration with the default frame cap and a strict tail.
    pub fn new(mode: Mode) -> (cfg: DecodeConfig)
        ensures
            cfg == (DecodeConfig {
                mode,
                max_frame_bytes: DEFAULT_MAX_FRAME_BYTES,
                accept_unterminated_tail: false,
            }),
    {
        DecodeConfig { mode, max_frame_bytes: DEFAULT_MAX_FRAME_BYTES, accept_unterminated_tail: false }
    }
}

/// Why one element of the decoded sequence is an error rather than a record.
#[derive(Debug, Clone, Copy, PartialEq, Eq, Structural)]
pub enum RecordError {
    /// The underlying byte stream failed; terminal.
    Transport,
    /// The response status was not a success; terminal, raised before any frame.
    HttpStatus { code: u16 },
    /// The frame bytes are not valid UTF-8; the stream continues.
    InvalidUtf8 { at: usize },
    /// The frame is not JSON of the expected shape; the stream continues.
    DecodeError { at: usize },
    /// One frame exceeded the reframer buffer cap; terminal.
    FrameTooLarge { at: usize },
    /// The stream ended mid-frame and unterminated tails are not accepted; terminal.
    TruncatedFrame,
}

/// The ghost model of one element of the decoded sequence: a record is
/// reduced to its plain field values, so that two decodings can be compared
/// independently of `String` representation.
pub enum ItemV {
    Rec { id: u32, name: Seq<char> },
    BadUtf8 { at: nat },
    BadJson { at: nat },
    TooLarge { at: nat },
    Truncated,
    Transport,
    Http { code: u16 },
}

/// The model of one exec decode result.
pub open spec fn item_view(r: Result<User, RecordError>) -> ItemV {
    match r {
        Ok(u) => ItemV::Rec { id: u.id, name: u.name@ },
        Err(RecordError::Transport) => ItemV::Transport,
        Err(RecordError::HttpStatus { code }) => ItemV::Http { code },
        Err(RecordError::InvalidUtf8 { at }) => ItemV::BadUtf8 { at: at as nat },
        Err(RecordError::DecodeError { at }) => ItemV::BadJson { at: at as nat },
        Err(RecordError::FrameTooLarge { at }) => ItemV::TooLarge { at: at as nat },
        Err(RecordError::TruncatedFrame) => ItemV::Truncated,
    }
}

/// The model of a whole exec decode result sequence.
pub open spec fn items_view(s: Seq<Result<User, RecordError>>) -> Seq<ItemV> {
    s.map_values(|r: Result<User, RecordError>| item_view(r))
}

} // verus!
