//! Streaming NDJSON (newline-delimited JSON) framing: a producer that turns
//! records into `\n`-terminated JSON frames, and an incremental consumer that
//! reframes an arbitrarily chunked byte stream into frames and decodes each
//! one, surfacing per-frame errors without aborting the stream.

pub mod record;
pub mod json;
pub mod framing;
pub mod decoder;
pub mod producer;
pub mod laws;

use vstd::prelude::*;

verus! {

} // verus!
