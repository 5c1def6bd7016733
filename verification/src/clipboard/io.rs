//! Outcomes of reading clipboard payloads off pipes, and the bound on what
//! one read keeps.

use vstd::prelude::*;

use crate::config::MAX_CONTENT_BYTES;

verus! {

/// Outcome of a single drained read.
#[derive(Debug, PartialEq, Eq)]
pub enum ReadOutcome {
    Stored { entry_id: u64, mime_type: String },
    IgnoredDuplicate { mime_type: String },
    Truncated { mime_type: String, original_bytes: usize },
    ReadError { mime_type: String, error: String },
}

/// Model of a `ReadOutcome`.
pub enum ReadOutcomeView {
    Stored { entry_id: u64, mime_type: Seq<char> },
    IgnoredDuplicate { mime_type: Seq<char> },
    Truncated { mime_type: Seq<char>, original_bytes: usize },
    ReadError { mime_type: Seq<char>, error: Seq<char> },
}

impl View for ReadOutcome {
    type V = ReadOutcomeView;

    open spec fn view(&self) -> ReadOutcomeView {
        match self {
            ReadOutcome::Stored { entry_id, mime_type } => ReadOutcomeView::Stored {
                entry_id: *entry_id,
                mime_type: mime_type@,
            },
            ReadOutcome::IgnoredDuplicate { mime_type } => ReadOutcomeView::IgnoredDuplicate {
                mime_type: mime_type@,
            },
            ReadOutcome::Truncated { mime_type, original_bytes } => ReadOutcomeView::Truncated {
                mime_type: mime_type@,
                original_bytes: *original_bytes,
            },
            ReadOutcome::ReadError { mime_type, error } => ReadOutcomeView::ReadError {
                mime_type: mime_type@,
                error: error@,
            },
        }
    }
}

/// The models of a sequence of outcomes.
pub open spec fn outcome_views(s: Seq<ReadOutcome>) -> Seq<ReadOutcomeView> {
    s.map_values(|o: ReadOutcome| o@)
}

/// Cut what a read returned to `MAX_CONTENT_BYTES`, reporting whether it was
/// longer. Reads take at most `MAX_CONTENT_BYTES + 1` bytes, so an oversized
/// paste is detected without buffering it whole.
pub fn bound_payload(buf: Vec<u8>) -> (r: (Vec<u8>, bool))
    ensures
        r.1 == (buf@.len() > MAX_CONTENT_BYTES),
        r.0@ == if r.1 {
            buf@.take(MAX_CONTENT_BYTES as int)
        } else {
            buf@
        },
{
    let mut buf = buf;
    let truncated = buf.len() > MAX_CONTENT_BYTES;
    if truncated {
        buf.truncate(MAX_CONTENT_BYTES);
    }
    (buf, truncated)
}

} // verus!
