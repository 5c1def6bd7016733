//! IPC protocol types shared by the daemon and its UI clients, and the
//! helpers that build them. The wire form (newline-delimited JSON) is
//! produced outside the library from these values.

use vstd::prelude::*;

use crate::clipboard::content::{ContentView, has_text_spec, preview_spec, primary_mime_spec};
use crate::clipboard::history::{ClipboardEntry, EntryView};
use crate::error::{ClipboardError, error_message};
use crate::text::take_chars;

verus! {

broadcast use vstd::string::group_string_axioms;

/// Chars kept in `EntrySummary::preview`. Full bytes stay in history only.
pub const PREVIEW_CHARS: usize = 200;

/// Upper bound for `UiRequest::List { limit }`. The server clamps above this.
pub const MAX_LIST_LIMIT: usize = 100;

/// Max bytes per JSON line on the socket.
pub const MAX_LINE_BYTES: usize = 64 * 1024;

/// Variant of a history entry.
#[derive(Debug, Clone, Copy, PartialEq, Eq, Structural)]
pub enum EntryKind {
    Text,
    Image,
    Mixed,
}

/// Cheap UI row for one history entry: never the raw payloads.
#[derive(Debug, PartialEq, Eq)]
pub struct EntrySummary {
    pub id: u64,
    pub timestamp_millis: u64,
    pub kind: EntryKind,
    pub primary_mime: String,
    pub preview: String,
    pub has_text: bool,
}

/// Requests a UI sends.
#[derive(Debug, Clone, PartialEq, Eq)]
pub enum UiRequest {
    List { offset: usize, limit: usize },
    Restore { entry_id: u64 },
    Ping,
    Subscribe,
}

/// Replies the daemon sends.
#[derive(Debug, PartialEq, Eq)]
pub enum DaemonResponse {
    Entries { total: usize, entries: Vec<EntrySummary> },
    Restored { entry_id: u64 },
    Pong,
    Subscribed,
    Error { message: String },
}

/// Pushes to subscribed UIs.
#[derive(Debug, PartialEq, Eq)]
pub enum ServerEvent {
    EntryAdded { entry: EntrySummary },
    SelectionCleared,
}

/// A request with its protocol version and the id the reply echoes.
#[derive(Debug, PartialEq, Eq)]
pub struct RequestEnvelope {
    pub v: u8,
    pub id: String,
    pub req: UiRequest,
}

/// A reply echoing the request's id.
#[derive(Debug, PartialEq, Eq)]
pub struct ResponseEnvelope {
    pub v: u8,
    pub id: String,
    pub resp: DaemonResponse,
}

/// A pushed event.
#[derive(Debug, PartialEq, Eq)]
pub struct EventEnvelope {
    pub v: u8,
    pub event: ServerEvent,
}

/// Protocol version assumed when a message omits `v`.
pub fn default_version() -> (v: u8)
    ensures
        v == 1,
{
    1
}

/// The first `max_chars` characters of `s` (char-safe).
pub fn truncate_preview(s: &str, max_chars: usize) -> (r: String)
    ensures
        r@ == s@.take(if max_chars < s@.len() { max_chars as int } else { s@.len() as int }),
{
    take_chars(s, max_chars)
}

/// The limit actually served: `min(limit, MAX_LIST_LIMIT)`.
pub open spec fn clamp_limit_spec(limit: usize) -> usize {
    if limit < MAX_LIST_LIMIT {
        limit
    } else {
        MAX_LIST_LIMIT
    }
}

/// Clamp a client-supplied `List.limit` to `[0, MAX_LIST_LIMIT]`.
pub fn clamp_limit(limit: usize) -> (r: usize)
    ensures
        r == clamp_limit_spec(limit),
{
    if limit < MAX_LIST_LIMIT {
        limit
    } else {
        MAX_LIST_LIMIT
    }
}

/// Mathematical model of an `EntrySummary`.
pub struct SummaryView {
    pub id: u64,
    pub timestamp_millis: u64,
    pub kind: EntryKind,
    pub primary_mime: Seq<char>,
    pub preview: Seq<char>,
    pub has_text: bool,
}

impl View for EntrySummary {
    type V = SummaryView;

    open spec fn view(&self) -> SummaryView {
        SummaryView {
            id: self.id,
            timestamp_millis: self.timestamp_millis,
            kind: self.kind,
            primary_mime: self.primary_mime@,
            preview: self.preview@,
            has_text: self.has_text,
        }
    }
}

/// The kind of a content.
pub open spec fn kind_of(c: ContentView) -> EntryKind {
    match c {
        ContentView::Text(_) => EntryKind::Text,
        ContentView::Image(_) => EntryKind::Image,
        ContentView::Mixed(_, _) => EntryKind::Mixed,
    }
}

/// The summary of an entry whose timestamp is `millis` after the epoch: the
/// preview is cut to `PREVIEW_CHARS` characters.
pub open spec fn summary_spec(e: EntryView, millis: u64) -> SummaryView {
    let p = preview_spec(e.content);
    SummaryView {
        id: e.id,
        timestamp_millis: millis,
        kind: kind_of(e.content),
        primary_mime: primary_mime_spec(e.content),
        preview: p.take(
            if PREVIEW_CHARS < p.len() {
                PREVIEW_CHARS as int
            } else {
                p.len() as int
            },
        ),
        has_text: has_text_spec(e.content),
    }
}

/// A summary is stamped with exactly the time it is given and keeps the
/// entry's id: two entries stored at different times never summarise to the
/// same stamp.
pub proof fn law_summary_keeps_time_and_id(e: EntryView, m1: u64, m2: u64)
    ensures
        summary_spec(e, m1).timestamp_millis == m1,
        summary_spec(e, m1).id == e.id,
        m1 != m2 ==> summary_spec(e, m1) != summary_spec(e, m2),
{
}

impl EntrySummary {
    /// The summary of `entry`, stamped `timestamp_millis`.
    pub fn summarize(entry: &ClipboardEntry, timestamp_millis: u64) -> (s: EntrySummary)
        ensures
            s@ == summary_spec(entry@, timestamp_millis),
    {
        let kind = match &entry.content {
            crate::clipboard::content::ClipboardContent::Text(_) => EntryKind::Text,
            crate::clipboard::content::ClipboardContent::Image(_) => EntryKind::Image,
            crate::clipboard::content::ClipboardContent::Mixed(_) => EntryKind::Mixed,
        };
        let primary_mime = entry.mime_type().to_owned();
        let preview = truncate_preview(entry.preview().as_str(), PREVIEW_CHARS);
        let has_text = entry.is_text();
        EntrySummary { id: entry.id, timestamp_millis, kind, primary_mime, preview, has_text }
    }

    /// A copy with equal fields.
    pub fn duplicate(&self) -> (r: EntrySummary)
        ensures
            r@ == self@,
    {
        EntrySummary {
            id: self.id,
            timestamp_millis: self.timestamp_millis,
            kind: self.kind,
            primary_mime: self.primary_mime.clone(),
            preview: self.preview.clone(),
            has_text: self.has_text,
        }
    }
}

impl From<&ClipboardEntry> for EntrySummary {
    /// The summary of `value`, stamped with the entry's own time in
    /// milliseconds since the Unix epoch (0 for a time before it).
    fn from(value: &ClipboardEntry) -> (s: EntrySummary)
        ensures
            s@ == summary_spec(value@, value.timestamp_millis),
    {
        EntrySummary::summarize(value, value.timestamp_millis)
    }
}

impl vstd::std_specs::convert::FromSpecImpl<&ClipboardEntry> for EntrySummary {
    open spec fn obeys_from_spec() -> bool {
        false
    }

    open spec fn from_spec(v: &ClipboardEntry) -> EntrySummary {
        arbitrary()
    }
}

impl DaemonResponse {
    /// The error reply carrying `err`'s message.
    pub fn from_error(err: &ClipboardError) -> (r: DaemonResponse)
        ensures
            r matches DaemonResponse::Error { message } && message@ == error_message(*err),
    {
        DaemonResponse::Error { message: err.to_string() }
    }
}

impl From<ClipboardError> for DaemonResponse {
    /// The error reply carrying `err`'s message.
    fn from(err: ClipboardError) -> (r: DaemonResponse)
        ensures
            r matches DaemonResponse::Error { message } && message@ == error_message(err),
    {
        DaemonResponse::from_error(&err)
    }
}

impl vstd::std_specs::convert::FromSpecImpl<ClipboardError> for DaemonResponse {
    open spec fn obeys_from_spec() -> bool {
        false
    }

    open spec fn from_spec(v: ClipboardError) -> DaemonResponse {
        arbitrary()
    }
}

} // verus!
