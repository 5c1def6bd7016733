pub mod clipboard;
pub mod clock;
pub mod config;
pub mod daemon;
pub mod display;
pub mod error;
pub mod mime;
pub mod text;

pub use clipboard::blobs::MimeBlobs;
pub use clipboard::content::{ClipboardContent, ImageData, MixedData, TextData};
pub use clipboard::history::{ClipState, ClipboardEntry};
pub use clipboard::io::{ReadOutcome, bound_payload};
pub use clipboard::registry::{GlobalBinding, binding_for, check_globals};
pub use clipboard::state::{AppState, OfferData, SelectionPlan, SourceData};
pub use config::{
    MAX_CONTENT_BYTES, MAX_HISTORY, MAX_MIMES_PER_SELECTION, PREFERRED_TEXT_MIMES,
    SUPPORTED_BINARY_MIMES, TEXT_ALIASES,
};
pub use daemon::server::socket_path_for;
pub use daemon::snapshot::{list_snapshot, push_summary};
pub use daemon::types::{
    DaemonResponse, EntryKind, EntrySummary, EventEnvelope, MAX_LINE_BYTES, MAX_LIST_LIMIT,
    PREVIEW_CHARS, RequestEnvelope, ResponseEnvelope, ServerEvent, UiRequest, clamp_limit,
    default_version, truncate_preview,
};
pub use display::{format_entry, format_history, format_kind, format_new_entry};
pub use error::{ClipboardError, Result};
pub use mime::{is_text_mime, pick_mimes};
