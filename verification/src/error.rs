//! Typed errors for the clipboard daemon.

use vstd::prelude::*;

use crate::text::{decimal, push_decimal};

verus! {

broadcast use vstd::string::group_string_axioms;

/// All recoverable failures of the daemon.
#[derive(Debug)]
pub enum ClipboardError {
    /// No `wl_seat` global was advertised (no compositor / headless env).
    NoSeat,
    /// Compositor does not expose the privileged data-control manager.
    NoManager,
    /// Data device is missing or was revoked (`Finished` event).
    NoDevice,
    /// Requested history entry does not exist.
    EntryNotFound(u64),
    /// Wayland protocol / event-queue failure.
    Wayland(String),
    /// Pipe creation or clipboard transfer I/O failure.
    Io(String),
}

/// Result alias used throughout the crate.
pub type Result<T> = std::result::Result<T, ClipboardError>;

/// The human-readable message of an error.
pub open spec fn error_message(e: ClipboardError) -> Seq<char> {
    match e {
        ClipboardError::NoSeat => "no wl_seat found: is a Wayland compositor running?"@,
        ClipboardError::NoManager =>
            "no ext_data_control_manager_v1 found: compositor does not support clipboard managers"@,
        ClipboardError::NoDevice =>
            "data device missing: compositor revoked access or setup incomplete"@,
        ClipboardError::EntryNotFound(id) => "clipboard entry "@ + decimal(id as nat)
            + " not found"@,
        ClipboardError::Wayland(m) => "wayland error: "@ + m@,
        ClipboardError::Io(m) => "clipboard I/O error: "@ + m@,
    }
}

impl ClipboardError {
    /// The human-readable message of the error.
    pub fn to_string(&self) -> (s: String)
        ensures
            s@ == error_message(*self),
    {
        proof {
            reveal_strlit("no wl_seat found: is a Wayland compositor running?");
            reveal_strlit(
                "no ext_data_control_manager_v1 found: compositor does not support clipboard managers",
            );
            reveal_strlit("data device missing: compositor revoked access or setup incomplete");
            reveal_strlit("clipboard entry ");
            reveal_strlit(" not found");
            reveal_strlit("wayland error: ");
            reveal_strlit("clipboard I/O error: ");
        }
        match self {
            ClipboardError::NoSeat => "no wl_seat found: is a Wayland compositor running?".to_owned(),
            ClipboardError::NoManager =>
                "no ext_data_control_manager_v1 found: compositor does not support clipboard managers".to_owned(),
            ClipboardError::NoDevice =>
                "data device missing: compositor revoked access or setup incomplete".to_owned(),
            ClipboardError::EntryNotFound(id) => {
                let mut s = "clipboard entry ".to_owned();
                push_decimal(&mut s, *id);
                s.append(" not found");
                s
            },
            ClipboardError::Wayland(m) => {
                let mut s = "wayland error: ".to_owned();
                s.append(m.as_str());
                s
            },
            ClipboardError::Io(m) => {
                let mut s = "clipboard I/O error: ".to_owned();
                s.append(m.as_str());
                s
            },
        }
    }
}

} // verus!
