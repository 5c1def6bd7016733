//! Shared tuning constants for the clipboard daemon.
//!
//! Centralising these avoids drift between the Wayland layer (MIME picking,
//! pipe fan-out) and the storage layer (`ClipState`).

use vstd::prelude::*;

verus! {

/// Maximum history entries retained in a `ClipState`.
pub const MAX_HISTORY: usize = 1000;

/// Maximum bytes kept per clipboard entry.
///
/// Reads take at most `MAX_CONTENT_BYTES + 1` bytes so oversized pastes are
/// detected without buffering unbounded input first.
pub const MAX_CONTENT_BYTES: usize = 1024 * 1024;

/// Preferred text MIME types, in preference order.
pub const PREFERRED_TEXT_MIMES: [&'static str; 8] = [
    "text/plain;charset=utf-8",
    "text/plain",
    "text/markdown",
    "text/html",
    "text/uri-list",
    "TEXT",
    "STRING",
    "UTF8_STRING",
];

/// Binary MIME types we store (with a size summary instead of a text preview).
/// Anything else (e.g. `application/x-foo`) is not requested by `pick_mimes`.
pub const SUPPORTED_BINARY_MIMES: [&'static str; 4] = [
    "image/png",
    "image/jpeg",
    "image/webp",
    "image/gif",
];

/// Maximum MIME transfers requested per selection (bounds pipe usage).
pub const MAX_MIMES_PER_SELECTION: usize = 4;

/// Text aliases offered when restoring a text entry. The entry's own MIME
/// type is always offered first; these aliases point at the same bytes so
/// legacy clients (`TEXT`, `STRING`, ...) still paste.
pub const TEXT_ALIASES: [&'static str; 5] = [
    "text/plain",
    "text/plain;charset=utf-8",
    "TEXT",
    "STRING",
    "UTF8_STRING",
];

/// `PREFERRED_TEXT_MIMES` as character sequences.
pub open spec fn preferred_text_mimes() -> Seq<Seq<char>> {
    seq![
        "text/plain;charset=utf-8"@,
        "text/plain"@,
        "text/markdown"@,
        "text/html"@,
        "text/uri-list"@,
        "TEXT"@,
        "STRING"@,
        "UTF8_STRING"@,
    ]
}

/// `SUPPORTED_BINARY_MIMES` as character sequences.
pub open spec fn supported_binary_mimes() -> Seq<Seq<char>> {
    seq!["image/png"@, "image/jpeg"@, "image/webp"@, "image/gif"@]
}

/// `TEXT_ALIASES` as character sequences.
pub open spec fn text_aliases() -> Seq<Seq<char>> {
    seq!["text/plain"@, "text/plain;charset=utf-8"@, "TEXT"@, "STRING"@, "UTF8_STRING"@]
}

/// The constant lists hold exactly the sequences that the specifications name.
pub proof fn lemma_mime_lists()
    ensures
        PREFERRED_TEXT_MIMES@.len() == preferred_text_mimes().len(),
        forall|i: int|
            0 <= i < preferred_text_mimes().len() ==> #[trigger] PREFERRED_TEXT_MIMES@[i]@
                == preferred_text_mimes()[i],
        SUPPORTED_BINARY_MIMES@.len() == supported_binary_mimes().len(),
        forall|i: int|
            0 <= i < supported_binary_mimes().len() ==> #[trigger] SUPPORTED_BINARY_MIMES@[i]@
                == supported_binary_mimes()[i],
        TEXT_ALIASES@.len() == text_aliases().len(),
        forall|i: int|
            0 <= i < text_aliases().len() ==> #[trigger] TEXT_ALIASES@[i]@ == text_aliases()[i],
{
}

/// No preferred text type is listed twice.
pub proof fn lemma_preferred_distinct()
    ensures
        preferred_text_mimes().no_duplicates(),
{
    reveal_strlit("text/plain;charset=utf-8");
    reveal_strlit("text/plain");
    reveal_strlit("text/markdown");
    reveal_strlit("text/html");
    reveal_strlit("text/uri-list");
    reveal_strlit("TEXT");
    reveal_strlit("STRING");
    reveal_strlit("UTF8_STRING");
    let p = preferred_text_mimes();
    assert forall|i: int, j: int| 0 <= i < p.len() && 0 <= j < p.len() && i != j implies p[i] != p[j] by {
        assert(i == 0 || i == 1 || i == 2 || i == 3 || i == 4 || i == 5 || i == 6 || i == 7);
        assert(j == 0 || j == 1 || j == 2 || j == 3 || j == 4 || j == 5 || j == 6 || j == 7);
        if p[i].len() == p[j].len() {
            assert(p[i][5] != p[j][5]);
        }
    }
}

} // verus!
