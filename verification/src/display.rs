//! Human-readable rendering for history entries.
//!
//! Keeps text summaries and layout in one place so the Wayland I/O layer and
//! any future TUI/GUI share the same preview logic. Wall-clock times are
//! rendered by their `Debug` form, which the caller of the `_at` / `_with`
//! variants supplies.

use vstd::prelude::*;

use crate::clipboard::blobs::BlobView;
use crate::clipboard::content::{
    ClipboardContent, ContentView, image_label, preview_spec, primary_mime_spec,
};
use crate::clipboard::history::{ClipState, ClipView, ClipboardEntry, EntryView};
use crate::clock::time_debug_text;
use crate::text::{decimal, push_decimal};

verus! {

broadcast use vstd::string::group_string_axioms;

/// `[id] TIME mime: preview`.
pub open spec fn entry_line(e: EntryView, time: Seq<char>) -> Seq<char> {
    "["@ + decimal(e.id as nat) + "] "@ + time + " "@ + primary_mime_spec(e.content) + ": "@
        + preview_spec(e.content)
}

/// The label of an entry's variant.
pub open spec fn kind_label(c: ContentView) -> Seq<char> {
    match c {
        ContentView::Text(_) => "Text"@,
        ContentView::Image(_) => "Image"@,
        ContentView::Mixed(_, _) => "Mixed"@,
    }
}

/// `<N bytes of MIME>` lines of the images, one per line.
pub open spec fn image_lines(imgs: Seq<BlobView>) -> Seq<char>
    decreases imgs.len(),
{
    if imgs.len() == 0 {
        Seq::empty()
    } else {
        image_lines(imgs.drop_last()) + image_label(imgs.last().1.len(), imgs.last().0) + "\n"@
    }
}

/// The multi-line block logged when a new entry lands.
pub open spec fn new_entry_block(e: EntryView, time: Seq<char>) -> Seq<char> {
    let head = "\n==== CLIPBOARD [id="@ + decimal(e.id as nat) + " @"@ + time;
    match e.content {
        ContentView::Text(t) => head + " "@ + t.primary_mime + " Text] ====\n"@ + t.text + "\n"@,
        ContentView::Image(i) => head + "] ====\n"@ + image_label(i.1.len(), i.0) + "\n"@,
        ContentView::Mixed(t, imgs) => {
            let text_part = match t {
                Some(t) => t.text + "\n"@,
                None => Seq::<char>::empty(),
            };
            head + " Mixed] ====\n"@ + text_part + image_lines(imgs)
        },
    }
}

/// The lines of `entries`, each after a `'\n'`.
pub open spec fn history_lines(entries: Seq<EntryView>, times: Seq<Seq<char>>) -> Seq<char>
    decreases entries.len(),
{
    if entries.len() == 0 {
        Seq::empty()
    } else {
        history_lines(entries.drop_last(), times.drop_last()) + "\n"@ + entry_line(
            entries.last(),
            times.last(),
        )
    }
}

/// `History (N entries):` followed by one line per entry.
pub open spec fn history_block(s: ClipView, times: Seq<Seq<char>>) -> Seq<char> {
    "History ("@ + decimal(s.entries.len() as nat) + " entries):"@ + history_lines(
        s.entries,
        times,
    )
}

/// One-line summary of `entry`, given the rendering `time` of its timestamp.
pub fn format_entry_at(entry: &ClipboardEntry, time: &str) -> (s: String)
    ensures
        s@ == entry_line(entry@, time@),
{
    let mut s = String::new();
    s.append("[");
    push_decimal(&mut s, entry.id);
    s.append("] ");
    s.append(time);
    s.append(" ");
    s.append(entry.content.primary_mime());
    s.append(": ");
    let preview = entry.preview();
    s.append(preview.as_str());
    proof {
        reveal_strlit("[");
        reveal_strlit("] ");
        reveal_strlit(" ");
        reveal_strlit(": ");
    }
    assert(s@ =~= entry_line(entry@, time@));
    s
}

/// One-line summary used in history listings: `[id] TIME mime: preview`,
/// with the timestamp in its `Debug` form.
pub fn format_entry(entry: &ClipboardEntry) -> (s: String)
    ensures
        exists|time: Seq<char>| s@ == entry_line(entry@, time),
{
    let time = time_debug_text(&entry.timestamp);
    format_entry_at(entry, time.as_str())
}

/// Human label for the entry variant (Text / Image / Mixed).
pub fn format_kind(entry: &ClipboardEntry) -> (s: &'static str)
    ensures
        s@ == kind_label(entry.content@),
{
    proof {
        reveal_strlit("Text");
        reveal_strlit("Image");
        reveal_strlit("Mixed");
    }
    match &entry.content {
        ClipboardContent::Text(_) => "Text",
        ClipboardContent::Image(_) => "Image",
        ClipboardContent::Mixed(_) => "Mixed",
    }
}

/// Multi-line detail view of a new entry, given the rendering `time` of its
/// timestamp.
pub fn format_new_entry_at(entry: &ClipboardEntry, time: &str) -> (s: String)
    ensures
        s@ == new_entry_block(entry@, time@),
{
    proof {
        reveal_strlit("\n==== CLIPBOARD [id=");
        reveal_strlit(" @");
        reveal_strlit(" ");
        reveal_strlit(" Text] ====\n");
        reveal_strlit("\n");
        reveal_strlit("] ====\n");
        reveal_strlit(" Mixed] ====\n");
        reveal_strlit("<");
        reveal_strlit(" bytes of ");
        reveal_strlit(">");
    }
    let mut s = String::new();
    s.append("\n==== CLIPBOARD [id=");
    push_decimal(&mut s, entry.id);
    s.append(" @");
    s.append(time);
    let ghost head = s@;
    match &entry.content {
        ClipboardContent::Text(t) => {
            s.append(" ");
            s.append(t.primary_mime.as_str());
            s.append(" Text] ====\n");
            s.append(t.text.as_str());
            s.append("\n");
        },
        ClipboardContent::Image(i) => {
            s.append("] ====\n");
            push_image_line(&mut s, i.mime_type.as_str(), i.bytes.len());
        },
        ClipboardContent::Mixed(m) => {
            s.append(" Mixed] ====\n");
            match &m.text {
                Some(t) => {
                    s.append(t.text.as_str());
                    s.append("\n");
                },
                None => {},
            }
            let ghost mid = s@;
            let ghost imgs = crate::clipboard::content::image_views(m.images@);
            let mut i: usize = 0;
            while i < m.images.len()
                invariant
                    0 <= i <= m.images@.len(),
                    imgs == crate::clipboard::content::image_views(m.images@),
                    s@ == mid + image_lines(imgs.take(i as int)),
                decreases m.images@.len() - i,
            {
                proof {
                    assert(imgs.take(i + 1).drop_last() =~= imgs.take(i as int));
                    assert(imgs.take(i + 1).last() == m.images@[i as int]@);
                }
                push_image_line(&mut s, m.images[i].mime_type.as_str(), m.images[i].bytes.len());
                i = i + 1;
            }
            assert(imgs.take(m.images@.len() as int) =~= imgs);
        },
    }
    assert(s@ =~= new_entry_block(entry@, time@));
    s
}

/// Append `<N bytes of MIME>\n`.
fn push_image_line(s: &mut String, mime: &str, len: usize)
    ensures
        final(s)@ == old(s)@ + image_label(len as nat, mime@) + "\n"@,
{
    s.append("<");
    push_decimal(s, len as u64);
    s.append(" bytes of ");
    s.append(mime);
    s.append(">\n");
    proof {
        reveal_strlit("<");
        reveal_strlit(" bytes of ");
        reveal_strlit(">\n");
        reveal_strlit(">");
        reveal_strlit("\n");
    }
    assert(final(s)@ =~= old(s)@ + image_label(len as nat, mime@) + "\n"@);
}

/// Multi-line detail view logged when a new clipboard entry lands, with the
/// timestamp in its `Debug` form.
pub fn format_new_entry(entry: &ClipboardEntry) -> (s: String)
    ensures
        exists|time: Seq<char>| s@ == new_entry_block(entry@, time),
{
    let time = time_debug_text(&entry.timestamp);
    format_new_entry_at(entry, time.as_str())
}

/// Full history dump, given the rendering of every entry's timestamp
/// (oldest first).
pub fn format_history_with(state: &ClipState, times: &Vec<String>) -> (s: String)
    requires
        times@.len() == state@.entries.len(),
    ensures
        s@ == history_block(state@, times@.map_values(|t: String| t@)),
{
    proof {
        reveal_strlit("History (");
        reveal_strlit(" entries):");
        reveal_strlit("\n");
    }
    let ghost tv = times@.map_values(|t: String| t@);
    let ghost entries = state@.entries;
    let mut s = String::new();
    s.append("History (");
    push_decimal(&mut s, state.len() as u64);
    s.append(" entries):");
    let ghost head = s@;
    let mut i: usize = 0;
    while i < state.len()
        invariant
            0 <= i <= entries.len(),
            entries == state@.entries,
            times@.len() == entries.len(),
            tv == times@.map_values(|t: String| t@),
            s@ == head + history_lines(entries.take(i as int), tv.take(i as int)),
        decreases entries.len() - i,
    {
        proof {
            assert(entries.take(i + 1).drop_last() =~= entries.take(i as int));
            assert(tv.take(i + 1).drop_last() =~= tv.take(i as int));
            assert(entries.take(i + 1).last() == entries[i as int]);
            assert(tv.take(i + 1).last() == times@[i as int]@);
        }
        let line = format_entry_at(state.entry_at(i), times[i].as_str());
        s.append("\n");
        s.append(line.as_str());
        i = i + 1;
    }
    assert(entries.take(entries.len() as int) =~= entries);
    assert(tv.take(tv.len() as int) =~= tv);
    s
}

/// Full history dump (debug helper until a TUI/GUI renders entries
/// directly), with timestamps in their `Debug` form.
pub fn format_history(state: &ClipState) -> (s: String)
    ensures
        exists|times: Seq<Seq<char>>|
            times.len() == state@.entries.len() && s@ == history_block(state@, times),
{
    let mut times: Vec<String> = Vec::new();
    let mut i: usize = 0;
    while i < state.len()
        invariant
            0 <= i <= state@.entries.len(),
            times@.len() == i,
        decreases state@.entries.len() - i,
    {
        times.push(time_debug_text(&state.entry_at(i).timestamp));
        i = i + 1;
    }
    let s = format_history_with(state, &times);
    assert(times@.map_values(|t: String| t@).len() == state@.entries.len());
    s
}

} // verus!
