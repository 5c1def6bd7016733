//! UI mirror of the history: cheap `EntrySummary` rows only, never raw
//! payloads. The shared handle (`Arc<RwLock<..>>`) lives with the daemon's
//! threads; these are the operations on its contents.

use vstd::prelude::*;

use crate::clipboard::blobs::BlobView;
use crate::clipboard::history::{ClipView, EntryView};
use crate::config::MAX_HISTORY;
use crate::daemon::types::{
    EntrySummary, MAX_LIST_LIMIT, SummaryView, clamp_limit, clamp_limit_spec,
};

verus! {

/// The models of a sequence of summaries.
pub open spec fn summary_views(s: Seq<EntrySummary>) -> Seq<SummaryView> {
    s.map_values(|e: EntrySummary| e@)
}

/// The newest `MAX_HISTORY` rows of `s`.
pub open spec fn keep_newest(s: Seq<SummaryView>) -> Seq<SummaryView> {
    if s.len() > MAX_HISTORY {
        s.skip(s.len() - MAX_HISTORY)
    } else {
        s
    }
}

/// The page `[offset, offset + clamp_limit(limit))` of `s`, cut at its end.
pub open spec fn page(s: Seq<SummaryView>, offset: usize, limit: usize) -> Seq<SummaryView> {
    let start = if offset < s.len() {
        offset as int
    } else {
        s.len() as int
    };
    let end = if start + clamp_limit_spec(limit) < s.len() {
        start + clamp_limit_spec(limit)
    } else {
        s.len() as int
    };
    s.subrange(start, end)
}

/// Append one stored summary, evicting oldest while over `MAX_HISTORY`.
///
/// Single source of truth for eviction so the snapshot never diverges from
/// `ClipState` (which truncates the same way).
pub fn push_summary(snap: &mut Vec<EntrySummary>, summary: EntrySummary)
    ensures
        summary_views(final(snap)@) == keep_newest(summary_views(old(snap)@).push(summary@)),
        final(snap)@.len() <= MAX_HISTORY,
{
    let ghost pushed = summary_views(old(snap)@).push(summary@);
    snap.push(summary);
    assert(summary_views(snap@) =~= pushed);
    let ghost dropped: int = 0;
    while snap.len() > MAX_HISTORY
        invariant
            0 <= dropped <= pushed.len(),
            summary_views(snap@) == pushed.skip(dropped),
            dropped > 0 ==> pushed.len() - dropped >= MAX_HISTORY,
        decreases snap@.len(),
    {
        let ghost before = summary_views(snap@);
        snap.remove(0);
        proof {
            assert(summary_views(snap@) =~= before.drop_first());
            assert(before.drop_first() =~= pushed.skip(dropped + 1));
            dropped = dropped + 1;
        }
    }
    assert(summary_views(snap@) =~= keep_newest(pushed));
}

/// `(total, page)`: the number of rows and the rows `[offset, offset + limit)`
/// with `limit` clamped to `MAX_LIST_LIMIT`; empty when `offset >= total`.
pub fn list_snapshot(snap: &[EntrySummary], offset: usize, limit: usize) -> (r: (
    usize,
    Vec<EntrySummary>,
))
    ensures
        r.0 == snap@.len(),
        summary_views(r.1@) == page(summary_views(snap@), offset, limit),
{
    let total = snap.len();
    let limit = clamp_limit(limit);
    let start = if offset < total {
        offset
    } else {
        total
    };
    let end = if limit < total - start {
        start + limit
    } else {
        total
    };
    let mut entries: Vec<EntrySummary> = Vec::new();
    let mut i: usize = start;
    while i < end
        invariant
            start <= i <= end <= snap@.len(),
            summary_views(entries@) == summary_views(snap@).subrange(start as int, i as int),
        decreases end - i,
    {
        let ghost before = summary_views(entries@);
        entries.push(snap[i].duplicate());
        assert(summary_views(entries@) =~= before.push(snap@[i as int]@));
        assert(summary_views(entries@) =~= summary_views(snap@).subrange(start as int, i + 1));
        i = i + 1;
    }
    assert(summary_views(entries@) =~= page(summary_views(snap@), offset, limit));
    (total, entries)
}

/// The ids of a sequence of summaries.
pub open spec fn summary_ids(s: Seq<SummaryView>) -> Seq<u64> {
    s.map_values(|e: SummaryView| e.id)
}

/// The ids of a sequence of history entries.
pub open spec fn entry_ids(s: Seq<EntryView>) -> Seq<u64> {
    s.map_values(|e: EntryView| e.id)
}

/// The snapshot never diverges from the history: when it mirrors the
/// history's ids and the summary of a newly stored copy is pushed, it mirrors
/// the new history's ids, evictions included.
pub proof fn law_snapshot_tracks_history(
    snap: Seq<SummaryView>,
    s: ClipView,
    b: Seq<BlobView>,
    summary: SummaryView,
)
    requires
        s.wf(),
        s.next_id < u64::MAX,
        summary_ids(snap) == entry_ids(s.entries),
        s.add(b).1 == Some(summary.id),
    ensures
        summary_ids(keep_newest(snap.push(summary))) == entry_ids(s.add(b).0.entries),
{
    let c = crate::clipboard::content::from_blobs_spec(b)->Some_0;
    assert(summary.id == s.next_id);
    let e = s.entries.push(EntryView { id: s.next_id, content: c });
    let p = snap.push(summary);
    assert(summary_ids(snap).len() == snap.len());
    assert(entry_ids(s.entries).len() == s.entries.len());
    assert(summary_ids(snap).len() == entry_ids(s.entries).len());
    assert(snap.len() == s.entries.len());
    assert(summary_ids(p) =~= summary_ids(snap).push(summary.id));
    assert(entry_ids(e) =~= entry_ids(s.entries).push(s.next_id));
    assert(summary_ids(p) =~= entry_ids(e));
    if e.len() > MAX_HISTORY {
        assert forall|i: int| 0 <= i < e.len() - 1 implies #[trigger] summary_ids(
            p.skip(p.len() - MAX_HISTORY),
        )[i] == entry_ids(e.drop_first())[i] by {
            assert(summary_ids(p)[i + 1] == entry_ids(e)[i + 1]);
        }
        assert(summary_ids(p.skip(p.len() - MAX_HISTORY)) =~= entry_ids(e.drop_first()));
    }
}

/// A page never holds more than `MAX_LIST_LIMIT` rows, and is empty when the
/// offset is at or past the end.
pub proof fn law_page_bounds(s: Seq<SummaryView>, offset: usize, limit: usize)
    ensures
        page(s, offset, limit).len() <= MAX_LIST_LIMIT,
        page(s, offset, limit).len() <= limit,
        offset >= s.len() ==> page(s, offset, limit).len() == 0,
{
}

} // verus!
