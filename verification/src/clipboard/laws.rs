//! Properties of the history that span calls: what every addition keeps, and
//! how successive additions relate.

use vstd::prelude::*;

use crate::clipboard::blobs::{BlobView, keys_distinct};
use crate::clipboard::content::{
    ContentView, from_blobs_spec, is_other_pair, is_text_pair, same_content,
};
use crate::clipboard::history::{ClipView, EntryView, classified, lemma_store_wf};
use crate::clipboard::state::{AppView, restore_contents_spec};
use crate::clipboard::payload_laws::{
    law_primary_offered_with_payload, law_restore_publishes_primary_then_aliases,
    law_same_content_same_payloads,
};
use crate::clipboard::blobs::lookup;
use crate::clipboard::content::{primary_mime_spec, representations_spec};
use crate::config::MAX_HISTORY;

verus! {

/// Every copy equals itself.
pub proof fn lemma_same_content_reflexive(c: ContentView)
    ensures
        same_content(c, c),
{
}

/// Copy equality does not depend on the order of the two copies.
pub proof fn lemma_same_content_symmetric(a: ContentView, b: ContentView)
    ensures
        same_content(a, b) == same_content(b, a),
{
}

/// Adding a copy keeps the history well formed: never more than
/// `MAX_HISTORY` entries, ids strictly increasing, and no two neighbouring
/// entries with equal content.
pub proof fn law_add_keeps_history_bounded(s: ClipView, b: Seq<BlobView>)
    requires
        s.wf(),
        keys_distinct(b),
        s.next_id < u64::MAX,
    ensures
        s.add(b).0.wf(),
        s.add(b).0.entries.len() <= MAX_HISTORY,
{
    if let Some(c) = from_blobs_spec(b) {
        assert(classified(c));
        lemma_store_wf(s, c);
    }
}

/// One copy is at most one entry: an addition either changes nothing and
/// gives no id, or gives exactly the next id and makes it the newest entry.
pub proof fn law_one_copy_one_entry(s: ClipView, b: Seq<BlobView>)
    requires
        s.wf(),
        s.next_id < u64::MAX,
    ensures
        s.add(b).1 is None ==> s.add(b).0 == s,
        s.add(b).1 is Some ==> {
            &&& s.add(b).1 == Some(s.next_id)
            &&& s.add(b).0.next_id == s.next_id + 1
            &&& s.add(b).0.entries.last() == (EntryView {
                id: s.next_id,
                content: from_blobs_spec(b)->Some_0,
            })
            &&& s.add(b).0.entries.len() == if s.entries.len() < MAX_HISTORY {
                s.entries.len() + 1
            } else {
                MAX_HISTORY as nat
            }
        },
{
    if let Some(c) = from_blobs_spec(b) {
        if !s.repeats_latest(c) {
            lemma_store_wf(s, c);
        }
    }
}

/// A copy whose payloads are all empty is never stored.
pub proof fn law_empty_copy_ignored(s: ClipView, b: Seq<BlobView>)
    requires
        forall|i: int| 0 <= i < b.len() ==> (#[trigger] b[i]).1.len() == 0,
    ensures
        s.add(b) == (s, None::<u64>),
{
    lemma_filter_none(b, is_text_pair());
    lemma_filter_none(b, is_other_pair());
}

proof fn lemma_filter_none(b: Seq<BlobView>, f: spec_fn(BlobView) -> bool)
    requires
        forall|i: int| 0 <= i < b.len() ==> !f(#[trigger] b[i]),
    ensures
        b.filter(f).len() == 0,
    decreases b.len(),
{
    reveal(Seq::filter);
    if b.len() > 0 {
        assert forall|i: int| 0 <= i < b.drop_last().len() implies !f(#[trigger] b.drop_last()[i]) by {
            assert(b.drop_last()[i] == b[i]);
        }
        lemma_filter_none(b.drop_last(), f);
        assert(!f(b[b.len() - 1]));
    }
}

/// Copying the same thing twice in a row stores it once: right after a copy
/// was stored, adding the same payloads again gives no id and changes
/// nothing.
pub proof fn law_consecutive_repeat_ignored(s: ClipView, b: Seq<BlobView>)
    requires
        s.wf(),
        s.next_id < u64::MAX,
        s.add(b).1 is Some,
    ensures
        s.add(b).0.add(b) == (s.add(b).0, None::<u64>),
{
    let c = from_blobs_spec(b)->Some_0;
    lemma_store_wf(s, c);
    lemma_same_content_reflexive(c);
}

/// A repeat is stored again once another copy came in between.
pub proof fn law_repeat_after_change_stored(s: ClipView, b1: Seq<BlobView>, b2: Seq<BlobView>)
    requires
        s.wf(),
        s.next_id + 2 < u64::MAX,
        s.add(b1).1 is Some,
        s.add(b1).0.add(b2).1 is Some,
    ensures
        s.add(b1).0.add(b2).0.add(b1).1 == Some((s.next_id + 2) as u64),
{
    let c1 = from_blobs_spec(b1)->Some_0;
    let c2 = from_blobs_spec(b2)->Some_0;
    let t = s.add(b1).0;
    lemma_store_wf(s, c1);
    lemma_store_wf(t, c2);
    lemma_same_content_symmetric(c1, c2);
}

/// Consecutively stored copies get consecutive ids.
pub proof fn law_ids_consecutive(s: ClipView, b1: Seq<BlobView>, b2: Seq<BlobView>)
    requires
        s.wf(),
        s.next_id + 1 < u64::MAX,
        s.add(b1).1 is Some,
        s.add(b1).0.add(b2).1 is Some,
    ensures
        s.add(b1).0.add(b2).1->Some_0 == s.add(b1).1->Some_0 + 1,
{
    lemma_store_wf(s, from_blobs_spec(b1)->Some_0);
}

/// What an addition reports is what a lookup finds: the returned id names
/// exactly one entry, the newest, holding the classified copy.
pub proof fn law_added_entry_found(s: ClipView, b: Seq<BlobView>)
    requires
        s.wf(),
        s.next_id < u64::MAX,
        s.add(b).1 is Some,
    ensures
        ({
            let t = s.add(b).0;
            let id = s.add(b).1->Some_0;
            &&& t.has_id(id)
            &&& forall|i: int|
                0 <= i < t.entries.len() && #[trigger] t.entries[i].id == id ==> i == t.entries.len()
                    - 1 && t.entries[i].content == from_blobs_spec(b)->Some_0
        }),
{
    let c = from_blobs_spec(b)->Some_0;
    lemma_store_wf(s, c);
    let t = s.add(b).0;
    let last = t.entries.len() - 1;
    assert(t.entries[last].id == s.next_id);
    assert forall|i: int| 0 <= i < t.entries.len() && #[trigger] t.entries[i].id == s.next_id implies i
        == last && t.entries[i].content == c by {
        if i < last {
            assert(t.entries[i].id < t.entries[last].id);
        }
    }
}

/// A full history evicts exactly its oldest entry to make room.
pub proof fn law_full_history_evicts_oldest(s: ClipView, b: Seq<BlobView>)
    requires
        s.wf(),
        s.next_id < u64::MAX,
        s.entries.len() == MAX_HISTORY,
        s.add(b).1 is Some,
    ensures
        s.add(b).0.entries == s.entries.drop_first().push(
            EntryView { id: s.next_id, content: from_blobs_spec(b)->Some_0 },
        ),
{
    let c = from_blobs_spec(b)->Some_0;
    assert(s.entries.push(EntryView { id: s.next_id, content: c }).drop_first()
        =~= s.entries.drop_first().push(EntryView { id: s.next_id, content: c }));
}

/// A stale `Cancelled` for a source that was already replaced never
/// clobbers the replacement; a `Cancelled` for the owned source drops it.
pub proof fn law_stale_cancel_keeps_replacement(v: AppView, old_source: u32, new_source: u32)
    requires
        old_source != new_source,
    ensures
        !v.replaced(new_source).cancel_applies(old_source),
        v.replaced(new_source).cancelled(old_source) == v.replaced(new_source),
        v.replaced(new_source).cancelled(new_source).current_source is None,
{
}

/// A new, different selection releases the previous offer and forgets its
/// MIME types; the same offer again releases nothing; a cleared selection
/// releases the current offer.
pub proof fn law_selection_releases_previous(v: AppView, a: u32, b: u32)
    ensures
        a != b ==> v.select(Some(a)).released_by(Some(b)) == Some(a) && !v.select(Some(a)).select(
            Some(b),
        ).offers.contains_key(a) && v.select(Some(a)).select(Some(b)).current_selection == Some(b),
        v.select(Some(a)).released_by(Some(a)) is None,
        v.select(Some(a)).select(Some(a)) == v.select(Some(a)),
        v.select(Some(a)).released_by(None) == Some(a),
        v.select(Some(a)).select(None).current_selection is None,
{
    let w = v.select(Some(a));
    assert(w.select(Some(a)) == w);
}

/// Restoring any stored entry publishes something: its own MIME type first,
/// with the entry's non-empty payload under it.
pub proof fn law_stored_entry_restores_own_mime(s: ClipView, i: int)
    requires
        s.wf(),
        0 <= i < s.entries.len(),
    ensures
        ({
            let c = s.entries[i].content;
            let r = restore_contents_spec(c);
            &&& lookup(representations_spec(c), primary_mime_spec(c)) matches Some(p) && p.len() > 0
            &&& r.len() > 0
            &&& r[0] == (primary_mime_spec(c), lookup(representations_spec(c), primary_mime_spec(c))->Some_0)
        }),
{
    let c = s.entries[i].content;
    assert(classified(c));
    let b = choose|b: Seq<BlobView>| keys_distinct(b) && #[trigger] from_blobs_spec(b) == Some(c);
    law_primary_offered_with_payload(b);
    law_restore_publishes_primary_then_aliases(c);
}

/// Only a true repeat is ignored: a copy whose payload under some MIME type
/// `k` differs from the newest entry's (other bytes, or present in one and
/// not the other) is stored under the next id.
pub proof fn law_changed_copy_stored(s: ClipView, b: Seq<BlobView>, k: Seq<char>)
    requires
        from_blobs_spec(b) is Some,
        s.entries.len() > 0 ==> lookup(representations_spec(from_blobs_spec(b)->Some_0), k) != lookup(
            representations_spec(s.entries.last().content),
            k,
        ),
    ensures
        s.add(b).1 == Some(s.next_id),
{
    let c = from_blobs_spec(b)->Some_0;
    if s.repeats_latest(c) {
        law_same_content_same_payloads(s.entries.last().content, c);
    }
}

} // verus!
