//! Bounded clipboard history: one entry per copy, consecutive duplicates
//! ignored, oldest entries evicted beyond `MAX_HISTORY`.

use std::collections::VecDeque;
use std::collections::vec_deque::Iter;
use std::time::SystemTime;

use vstd::prelude::*;

use crate::clipboard::blobs::{BlobView, MimeBlobs, keys_distinct};
use crate::clipboard::content::{
    ClipboardContent, ContentView, from_blobs_spec, has_text_spec, preview_spec,
    primary_mime_spec, same_content,
};
use crate::clock::{system_time_now, unix_millis};
use crate::config::MAX_HISTORY;

verus! {

broadcast use vstd::std_specs::vecdeque::group_vec_dequeue_axioms;

/// One stored copy.
#[derive(Debug)]
pub struct ClipboardEntry {
    pub id: u64,
    pub timestamp: SystemTime,
    /// `timestamp` in milliseconds since the Unix epoch (cut to 64 bits, 0
    /// for a time before the epoch), taken when the entry is stored.
    pub timestamp_millis: u64,
    pub content: ClipboardContent,
}

/// Model of a history entry: its id and content (the wall-clock time is not
/// part of it).
pub struct EntryView {
    pub id: u64,
    pub content: ContentView,
}

impl View for ClipboardEntry {
    type V = EntryView;

    open spec fn view(&self) -> EntryView {
        EntryView { id: self.id, content: self.content@ }
    }
}

impl ClipboardEntry {
    /// The entry's preferred MIME.
    pub fn mime_type(&self) -> (m: &str)
        ensures
            m@ == primary_mime_spec(self.content@),
    {
        self.content.primary_mime()
    }

    /// True for entries carrying text (Text or Mixed-with-text).
    pub fn is_text(&self) -> (b: bool)
        ensures
            b == has_text_spec(self.content@),
    {
        self.content.has_text()
    }

    /// Short one-line preview for history / log output.
    pub fn preview(&self) -> (s: String)
        ensures
            s@ == preview_spec(self.content@),
    {
        self.content.preview()
    }
}

/// Model of the history: entries oldest first, and the next id to assign.
pub struct ClipView {
    pub entries: Seq<EntryView>,
    pub next_id: u64,
}

/// The models of a sequence of entries.
pub open spec fn entry_views(s: Seq<ClipboardEntry>) -> Seq<EntryView> {
    s.map_values(|e: ClipboardEntry| e@)
}

/// `c` is how some copy, its MIME types never repeating, classifies.
pub open spec fn classified(c: ContentView) -> bool {
    exists|b: Seq<BlobView>| keys_distinct(b) && #[trigger] from_blobs_spec(b) == Some(c)
}

/// The entry at `i` has another content than the entry right after it.
pub open spec fn differs_from_next(s: Seq<EntryView>, i: int) -> bool {
    !same_content(s[i].content, s[i + 1].content)
}

impl ClipView {
    /// At most `MAX_HISTORY` entries, ids strictly increasing and all below
    /// `next_id`, which is at least 1, no entry equal to the one right after
    /// it, and every content the classification of some copy.
    pub open spec fn wf(self) -> bool {
        &&& self.entries.len() <= MAX_HISTORY
        &&& forall|i: int| 0 <= i < self.entries.len() ==> #[trigger] classified(self.entries[i].content)
        &&& forall|i: int| 0 <= i < self.entries.len() - 1 ==> #[trigger] differs_from_next(self.entries, i)
        &&& 1 <= self.next_id
        &&& forall|i: int, j: int|
            0 <= i < j < self.entries.len() ==> #[trigger] self.entries[i].id
                < #[trigger] self.entries[j].id
        &&& forall|i: int| 0 <= i < self.entries.len() ==> #[trigger] self.entries[i].id < self.next_id
    }

    /// The history right after a new copy `c` was stored under `next_id`.
    pub open spec fn store(self, c: ContentView) -> ClipView {
        let e = self.entries.push(EntryView { id: self.next_id, content: c });
        ClipView {
            entries: if e.len() > MAX_HISTORY {
                e.drop_first()
            } else {
                e
            },
            next_id: (self.next_id + 1) as u64,
        }
    }

    /// `c` equals the newest entry.
    pub open spec fn repeats_latest(self, c: ContentView) -> bool {
        self.entries.len() > 0 && same_content(self.entries.last().content, c)
    }

    /// Adding one copy's payloads: the new history and the id given, if any.
    pub open spec fn add(self, b: Seq<BlobView>) -> (ClipView, Option<u64>) {
        match from_blobs_spec(b) {
            None => (self, None),
            Some(c) => if self.repeats_latest(c) {
                (self, None)
            } else {
                (self.store(c), Some(self.next_id))
            },
        }
    }

    /// Whether an entry has id `id`.
    pub open spec fn has_id(self, id: u64) -> bool {
        exists|i: int| 0 <= i < self.entries.len() && #[trigger] self.entries[i].id == id
    }
}

/// The clipboard history.
pub struct ClipState {
    entries: VecDeque<ClipboardEntry>,
    next_id: u64,
}

impl View for ClipState {
    type V = ClipView;

    closed spec fn view(&self) -> ClipView {
        ClipView { entries: entry_views(self.entries@), next_id: self.next_id }
    }
}

impl ClipState {
    /// Every history is well formed (see [`ClipView::wf`]).
    #[verifier::type_invariant]
    pub open spec fn inv(&self) -> bool {
        self@.wf()
    }

    /// The stored entries, oldest first.
    pub closed spec fn raw_entries(&self) -> Seq<ClipboardEntry> {
        self.entries@
    }

    /// The models of the stored entries are the history's entries.
    pub proof fn lemma_raw_entries(&self)
        ensures
            entry_views(self.raw_entries()) == self@.entries,
    {
    }

    /// An empty history whose first id is 1.
    pub fn new() -> (s: Self)
        ensures
            s@.entries == Seq::<EntryView>::empty(),
            s@.next_id == 1,
    {
        let s = ClipState { entries: VecDeque::new(), next_id: 1 };
        assert(s@.entries =~= Seq::<EntryView>::empty());
        s
    }

    /// The number of entries.
    pub fn len(&self) -> (n: usize)
        ensures
            n == self@.entries.len(),
    {
        self.entries.len()
    }

    /// Whether there is no entry.
    pub fn is_empty(&self) -> (b: bool)
        ensures
            b == (self@.entries.len() == 0),
    {
        self.entries.len() == 0
    }

    /// The id the next stored copy gets.
    pub fn next_id(&self) -> (n: u64)
        ensures
            n == self@.next_id,
    {
        self.next_id
    }

    /// The entries, oldest first.
    pub fn iter(&self) -> (it: Iter<'_, ClipboardEntry>)
        ensures
            vstd::std_specs::iter::IteratorSpec::remaining(&it) == self.raw_entries().map_values(|e: ClipboardEntry| &e),
    {
        let it = self.entries.iter();
        assert(self.entries@.as_ref() =~= self.raw_entries().map_values(|e: ClipboardEntry| &e));
        it
    }

    /// The `i`-th entry, oldest first.
    pub fn entry_at(&self, i: usize) -> (e: &ClipboardEntry)
        requires
            i < self@.entries.len(),
        ensures
            e@ == self@.entries[i as int],
            *e == self.raw_entries()[i as int],
    {
        &self.entries[i]
    }

    /// The newest entry.
    pub fn latest(&self) -> (e: Option<&ClipboardEntry>)
        ensures
            match e {
                Some(e) => self@.entries.len() > 0 && e@ == self@.entries.last(),
                None => self@.entries.len() == 0,
            },
    {
        let n = self.entries.len();
        if n == 0 {
            None
        } else {
            Some(&self.entries[n - 1])
        }
    }

    /// The entry with id `id`.
    pub fn get(&self, id: u64) -> (e: Option<&ClipboardEntry>)
        ensures
            match e {
                Some(e) => e.id == id && self@.entries.contains(e@),
                None => !self@.has_id(id),
            },
    {
        let mut i: usize = 0;
        while i < self.entries.len()
            invariant
                0 <= i <= self@.entries.len(),
                self@.entries.len() == self.entries@.len(),
                forall|j: int| 0 <= j < i ==> self@.entries[j].id != id,
            decreases self@.entries.len() - i,
        {
            if self.entries[i].id == id {
                assert(self@.entries[i as int] == self.entries@[i as int]@);
                return Some(&self.entries[i]);
            }
            i = i + 1;
        }
        None
    }

    /// Push one grouped entry per copy from raw `mime -> bytes` payloads.
    /// Returns the new entry's id if it was added: nothing is stored when
    /// every payload is empty or when the copy equals the newest entry
    /// (consecutive, full-content equality). Beyond `MAX_HISTORY` entries the
    /// oldest is evicted.
    pub fn add_grouped(&mut self, blobs: MimeBlobs) -> (id: Option<u64>)
        requires
            old(self)@.next_id < u64::MAX,
        ensures
            (final(self)@, id) == old(self)@.add(blobs@),
    {
        proof {
            use_type_invariant(&*self);
        }
        let ghost b = blobs@;
        proof {
            use_type_invariant(&blobs);
        }
        let content = match ClipboardContent::from_blobs(blobs) {
            Some(c) => c,
            None => {
                return None;
            },
        };
        let n = self.entries.len();
        if n > 0 && self.entries[n - 1].content.same_as(&content) {
            return None;
        }
        let id = self.next_id;
        let ghost before = self@;
        let mut entries: VecDeque<ClipboardEntry> = VecDeque::new();
        std::mem::swap(&mut entries, &mut self.entries);
        let timestamp = system_time_now();
        let timestamp_millis = unix_millis(&timestamp);
        entries.push_back(ClipboardEntry { id, timestamp, timestamp_millis, content });
        let ghost pushed = entry_views(entries@);
        assert(pushed =~= before.entries.push(EntryView { id, content: from_blobs_spec(b)->Some_0 }));
        if entries.len() > MAX_HISTORY {
            entries.pop_front();
            assert(entry_views(entries@) =~= pushed.drop_first());
        }
        let ghost after = ClipView { entries: entry_views(entries@), next_id: (id + 1) as u64 };
        assert(after == before.store(from_blobs_spec(b)->Some_0));
        proof {
            assert(keys_distinct(b) && from_blobs_spec(b) == Some(from_blobs_spec(b)->Some_0));
            lemma_store_wf(before, from_blobs_spec(b)->Some_0);
        }
        self.next_id = id + 1;
        self.entries = entries;
        Some(id)
    }

    /// Single-MIME push: the copy consisting of `content` under `mime_type`.
    /// An empty payload is never stored.
    pub fn add_entry(&mut self, mime_type: String, content: Vec<u8>) -> (id: Option<u64>)
        requires
            old(self)@.next_id < u64::MAX,
        ensures
            (final(self)@, id) == old(self)@.add(seq![(mime_type@, content@)]),
            content@.len() == 0 ==> id is None && final(self)@ == old(self)@,
    {
        let ghost pair = (mime_type@, content@);
        if content.len() == 0 {
            proof {
                lemma_empty_single(pair);
            }
            return None;
        }
        let mut blobs = MimeBlobs::new();
        blobs.insert(mime_type, content);
        assert(blobs@ =~= seq![pair]);
        self.add_grouped(blobs)
    }
}

impl Default for ClipState {
    fn default() -> (s: Self)
        ensures
            s@.entries == Seq::<EntryView>::empty(),
            s@.next_id == 1,
    {
        ClipState::new()
    }
}

/// Storing a copy makes it the newest entry; storing a classified copy that
/// does not repeat the newest entry keeps the history well formed.
pub proof fn lemma_store_wf(s: ClipView, c: ContentView)
    requires
        s.next_id < u64::MAX,
    ensures
        s.wf() && !s.repeats_latest(c) && classified(c) ==> s.store(c).wf(),
        s.store(c).entries.last() == (EntryView { id: s.next_id, content: c }),
        s.store(c).entries.len() > 0,
{
    if s.wf() && !s.repeats_latest(c) && classified(c) {
        lemma_store_keeps_wf(s, c);
    }
}

proof fn lemma_store_keeps_wf(s: ClipView, c: ContentView)
    requires
        s.wf(),
        s.next_id < u64::MAX,
        !s.repeats_latest(c),
        classified(c),
    ensures
        s.store(c).wf(),
{
    let x = EntryView { id: s.next_id, content: c };
    let e = s.entries.push(x);
    let t = s.store(c);
    let n = s.entries.len() as int;
    assert forall|i: int| 0 <= i < e.len() - 1 implies #[trigger] differs_from_next(e, i) by {
        assert(e[i + 1] == if i + 1 < n { s.entries[i + 1] } else { x });
        assert(e[i] == s.entries[i]);
        if i + 1 < n {
            assert(differs_from_next(s.entries, i));
        } else {
            assert(s.entries.last() == s.entries[i]);
        }
    }
    assert forall|i: int| 0 <= i < t.entries.len() implies #[trigger] t.entries[i].id < t.next_id by {
        if e.len() > MAX_HISTORY {
            assert(t.entries[i] == e[i + 1]);
        } else {
            assert(t.entries[i] == e[i]);
        }
    }
    assert forall|i: int, j: int| 0 <= i < j < t.entries.len() implies #[trigger] t.entries[i].id
        < #[trigger] t.entries[j].id by {
        if e.len() > MAX_HISTORY {
            assert(t.entries[i] == e[i + 1]);
            assert(t.entries[j] == e[j + 1]);
        } else {
            assert(t.entries[i] == e[i]);
            assert(t.entries[j] == e[j]);
        }
    }
    assert forall|i: int| 0 <= i < t.entries.len() implies #[trigger] classified(t.entries[i].content) by {
        let k = if e.len() > MAX_HISTORY { i + 1 } else { i };
        assert(t.entries[i] == e[k]);
        if k < n {
            assert(e[k] == s.entries[k]);
        }
    }
    assert forall|i: int| 0 <= i < t.entries.len() - 1 implies #[trigger] differs_from_next(t.entries, i) by {
        if e.len() > MAX_HISTORY {
            assert(t.entries[i] == e[i + 1]);
            assert(t.entries[i + 1] == e[i + 2]);
            assert(differs_from_next(e, i + 1));
        } else {
            assert(t.entries[i] == e[i]);
            assert(t.entries[i + 1] == e[i + 1]);
            assert(differs_from_next(e, i));
        }
    }
}

/// A copy whose only payload is empty classifies as nothing.
pub proof fn lemma_empty_single(pair: BlobView)
    requires
        pair.1.len() == 0,
    ensures
        from_blobs_spec(seq![pair]) is None,
{
    reveal(Seq::filter);
    let s = seq![pair];
    assert(s.drop_last() =~= Seq::<BlobView>::empty());
    assert(s.drop_last().filter(crate::clipboard::content::is_text_pair()).len() == 0);
    assert(s.drop_last().filter(crate::clipboard::content::is_other_pair()).len() == 0);
    assert(s.last() == pair);
    assert(s.filter(crate::clipboard::content::is_text_pair()) =~= Seq::<BlobView>::empty());
    assert(s.filter(crate::clipboard::content::is_other_pair()) =~= Seq::<BlobView>::empty());
}

} // verus!
