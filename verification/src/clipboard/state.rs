//! The daemon's bookkeeping between Wayland events: advertised offers, the
//! current selection offer, the data source it owns, and the history.
//!
//! Protocol objects are named here by their protocol ids; the proxies
//! themselves stay with the event loop, which performs the requests that the
//! methods below decide on (destroying an offer or source, receiving MIME
//! payloads, publishing a source).

use std::collections::HashMap;

use vstd::prelude::*;

use crate::clipboard::blobs::{
    BlobView, MimeBlobs, blob_insert_absent, copy_bytes, lookup,
};
use crate::clipboard::content::{primary_mime_spec, representations_spec};
use crate::clipboard::history::{ClipState, ClipView};
use crate::clipboard::laws::law_stored_entry_restores_own_mime;
use crate::clipboard::io::{ReadOutcome, ReadOutcomeView, outcome_views};
use crate::config::{
    MAX_CONTENT_BYTES, MAX_MIMES_PER_SELECTION, TEXT_ALIASES, lemma_mime_lists, text_aliases,
};
use crate::error::ClipboardError;
use crate::mime::{is_text_mime, is_text_mime_spec, pick_mimes, pick_mimes_spec, views, well_picked};

verus! {

broadcast use vstd::std_specs::hash::group_hash_axioms;

/// MIME types advertised by one offer, in advertisement order.
pub struct OfferData {
    pub mime_types: Vec<String>,
}

impl Default for OfferData {
    fn default() -> (r: Self)
        ensures
            r.mime_types@.len() == 0,
    {
        OfferData { mime_types: Vec::new() }
    }
}

impl OfferData {
    /// Record one more advertised MIME type.
    pub fn push_mime(&mut self, mime_type: String)
        ensures
            views(final(self).mime_types@) == views(old(self).mime_types@).push(mime_type@),
    {
        let ghost m = mime_type@;
        self.mime_types.push(mime_type);
        assert(views(self.mime_types@) =~= views(old(self).mime_types@).push(m));
    }
}

/// The payloads a data source serves, per MIME type.
#[derive(Debug)]
pub struct SourceData {
    pub contents: MimeBlobs,
}

/// The first stored payload whose MIME type is text, if any.
pub open spec fn first_text_payload(c: Seq<BlobView>) -> Option<Seq<u8>>
    decreases c.len(),
{
    if c.len() == 0 {
        None
    } else if is_text_mime_spec(c[0].0) {
        Some(c[0].1)
    } else {
        first_text_payload(c.drop_first())
    }
}

/// What a source serves for a request of `mime`: the exact MIME type, else,
/// for a text request, the first stored text payload (e.g. charset casing
/// variants that were not offered explicitly).
pub open spec fn content_for_spec(c: Seq<BlobView>, mime: Seq<char>) -> Option<Seq<u8>> {
    match lookup(c, mime) {
        Some(b) => Some(b),
        None => if is_text_mime_spec(mime) {
            first_text_payload(c)
        } else {
            None
        },
    }
}

/// A text payload served for a text request always has a text MIME type.
pub proof fn lemma_first_text_payload_is_text(c: Seq<BlobView>)
    ensures
        first_text_payload(c) matches Some(b) ==> exists|i: int|
            0 <= i < c.len() && is_text_mime_spec(#[trigger] c[i].0) && c[i].1 == b,
        first_text_payload(c) is None ==> forall|i: int|
            0 <= i < c.len() ==> !is_text_mime_spec(#[trigger] c[i].0),
    decreases c.len(),
{
    if c.len() > 0 && !is_text_mime_spec(c[0].0) {
        lemma_first_text_payload_is_text(c.drop_first());
        if let Some(b) = first_text_payload(c) {
            let i = choose|i: int|
                0 <= i < c.drop_first().len() && is_text_mime_spec(#[trigger] c.drop_first()[i].0)
                    && c.drop_first()[i].1 == b;
            assert(c[i + 1] == c.drop_first()[i]);
        } else {
            assert forall|i: int| 0 <= i < c.len() implies !is_text_mime_spec(#[trigger] c[i].0) by {
                if i > 0 {
                    assert(c[i] == c.drop_first()[i - 1]);
                }
            }
        }
    }
}

/// What a source serves: the payload stored under the requested MIME type
/// whenever there is one; for a MIME type it does not hold, nothing for a
/// non-text request, and for a text request a payload stored under some text
/// MIME type (nothing when it holds no text).
pub proof fn law_content_for_exact_first(c: Seq<BlobView>, mime: Seq<char>)
    ensures
        lookup(c, mime) is Some ==> content_for_spec(c, mime) == lookup(c, mime),
        lookup(c, mime) is None && !is_text_mime_spec(mime) ==> content_for_spec(c, mime) is None,
        lookup(c, mime) is None && is_text_mime_spec(mime) ==> (content_for_spec(c, mime) matches Some(
            b,
        ) ==> exists|i: int| 0 <= i < c.len() && is_text_mime_spec(#[trigger] c[i].0) && c[i].1 == b),
        lookup(c, mime) is None && is_text_mime_spec(mime) ==> (content_for_spec(c, mime) is None
            <==> forall|i: int| 0 <= i < c.len() ==> !is_text_mime_spec(#[trigger] c[i].0)),
{
    lemma_first_text_payload_is_text(c);
    if lookup(c, mime) is None && is_text_mime_spec(mime) && first_text_payload(c) is Some {
        let b = first_text_payload(c)->Some_0;
        let i = choose|i: int|
            0 <= i < c.len() && is_text_mime_spec(#[trigger] c[i].0) && c[i].1 == b;
    }
}

impl SourceData {
    /// A source serving `contents`.
    pub fn new(contents: MimeBlobs) -> (r: Self)
        ensures
            r.contents@ == contents@,
    {
        SourceData { contents }
    }

    /// Look up the exact MIME, falling back to the first stored text payload
    /// for text requests.
    pub fn content_for(&self, mime_type: &str) -> (r: Option<&Vec<u8>>)
        ensures
            match r {
                Some(b) => content_for_spec(self.contents@, mime_type@) == Some(b@),
                None => content_for_spec(self.contents@, mime_type@) is None,
            },
    {
        match self.contents.get(mime_type) {
            Some(b) => Some(b),
            None => {
                if is_text_mime(mime_type) {
                    self.first_text()
                } else {
                    None
                }
            },
        }
    }

    /// The first stored payload whose MIME type is text.
    fn first_text(&self) -> (r: Option<&Vec<u8>>)
        ensures
            match r {
                Some(b) => first_text_payload(self.contents@) == Some(b@),
                None => first_text_payload(self.contents@) is None,
            },
    {
        let ghost c = self.contents@;
        let mut i: usize = 0;
        assert(c.skip(0) =~= c);
        while i < self.contents.len()
            invariant
                0 <= i <= c.len(),
                c == self.contents@,
                first_text_payload(c) == first_text_payload(c.skip(i as int)),
            decreases c.len() - i,
        {
            if is_text_mime(self.contents.mime_at(i).as_str()) {
                assert(c.skip(i as int)[0] == c[i as int]);
                return Some(self.contents.bytes_at(i));
            }
            assert(c.skip(i as int).drop_first() =~= c.skip(i + 1));
            i = i + 1;
        }
        assert(c.skip(i as int).len() == 0);
        None
    }
}

/// What the event loop does for a new selection.
pub struct SelectionPlan {
    /// The previous selection offer, to destroy.
    pub destroy: Option<u32>,
    /// The MIME types to receive from the new offer, in order.
    pub request: Vec<String>,
}

/// The payloads published when restoring a history entry whose content model
/// is `c`: the entry's own (primary) MIME type first with its payload `b`,
/// then, when that MIME type is text, each text alias other than it, all
/// pointing at `b`. Nothing is published for a content whose primary MIME
/// type has no payload (which no classified copy has).
pub open spec fn restore_contents_spec(c: crate::clipboard::content::ContentView) -> Seq<BlobView> {
    let primary = primary_mime_spec(c);
    match lookup(representations_spec(c), primary) {
        Some(b) => if is_text_mime_spec(primary) {
            text_aliases().fold_left(
                seq![(primary, b)],
                |a: Seq<BlobView>, alias: Seq<char>| blob_insert_absent(a, alias, b),
            )
        } else {
            seq![(primary, b)]
        },
        None => Seq::empty(),
    }
}

/// Model of the daemon state.
pub struct AppView {
    pub offers: Map<u32, Seq<Seq<char>>>,
    pub current_selection: Option<u32>,
    pub current_source: Option<u32>,
    pub clipboard: ClipView,
}

impl AppView {
    /// The selection offer released by a new selection `offer`: the current
    /// one, unless it is that same offer.
    pub open spec fn released_by(self, offer: Option<u32>) -> Option<u32> {
        match (self.current_selection, offer) {
            (Some(o), Some(id)) => if o != id {
                Some(o)
            } else {
                None
            },
            (Some(o), None) => Some(o),
            (None, _) => None,
        }
    }

    /// The state after the selection `offer` (or NULL) arrived: the released
    /// offer is forgotten with its MIME types and `offer` becomes current.
    pub open spec fn select(self, offer: Option<u32>) -> AppView {
        AppView {
            offers: match self.released_by(offer) {
                Some(o) => self.offers.remove(o),
                None => self.offers,
            },
            current_selection: offer,
            ..self
        }
    }

    /// The MIME types to receive for the selection `offer`: picked from the
    /// advertised ones of a known offer, none otherwise.
    pub open spec fn requested_for(self, offer: Option<u32>) -> Seq<Seq<char>> {
        let after = self.select(offer);
        match offer {
            Some(id) => if after.offers.contains_key(id) {
                pick_mimes_spec(after.offers[id])
            } else {
                Seq::empty()
            },
            None => Seq::empty(),
        }
    }

    /// The state after owning `source`.
    pub open spec fn replaced(self, source: u32) -> AppView {
        AppView { current_source: Some(source), ..self }
    }

    /// Whether a `Cancelled` for `source` concerns the owned source.
    pub open spec fn cancel_applies(self, source: u32) -> bool {
        self.current_source == Some(source)
    }

    /// The state after a `Cancelled` for `source`.
    pub open spec fn cancelled(self, source: u32) -> AppView {
        if self.cancel_applies(source) {
            AppView { current_source: None, ..self }
        } else {
            self
        }
    }
}

/// Offer bookkeeping, selection, owned source and history.
pub struct AppState {
    offers: HashMap<u32, OfferData>,
    current_selection: Option<u32>,
    current_source: Option<u32>,
    clipboard: ClipState,
}

impl View for AppState {
    type V = AppView;

    closed spec fn view(&self) -> AppView {
        AppView {
            offers: self.offers@.map_values(|o: OfferData| views(o.mime_types@)),
            current_selection: self.current_selection,
            current_source: self.current_source,
            clipboard: self.clipboard@,
        }
    }
}

impl AppState {
    /// No offers, no selection, no source, empty history.
    pub fn new() -> (s: Self)
        ensures
            s@.offers == Map::<u32, Seq<Seq<char>>>::empty(),
            s@.current_selection is None,
            s@.current_source is None,
            s@.clipboard.entries.len() == 0,
            s@.clipboard.next_id == 1,
    {
        let s = AppState {
            offers: HashMap::new(),
            current_selection: None,
            current_source: None,
            clipboard: ClipState::new(),
        };
        assert(s@.offers =~= Map::<u32, Seq<Seq<char>>>::empty());
        s
    }

    /// The known offers and their advertised MIME types.
    pub fn offers(&self) -> (m: &HashMap<u32, OfferData>)
        ensures
            m@.map_values(|o: OfferData| views(o.mime_types@)) == self@.offers,
    {
        &self.offers
    }

    /// The MIME types advertised by `offer_id`, if it is known.
    pub fn offer_mimes(&self, offer_id: u32) -> (r: Option<&Vec<String>>)
        ensures
            match r {
                Some(m) => self@.offers.contains_key(offer_id) && views(m@)
                    == self@.offers[offer_id],
                None => !self@.offers.contains_key(offer_id),
            },
    {
        match self.offers.get(&offer_id) {
            Some(o) => Some(&o.mime_types),
            None => None,
        }
    }

    /// Number of known offers.
    pub fn offer_count(&self) -> (n: usize)
        ensures
            n == self@.offers.len(),
    {
        proof {
            assert(self@.offers.dom() =~= self.offers@.dom());
        }
        self.offers.len()
    }

    /// Start tracking a new offer with no MIME types yet.
    pub fn insert_offer(&mut self, offer_id: u32)
        ensures
            final(self)@ == (AppView {
                offers: old(self)@.offers.insert(offer_id, Seq::empty()),
                ..old(self)@
            }),
    {
        let d = OfferData::default();
        assert(views(d.mime_types@) =~= Seq::<Seq<char>>::empty());
        self.offers.insert(offer_id, d);
        assert(self@.offers =~= old(self)@.offers.insert(offer_id, Seq::empty()));
    }

    /// Record a MIME type advertised by `offer_id`, creating the offer if its
    /// `DataOffer` event was missed.
    pub fn push_offer_mime(&mut self, offer_id: u32, mime_type: String)
        ensures
            final(self)@ == (AppView {
                offers: old(self)@.offers.insert(
                    offer_id,
                    if old(self)@.offers.contains_key(offer_id) {
                        old(self)@.offers[offer_id]
                    } else {
                        Seq::empty()
                    }.push(mime_type@),
                ),
                ..old(self)@
            }),
    {
        let ghost m = mime_type@;
        let mut data = match self.offers.remove(&offer_id) {
            Some(d) => d,
            None => OfferData::default(),
        };
        let ghost prior = views(data.mime_types@);
        assert(prior == if old(self)@.offers.contains_key(offer_id) {
            old(self)@.offers[offer_id]
        } else {
            Seq::<Seq<char>>::empty()
        }) by {
            if !old(self)@.offers.contains_key(offer_id) {
                assert(prior =~= Seq::<Seq<char>>::empty());
            }
        }
        data.push_mime(mime_type);
        self.offers.insert(offer_id, data);
        assert(self@.offers =~= old(self)@.offers.insert(offer_id, prior.push(m)));
    }

    /// Forget `offer_id` and its MIME types.
    pub fn remove_offer(&mut self, offer_id: u32)
        ensures
            final(self)@ == (AppView { offers: old(self)@.offers.remove(offer_id), ..old(self)@ }),
    {
        self.offers.remove(&offer_id);
        assert(self@.offers =~= old(self)@.offers.remove(offer_id));
    }

    /// The current selection offer.
    pub fn current_selection(&self) -> (r: Option<u32>)
        ensures
            r == self@.current_selection,
    {
        self.current_selection
    }

    /// Make `offer_id` the current selection offer.
    pub fn set_selection(&mut self, offer_id: u32)
        ensures
            final(self)@ == (AppView { current_selection: Some(offer_id), ..old(self)@ }),
    {
        self.current_selection = Some(offer_id);
    }

    /// Drop the previous selection offer (if any) and its cached MIME types,
    /// returning it so the caller destroys the proxy. Per the protocol the
    /// previous selection offer must be destroyed once a new selection (or
    /// NULL) is received.
    pub fn clear_selection(&mut self) -> (old_offer: Option<u32>)
        ensures
            old_offer == old(self)@.current_selection,
            final(self)@ == (AppView {
                offers: match old_offer {
                    Some(o) => old(self)@.offers.remove(o),
                    None => old(self)@.offers,
                },
                current_selection: None,
                ..old(self)@
            }),
    {
        match self.current_selection {
            Some(old_id) => {
                self.offers.remove(&old_id);
                self.current_selection = None;
                assert(self@.offers =~= old(self)@.offers.remove(old_id));
                Some(old_id)
            },
            None => None,
        }
    }

    /// The data source currently owned.
    pub fn current_source(&self) -> (r: Option<u32>)
        ensures
            r == self@.current_source,
    {
        self.current_source
    }

    /// Forget the owned source if `source_id` is it (the compositor reported
    /// `Cancelled`). A stale event for an older source must not clobber its
    /// replacement: then nothing changes and `false` is returned.
    pub fn take_source_if_active(&mut self, source_id: u32) -> (taken: bool)
        ensures
            taken == old(self)@.cancel_applies(source_id),
            final(self)@ == old(self)@.cancelled(source_id),
    {
        if self.current_source == Some(source_id) {
            self.current_source = None;
            true
        } else {
            false
        }
    }

    /// Own `source_id`, returning the previous source for the caller to
    /// destroy after the new selection is set (no selection gap).
    pub fn replace_source(&mut self, source_id: u32) -> (previous: Option<u32>)
        ensures
            previous == old(self)@.current_source,
            final(self)@ == old(self)@.replaced(source_id),
    {
        let previous = self.current_source;
        self.current_source = Some(source_id);
        previous
    }

    /// The history.
    pub fn clipboard(&self) -> (c: &ClipState)
        ensures
            c@ == self@.clipboard,
    {
        &self.clipboard
    }

    /// The history, for changes.
    pub fn clipboard_mut(&mut self) -> (c: &mut ClipState)
        ensures
            c@ == old(self)@.clipboard,
            final(self)@ == (AppView { clipboard: final(c)@, ..old(self)@ }),
    {
        &mut self.clipboard
    }

    /// A new selection (or NULL) arrived. The previous selection offer is
    /// released when it is a different object; the new one becomes current,
    /// and the MIME types to receive are picked from its advertised ones
    /// (none when the offer is unknown or the selection was cleared).
    pub fn on_selection(&mut self, offer: Option<u32>) -> (plan: SelectionPlan)
        ensures
            plan.destroy == old(self)@.released_by(offer),
            final(self)@ == old(self)@.select(offer),
            views(plan.request@) == old(self)@.requested_for(offer),
            plan.request@.len() <= MAX_MIMES_PER_SELECTION,
            plan.request@.len() > 0 ==> offer is Some && final(self)@.offers.contains_key(
                offer->Some_0,
            ) && well_picked(final(self)@.offers[offer->Some_0], views(plan.request@)),
    {
        match offer {
            None => {
                let destroy = self.clear_selection();
                SelectionPlan { destroy, request: Vec::new() }
            },
            Some(id) => {
                let destroy = match self.current_selection {
                    Some(o) => if o != id {
                        self.clear_selection()
                    } else {
                        None
                    },
                    None => None,
                };
                self.set_selection(id);
                let request = match self.offer_mimes(id) {
                    Some(m) => pick_mimes(m.as_slice()),
                    None => {
                        let v: Vec<String> = Vec::new();
                        assert(views(v@) =~= Seq::<Seq<char>>::empty());
                        v
                    },
                };
                SelectionPlan { destroy, request }
            },
        }
    }

    /// The payloads to publish when restoring history entry `entry_id`: the
    /// entry's own MIME type first with its payload, then, for a text entry,
    /// the text aliases pointing at that same payload.
    ///
    /// Errors, in this order: `EntryNotFound` when no entry has that id,
    /// `NoManager` / `NoDevice` when the data-control manager or device is
    /// missing.
    pub fn restore_contents(&self, entry_id: u64, has_manager: bool, has_device: bool) -> (r: Result<
        SourceData,
        ClipboardError,
    >)
        ensures
            match r {
                Ok(src) => {
                    &&& has_manager && has_device
                    &&& exists|i: int|
                        0 <= i < self@.clipboard.entries.len() && #[trigger] self@.clipboard.entries[i].id
                            == entry_id && src.contents@ == restore_contents_spec(
                            self@.clipboard.entries[i].content,
                        ) && src.contents@.len() > 0 && src.contents@[0].0 == primary_mime_spec(
                            self@.clipboard.entries[i].content,
                        ) && src.contents@[0].1.len() > 0
                },
                Err(e) => {
                    ||| !self@.clipboard.has_id(entry_id) && e == ClipboardError::EntryNotFound(entry_id)
                    ||| self@.clipboard.has_id(entry_id) && !has_manager && e == ClipboardError::NoManager
                    ||| self@.clipboard.has_id(entry_id) && has_manager && !has_device && e
                        == ClipboardError::NoDevice
                },
            },
            r is Ok <==> self@.clipboard.has_id(entry_id) && has_manager && has_device,
    {
        let entry = match self.clipboard.get(entry_id) {
            Some(e) => e,
            None => {
                return Err(ClipboardError::EntryNotFound(entry_id));
            },
        };
        proof {
            let k = choose|k: int|
                0 <= k < self@.clipboard.entries.len() && self@.clipboard.entries[k] == entry@;
            assert(self@.clipboard.entries[k].id == entry_id);
        }
        if !has_manager {
            return Err(ClipboardError::NoManager);
        }
        if !has_device {
            return Err(ClipboardError::NoDevice);
        }
        let reps = entry.content.representations();
        let primary = entry.content.primary_mime();
        let mut contents = MimeBlobs::new();
        match reps.get(primary) {
            Some(bytes) => {
                let payload = copy_bytes(bytes);
                let ghost start = seq![(primary@, payload@)];
                contents.insert(primary.to_owned(), copy_bytes(&payload));
                assert(contents@ =~= start);
                if is_text_mime(primary) {
                    proof {
                        lemma_mime_lists();
                        assert(text_aliases().take(0) =~= Seq::<Seq<char>>::empty());
                    }
                    let mut i: usize = 0;
                    while i < TEXT_ALIASES.len()
                        invariant
                            0 <= i <= text_aliases().len(),
                            TEXT_ALIASES@.len() == text_aliases().len(),
                            forall|k: int|
                                0 <= k < text_aliases().len() ==> #[trigger] TEXT_ALIASES@[k]@
                                    == text_aliases()[k],
                            contents@ == text_aliases().take(i as int).fold_left(
                                start,
                                |a: Seq<BlobView>, alias: Seq<char>|
                                    blob_insert_absent(a, alias, payload@),
                            ),
                        decreases text_aliases().len() - i,
                    {
                        proof {
                            assert(text_aliases().take(i + 1).drop_last() =~= text_aliases().take(
                                i as int,
                            ));
                        }
                        contents.insert_if_absent(TEXT_ALIASES[i].to_owned(), copy_bytes(&payload));
                        i = i + 1;
                    }
                    assert(text_aliases().take(text_aliases().len() as int) =~= text_aliases());
                }
            },
            None => {},
        }
        proof {
            let k = choose|k: int|
                0 <= k < self@.clipboard.entries.len() && self@.clipboard.entries[k] == entry@;
            assert(self@.clipboard.entries[k].id == entry_id);
            use_type_invariant(&self.clipboard);
            law_stored_entry_restores_own_mime(self@.clipboard, k);
        }
        Ok(SourceData::new(contents))
    }

    /// A pipe read failed with `error`: the offer is forgotten all the same
    /// (offer MIME caches are dropped after reads so stale entries cannot
    /// accumulate), nothing is stored, and the error is reported.
    pub fn record_read_error(&mut self, offer_id: u32, mime_type: String, error: String) -> (outcome:
        ReadOutcome)
        ensures
            final(self)@ == (AppView { offers: old(self)@.offers.remove(offer_id), ..old(self)@ }),
            outcome@ == (ReadOutcomeView::ReadError { mime_type: mime_type@, error: error@ }),
    {
        self.remove_offer(offer_id);
        ReadOutcome::ReadError { mime_type, error }
    }

    /// A pipe read finished: forget the offer, store the payload, and report
    /// what happened. A payload cut to `MAX_CONTENT_BYTES` is reported as
    /// `Truncated` first; then `Stored` with the new id, or
    /// `IgnoredDuplicate` when nothing was stored (empty or a repeat of the
    /// newest entry).
    pub fn record_read(
        &mut self,
        offer_id: u32,
        mime_type: String,
        payload: Vec<u8>,
        was_truncated: bool,
    ) -> (outcomes: Vec<ReadOutcome>)
        requires
            old(self)@.clipboard.next_id < u64::MAX,
        ensures
            final(self)@.offers == old(self)@.offers.remove(offer_id),
            final(self)@.current_selection == old(self)@.current_selection,
            final(self)@.current_source == old(self)@.current_source,
            (final(self)@.clipboard, match outcomes@.last() {
                ReadOutcome::Stored { entry_id, .. } => Some(entry_id),
                _ => None,
            }) == old(self)@.clipboard.add(seq![(mime_type@, payload@)]),
            outcome_views(outcomes@) == {
                let added = old(self)@.clipboard.add(seq![(mime_type@, payload@)]).1;
                let last = match added {
                    Some(id) => ReadOutcomeView::Stored { entry_id: id, mime_type: mime_type@ },
                    None => ReadOutcomeView::IgnoredDuplicate { mime_type: mime_type@ },
                };
                if was_truncated {
                    seq![
                        ReadOutcomeView::Truncated {
                            mime_type: mime_type@,
                            original_bytes: (MAX_CONTENT_BYTES + 1) as usize,
                        },
                        last,
                    ]
                } else {
                    seq![last]
                }
            },
    {
        self.remove_offer(offer_id);
        let mut outcomes: Vec<ReadOutcome> = Vec::new();
        if was_truncated {
            outcomes.push(
                ReadOutcome::Truncated {
                    mime_type: mime_type.clone(),
                    original_bytes: MAX_CONTENT_BYTES + 1,
                },
            );
        }
        let ghost pair = (mime_type@, payload@);
        let name = mime_type.clone();
        let mut clipboard = ClipState::new();
        std::mem::swap(&mut clipboard, &mut self.clipboard);
        let added = clipboard.add_entry(mime_type, payload);
        self.clipboard = clipboard;
        match added {
            Some(entry_id) => outcomes.push(ReadOutcome::Stored { entry_id, mime_type: name }),
            None => outcomes.push(ReadOutcome::IgnoredDuplicate { mime_type: name }),
        }
        assert(outcome_views(outcomes@) =~= if was_truncated {
            seq![
                ReadOutcomeView::Truncated {
                    mime_type: pair.0,
                    original_bytes: (MAX_CONTENT_BYTES + 1) as usize,
                },
                outcomes@.last().view(),
            ]
        } else {
            seq![outcomes@.last().view()]
        });
        outcomes
    }
}

impl Default for AppState {
    fn default() -> (s: Self)
        ensures
            s@.offers == Map::<u32, Seq<Seq<char>>>::empty(),
            s@.current_selection is None,
            s@.current_source is None,
            s@.clipboard.entries.len() == 0,
            s@.clipboard.next_id == 1,
    {
        AppState::new()
    }
}

} // verus!
