//! Typed clipboard payloads: one `ClipboardContent` per copy, not per MIME.

use vstd::prelude::*;

use crate::clipboard::blobs::{
    BlobView, MimeBlobs, blob_insert, blob_keys, blob_map, blobs_same, bytes_eq, copy_bytes,
    keys_distinct, lemma_lookup_index, lookup,
};
use crate::config::{PREFERRED_TEXT_MIMES, lemma_mime_lists, preferred_text_mimes};
use crate::mime::{is_text_mime, is_text_mime_spec, views};
use crate::text::{chars_lt, decimal, first_line, first_line_of, push_decimal, str_eq, str_lt};

verus! {

broadcast use vstd::string::group_string_axioms;

// ---------------------------------------------------------------------------
// Decoding text
// ---------------------------------------------------------------------------

/// What `String::from_utf8_lossy` makes of `bytes`.
pub uninterp spec fn utf8_lossy(bytes: Seq<u8>) -> Seq<char>;

/// Calls `String::from_utf8_lossy`. Its result is named `utf8_lossy` of the
/// bytes; beside that, the contract claims what the std documentation states:
/// valid UTF-8 decodes to exactly its characters. How invalid sequences are
/// replaced is left unstated.
#[verifier::external_body]
fn decode_utf8_lossy(bytes: &[u8]) -> (s: String)
    ensures
        s@ == utf8_lossy(bytes@),
        vstd::utf8::valid_utf8(bytes@) ==> s@ == vstd::utf8::decode_utf8(bytes@),
{
    String::from_utf8_lossy(bytes).into_owned()
}

/// The text decoded from `bytes`: for valid UTF-8, exactly the characters it
/// encodes; otherwise what `String::from_utf8_lossy` makes of it.
pub open spec fn decoded_text(bytes: Seq<u8>) -> Seq<char> {
    if vstd::utf8::valid_utf8(bytes) {
        vstd::utf8::decode_utf8(bytes)
    } else {
        utf8_lossy(bytes)
    }
}

// ---------------------------------------------------------------------------
// Types and views
// ---------------------------------------------------------------------------

/// Decoded text copy with its raw per-MIME blobs preserved for restore.
#[derive(Debug)]
pub struct TextData {
    /// Best decoded text (from `primary_mime`).
    pub text: String,
    /// Decoded `text/html` payload when the copy offered distinct HTML.
    pub html: Option<String>,
    /// MIME the preview / restore prefers (first `PREFERRED_TEXT_MIMES` hit).
    pub primary_mime: String,
    /// All text MIMEs seen in this copy: the preferred ones in preference
    /// order, then the others ordered by MIME type.
    pub offered_mimes: Vec<String>,
    /// Exact bytes per MIME, used to re-offer the copy faithfully.
    pub blobs: MimeBlobs,
}

/// Binary image copy.
#[derive(Debug)]
pub struct ImageData {
    pub mime_type: String,
    pub bytes: Vec<u8>,
}

/// A copy that offered both text and image (or several images).
#[derive(Debug)]
pub struct MixedData {
    pub text: Option<TextData>,
    pub images: Vec<ImageData>,
}

/// Typed clipboard payload: one variant per copy, not per MIME.
#[derive(Debug)]
pub enum ClipboardContent {
    Text(TextData),
    Image(ImageData),
    Mixed(MixedData),
}

/// Mathematical model of a `TextData`.
pub struct TextView {
    pub text: Seq<char>,
    pub html: Option<Seq<char>>,
    pub primary_mime: Seq<char>,
    pub offered_mimes: Seq<Seq<char>>,
    pub blobs: Seq<BlobView>,
}

/// Mathematical model of a `ClipboardContent`; an image is its `(mime, bytes)`.
pub enum ContentView {
    Text(TextView),
    Image(BlobView),
    Mixed(Option<TextView>, Seq<BlobView>),
}

impl View for TextData {
    type V = TextView;

    open spec fn view(&self) -> TextView {
        TextView {
            text: self.text@,
            html: match self.html {
                Some(h) => Some(h@),
                None => None,
            },
            primary_mime: self.primary_mime@,
            offered_mimes: views(self.offered_mimes@),
            blobs: self.blobs@,
        }
    }
}

impl View for ImageData {
    type V = BlobView;

    open spec fn view(&self) -> BlobView {
        (self.mime_type@, self.bytes@)
    }
}

/// The models of a sequence of images.
pub open spec fn image_views(v: Seq<ImageData>) -> Seq<BlobView> {
    v.map_values(|i: ImageData| i@)
}

/// The model of an optional `TextData`.
pub open spec fn opt_text_view(t: Option<TextData>) -> Option<TextView> {
    match t {
        Some(t) => Some(t@),
        None => None,
    }
}

impl View for ClipboardContent {
    type V = ContentView;

    open spec fn view(&self) -> ContentView {
        match self {
            ClipboardContent::Text(t) => ContentView::Text(t@),
            ClipboardContent::Image(i) => ContentView::Image(i@),
            ClipboardContent::Mixed(m) => ContentView::Mixed(
                opt_text_view(m.text),
                image_views(m.images@),
            ),
        }
    }
}

/// The model of an optional content.
pub open spec fn opt_content_view(c: Option<ClipboardContent>) -> Option<ContentView> {
    match c {
        Some(c) => Some(c@),
        None => None,
    }
}

// ---------------------------------------------------------------------------
// Classification of one copy
// ---------------------------------------------------------------------------

/// A non-empty payload under a text MIME type.
pub open spec fn is_text_pair() -> spec_fn(BlobView) -> bool {
    |p: BlobView| p.1.len() > 0 && is_text_mime_spec(p.0)
}

/// A non-empty payload under any other MIME type.
pub open spec fn is_other_pair() -> spec_fn(BlobView) -> bool {
    |p: BlobView| p.1.len() > 0 && !is_text_mime_spec(p.0)
}

/// Non-empty payloads under a text MIME type, in input order.
pub open spec fn text_pairs(b: Seq<BlobView>) -> Seq<BlobView> {
    b.filter(is_text_pair())
}

/// Non-empty payloads under any other MIME type, in input order.
pub open spec fn other_pairs(b: Seq<BlobView>) -> Seq<BlobView> {
    b.filter(is_other_pair())
}

/// Insert `x` before the first pair whose MIME type sorts after it.
pub open spec fn insert_by_mime(s: Seq<BlobView>, x: BlobView) -> Seq<BlobView>
    decreases s.len(),
{
    if s.len() == 0 {
        seq![x]
    } else if chars_lt(x.0, s[0].0) {
        seq![x] + s
    } else {
        seq![s[0]] + insert_by_mime(s.drop_first(), x)
    }
}

/// The pairs ordered by MIME type.
pub open spec fn sort_by_mime(s: Seq<BlobView>) -> Seq<BlobView> {
    s.fold_left(Seq::<BlobView>::empty(), |acc: Seq<BlobView>, x: BlobView| insert_by_mime(acc, x))
}

/// The preferred text types present among `keys`, in preference order.
pub open spec fn preferred_present(keys: Seq<Seq<char>>) -> Seq<Seq<char>> {
    preferred_text_mimes().filter(|p: Seq<char>| keys.contains(p))
}

/// The lexicographically smallest of `keys` (the first one on ties).
pub open spec fn min_mime(keys: Seq<Seq<char>>) -> Seq<char>
    decreases keys.len(),
{
    if keys.len() <= 1 {
        keys[0]
    } else {
        let m = min_mime(keys.drop_last());
        if chars_lt(keys.last(), m) {
            keys.last()
        } else {
            m
        }
    }
}

/// The primary MIME of a text copy: the first preferred type present, else
/// the smallest MIME type.
pub open spec fn primary_of(keys: Seq<Seq<char>>) -> Seq<char> {
    if preferred_present(keys).len() > 0 {
        preferred_present(keys)[0]
    } else {
        min_mime(keys)
    }
}

/// A payload under a MIME type that is not a preferred text type.
pub open spec fn non_preferred_pair() -> spec_fn(BlobView) -> bool {
    |p: BlobView| !preferred_text_mimes().contains(p.0)
}

/// The text MIME types ordered by preference: the preferred ones in
/// preference order, then the others ordered by MIME type.
pub open spec fn offered_of(tb: Seq<BlobView>) -> Seq<Seq<char>> {
    preferred_present(blob_keys(tb)) + blob_keys(sort_by_mime(tb.filter(non_preferred_pair())))
}

/// Decoded HTML, kept only when it differs from the primary payload.
pub open spec fn html_of(tb: Seq<BlobView>, primary: Seq<char>) -> Option<Seq<char>> {
    match lookup(tb, "text/html"@) {
        Some(h) => if lookup(tb, primary) == Some(h) || primary == "text/html"@ {
            None
        } else {
            Some(decoded_text(h))
        },
        None => None,
    }
}

/// The text part built from non-empty text payloads.
pub open spec fn text_view_of(tb: Seq<BlobView>) -> TextView {
    let primary = primary_of(blob_keys(tb));
    TextView {
        text: decoded_text(lookup(tb, primary)->Some_0),
        html: html_of(tb, primary),
        primary_mime: primary,
        offered_mimes: offered_of(tb),
        blobs: tb,
    }
}

/// How one copy's payloads classify: nothing when every payload is empty;
/// `Text` when only text payloads remain; `Image` for exactly one non-text
/// payload and no text; `Mixed` otherwise, images ordered by MIME type.
pub open spec fn from_blobs_spec(b: Seq<BlobView>) -> Option<ContentView> {
    let tb = text_pairs(b);
    let images = sort_by_mime(other_pairs(b));
    if tb.len() == 0 && images.len() == 0 {
        None
    } else if tb.len() > 0 && images.len() == 0 {
        Some(ContentView::Text(text_view_of(tb)))
    } else if tb.len() == 0 && images.len() == 1 {
        Some(ContentView::Image(images[0]))
    } else {
        Some(
            ContentView::Mixed(
                if tb.len() > 0 {
                    Some(text_view_of(tb))
                } else {
                    None
                },
                images,
            ),
        )
    }
}

// ---------------------------------------------------------------------------
// Queries on a content
// ---------------------------------------------------------------------------

/// MIME shown in history / logs: the text primary, else the first image.
pub open spec fn primary_mime_spec(c: ContentView) -> Seq<char> {
    match c {
        ContentView::Text(t) => t.primary_mime,
        ContentView::Image(i) => i.0,
        ContentView::Mixed(t, imgs) => match t {
            Some(t) => t.primary_mime,
            None => if imgs.len() > 0 {
                imgs[0].0
            } else {
                "application/octet-stream"@
            },
        },
    }
}

/// Every MIME the copy offered.
pub open spec fn offered_mimes_spec(c: ContentView) -> Seq<Seq<char>> {
    match c {
        ContentView::Text(t) => t.offered_mimes,
        ContentView::Image(i) => seq![i.0],
        ContentView::Mixed(t, imgs) => {
            let tm = match t {
                Some(t) => t.offered_mimes,
                None => Seq::<Seq<char>>::empty(),
            };
            tm + blob_keys(imgs)
        },
    }
}

/// Insert every image in order into `acc`, as `HashMap::insert` does.
pub open spec fn insert_images(acc: Seq<BlobView>, imgs: Seq<BlobView>) -> Seq<BlobView> {
    imgs.fold_left(acc, |a: Seq<BlobView>, i: BlobView| blob_insert(a, i.0, i.1))
}

/// Flattened `mime -> bytes` of the copy.
pub open spec fn representations_spec(c: ContentView) -> Seq<BlobView> {
    match c {
        ContentView::Text(t) => t.blobs,
        ContentView::Image(i) => seq![i],
        ContentView::Mixed(t, imgs) => {
            let base = match t {
                Some(t) => t.blobs,
                None => Seq::<BlobView>::empty(),
            };
            insert_images(base, imgs)
        },
    }
}

/// The copy carries decoded text.
pub open spec fn has_text_spec(c: ContentView) -> bool {
    match c {
        ContentView::Text(_) => true,
        ContentView::Image(_) => false,
        ContentView::Mixed(t, _) => t is Some,
    }
}

/// `<N bytes of MIME>`.
pub open spec fn image_label(len: nat, mime: Seq<char>) -> Seq<char> {
    "<"@ + decimal(len) + " bytes of "@ + mime + ">"@
}

/// The labels of `imgs` joined by `", "`.
pub open spec fn join_labels(imgs: Seq<BlobView>) -> Seq<char>
    decreases imgs.len(),
{
    if imgs.len() == 0 {
        Seq::empty()
    } else if imgs.len() == 1 {
        image_label(imgs[0].1.len(), imgs[0].0)
    } else {
        join_labels(imgs.drop_last()) + ", "@ + image_label(imgs.last().1.len(), imgs.last().0)
    }
}

/// Short one-line preview: the first text line, the image labels, or both
/// joined by `" + "`.
pub open spec fn preview_spec(c: ContentView) -> Seq<char> {
    match c {
        ContentView::Text(t) => first_line(t.text),
        ContentView::Image(i) => image_label(i.1.len(), i.0),
        ContentView::Mixed(t, imgs) => {
            let text_part = match t {
                Some(t) => first_line(t.text),
                None => Seq::<char>::empty(),
            };
            let image_part = join_labels(imgs);
            if text_part.len() == 0 {
                image_part
            } else if image_part.len() == 0 {
                text_part
            } else {
                text_part + " + "@ + image_part
            }
        },
    }
}

/// `(mime, byte count)` of every image of the copy.
pub open spec fn image_summaries_spec(c: ContentView) -> Seq<(Seq<char>, nat)> {
    match c {
        ContentView::Text(_) => Seq::empty(),
        ContentView::Image(i) => seq![(i.0, i.1.len())],
        ContentView::Mixed(_, imgs) => imgs.map_values(|i: BlobView| (i.0, i.1.len())),
    }
}

/// Equal text parts: same text, html, primary and offered MIMEs, and the same
/// bytes under the same MIME types.
pub open spec fn same_text(a: TextView, b: TextView) -> bool {
    &&& a.text == b.text
    &&& a.html == b.html
    &&& a.primary_mime == b.primary_mime
    &&& a.offered_mimes == b.offered_mimes
    &&& blob_map(a.blobs) == blob_map(b.blobs)
}

/// Equal copies, field by field (payload maps compared as maps).
pub open spec fn same_content(a: ContentView, b: ContentView) -> bool {
    match (a, b) {
        (ContentView::Text(x), ContentView::Text(y)) => same_text(x, y),
        (ContentView::Image(x), ContentView::Image(y)) => x == y,
        (ContentView::Mixed(tx, ix), ContentView::Mixed(ty, iy)) => {
            &&& match (tx, ty) {
                (Some(x), Some(y)) => same_text(x, y),
                (None, None) => true,
                _ => false,
            }
            &&& ix == iy
        },
        _ => false,
    }
}

// ---------------------------------------------------------------------------
// Lemmas
// ---------------------------------------------------------------------------

proof fn lemma_filter_step<A>(s: Seq<A>, f: spec_fn(A) -> bool, i: int)
    requires
        0 <= i < s.len(),
    ensures
        s.take(i + 1).filter(f) == (if f(s[i]) {
            s.take(i).filter(f).push(s[i])
        } else {
            s.take(i).filter(f)
        }),
{
    reveal(Seq::filter);
    assert(s.take(i + 1).drop_last() =~= s.take(i));
    assert(s.take(i + 1).last() == s[i]);
}

proof fn lemma_fold_step<A, B>(s: Seq<A>, b: B, f: spec_fn(B, A) -> B, i: int)
    requires
        0 <= i < s.len(),
    ensures
        s.take(i + 1).fold_left(b, f) == f(s.take(i).fold_left(b, f), s[i]),
{
    assert(s.take(i + 1).drop_last() =~= s.take(i));
    assert(s.take(i + 1).last() == s[i]);
}

proof fn lemma_fold_push<A, B>(s: Seq<A>, x: A, b: B, f: spec_fn(B, A) -> B)
    ensures
        s.push(x).fold_left(b, f) == f(s.fold_left(b, f), x),
{
    assert(s.push(x).drop_last() =~= s);
}

proof fn lemma_take_all<A>(s: Seq<A>)
    ensures
        s.take(s.len() as int) == s,
{
    assert(s.take(s.len() as int) =~= s);
}

proof fn lemma_insert_by_mime_at(s: Seq<BlobView>, x: BlobView, k: int)
    requires
        0 <= k <= s.len(),
        forall|j: int| 0 <= j < k ==> !chars_lt(x.0, #[trigger] s[j].0),
        k == s.len() || chars_lt(x.0, s[k].0),
    ensures
        insert_by_mime(s, x) == s.take(k).push(x) + s.skip(k),
    decreases s.len(),
{
    if s.len() == 0 {
        assert(s.take(k).push(x) + s.skip(k) =~= seq![x]);
    } else if k == 0 {
        assert(s.take(0).push(x) + s.skip(0) =~= seq![x] + s);
    } else {
        assert(!chars_lt(x.0, s[0].0));
        assert forall|j: int| 0 <= j < k - 1 implies !chars_lt(x.0, #[trigger] s.drop_first()[j].0) by {
            assert(s.drop_first()[j] == s[j + 1]);
        }
        if k < s.len() {
            assert(s.drop_first()[k - 1] == s[k]);
        }
        lemma_insert_by_mime_at(s.drop_first(), x, k - 1);
        assert(seq![s[0]] + (s.drop_first().take(k - 1).push(x) + s.drop_first().skip(k - 1))
            =~= s.take(k).push(x) + s.skip(k));
    }
}

proof fn lemma_min_mime_step(keys: Seq<Seq<char>>, i: int)
    requires
        1 <= i < keys.len(),
    ensures
        min_mime(keys.take(i + 1)) == (if chars_lt(keys[i], min_mime(keys.take(i))) {
            keys[i]
        } else {
            min_mime(keys.take(i))
        }),
{
    assert(keys.take(i + 1).drop_last() =~= keys.take(i));
    assert(keys.take(i + 1).last() == keys[i]);
}

// ---------------------------------------------------------------------------
// Executable construction
// ---------------------------------------------------------------------------

/// Whether `m` is one of `PREFERRED_TEXT_MIMES`.
fn is_preferred(m: &str) -> (r: bool)
    ensures
        r == preferred_text_mimes().contains(m@),
{
    proof {
        lemma_mime_lists();
    }
    let mut i: usize = 0;
    while i < PREFERRED_TEXT_MIMES.len()
        invariant
            0 <= i <= preferred_text_mimes().len(),
            PREFERRED_TEXT_MIMES@.len() == preferred_text_mimes().len(),
            forall|k: int|
                0 <= k < preferred_text_mimes().len() ==> #[trigger] PREFERRED_TEXT_MIMES@[k]@
                    == preferred_text_mimes()[k],
            forall|k: int| 0 <= k < i ==> preferred_text_mimes()[k] != m@,
        decreases preferred_text_mimes().len() - i,
    {
        if str_eq(PREFERRED_TEXT_MIMES[i], m) {
            assert(preferred_text_mimes()[i as int] == m@);
            return true;
        }
        i = i + 1;
    }
    false
}

/// Insert `img` into `images`, kept ordered by MIME type.
fn insert_image(images: &mut Vec<ImageData>, img: ImageData)
    ensures
        image_views(final(images)@) == insert_by_mime(image_views(old(images)@), img@),
{
    let mut k: usize = 0;
    while k < images.len() && !str_lt(img.mime_type.as_str(), images[k].mime_type.as_str())
        invariant
            0 <= k <= images@.len(),
            images@ == old(images)@,
            forall|j: int| 0 <= j < k ==> !chars_lt(img@.0, #[trigger] image_views(images@)[j].0),
        decreases images@.len() - k,
    {
        k = k + 1;
    }
    let ghost before = image_views(images@);
    let ghost x = img@;
    proof {
        lemma_insert_by_mime_at(before, x, k as int);
    }
    images.insert(k, img);
    assert(image_views(images@) =~= before.take(k as int).push(x) + before.skip(k as int));
}

/// Insert `m` into `mimes`, the MIME types of the MIME-ordered `pairs`,
/// keeping them ordered as `insert_by_mime` orders `pairs` with `x`.
fn insert_mime(
    mimes: &mut Vec<String>,
    m: String,
    Ghost(pairs): Ghost<Seq<BlobView>>,
    Ghost(x): Ghost<BlobView>,
)
    requires
        views(old(mimes)@) == blob_keys(pairs),
        x.0 == m@,
    ensures
        views(final(mimes)@) == blob_keys(insert_by_mime(pairs, x)),
{
    assert(views(mimes@).len() == mimes@.len() && blob_keys(pairs).len() == pairs.len());
    let mut k: usize = 0;
    while k < mimes.len() && !str_lt(m.as_str(), mimes[k].as_str())
        invariant
            0 <= k <= mimes@.len(),
            mimes@.len() == pairs.len(),
            mimes@ == old(mimes)@,
            views(mimes@) == blob_keys(pairs),
            x.0 == m@,
            forall|j: int| 0 <= j < k ==> !chars_lt(x.0, #[trigger] pairs[j].0),
        decreases mimes@.len() - k,
    {
        assert(views(mimes@)[k as int] == blob_keys(pairs)[k as int]);
        k = k + 1;
    }
    proof {
        if k < pairs.len() {
            assert(views(mimes@)[k as int] == blob_keys(pairs)[k as int]);
        }
        lemma_insert_by_mime_at(pairs, x, k as int);
    }
    let ghost bv = mimes@;
    let ghost after_pairs = pairs.take(k as int).push(x) + pairs.skip(k as int);
    mimes.insert(k, m);
    assert forall|i: int| 0 <= i < after_pairs.len() implies views(mimes@)[i] == blob_keys(
        after_pairs,
    )[i] by {
        if i < k {
            assert(mimes@[i] == bv[i] && after_pairs[i] == pairs[i]);
            assert(views(bv)[i] == blob_keys(pairs)[i]);
        } else if i > k {
            assert(mimes@[i] == bv[i - 1] && after_pairs[i] == pairs[i - 1]);
            assert(views(bv)[i - 1] == blob_keys(pairs)[i - 1]);
        }
    }
    assert(views(mimes@) =~= blob_keys(after_pairs));
}

/// Build the text part of a copy from its non-empty text payloads; there is
/// none when there are no text payloads.
fn build_text(blobs: MimeBlobs) -> (t: Option<TextData>)
    ensures
        match t {
            Some(x) => blobs@.len() > 0 && x@ == text_view_of(blobs@),
            None => blobs@.len() == 0,
        },
{
    if blobs.len() == 0 {
        return None;
    }
    proof {
        use_type_invariant(&blobs);
        lemma_mime_lists();
    }
    let ghost tb = blobs@;
    let ghost keys = blob_keys(tb);
    // Preferred types present, in preference order.
    let mut preferred: Vec<String> = Vec::new();
    let mut i: usize = 0;
    while i < PREFERRED_TEXT_MIMES.len()
        invariant
            blobs@ == tb,
            keys == blob_keys(tb),
            0 <= i <= preferred_text_mimes().len(),
            PREFERRED_TEXT_MIMES@.len() == preferred_text_mimes().len(),
            forall|k: int|
                0 <= k < preferred_text_mimes().len() ==> #[trigger] PREFERRED_TEXT_MIMES@[k]@
                    == preferred_text_mimes()[k],
            views(preferred@) == preferred_text_mimes().take(i as int).filter(
                |p: Seq<char>| keys.contains(p),
            ),
        decreases preferred_text_mimes().len() - i,
    {
        proof {
            lemma_filter_step(preferred_text_mimes(), |p: Seq<char>| keys.contains(p), i as int);
        }
        let p = PREFERRED_TEXT_MIMES[i];
        if blobs.contains_key(p) {
            let ghost before = views(preferred@);
            preferred.push(p.to_owned());
            assert(views(preferred@) =~= before.push(p@));
        }
        i = i + 1;
    }
    proof {
        lemma_take_all(preferred_text_mimes());
    }
    // Primary MIME: first preferred hit, else the smallest key.
    let primary_mime: String = if preferred.len() > 0 {
        preferred[0].clone()
    } else {
        let mut m: usize = 0;
        let mut j: usize = 1;
        while j < blobs.len()
            invariant
                blobs@ == tb,
                keys == blob_keys(tb),
                tb.len() > 0,
                1 <= j <= tb.len(),
                0 <= m < tb.len(),
                tb[m as int].0 == min_mime(keys.take(j as int)),
            decreases tb.len() - j,
        {
            proof {
                lemma_min_mime_step(keys, j as int);
                assert(keys[j as int] == tb[j as int].0);
            }
            if str_lt(blobs.mime_at(j).as_str(), blobs.mime_at(m).as_str()) {
                m = j;
            }
            j = j + 1;
        }
        proof {
            lemma_take_all(keys);
            assert(keys.take(1) =~= seq![keys[0]]);
        }
        blobs.mime_at(m).clone()
    };
    assert(primary_mime@ == primary_of(keys));
    // Decoded text of the primary payload.
    let primary_pos = blobs.position(primary_mime.as_str());
    proof {
        if primary_pos is None {
            if preferred@.len() > 0 {
                lemma_filter_contains_preferred(keys, 0);
            } else {
                lemma_min_mime_in(keys);
            }
        }
    }
    let text = match primary_pos {
        Some(k) => {
            proof {
                lemma_lookup_index(tb, k as int);
            }
            decode_utf8_lossy(blobs.bytes_at(k).as_slice())
        },
        None => String::new(),
    };
    // HTML, unless it repeats the primary payload.
    let html: Option<String> = match blobs.get("text/html") {
        Some(h) => {
            let same_as_primary = match blobs.get(primary_mime.as_str()) {
                Some(p) => bytes_eq(p, h),
                None => false,
            };
            if same_as_primary || str_eq(primary_mime.as_str(), "text/html") {
                None
            } else {
                Some(decode_utf8_lossy(h.as_slice()))
            }
        },
        None => None,
    };
    // Offered MIME types: the preferred ones in preference order, then the
    // others ordered by MIME type.
    let ghost npf = non_preferred_pair();
    let ghost ins = |acc: Seq<BlobView>, x: BlobView| insert_by_mime(acc, x);
    let mut rest: Vec<String> = Vec::new();
    assert(tb.take(0).filter(npf) =~= Seq::<BlobView>::empty()) by {
        reveal(Seq::filter);
    }
    assert(views(rest@) =~= blob_keys(Seq::<BlobView>::empty()));
    let mut k: usize = 0;
    while k < blobs.len()
        invariant
            blobs@ == tb,
            keys == blob_keys(tb),
            0 <= k <= tb.len(),
            npf == non_preferred_pair(),
            ins == (|acc: Seq<BlobView>, x: BlobView| insert_by_mime(acc, x)),
            views(rest@) == blob_keys(tb.take(k as int).filter(npf).fold_left(
                Seq::<BlobView>::empty(),
                ins,
            )),
        decreases tb.len() - k,
    {
        proof {
            lemma_filter_step(tb, npf, k as int);
        }
        let m = blobs.mime_at(k);
        if !is_preferred(m.as_str()) {
            proof {
                lemma_fold_push(tb.take(k as int).filter(npf), tb[k as int], Seq::<BlobView>::empty(), ins);
            }
            insert_mime(
                &mut rest,
                m.clone(),
                Ghost(tb.take(k as int).filter(npf).fold_left(Seq::<BlobView>::empty(), ins)),
                Ghost(tb[k as int]),
            );
        }
        k = k + 1;
    }
    proof {
        lemma_take_all(tb);
    }
    let mut offered_mimes: Vec<String> = preferred;
    let ghost head = views(offered_mimes@);
    let mut r: usize = 0;
    while r < rest.len()
        invariant
            0 <= r <= rest@.len(),
            head == preferred_present(keys),
            views(offered_mimes@) == head + views(rest@).take(r as int),
        decreases rest@.len() - r,
    {
        let ghost before = views(offered_mimes@);
        offered_mimes.push(rest[r].clone());
        assert(views(rest@).take(r + 1) =~= views(rest@).take(r as int).push(rest@[r as int]@));
        assert(views(offered_mimes@) =~= before.push(rest@[r as int]@));
        r = r + 1;
    }
    assert(views(rest@).take(rest@.len() as int) =~= views(rest@));
    let t = TextData { text, html, primary_mime, offered_mimes, blobs };
    assert(t@.html == html_of(tb, primary_of(keys)));
    Some(t)
}

pub proof fn lemma_filter_contains_preferred(keys: Seq<Seq<char>>, i: int)
    requires
        0 <= i < preferred_present(keys).len(),
    ensures
        keys.contains(preferred_present(keys)[i]),
{
    preferred_text_mimes().lemma_filter_pred(|p: Seq<char>| keys.contains(p), i);
}

pub proof fn lemma_min_mime_in(keys: Seq<Seq<char>>)
    requires
        keys.len() > 0,
    ensures
        keys.contains(min_mime(keys)),
    decreases keys.len(),
{
    if keys.len() > 1 {
        lemma_min_mime_in(keys.drop_last());
        let m = min_mime(keys.drop_last());
        let j = choose|j: int| 0 <= j < keys.drop_last().len() && keys.drop_last()[j] == m;
        assert(keys[j] == m);
        assert(keys[keys.len() - 1] == keys.last());
    } else {
        assert(keys[0] == min_mime(keys));
    }
}

impl ClipboardContent {
    /// Classify the raw `mime -> bytes` payloads of one copy into a variant.
    ///
    /// Empty payloads are dropped; when none remains the result is `None`.
    /// Text is anything `is_text_mime`; every other type is kept as an image
    /// (opaque bytes) so rich copies are not silently lost. Images are ordered
    /// by MIME type.
    pub fn from_blobs(blobs: MimeBlobs) -> (r: Option<ClipboardContent>)
        ensures
            opt_content_view(r) == from_blobs_spec(blobs@),
    {
        let ghost b = blobs@;
        let pairs = blobs.into_pairs();
        let ghost tf = is_text_pair();
        let ghost of = is_other_pair();
        let mut text_blobs = MimeBlobs::new();
        let mut images: Vec<ImageData> = Vec::new();
        assert(b.take(0).filter(tf) =~= Seq::<BlobView>::empty()) by {
            reveal(Seq::filter);
        }
        assert(b.take(0).filter(of) =~= Seq::<BlobView>::empty()) by {
            reveal(Seq::filter);
        }
        let mut idx: usize = 0;
        let n: usize = pairs.len();
        for p in it: pairs
            invariant
                it.seq().map_values(|p: (String, Vec<u8>)| (p.0@, p.1@)) == b,
                keys_distinct(b),
                n == b.len(),
                tf == is_text_pair(),
                of == is_other_pair(),
                idx == it.index(),
                text_blobs@ == b.take(idx as int).filter(tf),
                image_views(images@) == b.take(idx as int).filter(of).fold_left(
                    Seq::<BlobView>::empty(),
                    |acc: Seq<BlobView>, x: BlobView| insert_by_mime(acc, x),
                ),
                forall|j: int| #![trigger text_blobs@[j]]
                    0 <= j < text_blobs@.len() ==> exists|q: int|
                        0 <= q < idx && #[trigger] b[q].0 == text_blobs@[j].0,
        {
            let ghost i = idx as int;
            let ghost pv = (p.0@, p.1@);
            proof {
                assert(it.seq()[i] == p);
                assert(b[i] == pv);
                lemma_filter_step(b, tf, i);
                lemma_filter_step(b, of, i);
            }
            let (mime, bytes) = p;
            assert(idx < n);
            assert(pv.1 == bytes@);
            assert(pv.0 == mime@);
            if bytes.len() == 0 {
                assert(pv.1.len() == 0);
                assert(!tf(pv) && !of(pv));
            } else if is_text_mime(mime.as_str()) {
                assert(tf(pv) && !of(pv));
                proof {
                    if blob_keys(text_blobs@).contains(pv.0) {
                        let j = choose|j: int|
                            0 <= j < blob_keys(text_blobs@).len() && blob_keys(text_blobs@)[j]
                                == pv.0;
                        assert(text_blobs@[j].0 == pv.0);
                        let q = choose|q: int| 0 <= q < idx && #[trigger] b[q].0 == text_blobs@[j].0;
                        assert(blob_keys(b)[q] == blob_keys(b)[i]);
                    }
                }
                let ghost before = text_blobs@;
                text_blobs.push_new(mime, bytes);
                proof {
                    assert forall|j: int| #![trigger text_blobs@[j]] 0 <= j < text_blobs@.len() implies exists|q: int|
                        0 <= q < idx + 1 && #[trigger] b[q].0 == text_blobs@[j].0 by {
                        if j < before.len() {
                            let q = choose|q: int| 0 <= q < idx && #[trigger] b[q].0 == before[j].0;
                            assert(b[q].0 == text_blobs@[j].0);
                        } else {
                            assert(b[i].0 == text_blobs@[j].0);
                        }
                    }
                }
            } else {
                assert(!tf(pv) && of(pv));
                proof {
                    lemma_fold_push(
                        b.take(i).filter(of),
                        pv,
                        Seq::<BlobView>::empty(),
                        |acc: Seq<BlobView>, x: BlobView| insert_by_mime(acc, x),
                    );
                }
                insert_image(&mut images, ImageData { mime_type: mime, bytes });
            }
            idx = idx + 1;
        }
        proof {
            lemma_take_all(b);
        }
        if text_blobs.len() == 0 && images.len() == 0 {
            return None;
        }
        let text = build_text(text_blobs);
        if images.len() == 0 {
            match text {
                Some(t) => {
                    return Some(ClipboardContent::Text(t));
                },
                None => {
                    return None;
                },
            }
        }
        if images.len() == 1 && text.is_none() {
            let img = images.pop().unwrap();
            return Some(ClipboardContent::Image(img));
        }
        Some(ClipboardContent::Mixed(MixedData { text, images }))
    }

    /// MIME shown in history / logs (text primary, else first image).
    pub fn primary_mime(&self) -> (m: &str)
        ensures
            m@ == primary_mime_spec(self@),
    {
        match self {
            ClipboardContent::Text(t) => t.primary_mime.as_str(),
            ClipboardContent::Image(i) => i.mime_type.as_str(),
            ClipboardContent::Mixed(m) => match &m.text {
                Some(t) => t.primary_mime.as_str(),
                None => if m.images.len() > 0 {
                    m.images[0].mime_type.as_str()
                } else {
                    "application/octet-stream"
                },
            },
        }
    }

    /// Every MIME this copy offered (for re-offer on restore).
    pub fn offered_mimes(&self) -> (v: Vec<String>)
        ensures
            views(v@) == offered_mimes_spec(self@),
    {
        match self {
            ClipboardContent::Text(t) => clone_strings(&t.offered_mimes),
            ClipboardContent::Image(i) => {
                let mut v: Vec<String> = Vec::new();
                v.push(i.mime_type.clone());
                assert(views(v@) =~= seq![i.mime_type@]);
                v
            },
            ClipboardContent::Mixed(m) => {
                let mut out: Vec<String> = match &m.text {
                    Some(t) => clone_strings(&t.offered_mimes),
                    None => Vec::new(),
                };
                let ghost head = views(out@);
                let mut i: usize = 0;
                while i < m.images.len()
                    invariant
                        0 <= i <= m.images@.len(),
                        views(out@) == head + blob_keys(image_views(m.images@)).take(i as int),
                    decreases m.images@.len() - i,
                {
                    let ghost before = views(out@);
                    out.push(m.images[i].mime_type.clone());
                    assert(blob_keys(image_views(m.images@)).take(i + 1) =~= blob_keys(
                        image_views(m.images@),
                    ).take(i as int).push(m.images@[i as int].mime_type@));
                    assert(views(out@) =~= before.push(m.images@[i as int].mime_type@));
                    i = i + 1;
                }
                assert(blob_keys(image_views(m.images@)).take(m.images@.len() as int) =~= blob_keys(
                    image_views(m.images@),
                ));
                assert(views(out@) =~= offered_mimes_spec(self@));
                out
            },
        }
    }

    /// Flattened `mime -> bytes` for restore.
    pub fn representations(&self) -> (r: MimeBlobs)
        ensures
            r@ == representations_spec(self@),
    {
        match self {
            ClipboardContent::Text(t) => t.blobs.duplicate(),
            ClipboardContent::Image(i) => {
                let mut r = MimeBlobs::new();
                r.insert(i.mime_type.clone(), copy_bytes(&i.bytes));
                assert(r@ =~= seq![i@]);
                r
            },
            ClipboardContent::Mixed(m) => {
                let mut r = match &m.text {
                    Some(t) => t.blobs.duplicate(),
                    None => MimeBlobs::new(),
                };
                let ghost base = r@;
                let ghost imgs = image_views(m.images@);
                let mut i: usize = 0;
                while i < m.images.len()
                    invariant
                        0 <= i <= m.images@.len(),
                        imgs == image_views(m.images@),
                        r@ == insert_images(base, imgs.take(i as int)),
                    decreases m.images@.len() - i,
                {
                    proof {
                        lemma_fold_step(
                            imgs,
                            base,
                            |a: Seq<BlobView>, x: BlobView| blob_insert(a, x.0, x.1),
                            i as int,
                        );
                    }
                    r.insert(m.images[i].mime_type.clone(), copy_bytes(&m.images[i].bytes));
                    i = i + 1;
                }
                proof {
                    lemma_take_all(imgs);
                }
                r
            },
        }
    }

    /// True when the copy carries decodable text (Text or Mixed-with-text).
    pub fn has_text(&self) -> (b: bool)
        ensures
            b == has_text_spec(self@),
    {
        match self {
            ClipboardContent::Text(_) => true,
            ClipboardContent::Image(_) => false,
            ClipboardContent::Mixed(m) => m.text.is_some(),
        }
    }

    /// Short one-line preview for history / log output.
    pub fn preview(&self) -> (s: String)
        ensures
            s@ == preview_spec(self@),
    {
        match self {
            ClipboardContent::Text(t) => first_line_of(t.text.as_str()),
            ClipboardContent::Image(i) => image_label_of(i),
            ClipboardContent::Mixed(m) => {
                let text_part = match &m.text {
                    Some(t) => first_line_of(t.text.as_str()),
                    None => String::new(),
                };
                let image_part = join_image_labels(&m.images);
                if text_part.unicode_len() == 0 {
                    image_part
                } else if image_part.unicode_len() == 0 {
                    text_part
                } else {
                    let mut out = text_part;
                    out.append(" + ");
                    out.append(image_part.as_str());
                    proof {
                        reveal_strlit(" + ");
                    }
                    out
                }
            },
        }
    }

    /// Convenience for image-size summaries without matching on the enum.
    pub fn image_summaries(&self) -> (v: Vec<(String, usize)>)
        ensures
            v@.map_values(|p: (String, usize)| (p.0@, p.1 as nat)) == image_summaries_spec(self@),
    {
        match self {
            ClipboardContent::Text(_) => {
                let v: Vec<(String, usize)> = Vec::new();
                assert(v@.map_values(|p: (String, usize)| (p.0@, p.1 as nat)) =~= Seq::<
                    (Seq<char>, nat),
                >::empty());
                v
            },
            ClipboardContent::Image(i) => {
                let mut v: Vec<(String, usize)> = Vec::new();
                v.push((i.mime_type.clone(), i.bytes.len()));
                assert(v@.map_values(|p: (String, usize)| (p.0@, p.1 as nat)) =~= seq![
                    (i.mime_type@, i.bytes@.len()),
                ]);
                v
            },
            ClipboardContent::Mixed(m) => {
                let mut v: Vec<(String, usize)> = Vec::new();
                let mut i: usize = 0;
                while i < m.images.len()
                    invariant
                        0 <= i <= m.images@.len(),
                        v@.len() == i,
                        forall|j: int|
                            0 <= j < i ==> (#[trigger] v@[j]).0@ == m.images@[j].mime_type@
                                && v@[j].1 == m.images@[j].bytes@.len(),
                    decreases m.images@.len() - i,
                {
                    v.push((m.images[i].mime_type.clone(), m.images[i].bytes.len()));
                    i = i + 1;
                }
                assert(v@.map_values(|p: (String, usize)| (p.0@, p.1 as nat)) =~= image_summaries_spec(
                    self@,
                ));
                v
            },
        }
    }

    /// Whether two copies are equal (see [`same_content`]).
    pub fn same_as(&self, other: &ClipboardContent) -> (b: bool)
        ensures
            b == same_content(self@, other@),
    {
        match (self, other) {
            (ClipboardContent::Text(x), ClipboardContent::Text(y)) => text_same(x, y),
            (ClipboardContent::Image(x), ClipboardContent::Image(y)) => image_same(x, y),
            (ClipboardContent::Mixed(x), ClipboardContent::Mixed(y)) => {
                let texts = match (&x.text, &y.text) {
                    (Some(a), Some(b)) => text_same(a, b),
                    (None, None) => true,
                    _ => false,
                };
                if !texts {
                    return false;
                }
                images_same(&x.images, &y.images)
            },
            _ => false,
        }
    }
}

/// `<N bytes of MIME>` for one image.
fn image_label_of(i: &ImageData) -> (s: String)
    ensures
        s@ == image_label(i.bytes@.len(), i.mime_type@),
{
    let mut s = String::new();
    s.append("<");
    push_decimal(&mut s, i.bytes.len() as u64);
    s.append(" bytes of ");
    s.append(i.mime_type.as_str());
    s.append(">");
    proof {
        reveal_strlit("<");
        reveal_strlit(" bytes of ");
        reveal_strlit(">");
    }
    assert(s@ =~= image_label(i.bytes@.len(), i.mime_type@));
    s
}

/// The labels of `images` joined by `", "`.
fn join_image_labels(images: &Vec<ImageData>) -> (s: String)
    ensures
        s@ == join_labels(image_views(images@)),
{
    let ghost imgs = image_views(images@);
    let mut s = String::new();
    let mut i: usize = 0;
    while i < images.len()
        invariant
            0 <= i <= images@.len(),
            imgs == image_views(images@),
            s@ == join_labels(imgs.take(i as int)),
        decreases images@.len() - i,
    {
        let label = image_label_of(&images[i]);
        proof {
            assert(imgs.take(i + 1).drop_last() =~= imgs.take(i as int));
            assert(imgs.take(i + 1).last() == images@[i as int]@);
            reveal_strlit(", ");
        }
        if i > 0 {
            s.append(", ");
        }
        s.append(label.as_str());
        proof {
            if i == 0 {
                assert(imgs.take(1).len() == 1);
                assert(s@ =~= join_labels(imgs.take(1)));
            }
        }
        i = i + 1;
    }
    proof {
        lemma_take_all(imgs);
    }
    s
}

/// Copies of every string of `v`.
pub fn clone_strings(v: &Vec<String>) -> (r: Vec<String>)
    ensures
        views(r@) == views(v@),
{
    let mut r: Vec<String> = Vec::new();
    let mut i: usize = 0;
    while i < v.len()
        invariant
            0 <= i <= v@.len(),
            views(r@) == views(v@).take(i as int),
        decreases v@.len() - i,
    {
        let ghost before = views(r@);
        r.push(v[i].clone());
        assert(views(r@) =~= before.push(v@[i as int]@));
        assert(views(v@).take(i + 1) =~= views(v@).take(i as int).push(v@[i as int]@));
        i = i + 1;
    }
    assert(views(v@).take(v@.len() as int) =~= views(v@));
    r
}

fn strings_same(a: &Vec<String>, b: &Vec<String>) -> (r: bool)
    ensures
        r == (views(a@) == views(b@)),
{
    if a.len() != b.len() {
        assert(views(a@).len() != views(b@).len());
        return false;
    }
    let mut i: usize = 0;
    while i < a.len()
        invariant
            a@.len() == b@.len(),
            0 <= i <= a@.len(),
            forall|j: int| 0 <= j < i ==> a@[j]@ == b@[j]@,
        decreases a@.len() - i,
    {
        if a[i] != b[i] {
            assert(views(a@)[i as int] != views(b@)[i as int]);
            return false;
        }
        i = i + 1;
    }
    assert(views(a@) =~= views(b@));
    true
}

fn images_same(x: &Vec<ImageData>, y: &Vec<ImageData>) -> (r: bool)
    ensures
        r == (image_views(x@) == image_views(y@)),
{
    if x.len() != y.len() {
        assert(image_views(x@).len() != image_views(y@).len());
        return false;
    }
    let mut i: usize = 0;
    while i < x.len()
        invariant
            x@.len() == y@.len(),
            0 <= i <= x@.len(),
            forall|j: int| 0 <= j < i ==> x@[j]@ == y@[j]@,
        decreases x@.len() - i,
    {
        if !image_same(&x[i], &y[i]) {
            assert(image_views(x@)[i as int] == x@[i as int]@);
            assert(image_views(y@)[i as int] == y@[i as int]@);
            return false;
        }
        i = i + 1;
    }
    assert(image_views(x@) =~= image_views(y@));
    true
}

fn image_same(a: &ImageData, b: &ImageData) -> (r: bool)
    ensures
        r == (a@ == b@),
{
    a.mime_type == b.mime_type && bytes_eq(&a.bytes, &b.bytes)
}

fn text_same(a: &TextData, b: &TextData) -> (r: bool)
    ensures
        r == same_text(a@, b@),
{
    let html_same = match (&a.html, &b.html) {
        (Some(x), Some(y)) => *x == *y,
        (None, None) => true,
        _ => false,
    };
    a.text == b.text && html_same && a.primary_mime == b.primary_mime && strings_same(
        &a.offered_mimes,
        &b.offered_mimes,
    ) && blobs_same(&a.blobs, &b.blobs)
}

} // verus!
