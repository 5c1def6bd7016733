//! Properties of a copy's payloads: classification keeps exactly the
//! non-empty payloads, orders images by MIME type and decodes valid UTF-8
//! text as it is; restoring publishes the entry's own MIME type first and the
//! text aliases after it, all with the same payload.

use vstd::prelude::*;

use crate::clipboard::blobs::{
    BlobView, blob_map, blob_insert, blob_insert_absent, blob_keys, keys_distinct, lemma_lookup_absent,
    lemma_lookup_index, lemma_lookup_some, lemma_push_distinct, lookup,
};
use crate::clipboard::content::{
    ContentView, TextView, decoded_text, html_of, non_preferred_pair, same_content, same_text, text_view_of, from_blobs_spec, has_text_spec, image_summaries_spec, insert_by_mime,
    insert_images, is_other_pair, is_text_pair, lemma_filter_contains_preferred, lemma_min_mime_in,
    min_mime, offered_mimes_spec, offered_of, other_pairs, preferred_present, primary_mime_spec,
    primary_of, representations_spec, sort_by_mime, text_pairs,
};
use crate::config::{lemma_preferred_distinct, preferred_text_mimes};
use crate::clipboard::state::restore_contents_spec;
use crate::config::text_aliases;
use crate::mime::is_text_mime_spec;
use crate::text::{chars_lt, lemma_chars_lt_total, lemma_chars_lt_transitive};

verus! {

/// A pair of the sequence puts its key among the sequence's keys.
proof fn lemma_contains_key(s: Seq<BlobView>, y: BlobView)
    requires
        s.contains(y),
    ensures
        blob_keys(s).contains(y.0),
{
    let i = choose|i: int| 0 <= i < s.len() && s[i] == y;
    assert(blob_keys(s)[i] == y.0);
}

/// A key of the sequence belongs to one of its pairs.
proof fn lemma_key_pair(s: Seq<BlobView>, k: Seq<char>) -> (y: BlobView)
    requires
        blob_keys(s).contains(k),
    ensures
        s.contains(y),
        y.0 == k,
{
    let i = choose|i: int| 0 <= i < blob_keys(s).len() && blob_keys(s)[i] == k;
    s[i]
}

proof fn lemma_prefix_distinct(s: Seq<BlobView>)
    requires
        keys_distinct(s),
        s.len() > 0,
    ensures
        keys_distinct(s.drop_last()),
        keys_distinct(s.drop_first()),
        !blob_keys(s.drop_last()).contains(s.last().0),
        !blob_keys(s.drop_first()).contains(s[0].0),
{
    assert(blob_keys(s.drop_last()) =~= blob_keys(s).drop_last());
    assert(blob_keys(s.drop_first()) =~= blob_keys(s).drop_first());
    if blob_keys(s.drop_last()).contains(s.last().0) {
        let i = choose|i: int|
            0 <= i < blob_keys(s.drop_last()).len() && blob_keys(s.drop_last())[i] == s.last().0;
        assert(blob_keys(s)[i] == blob_keys(s)[s.len() - 1]);
    }
    if blob_keys(s.drop_first()).contains(s[0].0) {
        let i = choose|i: int|
            0 <= i < blob_keys(s.drop_first()).len() && blob_keys(s.drop_first())[i] == s[0].0;
        assert(blob_keys(s)[i + 1] == blob_keys(s)[0]);
    }
}

proof fn lemma_cons_distinct(p: BlobView, t: Seq<BlobView>)
    requires
        keys_distinct(t),
        !blob_keys(t).contains(p.0),
    ensures
        keys_distinct(seq![p] + t),
{
    let r = seq![p] + t;
    assert(blob_keys(r) =~= seq![p.0] + blob_keys(t));
    let ks = blob_keys(r);
    assert forall|i: int, j: int| 0 <= i < ks.len() && 0 <= j < ks.len() && i != j implies ks[i]
        != ks[j] by {
        if i == 0 {
            assert(ks[j] == blob_keys(t)[j - 1]);
        } else if j == 0 {
            assert(ks[i] == blob_keys(t)[i - 1]);
        } else {
            assert(ks[i] == blob_keys(t)[i - 1] && ks[j] == blob_keys(t)[j - 1]);
        }
    }
}

/// Filtering keeps distinct keys.
proof fn lemma_filter_distinct(s: Seq<BlobView>, f: spec_fn(BlobView) -> bool)
    requires
        keys_distinct(s),
    ensures
        keys_distinct(s.filter(f)),
    decreases s.len(),
{
    reveal(Seq::filter);
    if s.len() > 0 {
        let r = s.drop_last();
        lemma_prefix_distinct(s);
        lemma_filter_distinct(r, f);
        if f(s.last()) {
            if blob_keys(r.filter(f)).contains(s.last().0) {
                let y = lemma_key_pair(r.filter(f), s.last().0);
                r.lemma_filter_contains_rev(f, y);
                lemma_contains_key(r, y);
            }
            lemma_push_distinct(r.filter(f), s.last());
        }
    }
}

/// Inserting by MIME order keeps every pair, adds `x`, and keeps keys distinct.
proof fn lemma_insert_by_mime(s: Seq<BlobView>, x: BlobView)
    requires
        keys_distinct(s),
        !blob_keys(s).contains(x.0),
    ensures
        keys_distinct(insert_by_mime(s, x)),
        insert_by_mime(s, x).len() == s.len() + 1,
        forall|y: BlobView| #[trigger] insert_by_mime(s, x).contains(y) <==> (s.contains(y) || y == x),
    decreases s.len(),
{
    let r = insert_by_mime(s, x);
    if s.len() == 0 {
        assert(r =~= seq![x]);
        lemma_cons_distinct(x, s);
        assert forall|y: BlobView| #[trigger] r.contains(y) <==> (s.contains(y) || y == x) by {
            if r.contains(y) {
                let i = choose|i: int| 0 <= i < r.len() && r[i] == y;
            }
            if y == x {
                assert(r[0] == x);
            }
        }
    } else if chars_lt(x.0, s[0].0) {
        lemma_cons_distinct(x, s);
        assert forall|y: BlobView| #[trigger] r.contains(y) <==> (s.contains(y) || y == x) by {
            if r.contains(y) {
                let i = choose|i: int| 0 <= i < r.len() && r[i] == y;
                if i > 0 {
                    assert(s[i - 1] == y);
                }
            }
            if s.contains(y) {
                let i = choose|i: int| 0 <= i < s.len() && s[i] == y;
                assert(r[i + 1] == y);
            }
            if y == x {
                assert(r[0] == x);
            }
        }
    } else {
        let t = s.drop_first();
        lemma_prefix_distinct(s);
        assert(!blob_keys(t).contains(x.0)) by {
            if blob_keys(t).contains(x.0) {
                let y = lemma_key_pair(t, x.0);
                let i = choose|i: int| 0 <= i < t.len() && t[i] == y;
                assert(s[i + 1] == y);
                lemma_contains_key(s, y);
            }
        }
        lemma_insert_by_mime(t, x);
        let ins = insert_by_mime(t, x);
        assert(!blob_keys(ins).contains(s[0].0)) by {
            if blob_keys(ins).contains(s[0].0) {
                let y = lemma_key_pair(ins, s[0].0);
                if y == x {
                    assert(blob_keys(s)[0] == s[0].0);
                } else {
                    lemma_contains_key(t, y);
                }
            }
        }
        lemma_cons_distinct(s[0], ins);
        assert forall|y: BlobView| #[trigger] r.contains(y) <==> (s.contains(y) || y == x) by {
            if r.contains(y) {
                let i = choose|i: int| 0 <= i < r.len() && r[i] == y;
                if i > 0 {
                    assert(ins[i - 1] == y);
                    assert(ins.contains(y));
                    if t.contains(y) {
                        let j = choose|j: int| 0 <= j < t.len() && t[j] == y;
                        assert(s[j + 1] == y);
                    }
                } else {
                    assert(s[0] == y);
                }
            }
            if s.contains(y) {
                let i = choose|i: int| 0 <= i < s.len() && s[i] == y;
                if i == 0 {
                    assert(r[0] == y);
                } else {
                    assert(t[i - 1] == y);
                    assert(ins.contains(y));
                    let j = choose|j: int| 0 <= j < ins.len() && ins[j] == y;
                    assert(r[j + 1] == y);
                }
            }
            if y == x {
                assert(ins.contains(x));
                let j = choose|j: int| 0 <= j < ins.len() && ins[j] == x;
                assert(r[j + 1] == x);
            }
        }
    }
}

/// Sorting by MIME keeps exactly the pairs of `s`, with distinct keys.
proof fn lemma_sort_by_mime(s: Seq<BlobView>)
    requires
        keys_distinct(s),
    ensures
        keys_distinct(sort_by_mime(s)),
        sort_by_mime(s).len() == s.len(),
        forall|y: BlobView| #[trigger] sort_by_mime(s).contains(y) <==> s.contains(y),
    decreases s.len(),
{
    if s.len() > 0 {
        let r = s.drop_last();
        let x = s.last();
        lemma_prefix_distinct(s);
        lemma_sort_by_mime(r);
        let sr = sort_by_mime(r);
        assert(sort_by_mime(s) == insert_by_mime(sr, x));
        assert(!blob_keys(sr).contains(x.0)) by {
            if blob_keys(sr).contains(x.0) {
                let y = lemma_key_pair(sr, x.0);
                assert(r.contains(y));
                lemma_contains_key(r, y);
            }
        }
        lemma_insert_by_mime(sr, x);
        assert forall|y: BlobView| #[trigger] sort_by_mime(s).contains(y) <==> s.contains(y) by {
            if s.contains(y) {
                let i = choose|i: int| 0 <= i < s.len() && s[i] == y;
                if i < s.len() - 1 {
                    assert(r[i] == y);
                    assert(sr.contains(y));
                }
            }
            if r.contains(y) {
                let i = choose|i: int| 0 <= i < r.len() && r[i] == y;
                assert(s[i] == y);
            }
        }
    } else {
        assert(sort_by_mime(s) =~= Seq::<BlobView>::empty());
    }
}

/// `HashMap::insert` on the pair sequence: the key maps to the new bytes,
/// every other key is untouched, keys stay distinct.
proof fn lemma_blob_insert(s: Seq<BlobView>, k: Seq<char>, v: Seq<u8>)
    requires
        keys_distinct(s),
    ensures
        keys_distinct(blob_insert(s, k, v)),
        lookup(blob_insert(s, k, v), k) == Some(v),
        forall|k2: Seq<char>| k2 != k ==> #[trigger] lookup(blob_insert(s, k, v), k2) == lookup(s, k2),
{
    let r = blob_insert(s, k, v);
    if blob_keys(s).contains(k) {
        assert(blob_keys(r) =~= blob_keys(s));
        let i = choose|i: int| 0 <= i < blob_keys(s).len() && blob_keys(s)[i] == k;
        lemma_lookup_index(r, i);
        assert forall|k2: Seq<char>| k2 != k implies #[trigger] lookup(r, k2) == lookup(s, k2) by {
            if blob_keys(s).contains(k2) {
                let j = choose|j: int| 0 <= j < blob_keys(s).len() && blob_keys(s)[j] == k2;
                lemma_lookup_index(r, j);
                lemma_lookup_index(s, j);
            } else {
                lemma_lookup_absent(s, k2);
                lemma_lookup_absent(r, k2);
            }
        }
    } else {
        lemma_push_distinct(s, (k, v));
        lemma_lookup_index(r, s.len() as int);
        assert forall|k2: Seq<char>| k2 != k implies #[trigger] lookup(r, k2) == lookup(s, k2) by {
            if blob_keys(s).contains(k2) {
                let j = choose|j: int| 0 <= j < blob_keys(s).len() && blob_keys(s)[j] == k2;
                lemma_lookup_index(r, j);
                lemma_lookup_index(s, j);
            } else {
                lemma_lookup_absent(s, k2);
                assert(!blob_keys(r).contains(k2)) by {
                    if blob_keys(r).contains(k2) {
                        let j = choose|j: int| 0 <= j < blob_keys(r).len() && blob_keys(r)[j] == k2;
                        assert(blob_keys(s)[j] == k2);
                    }
                }
                lemma_lookup_absent(r, k2);
            }
        }
    }
}

/// Inserting images: each image's key maps to its bytes; keys that no image
/// has keep their bytes.
proof fn lemma_insert_images(base: Seq<BlobView>, imgs: Seq<BlobView>)
    requires
        keys_distinct(base),
        keys_distinct(imgs),
    ensures
        keys_distinct(insert_images(base, imgs)),
        forall|j: int|
            0 <= j < imgs.len() ==> lookup(insert_images(base, imgs), #[trigger] imgs[j].0) == Some(
                imgs[j].1,
            ),
        forall|k: Seq<char>|
            !blob_keys(imgs).contains(k) ==> #[trigger] lookup(insert_images(base, imgs), k)
                == lookup(base, k),
    decreases imgs.len(),
{
    if imgs.len() > 0 {
        let r = imgs.drop_last();
        let x = imgs.last();
        lemma_prefix_distinct(imgs);
        lemma_insert_images(base, r);
        let prev = insert_images(base, r);
        assert(insert_images(base, imgs) == blob_insert(prev, x.0, x.1));
        lemma_blob_insert(prev, x.0, x.1);
        assert forall|j: int| 0 <= j < imgs.len() implies lookup(
            insert_images(base, imgs),
            #[trigger] imgs[j].0,
        ) == Some(imgs[j].1) by {
            if j < imgs.len() - 1 {
                assert(imgs[j] == r[j]);
                assert(blob_keys(imgs)[j] != blob_keys(imgs)[imgs.len() - 1]);
            }
        }
        assert forall|k: Seq<char>| !blob_keys(imgs).contains(k) implies #[trigger] lookup(
            insert_images(base, imgs),
            k,
        ) == lookup(base, k) by {
            assert(blob_keys(imgs)[imgs.len() - 1] == x.0);
            if blob_keys(r).contains(k) {
                let j = choose|j: int| 0 <= j < blob_keys(r).len() && blob_keys(r)[j] == k;
                assert(blob_keys(imgs)[j] == k);
            }
        }
    } else {
        assert forall|k: Seq<char>| !blob_keys(imgs).contains(k) implies #[trigger] lookup(
            insert_images(base, imgs),
            k,
        ) == lookup(base, k) by {}
    }
}

/// Classifying a copy loses nothing non-empty: it yields a content exactly
/// when some payload is non-empty, and every non-empty payload is among the
/// content's representations (what restoring re-offers) under its MIME type,
/// unknown binary types included.
pub proof fn law_classification_keeps_every_payload(b: Seq<BlobView>)
    requires
        keys_distinct(b),
    ensures
        (from_blobs_spec(b) is None) == (forall|i: int| 0 <= i < b.len() ==> #[trigger] b[i].1.len()
            == 0),
        from_blobs_spec(b) is Some ==> forall|i: int|
            0 <= i < b.len() && #[trigger] b[i].1.len() > 0 ==> lookup(
                representations_spec(from_blobs_spec(b)->Some_0),
                b[i].0,
            ) == Some(b[i].1),
{
    let tf = is_text_pair();
    let of = is_other_pair();
    let tb = text_pairs(b);
    let ob = other_pairs(b);
    let imgs = sort_by_mime(ob);
    lemma_filter_distinct(b, tf);
    lemma_filter_distinct(b, of);
    lemma_sort_by_mime(ob);
    // Every image is a non-text payload.
    assert forall|k: Seq<char>| #[trigger] blob_keys(imgs).contains(k) implies !is_text_mime_spec(k) by {
        let y = lemma_key_pair(imgs, k);
        assert(ob.contains(y));
        let j = choose|j: int| 0 <= j < ob.len() && ob[j] == y;
        b.lemma_filter_pred(of, j);
    }
    assert forall|i: int| 0 <= i < b.len() && #[trigger] b[i].1.len() > 0 implies (tb.contains(b[i])
        && is_text_mime_spec(b[i].0)) || (imgs.contains(b[i]) && !is_text_mime_spec(b[i].0)) by {
        if is_text_mime_spec(b[i].0) {
            b.lemma_filter_contains(tf, i);
        } else {
            b.lemma_filter_contains(of, i);
        }
    }
    if forall|i: int| 0 <= i < b.len() ==> #[trigger] b[i].1.len() == 0 {
        crate::clipboard::laws::law_empty_copy_ignored(
            crate::clipboard::history::ClipView { entries: Seq::empty(), next_id: 1 },
            b,
        );
    } else {
        let i0 = choose|i: int| 0 <= i < b.len() && !(#[trigger] b[i].1.len() == 0);
        assert(b[i0].1.len() > 0);
        if tb.contains(b[i0]) {
            assert(tb.len() > 0);
        } else {
            assert(imgs.contains(b[i0]));
            assert(imgs.len() > 0);
        }
    }
    if from_blobs_spec(b) is Some {
        let c = from_blobs_spec(b)->Some_0;
        assert forall|i: int| 0 <= i < b.len() && #[trigger] b[i].1.len() > 0 implies lookup(
            representations_spec(c),
            b[i].0,
        ) == Some(b[i].1) by {
            let y = b[i];
            if tb.contains(y) && is_text_mime_spec(y.0) {
                let q = choose|q: int| 0 <= q < tb.len() && tb[q] == y;
                lemma_lookup_index(tb, q);
                assert(!blob_keys(imgs).contains(y.0));
                if imgs.len() > 0 {
                    lemma_insert_images(tb, imgs);
                }
            } else {
                let q = choose|q: int| 0 <= q < imgs.len() && imgs[q] == y;
                if tb.len() == 0 && imgs.len() == 1 {
                    assert(q == 0);
                    assert(representations_spec(c) == seq![imgs[0]]);
                } else if tb.len() > 0 {
                    lemma_insert_images(tb, imgs);
                } else {
                    lemma_insert_images(Seq::<BlobView>::empty(), imgs);
                }
            }
        }
    }
}

/// Insertion keeps a strictly MIME-ordered sequence ordered.
proof fn lemma_insert_by_mime_sorted(s: Seq<BlobView>, x: BlobView)
    requires
        forall|i: int, j: int| 0 <= i < j < s.len() ==> chars_lt(#[trigger] s[i].0, #[trigger] s[j].0),
        forall|i: int| 0 <= i < s.len() ==> #[trigger] s[i].0 != x.0,
    ensures
        forall|i: int, j: int|
            0 <= i < j < insert_by_mime(s, x).len() ==> chars_lt(
                #[trigger] insert_by_mime(s, x)[i].0,
                #[trigger] insert_by_mime(s, x)[j].0,
            ),
        forall|i: int|
            0 <= i < insert_by_mime(s, x).len() ==> #[trigger] insert_by_mime(s, x)[i] == x || s.contains(
                insert_by_mime(s, x)[i],
            ),
        insert_by_mime(s, x).len() == s.len() + 1,
    decreases s.len(),
{
    let r = insert_by_mime(s, x);
    if s.len() == 0 {
    } else if chars_lt(x.0, s[0].0) {
        assert forall|i: int, j: int| 0 <= i < j < r.len() implies chars_lt(
            #[trigger] r[i].0,
            #[trigger] r[j].0,
        ) by {
            if i == 0 {
                if j > 1 {
                    assert(chars_lt(s[0].0, s[j - 1].0));
                    lemma_chars_lt_transitive(x.0, s[0].0, s[j - 1].0);
                }
            } else {
                assert(r[i] == s[i - 1] && r[j] == s[j - 1]);
            }
        }
        assert forall|i: int| 0 <= i < r.len() implies #[trigger] r[i] == x || s.contains(r[i]) by {
            if i > 0 {
                assert(r[i] == s[i - 1]);
            }
        }
    } else {
        let t = s.drop_first();
        assert forall|i: int, j: int| 0 <= i < j < t.len() implies chars_lt(
            #[trigger] t[i].0,
            #[trigger] t[j].0,
        ) by {
            assert(t[i] == s[i + 1] && t[j] == s[j + 1]);
        }
        assert forall|i: int| 0 <= i < t.len() implies #[trigger] t[i].0 != x.0 by {
            assert(t[i] == s[i + 1]);
        }
        lemma_insert_by_mime_sorted(t, x);
        let ins = insert_by_mime(t, x);
        lemma_chars_lt_total(x.0, s[0].0);
        assert(s[0].0 != x.0);
        assert(chars_lt(s[0].0, x.0));
        assert forall|i: int, j: int| 0 <= i < j < r.len() implies chars_lt(
            #[trigger] r[i].0,
            #[trigger] r[j].0,
        ) by {
            if i == 0 {
                assert(r[j] == ins[j - 1]);
                if ins[j - 1] != x {
                    let k = choose|k: int| 0 <= k < t.len() && t[k] == ins[j - 1];
                    assert(t[k] == s[k + 1]);
                }
            } else {
                assert(r[i] == ins[i - 1] && r[j] == ins[j - 1]);
            }
        }
        assert forall|i: int| 0 <= i < r.len() implies #[trigger] r[i] == x || s.contains(r[i]) by {
            if i > 0 {
                assert(r[i] == ins[i - 1]);
                if ins[i - 1] != x {
                    let k = choose|k: int| 0 <= k < t.len() && t[k] == ins[i - 1];
                    assert(s[k + 1] == t[k]);
                }
            } else {
                assert(r[0] == s[0]);
            }
        }
    }
}

/// Sorting pairs with distinct keys orders them strictly by MIME type.
proof fn lemma_sort_by_mime_sorted(s: Seq<BlobView>)
    requires
        keys_distinct(s),
    ensures
        forall|i: int, j: int|
            0 <= i < j < sort_by_mime(s).len() ==> chars_lt(
                #[trigger] sort_by_mime(s)[i].0,
                #[trigger] sort_by_mime(s)[j].0,
            ),
    decreases s.len(),
{
    if s.len() > 0 {
        let r = s.drop_last();
        let x = s.last();
        lemma_prefix_distinct(s);
        lemma_sort_by_mime_sorted(r);
        lemma_sort_by_mime(r);
        let sr = sort_by_mime(r);
        assert(sort_by_mime(s) == insert_by_mime(sr, x));
        assert forall|i: int| 0 <= i < sr.len() implies #[trigger] sr[i].0 != x.0 by {
            assert(sr.contains(sr[i]));
            assert(r.contains(sr[i]));
            lemma_contains_key(r, sr[i]);
        }
        lemma_insert_by_mime_sorted(sr, x);
    }
}

/// The images of a mixed copy are ordered strictly by MIME type, so the
/// classification does not depend on the order the payloads came in.
pub proof fn law_images_ordered_by_mime(b: Seq<BlobView>)
    requires
        keys_distinct(b),
    ensures
        from_blobs_spec(b) matches Some(ContentView::Mixed(_, imgs)) ==> forall|i: int, j: int|
            0 <= i < j < imgs.len() ==> chars_lt(#[trigger] imgs[i].0, #[trigger] imgs[j].0),
{
    lemma_filter_distinct(b, is_other_pair());
    lemma_sort_by_mime_sorted(other_pairs(b));
}

/// `or_insert` on the pair sequence: existing keys keep their bytes, a new
/// key is appended, the old pairs stay a prefix.
proof fn lemma_insert_absent(s: Seq<BlobView>, k: Seq<char>, v: Seq<u8>)
    requires
        keys_distinct(s),
    ensures
        keys_distinct(blob_insert_absent(s, k, v)),
        blob_insert_absent(s, k, v).len() >= s.len(),
        blob_insert_absent(s, k, v).take(s.len() as int) == s,
        lookup(blob_insert_absent(s, k, v), k) == if lookup(s, k) is Some {
            lookup(s, k)
        } else {
            Some(v)
        },
        forall|k2: Seq<char>|
            k2 != k ==> #[trigger] lookup(blob_insert_absent(s, k, v), k2) == lookup(s, k2),
{
    let r = blob_insert_absent(s, k, v);
    if blob_keys(s).contains(k) {
        assert(s.take(s.len() as int) =~= s);
        let i = choose|i: int| 0 <= i < blob_keys(s).len() && blob_keys(s)[i] == k;
        lemma_lookup_index(s, i);
    } else {
        lemma_lookup_absent(s, k);
        lemma_blob_insert(s, k, v);
        assert(r == blob_insert(s, k, v));
        assert(r.take(s.len() as int) =~= s);
    }
}

/// Adding aliases with `or_insert`: the copy's pairs stay a prefix with their
/// bytes; each alias maps to its existing bytes, else to `v`.
proof fn lemma_alias_fold(rep: Seq<BlobView>, al: Seq<Seq<char>>, v: Seq<u8>)
    requires
        keys_distinct(rep),
    ensures
        ({
            let r = al.fold_left(rep, |a: Seq<BlobView>, alias: Seq<char>| blob_insert_absent(a, alias, v));
            &&& keys_distinct(r)
            &&& r.len() >= rep.len()
            &&& r.take(rep.len() as int) == rep
            &&& forall|k: Seq<char>| blob_keys(rep).contains(k) ==> #[trigger] lookup(r, k) == lookup(rep, k)
            &&& forall|j: int|
                0 <= j < al.len() ==> lookup(r, #[trigger] al[j]) == if blob_keys(rep).contains(al[j]) {
                    lookup(rep, al[j])
                } else {
                    Some(v)
                }
        }),
    decreases al.len(), 0int,
{
    let f = |a: Seq<BlobView>, alias: Seq<char>| blob_insert_absent(a, alias, v);
    let r = al.fold_left(rep, f);
    if al.len() == 0 {
        assert(rep.take(rep.len() as int) =~= rep);
    } else {
        let prev_al = al.drop_last();
        let x = al.last();
        lemma_alias_fold(rep, prev_al, v);
        let prev = prev_al.fold_left(rep, f);
        assert(r == blob_insert_absent(prev, x, v));
        lemma_insert_absent(prev, x, v);
        assert(r.take(rep.len() as int) =~= prev.take(rep.len() as int)) by {
            assert(r.take(prev.len() as int) == prev);
            assert forall|i: int| 0 <= i < rep.len() implies r[i] == prev[i] by {
                assert(r.take(prev.len() as int)[i] == r[i]);
            }
        }
        assert forall|k: Seq<char>| blob_keys(rep).contains(k) implies #[trigger] lookup(r, k) == lookup(
            rep,
            k,
        ) by {
            if k == x {
                let i = choose|i: int| 0 <= i < blob_keys(rep).len() && blob_keys(rep)[i] == k;
                lemma_lookup_index(rep, i);
            }
        }
        assert forall|j: int| 0 <= j < al.len() implies lookup(r, #[trigger] al[j]) == if blob_keys(
            rep,
        ).contains(al[j]) {
            lookup(rep, al[j])
        } else {
            Some(v)
        } by {
            if j < al.len() - 1 {
                assert(al[j] == prev_al[j]);
                if al[j] == x {
                    assert(lookup(prev, x) is Some);
                }
            } else {
                if blob_keys(rep).contains(x) {
                    let i = choose|i: int| 0 <= i < blob_keys(rep).len() && blob_keys(rep)[i] == x;
                    lemma_lookup_index(rep, i);
                } else if lookup(prev, x) is Some {
                    // `x` came in as an earlier alias, with `v`.
                    lemma_lookup_some(prev, x);
                    let y = lemma_key_pair(prev, x);
                    let i = choose|i: int| 0 <= i < prev.len() && prev[i] == y;
                    if i < rep.len() {
                        assert(prev.take(rep.len() as int)[i] == prev[i]);
                        assert(rep[i] == y);
                        lemma_contains_key(rep, y);
                    }
                    lemma_alias_origin(rep, prev_al, v, i);
                }
            }
        }
    }
}

/// A pair added by the alias fold holds `v` under one of the aliases.
proof fn lemma_alias_origin(rep: Seq<BlobView>, al: Seq<Seq<char>>, v: Seq<u8>, i: int)
    requires
        keys_distinct(rep),
        rep.len() <= i < al.fold_left(rep, |a: Seq<BlobView>, alias: Seq<char>| blob_insert_absent(a, alias, v)).len(),
    ensures
        ({
            let r = al.fold_left(rep, |a: Seq<BlobView>, alias: Seq<char>| blob_insert_absent(a, alias, v));
            &&& r[i].1 == v
            &&& !blob_keys(rep).contains(r[i].0)
            &&& lookup(r, r[i].0) == Some(v)
            &&& al.contains(r[i].0)
        }),
    decreases al.len(), 1int,
{
    let f = |a: Seq<BlobView>, alias: Seq<char>| blob_insert_absent(a, alias, v);
    let r = al.fold_left(rep, f);
    lemma_alias_fold(rep, al, v);
    if al.len() > 0 {
        let prev_al = al.drop_last();
        let x = al.last();
        let prev = prev_al.fold_left(rep, f);
        lemma_alias_fold(rep, prev_al, v);
        assert(r == blob_insert_absent(prev, x, v));
        if i < prev.len() {
            lemma_alias_origin(rep, prev_al, v, i);
            lemma_insert_absent(prev, x, v);
            assert(r[i] == prev[i]) by {
                assert(r.take(prev.len() as int)[i] == r[i]);
            }
            if prev[i].0 == x {
                assert(lookup(prev, x) is Some);
            }
            let j = choose|j: int| 0 <= j < prev_al.len() && prev_al[j] == prev[i].0;
            assert(al[j] == prev_al[j]);
        } else {
            assert(!blob_keys(prev).contains(x));
            assert(r == prev.push((x, v)));
            assert(r[i] == (x, v));
            assert(al[al.len() - 1] == x);
            assert(!blob_keys(rep).contains(x)) by {
                if blob_keys(rep).contains(x) {
                    let y = lemma_key_pair(rep, x);
                    let j = choose|j: int| 0 <= j < rep.len() && rep[j] == y;
                    assert(prev.take(rep.len() as int)[j] == prev[j]);
                    assert(prev[j] == y);
                    lemma_contains_key(prev, y);
                }
            }
            lemma_insert_absent(prev, x, v);
            lemma_lookup_absent(prev, x);
        }
    }
}

/// Restoring publishes the entry's own MIME type first, with its payload;
/// for a text entry the text aliases follow, each pointing at that same
/// payload; nothing else is published and no MIME type occurs twice.
pub proof fn law_restore_publishes_primary_then_aliases(c: ContentView)
    requires
        lookup(representations_spec(c), primary_mime_spec(c)) is Some,
    ensures
        ({
            let primary = primary_mime_spec(c);
            let b = lookup(representations_spec(c), primary)->Some_0;
            let r = restore_contents_spec(c);
            &&& r.len() >= 1
            &&& r[0] == (primary, b)
            &&& keys_distinct(r)
            &&& forall|i: int| 0 <= i < r.len() ==> (#[trigger] r[i]).1 == b
            &&& forall|i: int|
                1 <= i < r.len() ==> is_text_mime_spec(primary) && text_aliases().contains(
                    (#[trigger] r[i]).0,
                )
            &&& is_text_mime_spec(primary) ==> forall|j: int|
                0 <= j < text_aliases().len() ==> lookup(r, #[trigger] text_aliases()[j]) == Some(b)
            &&& !is_text_mime_spec(primary) ==> r == seq![(primary, b)]
        }),
{
    let primary = primary_mime_spec(c);
    let b = lookup(representations_spec(c), primary)->Some_0;
    let start = seq![(primary, b)];
    let r = restore_contents_spec(c);
    assert(keys_distinct(start)) by {
        assert(blob_keys(start) =~= seq![primary]);
    }
    if is_text_mime_spec(primary) {
        lemma_alias_fold(start, text_aliases(), b);
        assert(r[0] == start[0]) by {
            assert(r.take(1)[0] == r[0]);
        }
        assert forall|i: int| 0 <= i < r.len() implies (#[trigger] r[i]).1 == b
            && (i >= 1 ==> text_aliases().contains(r[i].0)) by {
            if i >= 1 {
                lemma_alias_origin(start, text_aliases(), b, i);
            }
        }
        assert forall|j: int| 0 <= j < text_aliases().len() implies lookup(
            r,
            #[trigger] text_aliases()[j],
        ) == Some(b) by {
            if blob_keys(start).contains(text_aliases()[j]) {
                assert(blob_keys(start)[0] == primary);
            }
        }
    }
}

/// A pair kept by a filter comes from the filtered sequence and passes the
/// filter.
proof fn lemma_filtered_pair(b: Seq<BlobView>, f: spec_fn(BlobView) -> bool, y: BlobView) -> (i: int)
    requires
        b.filter(f).contains(y),
    ensures
        0 <= i < b.len(),
        b[i] == y,
        f(y),
{
    b.lemma_filter_contains_rev(f, y);
    let q = choose|q: int| 0 <= q < b.filter(f).len() && b.filter(f)[q] == y;
    b.lemma_filter_pred(f, q);
    choose|i: int| 0 <= i < b.len() && b[i] == y
}

/// The images of a copy are non-empty payloads under non-text MIME types.
proof fn lemma_images_of(b: Seq<BlobView>)
    requires
        keys_distinct(b),
    ensures
        keys_distinct(sort_by_mime(other_pairs(b))),
        forall|j: int|
            0 <= j < sort_by_mime(other_pairs(b)).len() ==> b.contains(
                #[trigger] sort_by_mime(other_pairs(b))[j],
            ) && sort_by_mime(other_pairs(b))[j].1.len() > 0 && !is_text_mime_spec(
                sort_by_mime(other_pairs(b))[j].0,
            ),
        forall|k: Seq<char>|
            #[trigger] blob_keys(sort_by_mime(other_pairs(b))).contains(k) ==> !is_text_mime_spec(k),
{
    let ob = other_pairs(b);
    let imgs = sort_by_mime(ob);
    lemma_filter_distinct(b, is_other_pair());
    lemma_sort_by_mime(ob);
    assert forall|j: int| 0 <= j < imgs.len() implies b.contains(#[trigger] imgs[j]) && imgs[j].1.len()
        > 0 && !is_text_mime_spec(imgs[j].0) by {
        assert(imgs.contains(imgs[j]));
        let i = lemma_filtered_pair(b, is_other_pair(), imgs[j]);
    }
    assert forall|k: Seq<char>| #[trigger] blob_keys(imgs).contains(k) implies !is_text_mime_spec(k) by {
        let y = lemma_key_pair(imgs, k);
        let i = lemma_filtered_pair(b, is_other_pair(), y);
    }
}

/// The primary MIME type of a copy's text part is one of its text MIME types,
/// listed among the offered ones.
proof fn lemma_text_primary(tb: Seq<BlobView>)
    requires
        tb.len() > 0,
        keys_distinct(tb),
    ensures
        blob_keys(tb).contains(primary_of(blob_keys(tb))),
        offered_of(tb).contains(primary_of(blob_keys(tb))),
{
    let keys = blob_keys(tb);
    let pp = preferred_present(keys);
    let npf = non_preferred_pair();
    assert(keys.len() > 0);
    if pp.len() > 0 {
        lemma_filter_contains_preferred(keys, 0);
        assert(offered_of(tb)[0] == pp[0]);
    } else {
        lemma_min_mime_in(keys);
        let m = min_mime(keys);
        let j = choose|j: int| 0 <= j < keys.len() && keys[j] == m;
        if preferred_text_mimes().contains(m) {
            let q = choose|q: int| 0 <= q < preferred_text_mimes().len() && preferred_text_mimes()[q] == m;
            preferred_text_mimes().lemma_filter_contains(|p: Seq<char>| keys.contains(p), q);
        }
        assert(tb[j].0 == m);
        tb.lemma_filter_contains(npf, j);
        lemma_filter_distinct(tb, npf);
        lemma_sort_by_mime(tb.filter(npf));
        lemma_contains_key(sort_by_mime(tb.filter(npf)), tb[j]);
        assert(offered_of(tb) =~= blob_keys(sort_by_mime(tb.filter(npf))));
    }
}

/// A classified copy carries decoded text exactly when one of its text
/// payloads is non-empty.
pub proof fn law_has_text_iff_text_payload(b: Seq<BlobView>)
    requires
        from_blobs_spec(b) is Some,
    ensures
        has_text_spec(from_blobs_spec(b)->Some_0) == exists|i: int|
            #![trigger b[i]]
            0 <= i < b.len() && b[i].1.len() > 0 && is_text_mime_spec(b[i].0),
{
    let tb = text_pairs(b);
    if tb.len() > 0 {
        assert(tb.contains(tb[0]));
        let i = lemma_filtered_pair(b, is_text_pair(), tb[0]);
        assert(b[i].1.len() > 0 && is_text_mime_spec(b[i].0));
    } else {
        if exists|i: int| #![trigger b[i]] 0 <= i < b.len() && b[i].1.len() > 0 && is_text_mime_spec(b[i].0) {
            let i = choose|i: int| #![trigger b[i]] 0 <= i < b.len() && b[i].1.len() > 0 && is_text_mime_spec(b[i].0);
            b.lemma_filter_contains(is_text_pair(), i);
        }
    }
}

/// The primary MIME type of a classified copy is one it offers, and its
/// representations hold a non-empty payload under it (so a restore always
/// has something to publish).
pub proof fn law_primary_offered_with_payload(b: Seq<BlobView>)
    requires
        keys_distinct(b),
        from_blobs_spec(b) is Some,
    ensures
        offered_mimes_spec(from_blobs_spec(b)->Some_0).contains(
            primary_mime_spec(from_blobs_spec(b)->Some_0),
        ),
        lookup(
            representations_spec(from_blobs_spec(b)->Some_0),
            primary_mime_spec(from_blobs_spec(b)->Some_0),
        ) matches Some(p) && p.len() > 0,
{
    let c = from_blobs_spec(b)->Some_0;
    let tb = text_pairs(b);
    let imgs = sort_by_mime(other_pairs(b));
    lemma_filter_distinct(b, is_text_pair());
    lemma_images_of(b);
    if tb.len() > 0 {
        let keys = blob_keys(tb);
        let primary = primary_of(keys);
        lemma_text_primary(tb);
        let y = lemma_key_pair(tb, primary);
        let q = choose|q: int| 0 <= q < tb.len() && tb[q] == y;
        lemma_lookup_index(tb, q);
        let i = lemma_filtered_pair(b, is_text_pair(), y);
        if imgs.len() > 0 {
            lemma_insert_images(tb, imgs);
            assert(!blob_keys(imgs).contains(primary));
            let tm = offered_of(tb);
            let oj = choose|oj: int| 0 <= oj < tm.len() && tm[oj] == primary;
            assert(offered_mimes_spec(c) == tm + blob_keys(imgs));
            assert((tm + blob_keys(imgs))[oj] == primary);
        }
    } else if imgs.len() == 1 {
        assert(imgs.contains(imgs[0]));
        assert(offered_mimes_spec(c)[0] == imgs[0].0);
    } else {
        lemma_insert_images(Seq::<BlobView>::empty(), imgs);
        assert(offered_mimes_spec(c) =~= Seq::<Seq<char>>::empty() + blob_keys(imgs));
        assert(blob_keys(imgs)[0] == imgs[0].0);
    }
}

/// The representations of a classified copy hold nothing but the copy's
/// non-empty payloads: every MIME type they map comes from the copy with a
/// non-empty payload, and maps to that payload's bytes.
pub proof fn law_representations_only_nonempty_payloads(b: Seq<BlobView>)
    requires
        keys_distinct(b),
        from_blobs_spec(b) is Some,
    ensures
        forall|k: Seq<char>|
            #[trigger] lookup(representations_spec(from_blobs_spec(b)->Some_0), k) is Some ==> exists|i: int|
                0 <= i < b.len() && b[i].0 == k && b[i].1.len() > 0 && lookup(
                    representations_spec(from_blobs_spec(b)->Some_0),
                    k,
                ) == Some(b[i].1),
{
    let c = from_blobs_spec(b)->Some_0;
    let rep = representations_spec(c);
    let tb = text_pairs(b);
    let imgs = sort_by_mime(other_pairs(b));
    lemma_filter_distinct(b, is_text_pair());
    lemma_images_of(b);
    assert forall|k: Seq<char>| #[trigger] lookup(rep, k) is Some implies exists|i: int|
        0 <= i < b.len() && b[i].0 == k && b[i].1.len() > 0 && lookup(rep, k) == Some(b[i].1) by {
        if tb.len() > 0 && imgs.len() == 0 {
            lemma_lookup_some(tb, k);
            let y = lemma_key_pair(tb, k);
            let q = choose|q: int| 0 <= q < tb.len() && tb[q] == y;
            lemma_lookup_index(tb, q);
            let i = lemma_filtered_pair(b, is_text_pair(), y);
            assert(b[i].0 == k && b[i].1.len() > 0 && lookup(rep, k) == Some(b[i].1));
        } else if tb.len() == 0 && imgs.len() == 1 {
            assert(rep == seq![imgs[0]]);
            if imgs[0].0 != k {
                assert(rep.drop_first() =~= Seq::<BlobView>::empty());
                assert(lookup(rep.drop_first(), k) is None);
                assert(false);
            }
            assert(b.contains(imgs[0]));
            let i = choose|i: int| 0 <= i < b.len() && b[i] == imgs[0];
            assert(b[i].0 == k && b[i].1.len() > 0 && lookup(rep, k) == Some(b[i].1));
        } else {
            let base = if tb.len() > 0 { tb } else { Seq::<BlobView>::empty() };
            lemma_insert_images(base, imgs);
            if blob_keys(imgs).contains(k) {
                let j = choose|j: int| 0 <= j < blob_keys(imgs).len() && blob_keys(imgs)[j] == k;
                assert(imgs[j].0 == k);
                assert(b.contains(imgs[j]));
                let i = choose|i: int| 0 <= i < b.len() && b[i] == imgs[j];
                assert(b[i].0 == k && b[i].1.len() > 0 && lookup(rep, k) == Some(b[i].1));
            } else {
                lemma_lookup_some(base, k);
                let y = lemma_key_pair(base, k);
                let q = choose|q: int| 0 <= q < tb.len() && tb[q] == y;
                lemma_lookup_index(tb, q);
                let i = lemma_filtered_pair(b, is_text_pair(), y);
                assert(b[i].0 == k && b[i].1.len() > 0 && lookup(rep, k) == Some(b[i].1));
            }
        }
    }
}

/// The image summaries of a classified copy are its non-empty payloads under
/// non-text MIME types, ordered by MIME type, as `(MIME type, byte count)`.
pub proof fn law_image_summaries_ordered(b: Seq<BlobView>)
    requires
        from_blobs_spec(b) is Some,
    ensures
        image_summaries_spec(from_blobs_spec(b)->Some_0) == sort_by_mime(other_pairs(b)).map_values(
            |i: BlobView| (i.0, i.1.len()),
        ),
{
    let imgs = sort_by_mime(other_pairs(b));
    assert(image_summaries_spec(from_blobs_spec(b)->Some_0) =~= imgs.map_values(
        |i: BlobView| (i.0, i.1.len()),
    ));
}

/// A copy of one non-empty payload: under a text MIME type it is a text copy
/// whose primary MIME type is that one, whose text is the decoded payload
/// and which keeps the payload; under any other MIME type it is an image
/// copy of the payload.
pub proof fn law_single_payload_copy(mime: Seq<char>, bytes: Seq<u8>)
    requires
        bytes.len() > 0,
    ensures
        is_text_mime_spec(mime) ==> (from_blobs_spec(seq![(mime, bytes)]) matches Some(
            ContentView::Text(t),
        ) && t.primary_mime == mime && t.text == decoded_text(bytes) && t.html is None && t.blobs
            == seq![(mime, bytes)]),
        !is_text_mime_spec(mime) ==> from_blobs_spec(seq![(mime, bytes)]) == Some(
            ContentView::Image((mime, bytes)),
        ),
{
    reveal(Seq::filter);
    let b = seq![(mime, bytes)];
    assert(b.drop_last() =~= Seq::<BlobView>::empty());
    assert(b.drop_last().filter(is_text_pair()).len() == 0);
    assert(b.drop_last().filter(is_other_pair()).len() == 0);
    assert(b.last() == (mime, bytes));
    if is_text_mime_spec(mime) {
        assert(text_pairs(b) =~= b);
        assert(other_pairs(b) =~= Seq::<BlobView>::empty());
        assert(sort_by_mime(Seq::<BlobView>::empty()) =~= Seq::<BlobView>::empty());
        let keys = blob_keys(b);
        assert(keys =~= seq![mime]);
        let pp = preferred_present(keys);
        if pp.len() > 0 {
            preferred_text_mimes().lemma_filter_pred(|p: Seq<char>| keys.contains(p), 0);
            assert(keys.contains(pp[0]));
        }
        assert(primary_of(keys) == mime);
        assert(b.drop_first() =~= Seq::<BlobView>::empty());
        assert(lookup(b, mime) == Some(bytes));
        if mime != "text/html"@ {
            assert(lookup(b.drop_first(), "text/html"@) is None);
            assert(lookup(b, "text/html"@) is None);
        }
        assert(html_of(b, mime) is None);
    } else {
        assert(text_pairs(b) =~= Seq::<BlobView>::empty());
        assert(other_pairs(b) =~= b);
        let f = |acc: Seq<BlobView>, x: BlobView| insert_by_mime(acc, x);
        assert(b.fold_left(Seq::<BlobView>::empty(), f) == f(
            b.drop_last().fold_left(Seq::<BlobView>::empty(), f),
            b.last(),
        ));
        assert(sort_by_mime(b) =~= b);
    }
}

/// Text stored as UTF-8 decodes back to exactly that text.
pub proof fn law_utf8_text_decodes_to_itself(chars: Seq<char>)
    ensures
        decoded_text(vstd::utf8::encode_utf8(chars)) == chars,
{
    vstd::utf8::encode_utf8_valid_utf8(chars);
    vstd::utf8::encode_utf8_decode_utf8(chars);
}

/// No MIME type sorts before itself.
proof fn lemma_chars_lt_irreflexive(a: Seq<char>)
    ensures
        !chars_lt(a, a),
    decreases a.len(),
{
    if a.len() > 0 {
        lemma_chars_lt_irreflexive(a.drop_first());
    }
}

/// The smallest MIME type is not greater than any of `keys`.
proof fn lemma_min_mime_least(keys: Seq<Seq<char>>)
    requires
        keys.len() > 0,
    ensures
        forall|j: int| 0 <= j < keys.len() ==> !chars_lt(#[trigger] keys[j], min_mime(keys)),
    decreases keys.len(),
{
    if keys.len() > 1 {
        let init = keys.drop_last();
        lemma_min_mime_least(init);
        let m = min_mime(init);
        let last = keys.last();
        assert forall|j: int| 0 <= j < keys.len() implies !chars_lt(#[trigger] keys[j], min_mime(keys)) by {
            if j < keys.len() - 1 {
                assert(keys[j] == init[j]);
                assert(!chars_lt(init[j], m));
                if chars_lt(last, m) && chars_lt(keys[j], last) {
                    lemma_chars_lt_transitive(keys[j], last, m);
                }
            } else {
                lemma_chars_lt_irreflexive(last);
            }
        }
    } else {
        lemma_chars_lt_irreflexive(keys[0]);
    }
}

/// Key sequences holding the same MIME types have the same smallest one.
proof fn lemma_min_mime_same(k1: Seq<Seq<char>>, k2: Seq<Seq<char>>)
    requires
        k1.len() > 0,
        k2.len() > 0,
        forall|x: Seq<char>| k1.contains(x) <==> k2.contains(x),
    ensures
        min_mime(k1) == min_mime(k2),
{
    let m1 = min_mime(k1);
    let m2 = min_mime(k2);
    lemma_min_mime_in(k1);
    lemma_min_mime_in(k2);
    lemma_min_mime_least(k1);
    lemma_min_mime_least(k2);
    assert(k2.contains(m1));
    assert(k1.contains(m2));
    let i = choose|i: int| 0 <= i < k2.len() && k2[i] == m1;
    let j = choose|j: int| 0 <= j < k1.len() && k1[j] == m2;
    assert(!chars_lt(k2[i], m2));
    assert(!chars_lt(k1[j], m1));
    lemma_chars_lt_total(m1, m2);
}

/// A pair held by one of two pair sequences with distinct keys and the same
/// lookups is held by the other.
proof fn lemma_pair_in(b1: Seq<BlobView>, b2: Seq<BlobView>, y: BlobView)
    requires
        keys_distinct(b1),
        keys_distinct(b2),
        forall|k: Seq<char>| #[trigger] lookup(b1, k) == lookup(b2, k),
        b1.contains(y),
    ensures
        b2.contains(y),
{
    let i = choose|i: int| 0 <= i < b1.len() && b1[i] == y;
    lemma_lookup_index(b1, i);
    assert(lookup(b2, y.0) == Some(y.1));
    lemma_lookup_some(b2, y.0);
    let z = lemma_key_pair(b2, y.0);
    let j = choose|j: int| 0 <= j < b2.len() && b2[j] == z;
    lemma_lookup_index(b2, j);
    assert(z == y);
}

/// Filtering two sequences that hold the same pairs keeps the same pairs.
proof fn lemma_filter_same(b1: Seq<BlobView>, b2: Seq<BlobView>, f: spec_fn(BlobView) -> bool)
    requires
        forall|y: BlobView| b1.contains(y) <==> b2.contains(y),
    ensures
        forall|y: BlobView| b1.filter(f).contains(y) <==> b2.filter(f).contains(y),
{
    assert forall|y: BlobView| b1.filter(f).contains(y) implies b2.filter(f).contains(y) by {
        let i = lemma_filtered_pair(b1, f, y);
        assert(b2.contains(y));
        let j = choose|j: int| 0 <= j < b2.len() && b2[j] == y;
        b2.lemma_filter_contains(f, j);
    }
    assert forall|y: BlobView| b2.filter(f).contains(y) implies b1.filter(f).contains(y) by {
        let i = lemma_filtered_pair(b2, f, y);
        assert(b1.contains(y));
        let j = choose|j: int| 0 <= j < b1.len() && b1[j] == y;
        b1.lemma_filter_contains(f, j);
    }
}

/// Pairs strictly ordered by MIME type.
spec fn mime_ordered(s: Seq<BlobView>) -> bool {
    forall|i: int, j: int| 0 <= i < j < s.len() ==> chars_lt(#[trigger] s[i].0, #[trigger] s[j].0)
}

/// Two sequences strictly ordered by MIME type that hold the same pairs are
/// equal.
proof fn lemma_ordered_same_pairs_equal(s1: Seq<BlobView>, s2: Seq<BlobView>)
    requires
        mime_ordered(s1),
        mime_ordered(s2),
        forall|y: BlobView| s1.contains(y) <==> s2.contains(y),
    ensures
        s1 == s2,
    decreases s1.len(),
{
    if s1.len() == 0 {
        if s2.len() > 0 {
            assert(s2.contains(s2[0]));
        }
        assert(s1 =~= s2);
    } else {
        assert(s1.contains(s1[0]));
        assert(s2.contains(s1[0]));
        assert(s2.contains(s2[0]));
        assert(s1.contains(s2[0]));
        let j = choose|j: int| 0 <= j < s2.len() && s2[j] == s1[0];
        let i = choose|i: int| 0 <= i < s1.len() && s1[i] == s2[0];
        if j > 0 {
            assert(chars_lt(s2[0].0, s2[j].0));
            if i > 0 {
                assert(chars_lt(s1[0].0, s1[i].0));
                lemma_chars_lt_transitive(s1[0].0, s2[0].0, s1[0].0);
            }
            lemma_chars_lt_irreflexive(s1[0].0);
        }
        assert(s1[0] == s2[0]);
        let t1 = s1.drop_first();
        let t2 = s2.drop_first();
        assert forall|y: BlobView| t1.contains(y) <==> t2.contains(y) by {
            if t1.contains(y) {
                let k = choose|k: int| 0 <= k < t1.len() && t1[k] == y;
                assert(s1[k + 1] == y);
                assert(s1.contains(y));
                let q = choose|q: int| 0 <= q < s2.len() && s2[q] == y;
                if q == 0 {
                    assert(chars_lt(s1[0].0, s1[k + 1].0));
                    lemma_chars_lt_irreflexive(y.0);
                }
                assert(t2[q - 1] == y);
            }
            if t2.contains(y) {
                let k = choose|k: int| 0 <= k < t2.len() && t2[k] == y;
                assert(s2[k + 1] == y);
                assert(s2.contains(y));
                let q = choose|q: int| 0 <= q < s1.len() && s1[q] == y;
                if q == 0 {
                    assert(chars_lt(s2[0].0, s2[k + 1].0));
                    lemma_chars_lt_irreflexive(y.0);
                }
                assert(t1[q - 1] == y);
            }
        }
        assert(mime_ordered(t1)) by {
            assert forall|a: int, c: int| 0 <= a < c < t1.len() implies chars_lt(
                #[trigger] t1[a].0,
                #[trigger] t1[c].0,
            ) by {
                assert(t1[a] == s1[a + 1] && t1[c] == s1[c + 1]);
            }
        }
        assert(mime_ordered(t2)) by {
            assert forall|a: int, c: int| 0 <= a < c < t2.len() implies chars_lt(
                #[trigger] t2[a].0,
                #[trigger] t2[c].0,
            ) by {
                assert(t2[a] == s2[a + 1] && t2[c] == s2[c + 1]);
            }
        }
        lemma_ordered_same_pairs_equal(t1, t2);
        assert(s1 =~= seq![s1[0]] + t1);
        assert(s2 =~= seq![s2[0]] + t2);
    }
}

/// Ordering by MIME type two sequences that hold the same pairs, with
/// distinct keys, gives the same sequence.
proof fn lemma_sort_same(s1: Seq<BlobView>, s2: Seq<BlobView>)
    requires
        keys_distinct(s1),
        keys_distinct(s2),
        forall|y: BlobView| s1.contains(y) <==> s2.contains(y),
    ensures
        sort_by_mime(s1) == sort_by_mime(s2),
{
    lemma_sort_by_mime(s1);
    lemma_sort_by_mime(s2);
    lemma_sort_by_mime_sorted(s1);
    lemma_sort_by_mime_sorted(s2);
    lemma_ordered_same_pairs_equal(sort_by_mime(s1), sort_by_mime(s2));
}

/// The text parts built from two sequences that hold the same pairs, with
/// distinct keys, are alike.
proof fn lemma_text_view_same(tb1: Seq<BlobView>, tb2: Seq<BlobView>)
    requires
        tb1.len() > 0,
        keys_distinct(tb1),
        keys_distinct(tb2),
        forall|y: BlobView| tb1.contains(y) <==> tb2.contains(y),
    ensures
        tb2.len() > 0,
        same_text(text_view_of(tb1), text_view_of(tb2)),
{
    assert(tb1.contains(tb1[0]));
    let k1 = blob_keys(tb1);
    let k2 = blob_keys(tb2);
    assert forall|k: Seq<char>| k1.contains(k) <==> k2.contains(k) by {
        if k1.contains(k) {
            let y = lemma_key_pair(tb1, k);
            lemma_contains_key(tb2, y);
        }
        if k2.contains(k) {
            let y = lemma_key_pair(tb2, k);
            lemma_contains_key(tb1, y);
        }
    }
    assert forall|k: Seq<char>| #[trigger] lookup(tb1, k) == lookup(tb2, k) by {
        if k1.contains(k) {
            let y = lemma_key_pair(tb1, k);
            let i = choose|i: int| 0 <= i < tb1.len() && tb1[i] == y;
            let j = choose|j: int| 0 <= j < tb2.len() && tb2[j] == y;
            lemma_lookup_index(tb1, i);
            lemma_lookup_index(tb2, j);
        } else {
            lemma_lookup_absent(tb1, k);
            lemma_lookup_absent(tb2, k);
        }
    }
    assert(blob_map(tb1) =~= blob_map(tb2));
    let f1 = |p: Seq<char>| k1.contains(p);
    let f2 = |p: Seq<char>| k2.contains(p);
    assert(f1 =~= f2);
    assert(preferred_present(k1) == preferred_present(k2));
    assert(k1.contains(k1[0]));
    assert(k2.len() > 0);
    if preferred_present(k1).len() == 0 {
        lemma_min_mime_same(k1, k2);
    }
    assert(primary_of(k1) == primary_of(k2));
    let npf = non_preferred_pair();
    lemma_filter_same(tb1, tb2, npf);
    lemma_filter_distinct(tb1, npf);
    lemma_filter_distinct(tb2, npf);
    lemma_sort_same(tb1.filter(npf), tb2.filter(npf));
    assert(offered_of(tb1) == offered_of(tb2));
    let p = primary_of(k1);
    assert(lookup(tb1, p) == lookup(tb2, p));
    assert(lookup(tb1, "text/html"@) == lookup(tb2, "text/html"@));
}

/// Classification depends only on which payloads a copy holds, not on the
/// order in which they came: two copies holding the same payloads under the
/// same MIME types classify alike (equal contents, payload maps compared as
/// maps), so recognising a repeated copy does not depend on that order.
pub proof fn law_classification_ignores_order(b1: Seq<BlobView>, b2: Seq<BlobView>)
    requires
        keys_distinct(b1),
        keys_distinct(b2),
        forall|k: Seq<char>| #[trigger] lookup(b1, k) == lookup(b2, k),
    ensures
        (from_blobs_spec(b1) is Some) == (from_blobs_spec(b2) is Some),
        from_blobs_spec(b1) is Some ==> same_content(
            from_blobs_spec(b1)->Some_0,
            from_blobs_spec(b2)->Some_0,
        ),
{
    assert forall|y: BlobView| b1.contains(y) <==> b2.contains(y) by {
        if b1.contains(y) {
            lemma_pair_in(b1, b2, y);
        }
        if b2.contains(y) {
            lemma_pair_in(b2, b1, y);
        }
    }
    let tb1 = text_pairs(b1);
    let tb2 = text_pairs(b2);
    lemma_filter_same(b1, b2, is_text_pair());
    lemma_filter_same(b1, b2, is_other_pair());
    lemma_filter_distinct(b1, is_text_pair());
    lemma_filter_distinct(b2, is_text_pair());
    lemma_filter_distinct(b1, is_other_pair());
    lemma_filter_distinct(b2, is_other_pair());
    lemma_sort_same(other_pairs(b1), other_pairs(b2));
    if tb1.len() > 0 {
        lemma_text_view_same(tb1, tb2);
    } else if tb2.len() > 0 {
        lemma_text_view_same(tb2, tb1);
    }
}

/// Some payload of `b` under `m` is non-empty.
pub open spec fn nonempty_key(b: Seq<BlobView>, m: Seq<char>) -> bool {
    exists|i: int| #![trigger b[i]] 0 <= i < b.len() && b[i].0 == m && b[i].1.len() > 0
}

/// Filtering a sequence without repeats leaves none.
proof fn lemma_filter_no_dup<A>(s: Seq<A>, f: spec_fn(A) -> bool)
    requires
        s.no_duplicates(),
    ensures
        s.filter(f).no_duplicates(),
    decreases s.len(),
{
    reveal(Seq::filter);
    if s.len() > 0 {
        let r = s.drop_last();
        let x = s.last();
        assert(r.no_duplicates()) by {
            assert forall|i: int, j: int| 0 <= i < r.len() && 0 <= j < r.len() && i != j implies r[i]
                != r[j] by {
                assert(r[i] == s[i] && r[j] == s[j]);
            }
        }
        lemma_filter_no_dup(r, f);
        if f(x) {
            let rf = r.filter(f);
            if rf.contains(x) {
                r.lemma_filter_contains_rev(f, x);
                let k = choose|k: int| 0 <= k < r.len() && r[k] == x;
                assert(s[k] == s[s.len() - 1]);
            }
            assert(s.filter(f) == rf.push(x));
            assert forall|i: int, j: int|
                0 <= i < rf.push(x).len() && 0 <= j < rf.push(x).len() && i != j implies rf.push(x)[i]
                != rf.push(x)[j] by {
                if i == rf.len() {
                    assert(rf.contains(rf[j]));
                } else if j == rf.len() {
                    assert(rf.contains(rf[i]));
                }
            }
        }
    }
}

/// The non-empty payloads of a copy are its text part and its images.
proof fn lemma_nonempty_keys(b: Seq<BlobView>)
    requires
        keys_distinct(b),
    ensures
        forall|m: Seq<char>|
            #[trigger] nonempty_key(b, m) <==> (blob_keys(text_pairs(b)).contains(m) || blob_keys(
                sort_by_mime(other_pairs(b)),
            ).contains(m)),
{
    let tb = text_pairs(b);
    let ob = other_pairs(b);
    let imgs = sort_by_mime(ob);
    lemma_images_of(b);
    lemma_filter_distinct(b, is_other_pair());
    lemma_sort_by_mime(ob);
    assert forall|m: Seq<char>| #[trigger] nonempty_key(b, m) <==> (blob_keys(tb).contains(m)
        || blob_keys(imgs).contains(m)) by {
        if nonempty_key(b, m) {
            let i = choose|i: int| #![trigger b[i]] 0 <= i < b.len() && b[i].0 == m && b[i].1.len() > 0;
            if is_text_mime_spec(b[i].0) {
                b.lemma_filter_contains(is_text_pair(), i);
                lemma_contains_key(tb, b[i]);
            } else {
                b.lemma_filter_contains(is_other_pair(), i);
                assert(imgs.contains(b[i]));
                lemma_contains_key(imgs, b[i]);
            }
        }
        if blob_keys(tb).contains(m) {
            let y = lemma_key_pair(tb, m);
            let i = lemma_filtered_pair(b, is_text_pair(), y);
            assert(b[i].0 == m && b[i].1.len() > 0);
        } else if blob_keys(imgs).contains(m) {
            let y = lemma_key_pair(imgs, m);
            let j = choose|j: int| 0 <= j < imgs.len() && imgs[j] == y;
            assert(b.contains(imgs[j]));
            let i = choose|i: int| 0 <= i < b.len() && b[i] == imgs[j];
            assert(b[i].0 == m && b[i].1.len() > 0);
        }
    }
}

/// The offered MIME types of a text part never repeat and are exactly its
/// MIME types.
proof fn lemma_offered_of(tb: Seq<BlobView>)
    requires
        keys_distinct(tb),
    ensures
        offered_of(tb).no_duplicates(),
        forall|m: Seq<char>| #[trigger] offered_of(tb).contains(m) <==> blob_keys(tb).contains(m),
{
    let keys = blob_keys(tb);
    let pf = |p: Seq<char>| keys.contains(p);
    let pp = preferred_present(keys);
    let npf = non_preferred_pair();
    let sorted = sort_by_mime(tb.filter(npf));
    let np = blob_keys(sorted);
    lemma_preferred_distinct();
    lemma_filter_no_dup(preferred_text_mimes(), pf);
    lemma_filter_distinct(tb, npf);
    lemma_sort_by_mime(tb.filter(npf));
    assert forall|m: Seq<char>| #[trigger] pp.contains(m) implies preferred_text_mimes().contains(m)
        && keys.contains(m) by {
        let q = choose|q: int| 0 <= q < pp.len() && pp[q] == m;
        preferred_text_mimes().lemma_filter_pred(pf, q);
        preferred_text_mimes().lemma_filter_contains_rev(pf, m);
    }
    assert forall|m: Seq<char>| #[trigger] np.contains(m) implies !preferred_text_mimes().contains(m)
        && keys.contains(m) by {
        let y = lemma_key_pair(sorted, m);
        let i = lemma_filtered_pair(tb, npf, y);
        lemma_contains_key(tb, y);
    }
    assert forall|i: int, j: int| 0 <= i < pp.len() && 0 <= j < np.len() implies pp[i] != np[j] by {
        assert(pp.contains(pp[i]));
        assert(np.contains(np[j]));
    }
    vstd::seq_lib::lemma_no_dup_in_concat(pp, np);
    assert forall|m: Seq<char>| #[trigger] offered_of(tb).contains(m) <==> keys.contains(m) by {
        if offered_of(tb).contains(m) {
            let q = choose|q: int| 0 <= q < (pp + np).len() && (pp + np)[q] == m;
            if q < pp.len() {
                assert(pp.contains(pp[q]));
            } else {
                assert(np.contains(np[q - pp.len()]));
            }
        }
        if keys.contains(m) {
            if preferred_text_mimes().contains(m) {
                let q = choose|q: int| 0 <= q < preferred_text_mimes().len() && preferred_text_mimes()[q] == m;
                preferred_text_mimes().lemma_filter_contains(pf, q);
                let r = choose|r: int| 0 <= r < pp.len() && pp[r] == m;
                assert((pp + np)[r] == m);
            } else {
                let y = lemma_key_pair(tb, m);
                let j = choose|j: int| 0 <= j < tb.len() && tb[j] == y;
                tb.lemma_filter_contains(npf, j);
                assert(sorted.contains(y));
                lemma_contains_key(sorted, y);
                let r = choose|r: int| 0 <= r < np.len() && np[r] == m;
                assert((pp + np)[pp.len() + r] == m);
            }
        }
    }
}

/// The MIME types a classified copy offers never repeat, and are exactly the
/// MIME types of its non-empty payloads.
pub proof fn law_offered_mimes_are_nonempty_keys(b: Seq<BlobView>)
    requires
        keys_distinct(b),
        from_blobs_spec(b) is Some,
    ensures
        offered_mimes_spec(from_blobs_spec(b)->Some_0).no_duplicates(),
        forall|m: Seq<char>|
            #[trigger] offered_mimes_spec(from_blobs_spec(b)->Some_0).contains(m) <==> nonempty_key(
                b,
                m,
            ),
{
    let c = from_blobs_spec(b)->Some_0;
    let off = offered_mimes_spec(c);
    let tb = text_pairs(b);
    let imgs = sort_by_mime(other_pairs(b));
    let ik = blob_keys(imgs);
    lemma_filter_distinct(b, is_text_pair());
    lemma_images_of(b);
    lemma_nonempty_keys(b);
    if tb.len() > 0 {
        lemma_offered_of(tb);
        let tm = offered_of(tb);
        if imgs.len() == 0 {
            assert(off == tm);
            assert forall|m: Seq<char>| #[trigger] off.contains(m) <==> nonempty_key(b, m) by {
                if ik.contains(m) {
                    let j = choose|j: int| 0 <= j < ik.len() && ik[j] == m;
                }
            }
        } else {
            assert(off == tm + ik);
            assert forall|i: int, j: int| 0 <= i < tm.len() && 0 <= j < ik.len() implies tm[i] != ik[j] by {
                assert(tm.contains(tm[i]));
                let y = lemma_key_pair(tb, tm[i]);
                let q = lemma_filtered_pair(b, is_text_pair(), y);
                assert(ik.contains(ik[j]));
            }
            vstd::seq_lib::lemma_no_dup_in_concat(tm, ik);
            assert forall|m: Seq<char>| #[trigger] off.contains(m) <==> nonempty_key(b, m) by {
                if off.contains(m) {
                    let q = choose|q: int| 0 <= q < off.len() && off[q] == m;
                    if q < tm.len() {
                        assert(tm.contains(tm[q]));
                    } else {
                        assert(ik.contains(ik[q - tm.len()]));
                    }
                }
                if tm.contains(m) {
                    let r = choose|r: int| 0 <= r < tm.len() && tm[r] == m;
                    assert(off[r] == m);
                } else if ik.contains(m) {
                    let r = choose|r: int| 0 <= r < ik.len() && ik[r] == m;
                    assert(off[tm.len() + r] == m);
                }
            }
        }
    } else {
        assert(forall|m: Seq<char>| !#[trigger] blob_keys(tb).contains(m));
        if imgs.len() == 1 {
            assert(off =~= ik);
        } else {
            assert(off =~= Seq::<Seq<char>>::empty() + ik);
            assert(off =~= ik);
        }
        assert(ik.no_duplicates());
    }
}

/// The primary MIME type of a classified copy: a text type when the copy
/// carries text; otherwise the smallest MIME type among its non-empty
/// non-text payloads.
pub proof fn law_primary_text_or_smallest_other(b: Seq<BlobView>)
    requires
        keys_distinct(b),
        from_blobs_spec(b) is Some,
    ensures
        has_text_spec(from_blobs_spec(b)->Some_0) ==> is_text_mime_spec(
            primary_mime_spec(from_blobs_spec(b)->Some_0),
        ),
        !has_text_spec(from_blobs_spec(b)->Some_0) ==> {
            let p = primary_mime_spec(from_blobs_spec(b)->Some_0);
            &&& nonempty_key(b, p)
            &&& !is_text_mime_spec(p)
            &&& forall|i: int|
                #![trigger b[i]]
                0 <= i < b.len() && b[i].1.len() > 0 && !is_text_mime_spec(b[i].0) ==> b[i].0 == p
                    || chars_lt(p, b[i].0)
        },
{
    let c = from_blobs_spec(b)->Some_0;
    let tb = text_pairs(b);
    let ob = other_pairs(b);
    let imgs = sort_by_mime(ob);
    lemma_filter_distinct(b, is_text_pair());
    lemma_filter_distinct(b, is_other_pair());
    lemma_images_of(b);
    lemma_sort_by_mime(ob);
    lemma_sort_by_mime_sorted(ob);
    if tb.len() > 0 {
        lemma_text_primary(tb);
        let y = lemma_key_pair(tb, primary_of(blob_keys(tb)));
        let i = lemma_filtered_pair(b, is_text_pair(), y);
    } else {
        assert(imgs.len() > 0);
        let p = imgs[0].0;
        assert(primary_mime_spec(c) == p);
        assert(b.contains(imgs[0]));
        let k = choose|k: int| 0 <= k < b.len() && b[k] == imgs[0];
        assert(b[k].0 == p && b[k].1.len() > 0);
        assert forall|i: int|
            #![trigger b[i]]
            0 <= i < b.len() && b[i].1.len() > 0 && !is_text_mime_spec(b[i].0) implies b[i].0 == p
                || chars_lt(p, b[i].0) by {
            b.lemma_filter_contains(is_other_pair(), i);
            assert(imgs.contains(b[i]));
            let j = choose|j: int| 0 <= j < imgs.len() && imgs[j] == b[i];
            if j > 0 {
                assert(chars_lt(imgs[0].0, imgs[j].0));
            }
        }
    }
}

/// The text part of a copy, if it has one.
pub open spec fn text_part(c: ContentView) -> Option<TextView> {
    match c {
        ContentView::Text(t) => Some(t),
        ContentView::Image(_) => None,
        ContentView::Mixed(t, _) => t,
    }
}

/// A classified copy keeps decoded HTML only when it is distinct: its text
/// part has HTML exactly when it holds a `text/html` payload, its primary
/// MIME type is not `text/html`, and that payload differs from the primary
/// payload; the HTML is then that payload, decoded.
pub proof fn law_html_only_when_distinct(b: Seq<BlobView>)
    requires
        keys_distinct(b),
        from_blobs_spec(b) is Some,
    ensures
        text_part(from_blobs_spec(b)->Some_0) matches Some(t) ==> {
            &&& lookup(t.blobs, t.primary_mime) is Some
            &&& (t.html is Some) == (lookup(t.blobs, "text/html"@) matches Some(h) && t.primary_mime
                != "text/html"@ && h != lookup(t.blobs, t.primary_mime)->Some_0)
            &&& t.html is Some ==> t.html == Some(decoded_text(lookup(t.blobs, "text/html"@)->Some_0))
        },
{
    let tb = text_pairs(b);
    lemma_filter_distinct(b, is_text_pair());
    if tb.len() > 0 {
        lemma_text_primary(tb);
        let primary = primary_of(blob_keys(tb));
        let y = lemma_key_pair(tb, primary);
        let q = choose|q: int| 0 <= q < tb.len() && tb[q] == y;
        lemma_lookup_index(tb, q);
    }
}

/// Looking up after appending a pair: an earlier pair under the key wins.
proof fn lemma_lookup_push(s: Seq<BlobView>, x: BlobView, k: Seq<char>)
    ensures
        lookup(s.push(x), k) == if lookup(s, k) is Some {
            lookup(s, k)
        } else if x.0 == k {
            Some(x.1)
        } else {
            None
        },
    decreases s.len(),
{
    if s.len() == 0 {
        assert(s.push(x).drop_first() =~= Seq::<BlobView>::empty());
    } else {
        assert(s.push(x)[0] == s[0]);
        assert(s.push(x).drop_first() =~= s.drop_first().push(x));
        lemma_lookup_push(s.drop_first(), x, k);
    }
}

/// Looking up after replacing the bytes of every pair under `k0` by `v`.
proof fn lemma_lookup_replace(s: Seq<BlobView>, k0: Seq<char>, v: Seq<u8>, k: Seq<char>)
    ensures
        lookup(s.map_values(|p: BlobView| if p.0 == k0 { (k0, v) } else { p }), k) == if k == k0 {
            if lookup(s, k) is Some {
                Some(v)
            } else {
                None
            }
        } else {
            lookup(s, k)
        },
    decreases s.len(),
{
    let f = |p: BlobView| if p.0 == k0 { (k0, v) } else { p };
    let m = s.map_values(f);
    if s.len() > 0 {
        assert(m[0] == f(s[0]));
        assert(m.drop_first() =~= s.drop_first().map_values(f));
        lemma_lookup_replace(s.drop_first(), k0, v, k);
    }
}

/// Looking up after `blob_insert`: the inserted key maps to the new bytes,
/// every other key as before.
proof fn lemma_lookup_blob_insert(s: Seq<BlobView>, k0: Seq<char>, v: Seq<u8>, k: Seq<char>)
    ensures
        lookup(blob_insert(s, k0, v), k) == if k == k0 {
            Some(v)
        } else {
            lookup(s, k)
        },
{
    if blob_keys(s).contains(k0) {
        lemma_lookup_replace(s, k0, v, k);
        assert(blob_insert(s, k0, v) =~= s.map_values(
            |p: BlobView| if p.0 == k0 { (k0, v) } else { p },
        ));
        if k == k0 {
            let i = choose|i: int| 0 <= i < blob_keys(s).len() && blob_keys(s)[i] == k0;
            if lookup(s, k0) is None {
                lemma_lookup_none_absent(s, k0);
            }
        }
    } else {
        lemma_lookup_absent(s, k0);
        lemma_lookup_push(s, (k0, v), k);
    }
}

/// A key with no lookup result is not among the keys.
proof fn lemma_lookup_none_absent(s: Seq<BlobView>, k: Seq<char>)
    requires
        lookup(s, k) is None,
    ensures
        !blob_keys(s).contains(k),
    decreases s.len(),
{
    if s.len() > 0 {
        lemma_lookup_none_absent(s.drop_first(), k);
        if blob_keys(s).contains(k) {
            let i = choose|i: int| 0 <= i < blob_keys(s).len() && blob_keys(s)[i] == k;
            assert(i != 0);
            assert(blob_keys(s.drop_first())[i - 1] == k);
        }
    }
}

/// Equal payload maps look up alike.
proof fn lemma_blob_map_lookup(a: Seq<BlobView>, b: Seq<BlobView>)
    requires
        blob_map(a) == blob_map(b),
    ensures
        forall|k: Seq<char>| #[trigger] lookup(a, k) == lookup(b, k),
{
    assert forall|k: Seq<char>| #[trigger] lookup(a, k) == lookup(b, k) by {
        assert(blob_map(a).dom().contains(k) == blob_keys(a).contains(k));
        assert(blob_map(b).dom().contains(k) == blob_keys(b).contains(k));
        if blob_keys(a).contains(k) {
            if lookup(a, k) is None {
                lemma_lookup_none_absent(a, k);
            }
            if lookup(b, k) is None {
                lemma_lookup_none_absent(b, k);
            }
            assert(blob_map(a)[k] == blob_map(b)[k]);
        } else {
            lemma_lookup_absent(a, k);
            lemma_lookup_absent(b, k);
        }
    }
}

/// Inserting the same images into payloads that look up alike gives payloads
/// that look up alike.
proof fn lemma_insert_images_alike(b1: Seq<BlobView>, b2: Seq<BlobView>, imgs: Seq<BlobView>)
    requires
        forall|k: Seq<char>| #[trigger] lookup(b1, k) == lookup(b2, k),
    ensures
        forall|k: Seq<char>| #[trigger] lookup(insert_images(b1, imgs), k) == lookup(
            insert_images(b2, imgs),
            k,
        ),
    decreases imgs.len(),
{
    if imgs.len() > 0 {
        let r = imgs.drop_last();
        let x = imgs.last();
        lemma_insert_images_alike(b1, b2, r);
        assert(insert_images(b1, imgs) == blob_insert(insert_images(b1, r), x.0, x.1));
        assert(insert_images(b2, imgs) == blob_insert(insert_images(b2, r), x.0, x.1));
        assert forall|k: Seq<char>| #[trigger] lookup(insert_images(b1, imgs), k) == lookup(
            insert_images(b2, imgs),
            k,
        ) by {
            lemma_lookup_blob_insert(insert_images(b1, r), x.0, x.1, k);
            lemma_lookup_blob_insert(insert_images(b2, r), x.0, x.1, k);
        }
    }
}

/// Copies that count as the same copy hold the same payloads: the same bytes
/// under every MIME type. A copy whose payloads differ in any byte from
/// another's is therefore never taken for it.
pub proof fn law_same_content_same_payloads(a: ContentView, b: ContentView)
    requires
        same_content(a, b),
    ensures
        forall|k: Seq<char>| #[trigger] lookup(representations_spec(a), k) == lookup(
            representations_spec(b),
            k,
        ),
{
    match (a, b) {
        (ContentView::Text(x), ContentView::Text(y)) => {
            lemma_blob_map_lookup(x.blobs, y.blobs);
        },
        (ContentView::Mixed(tx, ix), ContentView::Mixed(ty, iy)) => {
            match (tx, ty) {
                (Some(x), Some(y)) => {
                    lemma_blob_map_lookup(x.blobs, y.blobs);
                    lemma_insert_images_alike(x.blobs, y.blobs, ix);
                },
                _ => {
                    lemma_insert_images_alike(Seq::<BlobView>::empty(), Seq::<BlobView>::empty(), ix);
                },
            }
        },
        _ => {},
    }
}

} // verus!
