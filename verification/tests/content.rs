use uclip_daemon::{ClipState, ClipboardContent, MAX_HISTORY, MimeBlobs};

fn blobs(pairs: &[(&str, &[u8])]) -> MimeBlobs {
    let mut b = MimeBlobs::new();
    for (m, bytes) in pairs {
        b.insert(m.to_string(), bytes.to_vec());
    }
    b
}

#[test]
fn classify_drops_empty_payloads() {
    assert!(ClipboardContent::from_blobs(blobs(&[("text/plain", b""), ("image/png", b"")])).is_none());
    let c = ClipboardContent::from_blobs(blobs(&[("text/plain", b""), ("image/png", b"x")])).unwrap();
    assert!(matches!(c, ClipboardContent::Image(_)));
}

#[test]
fn primary_falls_back_to_smallest_mime() {
    let c = ClipboardContent::from_blobs(blobs(&[("text/rtf", b"r"), ("text/csv", b"c")])).unwrap();
    assert_eq!(c.primary_mime(), "text/csv");
    assert_eq!(c.preview(), "c");
    assert_eq!(c.offered_mimes(), vec!["text/csv".to_string(), "text/rtf".to_string()]);
}

#[test]
fn offered_mimes_follow_preference_then_mime_order() {
    let c = ClipboardContent::from_blobs(blobs(&[
        ("text/rtf", b"a"),
        ("text/csv", b"a"),
        ("UTF8_STRING", b"a"),
        ("text/plain", b"a"),
    ]))
    .unwrap();
    assert_eq!(
        c.offered_mimes(),
        vec!["text/plain", "UTF8_STRING", "text/csv", "text/rtf"]
    );
    assert_eq!(c.primary_mime(), "text/plain");
}

#[test]
fn html_equal_to_primary_is_not_duplicated() {
    let c = ClipboardContent::from_blobs(blobs(&[("text/html", b"<b>x</b>")])).unwrap();
    match &c {
        ClipboardContent::Text(t) => {
            assert_eq!(t.primary_mime, "text/html");
            assert_eq!(t.html, None);
            assert_eq!(t.text, "<b>x</b>");
        }
        other => panic!("expected Text, got {other:?}"),
    }
}

#[test]
fn invalid_utf8_is_decoded_lossily() {
    let c = ClipboardContent::from_blobs(blobs(&[("text/plain", &[0x61, 0xff, 0x62])])).unwrap();
    assert_eq!(c.preview(), "a\u{fffd}b");
}

#[test]
fn images_are_ordered_by_mime_and_summarised() {
    let c = ClipboardContent::from_blobs(blobs(&[
        ("image/webp", &[1u8; 3]),
        ("image/gif", &[1u8; 1]),
        ("image/png", &[1u8; 2]),
    ]))
    .unwrap();
    assert!(!c.has_text());
    assert_eq!(c.primary_mime(), "image/gif");
    assert_eq!(
        c.image_summaries(),
        vec![
            ("image/gif".to_string(), 1),
            ("image/png".to_string(), 2),
            ("image/webp".to_string(), 3)
        ]
    );
    assert_eq!(
        c.preview(),
        "<1 bytes of image/gif>, <2 bytes of image/png>, <3 bytes of image/webp>"
    );
    assert_eq!(c.offered_mimes(), vec!["image/gif", "image/png", "image/webp"]);
}

#[test]
fn representations_hold_every_payload() {
    let c = ClipboardContent::from_blobs(blobs(&[
        ("text/plain", b"cap"),
        ("image/png", &[9u8; 2]),
        ("application/x-foo", &[4u8; 1]),
    ]))
    .unwrap();
    let r = c.representations();
    assert_eq!(r.len(), 3);
    assert_eq!(r.get("text/plain"), Some(&b"cap".to_vec()));
    assert_eq!(r.get("image/png"), Some(&vec![9u8; 2]));
    assert_eq!(r.get("application/x-foo"), Some(&vec![4u8; 1]));
    assert_eq!(c.preview(), "cap + <1 bytes of application/x-foo>, <2 bytes of image/png>");
}

#[test]
fn same_as_compares_payload_maps() {
    let a = ClipboardContent::from_blobs(blobs(&[("text/plain", b"x"), ("TEXT", b"x")])).unwrap();
    let b = ClipboardContent::from_blobs(blobs(&[("TEXT", b"x"), ("text/plain", b"x")])).unwrap();
    let c = ClipboardContent::from_blobs(blobs(&[("text/plain", b"y")])).unwrap();
    assert!(a.same_as(&b));
    assert!(!a.same_as(&c));
}

#[test]
fn history_stays_bounded_and_evicts_oldest() {
    let mut state = ClipState::new();
    for i in 0..(MAX_HISTORY + 5) {
        state.add_entry("text/plain".into(), format!("item {i}").into_bytes());
    }
    assert_eq!(state.len(), MAX_HISTORY);
    assert!(state.get(5).is_none());
    assert_eq!(state.get(6).unwrap().preview(), "item 5");
    assert_eq!(state.latest().unwrap().id, (MAX_HISTORY + 5) as u64);
    assert_eq!(state.iter().next().unwrap().id, 6);
    assert_eq!(state.entry_at(0).id, 6);
    assert_eq!(state.next_id(), (MAX_HISTORY + 6) as u64);
}

#[test]
fn blobs_insert_replaces_and_insert_if_absent_keeps() {
    let mut b = MimeBlobs::new();
    assert!(b.is_empty());
    b.insert("a".into(), vec![1]);
    b.insert("b".into(), vec![2]);
    b.insert("a".into(), vec![3]);
    assert_eq!(b.len(), 2);
    assert_eq!(b.get("a"), Some(&vec![3]));
    assert_eq!(b.mime_at(0), "a");
    b.insert_if_absent("b".into(), vec![9]);
    b.insert_if_absent("c".into(), vec![4]);
    assert_eq!(b.get("b"), Some(&vec![2]));
    assert_eq!(b.get("c"), Some(&vec![4]));
    assert!(b.contains_key("c"));
    assert!(!b.contains_key("d"));
    let d = b.duplicate();
    assert_eq!(d.len(), 3);
    assert_eq!(d.get("c"), Some(&vec![4]));
}

#[test]
fn representations_hold_only_non_empty_payloads() {
    let c = ClipboardContent::from_blobs(blobs(&[
        ("text/plain", b""),
        ("TEXT", b"t"),
        ("image/png", b""),
        ("image/gif", &[3u8; 2]),
    ]))
    .unwrap();
    let r = c.representations();
    assert_eq!(r.len(), 2);
    assert_eq!(r.get("TEXT"), Some(&b"t".to_vec()));
    assert_eq!(r.get("image/gif"), Some(&vec![3u8; 2]));
    assert_eq!(r.get("text/plain"), None);
    assert_eq!(r.get("image/png"), None);
    assert!(c.has_text());
    assert_eq!(c.primary_mime(), "TEXT");
    assert!(c.offered_mimes().contains(&"TEXT".to_string()));
}

#[test]
fn empty_text_payload_gives_no_text() {
    let c = ClipboardContent::from_blobs(blobs(&[("text/plain", b""), ("image/png", &[1u8; 4])]))
        .unwrap();
    assert!(!c.has_text());
    assert_eq!(c.image_summaries(), vec![("image/png".to_string(), 4)]);
}

#[test]
fn valid_utf8_text_decodes_as_is() {
    let c = ClipboardContent::from_blobs(blobs(&[("text/plain", "héllo\nwörld".as_bytes())]))
        .unwrap();
    match &c {
        ClipboardContent::Text(t) => assert_eq!(t.text, "héllo\nwörld"),
        other => panic!("expected Text, got {other:?}"),
    }
    assert_eq!(c.preview(), "héllo");
}

#[test]
fn classification_ignores_payload_order() {
    let a = ClipboardContent::from_blobs(blobs(&[
        ("text/rtf", b"r"),
        ("image/png", b"p"),
        ("text/csv", b"c"),
        ("image/gif", b"g"),
    ]))
    .unwrap();
    let b = ClipboardContent::from_blobs(blobs(&[
        ("image/gif", b"g"),
        ("text/csv", b"c"),
        ("image/png", b"p"),
        ("text/rtf", b"r"),
    ]))
    .unwrap();
    assert!(a.same_as(&b));
    assert_eq!(a.offered_mimes(), b.offered_mimes());
    assert_eq!(a.preview(), b.preview());
}

#[test]
fn offered_mimes_are_the_non_empty_mimes_once_each() {
    let c = ClipboardContent::from_blobs(blobs(&[
        ("text/rtf", b"r"),
        ("text/plain", b""),
        ("TEXT", b"t"),
        ("image/png", b"p"),
        ("application/x-foo", b"f"),
    ]))
    .unwrap();
    let mut offered = c.offered_mimes();
    assert_eq!(offered, vec!["TEXT", "text/rtf", "application/x-foo", "image/png"]);
    offered.sort();
    offered.dedup();
    assert_eq!(offered.len(), 4);
}

#[test]
fn primary_without_text_is_smallest_other_mime() {
    let c = ClipboardContent::from_blobs(blobs(&[
        ("image/png", b"p"),
        ("text/plain", b""),
        ("application/x-foo", b"f"),
        ("image/gif", b"g"),
    ]))
    .unwrap();
    assert!(!c.has_text());
    assert_eq!(c.primary_mime(), "application/x-foo");
    let t = ClipboardContent::from_blobs(blobs(&[("image/gif", b"g"), ("text/csv", b"c")])).unwrap();
    assert!(t.has_text());
    assert_eq!(t.primary_mime(), "text/csv");
}
