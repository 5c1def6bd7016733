use uclip_daemon::{ClipState, ClipboardContent, MimeBlobs, SUPPORTED_BINARY_MIMES};

fn blobs(pairs: &[(&str, &[u8])]) -> MimeBlobs {
    let mut b = MimeBlobs::new();
    for (m, bytes) in pairs {
        b.insert(m.to_string(), bytes.to_vec());
    }
    b
}

#[test]
fn rejects_empty_content() {
    let mut state = ClipState::new();
    assert_eq!(state.add_entry("text/plain".into(), vec![]), None);
    assert!(state.is_empty());
    assert_eq!(state.add_grouped(MimeBlobs::new()), None);
    assert!(state.is_empty());
}

#[test]
fn groups_text_aliases_into_single_entry() {
    let mut state = ClipState::new();
    let id = state
        .add_grouped(blobs(&[
            ("text/plain;charset=utf-8", b"hello"),
            ("text/plain", b"hello"),
            ("TEXT", b"hello"),
            ("STRING", b"hello"),
        ]))
        .unwrap();
    assert_eq!(state.len(), 1);
    let entry = state.get(id).unwrap();
    assert!(matches!(entry.content, ClipboardContent::Text(_)));
    assert_eq!(entry.mime_type(), "text/plain;charset=utf-8");
    assert_eq!(entry.preview(), "hello");
    assert_eq!(entry.content.offered_mimes().len(), 4);
}

#[test]
fn rejects_consecutive_duplicates_but_allows_repeats_after_change() {
    let mut state = ClipState::new();
    let first = state.add_entry("text/plain".into(), b"hi".to_vec());
    assert!(first.is_some());
    assert_eq!(state.add_entry("text/plain".into(), b"hi".to_vec()), None);
    assert_eq!(state.len(), 1);

    state.add_entry("text/plain".into(), b"other".to_vec());
    // Same bytes as the first entry but no longer consecutive: stored.
    assert!(state.add_entry("text/plain".into(), b"hi".to_vec()).is_some());
}

#[test]
fn same_bytes_different_mime_in_one_copy_are_one_entry() {
    let mut state = ClipState::new();
    state
        .add_grouped(blobs(&[("text/plain", b"hi"), ("text/html", b"hi")]))
        .unwrap();
    assert_eq!(state.len(), 1);
}

#[test]
fn distinct_html_is_preserved() {
    let mut state = ClipState::new();
    let id = state
        .add_grouped(blobs(&[("text/plain", b"hi"), ("text/html", b"<b>hi</b>")]))
        .unwrap();
    let entry = state.get(id).unwrap();
    match &entry.content {
        ClipboardContent::Text(t) => {
            assert_eq!(t.text, "hi");
            assert_eq!(t.html.as_deref(), Some("<b>hi</b>"));
        }
        other => panic!("expected Text, got {other:?}"),
    }
}

#[test]
fn stores_image_as_typed_variant() {
    let mut state = ClipState::new();
    let id = state.add_grouped(blobs(&[("image/png", &[0u8; 8])])).unwrap();
    let entry = state.get(id).unwrap();
    assert!(matches!(entry.content, ClipboardContent::Image(_)));
    assert!(!entry.is_text());
    assert_eq!(entry.preview(), "<8 bytes of image/png>");
}

#[test]
fn stores_text_plus_image_as_mixed() {
    let mut state = ClipState::new();
    let id = state
        .add_grouped(blobs(&[("text/plain", b"caption"), ("image/png", &[1u8; 4])]))
        .unwrap();
    let entry = state.get(id).unwrap();
    assert!(matches!(entry.content, ClipboardContent::Mixed(_)));
    assert!(entry.is_text());
    assert_eq!(entry.preview(), "caption + <4 bytes of image/png>");
}

#[test]
fn assigns_incrementing_ids_and_lookup() {
    let mut state = ClipState::new();
    let a = state.add_entry("text/plain".into(), b"a".to_vec()).unwrap();
    let b = state.add_entry("text/plain".into(), b"b".to_vec()).unwrap();
    assert_eq!(b, a + 1);
    assert_eq!(state.get(a).unwrap().preview(), "a");
    assert_eq!(state.latest().unwrap().id, b);
}

#[test]
fn preview_uses_first_text_line_or_byte_summary() {
    let mut state = ClipState::new();
    let text_id = state
        .add_entry("text/plain".into(), b"first\nsecond".to_vec())
        .unwrap();
    assert_eq!(state.get(text_id).unwrap().preview(), "first");

    let bin_id = state.add_entry("image/png".into(), vec![0u8; 8]).unwrap();
    assert_eq!(state.get(bin_id).unwrap().preview(), "<8 bytes of image/png>");
}

#[test]
fn unknown_binary_is_kept_not_dropped() {
    let mut state = ClipState::new();
    let id = state
        .add_grouped(blobs(&[("application/octet-stream", &[9u8; 3])]))
        .unwrap();
    let entry = state.get(id).unwrap();
    assert_eq!(entry.content.primary_mime(), "application/octet-stream");
}

#[test]
fn supported_binary_list_is_image_only() {
    for m in SUPPORTED_BINARY_MIMES {
        assert!(m.starts_with("image/"), "{m} should be image/*");
    }
}

#[test]
fn single_mime_push_is_grouped_push_of_one_pair() {
    let mut a = ClipState::new();
    let mut b = ClipState::new();
    let ia = a.add_entry("text/plain".into(), b"one".to_vec());
    let ib = b.add_grouped(blobs(&[("text/plain", b"one")]));
    assert_eq!(ia, ib);
    assert_eq!(a.latest().unwrap().preview(), b.latest().unwrap().preview());
    assert_eq!(a.add_entry("text/plain".into(), b"one".to_vec()), None);
    assert_eq!(b.add_grouped(blobs(&[("text/plain", b"one")])), None);
    assert_eq!(a.len(), b.len());
}
