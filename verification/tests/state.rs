use uclip_daemon::{AppState, ClipboardError, MimeBlobs, OfferData, ReadOutcome, SourceData};

fn offer(state: &mut AppState, id: u32, mimes: &[&str]) {
    state.insert_offer(id);
    for m in mimes {
        state.push_offer_mime(id, m.to_string());
    }
}

#[test]
fn offers_collect_mimes_in_order() {
    let mut state = AppState::new();
    offer(&mut state, 5, &["text/plain", "image/png"]);
    assert_eq!(
        state.offer_mimes(5).unwrap(),
        &vec!["text/plain".to_string(), "image/png".to_string()]
    );
    // A MIME for an offer whose DataOffer was missed creates it.
    state.push_offer_mime(6, "TEXT".into());
    assert_eq!(state.offer_mimes(6).unwrap(), &vec!["TEXT".to_string()]);
    state.remove_offer(5);
    assert!(state.offer_mimes(5).is_none());
    assert_eq!(state.offer_count(), 1);
}

#[test]
fn selection_requests_picked_mimes_and_releases_previous() {
    let mut state = AppState::new();
    offer(&mut state, 1, &["text/html", "text/plain", "application/x-foo"]);
    let plan = state.on_selection(Some(1));
    assert_eq!(plan.destroy, None);
    assert_eq!(plan.request, vec!["text/plain".to_string(), "text/html".to_string()]);
    assert_eq!(state.current_selection(), Some(1));

    // Same offer again: nothing destroyed, offer kept.
    let plan = state.on_selection(Some(1));
    assert_eq!(plan.destroy, None);
    assert!(state.offer_mimes(1).is_some());

    // A new offer releases the previous one and its MIME cache.
    offer(&mut state, 2, &["image/png"]);
    let plan = state.on_selection(Some(2));
    assert_eq!(plan.destroy, Some(1));
    assert!(state.offer_mimes(1).is_none());
    assert_eq!(plan.request, vec!["image/png".to_string()]);

    // Cleared selection.
    let plan = state.on_selection(None);
    assert_eq!(plan.destroy, Some(2));
    assert!(plan.request.is_empty());
    assert_eq!(state.current_selection(), None);
}

#[test]
fn selection_of_unknown_offer_requests_nothing() {
    let mut state = AppState::new();
    let plan = state.on_selection(Some(9));
    assert!(plan.request.is_empty());
    assert_eq!(state.current_selection(), Some(9));
}

#[test]
fn stale_cancel_does_not_clobber_replacement() {
    let mut state = AppState::new();
    assert_eq!(state.replace_source(10), None);
    assert_eq!(state.replace_source(11), Some(10));
    assert!(!state.take_source_if_active(10));
    assert_eq!(state.current_source(), Some(11));
    assert!(state.take_source_if_active(11));
    assert_eq!(state.current_source(), None);
}

#[test]
fn restore_errors_in_order() {
    let mut state = AppState::new();
    assert!(matches!(
        state.restore_contents(1, true, true),
        Err(ClipboardError::EntryNotFound(1))
    ));
    state.record_read(1, "text/plain".into(), b"hi".to_vec(), false);
    assert!(matches!(
        state.restore_contents(1, false, true),
        Err(ClipboardError::NoManager)
    ));
    assert!(matches!(
        state.restore_contents(1, true, false),
        Err(ClipboardError::NoDevice)
    ));
}

#[test]
fn restore_offers_text_aliases() {
    let mut state = AppState::new();
    state.record_read(1, "text/plain".into(), b"hi".to_vec(), false);
    let src = state.restore_contents(1, true, true).unwrap();
    let keys: Vec<String> = (0..src.contents.len())
        .map(|i| src.contents.mime_at(i).clone())
        .collect();
    assert_eq!(
        keys,
        vec!["text/plain", "text/plain;charset=utf-8", "TEXT", "STRING", "UTF8_STRING"]
    );
    for i in 0..src.contents.len() {
        assert_eq!(src.contents.bytes_at(i), &b"hi".to_vec());
    }
}

#[test]
fn restore_of_image_offers_only_its_mime() {
    let mut state = AppState::new();
    state.record_read(1, "image/png".into(), vec![1, 2, 3], false);
    let src = state.restore_contents(1, true, true).unwrap();
    assert_eq!(src.contents.len(), 1);
    assert_eq!(src.contents.get("image/png"), Some(&vec![1, 2, 3]));
}

#[test]
fn source_serves_exact_or_text_fallback() {
    let mut contents = MimeBlobs::new();
    contents.insert("text/plain".into(), b"a".to_vec());
    contents.insert("image/png".into(), b"b".to_vec());
    let src = SourceData::new(contents);
    assert_eq!(src.content_for("image/png"), Some(&b"b".to_vec()));
    assert_eq!(src.content_for("text/plain;charset=UTF-8"), Some(&b"a".to_vec()));
    assert_eq!(src.content_for("image/gif"), None);
}

#[test]
fn offer_data_push_mime_appends() {
    let mut o = OfferData::default();
    o.push_mime("a".into());
    o.push_mime("b".into());
    assert_eq!(o.mime_types, vec!["a".to_string(), "b".to_string()]);
}

#[test]
fn text_fallback_serves_a_text_payload_only() {
    let mut contents = MimeBlobs::new();
    contents.insert("image/png".into(), vec![1, 2]);
    contents.insert("text/html".into(), b"<i>x</i>".to_vec());
    let src = SourceData::new(contents);
    assert_eq!(
        src.content_for("text/plain;charset=UTF-8"),
        Some(&b"<i>x</i>".to_vec())
    );

    let mut images = MimeBlobs::new();
    images.insert("image/png".into(), vec![1, 2]);
    let src = SourceData::new(images);
    assert_eq!(src.content_for("text/plain"), None);
}

#[test]
fn restore_offers_entry_mime_first_then_aliases_of_its_payload() {
    let mut state = AppState::new();
    let mut blobs = MimeBlobs::new();
    blobs.insert("text/html".into(), b"<b>hi</b>".to_vec());
    blobs.insert("text/plain".into(), b"hi".to_vec());
    let id = state.clipboard_mut().add_grouped(blobs).unwrap();
    let src = state.restore_contents(id, true, true).unwrap();
    let keys: Vec<String> = (0..src.contents.len())
        .map(|i| src.contents.mime_at(i).clone())
        .collect();
    assert_eq!(
        keys,
        vec!["text/plain", "text/plain;charset=utf-8", "TEXT", "STRING", "UTF8_STRING"]
    );
    for i in 0..src.contents.len() {
        assert_eq!(src.contents.bytes_at(i), &b"hi".to_vec());
    }
}

#[test]
fn restore_of_mixed_copy_offers_its_primary_only_when_not_text() {
    let mut state = AppState::new();
    let mut blobs = MimeBlobs::new();
    blobs.insert("image/png".into(), vec![1]);
    blobs.insert("image/gif".into(), vec![2]);
    let id = state.clipboard_mut().add_grouped(blobs).unwrap();
    let src = state.restore_contents(id, true, true).unwrap();
    assert_eq!(src.contents.len(), 1);
    assert_eq!(src.contents.mime_at(0), "image/gif");
    assert_eq!(src.contents.bytes_at(0), &vec![2]);
}

#[test]
fn failed_read_drops_offer_and_reports_error() {
    let mut state = AppState::new();
    state.insert_offer(3);
    state.push_offer_mime(3, "text/plain".into());
    let outcome = state.record_read_error(3, "text/plain".into(), "broken pipe".into());
    assert_eq!(
        outcome,
        ReadOutcome::ReadError {
            mime_type: "text/plain".into(),
            error: "broken pipe".into()
        }
    );
    assert!(state.offer_mimes(3).is_none());
    assert_eq!(state.clipboard().len(), 0);
}
