use uclip_daemon::{
    ClipState, ClipboardError, DaemonResponse, EntryKind, EntrySummary, MAX_LIST_LIMIT, MimeBlobs,
    PREVIEW_CHARS, clamp_limit, default_version, truncate_preview,
};

#[test]
fn summary_from_text_image_mixed_variants() {
    let mut state = ClipState::new();

    let text_id = state.add_entry("text/plain".into(), b"hello".to_vec()).unwrap();
    let text = EntrySummary::from(state.get(text_id).unwrap());
    assert_eq!(text.kind, EntryKind::Text);
    assert_eq!(text.primary_mime, "text/plain");
    assert_eq!(text.preview, "hello");
    assert!(text.has_text);

    let img_id = state.add_entry("image/png".into(), vec![0u8; 8]).unwrap();
    let img = EntrySummary::from(state.get(img_id).unwrap());
    assert_eq!(img.kind, EntryKind::Image);
    assert_eq!(img.preview, "<8 bytes of image/png>");
    assert!(!img.has_text);

    let mut mixed_state = ClipState::new();
    let mut blobs = MimeBlobs::new();
    blobs.insert("text/plain".to_string(), b"caption".to_vec());
    blobs.insert("image/png".to_string(), vec![1u8; 4]);
    let mixed_id = mixed_state.add_grouped(blobs).unwrap();
    let mixed = EntrySummary::from(mixed_state.get(mixed_id).unwrap());
    assert_eq!(mixed.kind, EntryKind::Mixed);
    assert!(mixed.has_text);
    assert!(mixed.preview.contains("caption"));
}

#[test]
fn preview_truncation_is_char_safe() {
    // 10k-char paste collapses to PREVIEW_CHARS, history untouched.
    let mut state = ClipState::new();
    let big = "x".repeat(10_000);
    let id = state.add_entry("text/plain".into(), big.as_bytes().to_vec()).unwrap();
    let summary = EntrySummary::from(state.get(id).unwrap());
    assert_eq!(summary.preview.chars().count(), PREVIEW_CHARS);
    assert!(summary.has_text);
    // Full bytes stay in storage; only the summary is cut.
    assert_eq!(state.get(id).unwrap().preview().len(), 10_000);

    // Multibyte boundary: must not split UTF-8.
    assert_eq!(truncate_preview("héllo🌍world", 5), "héllo");
    assert_eq!(truncate_preview("abc", 10), "abc");
}

#[test]
fn clipboard_error_maps_to_error_response() {
    let resp = DaemonResponse::from(ClipboardError::EntryNotFound(99));
    match resp {
        DaemonResponse::Error { message } => assert!(
            message.contains("99"),
            "message should name the id, got {message}"
        ),
        other => panic!("expected Error, got {other:?}"),
    }
}

#[test]
fn clamp_limit_bounds_list_paging() {
    assert_eq!(clamp_limit(50), 50);
    assert_eq!(clamp_limit(10_000), MAX_LIST_LIMIT);
}

#[test]
fn truncation_keeps_emoji_whole() {
    assert_eq!(truncate_preview("🌍🌍🌍", 2), "🌍🌍");
    assert_eq!(truncate_preview("", 3), "");
    assert_eq!(truncate_preview("abc", 0), "");
}

#[test]
fn error_messages_are_exact() {
    assert_eq!(
        ClipboardError::EntryNotFound(99).to_string(),
        "clipboard entry 99 not found"
    );
    assert_eq!(
        ClipboardError::NoSeat.to_string(),
        "no wl_seat found: is a Wayland compositor running?"
    );
    assert_eq!(
        ClipboardError::NoManager.to_string(),
        "no ext_data_control_manager_v1 found: compositor does not support clipboard managers"
    );
    assert_eq!(
        ClipboardError::NoDevice.to_string(),
        "data device missing: compositor revoked access or setup incomplete"
    );
    assert_eq!(
        ClipboardError::Wayland("broken pipe".into()).to_string(),
        "wayland error: broken pipe"
    );
    assert_eq!(
        ClipboardError::Io("EAGAIN".into()).to_string(),
        "clipboard I/O error: EAGAIN"
    );
    assert_eq!(
        DaemonResponse::from_error(&ClipboardError::NoDevice),
        DaemonResponse::Error {
            message: "data device missing: compositor revoked access or setup incomplete".into()
        }
    );
}

#[test]
fn default_version_is_one() {
    assert_eq!(default_version(), 1);
}

#[test]
fn summary_fields_with_given_time() {
    let mut state = ClipState::new();
    let id = state.add_entry("text/html".into(), b"<i>a</i>\nb".to_vec()).unwrap();
    let s = EntrySummary::summarize(state.get(id).unwrap(), 1234);
    assert_eq!(s.id, id);
    assert_eq!(s.timestamp_millis, 1234);
    assert_eq!(s.kind, EntryKind::Text);
    assert_eq!(s.primary_mime, "text/html");
    assert_eq!(s.preview, "<i>a</i>");
    assert!(s.has_text);
}
