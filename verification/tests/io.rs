use uclip_daemon::{AppState, MAX_CONTENT_BYTES, ReadOutcome, bound_payload};

#[test]
fn stores_text_and_reports_duplicate() {
    let mut state = AppState::new();
    let mut outcomes = Vec::new();
    outcomes.extend(state.record_read(1, "text/plain".into(), b"hello".to_vec(), false));
    outcomes.extend(state.record_read(1, "text/plain".into(), b"hello".to_vec(), false));
    assert!(matches!(outcomes[0], ReadOutcome::Stored { .. }));
    assert_eq!(
        outcomes[1],
        ReadOutcome::IgnoredDuplicate {
            mime_type: "text/plain".into()
        }
    );
    assert_eq!(state.clipboard().len(), 1);
}

#[test]
fn truncates_oversized_payload() {
    let big = vec![b'x'; MAX_CONTENT_BYTES + 16];
    let mut state = AppState::new();
    state.insert_offer(7);
    // A bounded read returns at most MAX_CONTENT_BYTES + 1 bytes.
    let read: Vec<u8> = big[..MAX_CONTENT_BYTES + 1].to_vec();
    let (payload, was_truncated) = bound_payload(read);
    let outcomes = state.record_read(7, "text/plain".into(), payload, was_truncated);

    assert!(
        outcomes
            .iter()
            .any(|o| matches!(o, ReadOutcome::Truncated { .. })),
        "expected truncation, got {outcomes:?}"
    );
    let entry = state.clipboard().latest().unwrap();
    match &entry.content {
        uclip_daemon::ClipboardContent::Text(t) => assert_eq!(t.text.len(), MAX_CONTENT_BYTES),
        other => panic!("expected Text, got {other:?}"),
    }
    assert!(state.offer_mimes(7).is_none());
}

#[test]
fn bound_payload_keeps_small_reads() {
    let (p, t) = bound_payload(b"abc".to_vec());
    assert_eq!(p, b"abc".to_vec());
    assert!(!t);
    let (p, t) = bound_payload(vec![1u8; MAX_CONTENT_BYTES]);
    assert_eq!(p.len(), MAX_CONTENT_BYTES);
    assert!(!t);
}

#[test]
fn record_read_reports_truncation_then_storage() {
    let mut state = AppState::new();
    let outcomes = state.record_read(3, "image/png".into(), vec![5u8; 10], true);
    assert_eq!(
        outcomes,
        vec![
            ReadOutcome::Truncated {
                mime_type: "image/png".into(),
                original_bytes: MAX_CONTENT_BYTES + 1
            },
            ReadOutcome::Stored {
                entry_id: 1,
                mime_type: "image/png".into()
            },
        ]
    );
}

#[test]
fn empty_read_is_ignored() {
    let mut state = AppState::new();
    let outcomes = state.record_read(3, "text/plain".into(), vec![], false);
    assert_eq!(
        outcomes,
        vec![ReadOutcome::IgnoredDuplicate {
            mime_type: "text/plain".into()
        }]
    );
    assert!(state.clipboard().is_empty());
}
