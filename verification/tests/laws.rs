use uclip_daemon::{
    ClipState, EntrySummary, MAX_HISTORY, MAX_LIST_LIMIT, MimeBlobs, list_snapshot, push_summary,
};

#[test]
fn snapshot_mirrors_history_through_evictions() {
    let mut state = ClipState::new();
    let mut snap: Vec<EntrySummary> = Vec::new();
    for i in 0..(MAX_HISTORY + 3) {
        let id = state
            .add_entry("text/plain".into(), format!("copy {i}").into_bytes())
            .unwrap();
        push_summary(&mut snap, EntrySummary::from(state.get(id).unwrap()));
        let ids: Vec<u64> = snap.iter().map(|s| s.id).collect();
        let hist: Vec<u64> = state.iter().map(|e| e.id).collect();
        assert_eq!(ids, hist);
    }
    assert_eq!(snap.len(), MAX_HISTORY);
}

#[test]
fn one_copy_is_one_entry_with_the_next_id() {
    let mut state = ClipState::new();
    state.add_entry("text/plain".into(), b"x".to_vec());
    let next = state.next_id();
    let mut b = MimeBlobs::new();
    b.insert("text/plain".into(), b"y".to_vec());
    b.insert("text/html".into(), b"<p>y</p>".to_vec());
    b.insert("image/png".into(), vec![1, 2]);
    let before = state.len();
    let id = state.add_grouped(b).unwrap();
    assert_eq!(id, next);
    assert_eq!(state.len(), before + 1);
    assert_eq!(state.next_id(), next + 1);
    assert_eq!(state.latest().unwrap().id, id);
}

#[test]
fn added_entry_is_found_by_its_id_only() {
    let mut state = ClipState::new();
    let a = state.add_entry("text/plain".into(), b"a".to_vec()).unwrap();
    let b = state.add_entry("text/plain".into(), b"b".to_vec()).unwrap();
    assert_eq!(state.get(a).unwrap().preview(), "a");
    assert_eq!(state.get(b).unwrap().preview(), "b");
    assert!(state.get(b + 1).is_none());
    assert!(state.get(0).is_none());
}

#[test]
fn repeat_in_a_grouped_copy_is_ignored_regardless_of_insert_order() {
    let mut state = ClipState::new();
    let mut first = MimeBlobs::new();
    first.insert("text/plain".into(), b"same".to_vec());
    first.insert("image/png".into(), vec![3]);
    let mut again = MimeBlobs::new();
    again.insert("image/png".into(), vec![3]);
    again.insert("text/plain".into(), b"same".to_vec());
    assert!(state.add_grouped(first).is_some());
    assert_eq!(state.add_grouped(again), None);
    assert_eq!(state.len(), 1);
}

#[test]
fn full_history_drops_only_the_oldest() {
    let mut state = ClipState::new();
    for i in 0..MAX_HISTORY {
        state.add_entry("text/plain".into(), format!("{i}").into_bytes());
    }
    let oldest_before = state.entry_at(0).id;
    let second_before = state.entry_at(1).id;
    let id = state.add_entry("text/plain".into(), b"new".to_vec()).unwrap();
    assert_eq!(state.len(), MAX_HISTORY);
    assert!(state.get(oldest_before).is_none());
    assert_eq!(state.entry_at(0).id, second_before);
    assert_eq!(state.latest().unwrap().id, id);
}

#[test]
fn pages_are_bounded() {
    let snap: Vec<EntrySummary> = Vec::new();
    let (total, page) = list_snapshot(&snap, 3, 1000);
    assert_eq!((total, page.len()), (0, 0));
    assert!(MAX_LIST_LIMIT <= 100);
}
