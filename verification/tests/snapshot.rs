use uclip_daemon::{EntryKind, EntrySummary, MAX_HISTORY, list_snapshot, push_summary};

fn summary(id: u64) -> EntrySummary {
    EntrySummary {
        id,
        timestamp_millis: 0,
        kind: EntryKind::Text,
        primary_mime: "text/plain".into(),
        preview: format!("item {id}"),
        has_text: true,
    }
}

fn vec_n(n: u64) -> Vec<EntrySummary> {
    (1..=n).map(summary).collect()
}

#[test]
fn list_pagination_returns_slice_and_total() {
    let snap = vec_n(5);
    let (total, entries) = list_snapshot(&snap, 2, 2);
    assert_eq!(total, 5);
    assert_eq!(entries.iter().map(|e| e.id).collect::<Vec<_>>(), [3, 4]);
}

#[test]
fn limit_is_clamped_to_max() {
    let snap = vec_n(5);
    let (total, entries) = list_snapshot(&snap, 0, 10_000);
    assert_eq!(total, 5);
    assert!(entries.len() <= uclip_daemon::MAX_LIST_LIMIT);
    assert_eq!(entries.len(), 5);
}

#[test]
fn offset_past_end_returns_empty_with_total() {
    let snap = vec_n(3);
    let (total, entries) = list_snapshot(&snap, 99, 10);
    assert_eq!(total, 3);
    assert!(entries.is_empty());
}

#[test]
fn empty_snapshot_lists_empty() {
    let (total, entries) = list_snapshot(&[], 0, 50);
    assert_eq!(total, 0);
    assert!(entries.is_empty());
}

#[test]
fn push_summary_evicts_oldest_over_max_history() {
    let snap = vec_n(MAX_HISTORY as u64 + 2);
    let mut steady: Vec<EntrySummary> = vec_n(MAX_HISTORY as u64);
    push_summary(&mut steady, summary(MAX_HISTORY as u64 + 1));
    push_summary(&mut steady, summary(MAX_HISTORY as u64 + 2));
    assert_eq!(steady.len(), MAX_HISTORY);
    // Oldest evicted first: id 1 and 2 are gone.
    assert_eq!(steady.first().unwrap().id, 3);
    assert_eq!(snap.len(), MAX_HISTORY + 2);
}

#[test]
fn list_page_in_the_middle_of_many_rows() {
    let snap = vec_n(250);
    let (total, entries) = list_snapshot(&snap, 120, 500);
    assert_eq!(total, 250);
    assert_eq!(entries.len(), 100);
    assert_eq!(entries[0].id, 121);
    assert_eq!(entries[99].id, 220);
    let (_, tail) = list_snapshot(&snap, 240, 50);
    assert_eq!(tail.iter().map(|e| e.id).collect::<Vec<_>>(), (241..=250).collect::<Vec<_>>());
}

#[test]
fn listed_rows_are_equal_copies() {
    let snap = vec_n(2);
    let (_, entries) = list_snapshot(&snap, 1, 1);
    assert_eq!(entries, vec![summary(2)]);
}
