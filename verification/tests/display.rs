use uclip_daemon::clipboard::history::ClipState;
use uclip_daemon::display::{format_entry_at, format_history_with, format_new_entry_at};
use uclip_daemon::{MimeBlobs, format_entry, format_history, format_kind, format_new_entry};

#[test]
fn entry_line_layout() {
    let mut state = ClipState::new();
    let id = state.add_entry("text/plain".into(), b"one\ntwo".to_vec()).unwrap();
    let e = state.get(id).unwrap();
    assert_eq!(format_entry_at(e, "T0"), "[1] T0 text/plain: one");
    assert_eq!(format_kind(e), "Text");
    let line = format_entry(e);
    assert!(line.starts_with("[1] SystemTime"));
    assert!(line.ends_with(" text/plain: one"));
}

#[test]
fn new_entry_blocks_per_variant() {
    let mut state = ClipState::new();
    let t = state.add_entry("text/plain".into(), b"hello\nworld".to_vec()).unwrap();
    assert_eq!(
        format_new_entry_at(state.get(t).unwrap(), "T"),
        "\n==== CLIPBOARD [id=1 @T text/plain Text] ====\nhello\nworld\n"
    );
    let i = state.add_entry("image/png".into(), vec![0u8; 12]).unwrap();
    assert_eq!(format_kind(state.get(i).unwrap()), "Image");
    assert_eq!(
        format_new_entry_at(state.get(i).unwrap(), "T"),
        "\n==== CLIPBOARD [id=2 @T] ====\n<12 bytes of image/png>\n"
    );
    let mut b = MimeBlobs::new();
    b.insert("image/png".into(), vec![1u8; 3]);
    b.insert("text/plain".into(), b"cap".to_vec());
    b.insert("image/gif".into(), vec![1u8; 5]);
    let m = state.add_grouped(b).unwrap();
    assert_eq!(format_kind(state.get(m).unwrap()), "Mixed");
    assert_eq!(
        format_new_entry_at(state.get(m).unwrap(), "T"),
        "\n==== CLIPBOARD [id=3 @T Mixed] ====\ncap\n<5 bytes of image/gif>\n<3 bytes of image/png>\n"
    );
    let block = format_new_entry(state.get(m).unwrap());
    assert!(block.starts_with("\n==== CLIPBOARD [id=3 @SystemTime"));
}

#[test]
fn history_dump_lists_every_entry() {
    let mut state = ClipState::new();
    assert_eq!(format_history_with(&state, &vec![]), "History (0 entries):");
    state.add_entry("text/plain".into(), b"a".to_vec());
    state.add_entry("image/png".into(), vec![7u8; 2]);
    assert_eq!(
        format_history_with(&state, &vec!["T1".to_string(), "T2".to_string()]),
        "History (2 entries):\n[1] T1 text/plain: a\n[2] T2 image/png: <2 bytes of image/png>"
    );
    let dump = format_history(&state);
    assert!(dump.starts_with("History (2 entries):\n[1] "));
    assert_eq!(dump.lines().count(), 3);
}
