use uclip_daemon::{MAX_MIMES_PER_SELECTION, is_text_mime, pick_mimes};

fn strings(v: &[&str]) -> Vec<String> {
    v.iter().map(|s| s.to_string()).collect()
}

#[test]
fn text_atoms_count_as_text() {
    for m in [
        "TEXT",
        "STRING",
        "UTF8_STRING",
        "text/plain",
        "text/plain;charset=utf-8",
        "text/csv",
        "text/html",
    ] {
        assert!(is_text_mime(m), "{m} should be text");
    }
}

#[test]
fn binary_and_app_types_are_not_text() {
    for m in ["image/png", "application/x-foo", "APPLICATION/JSON"] {
        assert!(!is_text_mime(m), "{m} should not be text");
    }
}

#[test]
fn prefers_ordered_text_mimes_first() {
    let offered = strings(&["text/html", "text/plain", "text/plain;charset=utf-8"]);
    assert_eq!(
        pick_mimes(&offered),
        strings(&["text/plain;charset=utf-8", "text/plain", "text/html"])
    );
}

#[test]
fn picks_up_unlisted_text_types() {
    let offered = strings(&["text/csv", "image/png"]);
    assert_eq!(pick_mimes(&offered), strings(&["text/csv", "image/png"]));
}

#[test]
fn ignores_unsupported_application_types() {
    let offered = strings(&["application/x-foo"]);
    assert!(pick_mimes(&offered).is_empty());
}

#[test]
fn truncates_to_max_mimes() {
    let offered = strings(&[
        "text/plain",
        "text/markdown",
        "text/html",
        "text/uri-list",
        "text/csv",
        "image/png",
    ]);
    let picked = pick_mimes(&offered);
    assert_eq!(picked.len(), MAX_MIMES_PER_SELECTION);
}

#[test]
fn dedupes_repeated_offers() {
    let offered = strings(&["text/plain", "text/plain"]);
    assert_eq!(pick_mimes(&offered), strings(&["text/plain"]));
}
