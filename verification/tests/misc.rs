use uclip_daemon::clock::millis_or_zero;
use uclip_daemon::{ClipboardError, GlobalBinding, binding_for, check_globals, socket_path_for};

#[test]
fn binds_seat_and_manager_at_understood_versions() {
    assert_eq!(binding_for("wl_seat", 7), GlobalBinding::Seat { version: 7 });
    assert_eq!(binding_for("wl_seat", 12), GlobalBinding::Seat { version: 9 });
    assert_eq!(
        binding_for("ext_data_control_manager_v1", 3),
        GlobalBinding::Manager { version: 1 }
    );
    assert_eq!(binding_for("wl_output", 4), GlobalBinding::Ignore);
}

#[test]
fn socket_path_uses_runtime_dir_or_tmp() {
    assert_eq!(
        socket_path_for(Some("/run/user/1000"), 1000),
        "/run/user/1000/uclip_daemon/uclip.sock"
    );
    assert_eq!(
        socket_path_for(Some("/run/user/1000/"), 1000),
        "/run/user/1000/uclip_daemon/uclip.sock"
    );
    assert_eq!(socket_path_for(Some(""), 5), "uclip_daemon/uclip.sock");
    assert_eq!(socket_path_for(None, 1000), "/tmp/uclip-1000.sock");
    assert_eq!(socket_path_for(None, 0), "/tmp/uclip-0.sock");
}

#[test]
fn timestamp_millis_keep_low_bits_or_zero() {
    assert_eq!(millis_or_zero(Some(1_700_000_000_123)), 1_700_000_000_123);
    assert_eq!(millis_or_zero(Some((1u128 << 64) + 3)), 3);
    assert_eq!(millis_or_zero(Some(u64::MAX as u128)), u64::MAX);
    assert_eq!(millis_or_zero(None), 0);
}

#[test]
fn missing_globals_are_reported_seat_first() {
    assert!(matches!(check_globals(false, false), Err(ClipboardError::NoSeat)));
    assert!(matches!(check_globals(false, true), Err(ClipboardError::NoSeat)));
    assert!(matches!(check_globals(true, false), Err(ClipboardError::NoManager)));
    assert!(check_globals(true, true).is_ok());
}
