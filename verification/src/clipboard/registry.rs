//! Which advertised Wayland globals the daemon binds, and at which version.

use vstd::prelude::*;

use crate::error::ClipboardError;
use crate::text::str_eq;

verus! {

/// Highest `wl_seat` version the daemon speaks.
pub const SEAT_VERSION: u32 = 9;

/// Highest `ext_data_control_manager_v1` version the daemon speaks.
pub const MANAGER_VERSION: u32 = 1;

/// A global to bind, with the version to bind it at.
#[derive(Debug, Clone, Copy, PartialEq, Eq, Structural)]
pub enum GlobalBinding {
    Seat { version: u32 },
    Manager { version: u32 },
    Ignore,
}

/// The binding for a global advertised as `interface` at `version`: the seat
/// and the data-control manager, each at the lower of the advertised and the
/// understood version; nothing else.
pub open spec fn binding_spec(interface: Seq<char>, version: u32) -> GlobalBinding {
    if interface == "wl_seat"@ {
        GlobalBinding::Seat { version: if version < SEAT_VERSION { version } else { SEAT_VERSION } }
    } else if interface == "ext_data_control_manager_v1"@ {
        GlobalBinding::Manager {
            version: if version < MANAGER_VERSION {
                version
            } else {
                MANAGER_VERSION
            },
        }
    } else {
        GlobalBinding::Ignore
    }
}

/// Decide what to bind for an advertised global.
pub fn binding_for(interface: &str, version: u32) -> (b: GlobalBinding)
    ensures
        b == binding_spec(interface@, version),
{
    if str_eq(interface, "wl_seat") {
        GlobalBinding::Seat { version: if version < SEAT_VERSION { version } else { SEAT_VERSION } }
    } else if str_eq(interface, "ext_data_control_manager_v1") {
        GlobalBinding::Manager {
            version: if version < MANAGER_VERSION {
                version
            } else {
                MANAGER_VERSION
            },
        }
    } else {
        GlobalBinding::Ignore
    }
}

/// Whether the bound globals let the daemon start: the seat is checked
/// first (`NoSeat`), then the data-control manager (`NoManager`).
pub fn check_globals(has_seat: bool, has_manager: bool) -> (r: Result<(), ClipboardError>)
    ensures
        r == (if !has_seat {
            Err(ClipboardError::NoSeat)
        } else if !has_manager {
            Err(ClipboardError::NoManager)
        } else {
            Ok(())
        }),
{
    if !has_seat {
        return Err(ClipboardError::NoSeat);
    }
    if !has_manager {
        return Err(ClipboardError::NoManager);
    }
    Ok(())
}

} // verus!
