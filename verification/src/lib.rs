//! Host-side core of a plugin runtime: descriptor validation, a
//! dependency- and priority-respecting load order, an event bus with
//! snapshot delivery, cancellable timers, and a shared key-value store,
//! composed behind a single host facade.

pub mod descriptor;
pub mod events;
pub mod host;
pub mod order;
pub mod store;
pub mod timers;

use vstd::prelude::*;

verus! {

/// The binary-interface version this host supports. A descriptor that
/// declares any other value is rejected before the plugin is ever called.
pub const ABI_V1: u32 = 1;

/// Priority bucket that loads before `PRIORITY_DEFAULT`.
pub const PRIORITY_FIRST: i8 = 0;

/// Priority bucket assumed when a descriptor carries an unrecognized value.
pub const PRIORITY_DEFAULT: i8 = 1;

/// Priority bucket that loads after `PRIORITY_DEFAULT`.
pub const PRIORITY_LATER: i8 = 2;

/// Dependency kind: the named plugin must be present and load first.
pub const DEP_TYPE_REQUIRED: u8 = 0;

/// Dependency kind: the named plugin orders first when present, and is
/// skipped silently when absent.
pub const DEP_TYPE_OPTIONAL: u8 = 1;

} // verus!
