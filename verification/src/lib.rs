//! A clipboard history keeper: a deduplicating, capacity-bounded, ordered
//! collection of text and image clipboard entries, with a newline-delimited
//! JSON persistence format and mtime-based external-edit reconciliation.
//!
//! This crate holds the verified core: the entry model, the content hashing,
//! the record codec, and the history store's state transitions. File and
//! clipboard I/O live outside, in a thin shim that calls into this crate.

use vstd::prelude::*;

pub mod clock;
pub mod codec;
pub mod entry;
pub mod hashing;
pub mod helpers;
pub mod history;
pub mod hyprland;
pub mod imaging;
pub mod monitor;
pub mod ui;
pub mod text;

verus! {

/// Maximum number of entries the default store keeps.
pub const MAX_HISTORY: usize = 50;

/// Interval between clipboard polls, in milliseconds.
pub const POLL_INTERVAL_MS: u64 = 150;

/// Maximum number of characters shown for one entry in the list view.
pub const MAX_DISPLAY_LENGTH: usize = 75;

/// Name of the backing history file inside the data directory.
pub const HISTORY_FILE: &'static str = "clipboard_history.json";

/// Name of the process id file inside the data directory.
pub const PID_FILE: &'static str = "clipboard_manager.pid";

/// Name of the image blob directory inside the data directory.
pub const IMAGES_DIR: &'static str = "images";

} // verus!
