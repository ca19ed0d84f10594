//! Session state engine of an in-editor file navigator: directory listings,
//! per-directory cursor history, a process-wide selection of entries, the
//! navigation state machine of each session, a deferred queue for editor
//! lifecycle events, and the plans behind batch file operations.
//!
//! Everything here is pure: the editor and the filesystem are driven by the
//! caller, which hands plain values in and performs the requests handed back.

pub mod path;
pub mod listing;
pub mod history;
pub mod selection;
pub mod state;
pub mod deferred;
pub mod ops;
pub mod utils;
