//! Verified core of a utility that finds removable USB and FireWire drives and
//! ejects them safely.
//!
//! The operating-system queries (drive bitmask, drive types, volume labels,
//! storage descriptors, ejection requests) are performed by the caller; this
//! crate holds the decisions and data transformations between them.

pub mod commands;
pub mod drives;
pub mod eject;
pub mod text;
pub mod ui;
pub mod utils;
